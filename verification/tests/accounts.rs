use silicon_music::accounts::{
    account_id_from_nanos, activate_relinked, dedup_accounts_by_identity, generate_account_id,
    get_auth_context, list_accounts, meta_identity, register_fresh_login, relink_account,
    remove_account, set_account_channel, switch_account, update_account_meta, Account,
    AccountsIndex, MetaUpdate,
};

fn row(id: &str, email: &str, photo: Option<&str>, added_at: i64) -> Account {
    Account {
        id: id.to_string(),
        email: email.to_string(),
        name: String::new(),
        photo_url: photo.map(|p| p.to_string()),
        page_id: None,
        channel_name: None,
        channel_photo_url: None,
        added_at,
    }
}

fn index(active: Option<&str>, accounts: Vec<Account>) -> AccountsIndex {
    AccountsIndex {
        active: active.map(|a| a.to_string()),
        accounts,
    }
}

fn ids(idx: &AccountsIndex) -> Vec<String> {
    idx.accounts.iter().map(|a| a.id.clone()).collect()
}

#[test]
fn identity_prefers_a_trimmed_lowercased_email() {
    assert_eq!(
        meta_identity("  Foo@Example.COM ", Some("https://x/a=s108")).as_deref(),
        Some("email:foo@example.com")
    );
}

#[test]
fn identity_falls_back_to_the_avatar_without_its_size_suffix() {
    assert_eq!(
        meta_identity("", Some("https://lh3.googleusercontent.com/a/abc=s108-c-k")).as_deref(),
        Some("photo:https://lh3.googleusercontent.com/a/abc")
    );
    assert_eq!(
        meta_identity("   ", Some(" https://x/a ")).as_deref(),
        Some("photo:https://x/a")
    );
}

#[test]
fn identity_is_none_without_email_or_avatar() {
    assert_eq!(meta_identity("", None), None);
    assert_eq!(meta_identity(" ", Some("=s108")), None);
}

#[test]
fn dedup_keeps_the_earliest_row_and_copies_the_freshest_jar() {
    let idx = index(
        Some("a"),
        vec![
            row("a", "x@y.com", None, 10),
            row("b", "X@Y.com", None, 5),
            row("c", "", None, 1),
            row("d", "z@y.com", None, 3),
        ],
    );
    let mtimes = vec![Some(100i128), Some(50), None, None];
    let plan = dedup_accounts_by_identity(&idx, &mtimes).expect("a duplicate to collapse");
    assert_eq!(ids(&plan.index), vec!["b", "c", "d"]);
    assert_eq!(plan.index.active.as_deref(), Some("b"));
    assert_eq!(plan.copies, vec![("a".to_string(), "b".to_string())]);
    assert_eq!(plan.removed, vec!["a".to_string()]);
}

#[test]
fn dedup_matches_rows_by_avatar_when_emails_are_missing() {
    let idx = index(
        Some("c"),
        vec![
            row("a", "", Some("https://p/1=s64"), 7),
            row("b", "", None, 1),
            row("c", "", Some("https://p/1=s108"), 9),
        ],
    );
    let mtimes = vec![None, None, None];
    let plan = dedup_accounts_by_identity(&idx, &mtimes).expect("a duplicate to collapse");
    assert_eq!(ids(&plan.index), vec!["a", "b"]);
    assert_eq!(plan.index.active.as_deref(), Some("a"));
    assert!(plan.copies.is_empty(), "no jar time readable: the keeper keeps its own");
    assert_eq!(plan.removed, vec!["c".to_string()]);
}

#[test]
fn dedup_breaks_an_add_time_tie_by_row_order() {
    let idx = index(
        None,
        vec![
            row("a", "q@q.com", None, 4),
            row("b", "q@q.com", None, 4),
        ],
    );
    let plan = dedup_accounts_by_identity(&idx, &vec![Some(1), Some(2)]).unwrap();
    assert_eq!(ids(&plan.index), vec!["a"]);
    assert_eq!(plan.index.active, None);
    assert_eq!(plan.copies, vec![("b".to_string(), "a".to_string())]);
}

#[test]
fn dedup_with_nothing_to_collapse_is_none() {
    let idx = index(
        Some("a"),
        vec![row("a", "a@a.com", None, 1), row("b", "", None, 2), row("c", "", None, 3)],
    );
    assert!(dedup_accounts_by_identity(&idx, &vec![None, None, None]).is_none());
    let single = index(None, vec![row("a", "a@a.com", None, 1)]);
    assert!(dedup_accounts_by_identity(&single, &vec![Some(1)]).is_none());
}

#[test]
fn list_flags_the_active_row_and_profiles() {
    let mut a = row("a", "a@a.com", Some("https://p/a"), 1);
    a.name = "Ann".to_string();
    a.page_id = Some("pg".to_string());
    let idx = index(Some("b"), vec![a, row("b", "b@b.com", None, 2)]);
    let list = list_accounts(&idx, &vec![true, false]);
    assert_eq!(list.len(), 2);
    assert_eq!(list[0].id, "a");
    assert_eq!(list[0].name, "Ann");
    assert_eq!(list[0].photo_url.as_deref(), Some("https://p/a"));
    assert_eq!(list[0].page_id.as_deref(), Some("pg"));
    assert!(!list[0].is_active);
    assert!(list[0].can_refresh);
    assert!(list[1].is_active);
    assert!(!list[1].can_refresh);
}

#[test]
fn switch_to_an_unknown_account_is_refused() {
    let mut idx = index(Some("a"), vec![row("a", "", None, 1)]);
    assert_eq!(
        switch_account(&mut idx, "zz".to_string()),
        Err("no such account: zz".to_string())
    );
    assert_eq!(idx.active.as_deref(), Some("a"));
}

#[test]
fn switch_reports_whether_the_active_account_moved() {
    let mut idx = index(Some("a"), vec![row("a", "", None, 1), row("b", "", None, 2)]);
    assert_eq!(switch_account(&mut idx, "a".to_string()), Ok(false));
    assert_eq!(switch_account(&mut idx, "b".to_string()), Ok(true));
    assert_eq!(idx.active.as_deref(), Some("b"));
    assert_eq!(ids(&idx), vec!["a", "b"]);
}

#[test]
fn removing_the_active_account_hands_over_to_the_first_row() {
    let mut idx = index(
        Some("b"),
        vec![row("a", "", None, 1), row("b", "", None, 2), row("c", "", None, 3)],
    );
    assert_eq!(remove_account(&mut idx, "b".to_string()), Ok(()));
    assert_eq!(ids(&idx), vec!["a", "c"]);
    assert_eq!(idx.active.as_deref(), Some("a"));
    assert_eq!(remove_account(&mut idx, "c".to_string()), Ok(()));
    assert_eq!(idx.active.as_deref(), Some("a"));
    assert_eq!(remove_account(&mut idx, "a".to_string()), Ok(()));
    assert_eq!(idx.active, None);
    assert!(idx.accounts.is_empty());
    assert_eq!(
        remove_account(&mut idx, "a".to_string()),
        Err("no such account: a".to_string())
    );
}

#[test]
fn channel_change_on_the_active_account_asks_for_a_reset() {
    let mut idx = index(Some("a"), vec![row("a", "", None, 1), row("b", "", None, 2)]);
    let r = set_account_channel(
        &mut idx,
        "a".to_string(),
        Some("brand".to_string()),
        Some("Brand".to_string()),
        None,
    );
    assert_eq!(r, Ok(true));
    assert_eq!(idx.accounts[0].page_id.as_deref(), Some("brand"));
    assert_eq!(idx.accounts[0].channel_name.as_deref(), Some("Brand"));
    // Same channel again: no reset.
    let r = set_account_channel(&mut idx, "a".to_string(), Some("brand".to_string()), None, None);
    assert_eq!(r, Ok(false));
    assert_eq!(idx.accounts[0].channel_name, None);
    // Another account's channel: no reset either.
    let r = set_account_channel(&mut idx, "b".to_string(), Some("x".to_string()), None, None);
    assert_eq!(r, Ok(false));
    assert_eq!(
        set_account_channel(&mut idx, "q".to_string(), None, None, None),
        Err("no such account: q".to_string())
    );
}

#[test]
fn meta_for_an_account_that_is_not_active_is_ignored() {
    let mut idx = index(Some("a"), vec![row("a", "", None, 1), row("b", "", None, 2)]);
    let r = update_account_meta(
        &mut idx,
        "b".to_string(),
        "Bob".to_string(),
        "b@b.com".to_string(),
        None,
    );
    assert!(matches!(r, Ok(MetaUpdate::Ignored)));
    assert_eq!(idx.accounts[1].name, "");
    assert_eq!(idx.accounts[1].email, "");
}

#[test]
fn first_meta_backfill_is_announced_and_later_ones_are_not() {
    let mut idx = index(Some("a"), vec![row("a", "", None, 1)]);
    let r = update_account_meta(
        &mut idx,
        "a".to_string(),
        "Ann".to_string(),
        "a@a.com".to_string(),
        Some("https://p/a".to_string()),
    );
    assert!(matches!(
        r,
        Ok(MetaUpdate::Saved { announce: true, merged_into: None })
    ));
    assert_eq!(idx.accounts[0].name, "Ann");
    assert_eq!(idx.accounts[0].email, "a@a.com");
    // An empty email and a missing avatar never wipe the stored ones.
    let r = update_account_meta(&mut idx, "a".to_string(), "Annie".to_string(), String::new(), None);
    assert!(matches!(
        r,
        Ok(MetaUpdate::Saved { announce: false, merged_into: None })
    ));
    assert_eq!(idx.accounts[0].name, "Annie");
    assert_eq!(idx.accounts[0].email, "a@a.com");
    assert_eq!(idx.accounts[0].photo_url.as_deref(), Some("https://p/a"));
}

#[test]
fn a_relogin_folds_into_the_existing_row() {
    let mut idx = index(
        Some("new"),
        vec![row("old", "me@x.com", None, 1), row("new", "", None, 9)],
    );
    let r = update_account_meta(
        &mut idx,
        "new".to_string(),
        "Me".to_string(),
        "ME@x.com".to_string(),
        None,
    );
    match r {
        Ok(MetaUpdate::Saved { announce, merged_into }) => {
            assert!(announce);
            assert_eq!(merged_into.as_deref(), Some("old"));
        }
        _ => panic!("expected a merge"),
    }
    assert_eq!(ids(&idx), vec!["old"]);
    assert_eq!(idx.active.as_deref(), Some("old"));
    assert_eq!(idx.accounts[0].name, "Me");
    assert_eq!(idx.accounts[0].email, "ME@x.com");
}

#[test]
fn brand_channel_meta_goes_to_the_channel_fields() {
    let mut a = row("a", "a@a.com", Some("https://p/a"), 1);
    a.name = "Ann".to_string();
    a.page_id = Some("pg".to_string());
    // The brand meta names another row's identity: no merge while acting
    // as a brand channel.
    let mut idx = index(Some("a"), vec![a, row("b", "brand@x.com", None, 2)]);
    let r = update_account_meta(
        &mut idx,
        "a".to_string(),
        "Brand".to_string(),
        "brand@x.com".to_string(),
        Some("https://p/brand".to_string()),
    );
    assert!(matches!(
        r,
        Ok(MetaUpdate::Saved { announce: false, merged_into: None })
    ));
    assert_eq!(ids(&idx), vec!["a", "b"]);
    assert_eq!(idx.accounts[0].name, "Ann");
    assert_eq!(idx.accounts[0].email, "a@a.com");
    assert_eq!(idx.accounts[0].photo_url.as_deref(), Some("https://p/a"));
    assert_eq!(idx.accounts[0].channel_name.as_deref(), Some("Brand"));
    assert_eq!(idx.accounts[0].channel_photo_url.as_deref(), Some("https://p/brand"));
}

#[test]
fn meta_for_an_active_id_without_a_row_is_an_error() {
    let mut idx = index(Some("ghost"), vec![row("a", "", None, 1)]);
    let r = update_account_meta(
        &mut idx,
        "ghost".to_string(),
        "G".to_string(),
        String::new(),
        None,
    );
    assert!(matches!(r, Err(ref e) if e == "no such account: ghost"));
}

#[test]
fn auth_context_pairs_the_cookie_with_the_active_page_id() {
    let mut a = row("a", "", None, 1);
    a.page_id = Some("pg".to_string());
    let idx = index(Some("a"), vec![row("b", "", None, 0), a]);
    let ctx = get_auth_context(&idx, "SID=1".to_string());
    assert_eq!(ctx.cookie, "SID=1");
    assert_eq!(ctx.page_id.as_deref(), Some("pg"));
    let ctx = get_auth_context(&idx, String::new());
    assert_eq!(ctx.page_id, None);
    let signed_out = index(None, vec![row("a", "", None, 1)]);
    assert_eq!(get_auth_context(&signed_out, "SID=1".to_string()).page_id, None);
}

#[test]
fn account_ids_are_the_hex_of_the_clock() {
    assert_eq!(account_id_from_nanos(255), "acct-ff");
    assert_eq!(account_id_from_nanos(0), "acct-0");
    assert_eq!(
        account_id_from_nanos(1_700_000_000_123_456_789),
        format!("acct-{:x}", 1_700_000_000_123_456_789i128)
    );
    assert_eq!(account_id_from_nanos(-1), format!("acct-{:x}", -1i128));
    let id = generate_account_id();
    assert!(id.starts_with("acct-"));
    assert!(id.len() > 5);
}

#[test]
fn fresh_sign_in_adds_an_empty_active_row() {
    let mut idx = index(Some("a"), vec![row("a", "a@a.com", None, 1)]);
    register_fresh_login(&mut idx, "acct-1".to_string(), 42);
    assert_eq!(ids(&idx), vec!["a", "acct-1"]);
    assert_eq!(idx.active.as_deref(), Some("acct-1"));
    assert_eq!(idx.accounts[1].added_at, 42);
    assert_eq!(idx.accounts[1].email, "");
}

#[test]
fn relink_needs_a_known_account_and_activates_it() {
    let mut idx = index(Some("a"), vec![row("a", "", None, 1), row("b", "", None, 2)]);
    assert_eq!(relink_account(&idx, &"b".to_string()), Ok(()));
    assert_eq!(
        relink_account(&idx, &"z".to_string()),
        Err("unknown account".to_string())
    );
    assert!(activate_relinked(&mut idx, "b".to_string()));
    assert!(!activate_relinked(&mut idx, "b".to_string()));
    assert_eq!(idx.active.as_deref(), Some("b"));
}

#[test]
fn emails_differing_in_case_are_one_identity() {
    assert_eq!(meta_identity("Me@X.com", None), meta_identity("me@x.com", None));
    assert_eq!(
        meta_identity("", Some("https://p/1=s64")),
        meta_identity("", Some("https://p/1"))
    );
}
