use silicon_music::spotify::{
    account_from_profile, apply_token_refresh, callback_code, client_id_is_set, code_challenge,
    needs_token_refresh, random_url_safe, spotify_await_login, spotify_begin_login,
    spotify_list_accounts, spotify_logout, spotify_switch_account, token_account_id,
    tokens_from_exchange, SpotifyAccount, SpotifyAccountsIndex, SpotifyTokens,
};

fn acct(id: &str) -> SpotifyAccount {
    SpotifyAccount {
        id: id.to_string(),
        display_name: id.to_uppercase(),
        email: String::new(),
        avatar_url: None,
        added_at: 1,
    }
}

#[test]
fn pkce_challenge_matches_the_rfc_example() {
    assert_eq!(
        code_challenge("dBjftJeZ4CVP-mB92K27uhbUJU1p1r_wW1gFWFOEjXk"),
        "E9Melhoa2OwvFrEMTJguCHaoeK1t8URWbuGJSstw-cM"
    );
}

#[test]
fn random_strings_are_url_safe_and_fresh() {
    let a = random_url_safe(64);
    let b = random_url_safe(64);
    assert_eq!(a.len(), 86);
    assert_eq!(random_url_safe(16).len(), 22);
    assert_ne!(a, b);
    assert!(a
        .chars()
        .all(|c| c.is_ascii_alphanumeric() || c == '-' || c == '_'));
}

#[test]
fn the_authorize_url_is_percent_encoded() {
    let r = spotify_begin_login(
        "L1".to_string(),
        "my client",
        "http://127.0.0.1:43821/callback",
        "st",
        "ch",
    );
    assert_eq!(r.login_id, "L1");
    assert_eq!(
        r.authorize_url,
        "https://accounts.spotify.com/authorize?response_type=code&client_id=my%20client\
&scope=playlist-read-private%20playlist-read-collaborative%20playlist-modify-private%20playlist-modify-public%20user-read-private\
&redirect_uri=http%3A%2F%2F127.0.0.1%3A43821%2Fcallback&state=st&code_challenge_method=S256&code_challenge=ch"
    );
}

#[test]
fn a_blank_client_id_is_not_set() {
    assert!(client_id_is_set("abc"));
    assert!(!client_id_is_set("   "));
}

#[test]
fn the_callback_checks_error_state_and_code() {
    let st = "s1".to_string();
    assert_eq!(
        callback_code(Some("access_denied".to_string()), None, None, &st),
        Err("Spotify login was not completed: access_denied".to_string())
    );
    assert_eq!(
        callback_code(None, None, Some("c".to_string()), &st),
        Err("missing state parameter".to_string())
    );
    assert_eq!(
        callback_code(None, Some("s2".to_string()), Some("c".to_string()), &st),
        Err("state mismatch".to_string())
    );
    assert_eq!(
        callback_code(None, Some("s1".to_string()), None, &st),
        Err("missing code parameter".to_string())
    );
    assert_eq!(
        callback_code(None, Some("s1".to_string()), Some("c".to_string()), &st),
        Ok("c".to_string())
    );
}

#[test]
fn tokens_need_a_refresh_token_and_refresh_a_minute_early() {
    assert_eq!(
        tokens_from_exchange("a".to_string(), None, 3600, "s".to_string(), 100).err(),
        Some("Spotify did not return a refresh token".to_string())
    );
    let mut t: SpotifyTokens =
        tokens_from_exchange("a".to_string(), Some("r".to_string()), 3600, "s".to_string(), 100)
            .unwrap();
    assert_eq!(t.expires_at, 3700);
    assert!(!needs_token_refresh(t.expires_at, 3639));
    assert!(needs_token_refresh(t.expires_at, 3640));
    apply_token_refresh(&mut t, "a2".to_string(), 9000, None);
    assert_eq!((t.access_token.as_str(), t.refresh_token.as_str()), ("a2", "r"));
    apply_token_refresh(&mut t, "a3".to_string(), 9500, Some("r2".to_string()));
    assert_eq!((t.refresh_token.as_str(), t.expires_at, t.scope.as_str()), ("r2", 9500, "s"));
}

#[test]
fn the_profile_fills_defaults() {
    let a = account_from_profile("u".to_string(), None, None, vec![], 5);
    assert_eq!(a.display_name, "Spotify user");
    assert_eq!(a.email, "");
    assert_eq!(a.avatar_url, None);
    let b = account_from_profile(
        "u".to_string(),
        Some("Me".to_string()),
        Some("me@x".to_string()),
        vec!["i1".to_string(), "i2".to_string()],
        5,
    );
    assert_eq!(b.avatar_url.as_deref(), Some("i1"));
    assert_eq!(b.added_at, 5);
}

#[test]
fn linking_upserts_and_activates() {
    let mut idx = SpotifyAccountsIndex { active: None, accounts: vec![acct("a"), acct("b")] };
    let mut again = acct("a");
    again.display_name = "Renamed".to_string();
    let s = spotify_await_login(&mut idx, again);
    assert!(s.is_active);
    assert_eq!(idx.accounts.len(), 2);
    assert_eq!(idx.accounts[0].display_name, "Renamed");
    assert_eq!(idx.active.as_deref(), Some("a"));
    spotify_await_login(&mut idx, acct("c"));
    assert_eq!(idx.accounts.len(), 3);
    let list = spotify_list_accounts(&idx);
    assert!(!list[0].is_active && list[2].is_active);
}

#[test]
fn switching_and_logging_out() {
    let mut idx = SpotifyAccountsIndex { active: Some("a".to_string()), accounts: vec![acct("a"), acct("b")] };
    assert_eq!(
        spotify_switch_account(&mut idx, "z".to_string()),
        Err("no such Spotify account: z".to_string())
    );
    assert_eq!(spotify_switch_account(&mut idx, "b".to_string()), Ok(()));
    assert_eq!(idx.active.as_deref(), Some("b"));
    assert_eq!(spotify_logout(&mut idx, &"b".to_string()), Ok(()));
    assert_eq!(idx.active.as_deref(), Some("a"));
    assert_eq!(spotify_logout(&mut idx, &"a".to_string()), Ok(()));
    assert_eq!(idx.active, None);
    assert!(spotify_logout(&mut idx, &"a".to_string()).is_err());
}

#[test]
fn the_token_account_defaults_to_the_active_one() {
    let idx = SpotifyAccountsIndex { active: Some("a".to_string()), accounts: vec![acct("a")] };
    assert_eq!(token_account_id(&idx, Some("b".to_string())), Ok("b".to_string()));
    assert_eq!(token_account_id(&idx, None), Ok("a".to_string()));
    let none = SpotifyAccountsIndex { active: None, accounts: vec![] };
    assert_eq!(
        token_account_id(&none, None),
        Err("no Spotify account is connected".to_string())
    );
}
