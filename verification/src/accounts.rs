//! The YouTube Music accounts index (`accounts.json`) and every decision
//! made on it: which rows are the same Google account, how a re-login
//! folds into the row it duplicates, what switching, removing and
//! channel selection do, and which rows a boot-time dedup keeps.
//!
//! The functions here take the index as read from disk and change it in
//! place (or hand back a plan); reading, writing and moving files stays
//! with the caller.

use vstd::prelude::*;
use crate::text::{
    active_is, ascii_lower_seq, chars_of, clone_opt, find_char, first_index, free_of, hex_digits,
    hex_u128, is_active_id, lemma_first_index_at, lemma_trim_lower, opt_chars, push_chars, slice_chars,
    to_ascii_lowercase, trim, trim_chars,
};

verus! {

// ---------------------------------------------------------------------
// Persisted data
// ---------------------------------------------------------------------

/// One row of `accounts.json`. Cookies are not stored here: they live
/// encrypted under `accounts/<id>/cookies.enc`.
pub struct Account {
    pub id: String,
    pub email: String,
    pub name: String,
    pub photo_url: Option<String>,
    /// Brand-channel identity within this Google account; `None` is the
    /// personal channel.
    pub page_id: Option<String>,
    pub channel_name: Option<String>,
    pub channel_photo_url: Option<String>,
    /// Unix seconds when the account was first added.
    pub added_at: i64,
}

/// Root document of `accounts.json`: the active account's id (`None`
/// when signed out of everything) and the rows.
pub struct AccountsIndex {
    pub active: Option<String>,
    pub accounts: Vec<Account>,
}

/// What the frontend is handed for one account.
pub struct AccountSummary {
    pub id: String,
    pub email: String,
    pub name: String,
    pub photo_url: Option<String>,
    pub page_id: Option<String>,
    pub channel_name: Option<String>,
    pub channel_photo_url: Option<String>,
    pub is_active: bool,
    /// The account has a persisted browser profile, so its session can
    /// be renewed; otherwise the UI offers a re-link.
    pub can_refresh: bool,
}

pub struct AcctView {
    pub id: Seq<char>,
    pub email: Seq<char>,
    pub name: Seq<char>,
    pub photo_url: Option<Seq<char>>,
    pub page_id: Option<Seq<char>>,
    pub channel_name: Option<Seq<char>>,
    pub channel_photo_url: Option<Seq<char>>,
    pub added_at: i64,
}

impl View for Account {
    type V = AcctView;

    open spec fn view(&self) -> AcctView {
        AcctView {
            id: self.id@,
            email: self.email@,
            name: self.name@,
            photo_url: opt_chars(self.photo_url),
            page_id: opt_chars(self.page_id),
            channel_name: opt_chars(self.channel_name),
            channel_photo_url: opt_chars(self.channel_photo_url),
            added_at: self.added_at,
        }
    }
}

pub open spec fn acct_views(v: Seq<Account>) -> Seq<AcctView> {
    v.map_values(|a: Account| a@)
}

pub struct IndexView {
    pub active: Option<Seq<char>>,
    pub accounts: Seq<AcctView>,
}

impl View for AccountsIndex {
    type V = IndexView;

    open spec fn view(&self) -> IndexView {
        IndexView { active: opt_chars(self.active), accounts: acct_views(self.accounts@) }
    }
}

impl Account {
    pub fn duplicate(&self) -> (r: Account)
        ensures
            r@ == self@,
    {
        Account {
            id: self.id.clone(),
            email: self.email.clone(),
            name: self.name.clone(),
            photo_url: clone_opt(&self.photo_url),
            page_id: clone_opt(&self.page_id),
            channel_name: clone_opt(&self.channel_name),
            channel_photo_url: clone_opt(&self.channel_photo_url),
            added_at: self.added_at,
        }
    }
}

/// No two rows share an id: what every index this app writes looks like.
pub open spec fn ids_distinct(rows: Seq<AcctView>) -> bool {
    forall|i: int, j: int|
        0 <= i < rows.len() && 0 <= j < rows.len() && i != j ==> #[trigger] rows[i].id
            != #[trigger] rows[j].id
}

fn opt_str(o: &Option<String>) -> (r: Option<&str>)
    ensures
        match r {
            Some(s) => opt_chars(*o) == Some(s@),
            None => o.is_none(),
        },
{
    match o {
        Some(s) => Some(s.as_str()),
        None => None,
    }
}

fn opt_eq(a: &Option<String>, b: &Option<String>) -> (r: bool)
    ensures
        r == (opt_chars(*a) == opt_chars(*b)),
{
    match (a, b) {
        (Some(x), Some(y)) => *x == *y,
        (None, None) => true,
        _ => false,
    }
}

// ---------------------------------------------------------------------
// Identity
// ---------------------------------------------------------------------

/// An avatar URL without its `=s108-c-k-...` sizing suffix, trimmed.
pub open spec fn photo_base(p: Seq<char>) -> Seq<char> {
    trim(
        match first_index(p, '=') {
            Some(i) => p.take(i),
            None => p,
        },
    )
}

/// Which Google account a row's stored meta describes: the trimmed,
/// ASCII-lowercased email when there is one, else the avatar without its
/// sizing suffix, else nothing. Cookie values cannot serve: every login
/// mints a fresh session.
pub open spec fn identity_of(email: Seq<char>, photo_url: Option<Seq<char>>) -> Option<Seq<char>> {
    if trim(email).len() > 0 {
        Some("email:"@ + ascii_lower_seq(trim(email)))
    } else {
        match photo_url {
            Some(p) => if photo_base(p).len() > 0 {
                Some("photo:"@ + photo_base(p))
            } else {
                None
            },
            None => None,
        }
    }
}

pub open spec fn row_identity(a: AcctView) -> Option<Seq<char>> {
    identity_of(a.email, a.photo_url)
}

/// The identity key of an account's meta (see `identity_of`).
pub fn meta_identity(email: &str, photo_url: Option<&str>) -> (r: Option<String>)
    ensures
        opt_chars(r) == identity_of(
            email@,
            match photo_url {
                Some(p) => Some(p@),
                None => None,
            },
        ),
{
    let e = trim_chars(&chars_of(email));
    if e.len() > 0 {
        let mut out = String::new();
        push_chars(&mut out, &chars_of("email:"));
        push_chars(&mut out, &to_ascii_lowercase(&e));
        return Some(out);
    }
    match photo_url {
        Some(p) => {
            let pc = chars_of(p);
            let head = match find_char(&pc, '=') {
                Some(i) => slice_chars(&pc, 0, i),
                None => slice_chars(&pc, 0, pc.len()),
            };
            assert(pc@.subrange(0, pc@.len() as int) =~= pc@);
            let base = trim_chars(&head);
            if base.len() > 0 {
                let mut out = String::new();
                push_chars(&mut out, &chars_of("photo:"));
                push_chars(&mut out, &base);
                Some(out)
            } else {
                None
            }
        },
        None => None,
    }
}

fn account_identity(a: &Account) -> (r: Option<String>)
    ensures
        opt_chars(r) == row_identity(a@),
{
    meta_identity(a.email.as_str(), opt_str(&a.photo_url))
}


// ---------------------------------------------------------------------
// Boot-time dedup by identity
// ---------------------------------------------------------------------

/// The row, among the first `n`, with identity `key` that was added
/// earliest; the first such on a tie. `-1` when there is none.
pub open spec fn earliest_in(rows: Seq<AcctView>, key: Seq<char>, n: int) -> int
    decreases n,
{
    if n <= 0 {
        -1
    } else {
        let b = earliest_in(rows, key, n - 1);
        if row_identity(rows[n - 1]) == Some(key) && (b < 0 || rows[n - 1].added_at
            < rows[b].added_at) {
            n - 1
        } else {
            b
        }
    }
}

/// The row kept for identity `key`: its id is the one pins are keyed to.
pub open spec fn keeper_row(rows: Seq<AcctView>, key: Seq<char>) -> int {
    earliest_in(rows, key, rows.len() as int)
}

/// The row, among the first `n`, with identity `key` whose jar was
/// written last (`mtimes`, where it could be read); the first such on a
/// tie. `-1` when none has a readable time.
pub open spec fn freshest_in(
    rows: Seq<AcctView>,
    mtimes: Seq<Option<i128>>,
    key: Seq<char>,
    n: int,
) -> int
    decreases n,
{
    if n <= 0 {
        -1
    } else {
        let b = freshest_in(rows, mtimes, key, n - 1);
        if row_identity(rows[n - 1]) == Some(key) && mtimes[n - 1] is Some && (b < 0
            || mtimes[n - 1]->0 > mtimes[b]->0) {
            n - 1
        } else {
            b
        }
    }
}

/// The row whose cookies the keeper of `key` ends up with: the freshest
/// jar, or the keeper's own when no time could be read.
pub open spec fn source_row(rows: Seq<AcctView>, mtimes: Seq<Option<i128>>, key: Seq<char>) -> int {
    let f = freshest_in(rows, mtimes, key, rows.len() as int);
    if f < 0 {
        keeper_row(rows, key)
    } else {
        f
    }
}

/// Row `i` shares its identity with an earlier-kept row and goes.
/// Unidentifiable rows never do.
pub open spec fn is_dropped(rows: Seq<AcctView>, i: int) -> bool {
    match row_identity(rows[i]) {
        Some(k) => keeper_row(rows, k) != i,
        None => false,
    }
}

/// Some dropped row has id `id`.
pub open spec fn drops_id(rows: Seq<AcctView>, id: Seq<char>) -> bool {
    exists|j: int| 0 <= j < rows.len() && is_dropped(rows, j) && #[trigger] rows[j].id == id
}

/// A row survives the dedup when no dropped row carries its id.
#[verifier::opaque]
pub open spec fn survives(rows: Seq<AcctView>, i: int) -> bool {
    !drops_id(rows, rows[i].id)
}

/// The first `n` rows that survive, in order.
pub open spec fn surviving_rows(rows: Seq<AcctView>, n: int) -> Seq<AcctView>
    decreases n,
{
    if n <= 0 {
        Seq::empty()
    } else if survives(rows, n - 1) {
        surviving_rows(rows, n - 1).push(rows[n - 1])
    } else {
        surviving_rows(rows, n - 1)
    }
}

/// The ids of the dropped rows among the first `n`, in order.
pub open spec fn dropped_ids(rows: Seq<AcctView>, n: int) -> Seq<Seq<char>>
    decreases n,
{
    if n <= 0 {
        Seq::empty()
    } else if is_dropped(rows, n - 1) {
        dropped_ids(rows, n - 1).push(rows[n - 1].id)
    } else {
        dropped_ids(rows, n - 1)
    }
}

/// Row `r` keeps its group and takes another row's jar.
pub open spec fn takes_copy(rows: Seq<AcctView>, mtimes: Seq<Option<i128>>, r: int) -> bool {
    match row_identity(rows[r]) {
        Some(k) => keeper_row(rows, k) == r && source_row(rows, mtimes, k) != r,
        None => false,
    }
}

/// `(source id, keeper id)` jar copies, by keeper row among the first `n`.
pub open spec fn jar_copies(rows: Seq<AcctView>, mtimes: Seq<Option<i128>>, n: int) -> Seq<
    (Seq<char>, Seq<char>),
>
    decreases n,
{
    if n <= 0 {
        Seq::empty()
    } else if takes_copy(rows, mtimes, n - 1) {
        jar_copies(rows, mtimes, n - 1).push(
            (rows[source_row(rows, mtimes, row_identity(rows[n - 1])->0)].id, rows[n - 1].id),
        )
    } else {
        jar_copies(rows, mtimes, n - 1)
    }
}

/// The first dropped row, among the first `n`, with id `id`; `-1` if none.
pub open spec fn first_dropped_with_id(rows: Seq<AcctView>, id: Seq<char>, n: int) -> int
    decreases n,
{
    if n <= 0 {
        -1
    } else {
        let b = first_dropped_with_id(rows, id, n - 1);
        if b < 0 && is_dropped(rows, n - 1) && rows[n - 1].id == id {
            n - 1
        } else {
            b
        }
    }
}

/// The active account after the dedup: a dropped active row hands over
/// to its keeper.
pub open spec fn deduped_active(rows: Seq<AcctView>, active: Option<Seq<char>>) -> Option<
    Seq<char>,
> {
    match active {
        Some(a) => {
            let j = first_dropped_with_id(rows, a, rows.len() as int);
            if j >= 0 {
                Some(rows[keeper_row(rows, row_identity(rows[j])->0)].id)
            } else {
                Some(a)
            }
        },
        None => None,
    }
}

/// What a dedup does: the collapsed index to write, the jars to copy
/// into keepers first, and the rows whose directories go afterwards.
pub struct DedupPlan {
    pub index: AccountsIndex,
    pub copies: Vec<(String, String)>,
    pub removed: Vec<String>,
}

pub open spec fn pair_views(v: Seq<(String, String)>) -> Seq<(Seq<char>, Seq<char>)> {
    v.map_values(|p: (String, String)| (p.0@, p.1@))
}

pub open spec fn string_seq_views(v: Seq<String>) -> Seq<Seq<char>> {
    v.map_values(|s: String| s@)
}

proof fn lemma_earliest_in(rows: Seq<AcctView>, key: Seq<char>, n: int)
    requires
        0 <= n <= rows.len(),
    ensures
        -1 <= earliest_in(rows, key, n) < n,
        earliest_in(rows, key, n) >= 0 ==> row_identity(rows[earliest_in(rows, key, n)]) == Some(
            key,
        ),
        (exists|j: int| 0 <= j < n && #[trigger] row_identity(rows[j]) == Some(key))
            ==> earliest_in(rows, key, n) >= 0,
        forall|j: int|
            0 <= j < n && #[trigger] row_identity(rows[j]) == Some(key) ==> rows[earliest_in(
                rows,
                key,
                n,
            )].added_at <= rows[j].added_at,
        forall|j: int|
            0 <= j < earliest_in(rows, key, n) && #[trigger] row_identity(rows[j]) == Some(key)
                ==> rows[earliest_in(rows, key, n)].added_at < rows[j].added_at,
    decreases n,
{
    if n > 0 {
        lemma_earliest_in(rows, key, n - 1);
    }
}

proof fn lemma_freshest_in(rows: Seq<AcctView>, mtimes: Seq<Option<i128>>, key: Seq<char>, n: int)
    requires
        0 <= n <= rows.len(),
        n <= mtimes.len(),
    ensures
        -1 <= freshest_in(rows, mtimes, key, n) < n,
        freshest_in(rows, mtimes, key, n) >= 0 ==> row_identity(
            rows[freshest_in(rows, mtimes, key, n)],
        ) == Some(key) && mtimes[freshest_in(rows, mtimes, key, n)] is Some,
        forall|j: int|
            0 <= j < n && #[trigger] row_identity(rows[j]) == Some(key) && mtimes[j] is Some
                ==> freshest_in(rows, mtimes, key, n) >= 0 && mtimes[j]->0 <= mtimes[freshest_in(
                rows,
                mtimes,
                key,
                n,
            )]->0,
    decreases n,
{
    if n > 0 {
        lemma_freshest_in(rows, mtimes, key, n - 1);
    }
}

/// The earliest-added row with identity `key`.
fn keeper_index(rows: &Vec<Account>, ids: &Vec<Option<String>>, key: &String) -> (r: usize)
    requires
        ids@.len() == rows@.len(),
        forall|i: int| 0 <= i < ids@.len() ==> opt_chars(#[trigger] ids@[i]) == row_identity(
            rows@[i]@,
        ),
        exists|j: int| 0 <= j < rows@.len() && #[trigger] row_identity(rows@[j]@) == Some(key@),
    ensures
        r as int == keeper_row(acct_views(rows@), key@),
        r < rows@.len(),
{
    let ghost vs = acct_views(rows@);
    let ghost k = key@;
    let mut best: usize = 0;
    let mut found = false;
    let mut j: usize = 0;
    while j < rows.len()
        invariant
            vs == acct_views(rows@),
            k == key@,
            ids@.len() == rows@.len(),
            forall|i: int| 0 <= i < ids@.len() ==> opt_chars(#[trigger] ids@[i]) == row_identity(
                rows@[i]@,
            ),
            j <= rows@.len(),
            found ==> best < j && earliest_in(vs, k, j as int) == best as int,
            !found ==> earliest_in(vs, k, j as int) == -1,
        decreases rows@.len() - j,
    {
        let is_key = match &ids[j] {
            Some(x) => *x == *key,
            None => false,
        };
        assert(is_key == (row_identity(vs[j as int]) == Some(k)));
        if is_key && (!found || rows[j].added_at < rows[best].added_at) {
            best = j;
            found = true;
        }
        j = j + 1;
    }
    proof {
        lemma_earliest_in(vs, k, vs.len() as int);
        let w = choose|w: int| 0 <= w < rows@.len() && #[trigger] row_identity(rows@[w]@) == Some(key@);
        assert(row_identity(vs[w]) == Some(k));
    }
    best
}

/// The row whose jar the keeper of `key` should end up with.
fn source_index(rows: &Vec<Account>, ids: &Vec<Option<String>>, mtimes: &Vec<Option<i128>>, key: &String, keeper: usize) -> (r: usize)
    requires
        ids@.len() == rows@.len(),
        mtimes@.len() == rows@.len(),
        forall|i: int| 0 <= i < ids@.len() ==> opt_chars(#[trigger] ids@[i]) == row_identity(
            rows@[i]@,
        ),
        keeper as int == keeper_row(acct_views(rows@), key@),
    ensures
        r as int == source_row(acct_views(rows@), mtimes@, key@),
{
    let ghost vs = acct_views(rows@);
    let ghost k = key@;
    let mut best: usize = 0;
    let mut found = false;
    let mut j: usize = 0;
    while j < rows.len()
        invariant
            vs == acct_views(rows@),
            k == key@,
            ids@.len() == rows@.len(),
            mtimes@.len() == rows@.len(),
            forall|i: int| 0 <= i < ids@.len() ==> opt_chars(#[trigger] ids@[i]) == row_identity(
                rows@[i]@,
            ),
            j <= rows@.len(),
            found ==> best < j && freshest_in(vs, mtimes@, k, j as int) == best as int
                && mtimes@[best as int] is Some,
            !found ==> freshest_in(vs, mtimes@, k, j as int) == -1,
        decreases rows@.len() - j,
    {
        let is_key = match &ids[j] {
            Some(x) => *x == *key,
            None => false,
        };
        assert(is_key == (row_identity(vs[j as int]) == Some(k)));
        if is_key {
            match mtimes[j] {
                Some(t) => {
                    let newer = if found {
                        match mtimes[best] {
                            Some(b) => t > b,
                            None => true,
                        }
                    } else {
                        true
                    };
                    if newer {
                        best = j;
                        found = true;
                    }
                },
                None => {},
            }
        }
        j = j + 1;
    }
    if found {
        best
    } else {
        keeper
    }
}

/// Row ids, identities, keepers and drop flags of an index, row by row.
fn classify_rows(rows: &Vec<Account>) -> (r: (Vec<Option<String>>, Vec<usize>, Vec<bool>))
    ensures
        r.0@.len() == rows@.len(),
        r.1@.len() == rows@.len(),
        r.2@.len() == rows@.len(),
        forall|i: int| 0 <= i < rows@.len() ==> opt_chars(#[trigger] r.0@[i]) == row_identity(
            rows@[i]@,
        ),
        forall|i: int|
            0 <= i < rows@.len() ==> (#[trigger] r.2@[i]) == is_dropped(acct_views(rows@), i),
        forall|i: int|
            0 <= i < rows@.len() && row_identity(rows@[i]@) is Some ==> (#[trigger] r.1@[i]) as int
                == keeper_row(acct_views(rows@), row_identity(rows@[i]@)->0),
{
    let ghost vs = acct_views(rows@);
    let mut ids: Vec<Option<String>> = Vec::new();
    let mut i: usize = 0;
    while i < rows.len()
        invariant
            i <= rows@.len(),
            ids@.len() == i,
            forall|k: int| 0 <= k < i ==> opt_chars(#[trigger] ids@[k]) == row_identity(rows@[k]@),
        decreases rows@.len() - i,
    {
        ids.push(account_identity(&rows[i]));
        i = i + 1;
    }
    let mut keepers: Vec<usize> = Vec::new();
    let mut dropped: Vec<bool> = Vec::new();
    let mut i: usize = 0;
    while i < rows.len()
        invariant
            vs == acct_views(rows@),
            ids@.len() == rows@.len(),
            forall|k: int| 0 <= k < rows@.len() ==> opt_chars(#[trigger] ids@[k]) == row_identity(
                rows@[k]@,
            ),
            i <= rows@.len(),
            keepers@.len() == i,
            dropped@.len() == i,
            forall|k: int| 0 <= k < i ==> (#[trigger] dropped@[k]) == is_dropped(vs, k),
            forall|k: int|
                0 <= k < i && row_identity(rows@[k]@) is Some ==> (#[trigger] keepers@[k]) as int
                    == keeper_row(vs, row_identity(rows@[k]@)->0),
        decreases rows@.len() - i,
    {
        assert(opt_chars(ids@[i as int]) == row_identity(rows@[i as int]@));
        match &ids[i] {
            Some(key) => {
                assert(row_identity(rows@[i as int]@) == Some(key@));
                let kp = keeper_index(rows, &ids, key);
                keepers.push(kp);
                dropped.push(kp != i);
            },
            None => {
                keepers.push(i);
                dropped.push(false);
            },
        }
        i = i + 1;
    }
    (ids, keepers, dropped)
}


/// Whether some dropped row has id `id`, and the first such row.
fn first_dropped_row(rows: &Vec<Account>, dropped: &Vec<bool>, id: &String) -> (r: Option<usize>)
    requires
        dropped@.len() == rows@.len(),
        forall|i: int|
            0 <= i < rows@.len() ==> (#[trigger] dropped@[i]) == is_dropped(acct_views(rows@), i),
    ensures
        match r {
            Some(j) => j as int == first_dropped_with_id(acct_views(rows@), id@, rows@.len() as int)
                && j < rows@.len(),
            None => first_dropped_with_id(acct_views(rows@), id@, rows@.len() as int) == -1,
        },
        r is Some == drops_id(acct_views(rows@), id@),
{
    let ghost vs = acct_views(rows@);
    let mut j: usize = 0;
    while j < rows.len()
        invariant
            vs == acct_views(rows@),
            dropped@.len() == rows@.len(),
            forall|i: int| 0 <= i < rows@.len() ==> (#[trigger] dropped@[i]) == is_dropped(vs, i),
            j <= rows@.len(),
            first_dropped_with_id(vs, id@, j as int) == -1,
            forall|i: int| 0 <= i < j && is_dropped(vs, i) ==> #[trigger] vs[i].id != id@,
        decreases rows@.len() - j,
    {
        if dropped[j] && rows[j].id == *id {
            proof {
                lemma_first_dropped_stays(vs, id@, j as int + 1, rows@.len() as int);
            }
            assert(vs[j as int].id == id@);
            return Some(j);
        }
        j = j + 1;
    }
    None
}

proof fn lemma_first_dropped_with_id(rows: Seq<AcctView>, id: Seq<char>, n: int)
    requires
        0 <= n <= rows.len(),
    ensures
        -1 <= first_dropped_with_id(rows, id, n) < n,
        first_dropped_with_id(rows, id, n) >= 0 ==> is_dropped(
            rows,
            first_dropped_with_id(rows, id, n),
        ) && rows[first_dropped_with_id(rows, id, n)].id == id,
    decreases n,
{
    if n > 0 {
        lemma_first_dropped_with_id(rows, id, n - 1);
    }
}

proof fn lemma_first_dropped_stays(rows: Seq<AcctView>, id: Seq<char>, m: int, n: int)
    requires
        0 <= m <= n <= rows.len(),
        first_dropped_with_id(rows, id, m) >= 0,
    ensures
        first_dropped_with_id(rows, id, n) == first_dropped_with_id(rows, id, m),
    decreases n - m,
{
    if n > m {
        lemma_first_dropped_stays(rows, id, m, n - 1);
    }
}

/// Collapses rows that are the same Google account (see `identity_of`).
/// Within each set of rows sharing an identity the earliest-added row is
/// kept, with the freshest jar (`jar_mtimes`, one per row, `None` where
/// the time could not be read) copied into it; the other rows go, and an
/// active dropped row hands over to its keeper. A row that cannot be
/// identified is left alone. `None` when there is nothing to collapse.
pub fn dedup_accounts_by_identity(idx: &AccountsIndex, jar_mtimes: &Vec<Option<i128>>) -> (r: Option<
    DedupPlan,
>)
    requires
        jar_mtimes@.len() == idx.accounts@.len(),
    ensures
        match r {
            None => forall|i: int|
                0 <= i < idx.accounts@.len() ==> !#[trigger] is_dropped(idx@.accounts, i),
            Some(p) => {
                &&& exists|i: int|
                    0 <= i < idx.accounts@.len() && #[trigger] is_dropped(idx@.accounts, i)
                &&& p.index@.accounts == surviving_rows(
                    idx@.accounts,
                    idx.accounts@.len() as int,
                )
                &&& p.index@.active == deduped_active(idx@.accounts, idx@.active)
                &&& pair_views(p.copies@) == jar_copies(
                    idx@.accounts,
                    jar_mtimes@,
                    idx.accounts@.len() as int,
                )
                &&& string_seq_views(p.removed@) == dropped_ids(
                    idx@.accounts,
                    idx.accounts@.len() as int,
                )
            },
        },
{
    let rows = &idx.accounts;
    let ghost vs = acct_views(rows@);
    let ghost n = rows@.len() as int;
    let (ids, keepers, dropped) = classify_rows(rows);
    let mut any = false;
    let mut i: usize = 0;
    while i < rows.len()
        invariant
            i <= rows@.len(),
            dropped@.len() == rows@.len(),
            any == exists|k: int| 0 <= k < i && #[trigger] dropped@[k],
        decreases rows@.len() - i,
    {
        if dropped[i] {
            any = true;
        }
        i = i + 1;
    }
    if !any {
        assert forall|k: int| 0 <= k < n implies !#[trigger] is_dropped(vs, k) by {
            assert(!dropped@[k]);
        }
        return None;
    }
    // Jar copies, by keeper row.
    let mut copies: Vec<(String, String)> = Vec::new();
    let mut r: usize = 0;
    while r < rows.len()
        invariant
            vs == acct_views(rows@),
            n == rows@.len(),
            jar_mtimes@.len() == rows@.len(),
            ids@.len() == rows@.len(),
            keepers@.len() == rows@.len(),
            forall|k: int| 0 <= k < rows@.len() ==> opt_chars(#[trigger] ids@[k]) == row_identity(
                rows@[k]@,
            ),
            forall|k: int|
                0 <= k < rows@.len() && row_identity(rows@[k]@) is Some ==> (#[trigger] keepers@[k]) as int
                    == keeper_row(vs, row_identity(rows@[k]@)->0),
            r <= rows@.len(),
            pair_views(copies@) == jar_copies(vs, jar_mtimes@, r as int),
        decreases rows@.len() - r,
    {
        assert(opt_chars(ids@[r as int]) == row_identity(rows@[r as int]@));
        match &ids[r] {
            Some(key) => {
                if keepers[r] == r {
                    let s = source_index(rows, &ids, jar_mtimes, key, r);
                    if s != r {
                        proof {
                            lemma_freshest_in(vs, jar_mtimes@, key@, n);
                            lemma_earliest_in(vs, key@, n);
                        }
                        copies.push((rows[s].id.clone(), rows[r].id.clone()));
                        assert(pair_views(copies@) =~= jar_copies(vs, jar_mtimes@, r as int + 1));
                    } else {
                        assert(pair_views(copies@) =~= jar_copies(vs, jar_mtimes@, r as int + 1));
                    }
                } else {
                    assert(pair_views(copies@) =~= jar_copies(vs, jar_mtimes@, r as int + 1));
                }
            },
            None => {
                assert(pair_views(copies@) =~= jar_copies(vs, jar_mtimes@, r as int + 1));
            },
        }
        r = r + 1;
    }
    // Ids of the dropped rows, and the surviving rows.
    let mut removed: Vec<String> = Vec::new();
    let mut kept: Vec<Account> = Vec::new();
    let mut r: usize = 0;
    while r < rows.len()
        invariant
            vs == acct_views(rows@),
            dropped@.len() == rows@.len(),
            forall|k: int| 0 <= k < rows@.len() ==> (#[trigger] dropped@[k]) == is_dropped(vs, k),
            r <= rows@.len(),
            string_seq_views(removed@) == dropped_ids(vs, r as int),
            acct_views(kept@) == surviving_rows(vs, r as int),
        decreases rows@.len() - r,
    {
        if dropped[r] {
            removed.push(rows[r].id.clone());
        }
        assert(string_seq_views(removed@) =~= dropped_ids(vs, r as int + 1));
        let gone = first_dropped_row(rows, &dropped, &rows[r].id);
        proof {
            reveal(survives);
        }
        if gone.is_none() {
            kept.push(rows[r].duplicate());
        }
        assert(acct_views(kept@) =~= surviving_rows(vs, r as int + 1));
        r = r + 1;
    }
    let active = match &idx.active {
        Some(a) => match first_dropped_row(rows, &dropped, a) {
            Some(j) => {
                proof {
                    lemma_first_dropped_with_id(vs, a@, n);
                    lemma_earliest_in(vs, row_identity(vs[j as int])->0, n);
                }
                assert(opt_chars(ids@[j as int]) == row_identity(rows@[j as int]@));
                assert(dropped@[j as int]);
                Some(rows[keepers[j]].id.clone())
            },
            None => Some(a.clone()),
        },
        None => None,
    };
    proof {
        if idx@.active is Some {
            let j = first_dropped_with_id(vs, idx@.active->0, n);
            if j >= 0 {
                lemma_earliest_in(vs, row_identity(vs[j])->0, n);
            }
        }
    }
    Some(DedupPlan { index: AccountsIndex { active, accounts: kept }, copies, removed })
}


proof fn lemma_no_first_dropped(rows: Seq<AcctView>, id: Seq<char>, n: int)
    requires
        0 <= n <= rows.len(),
        first_dropped_with_id(rows, id, n) == -1,
    ensures
        forall|j: int| 0 <= j < n && is_dropped(rows, j) ==> #[trigger] rows[j].id != id,
    decreases n,
{
    if n > 0 {
        lemma_no_first_dropped(rows, id, n - 1);
    }
}

/// A surviving row is not itself dropped.
proof fn lemma_survivor_not_dropped(rows: Seq<AcctView>, i: int)
    requires
        0 <= i < rows.len(),
        survives(rows, i),
    ensures
        !is_dropped(rows, i),
{
    reveal(survives);
    if is_dropped(rows, i) {
        assert(rows[i].id == rows[i].id);
        assert(drops_id(rows, rows[i].id));
    }
}

/// With distinct ids, a row that is not dropped survives.
proof fn lemma_not_dropped_survives(rows: Seq<AcctView>, i: int)
    requires
        0 <= i < rows.len(),
        ids_distinct(rows),
        !is_dropped(rows, i),
    ensures
        survives(rows, i),
{
    reveal(survives);
    if drops_id(rows, rows[i].id) {
        let j = choose|j: int|
            0 <= j < rows.len() && is_dropped(rows, j) && #[trigger] rows[j].id == rows[i].id;
        assert(j != i);
        assert(rows[i].id != rows[j].id);
    }
}

/// After a dedup every identity is held by exactly one row: two
/// surviving rows never share an identity, and each identity present
/// before keeps its earliest-added row.
pub proof fn law_dedup_leaves_one_row_per_identity(rows: Seq<AcctView>)
    requires
        ids_distinct(rows),
    ensures
        forall|i: int, j: int|
            0 <= i < rows.len() && 0 <= j < rows.len() && survives(rows, i) && survives(rows, j)
                && #[trigger] row_identity(rows[i]) is Some && #[trigger] row_identity(rows[j])
                == row_identity(rows[i]) ==> i == j,
        forall|i: int|
            0 <= i < rows.len() && #[trigger] row_identity(rows[i]) is Some ==> {
                let kr = keeper_row(rows, row_identity(rows[i])->0);
                &&& 0 <= kr < rows.len()
                &&& survives(rows, kr)
                &&& row_identity(rows[kr]) == row_identity(rows[i])
            },
{
    assert forall|i: int, j: int|
        0 <= i < rows.len() && 0 <= j < rows.len() && survives(rows, i) && survives(rows, j)
            && #[trigger] row_identity(rows[i]) is Some && #[trigger] row_identity(rows[j])
            == row_identity(rows[i]) implies i == j by {
        lemma_survivor_not_dropped(rows, i);
        lemma_survivor_not_dropped(rows, j);
    }
    assert forall|i: int| 0 <= i < rows.len() && #[trigger] row_identity(rows[i]) is Some implies {
        let kr = keeper_row(rows, row_identity(rows[i])->0);
        &&& 0 <= kr < rows.len()
        &&& survives(rows, kr)
        &&& row_identity(rows[kr]) == row_identity(rows[i])
    } by {
        let k = row_identity(rows[i])->0;
        lemma_earliest_in(rows, k, rows.len() as int);
        let kr = keeper_row(rows, k);
        assert(row_identity(rows[kr]) == Some(k));
        assert(!is_dropped(rows, kr));
        lemma_not_dropped_survives(rows, kr);
    }
}

/// A row whose meta identifies no account (no email, no avatar) is
/// never touched by a dedup.
pub proof fn law_dedup_keeps_unidentified_rows(rows: Seq<AcctView>, i: int)
    requires
        ids_distinct(rows),
        0 <= i < rows.len(),
        row_identity(rows[i]) is None,
    ensures
        survives(rows, i),
{
    lemma_not_dropped_survives(rows, i);
}

/// The row kept for an identity is its earliest-added row, the first
/// one on a tie.
pub proof fn law_keeper_is_earliest(rows: Seq<AcctView>, key: Seq<char>, j: int)
    requires
        0 <= j < rows.len(),
        row_identity(rows[j]) == Some(key),
    ensures
        0 <= keeper_row(rows, key) < rows.len(),
        row_identity(rows[keeper_row(rows, key)]) == Some(key),
        rows[keeper_row(rows, key)].added_at <= rows[j].added_at,
        j < keeper_row(rows, key) ==> rows[keeper_row(rows, key)].added_at < rows[j].added_at,
{
    lemma_earliest_in(rows, key, rows.len() as int);
}

/// The jar a keeper is given is the most recently written one of its
/// identity, among those whose time could be read.
pub proof fn law_keeper_gets_freshest_jar(
    rows: Seq<AcctView>,
    mtimes: Seq<Option<i128>>,
    key: Seq<char>,
    j: int,
)
    requires
        mtimes.len() == rows.len(),
        0 <= j < rows.len(),
        row_identity(rows[j]) == Some(key),
        mtimes[j] is Some,
    ensures
        0 <= source_row(rows, mtimes, key) < rows.len(),
        row_identity(rows[source_row(rows, mtimes, key)]) == Some(key),
        mtimes[source_row(rows, mtimes, key)] is Some,
        mtimes[j]->0 <= mtimes[source_row(rows, mtimes, key)]->0,
{
    lemma_freshest_in(rows, mtimes, key, rows.len() as int);
}

/// Signed in stays signed in: if the active id named a row, the active
/// id after the dedup names a surviving row.
pub proof fn law_dedup_active_survives(rows: Seq<AcctView>, active: Seq<char>, i: int)
    requires
        ids_distinct(rows),
        0 <= i < rows.len(),
        rows[i].id == active,
    ensures
        deduped_active(rows, Some(active)) is Some,
        exists|s: int|
            0 <= s < rows.len() && survives(rows, s) && #[trigger] rows[s].id == deduped_active(
                rows,
                Some(active),
            )->0,
{
    let n = rows.len() as int;
    let j = first_dropped_with_id(rows, active, n);
    lemma_first_dropped_with_id(rows, active, n);
    if j >= 0 {
        let k = row_identity(rows[j])->0;
        lemma_earliest_in(rows, k, n);
        let kr = keeper_row(rows, k);
        assert(!is_dropped(rows, kr));
        lemma_not_dropped_survives(rows, kr);
        assert(rows[kr].id == deduped_active(rows, Some(active))->0);
    } else {
        lemma_no_first_dropped(rows, active, n);
        assert(!is_dropped(rows, i));
        lemma_not_dropped_survives(rows, i);
    }
}


// ---------------------------------------------------------------------
// Finding rows
// ---------------------------------------------------------------------

/// The first row, among the first `n`, with id `id`; `-1` if none.
pub open spec fn find_row(rows: Seq<AcctView>, id: Seq<char>, n: int) -> int
    decreases n,
{
    if n <= 0 {
        -1
    } else {
        let b = find_row(rows, id, n - 1);
        if b < 0 && rows[n - 1].id == id {
            n - 1
        } else {
            b
        }
    }
}

/// The first row with id `id`; `-1` if none.
pub open spec fn row_of(rows: Seq<AcctView>, id: Seq<char>) -> int {
    find_row(rows, id, rows.len() as int)
}

proof fn lemma_find_row(rows: Seq<AcctView>, id: Seq<char>, n: int)
    requires
        0 <= n <= rows.len(),
    ensures
        -1 <= find_row(rows, id, n) < n,
        find_row(rows, id, n) >= 0 ==> rows[find_row(rows, id, n)].id == id,
        forall|j: int|
            0 <= j < n && (find_row(rows, id, n) < 0 || j < find_row(rows, id, n))
                ==> #[trigger] rows[j].id != id,
    decreases n,
{
    if n > 0 {
        lemma_find_row(rows, id, n - 1);
    }
}

fn position_of(rows: &Vec<Account>, id: &String) -> (r: Option<usize>)
    ensures
        match r {
            Some(p) => p as int == row_of(acct_views(rows@), id@) && p < rows@.len(),
            None => row_of(acct_views(rows@), id@) == -1,
        },
{
    let ghost vs = acct_views(rows@);
    let mut j: usize = 0;
    while j < rows.len()
        invariant
            vs == acct_views(rows@),
            j <= rows@.len(),
            find_row(vs, id@, j as int) == -1,
        decreases rows@.len() - j,
    {
        if rows[j].id == *id {
            proof {
                lemma_find_row_stays(vs, id@, j as int + 1, vs.len() as int);
            }
            return Some(j);
        }
        j = j + 1;
    }
    None
}

proof fn lemma_find_row_stays(rows: Seq<AcctView>, id: Seq<char>, m: int, n: int)
    requires
        0 <= m <= n <= rows.len(),
        find_row(rows, id, m) >= 0,
    ensures
        find_row(rows, id, n) == find_row(rows, id, m),
    decreases n - m,
{
    if n > m {
        lemma_find_row_stays(rows, id, m, n - 1);
    }
}

/// `no such account: <id>`.
pub open spec fn no_such_account(id: Seq<char>) -> Seq<char> {
    "no such account: "@ + id
}

fn no_such_account_message(id: &String) -> (r: String)
    ensures
        r@ == no_such_account(id@),
{
    let mut out = String::new();
    push_chars(&mut out, &chars_of("no such account: "));
    push_chars(&mut out, &chars_of(id.as_str()));
    out
}

// ---------------------------------------------------------------------
// Listing, switching, removing
// ---------------------------------------------------------------------

pub struct SummaryView {
    pub account: AcctView,
    pub is_active: bool,
    pub can_refresh: bool,
}

impl View for AccountSummary {
    type V = SummaryView;

    open spec fn view(&self) -> SummaryView {
        SummaryView {
            account: AcctView {
                id: self.id@,
                email: self.email@,
                name: self.name@,
                photo_url: opt_chars(self.photo_url),
                page_id: opt_chars(self.page_id),
                channel_name: opt_chars(self.channel_name),
                channel_photo_url: opt_chars(self.channel_photo_url),
                added_at: 0,
            },
            is_active: self.is_active,
            can_refresh: self.can_refresh,
        }
    }
}

/// A row as the frontend sees it (the add time is not shown).
pub open spec fn shown(a: AcctView) -> AcctView {
    AcctView { added_at: 0, ..a }
}

/// The summaries of all rows, in index order: each flagged with whether
/// it is the active account and whether it has a browser profile to renew
/// its session from (`has_profile`, one per row).
pub fn list_accounts(idx: &AccountsIndex, has_profile: &Vec<bool>) -> (r: Vec<AccountSummary>)
    requires
        has_profile@.len() == idx.accounts@.len(),
    ensures
        r@.len() == idx.accounts@.len(),
        forall|i: int|
            0 <= i < r@.len() ==> (#[trigger] r@[i])@ == (SummaryView {
                account: shown(idx@.accounts[i]),
                is_active: is_active_id(idx.active, idx@.accounts[i].id),
                can_refresh: has_profile@[i],
            }),
{
    let mut r: Vec<AccountSummary> = Vec::new();
    let mut i: usize = 0;
    while i < idx.accounts.len()
        invariant
            has_profile@.len() == idx.accounts@.len(),
            i <= idx.accounts@.len(),
            r@.len() == i,
            forall|k: int|
                0 <= k < i ==> (#[trigger] r@[k])@ == (SummaryView {
                    account: shown(idx@.accounts[k]),
                    is_active: is_active_id(idx.active, idx@.accounts[k].id),
                    can_refresh: has_profile@[k],
                }),
        decreases idx.accounts@.len() - i,
    {
        let a = &idx.accounts[i];
        r.push(
            AccountSummary {
                id: a.id.clone(),
                email: a.email.clone(),
                name: a.name.clone(),
                photo_url: clone_opt(&a.photo_url),
                page_id: clone_opt(&a.page_id),
                channel_name: clone_opt(&a.channel_name),
                channel_photo_url: clone_opt(&a.channel_photo_url),
                is_active: active_is(&idx.active, &a.id),
                can_refresh: has_profile[i],
            },
        );
        i = i + 1;
    }
    r
}

/// Makes `id` the active account. `Ok(true)` when the index changed and
/// has to be written (and the switch announced); `Ok(false)` when `id`
/// was already active.
pub fn switch_account(idx: &mut AccountsIndex, id: String) -> (r: Result<bool, String>)
    ensures
        match r {
            Err(e) => {
                &&& row_of(old(idx)@.accounts, id@) == -1
                &&& e@ == no_such_account(id@)
                &&& final(idx)@ == old(idx)@
            },
            Ok(changed) => {
                &&& row_of(old(idx)@.accounts, id@) >= 0
                &&& changed == !is_active_id(old(idx).active, id@)
                &&& final(idx)@.accounts == old(idx)@.accounts
                &&& final(idx)@.active == Some(id@)
            },
        },
{
    match position_of(&idx.accounts, &id) {
        None => Err(no_such_account_message(&id)),
        Some(_) => {
            if active_is(&idx.active, &id) {
                Ok(false)
            } else {
                idx.active = Some(id);
                Ok(true)
            }
        },
    }
}

/// The index after removing the row at `pos` (the first with `id`): a
/// removed active account hands over to the first remaining row, or to
/// nobody.
pub open spec fn after_removal(old: IndexView, pos: int, id: Seq<char>) -> IndexView {
    let rest = old.accounts.remove(pos);
    IndexView {
        active: if old.active == Some(id) {
            if rest.len() > 0 {
                Some(rest[0].id)
            } else {
                None
            }
        } else {
            old.active
        },
        accounts: rest,
    }
}

/// Removes the first row with id `id` (the caller deletes its directory).
pub fn remove_account(idx: &mut AccountsIndex, id: String) -> (r: Result<(), String>)
    ensures
        match r {
            Err(e) => {
                &&& row_of(old(idx)@.accounts, id@) == -1
                &&& e@ == no_such_account(id@)
                &&& final(idx)@ == old(idx)@
            },
            Ok(()) => {
                &&& row_of(old(idx)@.accounts, id@) >= 0
                &&& final(idx)@ == after_removal(old(idx)@, row_of(old(idx)@.accounts, id@), id@)
            },
        },
{
    let pos = match position_of(&idx.accounts, &id) {
        None => {
            return Err(no_such_account_message(&id));
        },
        Some(p) => p,
    };
    let ghost before = idx.accounts@;
    idx.accounts.remove(pos);
    assert(acct_views(idx.accounts@) =~= acct_views(before).remove(pos as int));
    if active_is(&idx.active, &id) {
        idx.active = if idx.accounts.len() > 0 {
            Some(idx.accounts[0].id.clone())
        } else {
            None
        };
    }
    Ok(())
}

/// Selects the channel (personal when `page_id` is `None`, else a brand
/// channel) the account with id `id` acts as. `Ok(true)` when the choice
/// changed on the active account, so library, likes and home must be
/// reset as on an account switch.
pub fn set_account_channel(
    idx: &mut AccountsIndex,
    id: String,
    page_id: Option<String>,
    channel_name: Option<String>,
    channel_photo_url: Option<String>,
) -> (r: Result<bool, String>)
    ensures
        match r {
            Err(e) => {
                &&& row_of(old(idx)@.accounts, id@) == -1
                &&& e@ == no_such_account(id@)
                &&& final(idx)@ == old(idx)@
            },
            Ok(reset) => {
                let p = row_of(old(idx)@.accounts, id@);
                let a = old(idx)@.accounts[p];
                &&& p >= 0
                &&& final(idx)@.active == old(idx)@.active
                &&& final(idx)@.accounts == old(idx)@.accounts.update(
                    p,
                    (AcctView {
                        page_id: opt_chars(page_id),
                        channel_name: opt_chars(channel_name),
                        channel_photo_url: opt_chars(channel_photo_url),
                        ..a
                    }),
                )
                &&& reset == (a.page_id != opt_chars(page_id) && is_active_id(
                    old(idx).active,
                    id@,
                ))
            },
        },
{
    let pos = match position_of(&idx.accounts, &id) {
        None => {
            return Err(no_such_account_message(&id));
        },
        Some(p) => p,
    };
    let is_active = active_is(&idx.active, &id);
    let mut a = idx.accounts[pos].duplicate();
    let changed = !opt_eq(&a.page_id, &page_id);
    a.page_id = page_id;
    a.channel_name = channel_name;
    a.channel_photo_url = channel_photo_url;
    let ghost before = idx.accounts@;
    idx.accounts.set(pos, a);
    assert(acct_views(idx.accounts@) =~= acct_views(before).update(pos as int, a@));
    Ok(changed && is_active)
}

/// The cookie header of a request and the brand-channel page id to send
/// with it.
pub struct AuthContext {
    pub cookie: String,
    pub page_id: Option<String>,
}

/// The page id that goes with `cookie`: the active account's, and none
/// at all when there is no cookie to send.
pub open spec fn auth_page_id(idx: IndexView, cookie: Seq<char>) -> Option<Seq<char>> {
    if cookie.len() == 0 {
        None
    } else {
        match idx.active {
            Some(a) => {
                let p = row_of(idx.accounts, a);
                if p >= 0 {
                    idx.accounts[p].page_id
                } else {
                    None
                }
            },
            None => None,
        }
    }
}

/// Pairs the cookie header read for a request with the active account's
/// page id, so the two always come from the same read.
pub fn get_auth_context(idx: &AccountsIndex, cookie: String) -> (r: AuthContext)
    ensures
        r.cookie@ == cookie@,
        opt_chars(r.page_id) == auth_page_id(idx@, cookie@),
{
    let page_id = if cookie.as_str().is_empty() {
        None
    } else {
        match &idx.active {
            Some(a) => match position_of(&idx.accounts, a) {
                Some(p) => clone_opt(&idx.accounts[p].page_id),
                None => None,
            },
            None => None,
        }
    };
    AuthContext { cookie, page_id }
}


// ---------------------------------------------------------------------
// Meta backfill and re-login dedup
// ---------------------------------------------------------------------

/// The first row, among the first `n`, other than `id` whose identity is
/// `key`; `-1` if none.
pub open spec fn find_duplicate(rows: Seq<AcctView>, id: Seq<char>, key: Seq<char>, n: int) -> int
    decreases n,
{
    if n <= 0 {
        -1
    } else {
        let b = find_duplicate(rows, id, key, n - 1);
        if b < 0 && rows[n - 1].id != id && row_identity(rows[n - 1]) == Some(key) {
            n - 1
        } else {
            b
        }
    }
}

proof fn lemma_find_duplicate(rows: Seq<AcctView>, id: Seq<char>, key: Seq<char>, n: int)
    requires
        0 <= n <= rows.len(),
    ensures
        -1 <= find_duplicate(rows, id, key, n) < n,
        find_duplicate(rows, id, key, n) >= 0 ==> rows[find_duplicate(rows, id, key, n)].id != id
            && row_identity(rows[find_duplicate(rows, id, key, n)]) == Some(key),
    decreases n,
{
    if n > 0 {
        lemma_find_duplicate(rows, id, key, n - 1);
    }
}

proof fn lemma_find_duplicate_stays(rows: Seq<AcctView>, id: Seq<char>, key: Seq<char>, m: int, n: int)
    requires
        0 <= m <= n <= rows.len(),
        find_duplicate(rows, id, key, m) >= 0,
    ensures
        find_duplicate(rows, id, key, n) == find_duplicate(rows, id, key, m),
    decreases n - m,
{
    if n > m {
        lemma_find_duplicate_stays(rows, id, key, m, n - 1);
    }
}

/// The row `id` acts as a brand channel, so the meta the frontend read
/// describes the channel and cannot identify the Google account.
pub open spec fn acting_as_brand(rows: Seq<AcctView>, id: Seq<char>) -> bool {
    let p = row_of(rows, id);
    p >= 0 && rows[p].page_id is Some
}

/// The row that incoming meta for `id` shows to be the same account
/// signed in again; `-1` when it is no other row.
pub open spec fn relogin_row(
    rows: Seq<AcctView>,
    id: Seq<char>,
    email: Seq<char>,
    photo_url: Option<Seq<char>>,
) -> int {
    if acting_as_brand(rows, id) {
        -1
    } else {
        match identity_of(email, photo_url) {
            Some(key) => find_duplicate(rows, id, key, rows.len() as int),
            None => -1,
        }
    }
}

/// Account meta written over a row: an empty email or a missing avatar
/// never wipes the stored one (either may be the row's identity).
pub open spec fn with_account_meta(
    a: AcctView,
    name: Seq<char>,
    email: Seq<char>,
    photo_url: Option<Seq<char>>,
) -> AcctView {
    AcctView {
        name,
        email: if email.len() > 0 {
            email
        } else {
            a.email
        },
        photo_url: if photo_url is Some {
            photo_url
        } else {
            a.photo_url
        },
        ..a
    }
}

/// Brand-channel meta routed into the channel fields; the account's own
/// name, email and avatar stay.
pub open spec fn with_channel_meta(a: AcctView, name: Seq<char>, photo_url: Option<Seq<char>>) -> AcctView {
    AcctView {
        channel_name: if name.len() > 0 {
            Some(name)
        } else {
            a.channel_name
        },
        channel_photo_url: if photo_url is Some {
            photo_url
        } else {
            a.channel_photo_url
        },
        ..a
    }
}

/// The index after a re-login of `id` was found to be row `d` again: the
/// new row goes, row `d` takes the meta and becomes active.
pub open spec fn merged_relogin(
    old: IndexView,
    id: Seq<char>,
    d: int,
    name: Seq<char>,
    email: Seq<char>,
    photo_url: Option<Seq<char>>,
) -> IndexView {
    let p = row_of(old.accounts, id);
    let other = old.accounts[d].id;
    let rows = if p >= 0 {
        old.accounts.remove(p)
    } else {
        old.accounts
    };
    let q = row_of(rows, other);
    IndexView {
        active: Some(other),
        accounts: rows.update(q, with_account_meta(rows[q], name, email, photo_url)),
    }
}

/// The row's meta is still the empty placeholder of a fresh sign-in.
pub open spec fn is_fresh_add(rows: Seq<AcctView>, id: Seq<char>) -> bool {
    let p = row_of(rows, id);
    p >= 0 && rows[p].name.len() == 0 && rows[p].email.len() == 0
}

/// What a meta backfill did.
pub enum MetaUpdate {
    /// `id` is not the active account: the meta may describe another row,
    /// so nothing was changed.
    Ignored,
    /// The index changed and must be written. `announce` asks for the
    /// accounts-changed event (a fresh add, or the active account
    /// moved); `merged_into` names the existing row a re-login folded
    /// into, whose jar and browser profile the caller replaces with
    /// those of `id` before deleting `id`'s directory.
    Saved { announce: bool, merged_into: Option<String> },
}

/// Backfills the meta `/account_menu` returned for the active account
/// `id`. When that meta identifies a different row, this was a re-login
/// of that account: `id`'s row goes, the older row takes the meta and
/// becomes active.
pub fn update_account_meta(
    idx: &mut AccountsIndex,
    id: String,
    name: String,
    email: String,
    photo_url: Option<String>,
) -> (r: Result<MetaUpdate, String>)
    ensures
        !is_active_id(old(idx).active, id@) ==> (r matches Ok(MetaUpdate::Ignored)) && final(idx)@
            == old(idx)@,
        is_active_id(old(idx).active, id@) ==> {
            let rows = old(idx)@.accounts;
            let p = row_of(rows, id@);
            let d = relogin_row(rows, id@, email@, opt_chars(photo_url));
            if d >= 0 {
                &&& r matches Ok(MetaUpdate::Saved { announce, merged_into })
                &&& announce
                &&& opt_chars(merged_into) == Some(rows[d].id)
                &&& final(idx)@ == merged_relogin(
                    old(idx)@,
                    id@,
                    d,
                    name@,
                    email@,
                    opt_chars(photo_url),
                )
            } else if p >= 0 {
                &&& r matches Ok(MetaUpdate::Saved { announce, merged_into })
                &&& announce == is_fresh_add(rows, id@)
                &&& merged_into is None
                &&& final(idx)@.active == old(idx)@.active
                &&& final(idx)@.accounts == rows.update(
                    p,
                    if rows[p].page_id is Some {
                        with_channel_meta(rows[p], name@, opt_chars(photo_url))
                    } else {
                        with_account_meta(rows[p], name@, email@, opt_chars(photo_url))
                    },
                )
            } else {
                &&& r matches Err(e)
                &&& e@ == no_such_account(id@)
                &&& final(idx)@ == old(idx)@
            }
        },
{
    if !active_is(&idx.active, &id) {
        return Ok(MetaUpdate::Ignored);
    }
    let ghost rows = idx@.accounts;
    let n = idx.accounts.len();
    let pos = position_of(&idx.accounts, &id);
    let brand = match pos {
        Some(p) => idx.accounts[p].page_id.is_some(),
        None => false,
    };
    let fresh = match pos {
        Some(p) => idx.accounts[p].name.as_str().is_empty() && idx.accounts[p].email.as_str().is_empty(),
        None => false,
    };
    let incoming = if brand {
        None
    } else {
        meta_identity(email.as_str(), opt_str(&photo_url))
    };
    // The first other row with the incoming identity.
    let mut dup: Option<usize> = None;
    match &incoming {
        Some(key) => {
            let ghost k = key@;
            let mut j: usize = 0;
            while j < n
                invariant
                    n == idx.accounts@.len(),
                    rows == idx@.accounts,
                    k == key@,
                    j <= n,
                    dup is None ==> find_duplicate(rows, id@, k, j as int) == -1,
                    dup matches Some(d) ==> d < n && find_duplicate(rows, id@, k, n as int) == d,
                decreases n - j,
            {
                if dup.is_none() {
                    let same = match &account_identity(&idx.accounts[j]) {
                        Some(x) => *x == *key,
                        None => false,
                    };
                    if idx.accounts[j].id != id && same {
                        proof {
                            lemma_find_duplicate_stays(rows, id@, k, j as int + 1, n as int);
                        }
                        dup = Some(j);
                    }
                }
                j = j + 1;
            }
        },
        None => {},
    }
    match dup {
        Some(d) => {
            proof {
                lemma_find_duplicate(rows, id@, incoming->0@, n as int);
                lemma_find_row(rows, id@, n as int);
            }
            let other_id = idx.accounts[d].id.clone();
            let ghost mid = rows;
            match pos {
                Some(p) => {
                    let ghost before = idx.accounts@;
                    idx.accounts.remove(p);
                    assert(acct_views(idx.accounts@) =~= acct_views(before).remove(p as int));
                    proof {
                        mid = rows.remove(p as int);
                        if (d as int) < p as int {
                            assert(mid[d as int] == rows[d as int]);
                        } else {
                            assert(mid[d as int - 1] == rows[d as int]);
                        }
                    }
                },
                None => {},
            }
            assert(idx@.accounts == mid);
            let q = match position_of(&idx.accounts, &other_id) {
                Some(q) => q,
                None => {
                    proof {
                        lemma_find_row(mid, other_id@, mid.len() as int);
                        if pos is Some && (d as int) >= pos->0 as int {
                            assert(mid[d as int - 1].id == other_id@);
                        } else {
                            assert(mid[d as int].id == other_id@);
                        }
                    }
                    return Err(no_such_account_message(&id));
                },
            };
            let mut a = idx.accounts[q].duplicate();
            a.name = name;
            if !email.as_str().is_empty() {
                a.email = email;
            }
            if photo_url.is_some() {
                a.photo_url = photo_url;
            }
            let ghost before = idx.accounts@;
            idx.accounts.set(q, a);
            assert(acct_views(idx.accounts@) =~= acct_views(before).update(q as int, a@));
            idx.active = Some(other_id.clone());
            Ok(MetaUpdate::Saved { announce: true, merged_into: Some(other_id) })
        },
        None => {
            match pos {
                Some(p) => {
                    let mut a = idx.accounts[p].duplicate();
                    if brand {
                        if !name.as_str().is_empty() {
                            a.channel_name = Some(name);
                        }
                        if photo_url.is_some() {
                            a.channel_photo_url = photo_url;
                        }
                    } else {
                        a.name = name;
                        if !email.as_str().is_empty() {
                            a.email = email;
                        }
                        if photo_url.is_some() {
                            a.photo_url = photo_url;
                        }
                    }
                    let ghost before = idx.accounts@;
                    idx.accounts.set(p, a);
                    assert(acct_views(idx.accounts@) =~= acct_views(before).update(p as int, a@));
                    Ok(MetaUpdate::Saved { announce: fresh, merged_into: None })
                },
                None => Err(no_such_account_message(&id)),
            }
        },
    }
}


// ---------------------------------------------------------------------
// Sign-in
// ---------------------------------------------------------------------

/// `acct-` and the lowercase hex of `nanos` (two's complement for a
/// clock before 1970).
pub open spec fn account_id_text(nanos: i128) -> Seq<char> {
    "acct-"@ + hex_digits((nanos as u128) as nat)
}

/// The id a sign-in started at unix time `nanos` (nanoseconds) gets.
pub fn account_id_from_nanos(nanos: i128) -> (r: String)
    ensures
        r@ == account_id_text(nanos),
{
    let mut out = String::new();
    push_chars(&mut out, &chars_of("acct-"));
    push_chars(&mut out, &hex_u128(nanos as u128));
    out
}

/// `time::OffsetDateTime::now_utc().unix_timestamp_nanos()`: the current
/// time in nanoseconds since 1970. Nothing is claimed of the value.
#[verifier::external_body]
fn now_unix_nanos() -> (r: i128) {
    time::OffsetDateTime::now_utc().unix_timestamp_nanos()
}

/// A new account id from the current time (unique within a process, as
/// the clock moves on between sign-ins).
pub fn generate_account_id() -> (r: String)
    ensures
        exists|nanos: i128| r@ == account_id_text(nanos),
{
    let nanos = now_unix_nanos();
    account_id_from_nanos(nanos)
}

/// The row a fresh sign-in adds: only its id and add time are known;
/// the frontend backfills the meta.
pub open spec fn new_row(id: Seq<char>, added_at: i64) -> AcctView {
    AcctView {
        id,
        email: Seq::empty(),
        name: Seq::empty(),
        photo_url: None,
        page_id: None,
        channel_name: None,
        channel_photo_url: None,
        added_at,
    }
}

/// Registers a completed fresh sign-in: a new row for `id`, made active.
pub fn register_fresh_login(idx: &mut AccountsIndex, id: String, now: i64)
    ensures
        final(idx)@.accounts == old(idx)@.accounts.push(new_row(id@, now)),
        final(idx)@.active == Some(id@),
{
    let row = Account {
        id: id.clone(),
        email: String::new(),
        name: String::new(),
        photo_url: None,
        page_id: None,
        channel_name: None,
        channel_photo_url: None,
        added_at: now,
    };
    let ghost before = idx.accounts@;
    idx.accounts.push(row);
    assert(acct_views(idx.accounts@) =~= acct_views(before).push(row@));
    idx.active = Some(id);
}

/// A re-link may only target an account the index knows.
pub fn relink_account(idx: &AccountsIndex, id: &String) -> (r: Result<(), String>)
    ensures
        r is Ok <==> row_of(idx@.accounts, id@) >= 0,
        r matches Err(e) ==> e@ == "unknown account"@,
{
    match position_of(&idx.accounts, id) {
        Some(_) => Ok(()),
        None => Err(string_of("unknown account")),
    }
}

fn string_of(s: &str) -> (r: String)
    ensures
        r@ == s@,
{
    let mut out = String::new();
    push_chars(&mut out, &chars_of(s));
    out
}

/// A completed re-link makes its account active. `true` when that
/// changed the active account (and must be written and announced).
pub fn activate_relinked(idx: &mut AccountsIndex, id: String) -> (changed: bool)
    ensures
        changed == !is_active_id(old(idx).active, id@),
        final(idx)@.accounts == old(idx)@.accounts,
        final(idx)@.active == Some(id@),
{
    if active_is(&idx.active, &id) {
        false
    } else {
        idx.active = Some(id);
        true
    }
}


// ---------------------------------------------------------------------
// The index invariant
// ---------------------------------------------------------------------

/// An index as this app keeps it: ids are distinct, and the active id,
/// when there is one, names a row.
pub open spec fn index_wf(v: IndexView) -> bool {
    &&& ids_distinct(v.accounts)
    &&& match v.active {
        Some(a) => row_of(v.accounts, a) >= 0,
        None => true,
    }
}

proof fn lemma_row_of_found(rows: Seq<AcctView>, id: Seq<char>, j: int)
    requires
        0 <= j < rows.len(),
        rows[j].id == id,
    ensures
        0 <= row_of(rows, id) <= j,
        rows[row_of(rows, id)].id == id,
{
    lemma_find_row(rows, id, rows.len() as int);
}

/// Switching to a known account keeps the index well formed.
pub proof fn law_switch_keeps_index_wf(old: IndexView, id: Seq<char>)
    requires
        index_wf(old),
        row_of(old.accounts, id) >= 0,
    ensures
        index_wf(IndexView { active: Some(id), accounts: old.accounts }),
{
}

/// Removing an account keeps the index well formed: a removed active
/// account hands over to a row that is still there.
pub proof fn law_removal_keeps_index_wf(old: IndexView, id: Seq<char>)
    requires
        index_wf(old),
        row_of(old.accounts, id) >= 0,
    ensures
        index_wf(after_removal(old, row_of(old.accounts, id), id)),
{
    let p = row_of(old.accounts, id);
    lemma_find_row(old.accounts, id, old.accounts.len() as int);
    let new = after_removal(old, p, id);
    let rest = old.accounts.remove(p);
    assert forall|i: int, j: int|
        0 <= i < rest.len() && 0 <= j < rest.len() && i != j implies #[trigger] rest[i].id
        != #[trigger] rest[j].id by {
        let oi = if i < p { i } else { i + 1 };
        let oj = if j < p { j } else { j + 1 };
        assert(rest[i] == old.accounts[oi]);
        assert(rest[j] == old.accounts[oj]);
    }
    if new.active is Some {
        let a = new.active->0;
        if old.active == Some(id) {
            lemma_row_of_found(rest, rest[0].id, 0);
        } else {
            let k = row_of(old.accounts, a);
            lemma_find_row(old.accounts, a, old.accounts.len() as int);
            assert(k != p);
            let nk = if k < p { k } else { k - 1 };
            assert(rest[nk] == old.accounts[k]);
            lemma_row_of_found(rest, a, nk);
        }
    }
}

/// Choosing a channel keeps the index well formed.
pub proof fn law_channel_keeps_index_wf(old: IndexView, p: int, a: AcctView)
    requires
        index_wf(old),
        0 <= p < old.accounts.len(),
        a.id == old.accounts[p].id,
    ensures
        index_wf(IndexView { active: old.active, accounts: old.accounts.update(p, a) }),
{
    let rows = old.accounts.update(p, a);
    assert forall|i: int, j: int|
        0 <= i < rows.len() && 0 <= j < rows.len() && i != j implies #[trigger] rows[i].id
        != #[trigger] rows[j].id by {
        assert(rows[i].id == old.accounts[i].id);
        assert(rows[j].id == old.accounts[j].id);
    }
    if old.active is Some {
        let k = row_of(old.accounts, old.active->0);
        lemma_find_row(old.accounts, old.active->0, old.accounts.len() as int);
        assert(rows[k].id == old.accounts[k].id);
        lemma_row_of_found(rows, old.active->0, k);
    }
}

/// A fresh sign-in under a new id keeps the index well formed.
pub proof fn law_fresh_login_keeps_index_wf(old: IndexView, id: Seq<char>, now: i64)
    requires
        index_wf(old),
        row_of(old.accounts, id) == -1,
    ensures
        index_wf(IndexView { active: Some(id), accounts: old.accounts.push(new_row(id, now)) }),
{
    let rows = old.accounts.push(new_row(id, now));
    lemma_find_row(old.accounts, id, old.accounts.len() as int);
    assert forall|i: int, j: int|
        0 <= i < rows.len() && 0 <= j < rows.len() && i != j implies #[trigger] rows[i].id
        != #[trigger] rows[j].id by {
        if i < old.accounts.len() {
            assert(rows[i] == old.accounts[i]);
        }
        if j < old.accounts.len() {
            assert(rows[j] == old.accounts[j]);
        }
    }
    lemma_row_of_found(rows, id, old.accounts.len() as int);
}

/// A re-login folded into an existing row keeps the index well formed,
/// leaves no row under the re-login's own id, and makes the existing
/// row active.
pub proof fn law_relogin_merge_keeps_index_wf(
    old: IndexView,
    id: Seq<char>,
    email: Seq<char>,
    name: Seq<char>,
    photo_url: Option<Seq<char>>,
)
    requires
        index_wf(old),
        relogin_row(old.accounts, id, email, photo_url) >= 0,
    ensures
        index_wf(
            merged_relogin(old, id, relogin_row(old.accounts, id, email, photo_url), name, email, photo_url),
        ),
        row_of(
            merged_relogin(old, id, relogin_row(old.accounts, id, email, photo_url), name, email, photo_url).accounts,
            id,
        ) == -1,
        merged_relogin(old, id, relogin_row(old.accounts, id, email, photo_url), name, email, photo_url).active
            == Some(old.accounts[relogin_row(old.accounts, id, email, photo_url)].id),
{
    let d = relogin_row(old.accounts, id, email, photo_url);
    let n = old.accounts.len() as int;
    lemma_find_duplicate(old.accounts, id, identity_of(email, photo_url)->0, n);
    lemma_find_row(old.accounts, id, n);
    let p = row_of(old.accounts, id);
    let other = old.accounts[d].id;
    let rows = if p >= 0 {
        old.accounts.remove(p)
    } else {
        old.accounts
    };
    // `rows` keeps distinct ids and no longer holds `id`.
    assert forall|i: int| 0 <= i < rows.len() implies #[trigger] rows[i] == old.accounts[if p
        >= 0 && i >= p {
        i + 1
    } else {
        i
    }] by {}
    assert forall|i: int, j: int|
        0 <= i < rows.len() && 0 <= j < rows.len() && i != j implies #[trigger] rows[i].id
        != #[trigger] rows[j].id by {
        let oi = if p >= 0 && i >= p { i + 1 } else { i };
        let oj = if p >= 0 && j >= p { j + 1 } else { j };
        assert(rows[i] == old.accounts[oi]);
        assert(rows[j] == old.accounts[oj]);
    }
    assert forall|i: int| 0 <= i < rows.len() implies #[trigger] rows[i].id != id by {
        let oi = if p >= 0 && i >= p { i + 1 } else { i };
        assert(rows[i] == old.accounts[oi]);
        if p >= 0 {
            assert(oi != p);
        }
    }
    let dd = if p >= 0 && d > p { d - 1 } else { d };
    if p >= 0 {
        assert(d != p);
    }
    assert(rows[dd] == old.accounts[d]);
    lemma_row_of_found(rows, other, dd);
    let q = row_of(rows, other);
    let merged = rows.update(q, with_account_meta(rows[q], name, email, photo_url));
    assert forall|i: int, j: int|
        0 <= i < merged.len() && 0 <= j < merged.len() && i != j implies #[trigger] merged[i].id
        != #[trigger] merged[j].id by {
        assert(merged[i].id == rows[i].id);
        assert(merged[j].id == rows[j].id);
    }
    assert(merged[q].id == other);
    lemma_row_of_found(merged, other, q);
    lemma_find_row(merged, id, merged.len() as int);
    if row_of(merged, id) >= 0 {
        let k = row_of(merged, id);
        assert(merged[k].id == rows[k].id);
    }
}


/// The indices of the first `n` rows that survive, in order.
spec fn surviving_indices(rows: Seq<AcctView>, n: int) -> Seq<int>
    decreases n,
{
    if n <= 0 {
        Seq::empty()
    } else if survives(rows, n - 1) {
        surviving_indices(rows, n - 1).push(n - 1)
    } else {
        surviving_indices(rows, n - 1)
    }
}

/// The rows kept by a dedup are surviving rows of the old index, in order.
proof fn lemma_surviving_rows(rows: Seq<AcctView>, n: int)
    requires
        0 <= n <= rows.len(),
    ensures
        surviving_indices(rows, n).len() == surviving_rows(rows, n).len(),
        forall|k: int|
            0 <= k < surviving_indices(rows, n).len() ==> 0 <= #[trigger] surviving_indices(
                rows,
                n,
            )[k] < n && surviving_rows(rows, n)[k] == rows[surviving_indices(rows, n)[k]],
        forall|k1: int, k2: int|
            0 <= k1 < k2 < surviving_indices(rows, n).len() ==> #[trigger] surviving_indices(
                rows,
                n,
            )[k1] < #[trigger] surviving_indices(rows, n)[k2],
    decreases n,
{
    if n > 0 {
        lemma_surviving_rows(rows, n - 1);
    }
}

/// Where a surviving row stands among the kept rows.
proof fn lemma_survivor_position(rows: Seq<AcctView>, n: int, i: int) -> (k: int)
    requires
        0 <= i < n <= rows.len(),
        survives(rows, i),
    ensures
        0 <= k < surviving_rows(rows, n).len(),
        surviving_rows(rows, n)[k] == rows[i],
    decreases n,
{
    if i == n - 1 {
        surviving_rows(rows, n - 1).len() as int
    } else {
        let k = lemma_survivor_position(rows, n - 1, i);
        k
    }
}

/// A dedup keeps the index well formed.
pub proof fn law_dedup_keeps_index_wf(old: IndexView)
    requires
        index_wf(old),
    ensures
        index_wf(
            IndexView {
                active: deduped_active(old.accounts, old.active),
                accounts: surviving_rows(old.accounts, old.accounts.len() as int),
            },
        ),
{
    let rows = old.accounts;
    let n = rows.len() as int;
    lemma_surviving_rows(rows, n);
    let kept = surviving_rows(rows, n);
    let ix = surviving_indices(rows, n);
    assert forall|a: int, b: int|
        0 <= a < kept.len() && 0 <= b < kept.len() && a != b implies #[trigger] kept[a].id
        != #[trigger] kept[b].id by {
        assert(ix[a] != ix[b]) by {
            if a < b {
                assert(ix[a] < ix[b]);
            } else {
                assert(ix[b] < ix[a]);
            }
        }
        assert(kept[a] == rows[ix[a]]);
        assert(kept[b] == rows[ix[b]]);
    }
    if old.active is Some {
        let a = old.active->0;
        let i = row_of(rows, a);
        lemma_find_row(rows, a, n);
        law_dedup_active_survives(rows, a, i);
        let b = deduped_active(rows, Some(a))->0;
        let s = choose|s: int| 0 <= s < rows.len() && survives(rows, s) && #[trigger] rows[s].id == b;
        let k = lemma_survivor_position(rows, n, s);
        lemma_row_of_found(kept, b, k);
    }
}


// ---------------------------------------------------------------------
// Identity laws
// ---------------------------------------------------------------------

/// The same avatar requested at different sizes names the same account:
/// the `=...` sizing suffix never enters the identity.
pub proof fn law_avatar_size_is_ignored(email: Seq<char>, base: Seq<char>, size: Seq<char>)
    requires
        free_of(base, '='),
    ensures
        identity_of(email, Some(base + seq!['='] + size)) == identity_of(email, Some(base)),
{
    let p = base + seq!['='] + size;
    assert forall|j: int| 0 <= j < base.len() implies #[trigger] p[j] != '=' by {
        assert(p[j] == base[j]);
    }
    lemma_first_index_at(p, '=', base.len() as int);
    lemma_first_index_at(base, '=', base.len() as int);
    assert(p.take(base.len() as int) =~= base);
}

/// At most one summary is flagged active: the active id names at most one
/// row of an index with distinct ids.
pub proof fn law_at_most_one_active_row(idx: IndexView, i: int, j: int)
    requires
        ids_distinct(idx.accounts),
        0 <= i < idx.accounts.len(),
        0 <= j < idx.accounts.len(),
        idx.active == Some(idx.accounts[i].id),
        idx.active == Some(idx.accounts[j].id),
    ensures
        i == j,
{
}


/// Emails that differ only in ASCII case name the same account.
pub proof fn law_email_case_is_ignored(email: Seq<char>, photo_url: Option<Seq<char>>)
    ensures
        identity_of(ascii_lower_seq(email), photo_url) == identity_of(email, photo_url),
{
    lemma_trim_lower(email);
    lemma_trim_lower(trim(email));
}

} // verus!
