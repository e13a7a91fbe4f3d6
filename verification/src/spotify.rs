//! Spotify sign-in (Authorization Code + PKCE) and the Spotify side of
//! the multi-account model: the PKCE strings, the authorize URL, the
//! loopback callback's checks, token bookkeeping and the accounts index.

use vstd::prelude::*;
use crate::text::{active_is, chars_of, clone_opt, is_active_id, is_blank, opt_chars, trim};
use vstd::utf8::encode_utf8;
use base64::Engine;
use rand::RngCore;
use sha2::Digest;

verus! {

// ---------------------------------------------------------------------
// Persisted data
// ---------------------------------------------------------------------

/// Per-account metadata of `spotify_accounts.json`. `id` is Spotify's own
/// user id, so linking the same account again overwrites its row.
pub struct SpotifyAccount {
    pub id: String,
    pub display_name: String,
    pub email: String,
    pub avatar_url: Option<String>,
    pub added_at: i64,
}

/// Root document of `spotify_accounts.json`.
pub struct SpotifyAccountsIndex {
    pub active: Option<String>,
    pub accounts: Vec<SpotifyAccount>,
}

/// What the frontend is handed for one linked account.
pub struct SpotifyAccountSummary {
    pub id: String,
    pub display_name: String,
    pub email: String,
    pub avatar_url: Option<String>,
    pub is_active: bool,
}

/// OAuth tokens of one account. `expires_at` is the unix time at which
/// `access_token` expires.
pub struct SpotifyTokens {
    pub access_token: String,
    pub refresh_token: String,
    pub expires_at: i64,
    pub scope: String,
}

/// What `spotify_begin_login` hands the frontend: the id to await the
/// login with, and the URL to open in the browser.
pub struct BeginLoginResponse {
    pub login_id: String,
    pub authorize_url: String,
}

pub struct AccountView {
    pub id: Seq<char>,
    pub display_name: Seq<char>,
    pub email: Seq<char>,
    pub avatar_url: Option<Seq<char>>,
    pub added_at: i64,
}

impl View for SpotifyAccount {
    type V = AccountView;

    open spec fn view(&self) -> AccountView {
        AccountView {
            id: self.id@,
            display_name: self.display_name@,
            email: self.email@,
            avatar_url: opt_chars(self.avatar_url),
            added_at: self.added_at,
        }
    }
}

pub open spec fn account_views(v: Seq<SpotifyAccount>) -> Seq<AccountView> {
    v.map_values(|a: SpotifyAccount| a@)
}

impl SpotifyAccount {
    pub fn duplicate(&self) -> (r: SpotifyAccount)
        ensures
            r@ == self@,
    {
        SpotifyAccount {
            id: self.id.clone(),
            display_name: self.display_name.clone(),
            email: self.email.clone(),
            avatar_url: clone_opt(&self.avatar_url),
            added_at: self.added_at,
        }
    }
}

pub struct SummaryView {
    pub id: Seq<char>,
    pub display_name: Seq<char>,
    pub email: Seq<char>,
    pub avatar_url: Option<Seq<char>>,
    pub is_active: bool,
}

impl View for SpotifyAccountSummary {
    type V = SummaryView;

    open spec fn view(&self) -> SummaryView {
        SummaryView {
            id: self.id@,
            display_name: self.display_name@,
            email: self.email@,
            avatar_url: opt_chars(self.avatar_url),
            is_active: self.is_active,
        }
    }
}

/// The summary of a row, given whether it is the active account.
pub open spec fn summary_of(a: AccountView, is_active: bool) -> SummaryView {
    SummaryView {
        id: a.id,
        display_name: a.display_name,
        email: a.email,
        avatar_url: a.avatar_url,
        is_active,
    }
}

fn summarize(a: &SpotifyAccount, is_active: bool) -> (r: SpotifyAccountSummary)
    ensures
        r@ == summary_of(a@, is_active),
{
    SpotifyAccountSummary {
        id: a.id.clone(),
        display_name: a.display_name.clone(),
        email: a.email.clone(),
        avatar_url: clone_opt(&a.avatar_url),
        is_active,
    }
}

/// Summaries of every linked account, in index order, each flagged with
/// whether it is the active one.
pub fn spotify_list_accounts(idx: &SpotifyAccountsIndex) -> (r: Vec<SpotifyAccountSummary>)
    ensures
        r@.len() == idx.accounts@.len(),
        forall|i: int|
            0 <= i < r@.len() ==> (#[trigger] r@[i])@ == summary_of(
                idx.accounts@[i]@,
                is_active_id(idx.active, idx.accounts@[i].id@),
            ),
{
    let mut r: Vec<SpotifyAccountSummary> = Vec::new();
    let mut i: usize = 0;
    while i < idx.accounts.len()
        invariant
            i <= idx.accounts@.len(),
            r@.len() == i,
            forall|k: int|
                0 <= k < i ==> (#[trigger] r@[k])@ == summary_of(
                    idx.accounts@[k]@,
                    is_active_id(idx.active, idx.accounts@[k].id@),
                ),
        decreases idx.accounts@.len() - i,
    {
        let a = &idx.accounts[i];
        let act = active_is(&idx.active, &a.id);
        r.push(summarize(a, act));
        i = i + 1;
    }
    r
}

/// Position of the first row with id `id`.
pub open spec fn find_account(accts: Seq<AccountView>, id: Seq<char>) -> Option<int> {
    if exists|i: int| 0 <= i < accts.len() && (#[trigger] accts[i]).id == id {
        Some(
            choose|i: int|
                0 <= i < accts.len() && (#[trigger] accts[i]).id == id && forall|j: int|
                    0 <= j < i ==> (#[trigger] accts[j]).id != id,
        )
    } else {
        None
    }
}

proof fn lemma_find_account(accts: Seq<AccountView>, id: Seq<char>, i: int)
    requires
        0 <= i <= accts.len(),
        forall|j: int| 0 <= j < i ==> (#[trigger] accts[j]).id != id,
        i < accts.len() ==> accts[i].id == id,
    ensures
        find_account(accts, id) == (if i < accts.len() {
            Some(i)
        } else {
            None::<int>
        }),
{
    if i < accts.len() {
        let k = choose|k: int|
            0 <= k < accts.len() && (#[trigger] accts[k]).id == id && forall|j: int|
                0 <= j < k ==> (#[trigger] accts[j]).id != id;
        if k < i {
            assert(accts[k].id != id);
        }
        if k > i {
            assert(accts[i].id != id);
        }
    }
}

fn position_of(accts: &Vec<SpotifyAccount>, id: &String) -> (r: Option<usize>)
    ensures
        match r {
            Some(i) => i < accts@.len() && find_account(account_views(accts@), id@) == Some(
                i as int,
            ),
            None => find_account(account_views(accts@), id@).is_none(),
        },
{
    let ghost av = account_views(accts@);
    let mut i: usize = 0;
    while i < accts.len()
        invariant
            i <= accts@.len(),
            av == account_views(accts@),
            forall|j: int| 0 <= j < i ==> (#[trigger] av[j]).id != id@,
        decreases accts@.len() - i,
    {
        if accts[i].id == *id {
            proof {
                lemma_find_account(av, id@, i as int);
            }
            return Some(i);
        }
        i = i + 1;
    }
    proof {
        lemma_find_account(av, id@, i as int);
    }
    None
}

/// The index after a login of `account` completes: its row replaces the
/// row with the same id, or is appended; it becomes the active account.
pub open spec fn upserted(accts: Seq<AccountView>, a: AccountView) -> Seq<AccountView> {
    match find_account(accts, a.id) {
        Some(i) => accts.update(i, a),
        None => accts.push(a),
    }
}

/// Stores a freshly linked account and makes it active; returns the
/// summary the frontend is handed.
pub fn spotify_await_login(idx: &mut SpotifyAccountsIndex, account: SpotifyAccount) -> (r:
    SpotifyAccountSummary)
    ensures
        account_views(final(idx).accounts@) == upserted(account_views(old(idx).accounts@), account@),
        opt_chars(final(idx).active) == Some(account@.id),
        r@ == summary_of(account@, true),
{
    let summary = summarize(&account, true);
    let id = account.id.clone();
    match position_of(&idx.accounts, &account.id) {
        Some(i) => {
            idx.accounts.set(i, account);
            assert(account_views(idx.accounts@) =~= account_views(old(idx).accounts@).update(
                i as int,
                account@,
            ));
        },
        None => {
            idx.accounts.push(account);
            assert(account_views(idx.accounts@) =~= account_views(old(idx).accounts@).push(
                account@,
            ));
        },
    }
    idx.active = Some(id);
    summary
}

pub open spec fn no_such_account(id: Seq<char>) -> Seq<char> {
    "no such Spotify account: "@ + id
}

fn no_such_account_error(id: &String) -> (r: String)
    ensures
        r@ == no_such_account(id@),
{
    let mut s = String::from_str("no such Spotify account: ");
    s.append(id.as_str());
    s
}

/// Makes `id` the active Spotify account; an unknown id is an error and
/// leaves the index unchanged.
pub fn spotify_switch_account(idx: &mut SpotifyAccountsIndex, id: String) -> (r: Result<(), String>)
    ensures
        find_account(account_views(old(idx).accounts@), id@) is Some ==> r is Ok && opt_chars(
            final(idx).active,
        ) == Some(id@),
        find_account(account_views(old(idx).accounts@), id@) is None ==> r is Err && r->Err_0@
            == no_such_account(id@) && opt_chars(final(idx).active) == opt_chars(old(idx).active),
        final(idx).accounts@ == old(idx).accounts@,
{
    match position_of(&idx.accounts, &id) {
        None => Err(no_such_account_error(&id)),
        Some(_) => {
            idx.active = Some(id);
            Ok(())
        },
    }
}

/// Removes a linked account. When it was the active one, the first
/// remaining account (if any) becomes active. An unknown id is an error
/// and leaves the index unchanged.
#[verifier::rlimit(30)]
pub fn spotify_logout(idx: &mut SpotifyAccountsIndex, id: &String) -> (r: Result<(), String>)
    ensures
        match find_account(account_views(old(idx).accounts@), id@) {
            None => r is Err && r->Err_0@ == no_such_account(id@) && account_views(
                final(idx).accounts@,
            ) == account_views(old(idx).accounts@) && opt_chars(final(idx).active) == opt_chars(
                old(idx).active,
            ),
            Some(p) => {
                let rest = account_views(old(idx).accounts@).remove(p);
                &&& r is Ok
                &&& account_views(final(idx).accounts@) == rest
                &&& opt_chars(final(idx).active) == if is_active_id(old(idx).active, id@) {
                    if rest.len() > 0 {
                        Some(rest[0].id)
                    } else {
                        None
                    }
                } else {
                    opt_chars(old(idx).active)
                }
            },
        },
{
    match position_of(&idx.accounts, id) {
        None => Err(no_such_account_error(id)),
        Some(p) => {
            idx.accounts.remove(p);
            assert(account_views(idx.accounts@) =~= account_views(old(idx).accounts@).remove(
                p as int,
            ));
            if active_is(&idx.active, id) {
                idx.active = if idx.accounts.len() > 0 {
                    Some(idx.accounts[0].id.clone())
                } else {
                    None
                };
            }
            Ok(())
        },
    }
}

/// The account whose access token is wanted: `id` when given, else the
/// active account; an error when neither is there.
pub fn token_account_id(idx: &SpotifyAccountsIndex, id: Option<String>) -> (r: Result<String, String>)
    ensures
        match id {
            Some(i) => r is Ok && r->Ok_0@ == i@,
            None => match idx.active {
                Some(a) => r is Ok && r->Ok_0@ == a@,
                None => r is Err && r->Err_0@ == "no Spotify account is connected"@,
            },
        },
{
    match id {
        Some(i) => Ok(i),
        None => match &idx.active {
            Some(a) => Ok(a.clone()),
            None => Err(String::from_str("no Spotify account is connected")),
        },
    }
}

// ---------------------------------------------------------------------
// Tokens
// ---------------------------------------------------------------------

/// An access token is refreshed a minute before it actually expires, so
/// a request in flight cannot race it dying mid-call.
pub fn needs_token_refresh(expires_at: i64, now: i64) -> (r: bool)
    requires
        now + 60 <= i64::MAX,
    ensures
        r == (expires_at <= now + 60),
{
    expires_at <= now + 60
}

/// The tokens a successful code exchange yields: the access token expires
/// `expires_in` seconds after `now`; a response without a refresh token
/// is an error.
pub fn tokens_from_exchange(
    access_token: String,
    refresh_token: Option<String>,
    expires_in: i64,
    scope: String,
    now: i64,
) -> (r: Result<SpotifyTokens, String>)
    requires
        i64::MIN <= now + expires_in <= i64::MAX,
    ensures
        match refresh_token {
            None => r is Err && r->Err_0@ == "Spotify did not return a refresh token"@,
            Some(rt) => r is Ok && r->Ok_0.access_token@ == access_token@
                && r->Ok_0.refresh_token@ == rt@ && r->Ok_0.expires_at == now + expires_in
                && r->Ok_0.scope@ == scope@,
        },
{
    match refresh_token {
        None => Err(String::from_str("Spotify did not return a refresh token")),
        Some(rt) => Ok(
            SpotifyTokens { access_token, refresh_token: rt, expires_at: now + expires_in, scope },
        ),
    }
}

/// Applies a token refresh: the new access token and expiry are stored,
/// and the refresh token is replaced only when Spotify rotated it.
pub fn apply_token_refresh(
    tokens: &mut SpotifyTokens,
    access_token: String,
    expires_at: i64,
    rotated_refresh: Option<String>,
)
    ensures
        final(tokens).access_token@ == access_token@,
        final(tokens).expires_at == expires_at,
        final(tokens).refresh_token@ == (match rotated_refresh {
            Some(t) => t@,
            None => old(tokens).refresh_token@,
        }),
        final(tokens).scope@ == old(tokens).scope@,
{
    tokens.access_token = access_token;
    tokens.expires_at = expires_at;
    if let Some(rotated) = rotated_refresh {
        tokens.refresh_token = rotated;
    }
}

/// The account row a profile response yields: a missing display name
/// reads as "Spotify user", a missing email as empty, and the avatar is
/// the first image's URL.
pub fn account_from_profile(
    id: String,
    display_name: Option<String>,
    email: Option<String>,
    image_urls: Vec<String>,
    now: i64,
) -> (r: SpotifyAccount)
    ensures
        r@.id == id@,
        r@.display_name == (match display_name {
            Some(d) => d@,
            None => "Spotify user"@,
        }),
        r@.email == (match email {
            Some(e) => e@,
            None => Seq::<char>::empty(),
        }),
        r@.avatar_url == (if image_urls@.len() > 0 {
            Some(image_urls@[0]@)
        } else {
            None
        }),
        r@.added_at == now,
{
    let display_name = match display_name {
        Some(d) => d,
        None => String::from_str("Spotify user"),
    };
    let email = match email {
        Some(e) => e,
        None => String::new(),
    };
    let avatar_url = if image_urls.len() > 0 {
        Some(image_urls[0].clone())
    } else {
        None
    };
    SpotifyAccount { id, display_name, email, avatar_url, added_at: now }
}

// ---------------------------------------------------------------------
// The loopback callback
// ---------------------------------------------------------------------

/// The authorization code of the browser's redirect to the loopback
/// server, given its `error`, `state` and `code` query parameters and the
/// CSRF state the login was started with.
pub fn callback_code(
    error: Option<String>,
    state: Option<String>,
    code: Option<String>,
    expected_state: &String,
) -> (r: Result<String, String>)
    ensures
        match error {
            Some(e) => r is Err && r->Err_0@ == "Spotify login was not completed: "@ + e@,
            None => match state {
                None => r is Err && r->Err_0@ == "missing state parameter"@,
                Some(s) => if s@ != expected_state@ {
                    r is Err && r->Err_0@ == "state mismatch"@
                } else {
                    match code {
                        None => r is Err && r->Err_0@ == "missing code parameter"@,
                        Some(c) => r is Ok && r->Ok_0@ == c@,
                    }
                },
            },
        },
{
    if let Some(e) = error {
        let mut msg = String::from_str("Spotify login was not completed: ");
        msg.append(e.as_str());
        return Err(msg);
    }
    let s = match state {
        None => {
            return Err(String::from_str("missing state parameter"));
        },
        Some(s) => s,
    };
    if !(s == *expected_state) {
        return Err(String::from_str("state mismatch"));
    }
    match code {
        None => Err(String::from_str("missing code parameter")),
        Some(c) => Ok(c),
    }
}

// ---------------------------------------------------------------------
// PKCE and the authorize URL
// ---------------------------------------------------------------------

/// Whether a Client ID was entered (anything but whitespace).
pub fn client_id_is_set(client_id: &str) -> (r: bool)
    ensures
        r == (trim(client_id@).len() > 0),
{
    !is_blank(&chars_of(client_id))
}

pub open spec fn is_unreserved(b: u8) -> bool {
    (48 <= b <= 57) || (65 <= b <= 90) || (97 <= b <= 122) || b == 45 || b == 46 || b == 95
        || b == 126
}

pub open spec fn upper_hex_digit(d: u8) -> char {
    if d < 10 {
        ((d as u32) + 48) as char
    } else {
        ((d as u32) + 55) as char
    }
}

/// `urlencoding::encode`: every UTF-8 byte except ASCII alphanumerics and
/// `-`, `.`, `_`, `~` becomes `%` and two upper-case hex digits.
pub open spec fn percent_encode(bytes: Seq<u8>) -> Seq<char>
    decreases bytes.len(),
{
    if bytes.len() == 0 {
        Seq::empty()
    } else {
        let b = bytes.last();
        let tail = if is_unreserved(b) {
            seq![b as char]
        } else {
            seq!['%', upper_hex_digit(b / 16), upper_hex_digit(b % 16)]
        };
        percent_encode(bytes.drop_last()) + tail
    }
}

/// Calls `urlencoding::encode`, whose result is `percent_encode` of the
/// string's UTF-8 bytes.
#[verifier::external_body]
fn url_encode(s: &str) -> (r: String)
    ensures
        r@ == percent_encode(encode_utf8(s@)),
{
    urlencoding::encode(s).into_owned()
}

/// Scopes the app asks for.
pub open spec fn scopes() -> Seq<char> {
    "playlist-read-private playlist-read-collaborative playlist-modify-private playlist-modify-public user-read-private"@
}

/// The Spotify authorize URL for a PKCE (S256) login.
pub open spec fn authorize_url_spec(
    client_id: Seq<char>,
    redirect_uri: Seq<char>,
    state: Seq<char>,
    challenge: Seq<char>,
) -> Seq<char> {
    "https://accounts.spotify.com/authorize?response_type=code&client_id="@ + percent_encode(
        encode_utf8(client_id),
    ) + "&scope="@ + percent_encode(encode_utf8(scopes())) + "&redirect_uri="@ + percent_encode(
        encode_utf8(redirect_uri),
    ) + "&state="@ + percent_encode(encode_utf8(state))
        + "&code_challenge_method=S256&code_challenge="@ + percent_encode(encode_utf8(challenge))
}

/// Builds the authorize URL and the response handed to the frontend.
pub fn spotify_begin_login(
    login_id: String,
    client_id: &str,
    redirect_uri: &str,
    csrf_state: &str,
    challenge: &str,
) -> (r: BeginLoginResponse)
    ensures
        r.login_id@ == login_id@,
        r.authorize_url@ == authorize_url_spec(client_id@, redirect_uri@, csrf_state@, challenge@),
{
    let scopes_text: &str =
        "playlist-read-private playlist-read-collaborative playlist-modify-private playlist-modify-public user-read-private";
    assert(scopes_text@ == scopes());
    let mut url = String::from_str(
        "https://accounts.spotify.com/authorize?response_type=code&client_id=",
    );
    let e = url_encode(client_id);
    url.append(e.as_str());
    url.append("&scope=");
    let e = url_encode(scopes_text);
    url.append(e.as_str());
    url.append("&redirect_uri=");
    let e = url_encode(redirect_uri);
    url.append(e.as_str());
    url.append("&state=");
    let e = url_encode(csrf_state);
    url.append(e.as_str());
    url.append("&code_challenge_method=S256&code_challenge=");
    let e = url_encode(challenge);
    url.append(e.as_str());
    BeginLoginResponse { login_id, authorize_url: url }
}

/// Digit `v` (0 to 63) of the URL-safe base64 alphabet (RFC 4648 §5):
/// `A`-`Z`, `a`-`z`, `0`-`9`, `-`, `_`.
pub open spec fn b64url_digit(v: int) -> char {
    if v < 26 {
        (65 + v) as char
    } else if v < 52 {
        (97 + v - 26) as char
    } else if v < 62 {
        (48 + v - 52) as char
    } else if v == 62 {
        '-'
    } else {
        '_'
    }
}

/// The unpadded URL-safe base64 encoding of `data` (RFC 4648 §5): each
/// group of three bytes, read as a 24-bit number, gives four digits of
/// six bits each, most significant first; a last group of one or two
/// bytes gives two or three digits, its bits padded with zeros, and no
/// `=`.
pub open spec fn base64url_unpadded(data: Seq<u8>) -> Seq<char>
    decreases data.len(),
{
    if data.len() == 0 {
        Seq::empty()
    } else if data.len() == 1 {
        let n = data[0] as int;
        seq![b64url_digit(n / 4), b64url_digit((n % 4) * 16)]
    } else if data.len() == 2 {
        let n = data[0] * 256 + data[1];
        seq![b64url_digit(n / 1024), b64url_digit((n / 16) % 64), b64url_digit((n % 16) * 4)]
    } else {
        let n = data[0] * 65536 + data[1] * 256 + data[2];
        seq![
            b64url_digit(n / 262144),
            b64url_digit((n / 4096) % 64),
            b64url_digit((n / 64) % 64),
            b64url_digit(n % 64),
        ] + base64url_unpadded(data.skip(3))
    }
}

/// Four characters per three bytes, the padding left off.
pub proof fn lemma_base64url_len(data: Seq<u8>)
    ensures
        base64url_unpadded(data).len() == (4 * data.len() + 2) / 3,
    decreases data.len(),
{
    if data.len() >= 3 {
        lemma_base64url_len(data.skip(3));
    }
}

/// The SHA-256 digest of `data`, as the `sha2` crate computes it.
pub uninterp spec fn sha256_digest(data: Seq<u8>) -> Seq<u8>;

/// Calls `URL_SAFE_NO_PAD.encode`. The contract claims that it gives the
/// unpadded URL-safe base64 encoding of RFC 4648 §5 (see
/// `base64url_unpadded`).
#[verifier::external_body]
fn base64url_encode(data: &[u8]) -> (r: String)
    ensures
        r@ == base64url_unpadded(data@),
{
    base64::engine::general_purpose::URL_SAFE_NO_PAD.encode(data)
}

/// Calls `sha2::Sha256::digest`. The contract names the digest and
/// states its length, 32 bytes.
#[verifier::external_body]
fn sha256(data: &[u8]) -> (r: Vec<u8>)
    ensures
        r@ == sha256_digest(data@),
        r@.len() == 32,
{
    sha2::Sha256::digest(data).to_vec()
}

/// Fills a buffer of `len` bytes from `rand::thread_rng`. The bytes are
/// random, so nothing is claimed of them beyond their number.
#[verifier::external_body]
fn random_bytes(len: usize) -> (r: Vec<u8>)
    ensures
        r@.len() == len,
{
    let mut bytes = vec![0u8; len];
    rand::thread_rng().fill_bytes(&mut bytes);
    bytes
}

/// `len` random bytes, base64url-encoded without padding.
pub fn random_url_safe(len: usize) -> (r: String)
    ensures
        exists|b: Seq<u8>| b.len() == len && r@ == base64url_unpadded(b),
        r@.len() == (4 * len + 2) / 3,
{
    let bytes = random_bytes(len);
    proof {
        lemma_base64url_len(bytes@);
    }
    base64url_encode(&bytes)
}

/// RFC 7636 `code_challenge` (S256): base64url(sha256(code_verifier)).
pub fn code_challenge(verifier: &str) -> (r: String)
    ensures
        r@ == base64url_unpadded(sha256_digest(encode_utf8(verifier@))),
        r@.len() == 43,
{
    let digest = sha256(verifier.as_bytes());
    proof {
        lemma_base64url_len(digest@);
    }
    base64url_encode(&digest)
}


/// No two linked accounts share a Spotify user id.
pub open spec fn spotify_ids_distinct(accts: Seq<AccountView>) -> bool {
    forall|i: int, j: int|
        0 <= i < accts.len() && 0 <= j < accts.len() && i != j ==> #[trigger] accts[i].id
            != #[trigger] accts[j].id
}

/// Linking an account that is already linked overwrites its row rather
/// than adding a second one: ids stay distinct, the row count grows only
/// for a new id, and the linked account's row holds what was linked.
pub proof fn law_relinking_overwrites(accts: Seq<AccountView>, a: AccountView)
    requires
        spotify_ids_distinct(accts),
    ensures
        spotify_ids_distinct(upserted(accts, a)),
        upserted(accts, a).len() == accts.len() + if find_account(accts, a.id) is Some {
            0int
        } else {
            1int
        },
        find_account(upserted(accts, a), a.id) matches Some(k) && upserted(accts, a)[k] == a,
{
    let u = upserted(accts, a);
    match find_account(accts, a.id) {
        Some(i) => {
            assert(accts[i].id == a.id);
            assert forall|x: int, y: int|
                0 <= x < u.len() && 0 <= y < u.len() && x != y implies #[trigger] u[x].id
                != #[trigger] u[y].id by {
                assert(u[x].id == accts[x].id);
                assert(u[y].id == accts[y].id);
            }
            assert forall|j: int| 0 <= j < i implies (#[trigger] u[j]).id != a.id by {
                assert(u[j] == accts[j]);
            }
            lemma_find_account(u, a.id, i);
        },
        None => {
            assert forall|j: int| 0 <= j < accts.len() implies (#[trigger] accts[j]).id != a.id by {}
            assert forall|x: int, y: int|
                0 <= x < u.len() && 0 <= y < u.len() && x != y implies #[trigger] u[x].id
                != #[trigger] u[y].id by {
                if x < accts.len() {
                    assert(u[x] == accts[x]);
                }
                if y < accts.len() {
                    assert(u[y] == accts[y]);
                }
            }
            assert forall|j: int| 0 <= j < accts.len() implies (#[trigger] u[j]).id != a.id by {
                assert(u[j] == accts[j]);
            }
            lemma_find_account(u, a.id, accts.len() as int);
        },
    }
}


/// The Spotify index as the app keeps it: distinct ids, and an active id
/// that names a row when there is one.
pub open spec fn spotify_index_wf(accts: Seq<AccountView>, active: Option<Seq<char>>) -> bool {
    &&& spotify_ids_distinct(accts)
    &&& match active {
        Some(a) => find_account(accts, a) is Some,
        None => true,
    }
}

proof fn lemma_find_account_some(accts: Seq<AccountView>, id: Seq<char>, i: int)
    requires
        0 <= i < accts.len(),
        accts[i].id == id,
    ensures
        find_account(accts, id) is Some,
{
}

/// Linking, switching and logging out keep the Spotify index well formed.
pub proof fn law_spotify_operations_keep_index_wf(
    accts: Seq<AccountView>,
    active: Option<Seq<char>>,
    a: AccountView,
    id: Seq<char>,
)
    requires
        spotify_index_wf(accts, active),
    ensures
        spotify_index_wf(upserted(accts, a), Some(a.id)),
        find_account(accts, id) is Some ==> spotify_index_wf(accts, Some(id)),
        find_account(accts, id) matches Some(p) ==> {
            let rest = accts.remove(p);
            spotify_index_wf(
                rest,
                if active == Some(id) {
                    if rest.len() > 0 {
                        Some(rest[0].id)
                    } else {
                        None
                    }
                } else {
                    active
                },
            )
        },
{
    law_relinking_overwrites(accts, a);
    if let Some(p) = find_account(accts, id) {
        let rest = accts.remove(p);
        assert(accts[p].id == id);
        assert forall|x: int, y: int|
            0 <= x < rest.len() && 0 <= y < rest.len() && x != y implies #[trigger] rest[x].id
            != #[trigger] rest[y].id by {
            let ox = if x < p { x } else { x + 1 };
            let oy = if y < p { y } else { y + 1 };
            assert(rest[x] == accts[ox]);
            assert(rest[y] == accts[oy]);
        }
        if active == Some(id) {
            if rest.len() > 0 {
                lemma_find_account_some(rest, rest[0].id, 0);
            }
        } else if active is Some {
            let act = active->0;
            let k = find_account(accts, act)->0;
            assert(accts[k].id == act);
            assert(k != p);
            let nk = if k < p { k } else { k - 1 };
            assert(rest[nk] == accts[k]);
            lemma_find_account_some(rest, act, nk);
        }
    }
}

} // verus!
