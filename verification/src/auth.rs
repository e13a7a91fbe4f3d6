//! What counts as a signed-in YouTube session: in a `Cookie:` header that
//! InnerTube calls send, and in the cookie store of a sign-in or keeper
//! webview. Also the conversion of such a store into the jar that is
//! saved for the account.

use vstd::prelude::*;
use crate::text::{
    chars_eq, chars_of, contains_chars, contains_run, ends_with, has_suffix, split, split_chars,
    strip_leading, strip_leading_chars, trim, trim_chars,
};
use crate::jar::{entry_views, render_jar, write_jar, EntryView, JarEntry};
use crate::merge::{is_allowed, is_allowed_domain};

verus! {

// ---------------------------------------------------------------------
// The Cookie header
// ---------------------------------------------------------------------

/// The cookie name of one `name=value` piece of a `Cookie:` header: the
/// text before its first `=`, trimmed; `None` for a piece with no `=`.
pub open spec fn header_part_name(part: Seq<char>) -> Option<Seq<char>> {
    let f = split(part, '=');
    if f.len() >= 2 {
        Some(trim(f[0]))
    } else {
        None
    }
}

pub open spec fn is_apisid_name(n: Seq<char>) -> bool {
    n == "SAPISID"@ || n == "__Secure-1PAPISID"@ || n == "__Secure-3PAPISID"@
}

pub open spec fn is_sid_name(n: Seq<char>) -> bool {
    n == "SID"@ || n == "__Secure-1PSID"@ || n == "__Secure-3PSID"@
}

/// The piece names an APISID cookie.
pub open spec fn part_is_apisid(part: Seq<char>) -> bool {
    match header_part_name(part) {
        Some(n) => is_apisid_name(n),
        None => false,
    }
}

/// The piece names a session-id cookie.
pub open spec fn part_is_sid(part: Seq<char>) -> bool {
    match header_part_name(part) {
        Some(n) => is_sid_name(n),
        None => false,
    }
}

/// The header carries an APISID to build the SAPISIDHASH from and a
/// session id that identifies the account, each in some `;`-separated
/// piece and matched by exact name (so `__Secure-1PSIDTS` does not pass
/// for `__Secure-1PSID`).
pub open spec fn has_auth_cookies(header: Seq<char>) -> bool {
    let ps = split(header, ';');
    (exists|i: int| 0 <= i < ps.len() && #[trigger] part_is_apisid(ps[i])) && (exists|i: int|
        0 <= i < ps.len() && #[trigger] part_is_sid(ps[i]))
}

fn part_name(part: &[char]) -> (r: Option<Vec<char>>)
    ensures
        match r {
            Some(n) => header_part_name(part@) == Some(n@),
            None => header_part_name(part@).is_none(),
        },
{
    let f = split_chars(part, '=');
    if f.len() >= 2 {
        Some(trim_chars(&f[0]))
    } else {
        None
    }
}

fn is_apisid(n: &[char]) -> (r: bool)
    ensures
        r == is_apisid_name(n@),
{
    chars_eq(n, &chars_of("SAPISID")) || chars_eq(n, &chars_of("__Secure-1PAPISID")) || chars_eq(
        n,
        &chars_of("__Secure-3PAPISID"),
    )
}

fn is_sid(n: &[char]) -> (r: bool)
    ensures
        r == is_sid_name(n@),
{
    chars_eq(n, &chars_of("SID")) || chars_eq(n, &chars_of("__Secure-1PSID")) || chars_eq(
        n,
        &chars_of("__Secure-3PSID"),
    )
}

/// Whether a `Cookie:` header carries what an authenticated InnerTube
/// call needs (see `has_auth_cookies`).
pub fn header_has_auth_cookie(header: &str) -> (r: bool)
    ensures
        r == has_auth_cookies(header@),
{
    let hc = chars_of(header);
    let parts = split_chars(&hc, ';');
    let ghost ps = split(hc@, ';');
    let mut has_apisid = false;
    let mut has_sid = false;
    let mut i: usize = 0;
    while i < parts.len()
        invariant
            ps == split(header@, ';'),
            parts@.len() == ps.len(),
            forall|k: int| 0 <= k < parts@.len() ==> (#[trigger] parts@[k])@ == ps[k],
            i <= parts@.len(),
            has_apisid == exists|k: int| 0 <= k < i && #[trigger] part_is_apisid(ps[k]),
            has_sid == exists|k: int| 0 <= k < i && #[trigger] part_is_sid(ps[k]),
        decreases parts@.len() - i,
    {
        assert(part_is_apisid(ps[i as int]) == (header_part_name(ps[i as int]) matches Some(n)
            && is_apisid_name(n)));
        assert(part_is_sid(ps[i as int]) == (header_part_name(ps[i as int]) matches Some(n)
            && is_sid_name(n)));
        match part_name(&parts[i]) {
            Some(n) => {
                if is_apisid(&n) {
                    has_apisid = true;
                }
                if is_sid(&n) {
                    has_sid = true;
                }
            },
            None => {},
        }
        i = i + 1;
    }
    has_apisid && has_sid
}

// ---------------------------------------------------------------------
// A webview's cookie store
// ---------------------------------------------------------------------

/// A cookie as a webview reports it. `expires` is the unix time of an
/// expiry date, `None` for a session cookie.
pub struct WebCookie {
    pub name: String,
    pub value: String,
    pub domain: Option<String>,
    pub path: Option<String>,
    pub secure: Option<bool>,
    pub expires: Option<i64>,
}

pub struct WebCookieView {
    pub name: Seq<char>,
    pub value: Seq<char>,
    pub domain: Option<Seq<char>>,
    pub path: Option<Seq<char>>,
    pub secure: Option<bool>,
    pub expires: Option<i64>,
}

impl View for WebCookie {
    type V = WebCookieView;

    open spec fn view(&self) -> WebCookieView {
        WebCookieView {
            name: self.name@,
            value: self.value@,
            domain: match self.domain {
                Some(d) => Some(d@),
                None => None,
            },
            path: match self.path {
                Some(p) => Some(p@),
                None => None,
            },
            secure: self.secure,
            expires: self.expires,
        }
    }
}

pub open spec fn web_cookie_views(cs: Seq<WebCookie>) -> Seq<WebCookieView> {
    cs.map_values(|c: WebCookie| c@)
}

/// The cookie's domain ends with `suffix` once leading dots are removed.
pub open spec fn domain_ends_with(c: WebCookieView, suffix: Seq<char>) -> bool {
    match c.domain {
        Some(d) => has_suffix(strip_leading(d, '.'), suffix),
        None => false,
    }
}

/// YouTube auth cookies: the session id or the SAPISID that the hash is
/// built from, on a youtube.com domain.
pub open spec fn has_youtube_auth_spec(cs: Seq<WebCookieView>) -> bool {
    exists|i: int|
        0 <= i < cs.len() && ((#[trigger] cs[i]).name == "__Secure-1PSID"@ || cs[i].name
            == "SAPISID"@) && domain_ends_with(cs[i], "youtube.com"@)
}

/// `LOGIN_INFO` on a youtube.com domain: the last cookie of YouTube's
/// post-sign-in handshake.
pub open spec fn has_login_info_spec(cs: Seq<WebCookieView>) -> bool {
    exists|i: int|
        0 <= i < cs.len() && (#[trigger] cs[i]).name == "LOGIN_INFO"@ && domain_ends_with(
            cs[i],
            "youtube.com"@,
        )
}

/// A Google account session on a google.com domain.
pub open spec fn has_google_auth_spec(cs: Seq<WebCookieView>) -> bool {
    exists|i: int|
        0 <= i < cs.len() && ((#[trigger] cs[i]).name == "SAPISID"@ || cs[i].name == "SID"@
            || cs[i].name == "__Secure-1PSID"@) && domain_ends_with(cs[i], "google.com"@)
}

fn domain_has_suffix(c: &WebCookie, suffix: &str) -> (r: bool)
    ensures
        r == domain_ends_with(c@, suffix@),
{
    match &c.domain {
        Some(d) => {
            let dc = chars_of(d.as_str());
            let bare = strip_leading_chars(&dc, '.');
            ends_with(&bare, &chars_of(suffix))
        },
        None => false,
    }
}

pub fn has_youtube_auth(cookies: &[WebCookie]) -> (r: bool)
    ensures
        r == has_youtube_auth_spec(web_cookie_views(cookies@)),
{
    let ghost cv = web_cookie_views(cookies@);
    let mut i: usize = 0;
    while i < cookies.len()
        invariant
            i <= cookies@.len(),
            cv == web_cookie_views(cookies@),
            forall|k: int|
                0 <= k < i ==> !(((#[trigger] cv[k]).name == "__Secure-1PSID"@ || cv[k].name
                    == "SAPISID"@) && domain_ends_with(cv[k], "youtube.com"@)),
        decreases cookies@.len() - i,
    {
        let c = &cookies[i];
        let n = chars_of(c.name.as_str());
        if (chars_eq(&n, &chars_of("__Secure-1PSID")) || chars_eq(&n, &chars_of("SAPISID")))
            && domain_has_suffix(c, "youtube.com") {
            assert(cv[i as int] == c@);
            return true;
        }
        i = i + 1;
    }
    false
}

pub fn has_login_info(cookies: &[WebCookie]) -> (r: bool)
    ensures
        r == has_login_info_spec(web_cookie_views(cookies@)),
{
    let ghost cv = web_cookie_views(cookies@);
    let mut i: usize = 0;
    while i < cookies.len()
        invariant
            i <= cookies@.len(),
            cv == web_cookie_views(cookies@),
            forall|k: int|
                0 <= k < i ==> !((#[trigger] cv[k]).name == "LOGIN_INFO"@ && domain_ends_with(
                    cv[k],
                    "youtube.com"@,
                )),
        decreases cookies@.len() - i,
    {
        let c = &cookies[i];
        let n = chars_of(c.name.as_str());
        if chars_eq(&n, &chars_of("LOGIN_INFO")) && domain_has_suffix(c, "youtube.com") {
            assert(cv[i as int] == c@);
            return true;
        }
        i = i + 1;
    }
    false
}

pub fn has_google_auth(cookies: &[WebCookie]) -> (r: bool)
    ensures
        r == has_google_auth_spec(web_cookie_views(cookies@)),
{
    let ghost cv = web_cookie_views(cookies@);
    let mut i: usize = 0;
    while i < cookies.len()
        invariant
            i <= cookies@.len(),
            cv == web_cookie_views(cookies@),
            forall|k: int|
                0 <= k < i ==> !(((#[trigger] cv[k]).name == "SAPISID"@ || cv[k].name == "SID"@
                    || cv[k].name == "__Secure-1PSID"@) && domain_ends_with(
                    cv[k],
                    "google.com"@,
                )),
        decreases cookies@.len() - i,
    {
        let c = &cookies[i];
        let n = chars_of(c.name.as_str());
        if (chars_eq(&n, &chars_of("SAPISID")) || chars_eq(&n, &chars_of("SID")) || chars_eq(
            &n,
            &chars_of("__Secure-1PSID"),
        )) && domain_has_suffix(c, "google.com") {
            assert(cv[i as int] == c@);
            return true;
        }
        i = i + 1;
    }
    false
}

/// The jar entry a captured cookie is saved as, if it is kept: only
/// cookies with a google/youtube domain are, always written with a
/// leading dot and subdomains included.
pub open spec fn captured_entry(c: WebCookieView) -> Option<EntryView> {
    match c.domain {
        None => None,
        Some(d) => {
            let bare = strip_leading(d, '.');
            if is_allowed_domain(bare) {
                Some(
                    EntryView {
                        domain: seq!['.'] + bare,
                        include_sub: "TRUE"@,
                        path: match c.path {
                            Some(p) => p,
                            None => "/"@,
                        },
                        secure: if c.secure == Some(true) {
                            "TRUE"@
                        } else {
                            "FALSE"@
                        },
                        expiry: match c.expires {
                            Some(t) => t,
                            None => 0,
                        },
                        name: c.name,
                        value: c.value,
                        raw: None,
                    },
                )
            } else {
                None
            }
        },
    }
}

/// Entries of the kept cookies, in order.
pub open spec fn captured_entries(cs: Seq<WebCookieView>) -> Seq<EntryView>
    decreases cs.len(),
{
    if cs.len() == 0 {
        Seq::empty()
    } else {
        let rest = captured_entries(cs.drop_last());
        match captured_entry(cs.last()) {
            Some(e) => rest.push(e),
            None => rest,
        }
    }
}

fn capture_one(c: &WebCookie) -> (r: Option<JarEntry>)
    ensures
        match r {
            Some(e) => captured_entry(c@) == Some(e@),
            None => captured_entry(c@).is_none(),
        },
{
    let d = match &c.domain {
        Some(d) => chars_of(d.as_str()),
        None => {
            return None;
        },
    };
    let bare = strip_leading_chars(&d, '.');
    if !is_allowed(&bare) {
        return None;
    }
    let mut domain: Vec<char> = Vec::new();
    domain.push('.');
    let mut k: usize = 0;
    while k < bare.len()
        invariant
            k <= bare@.len(),
            domain@ == seq!['.'] + bare@.take(k as int),
        decreases bare@.len() - k,
    {
        domain.push(bare[k]);
        k = k + 1;
        assert(domain@ =~= seq!['.'] + bare@.take(k as int));
    }
    assert(bare@.take(bare@.len() as int) =~= bare@);
    let path = match &c.path {
        Some(p) => chars_of(p.as_str()),
        None => chars_of("/"),
    };
    let secure = if c.secure == Some(true) {
        chars_of("TRUE")
    } else {
        chars_of("FALSE")
    };
    let expiry = match c.expires {
        Some(t) => t,
        None => 0,
    };
    Some(
        JarEntry {
            domain,
            include_sub: chars_of("TRUE"),
            path,
            secure,
            expiry,
            name: chars_of(c.name.as_str()),
            value: chars_of(c.value.as_str()),
            raw: None,
        },
    )
}

/// Serializes a webview's cookies into the Netscape jar that is saved for
/// the account: the header line, then one line per google/youtube cookie.
pub fn cookies_to_netscape(cookies: &[WebCookie]) -> (r: String)
    ensures
        r@ == render_jar(captured_entries(web_cookie_views(cookies@))),
{
    let ghost cv = web_cookie_views(cookies@);
    let mut es: Vec<JarEntry> = Vec::new();
    let mut i: usize = 0;
    while i < cookies.len()
        invariant
            i <= cookies@.len(),
            cv == web_cookie_views(cookies@),
            entry_views(es@) == captured_entries(cv.take(i as int)),
        decreases cookies@.len() - i,
    {
        assert(cv.take(i + 1).drop_last() =~= cv.take(i as int));
        assert(cv.take(i + 1).last() == cookies@[i as int]@);
        match capture_one(&cookies[i]) {
            Some(e) => {
                es.push(e);
                assert(entry_views(es@) =~= entry_views(es@).drop_last().push(e@));
            },
            None => {},
        }
        i = i + 1;
    }
    assert(cv.take(cookies@.len() as int) =~= cv);
    write_jar(&es)
}


/// The music.youtube.com home page is served signed in: its bootstrap
/// config carries `"LOGGED_IN":true` (the anonymous page carries
/// `false`).
pub fn page_is_signed_in(body: &str) -> (r: bool)
    ensures
        r == contains_run(body@, "\"LOGGED_IN\":true"@),
{
    contains_chars(&chars_of(body), &chars_of("\"LOGGED_IN\":true"))
}

} // verus!
