//! Folding `Set-Cookie` response headers into a Netscape jar the way a
//! browser would: a cookie the jar holds gets its new value and expiry, a
//! new one is added, and one the server expires is dropped. Only
//! google/youtube domains at or above the responding host are accepted,
//! a cookie whose name, value, path or domain holds a tab or a line break
//! is skipped, and the identity cookies are never dropped by a response.
//! Entries that no line changes are written back as the lines they were
//! read from.

use vstd::prelude::*;
use crate::text::{
    ascii_lower_seq, chars_eq, chars_of, contains_run, ends_with, extend_chars, free_of, has_suffix,
    leading_run, string_from, string_views, strip_leading, strip_leading_chars, to_ascii_lowercase,
    trim, trim_chars,
};
use crate::jar::{
    as_written, close_entries, entry_views, law_jar_read_gives_back_write, lemma_parse_entries_ok,
    lemma_read_entry_sound, parse_jar, read_entry_ok, read_jar, render_entries, render_entry,
    render_jar, reread, sound_entry, writable_entry, written_line, write_jar, EntryView, JarEntry,
};

verus! {

// ---------------------------------------------------------------------
// The parsed form of a Set-Cookie header
// ---------------------------------------------------------------------

/// The attributes of a parsed `Set-Cookie` line that the merge reads.
/// `max_age` is in whole seconds; `expires` is the unix time of an
/// `Expires` date.
pub struct SetCookieView {
    pub name: Seq<char>,
    pub value: Seq<char>,
    pub domain: Option<Seq<char>>,
    pub path: Option<Seq<char>>,
    pub secure: Option<bool>,
    pub max_age: Option<i64>,
    pub expires: Option<i64>,
}

/// A parsed `Set-Cookie` line.
pub struct SetCookie {
    pub name: String,
    pub value: String,
    pub domain: Option<String>,
    pub path: Option<String>,
    pub secure: Option<bool>,
    pub max_age: Option<i64>,
    pub expires: Option<i64>,
}

pub open spec fn opt_str_view(o: Option<String>) -> Option<Seq<char>> {
    match o {
        Some(s) => Some(s@),
        None => None,
    }
}

impl View for SetCookie {
    type V = SetCookieView;

    open spec fn view(&self) -> SetCookieView {
        SetCookieView {
            name: self.name@,
            value: self.value@,
            domain: opt_str_view(self.domain),
            path: opt_str_view(self.path),
            secure: self.secure,
            max_age: self.max_age,
            expires: self.expires,
        }
    }
}

pub open spec fn opt_set_cookie_view(o: Option<SetCookie>) -> Option<SetCookieView> {
    match o {
        Some(c) => Some(c@),
        None => None,
    }
}

pub open spec fn set_cookie_views(v: Seq<Option<SetCookie>>) -> Seq<Option<SetCookieView>> {
    v.map_values(|o: Option<SetCookie>| opt_set_cookie_view(o))
}

/// What `cookie::Cookie::parse` makes of a header line (`None` when it
/// refuses the line), read through its accessors: the domain as
/// `Cookie::domain` returns it, `Max-Age` in whole seconds and an
/// `Expires` date as a unix time.
pub uninterp spec fn parsed_set_cookie(raw: Seq<char>) -> Option<SetCookieView>;

/// Calls `cookie::Cookie::parse` and reads the parsed cookie's name,
/// value, domain, path, secure flag, max-age and expiry date. The
/// contract says only that the result is `parsed_set_cookie` of the
/// argument: the cookie crate's parsing rules are not restated here.
#[verifier::external_body]
fn parse_set_cookie(raw: &str) -> (r: Option<SetCookie>)
    ensures
        opt_set_cookie_view(r) == parsed_set_cookie(raw@),
{
    let c = cookie::Cookie::parse(raw).ok()?;
    Some(SetCookie {
        name: c.name().to_string(),
        value: c.value().to_string(),
        domain: c.domain().map(|d| d.to_string()),
        path: c.path().map(|p| p.to_string()),
        secure: c.secure(),
        max_age: c.max_age().map(|d| d.whole_seconds()),
        expires: c.expires_datetime().map(|t| t.unix_timestamp()),
    })
}

// ---------------------------------------------------------------------
// The rules
// ---------------------------------------------------------------------

/// Cookies that identify the account. A response that expires one of them
/// is refused: the session keeper, not the HTTP replay path, decides
/// whether the user is signed out.
pub open spec fn is_protected_name(n: Seq<char>) -> bool {
    ||| n == "SID"@
    ||| n == "HSID"@
    ||| n == "SSID"@
    ||| n == "APISID"@
    ||| n == "SAPISID"@
    ||| n == "__Secure-1PSID"@
    ||| n == "__Secure-3PSID"@
    ||| n == "__Secure-1PAPISID"@
    ||| n == "__Secure-3PAPISID"@
}

/// A google or youtube domain (no leading dot).
pub open spec fn is_allowed_domain(bare: Seq<char>) -> bool {
    ||| bare == "youtube.com"@
    ||| has_suffix(bare, ".youtube.com"@)
    ||| bare == "google.com"@
    ||| has_suffix(bare, ".google.com"@)
}

/// RFC 6265 §5.3.5: the responding host sits at or below `bare`.
pub open spec fn host_domain_matches(host_bare: Seq<char>, bare: Seq<char>) -> bool {
    host_bare == bare || has_suffix(host_bare, seq!['.'] + bare)
}

/// Leading dots removed, ASCII lowercased.
pub open spec fn bare_domain(d: Seq<char>) -> Seq<char> {
    ascii_lower_seq(strip_leading(d, '.'))
}

/// The domain a parsed cookie is for: its `Domain`, or the responding
/// host for a host-only cookie.
pub open spec fn cookie_domain(c: SetCookieView, host: Seq<char>) -> Seq<char> {
    match c.domain {
        Some(d) => bare_domain(d),
        None => bare_domain(host),
    }
}

pub open spec fn saturating_add(a: i64, b: i64) -> i64 {
    if a + b > i64::MAX {
        i64::MAX
    } else if a + b < i64::MIN {
        i64::MIN
    } else {
        (a + b) as i64
    }
}

/// `Max-Age` wins over `Expires`; either in the past is a deletion.
/// Returns (is a deletion, expiry to store); a session cookie stores 0.
pub open spec fn removal_and_expiry(c: SetCookieView, now: i64) -> (bool, i64) {
    match c.max_age {
        Some(secs) => (secs <= 0, saturating_add(now, secs)),
        None => match c.expires {
            Some(ts) => (ts <= now, ts),
            None => (false, 0),
        },
    }
}

/// A jar entry is the cookie `name` on the domain `bare`.
pub open spec fn entry_is(e: EntryView, name: Seq<char>, bare: Seq<char>) -> bool {
    e.name == name && strip_leading(e.domain, '.') == bare
}

/// Index of the first entry that is `name` on `bare`.
pub open spec fn first_match(es: Seq<EntryView>, name: Seq<char>, bare: Seq<char>) -> Option<int>
    decreases es.len(),
{
    if es.len() == 0 {
        None
    } else if entry_is(es[0], name, bare) {
        Some(0)
    } else {
        match first_match(es.drop_first(), name, bare) {
            Some(i) => Some(i + 1),
            None => None,
        }
    }
}

/// The entry a new cookie is stored as: subdomain-inclusive on `.bare`.
pub open spec fn new_entry(c: SetCookieView, bare: Seq<char>, expiry: i64) -> EntryView {
    EntryView {
        domain: seq!['.'] + bare,
        include_sub: "TRUE"@,
        path: path_or_root(c),
        secure: if c.secure == Some(true) {
            "TRUE"@
        } else {
            "FALSE"@
        },
        expiry,
        name: c.name,
        value: c.value,
        raw: None,
    }
}

/// A field that a jar line holds and reads back as itself: no tab, no
/// line break, no carriage return.
pub open spec fn clean_field(f: Seq<char>) -> bool {
    free_of(f, '\t') && free_of(f, '\n') && free_of(f, '\r')
}

/// The path a new entry for `c` is stored under.
pub open spec fn path_or_root(c: SetCookieView) -> Seq<char> {
    match c.path {
        Some(p) => p,
        None => "/"@,
    }
}

/// A cookie the jar can hold as a line of its own: name, value, path and
/// domain are clean fields. Any other would write a line that reads back
/// as something else, another domain's cookie among them.
pub open spec fn fits_jar_line(c: SetCookieView, bare: Seq<char>) -> bool {
    clean_field(c.name) && clean_field(c.value) && clean_field(path_or_root(c)) && clean_field(bare)
}

/// State of a merge between two `Set-Cookie` lines.
pub struct MergeState {
    pub entries: Seq<EntryView>,
    pub value_changed: bool,
    pub needs_write: bool,
    pub blocked: Seq<Seq<char>>,
}

/// One `Set-Cookie` line applied to the state.
pub open spec fn merge_step(
    st: MergeState,
    pc: Option<SetCookieView>,
    host: Seq<char>,
    now: i64,
) -> MergeState {
    match pc {
        None => st,
        Some(c) => {
            let bare = cookie_domain(c, host);
            let host_bare = bare_domain(host);
            if !is_allowed_domain(bare) || !host_domain_matches(host_bare, bare) || !fits_jar_line(
                c,
                bare,
            ) {
                st
            } else {
                let (remove, expiry) = removal_and_expiry(c, now);
                let pos = first_match(st.entries, c.name, bare);
                if remove {
                    if is_protected_name(c.name) {
                        MergeState { blocked: st.blocked.push(bare + seq![' '] + c.name), ..st }
                    } else {
                        match pos {
                            Some(i) => MergeState {
                                entries: st.entries.remove(i),
                                value_changed: true,
                                ..st
                            },
                            None => st,
                        }
                    }
                } else {
                    match pos {
                        Some(i) => {
                            let e = st.entries[i];
                            if e.value == c.value && e.expiry == expiry {
                                st
                            } else {
                                MergeState {
                                    entries: st.entries.update(
                                        i,
                                        EntryView { value: c.value, expiry, raw: None, ..e },
                                    ),
                                    value_changed: st.value_changed || e.value != c.value,
                                    needs_write: st.needs_write || e.expiry != expiry,
                                    blocked: st.blocked,
                                }
                            }
                        },
                        None => MergeState {
                            entries: st.entries.push(new_entry(c, bare, expiry)),
                            value_changed: true,
                            ..st
                        },
                    }
                }
            }
        },
    }
}

/// All lines applied, in order.
pub open spec fn merge_steps(
    st: MergeState,
    pcs: Seq<Option<SetCookieView>>,
    host: Seq<char>,
    now: i64,
) -> MergeState
    decreases pcs.len(),
{
    if pcs.len() == 0 {
        st
    } else {
        merge_step(merge_steps(st, pcs.drop_last(), host, now), pcs.last(), host, now)
    }
}

pub open spec fn initial_state(jar: Seq<char>) -> MergeState {
    MergeState {
        entries: parse_jar(jar),
        value_changed: false,
        needs_write: false,
        blocked: Seq::empty(),
    }
}

/// What a merge reports.
pub struct JarMergeView {
    pub jar: Seq<char>,
    pub value_changed: bool,
    pub needs_write: bool,
    pub blocked_deletions: Seq<Seq<char>>,
}

/// The merge of the parsed lines `pcs` into `jar`, for a response from
/// `host` at unix time `now`.
pub open spec fn merge_parsed(
    jar: Seq<char>,
    pcs: Seq<Option<SetCookieView>>,
    host: Seq<char>,
    now: i64,
) -> JarMergeView {
    let st = merge_steps(initial_state(jar), pcs, host, now);
    JarMergeView {
        jar: render_jar(st.entries),
        value_changed: st.value_changed,
        needs_write: st.needs_write || st.value_changed,
        blocked_deletions: st.blocked,
    }
}

/// Each raw header line trimmed and parsed.
pub open spec fn parse_lines(raw: Seq<String>) -> Seq<Option<SetCookieView>> {
    raw.map_values(|s: String| parsed_set_cookie(trim(s@)))
}

/// Outcome of folding a batch of `Set-Cookie` headers into a jar.
pub struct JarMerge {
    /// The rewritten jar.
    pub jar: String,
    /// A cookie value was replaced, added or removed, so cached Cookie
    /// headers are stale.
    pub value_changed: bool,
    /// Also covers attribute-only refreshes (expiry bumps) that should
    /// persist but don't invalidate caches.
    pub needs_write: bool,
    /// `domain name` of every identity cookie the server tried to expire
    /// and that was kept.
    pub blocked_deletions: Vec<String>,
}

impl View for JarMerge {
    type V = JarMergeView;

    open spec fn view(&self) -> JarMergeView {
        JarMergeView {
            jar: self.jar@,
            value_changed: self.value_changed,
            needs_write: self.needs_write,
            blocked_deletions: string_views(self.blocked_deletions@),
        }
    }
}

// ---------------------------------------------------------------------
// Computing it
// ---------------------------------------------------------------------

proof fn lemma_first_match_at(es: Seq<EntryView>, name: Seq<char>, bare: Seq<char>, i: int)
    requires
        0 <= i <= es.len(),
        forall|j: int| 0 <= j < i ==> !entry_is(#[trigger] es[j], name, bare),
        i < es.len() ==> entry_is(es[i], name, bare),
    ensures
        first_match(es, name, bare) == (if i < es.len() {
            Some(i)
        } else {
            None::<int>
        }),
    decreases es.len(),
{
    if es.len() > 0 && i > 0 {
        assert(!entry_is(es[0], name, bare));
        assert forall|j: int| 0 <= j < i - 1 implies !entry_is(
            #[trigger] es.drop_first()[j],
            name,
            bare,
        ) by {
            assert(es.drop_first()[j] == es[j + 1]);
        }
        lemma_first_match_at(es.drop_first(), name, bare, i - 1);
    }
}

fn is_protected(n: &[char]) -> (r: bool)
    ensures
        r == is_protected_name(n@),
{
    chars_eq(n, &chars_of("SID")) || chars_eq(n, &chars_of("HSID")) || chars_eq(
        n,
        &chars_of("SSID"),
    ) || chars_eq(n, &chars_of("APISID")) || chars_eq(n, &chars_of("SAPISID")) || chars_eq(
        n,
        &chars_of("__Secure-1PSID"),
    ) || chars_eq(n, &chars_of("__Secure-3PSID")) || chars_eq(
        n,
        &chars_of("__Secure-1PAPISID"),
    ) || chars_eq(n, &chars_of("__Secure-3PAPISID"))
}

pub fn is_allowed(bare: &[char]) -> (r: bool)
    ensures
        r == is_allowed_domain(bare@),
{
    chars_eq(bare, &chars_of("youtube.com")) || ends_with(bare, &chars_of(".youtube.com"))
        || chars_eq(bare, &chars_of("google.com")) || ends_with(bare, &chars_of(".google.com"))
}

fn domain_matches(host_bare: &[char], bare: &[char]) -> (r: bool)
    ensures
        r == host_domain_matches(host_bare@, bare@),
{
    let mut dotted: Vec<char> = Vec::new();
    dotted.push('.');
    extend_chars(&mut dotted, bare);
    assert(dotted@ =~= seq!['.'] + bare@);
    chars_eq(host_bare, bare) || ends_with(host_bare, &dotted)
}

fn is_clean(f: &[char]) -> (r: bool)
    ensures
        r == clean_field(f@),
{
    let mut i: usize = 0;
    while i < f.len()
        invariant
            i <= f@.len(),
            forall|j: int| 0 <= j < i ==> #[trigger] f@[j] != '\t' && f@[j] != '\n' && f@[j] != '\r',
        decreases f@.len() - i,
    {
        if f[i] == '\t' || f[i] == '\n' || f[i] == '\r' {
            return false;
        }
        i = i + 1;
    }
    true
}

fn bare_of(d: &[char]) -> (r: Vec<char>)
    ensures
        r@ == bare_domain(d@),
{
    let s = strip_leading_chars(d, '.');
    to_ascii_lowercase(&s)
}

fn saturating_add_i64(a: i64, b: i64) -> (r: i64)
    ensures
        r == saturating_add(a, b),
{
    match a.checked_add(b) {
        Some(v) => v,
        None => if b > 0 {
            i64::MAX
        } else {
            i64::MIN
        },
    }
}

fn find_entry(es: &Vec<JarEntry>, name: &[char], bare: &[char]) -> (r: Option<usize>)
    ensures
        match r {
            Some(i) => i < es@.len() && first_match(entry_views(es@), name@, bare@) == Some(
                i as int,
            ),
            None => first_match(entry_views(es@), name@, bare@).is_none(),
        },
{
    let ghost ev = entry_views(es@);
    let mut i: usize = 0;
    while i < es.len()
        invariant
            i <= es@.len(),
            ev == entry_views(es@),
            forall|j: int| 0 <= j < i ==> !entry_is(#[trigger] ev[j], name@, bare@),
        decreases es@.len() - i,
    {
        let d = strip_leading_chars(&es[i].domain, '.');
        if chars_eq(&es[i].name, name) && chars_eq(&d, bare) {
            proof {
                lemma_first_match_at(ev, name@, bare@, i as int);
            }
            return Some(i);
        }
        i = i + 1;
    }
    proof {
        lemma_first_match_at(ev, name@, bare@, i as int);
    }
    None
}

fn text_or(o: &Option<String>, dflt: &str) -> (r: Vec<char>)
    ensures
        r@ == (match opt_str_view(*o) {
            Some(s) => s,
            None => dflt@,
        }),
{
    match o {
        Some(s) => chars_of(s.as_str()),
        None => chars_of(dflt),
    }
}

/// Applies one parsed line to the entries and flags.
fn apply_one(
    entries: &mut Vec<JarEntry>,
    value_changed: &mut bool,
    needs_write: &mut bool,
    blocked: &mut Vec<String>,
    pc: &Option<SetCookie>,
    host: &[char],
    now: i64,
)
    ensures
        ({
            let before = MergeState {
                entries: entry_views(old(entries)@),
                value_changed: *old(value_changed),
                needs_write: *old(needs_write),
                blocked: string_views(old(blocked)@),
            };
            let after = merge_step(before, opt_set_cookie_view(*pc), host@, now);
            &&& entry_views(final(entries)@) == after.entries
            &&& *final(value_changed) == after.value_changed
            &&& *final(needs_write) == after.needs_write
            &&& string_views(final(blocked)@) == after.blocked
        }),
{
    let c = match pc {
        None => {
            return ;
        },
        Some(c) => c,
    };
    let bare = match &c.domain {
        Some(d) => bare_of(&chars_of(d.as_str())),
        None => bare_of(host),
    };
    let host_bare = bare_of(host);
    if !is_allowed(&bare) || !domain_matches(&host_bare, &bare) {
        return ;
    }
    let name = chars_of(c.name.as_str());
    let value = chars_of(c.value.as_str());
    let path = text_or(&c.path, "/");
    if !is_clean(&name) || !is_clean(&value) || !is_clean(&path) || !is_clean(&bare) {
        return ;
    }
    let (remove, expiry) = match c.max_age {
        Some(secs) => (secs <= 0, saturating_add_i64(now, secs)),
        None => match c.expires {
            Some(ts) => (ts <= now, ts),
            None => (false, 0i64),
        },
    };
    let pos = find_entry(entries, &name, &bare);
    if remove {
        if is_protected(&name) {
            let mut key: Vec<char> = Vec::new();
            extend_chars(&mut key, &bare);
            key.push(' ');
            extend_chars(&mut key, &name);
            assert(key@ =~= bare@ + seq![' '] + name@);
            let ks = string_from(&key);
            blocked.push(ks);
            assert(string_views(blocked@) =~= string_views(old(blocked)@).push(bare@ + seq![' '] + name@));
        } else {
            match pos {
                Some(i) => {
                    entries.remove(i);
                    assert(entry_views(entries@) =~= entry_views(old(entries)@).remove(i as int));
                    *value_changed = true;
                },
                None => {},
            }
        }
    } else {
        match pos {
            Some(i) => {
                let old_value_differs = !chars_eq(&entries[i].value, &value);
                let old_expiry_differs = entries[i].expiry != expiry;
                if old_value_differs || old_expiry_differs {
                    let mut e = entries[i].duplicate();
                    e.value = value;
                    e.expiry = expiry;
                    e.raw = None;
                    entries.set(i, e);
                    assert(entry_views(entries@) =~= entry_views(old(entries)@).update(
                        i as int,
                        EntryView {
                            value: c.value@,
                            expiry,
                            raw: None,
                            ..entry_views(old(entries)@)[i as int]
                        },
                    ));
                    *value_changed = *value_changed || old_value_differs;
                    *needs_write = *needs_write || old_expiry_differs;
                }
            },
            None => {
                let mut domain: Vec<char> = Vec::new();
                domain.push('.');
                extend_chars(&mut domain, &bare);
                assert(domain@ =~= seq!['.'] + bare@);
                let secure = if c.secure == Some(true) {
                    chars_of("TRUE")
                } else {
                    chars_of("FALSE")
                };
                let e = JarEntry {
                    domain,
                    include_sub: chars_of("TRUE"),
                    path,
                    secure,
                    expiry,
                    name,
                    value,
                    raw: None,
                };
                entries.push(e);
                assert(entry_views(entries@) =~= entry_views(old(entries)@).push(
                    new_entry(c@, bare@, expiry),
                ));
                *value_changed = true;
            },
        }
    }
}

/// Folds already-parsed `Set-Cookie` lines (`None` for a line the cookie
/// parser refused) into `jar`, for a response from `host` at unix time
/// `now_ts`.
pub fn merge_parsed_set_cookies(
    jar: &str,
    parsed: &[Option<SetCookie>],
    host: &str,
    now_ts: i64,
) -> (m: JarMerge)
    ensures
        m@ == merge_parsed(jar@, set_cookie_views(parsed@), host@, now_ts),
{
    let ghost pcs = set_cookie_views(parsed@);
    let jc = chars_of(jar);
    let hc = chars_of(host);
    let mut entries = read_jar(&jc);
    let mut value_changed = false;
    let mut needs_write = false;
    let mut blocked: Vec<String> = Vec::new();
    let mut k: usize = 0;
    assert(string_views(blocked@) =~= Seq::<Seq<char>>::empty());
    while k < parsed.len()
        invariant
            k <= parsed@.len(),
            hc@ == host@,
            pcs == set_cookie_views(parsed@),
            ({
                let st = merge_steps(initial_state(jar@), pcs.take(k as int), host@, now_ts);
                &&& entry_views(entries@) == st.entries
                &&& value_changed == st.value_changed
                &&& needs_write == st.needs_write
                &&& string_views(blocked@) == st.blocked
            }),
        decreases parsed@.len() - k,
    {
        assert(pcs.len() == parsed@.len());
        assert(pcs.take(k + 1).len() == k + 1);
        assert(pcs.take(k + 1).drop_last() =~= pcs.take(k as int));
        assert(pcs.take(k + 1).last() == opt_set_cookie_view(parsed@[k as int]));
        let ghost st0 = merge_steps(initial_state(jar@), pcs.take(k as int), host@, now_ts);
        assert(merge_steps(initial_state(jar@), pcs.take(k + 1), host@, now_ts) == merge_step(
            st0,
            opt_set_cookie_view(parsed@[k as int]),
            hc@,
            now_ts,
        ));
        assert(st0 == MergeState {
            entries: entry_views(entries@),
            value_changed: value_changed,
            needs_write: needs_write,
            blocked: string_views(blocked@),
        });
        apply_one(
            &mut entries,
            &mut value_changed,
            &mut needs_write,
            &mut blocked,
            &parsed[k],
            &hc,
            now_ts,
        );
        k = k + 1;
    }
    assert(pcs.take(parsed@.len() as int) =~= pcs);
    let out = write_jar(&entries);
    JarMerge { jar: out, value_changed, needs_write: needs_write || value_changed, blocked_deletions: blocked }
}

/// Applies `Set-Cookie` response headers to a Netscape jar the way a
/// browser would (see the module documentation). Each header line is
/// trimmed and parsed with the cookie crate; lines it refuses are skipped.
pub fn merge_set_cookies_into_jar(
    jar: &str,
    set_cookies: &[String],
    host: &str,
    now_ts: i64,
) -> (m: JarMerge)
    ensures
        m@ == merge_parsed(jar@, parse_lines(set_cookies@), host@, now_ts),
{
    let mut parsed: Vec<Option<SetCookie>> = Vec::new();
    let mut k: usize = 0;
    while k < set_cookies.len()
        invariant
            k <= set_cookies@.len(),
            parsed@.len() == k,
            set_cookie_views(parsed@) == parse_lines(
                set_cookies@,
            ).take(k as int),
        decreases set_cookies@.len() - k,
    {
        let raw = chars_of(set_cookies[k].as_str());
        let t = string_from(&trim_chars(&raw));
        let pc = parse_set_cookie(t.as_str());
        assert(opt_set_cookie_view(pc) == parse_lines(set_cookies@)[k as int]);
        let ghost prev = parsed@;
        parsed.push(pc);
        assert(parsed@ == prev.push(pc));
        assert forall|j: int| 0 <= j < k + 1 implies set_cookie_views(parsed@)[j] == parse_lines(
            set_cookies@,
        )[j] by {
            if j < k {
                assert(set_cookie_views(prev)[j] == parse_lines(set_cookies@).take(k as int)[j]);
            }
        }
        assert(set_cookie_views(parsed@) =~= parse_lines(
            set_cookies@,
        ).take(k + 1));
        k = k + 1;
    }
    assert(parse_lines(set_cookies@).take(set_cookies@.len() as int) =~= parse_lines(set_cookies@));
    merge_parsed_set_cookies(jar, &parsed, host, now_ts)
}

// ---------------------------------------------------------------------
// Laws of the merge
// ---------------------------------------------------------------------

/// The entries a merge leaves in the jar.
pub open spec fn merged_entries(
    jar: Seq<char>,
    pcs: Seq<Option<SetCookieView>>,
    host: Seq<char>,
    now: i64,
) -> Seq<EntryView> {
    merge_steps(initial_state(jar), pcs, host, now).entries
}

/// Some entry of `es` is the cookie `name` stored under exactly `domain`.
pub open spec fn holds_key(es: Seq<EntryView>, domain: Seq<char>, name: Seq<char>) -> bool {
    exists|j: int| 0 <= j < es.len() && (#[trigger] es[j]).domain == domain && es[j].name == name
}

/// Every identity cookie of `es` is also held by `es2`.
pub open spec fn keeps_identity_cookies(es: Seq<EntryView>, es2: Seq<EntryView>) -> bool {
    forall|i: int|
        0 <= i < es.len() && is_protected_name((#[trigger] es[i]).name) ==> holds_key(
            es2,
            es[i].domain,
            es[i].name,
        )
}

/// A line a merge ignores: unparsed, for a domain outside google/youtube
/// or above which the responding host does not sit, or with a name,
/// value, path or domain that a jar line cannot hold.
pub open spec fn is_rejected(pc: Option<SetCookieView>, host: Seq<char>) -> bool {
    match pc {
        None => true,
        Some(c) => !is_allowed_domain(cookie_domain(c, host)) || !host_domain_matches(
            bare_domain(host),
            cookie_domain(c, host),
        ) || !fits_jar_line(c, cookie_domain(c, host)),
    }
}

/// An entry is either keyed like one of `orig` or was planted by the
/// merge on an accepted domain the responding host sits at or below.
pub open spec fn entry_is_accounted(e: EntryView, orig: Seq<EntryView>, host: Seq<char>) -> bool {
    holds_key(orig, e.domain, e.name) || exists|bare: Seq<char>|
        #![trigger is_allowed_domain(bare)]
        e.domain == seq!['.'] + bare && is_allowed_domain(bare) && host_domain_matches(
            bare_domain(host),
            bare,
        )
}

pub proof fn lemma_first_match_in_range(es: Seq<EntryView>, name: Seq<char>, bare: Seq<char>)
    ensures
        first_match(es, name, bare) matches Some(i) ==> 0 <= i < es.len() && entry_is(
            es[i],
            name,
            bare,
        ),
    decreases es.len(),
{
    if es.len() > 0 && !entry_is(es[0], name, bare) {
        lemma_first_match_in_range(es.drop_first(), name, bare);
        if let Some(i) = first_match(es, name, bare) {
            assert(es.drop_first()[i - 1] == es[i]);
        }
    }
}

proof fn lemma_step_keeps_identity(
    st: MergeState,
    pc: Option<SetCookieView>,
    host: Seq<char>,
    now: i64,
)
    ensures
        keeps_identity_cookies(st.entries, merge_step(st, pc, host, now).entries),
{
    let es = st.entries;
    let es2 = merge_step(st, pc, host, now).entries;
    assert forall|i: int| 0 <= i < es.len() && is_protected_name((#[trigger] es[i]).name) implies holds_key(
        es2,
        es[i].domain,
        es[i].name,
    ) by {
        if let Some(c) = pc {
            let bare = cookie_domain(c, host);
            lemma_first_match_in_range(es, c.name, bare);
            let pos = first_match(es, c.name, bare);
            let (remove, expiry) = removal_and_expiry(c, now);
            if !is_allowed_domain(bare) || !host_domain_matches(bare_domain(host), bare) || !fits_jar_line(c, bare) {
                assert(es2[i] == es[i]);
            } else if remove {
                if is_protected_name(c.name) {
                    assert(es2[i] == es[i]);
                } else if let Some(p) = pos {
                    assert(es2 == es.remove(p));
                    assert(p != i);
                    if i < p {
                        assert(es2[i] == es[i]);
                    } else {
                        assert(es2[i - 1] == es[i]);
                    }
                } else {
                    assert(es2[i] == es[i]);
                }
            } else if let Some(p) = pos {
                assert(es2[i].domain == es[i].domain && es2[i].name == es[i].name);
            } else {
                assert(es2[i] == es[i]);
            }
        } else {
            assert(es2[i] == es[i]);
        }
    }
}

proof fn lemma_steps_keep_identity(
    st: MergeState,
    pcs: Seq<Option<SetCookieView>>,
    host: Seq<char>,
    now: i64,
)
    ensures
        keeps_identity_cookies(st.entries, merge_steps(st, pcs, host, now).entries),
    decreases pcs.len(),
{
    if pcs.len() == 0 {
        assert forall|i: int| 0 <= i < st.entries.len() && is_protected_name(
            (#[trigger] st.entries[i]).name,
        ) implies holds_key(st.entries, st.entries[i].domain, st.entries[i].name) by {
            assert(st.entries[i] == st.entries[i]);
        }
    } else {
        let mid = merge_steps(st, pcs.drop_last(), host, now);
        lemma_steps_keep_identity(st, pcs.drop_last(), host, now);
        lemma_step_keeps_identity(mid, pcs.last(), host, now);
        let es3 = merge_steps(st, pcs, host, now).entries;
        assert forall|i: int| 0 <= i < st.entries.len() && is_protected_name(
            (#[trigger] st.entries[i]).name,
        ) implies holds_key(es3, st.entries[i].domain, st.entries[i].name) by {
            let j = choose|j: int|
                0 <= j < mid.entries.len() && (#[trigger] mid.entries[j]).domain
                    == st.entries[i].domain && mid.entries[j].name == st.entries[i].name;
            assert(is_protected_name(mid.entries[j].name));
        }
    }
}

/// A response can never sign the user out: every identity cookie (SID,
/// SAPISID and the other names of `is_protected_name`) that the jar
/// holds is still held, under the same domain, after any merge.
pub proof fn law_identity_cookies_survive_any_response(
    jar: Seq<char>,
    pcs: Seq<Option<SetCookieView>>,
    host: Seq<char>,
    now: i64,
)
    ensures
        keeps_identity_cookies(parse_jar(jar), merged_entries(jar, pcs, host, now)),
{
    lemma_steps_keep_identity(initial_state(jar), pcs, host, now);
}

proof fn lemma_steps_accounted(
    jar: Seq<char>,
    pcs: Seq<Option<SetCookieView>>,
    host: Seq<char>,
    now: i64,
)
    ensures
        forall|j: int|
            0 <= j < merged_entries(jar, pcs, host, now).len() ==> entry_is_accounted(
                #[trigger] merged_entries(jar, pcs, host, now)[j],
                parse_jar(jar),
                host,
            ),
    decreases pcs.len(),
{
    let orig = parse_jar(jar);
    if pcs.len() == 0 {
        assert forall|j: int| 0 <= j < orig.len() implies entry_is_accounted(
            #[trigger] orig[j],
            orig,
            host,
        ) by {
            assert(orig[j] == orig[j]);
        }
    } else {
        lemma_steps_accounted(jar, pcs.drop_last(), host, now);
        let st = merge_steps(initial_state(jar), pcs.drop_last(), host, now);
        let es = merged_entries(jar, pcs.drop_last(), host, now);
        assert(es == st.entries);
        let es2 = merged_entries(jar, pcs, host, now);
        assert(es2 == merge_step(st, pcs.last(), host, now).entries);
        assert forall|j: int| 0 <= j < es2.len() implies entry_is_accounted(
            #[trigger] es2[j],
            orig,
            host,
        ) by {
            if let Some(c) = pcs.last() {
                let bare = cookie_domain(c, host);
                lemma_first_match_in_range(es, c.name, bare);
                let pos = first_match(es, c.name, bare);
                let (remove, expiry) = removal_and_expiry(c, now);
                if !is_allowed_domain(bare) || !host_domain_matches(bare_domain(host), bare) || !fits_jar_line(c, bare) {
                    assert(es2[j] == es[j]);
                } else if remove {
                    if is_protected_name(c.name) {
                        assert(es2[j] == es[j]);
                    } else if let Some(p) = pos {
                        assert(es2 == es.remove(p));
                        if j < p {
                            assert(es2[j] == es[j]);
                        } else {
                            assert(es2[j] == es[j + 1]);
                        }
                    } else {
                        assert(es2[j] == es[j]);
                    }
                } else if let Some(p) = pos {
                    assert(es2[j].domain == es[j].domain && es2[j].name == es[j].name);
                    assert(entry_is_accounted(es[j], orig, host));
                } else if j < es.len() {
                    assert(es2[j] == es[j]);
                } else {
                    assert(es2[j] == new_entry(c, bare, expiry));
                    assert(is_allowed_domain(bare));
                }
            } else {
                assert(es2[j] == es[j]);
            }
        }
    }
}

/// A response can only plant cookies where a browser would let it: every
/// entry after a merge is keyed like an entry of the jar before it, or
/// sits on `.bare` for a google/youtube domain `bare` that the responding
/// host is at or below.
pub proof fn law_merge_plants_only_on_matching_domains(
    jar: Seq<char>,
    pcs: Seq<Option<SetCookieView>>,
    host: Seq<char>,
    now: i64,
)
    ensures
        forall|j: int|
            0 <= j < merged_entries(jar, pcs, host, now).len() ==> entry_is_accounted(
                #[trigger] merged_entries(jar, pcs, host, now)[j],
                parse_jar(jar),
                host,
            ),
{
    lemma_steps_accounted(jar, pcs, host, now);
}

proof fn lemma_rejected_steps_are_identity(
    st: MergeState,
    pcs: Seq<Option<SetCookieView>>,
    host: Seq<char>,
    now: i64,
)
    requires
        forall|k: int| 0 <= k < pcs.len() ==> is_rejected(#[trigger] pcs[k], host),
    ensures
        merge_steps(st, pcs, host, now) == st,
    decreases pcs.len(),
{
    if pcs.len() > 0 {
        assert(is_rejected(pcs[pcs.len() - 1], host));
        lemma_rejected_steps_are_identity(st, pcs.drop_last(), host, now);
    }
}

/// Lines for foreign domains, or for domains the responding host is not
/// under, or that do not parse, leave the jar's entries as they were and
/// report nothing to write.
pub proof fn law_foreign_cookies_leave_jar_untouched(
    jar: Seq<char>,
    pcs: Seq<Option<SetCookieView>>,
    host: Seq<char>,
    now: i64,
)
    requires
        forall|k: int| 0 <= k < pcs.len() ==> is_rejected(#[trigger] pcs[k], host),
    ensures
        merged_entries(jar, pcs, host, now) == parse_jar(jar),
        merge_parsed(jar, pcs, host, now).jar == render_jar(parse_jar(jar)),
        !merge_parsed(jar, pcs, host, now).value_changed,
        !merge_parsed(jar, pcs, host, now).needs_write,
        merge_parsed(jar, pcs, host, now).blocked_deletions.len() == 0,
{
    lemma_rejected_steps_are_identity(initial_state(jar), pcs, host, now);
}

/// A changed value always means the jar must be written back.
pub proof fn law_value_change_implies_write(
    jar: Seq<char>,
    pcs: Seq<Option<SetCookieView>>,
    host: Seq<char>,
    now: i64,
)
    ensures
        merge_parsed(jar, pcs, host, now).value_changed ==> merge_parsed(
            jar,
            pcs,
            host,
            now,
        ).needs_write,
{
}


/// An entry a merge leaves: one as read from the jar, or one the merge
/// made or changed whose fields fit a jar line.
pub open spec fn good_entry(e: EntryView) -> bool {
    read_entry_ok(e) || ((e.raw is None) && writable_entry(e))
}

proof fn lemma_good_sound(e: EntryView)
    requires
        good_entry(e),
    ensures
        sound_entry(e),
        close_entries(e, reread(e)) || reread(e) == as_written(e),
        reread(e).domain == e.domain && reread(e).name == e.name && reread(e).expiry == e.expiry,
        reread(e).raw == Some(written_line(e)),
{
    if read_entry_ok(e) {
        lemma_read_entry_sound(e);
    } else {
        law_jar_read_gives_back_write(seq![e]);
        assert(seq![e][0] == e);
    }
}

proof fn lemma_new_entry_writable(c: SetCookieView, bare: Seq<char>, expiry: i64)
    requires
        fits_jar_line(c, bare),
    ensures
        writable_entry(new_entry(c, bare, expiry)),
{
    reveal_strlit("TRUE");
    reveal_strlit("FALSE");
    let e = new_entry(c, bare, expiry);
    let d = seq!['.'] + bare;
    assert forall|j: int| 0 <= j < d.len() implies #[trigger] d[j] != '\t' && d[j] != '\n' by {
        if j > 0 {
            assert(d[j] == bare[j - 1]);
        }
    }
    assert(e.domain == d);
    assert("TRUE"@ =~= seq!['T', 'R', 'U', 'E']);
    assert("FALSE"@ =~= seq!['F', 'A', 'L', 'S', 'E']);
    if c.value.len() > 0 {
        assert(c.value[c.value.len() - 1] != '\r');
    }
}

proof fn lemma_step_good(st: MergeState, pc: Option<SetCookieView>, host: Seq<char>, now: i64)
    requires
        forall|i: int| 0 <= i < st.entries.len() ==> good_entry(#[trigger] st.entries[i]),
    ensures
        forall|i: int|
            0 <= i < merge_step(st, pc, host, now).entries.len() ==> good_entry(
                #[trigger] merge_step(st, pc, host, now).entries[i],
            ),
{
    let es = st.entries;
    let es2 = merge_step(st, pc, host, now).entries;
    if let Some(c) = pc {
        let bare = cookie_domain(c, host);
        lemma_first_match_in_range(es, c.name, bare);
        let pos = first_match(es, c.name, bare);
        let (remove, expiry) = removal_and_expiry(c, now);
        if !is_allowed_domain(bare) || !host_domain_matches(bare_domain(host), bare)
            || !fits_jar_line(c, bare) {
        } else if remove {
            if !is_protected_name(c.name) {
                if let Some(p) = pos {
                    assert forall|i: int| 0 <= i < es2.len() implies good_entry(#[trigger] es2[i]) by {
                        if i < p {
                            assert(es2[i] == es[i]);
                        } else {
                            assert(es2[i] == es[i + 1]);
                        }
                    }
                }
            }
        } else if let Some(p) = pos {
            let e = es[p];
            if !(e.value == c.value && e.expiry == expiry) {
                let n = EntryView { value: c.value, expiry, raw: None, ..e };
                assert(good_entry(e));
                if c.value.len() > 0 {
                    assert(c.value[c.value.len() - 1] != '\r');
                }
                assert(writable_entry(n));
                assert forall|i: int| 0 <= i < es2.len() implies good_entry(#[trigger] es2[i]) by {
                    if i != p {
                        assert(es2[i] == es[i]);
                    }
                }
            }
        } else {
            lemma_new_entry_writable(c, bare, expiry);
            assert forall|i: int| 0 <= i < es2.len() implies good_entry(#[trigger] es2[i]) by {
                if i < es.len() {
                    assert(es2[i] == es[i]);
                }
            }
        }
    }
}

proof fn lemma_steps_good(st: MergeState, pcs: Seq<Option<SetCookieView>>, host: Seq<char>, now: i64)
    requires
        forall|i: int| 0 <= i < st.entries.len() ==> good_entry(#[trigger] st.entries[i]),
    ensures
        forall|i: int|
            0 <= i < merge_steps(st, pcs, host, now).entries.len() ==> good_entry(
                #[trigger] merge_steps(st, pcs, host, now).entries[i],
            ),
    decreases pcs.len(),
{
    if pcs.len() > 0 {
        lemma_steps_good(st, pcs.drop_last(), host, now);
        lemma_step_good(merge_steps(st, pcs.drop_last(), host, now), pcs.last(), host, now);
    }
}

/// The entries of a merge are all good.
proof fn lemma_merged_good(jar: Seq<char>, pcs: Seq<Option<SetCookieView>>, host: Seq<char>, now: i64)
    ensures
        forall|i: int|
            0 <= i < merged_entries(jar, pcs, host, now).len() ==> good_entry(
                #[trigger] merged_entries(jar, pcs, host, now)[i],
            ),
        forall|i: int|
            0 <= i < merged_entries(jar, pcs, host, now).len() ==> sound_entry(
                #[trigger] merged_entries(jar, pcs, host, now)[i],
            ),
{
    lemma_parse_entries_ok(jar);
    lemma_steps_good(initial_state(jar), pcs, host, now);
    let es = merged_entries(jar, pcs, host, now);
    assert forall|i: int| 0 <= i < es.len() implies sound_entry(#[trigger] es[i]) by {
        lemma_good_sound(es[i]);
    }
}

/// A rotated cookie is echoed: after merging an accepted, non-expiring
/// `Set-Cookie`, reading the jar back finds the cookie on its domain
/// with the new value.
pub proof fn law_merge_echoes_the_new_value(jar: Seq<char>, c: SetCookieView, host: Seq<char>, now: i64)
    requires
        !is_rejected(Some(c), host),
        match c.max_age {
            Some(secs) => secs > 0,
            None => match c.expires {
                Some(ts) => ts > now,
                None => true,
            },
        },
    ensures
        exists|i: int|
            0 <= i < parse_jar(merge_parsed(jar, seq![Some(c)], host, now).jar).len()
                && entry_is(
                #[trigger] parse_jar(merge_parsed(jar, seq![Some(c)], host, now).jar)[i],
                c.name,
                cookie_domain(c, host),
            ) && parse_jar(merge_parsed(jar, seq![Some(c)], host, now).jar)[i].value == c.value,
{
    let pcs = seq![Some(c)];
    let st0 = initial_state(jar);
    assert(pcs.drop_last() =~= Seq::<Option<SetCookieView>>::empty());
    assert(merge_steps(st0, pcs.drop_last(), host, now) == st0);
    let st = merge_steps(st0, pcs, host, now);
    assert(st == merge_step(st0, Some(c), host, now));
    let bare = cookie_domain(c, host);
    let expiry = removal_and_expiry(c, now).1;
    let es0 = st0.entries;
    lemma_first_match_in_range(es0, c.name, bare);
    let k = match first_match(es0, c.name, bare) {
        Some(i) => i,
        None => es0.len() as int,
    };
    assert(st.entries[k].value == c.value);
    assert(entry_is(st.entries[k], c.name, bare)) by {
        if first_match(es0, c.name, bare) is None {
            lemma_new_entry_is(c, bare, expiry, host);
        }
    }
    lemma_merged_good(jar, pcs, host, now);
    assert(st.entries == merged_entries(jar, pcs, host, now));
    law_jar_read_gives_back_write(st.entries);
    let read = parse_jar(merge_parsed(jar, pcs, host, now).jar);
    assert(read == st.entries.map_values(|e: EntryView| reread(e)));
    let e = st.entries[k];
    assert(read[k] == reread(e));
    lemma_good_sound(e);
    if e.value == reread(e).value.push('\r') {
        assert(c.value[c.value.len() - 1] == '\r');
    }
    assert(entry_is(read[k], c.name, bare) && read[k].value == c.value);
}

/// A new entry for `c` on `bare` is the cookie `c.name` on `bare`.
proof fn lemma_new_entry_is(c: SetCookieView, bare: Seq<char>, expiry: i64, host: Seq<char>)
    requires
        bare == cookie_domain(c, host),
    ensures
        entry_is(new_entry(c, bare, expiry), c.name, bare),
{
    let d = seq!['.'] + bare;
    let raw = match c.domain {
        Some(x) => x,
        None => host,
    };
    crate::text::lemma_strip_leading_no_prefix(raw, '.');
    assert(bare.len() == 0 || bare[0] != '.');
    assert(d.drop_first() =~= bare);
    assert(leading_run(d.drop_first(), '.') == 0);
    assert(leading_run(d, '.') == 1);
    assert(strip_leading(d, '.') =~= bare);
}

// ---------------------------------------------------------------------
// Merging the same lines twice
// ---------------------------------------------------------------------

/// Two entries are the same cookie: the same name on the same domain,
/// leading dots aside.
pub open spec fn same_key(a: EntryView, b: EntryView) -> bool {
    a.name == b.name && strip_leading(a.domain, '.') == strip_leading(b.domain, '.')
}

/// No two entries are the same cookie.
pub open spec fn keys_unique(es: Seq<EntryView>) -> bool {
    forall|i: int, j: int| 0 <= i < j < es.len() ==> !same_key(#[trigger] es[i], #[trigger] es[j])
}

/// Two parsed lines set the same cookie: the same name for the same
/// domain.
pub open spec fn cookie_key_clash(pa: Option<SetCookieView>, pb: Option<SetCookieView>, host: Seq<char>) -> bool {
    match (pa, pb) {
        (Some(a), Some(b)) => a.name == b.name && cookie_domain(a, host) == cookie_domain(b, host),
        _ => false,
    }
}

/// What the entries hold once the line `pc` has been applied and no
/// later line set the same cookie: nothing for a cookie it deleted, its
/// value and expiry for one it set.
pub open spec fn settled(pc: Option<SetCookieView>, host: Seq<char>, now: i64, es: Seq<EntryView>) -> bool {
    match pc {
        None => true,
        Some(c) => is_rejected(pc, host) || {
            let bare = cookie_domain(c, host);
            let (rm, exp) = removal_and_expiry(c, now);
            if rm {
                is_protected_name(c.name) || forall|p: int|
                    0 <= p < es.len() ==> !entry_is(#[trigger] es[p], c.name, bare)
            } else {
                exists|p: int|
                    0 <= p < es.len() && entry_is(#[trigger] es[p], c.name, bare) && es[p].value
                        == c.value && es[p].expiry == exp
            }
        },
    }
}

/// The `domain name` keys that the lines `pcs` report as refused deletions.
pub open spec fn blocks_of(pcs: Seq<Option<SetCookieView>>, host: Seq<char>, now: i64) -> Seq<Seq<char>>
    decreases pcs.len(),
{
    if pcs.len() == 0 {
        Seq::empty()
    } else {
        let rest = blocks_of(pcs.drop_last(), host, now);
        match pcs.last() {
            Some(c) => if !is_rejected(pcs.last(), host) && removal_and_expiry(c, now).0
                && is_protected_name(c.name) {
                rest.push(cookie_domain(c, host) + seq![' '] + c.name)
            } else {
                rest
            },
            None => rest,
        }
    }
}

proof fn lemma_first_match_none(es: Seq<EntryView>, name: Seq<char>, bare: Seq<char>)
    ensures
        first_match(es, name, bare) is None ==> forall|p: int|
            0 <= p < es.len() ==> !entry_is(#[trigger] es[p], name, bare),
    decreases es.len(),
{
    if es.len() > 0 && !entry_is(es[0], name, bare) {
        lemma_first_match_none(es.drop_first(), name, bare);
        if first_match(es, name, bare) is None {
            assert forall|p: int| 0 <= p < es.len() implies !entry_is(#[trigger] es[p], name, bare) by {
                if p > 0 {
                    assert(es[p] == es.drop_first()[p - 1]);
                }
            }
        }
    }
}

/// With unique keys, the one entry that is `name` on `bare` is the first.
proof fn lemma_unique_match(es: Seq<EntryView>, name: Seq<char>, bare: Seq<char>, p: int)
    requires
        keys_unique(es),
        0 <= p < es.len(),
        entry_is(es[p], name, bare),
    ensures
        first_match(es, name, bare) == Some(p),
        forall|q: int| 0 <= q < es.len() && q != p ==> !entry_is(#[trigger] es[q], name, bare),
{
    assert forall|q: int| 0 <= q < es.len() && q != p implies !entry_is(#[trigger] es[q], name, bare) by {
        if entry_is(es[q], name, bare) {
            if q < p {
                assert(!same_key(es[q], es[p]));
            } else {
                assert(!same_key(es[p], es[q]));
            }
        }
    }
    lemma_first_match_at(es, name, bare, p);
}

/// A merge step keeps the keys unique and leaves its own line settled.
proof fn lemma_step_settles(st: MergeState, c: SetCookieView, host: Seq<char>, now: i64)
    requires
        keys_unique(st.entries),
    ensures
        keys_unique(merge_step(st, Some(c), host, now).entries),
        settled(Some(c), host, now, merge_step(st, Some(c), host, now).entries),
{
    let es = st.entries;
    let st2 = merge_step(st, Some(c), host, now);
    let es2 = st2.entries;
    let bare = cookie_domain(c, host);
    let (rm, exp) = removal_and_expiry(c, now);
    lemma_first_match_in_range(es, c.name, bare);
    lemma_first_match_none(es, c.name, bare);
    if is_rejected(Some(c), host) {
    } else if rm {
        if !is_protected_name(c.name) {
            if let Some(p) = first_match(es, c.name, bare) {
                lemma_unique_match(es, c.name, bare, p);
                assert(es2 == es.remove(p));
                assert forall|q: int| 0 <= q < es2.len() implies !entry_is(#[trigger] es2[q], c.name, bare) by {
                    if q < p {
                        assert(es2[q] == es[q]);
                    } else {
                        assert(es2[q] == es[q + 1]);
                    }
                }
                assert forall|i: int, j: int| 0 <= i < j < es2.len() implies !same_key(
                    #[trigger] es2[i],
                    #[trigger] es2[j],
                ) by {
                    let i0 = if i < p { i } else { i + 1 };
                    let j0 = if j < p { j } else { j + 1 };
                    assert(es2[i] == es[i0] && es2[j] == es[j0]);
                    assert(!same_key(es[i0], es[j0]));
                }
            }
        }
    } else if let Some(p) = first_match(es, c.name, bare) {
        let e = es[p];
        if !(e.value == c.value && e.expiry == exp) {
            assert(es2[p].name == e.name && es2[p].domain == e.domain);
            assert(entry_is(es2[p], c.name, bare));
            assert forall|i: int, j: int| 0 <= i < j < es2.len() implies !same_key(
                #[trigger] es2[i],
                #[trigger] es2[j],
            ) by {
                assert(same_key(es2[i], es2[j]) == same_key(es[i], es[j]));
            }
        }
        assert(entry_is(es2[p], c.name, bare) && es2[p].value == c.value && es2[p].expiry == exp);
    } else {
        lemma_new_entry_is(c, bare, exp, host);
        let n = new_entry(c, bare, exp);
        assert(es2 == es.push(n));
        assert(es2[es.len() as int] == n);
        assert forall|i: int, j: int| 0 <= i < j < es2.len() implies !same_key(
            #[trigger] es2[i],
            #[trigger] es2[j],
        ) by {
            if j == es.len() {
                assert(es2[i] == es[i]);
                if same_key(es[i], n) {
                    assert(entry_is(es[i], c.name, bare));
                }
            } else {
                assert(es2[i] == es[i] && es2[j] == es[j]);
            }
        }
    }
}

/// A merge step for another cookie leaves an earlier line settled.
proof fn lemma_step_keeps_settled(
    st: MergeState,
    c: SetCookieView,
    pa: Option<SetCookieView>,
    host: Seq<char>,
    now: i64,
)
    requires
        keys_unique(st.entries),
        settled(pa, host, now, st.entries),
        !cookie_key_clash(pa, Some(c), host),
    ensures
        settled(pa, host, now, merge_step(st, Some(c), host, now).entries),
{
    let es = st.entries;
    let es2 = merge_step(st, Some(c), host, now).entries;
    let bare = cookie_domain(c, host);
    let (rm, exp) = removal_and_expiry(c, now);
    lemma_first_match_in_range(es, c.name, bare);
    if let Some(a) = pa {
        if !is_rejected(pa, host) {
            let ba = cookie_domain(a, host);
            let (rma, expa) = removal_and_expiry(a, now);
            if is_rejected(Some(c), host) || (rm && is_protected_name(c.name)) {
                assert(es2 == es);
            } else if rm {
                if let Some(p) = first_match(es, c.name, bare) {
                    assert(es2 == es.remove(p));
                    if rma {
                        if !is_protected_name(a.name) {
                            assert forall|q: int| 0 <= q < es2.len() implies !entry_is(
                                #[trigger] es2[q],
                                a.name,
                                ba,
                            ) by {
                                if q < p {
                                    assert(es2[q] == es[q]);
                                } else {
                                    assert(es2[q] == es[q + 1]);
                                }
                            }
                        }
                    } else {
                        let w = choose|w: int|
                            0 <= w < es.len() && entry_is(#[trigger] es[w], a.name, ba) && es[w].value
                                == a.value && es[w].expiry == expa;
                        assert(w != p);
                        if w < p {
                            assert(es2[w] == es[w]);
                        } else {
                            assert(es2[w - 1] == es[w]);
                        }
                    }
                } else {
                    assert(es2 == es);
                }
            } else if let Some(p) = first_match(es, c.name, bare) {
                if !(es[p].value == c.value && es[p].expiry == exp) {
                    assert(es2.len() == es.len());
                    assert(!entry_is(es2[p], a.name, ba));
                    assert(forall|q: int| 0 <= q < es.len() && q != p ==> #[trigger] es2[q] == es[q]);
                    if rma {
                        if !is_protected_name(a.name) {
                            assert forall|q: int| 0 <= q < es2.len() implies !entry_is(
                                #[trigger] es2[q],
                                a.name,
                                ba,
                            ) by {
                                if q != p {
                                    assert(es2[q] == es[q]);
                                }
                            }
                        }
                    } else {
                        let w = choose|w: int|
                            0 <= w < es.len() && entry_is(#[trigger] es[w], a.name, ba) && es[w].value
                                == a.value && es[w].expiry == expa;
                        assert(w != p);
                        assert(es2[w] == es[w]);
                    }
                } else {
                    assert(es2 == es);
                }
            } else {
                lemma_new_entry_is(c, bare, exp, host);
                let n = new_entry(c, bare, exp);
                assert(es2 == es.push(n));
                if rma {
                    if !is_protected_name(a.name) {
                        assert forall|q: int| 0 <= q < es2.len() implies !entry_is(
                            #[trigger] es2[q],
                            a.name,
                            ba,
                        ) by {
                            if q < es.len() {
                                assert(es2[q] == es[q]);
                            } else {
                                assert(es2[q] == n);
                            }
                        }
                    }
                } else {
                    let w = choose|w: int|
                        0 <= w < es.len() && entry_is(#[trigger] es[w], a.name, ba) && es[w].value
                            == a.value && es[w].expiry == expa;
                    assert(es2[w] == es[w]);
                }
            }
        }
    }
}

/// After all lines are applied, with unique keys to start from and no two
/// lines for the same cookie, the keys are still unique and every line is
/// settled.
proof fn lemma_run_settles(st: MergeState, pcs: Seq<Option<SetCookieView>>, host: Seq<char>, now: i64)
    requires
        keys_unique(st.entries),
        forall|i: int, j: int|
            0 <= i < j < pcs.len() ==> !cookie_key_clash(#[trigger] pcs[i], #[trigger] pcs[j], host),
    ensures
        keys_unique(merge_steps(st, pcs, host, now).entries),
        forall|i: int|
            0 <= i < pcs.len() ==> settled(#[trigger] pcs[i], host, now, merge_steps(st, pcs, host, now).entries),
    decreases pcs.len(),
{
    if pcs.len() > 0 {
        let pre = pcs.drop_last();
        assert forall|i: int, j: int| 0 <= i < j < pre.len() implies !cookie_key_clash(
            #[trigger] pre[i],
            #[trigger] pre[j],
            host,
        ) by {
            assert(pre[i] == pcs[i] && pre[j] == pcs[j]);
        }
        lemma_run_settles(st, pre, host, now);
        let mid = merge_steps(st, pre, host, now);
        let last = pcs.last();
        let fin = merge_steps(st, pcs, host, now);
        assert(fin == merge_step(mid, last, host, now));
        if let Some(c) = last {
            lemma_step_settles(mid, c, host, now);
            assert forall|i: int| 0 <= i < pcs.len() implies settled(#[trigger] pcs[i], host, now, fin.entries) by {
                if i < pcs.len() - 1 {
                    assert(pre[i] == pcs[i]);
                    assert(settled(pre[i], host, now, mid.entries));
                    assert(!cookie_key_clash(pcs[i], pcs[pcs.len() - 1], host));
                    lemma_step_keeps_settled(mid, c, pcs[i], host, now);
                }
            }
        } else {
            assert(fin == mid);
            assert forall|i: int| 0 <= i < pcs.len() implies settled(#[trigger] pcs[i], host, now, fin.entries) by {
                if i < pcs.len() - 1 {
                    assert(pre[i] == pcs[i]);
                }
            }
        }
    }
}

/// A settled line, applied again, changes neither the entries nor the
/// flags.
proof fn lemma_settled_step_noop(st: MergeState, pc: Option<SetCookieView>, host: Seq<char>, now: i64)
    requires
        keys_unique(st.entries),
        settled(pc, host, now, st.entries),
    ensures
        merge_step(st, pc, host, now).entries == st.entries,
        merge_step(st, pc, host, now).value_changed == st.value_changed,
        merge_step(st, pc, host, now).needs_write == st.needs_write,
{
    if let Some(c) = pc {
        if !is_rejected(pc, host) {
            let es = st.entries;
            let bare = cookie_domain(c, host);
            let (rm, exp) = removal_and_expiry(c, now);
            lemma_first_match_in_range(es, c.name, bare);
            if rm {
            } else {
                let w = choose|w: int|
                    0 <= w < es.len() && entry_is(#[trigger] es[w], c.name, bare) && es[w].value
                        == c.value && es[w].expiry == exp;
                lemma_unique_match(es, c.name, bare, w);
            }
        }
    }
}

proof fn lemma_settled_run_noop(st: MergeState, pcs: Seq<Option<SetCookieView>>, host: Seq<char>, now: i64)
    requires
        keys_unique(st.entries),
        forall|i: int| 0 <= i < pcs.len() ==> settled(#[trigger] pcs[i], host, now, st.entries),
    ensures
        merge_steps(st, pcs, host, now).entries == st.entries,
        merge_steps(st, pcs, host, now).value_changed == st.value_changed,
        merge_steps(st, pcs, host, now).needs_write == st.needs_write,
    decreases pcs.len(),
{
    if pcs.len() > 0 {
        let pre = pcs.drop_last();
        assert forall|i: int| 0 <= i < pre.len() implies settled(#[trigger] pre[i], host, now, st.entries) by {
            assert(pre[i] == pcs[i]);
        }
        lemma_settled_run_noop(st, pre, host, now);
        let mid = merge_steps(st, pre, host, now);
        assert(settled(pcs[pcs.len() - 1], host, now, mid.entries));
        lemma_settled_step_noop(mid, pcs.last(), host, now);
    }
}

/// The refused deletions a merge reports depend on the lines alone.
proof fn lemma_blocked_run(st: MergeState, pcs: Seq<Option<SetCookieView>>, host: Seq<char>, now: i64)
    ensures
        merge_steps(st, pcs, host, now).blocked == st.blocked + blocks_of(pcs, host, now),
    decreases pcs.len(),
{
    if pcs.len() == 0 {
        assert(st.blocked + blocks_of(pcs, host, now) =~= st.blocked);
    } else {
        lemma_blocked_run(st, pcs.drop_last(), host, now);
        let rest = blocks_of(pcs.drop_last(), host, now);
        if let Some(c) = pcs.last() {
            let x = cookie_domain(c, host) + seq![' '] + c.name;
            assert((st.blocked + rest).push(x) =~= st.blocked + rest.push(x));
        }
    }
}

/// Rewriting the entries a read gives writes the same text.
proof fn lemma_render_reread(es: Seq<EntryView>)
    requires
        forall|i: int| 0 <= i < es.len() ==> sound_entry(#[trigger] es[i]),
    ensures
        render_entries(es.map_values(|e: EntryView| reread(e))) == render_entries(es),
    decreases es.len(),
{
    if es.len() > 0 {
        let rest = es.drop_last();
        assert forall|i: int| 0 <= i < rest.len() implies sound_entry(#[trigger] rest[i]) by {
            assert(rest[i] == es[i]);
        }
        lemma_render_reread(rest);
        let m = es.map_values(|e: EntryView| reread(e));
        assert(m.drop_last() =~= rest.map_values(|e: EntryView| reread(e)));
        assert(m.last() == reread(es.last()));
        lemma_good_written(es.last());
    }
}

proof fn lemma_good_written(e: EntryView)
    requires
        sound_entry(e),
    ensures
        render_entry(reread(e)) == render_entry(e),
{
    law_jar_read_gives_back_write(seq![e]);
    assert(seq![e][0] == e);
}

/// Merging the same lines again changes nothing: for a jar that holds
/// each cookie once and lines of which no two set the same cookie, a
/// second merge of the same lines into the first one's jar writes the
/// same jar, reports no change and nothing to write, and refuses the
/// same deletions.
pub proof fn law_merge_is_idempotent(
    jar: Seq<char>,
    pcs: Seq<Option<SetCookieView>>,
    host: Seq<char>,
    now: i64,
)
    requires
        keys_unique(parse_jar(jar)),
        forall|i: int, j: int|
            0 <= i < j < pcs.len() ==> !cookie_key_clash(#[trigger] pcs[i], #[trigger] pcs[j], host),
    ensures
        merge_parsed(merge_parsed(jar, pcs, host, now).jar, pcs, host, now).jar == merge_parsed(
            jar,
            pcs,
            host,
            now,
        ).jar,
        !merge_parsed(merge_parsed(jar, pcs, host, now).jar, pcs, host, now).value_changed,
        !merge_parsed(merge_parsed(jar, pcs, host, now).jar, pcs, host, now).needs_write,
        merge_parsed(merge_parsed(jar, pcs, host, now).jar, pcs, host, now).blocked_deletions
            == merge_parsed(jar, pcs, host, now).blocked_deletions,
{
    let st0 = initial_state(jar);
    let e1 = merged_entries(jar, pcs, host, now);
    let j1 = render_jar(e1);
    assert(merge_parsed(jar, pcs, host, now).jar == j1);
    lemma_merged_good(jar, pcs, host, now);
    lemma_run_settles(st0, pcs, host, now);
    law_jar_read_gives_back_write(e1);
    let e2 = e1.map_values(|e: EntryView| reread(e));
    assert(parse_jar(j1) == e2);
    // The entries read back are the same cookies with the same values.
    assert forall|i: int| 0 <= i < e1.len() implies #[trigger] e2[i].domain == e1[i].domain
        && e2[i].name == e1[i].name && e2[i].expiry == e1[i].expiry && (e2[i].value == e1[i].value
        || e1[i].value == e2[i].value.push('\r')) by {
        lemma_good_sound(e1[i]);
    }
    assert forall|i: int, j: int| 0 <= i < j < e2.len() implies !same_key(
        #[trigger] e2[i],
        #[trigger] e2[j],
    ) by {
        assert(same_key(e2[i], e2[j]) == same_key(e1[i], e1[j]));
    }
    assert forall|i: int| 0 <= i < pcs.len() implies settled(#[trigger] pcs[i], host, now, e2) by {
        assert(settled(pcs[i], host, now, e1));
        if let Some(c) = pcs[i] {
            if !is_rejected(pcs[i], host) {
                let bare = cookie_domain(c, host);
                let (rm, exp) = removal_and_expiry(c, now);
                if rm {
                    if !is_protected_name(c.name) {
                        assert forall|p: int| 0 <= p < e2.len() implies !entry_is(#[trigger] e2[p], c.name, bare) by {
                            assert(!entry_is(e1[p], c.name, bare));
                        }
                    }
                } else {
                    let w = choose|w: int|
                        0 <= w < e1.len() && entry_is(#[trigger] e1[w], c.name, bare) && e1[w].value
                            == c.value && e1[w].expiry == exp;
                    if e1[w].value == e2[w].value.push('\r') {
                        assert(c.value[c.value.len() - 1] == '\r');
                    }
                    assert(entry_is(e2[w], c.name, bare));
                }
            }
        }
    }
    let st2 = initial_state(j1);
    assert(st2.entries == e2);
    lemma_settled_run_noop(st2, pcs, host, now);
    lemma_render_reread(e1);
    lemma_blocked_run(st0, pcs, host, now);
    lemma_blocked_run(st2, pcs, host, now);
}


// ---------------------------------------------------------------------
// Entries no line sets
// ---------------------------------------------------------------------

/// The line `pc` is accepted and sets the cookie of entry `e`.
pub open spec fn line_sets(pc: Option<SetCookieView>, host: Seq<char>, e: EntryView) -> bool {
    match pc {
        Some(c) => !is_rejected(pc, host) && entry_is(e, c.name, cookie_domain(c, host)),
        None => false,
    }
}

proof fn lemma_step_keeps_entry(st: MergeState, pc: Option<SetCookieView>, host: Seq<char>, now: i64, e: EntryView)
    requires
        exists|w: int| 0 <= w < st.entries.len() && #[trigger] st.entries[w] == e,
        !line_sets(pc, host, e),
    ensures
        exists|w: int|
            0 <= w < merge_step(st, pc, host, now).entries.len() && #[trigger] merge_step(
                st,
                pc,
                host,
                now,
            ).entries[w] == e,
{
    let es = st.entries;
    let es2 = merge_step(st, pc, host, now).entries;
    let w = choose|w: int| 0 <= w < es.len() && #[trigger] es[w] == e;
    if let Some(c) = pc {
        let bare = cookie_domain(c, host);
        let (rm, exp) = removal_and_expiry(c, now);
        lemma_first_match_in_range(es, c.name, bare);
        if is_rejected(pc, host) || (rm && is_protected_name(c.name)) {
            assert(es2[w] == e);
        } else if let Some(p) = first_match(es, c.name, bare) {
            assert(p != w);
            if rm {
                assert(es2 == es.remove(p));
                if w < p {
                    assert(es2[w] == e);
                } else {
                    assert(es2[w - 1] == e);
                }
            } else {
                assert(es2[w] == e);
            }
        } else {
            assert(es2[w] == e);
        }
    } else {
        assert(es2[w] == e);
    }
}

proof fn lemma_run_keeps_entry(st: MergeState, pcs: Seq<Option<SetCookieView>>, host: Seq<char>, now: i64, e: EntryView)
    requires
        exists|w: int| 0 <= w < st.entries.len() && #[trigger] st.entries[w] == e,
        forall|k: int| 0 <= k < pcs.len() ==> !line_sets(#[trigger] pcs[k], host, e),
    ensures
        exists|w: int|
            0 <= w < merge_steps(st, pcs, host, now).entries.len() && #[trigger] merge_steps(
                st,
                pcs,
                host,
                now,
            ).entries[w] == e,
    decreases pcs.len(),
{
    if pcs.len() > 0 {
        let pre = pcs.drop_last();
        assert forall|k: int| 0 <= k < pre.len() implies !line_sets(#[trigger] pre[k], host, e) by {
            assert(pre[k] == pcs[k]);
        }
        lemma_run_keeps_entry(st, pre, host, now, e);
        assert(!line_sets(pcs[pcs.len() - 1], host, e));
        let mid = merge_steps(st, pre, host, now);
        lemma_step_keeps_entry(mid, pcs.last(), host, now, e);
        assert(merge_steps(st, pcs, host, now) == merge_step(mid, pcs.last(), host, now));
    } else {
        assert(merge_steps(st, pcs, host, now) == st);
        let w = choose|w: int| 0 <= w < st.entries.len() && #[trigger] st.entries[w] == e;
        assert(merge_steps(st, pcs, host, now).entries[w] == e);
    }
}

/// The jar text holds the line of every entry it is written from.
proof fn lemma_render_contains(es: Seq<EntryView>, j: int)
    requires
        0 <= j < es.len(),
    ensures
        contains_run(render_jar(es), render_entry(es[j])),
    decreases es.len(),
{
    let x = render_entry(es[j]);
    let rest = es.drop_last();
    assert(render_jar(es) =~= render_jar(rest) + render_entry(es.last()));
    if j == es.len() - 1 {
        let k = render_jar(rest).len() as int;
        assert(render_jar(es).subrange(k, k + x.len()) =~= x);
    } else {
        assert(rest[j] == es[j]);
        lemma_render_contains(rest, j);
        let k = choose|k: int|
            0 <= k && k + x.len() <= render_jar(rest).len() && #[trigger] render_jar(rest).subrange(
                k,
                k + x.len(),
            ) == x;
        assert(render_jar(es).subrange(k, k + x.len()) =~= render_jar(rest).subrange(k, k + x.len()));
    }
}

/// An entry that no line of a response sets comes through the merge
/// unchanged, and the merged jar holds the very line it was read from,
/// byte for byte, line break included.
pub proof fn law_merge_keeps_untouched_lines(
    jar: Seq<char>,
    pcs: Seq<Option<SetCookieView>>,
    host: Seq<char>,
    now: i64,
    i: int,
)
    requires
        0 <= i < parse_jar(jar).len(),
        forall|k: int| 0 <= k < pcs.len() ==> !line_sets(#[trigger] pcs[k], host, parse_jar(jar)[i]),
    ensures
        exists|w: int|
            0 <= w < merged_entries(jar, pcs, host, now).len() && #[trigger] merged_entries(
                jar,
                pcs,
                host,
                now,
            )[w] == parse_jar(jar)[i],
        parse_jar(jar)[i].raw is Some,
        contains_run(
            merge_parsed(jar, pcs, host, now).jar,
            parse_jar(jar)[i].raw->Some_0 + seq!['\n'],
        ),
{
    let e = parse_jar(jar)[i];
    lemma_parse_entries_ok(jar);
    assert(read_entry_ok(e));
    assert(initial_state(jar).entries[i] == e);
    lemma_run_keeps_entry(initial_state(jar), pcs, host, now, e);
    let es = merged_entries(jar, pcs, host, now);
    let w = choose|w: int| 0 <= w < es.len() && #[trigger] es[w] == e;
    lemma_render_contains(es, w);
    assert(render_entry(e) == e.raw->Some_0 + seq!['\n']);
}


proof fn lemma_step_keeps_pair(
    st: MergeState,
    pc: Option<SetCookieView>,
    host: Seq<char>,
    now: i64,
    e1: EntryView,
    e2: EntryView,
)
    requires
        exists|w1: int, w2: int|
            0 <= w1 < w2 < st.entries.len() && #[trigger] st.entries[w1] == e1 && #[trigger] st.entries[w2]
                == e2,
        !line_sets(pc, host, e1),
        !line_sets(pc, host, e2),
    ensures
        exists|w1: int, w2: int|
            0 <= w1 < w2 < merge_step(st, pc, host, now).entries.len() && #[trigger] merge_step(
                st,
                pc,
                host,
                now,
            ).entries[w1] == e1 && #[trigger] merge_step(st, pc, host, now).entries[w2] == e2,
{
    let es = st.entries;
    let es2 = merge_step(st, pc, host, now).entries;
    let (w1, w2) = choose|w1: int, w2: int|
        0 <= w1 < w2 < es.len() && #[trigger] es[w1] == e1 && #[trigger] es[w2] == e2;
    if let Some(c) = pc {
        let bare = cookie_domain(c, host);
        let (rm, exp) = removal_and_expiry(c, now);
        lemma_first_match_in_range(es, c.name, bare);
        if is_rejected(pc, host) || (rm && is_protected_name(c.name)) {
            assert(es2[w1] == e1 && es2[w2] == e2);
        } else if let Some(p) = first_match(es, c.name, bare) {
            assert(p != w1 && p != w2);
            if rm {
                assert(es2 == es.remove(p));
                let v1 = if w1 < p { w1 } else { w1 - 1 };
                let v2 = if w2 < p { w2 } else { w2 - 1 };
                assert(es2[v1] == e1 && es2[v2] == e2);
            } else {
                assert(es2[w1] == e1 && es2[w2] == e2);
            }
        } else {
            assert(es2[w1] == e1 && es2[w2] == e2);
        }
    } else {
        assert(es2[w1] == e1 && es2[w2] == e2);
    }
}

proof fn lemma_run_keeps_pair(
    st: MergeState,
    pcs: Seq<Option<SetCookieView>>,
    host: Seq<char>,
    now: i64,
    e1: EntryView,
    e2: EntryView,
)
    requires
        exists|w1: int, w2: int|
            0 <= w1 < w2 < st.entries.len() && #[trigger] st.entries[w1] == e1 && #[trigger] st.entries[w2]
                == e2,
        forall|k: int| 0 <= k < pcs.len() ==> !line_sets(#[trigger] pcs[k], host, e1),
        forall|k: int| 0 <= k < pcs.len() ==> !line_sets(#[trigger] pcs[k], host, e2),
    ensures
        exists|w1: int, w2: int|
            0 <= w1 < w2 < merge_steps(st, pcs, host, now).entries.len() && #[trigger] merge_steps(
                st,
                pcs,
                host,
                now,
            ).entries[w1] == e1 && #[trigger] merge_steps(st, pcs, host, now).entries[w2] == e2,
    decreases pcs.len(),
{
    if pcs.len() > 0 {
        let pre = pcs.drop_last();
        assert forall|k: int| 0 <= k < pre.len() implies !line_sets(#[trigger] pre[k], host, e1)
            && !line_sets(pre[k], host, e2) by {
            assert(pre[k] == pcs[k]);
        }
        lemma_run_keeps_pair(st, pre, host, now, e1, e2);
        assert(!line_sets(pcs[pcs.len() - 1], host, e1));
        assert(!line_sets(pcs[pcs.len() - 1], host, e2));
        let mid = merge_steps(st, pre, host, now);
        lemma_step_keeps_pair(mid, pcs.last(), host, now, e1, e2);
        assert(merge_steps(st, pcs, host, now) == merge_step(mid, pcs.last(), host, now));
    } else {
        assert(merge_steps(st, pcs, host, now) == st);
    }
}

/// Entries that no line of a response sets keep their order through the
/// merge.
pub proof fn law_merge_keeps_untouched_order(
    jar: Seq<char>,
    pcs: Seq<Option<SetCookieView>>,
    host: Seq<char>,
    now: i64,
    i1: int,
    i2: int,
)
    requires
        0 <= i1 < i2 < parse_jar(jar).len(),
        forall|k: int| 0 <= k < pcs.len() ==> !line_sets(#[trigger] pcs[k], host, parse_jar(jar)[i1]),
        forall|k: int| 0 <= k < pcs.len() ==> !line_sets(#[trigger] pcs[k], host, parse_jar(jar)[i2]),
    ensures
        exists|w1: int, w2: int|
            0 <= w1 < w2 < merged_entries(jar, pcs, host, now).len() && #[trigger] merged_entries(
                jar,
                pcs,
                host,
                now,
            )[w1] == parse_jar(jar)[i1] && #[trigger] merged_entries(jar, pcs, host, now)[w2]
                == parse_jar(jar)[i2],
{
    let es = parse_jar(jar);
    assert(initial_state(jar).entries[i1] == es[i1] && initial_state(jar).entries[i2] == es[i2]);
    lemma_run_keeps_pair(initial_state(jar), pcs, host, now, es[i1], es[i2]);
    let fin = merge_steps(initial_state(jar), pcs, host, now).entries;
    let (w1, w2) = choose|w1: int, w2: int|
        0 <= w1 < w2 < fin.len() && #[trigger] fin[w1] == es[i1] && #[trigger] fin[w2] == es[i2];
    assert(merged_entries(jar, pcs, host, now)[w1] == es[i1]);
    assert(merged_entries(jar, pcs, host, now)[w2] == es[i2]);
}

// ---------------------------------------------------------------------
// Deletions
// ---------------------------------------------------------------------

/// A server deletes a cookie the way a browser reads it: an accepted
/// `Set-Cookie` for a cookie other than the identity ones whose
/// `Max-Age` is zero or less, or, with no `Max-Age`, whose `Expires` date
/// is at or before now, leaves no entry of that cookie in a jar that held
/// each cookie once; and if the jar held it, the merge reports a changed
/// value.
pub proof fn law_expired_cookie_is_deleted(jar: Seq<char>, c: SetCookieView, host: Seq<char>, now: i64)
    requires
        !is_rejected(Some(c), host),
        !is_protected_name(c.name),
        match c.max_age {
            Some(secs) => secs <= 0,
            None => match c.expires {
                Some(ts) => ts <= now,
                None => false,
            },
        },
        keys_unique(parse_jar(jar)),
    ensures
        forall|j: int|
            0 <= j < merged_entries(jar, seq![Some(c)], host, now).len() ==> !entry_is(
                #[trigger] merged_entries(jar, seq![Some(c)], host, now)[j],
                c.name,
                cookie_domain(c, host),
            ),
        (exists|p: int|
            0 <= p < parse_jar(jar).len() && entry_is(
                #[trigger] parse_jar(jar)[p],
                c.name,
                cookie_domain(c, host),
            )) ==> merge_parsed(jar, seq![Some(c)], host, now).value_changed,
{
    let pcs = seq![Some(c)];
    let st0 = initial_state(jar);
    assert(pcs.drop_last() =~= Seq::<Option<SetCookieView>>::empty());
    assert(merge_steps(st0, pcs.drop_last(), host, now) == st0);
    let st = merge_steps(st0, pcs, host, now);
    assert(st == merge_step(st0, Some(c), host, now));
    assert(removal_and_expiry(c, now).0);
    lemma_step_settles(st0, c, host, now);
    let bare = cookie_domain(c, host);
    lemma_first_match_none(st0.entries, c.name, bare);
    if exists|p: int| 0 <= p < parse_jar(jar).len() && entry_is(#[trigger] parse_jar(jar)[p], c.name, bare) {
        let p = choose|p: int| 0 <= p < parse_jar(jar).len() && entry_is(#[trigger] parse_jar(jar)[p], c.name, bare);
        assert(first_match(st0.entries, c.name, bare) is Some);
    }
}

} // verus!
