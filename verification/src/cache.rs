//! The track and cover caches and the local stream server: which names
//! are accepted as video ids and cover files, how cover URLs are vetted
//! and named on disk, the per-launch URL token, and the small decisions
//! of the download pipeline.

use vstd::prelude::*;
use crate::text::{
    chars_eq, chars_of, contains_chars, contains_run, ends_with, find_char, first_index,
    has_suffix, hex16, hex_fixed, is_blank, is_lower_hex, is_whitespace, is_ws,
    lemma_hex_fixed_shape, lemma_nat_digits, nat_digits, opt_chars, push_chars, slice_chars, split, split_chars,
    string_from, strip_suffix, strip_suffix_chars, trim, trim_chars, u128_digits,
};
use std::collections::hash_map::DefaultHasher;
use std::collections::hash_map::RandomState;
use std::hash::BuildHasher;
use std::hash::Hash;
use std::hash::Hasher;
use vstd::std_specs::hash::DefaultHasherAdditionalSpecFns;

verus! {

// ---------------------------------------------------------------------
// Video ids
// ---------------------------------------------------------------------

pub open spec fn is_id_char(c: char) -> bool {
    ('0' <= c && c <= '9') || ('A' <= c && c <= 'Z') || ('a' <= c && c <= 'z') || c == '_' || c
        == '-'
}

/// A YouTube video id as the cache and the stream server accept it: not
/// empty, under 32 bytes, only ASCII letters, digits, `_` and `-` (all
/// one byte each, so the limit is also one on characters).
pub open spec fn is_valid_video_id(id: Seq<char>) -> bool {
    0 < id.len() < 32 && forall|i: int| 0 <= i < id.len() ==> is_id_char(#[trigger] id[i])
}

fn all_id_chars(s: &[char]) -> (r: bool)
    ensures
        r == forall|i: int| 0 <= i < s@.len() ==> is_id_char(#[trigger] s@[i]),
{
    let mut i: usize = 0;
    while i < s.len()
        invariant
            i <= s@.len(),
            forall|j: int| 0 <= j < i ==> is_id_char(#[trigger] s@[j]),
        decreases s@.len() - i,
    {
        let c = s[i];
        if !(('0' <= c && c <= '9') || ('A' <= c && c <= 'Z') || ('a' <= c && c <= 'z') || c
            == '_' || c == '-') {
            return false;
        }
        i = i + 1;
    }
    true
}

pub fn sanitize_video_id(id: &str) -> (r: bool)
    ensures
        r == is_valid_video_id(id@),
{
    let c = chars_of(id);
    c.len() > 0 && c.len() < 32 && all_id_chars(&c)
}

/// The video id of a finished track file `<id>.webm`.
pub open spec fn track_file_id(name: Seq<char>) -> Option<Seq<char>> {
    match strip_suffix(name, ".webm"@) {
        Some(id) => if is_valid_video_id(id) {
            Some(id)
        } else {
            None
        },
        None => None,
    }
}

pub fn cached_track_id(file_name: &str) -> (r: Option<String>)
    ensures
        match r {
            Some(id) => track_file_id(file_name@) == Some(id@),
            None => track_file_id(file_name@).is_none(),
        },
{
    let n = chars_of(file_name);
    match strip_suffix_chars(&n, &chars_of(".webm")) {
        Some(id) => {
            let s = string_from(&id);
            if sanitize_video_id(s.as_str()) {
                Some(s)
            } else {
                None
            }
        },
        None => None,
    }
}

/// The requested ids that are valid video ids, in order.
pub open spec fn valid_ids(ids: Seq<String>) -> Seq<Seq<char>>
    decreases ids.len(),
{
    if ids.len() == 0 {
        Seq::empty()
    } else {
        let rest = valid_ids(ids.drop_last());
        if is_valid_video_id(ids.last()@) {
            rest.push(ids.last()@)
        } else {
            rest
        }
    }
}

/// The ids of a delete request that are safe to turn into file names.
pub fn select_video_ids(ids: Vec<String>) -> (r: Vec<String>)
    ensures
        r@.map_values(|s: String| s@) == valid_ids(ids@),
{
    let mut r: Vec<String> = Vec::new();
    let mut i: usize = 0;
    while i < ids.len()
        invariant
            i <= ids@.len(),
            r@.map_values(|s: String| s@) == valid_ids(ids@.take(i as int)),
        decreases ids@.len() - i,
    {
        assert(ids@.take(i + 1).drop_last() =~= ids@.take(i as int));
        if sanitize_video_id(ids[i].as_str()) {
            r.push(ids[i].clone());
            assert(r@.map_values(|s: String| s@) =~= valid_ids(ids@.take(i as int)).push(
                ids@[i as int]@,
            ));
        }
        i = i + 1;
    }
    assert(ids@.take(ids@.len() as int) =~= ids@);
    r
}

/// `https://www.youtube.com/watch?v=<id>`.
pub fn watch_url(video_id: &str) -> (r: String)
    ensures
        r@ == "https://www.youtube.com/watch?v="@ + video_id@,
{
    let mut u = String::from_str("https://www.youtube.com/watch?v=");
    u.append(video_id);
    u
}

/// Key of an in-flight download: the ephemeral and persistent pools are
/// tracked apart (`e:` / `p:`), so one id can download into both.
pub fn download_key(video_id: &str, ephemeral: bool) -> (r: String)
    ensures
        r@ == (if ephemeral {
            "e:"@
        } else {
            "p:"@
        }) + video_id@,
{
    let mut k = if ephemeral {
        String::from_str("e:")
    } else {
        String::from_str("p:")
    };
    k.append(video_id);
    k
}

/// Smallest payload kept as a cached track: a smaller file is a
/// storyboard-only response and would pin a broken cache entry.
pub const MIN_AUDIO_BYTES: u64 = 32768;

/// A finished download becomes a cached `.webm` only when yt-dlp succeeded
/// and wrote at least `MIN_AUDIO_BYTES`.
pub fn keep_download(success: bool, part_size: u64) -> (r: bool)
    ensures
        r == (success && part_size >= MIN_AUDIO_BYTES),
{
    success && part_size >= MIN_AUDIO_BYTES
}

/// The display metadata that `set_cache_meta` stores beside a track.
pub struct TrackMeta {
    pub title: Option<String>,
    pub artist: Option<String>,
}

pub open spec fn nonblank(o: Option<String>) -> Option<Seq<char>> {
    match o {
        Some(s) => if trim(s@).len() > 0 {
            Some(s@)
        } else {
            None
        },
        None => None,
    }
}

fn keep_nonblank(o: Option<String>) -> (r: Option<String>)
    ensures
        opt_chars(r) == nonblank(o),
{
    match o {
        Some(s) => if is_blank(&chars_of(s.as_str())) {
            None
        } else {
            Some(s)
        },
        None => None,
    }
}

/// What `set_cache_meta` writes for a track: an error for an invalid id,
/// nothing when the title is missing or blank, otherwise the title and
/// the artist (dropped when blank).
pub fn cache_meta(video_id: &str, title: Option<String>, artist: Option<String>) -> (r: Result<
    Option<TrackMeta>,
    String,
>)
    ensures
        !is_valid_video_id(video_id@) ==> r is Err && r->Err_0@ == "invalid videoId: "@
            + video_id@,
        is_valid_video_id(video_id@) && nonblank(title) is None ==> r is Ok && r->Ok_0 is None,
        is_valid_video_id(video_id@) && nonblank(title) is Some ==> r is Ok && r->Ok_0 is Some
            && opt_chars(r->Ok_0->Some_0.title) == nonblank(title) && opt_chars(
            r->Ok_0->Some_0.artist,
        ) == nonblank(artist),
{
    if !sanitize_video_id(video_id) {
        let mut msg = String::from_str("invalid videoId: ");
        msg.append(video_id);
        return Err(msg);
    }
    let title = keep_nonblank(title);
    if title.is_none() {
        return Ok(None);
    }
    Ok(Some(TrackMeta { title, artist: keep_nonblank(artist) }))
}

/// The user-chosen cache root stored in the settings: trimmed, and none
/// when blank.
pub fn cache_root_setting(value: Option<&str>) -> (r: Option<String>)
    ensures
        opt_chars(r) == match value {
            Some(v) => if trim(v@).len() > 0 {
                Some(trim(v@))
            } else {
                None
            },
            None => None,
        },
{
    match value {
        Some(v) => {
            let t = trim_chars(&chars_of(v));
            if t.len() == 0 {
                None
            } else {
                Some(string_from(&t))
            }
        },
        None => None,
    }
}

// ---------------------------------------------------------------------
// The stream server
// ---------------------------------------------------------------------

/// The key of a `key=value` query piece (all of it when there is no `=`).
pub open spec fn query_key(kv: Seq<char>) -> Seq<char> {
    match first_index(kv, '=') {
        Some(i) => kv.take(i),
        None => kv,
    }
}

/// The value of a `key=value` query piece (empty when there is no `=`).
pub open spec fn query_value(kv: Seq<char>) -> Seq<char> {
    match first_index(kv, '=') {
        Some(i) => kv.skip(i + 1),
        None => Seq::empty(),
    }
}

pub open spec fn is_ephemeral_piece(kv: Seq<char>) -> bool {
    query_key(kv) == "ephemeral"@ && (query_value(kv) == "1"@ || query_value(kv) == "true"@)
}

/// A stream or prefetch request asks for the session-only pool when its
/// query has `ephemeral=1` or `ephemeral=true` among its `&`-pieces.
pub open spec fn query_is_ephemeral_spec(query: Option<Seq<char>>) -> bool {
    match query {
        None => false,
        Some(q) => has_ephemeral_piece(q),
    }
}

/// Some `&`-piece of the query string is an `ephemeral` flag.
pub open spec fn has_ephemeral_piece(q: Seq<char>) -> bool {
    exists|i: int| 0 <= i < split(q, '&').len() && #[trigger] is_ephemeral_piece(split(q, '&')[i])
}

fn piece_is_ephemeral(kv: &[char]) -> (r: bool)
    ensures
        r == is_ephemeral_piece(kv@),
{
    let n = kv.len();
    let (key, val) = match find_char(kv, '=') {
        Some(i) => (slice_chars(kv, 0, i), slice_chars(kv, i + 1, n)),
        None => (slice_chars(kv, 0, kv.len()), Vec::new()),
    };
    assert(kv@.subrange(0, kv@.len() as int) =~= kv@);
    assert(val@ =~= query_value(kv@));
    chars_eq(&key, &chars_of("ephemeral")) && (chars_eq(&val, &chars_of("1")) || chars_eq(
        &val,
        &chars_of("true"),
    ))
}

/// Reads the `ephemeral` flag of a request's query string.
pub fn query_is_ephemeral(query: Option<&str>) -> (r: bool)
    ensures
        r == query_is_ephemeral_spec(match query {
            Some(q) => Some(q@),
            None => None,
        }),
{
    let q = match query {
        None => {
            return false;
        },
        Some(q) => chars_of(q),
    };
    let parts = split_chars(&q, '&');
    let ghost ps = split(q@, '&');
    let mut i: usize = 0;
    while i < parts.len()
        invariant
            query matches Some(qs) && qs@ == q@,
            ps == split(q@, '&'),
            parts@.len() == ps.len(),
            forall|k: int| 0 <= k < parts@.len() ==> (#[trigger] parts@[k])@ == ps[k],
            i <= parts@.len(),
            forall|k: int| 0 <= k < i ==> !#[trigger] is_ephemeral_piece(ps[k]),
        decreases parts@.len() - i,
    {
        if piece_is_ephemeral(&parts[i]) {
            assert(is_ephemeral_piece(split(q@, '&')[i as int]));
            assert(has_ephemeral_piece(q@));
            return true;
        }
        i = i + 1;
    }
    false
}

pub open spec fn is_cover_name_char(c: char) -> bool {
    ('0' <= c && c <= '9') || ('A' <= c && c <= 'Z') || ('a' <= c && c <= 'z') || c == '.'
}

/// A cover file name the server will serve: 1 to 64 bytes of ASCII
/// letters, digits and dots (one byte each), with no `..`.
pub open spec fn is_valid_cover_name(f: Seq<char>) -> bool {
    0 < f.len() <= 64 && (forall|i: int|
        0 <= i < f.len() ==> is_cover_name_char(#[trigger] f[i])) && !contains_run(f, ".."@)
}

pub fn is_valid_cover_filename(filename: &str) -> (r: bool)
    ensures
        r == is_valid_cover_name(filename@),
{
    let f = chars_of(filename);
    if f.len() == 0 || f.len() > 64 {
        return false;
    }
    let mut i: usize = 0;
    while i < f.len()
        invariant
            f@ == filename@,
            0 < f@.len() <= 64,
            i <= f@.len(),
            forall|j: int| 0 <= j < i ==> is_cover_name_char(#[trigger] f@[j]),
        decreases f@.len() - i,
    {
        let c = f[i];
        if !(('0' <= c && c <= '9') || ('A' <= c && c <= 'Z') || ('a' <= c && c <= 'z') || c
            == '.') {
            assert(!is_cover_name_char(f@[i as int]));
            return false;
        }
        i = i + 1;
    }
    !contains_chars(&f, &chars_of(".."))
}

/// The `audio/*` type of a cached track from its first 16 bytes: every
/// track is stored as `.webm` whatever yt-dlp produced.
pub fn sniff_audio_mime(head: &[u8]) -> (r: &'static str)
    requires
        head@.len() >= 16,
    ensures
        r@ == if head@[4] == 0x66 && head@[5] == 0x74 && head@[6] == 0x79 && head@[7] == 0x70 {
            "audio/mp4"@
        } else if head@[0] == 0x1A && head@[1] == 0x45 && head@[2] == 0xDF && head@[3] == 0xA3 {
            "audio/webm"@
        } else if head@[0] == 0x49 && head@[1] == 0x44 && head@[2] == 0x33 {
            "audio/mpeg"@
        } else {
            "audio/webm"@
        },
{
    if head[4] == 0x66 && head[5] == 0x74 && head[6] == 0x79 && head[7] == 0x70 {
        "audio/mp4"
    } else if head[0] == 0x1A && head[1] == 0x45 && head[2] == 0xDF && head[3] == 0xA3 {
        "audio/webm"
    } else if head[0] == 0x49 && head[1] == 0x44 && head[2] == 0x33 {
        "audio/mpeg"
    } else {
        "audio/webm"
    }
}

/// Calls `RandomState::new`, whose hash keys std seeds at random. Nothing
/// is claimed of the result.
#[verifier::external_body]
fn new_random_state() -> (r: RandomState) {
    RandomState::new()
}

/// Calls `BuildHasher::build_hasher` on a `RandomState`: a `DefaultHasher`
/// keyed by it. Nothing is claimed of the result.
#[verifier::external_body]
fn hasher_of(s: &RandomState) -> (r: DefaultHasher) {
    s.build_hasher()
}

/// Calls `Hasher::write_u64`, which feeds `x` to the hasher. The state it
/// leaves is not modelled here: nothing is claimed of it.
#[verifier::external_body]
fn feed_u64(h: &mut DefaultHasher, x: u64) {
    h.write_u64(x)
}

/// One 64-bit word from a freshly seeded `RandomState`'s hasher. The
/// word is random: nothing is claimed of it.
fn random_word() -> u64 {
    let s = new_random_state();
    let mut h = hasher_of(&s);
    feed_u64(&mut h, 0x9E37_79B9_7F4A_7C15);
    h.finish()
}

/// The per-launch token prefixed to every stream, prefetch and cover URL:
/// 128 random bits as 32 lowercase hex digits.
pub fn generate_stream_token() -> (r: String)
    ensures
        r@.len() == 32,
        forall|i: int| 0 <= i < 32 ==> is_lower_hex(#[trigger] r@[i]),
        exists|a: u64, b: u64| r@ == hex_fixed(a as nat, 16) + hex_fixed(b as nat, 16),
{
    let a = random_word();
    let b = random_word();
    let ha = hex16(a);
    let hb = hex16(b);
    let mut out = String::new();
    push_chars(&mut out, &ha);
    push_chars(&mut out, &hb);
    assert(out@ =~= hex_fixed(a as nat, 16) + hex_fixed(b as nat, 16));
    assert forall|i: int| 0 <= i < 32 implies is_lower_hex(#[trigger] out@[i]) by {
        if i < 16 {
            assert(out@[i] == ha@[i]);
        } else {
            assert(out@[i] == hb@[i - 16]);
        }
    }
    out
}

// ---------------------------------------------------------------------
// Covers
// ---------------------------------------------------------------------

/// The state a `DefaultHasher` in state `state` (the writes it has been
/// fed) is left in once `<str as Hash>::hash` has fed it `s`.
pub uninterp spec fn str_hash_state(state: Seq<Seq<u8>>, s: Seq<char>) -> Seq<Seq<u8>>;

/// Calls `<str as Hash>::hash` on a `DefaultHasher`. The state it leaves
/// depends on the state before and on `s` alone, and is only named.
#[verifier::external_body]
fn feed_str(h: &mut DefaultHasher, s: &str)
    ensures
        final(h)@ == str_hash_state(old(h)@, s@),
{
    s.hash(h)
}

/// What a new `DefaultHasher` (the standard library's SipHash-1-3 with
/// fixed keys) makes of a string.
pub open spec fn default_hash(s: Seq<char>) -> u64 {
    DefaultHasher::spec_finish(str_hash_state(Seq::empty(), s))
}

/// Hashes `s` with a new `DefaultHasher`.
fn hash_str(s: &str) -> (r: u64)
    ensures
        r == default_hash(s@),
{
    let mut hasher = DefaultHasher::new();
    feed_str(&mut hasher, s);
    hasher.finish()
}

/// The image type a cover URL is stored as: `png` or `webp` when the URL
/// mentions it, `jpg` otherwise.
pub open spec fn cover_ext(url: Seq<char>) -> Seq<char> {
    if contains_run(url, ".png"@) {
        "png"@
    } else if contains_run(url, ".webp"@) {
        "webp"@
    } else {
        "jpg"@
    }
}

pub fn cover_extension(url: &str) -> (r: &'static str)
    ensures
        r@ == cover_ext(url@),
{
    let u = chars_of(url);
    if contains_chars(&u, &chars_of(".png")) {
        "png"
    } else if contains_chars(&u, &chars_of(".webp")) {
        "webp"
    } else {
        "jpg"
    }
}

/// The cache file name of a cover URL: its hash as 16 hex digits and its
/// image type.
pub fn url_to_filename(url: &str) -> (r: String)
    ensures
        r@ == hex_fixed(default_hash(url@) as nat, 16) + "."@ + cover_ext(url@),
{
    let h = hash_str(url);
    let hx = hex16(h);
    let mut out = string_from(&hx);
    out.append(".");
    out.append(cover_extension(url));
    out
}

/// CDNs whose cover URLs may be fetched.
pub open spec fn is_cover_host(host: Seq<char>) -> bool {
    ||| host == "mzstatic.com"@ || has_suffix(host, ".mzstatic.com"@)
    ||| host == "ytimg.com"@ || has_suffix(host, ".ytimg.com"@)
    ||| host == "ggpht.com"@ || has_suffix(host, ".ggpht.com"@)
    ||| host == "googleusercontent.com"@ || has_suffix(host, ".googleusercontent.com"@)
}

/// What `reqwest::Url::parse` makes of a string: the scheme and host of
/// the URL, or the text of the parse error.
pub uninterp spec fn parsed_url(url: Seq<char>) -> Result<(Seq<char>, Option<Seq<char>>), Seq<char>>;

pub open spec fn url_parts_view(r: Result<(String, Option<String>), String>) -> Result<
    (Seq<char>, Option<Seq<char>>),
    Seq<char>,
> {
    match r {
        Ok((s, h)) => Ok((s@, opt_chars(h))),
        Err(e) => Err(e@),
    }
}

/// Calls `reqwest::Url::parse` (the `url` crate's WHATWG parser) and reads
/// the parsed URL's scheme and host, or the error's text. The contract
/// names the result; URL parsing is not restated.
#[verifier::external_body]
fn parse_url(url: &str) -> (r: Result<(String, Option<String>), String>)
    ensures
        url_parts_view(r) == parsed_url(url@),
{
    match reqwest::Url::parse(url) {
        Ok(u) => Ok((u.scheme().to_string(), u.host_str().map(|h| h.to_string()))),
        Err(e) => Err(e.to_string()),
    }
}

/// The SSRF verdict on a parsed cover URL: only https from the known
/// CDNs passes.
pub open spec fn cover_url_verdict(parsed: Result<(Seq<char>, Option<Seq<char>>), Seq<char>>) -> Result<
    (),
    Seq<char>,
> {
    match parsed {
        Err(e) => Err("bad url: "@ + e),
        Ok((scheme, host)) => if scheme != "https"@ {
            Err("blocked scheme: "@ + scheme)
        } else {
            let h = match host {
                Some(h) => h,
                None => Seq::empty(),
            };
            if is_cover_host(h) {
                Ok(())
            } else {
                Err("blocked cover host: "@ + h)
            }
        },
    }
}

pub open spec fn unit_result_view(r: Result<(), String>) -> Result<(), Seq<char>> {
    match r {
        Ok(()) => Ok(()),
        Err(e) => Err(e@),
    }
}

fn is_cover_host_exec(h: &[char]) -> (r: bool)
    ensures
        r == is_cover_host(h@),
{
    chars_eq(h, &chars_of("mzstatic.com")) || ends_with(h, &chars_of(".mzstatic.com")) || chars_eq(
        h,
        &chars_of("ytimg.com"),
    ) || ends_with(h, &chars_of(".ytimg.com")) || chars_eq(h, &chars_of("ggpht.com")) || ends_with(
        h,
        &chars_of(".ggpht.com"),
    ) || chars_eq(h, &chars_of("googleusercontent.com")) || ends_with(
        h,
        &chars_of(".googleusercontent.com"),
    )
}

/// The verdict on an already parsed cover URL.
pub fn check_cover_parts(parsed: Result<(String, Option<String>), String>) -> (r: Result<(), String>)
    ensures
        unit_result_view(r) == cover_url_verdict(url_parts_view(parsed)),
{
    match parsed {
        Err(e) => {
            let mut msg = String::from_str("bad url: ");
            msg.append(e.as_str());
            Err(msg)
        },
        Ok((scheme, host)) => {
            if !(scheme == String::from_str("https")) {
                let mut msg = String::from_str("blocked scheme: ");
                msg.append(scheme.as_str());
                return Err(msg);
            }
            let h = match host {
                Some(h) => h,
                None => String::new(),
            };
            if is_cover_host_exec(&chars_of(h.as_str())) {
                Ok(())
            } else {
                let mut msg = String::from_str("blocked cover host: ");
                msg.append(h.as_str());
                Err(msg)
            }
        },
    }
}

/// SSRF guard for cover fetches: the URL must parse, be https and point
/// at one of the known image CDNs.
pub fn check_cover_url(url: &str) -> (r: Result<(), String>)
    ensures
        unit_result_view(r) == cover_url_verdict(parsed_url(url@)),
{
    check_cover_parts(parse_url(url))
}

// ---------------------------------------------------------------------
// Saving a cover to Downloads
// ---------------------------------------------------------------------

/// Characters no file name may hold on Windows, macOS or Linux.
pub open spec fn is_forbidden_name_char(c: char) -> bool {
    c == '<' || c == '>' || c == ':' || c == '"' || c == '/' || c == '\\' || c == '|' || c == '?'
        || c == '*' || (c as u32) < 0x20
}

pub open spec fn clean_name_char(c: char) -> char {
    if is_forbidden_name_char(c) {
        '_'
    } else {
        c
    }
}

/// A character a file stem may not start or end with: whitespace, or a
/// dot (a leading one hides the file; Windows drops trailing ones).
pub open spec fn is_edge_char(c: char) -> bool {
    is_ws(c) || c == '.'
}

/// Number of leading edge characters of `s`.
pub open spec fn leading_edge(s: Seq<char>) -> nat
    decreases s.len(),
{
    if s.len() > 0 && is_edge_char(s[0]) {
        1 + leading_edge(s.drop_first())
    } else {
        0
    }
}

/// Number of trailing edge characters of `s`.
pub open spec fn trailing_edge(s: Seq<char>) -> nat
    decreases s.len(),
{
    if s.len() > 0 && is_edge_char(s.last()) {
        1 + trailing_edge(s.drop_last())
    } else {
        0
    }
}

/// `s` without the whitespace and dots at either end.
pub open spec fn strip_edges(s: Seq<char>) -> Seq<char> {
    let t = s.skip(leading_edge(s) as int);
    t.take(t.len() - trailing_edge(t))
}

proof fn lemma_leading_edge_bound(s: Seq<char>)
    ensures
        leading_edge(s) <= s.len(),
        leading_edge(s) < s.len() ==> !is_edge_char(s[leading_edge(s) as int]),
    decreases s.len(),
{
    if s.len() > 0 && is_edge_char(s[0]) {
        lemma_leading_edge_bound(s.drop_first());
    }
}

proof fn lemma_trailing_edge_bound(s: Seq<char>)
    ensures
        trailing_edge(s) <= s.len(),
        trailing_edge(s) < s.len() ==> !is_edge_char(s[s.len() - trailing_edge(s) - 1]),
    decreases s.len(),
{
    if s.len() > 0 && is_edge_char(s.last()) {
        lemma_trailing_edge_bound(s.drop_last());
    }
}

fn is_edge(c: char) -> (r: bool)
    ensures
        r == is_edge_char(c),
{
    is_whitespace(c) || c == '.'
}

/// Computes `strip_edges`.
fn strip_edges_chars(s: &[char]) -> (r: Vec<char>)
    ensures
        r@ == strip_edges(s@),
{
    let mut a: usize = 0;
    assert(s@.skip(0) =~= s@);
    while a < s.len() && is_edge(s[a])
        invariant
            a <= s@.len(),
            leading_edge(s@) == a + leading_edge(s@.skip(a as int)),
        decreases s@.len() - a,
    {
        assert(s@.skip(a as int).drop_first() =~= s@.skip(a + 1));
        a = a + 1;
    }
    let t = slice_chars(s, a, s.len());
    assert(t@ =~= s@.skip(a as int));
    let mut b: usize = 0;
    assert(t@.take(t@.len() as int) =~= t@);
    while b < t.len() && is_edge(t[t.len() - 1 - b])
        invariant
            b <= t@.len(),
            trailing_edge(t@) == b + trailing_edge(t@.take(t@.len() - b)),
        decreases t@.len() - b,
    {
        assert(t@.take(t@.len() - b).drop_last() =~= t@.take(t@.len() - b - 1));
        b = b + 1;
    }
    slice_chars(&t, 0, t.len() - b)
}

/// What `strip_edges` leaves is empty or neither starts nor ends with an
/// edge character.
proof fn lemma_strip_edges_shape(s: Seq<char>)
    ensures
        strip_edges(s).len() + leading_edge(s) <= s.len(),
        strip_edges(s).len() > 0 ==> !is_edge_char(strip_edges(s)[0]) && !is_edge_char(
            strip_edges(s).last(),
        ),
        forall|i: int|
            0 <= i < strip_edges(s).len() ==> #[trigger] strip_edges(s)[i] == s[i + leading_edge(
                s,
            )],
{
    lemma_leading_edge_bound(s);
    let t = s.skip(leading_edge(s) as int);
    lemma_trailing_edge_bound(t);
    let r = strip_edges(s);
    if r.len() > 0 {
        assert(r[0] == t[0]);
        assert(t[0] == s[leading_edge(s) as int]);
        assert(r.last() == t[t.len() - trailing_edge(t) - 1]);
    }
    assert forall|i: int| 0 <= i < r.len() implies #[trigger] r[i] == s[i + leading_edge(s)] by {
        assert(r[i] == t[i]);
    }
}

/// A download file stem from a title: forbidden characters become `_`;
/// whitespace and dots go from both ends, and again after the cut to at
/// most 120 characters; an empty result becomes `cover`.
pub open spec fn file_stem(name: Seq<char>) -> Seq<char> {
    let cleaned = name.map_values(|c: char| clean_name_char(c));
    let stripped = strip_edges(cleaned);
    let capped = strip_edges(
        if stripped.len() > 120 {
            stripped.take(120)
        } else {
            stripped
        },
    );
    if capped.len() == 0 {
        "cover"@
    } else {
        capped
    }
}

pub fn sanitize_file_stem(name: &str) -> (r: String)
    ensures
        r@ == file_stem(name@),
{
    let n = chars_of(name);
    let mut cleaned: Vec<char> = Vec::new();
    let mut i: usize = 0;
    while i < n.len()
        invariant
            i <= n@.len(),
            cleaned@ == n@.take(i as int).map_values(|c: char| clean_name_char(c)),
        decreases n@.len() - i,
    {
        let c = n[i];
        let bad = c == '<' || c == '>' || c == ':' || c == '"' || c == '/' || c == '\\' || c
            == '|' || c == '?' || c == '*' || (c as u32) < 0x20;
        cleaned.push(
            if bad {
                '_'
            } else {
                c
            },
        );
        i = i + 1;
        assert(cleaned@ =~= n@.take(i as int).map_values(|c: char| clean_name_char(c)));
    }
    assert(n@.take(n@.len() as int) =~= n@);
    let stripped = strip_edges_chars(&cleaned);
    let cut = if stripped.len() > 120 {
        slice_chars(&stripped, 0, 120)
    } else {
        stripped
    };
    let capped = strip_edges_chars(&cut);
    if capped.len() == 0 {
        String::from_str("cover")
    } else {
        string_from(&capped)
    }
}

/// The file name tried on attempt `n` of saving `stem.ext`: the plain
/// name first, then `stem (2).ext`, `stem (3).ext`, … as a browser does.
pub fn download_file_name(stem: &str, ext: &str, n: u128) -> (r: String)
    ensures
        r@ == if n <= 1 {
            stem@ + "."@ + ext@
        } else {
            stem@ + " ("@ + nat_digits(n as nat) + ")."@ + ext@
        },
{
    let mut out = String::from_str(stem);
    if n > 1 {
        out.append(" (");
        let d = u128_digits(n);
        push_chars(&mut out, &d);
        out.append(").");
    } else {
        out.append(".");
    }
    out.append(ext);
    out
}


/// The name of attempt `n` (see `download_file_name`).
pub open spec fn download_name(stem: Seq<char>, ext: Seq<char>, n: nat) -> Seq<char> {
    if n <= 1 {
        stem + "."@ + ext
    } else {
        stem + " ("@ + nat_digits(n) + ")."@ + ext
    }
}

/// The first free attempt from `n` on. No attempt past `taken.len() + 1`
/// is ever needed: that many different names cannot all be taken
/// (`lemma_chosen_attempt`).
pub open spec fn first_free_attempt(stem: Seq<char>, ext: Seq<char>, taken: Seq<Seq<char>>, n: nat) -> nat
    decreases taken.len() + 2 - n,
{
    if n >= taken.len() + 2 || !taken.contains(download_name(stem, ext, n)) {
        n
    } else {
        first_free_attempt(stem, ext, taken, n + 1)
    }
}

/// The attempt `unique_download_name` settles on: the least one whose
/// name is free.
pub open spec fn chosen_attempt(stem: Seq<char>, ext: Seq<char>, taken: Seq<Seq<char>>) -> nat {
    first_free_attempt(stem, ext, taken, 1)
}

proof fn lemma_first_free_attempt(stem: Seq<char>, ext: Seq<char>, taken: Seq<Seq<char>>, n: nat)
    ensures
        n <= first_free_attempt(stem, ext, taken, n),
        n <= taken.len() + 2 ==> first_free_attempt(stem, ext, taken, n) <= taken.len() + 2,
        first_free_attempt(stem, ext, taken, n) < taken.len() + 2 ==> !taken.contains(
            download_name(stem, ext, first_free_attempt(stem, ext, taken, n)),
        ),
        forall|j: nat|
            n <= j < first_free_attempt(stem, ext, taken, n) ==> taken.contains(
                #[trigger] download_name(stem, ext, j),
            ),
    decreases taken.len() + 2 - n,
{
    if !(n >= taken.len() + 2 || !taken.contains(download_name(stem, ext, n))) {
        lemma_first_free_attempt(stem, ext, taken, n + 1);
    }
}

/// Different attempts have different names.
proof fn lemma_download_names_differ(stem: Seq<char>, ext: Seq<char>, a: nat, b: nat)
    requires
        1 <= a,
        1 <= b,
        a != b,
    ensures
        download_name(stem, ext, a) != download_name(stem, ext, b),
{
    reveal_strlit(".");
    reveal_strlit(" (");
    reveal_strlit(").");
    lemma_nat_digits(a);
    lemma_nat_digits(b);
    let na = download_name(stem, ext, a);
    let nb = download_name(stem, ext, b);
    assert(a > 1 ==> na.len() == stem.len() + 4 + nat_digits(a).len() + ext.len());
    assert(b > 1 ==> nb.len() == stem.len() + 4 + nat_digits(b).len() + ext.len());
    assert(a == 1 ==> na.len() == stem.len() + 1 + ext.len());
    assert(b == 1 ==> nb.len() == stem.len() + 1 + ext.len());
    if a > 1 && b > 1 && na == nb {
        let da = nat_digits(a);
        let db = nat_digits(b);
        assert(da.len() == db.len());
        let s: int = stem.len() as int + 2;
        assert(na.subrange(s, s + da.len() as int) =~= da);
        assert(nb.subrange(s, s + db.len() as int) =~= db);
        assert(da == db);
    }
}

/// `names` holds no name twice and each is taken, so there are no more
/// of them than taken names.
proof fn lemma_taken_pigeonhole(names: Seq<Seq<char>>, taken: Seq<Seq<char>>)
    requires
        names.no_duplicates(),
        forall|i: int| 0 <= i < names.len() ==> taken.contains(#[trigger] names[i]),
    ensures
        names.len() <= taken.len(),
{
    broadcast use vstd::seq_lib::seq_to_set_is_finite;
    names.unique_seq_to_set();
    taken.lemma_cardinality_of_set();
    assert forall|x: Seq<char>| names.to_set().contains(x) implies taken.to_set().contains(x) by {
        let i = choose|i: int| 0 <= i < names.len() && names[i] == x;
        assert(taken.contains(names[i]));
    }
    vstd::set_lib::lemma_len_subset(names.to_set(), taken.to_set());
}

/// The chosen attempt is free, every earlier one is taken, and it is at
/// most one past the number of taken names.
pub proof fn lemma_chosen_attempt(stem: Seq<char>, ext: Seq<char>, taken: Seq<Seq<char>>)
    ensures
        1 <= chosen_attempt(stem, ext, taken) <= taken.len() + 1,
        !taken.contains(download_name(stem, ext, chosen_attempt(stem, ext, taken))),
        forall|j: nat|
            1 <= j < chosen_attempt(stem, ext, taken) ==> taken.contains(
                #[trigger] download_name(stem, ext, j),
            ),
{
    lemma_first_free_attempt(stem, ext, taken, 1);
    let k = chosen_attempt(stem, ext, taken);
    if k >= taken.len() + 2 {
        let names = Seq::new((taken.len() + 1) as nat, |i: int| download_name(stem, ext, (i + 1) as nat));
        assert forall|i: int, j: int| 0 <= i < names.len() && 0 <= j < names.len() && i != j implies names[i]
            != names[j] by {
            lemma_download_names_differ(stem, ext, (i + 1) as nat, (j + 1) as nat);
        }
        assert forall|i: int| 0 <= i < names.len() implies taken.contains(#[trigger] names[i]) by {
            assert(names[i] == download_name(stem, ext, (i + 1) as nat));
        }
        lemma_taken_pigeonhole(names, taken);
    }
}

fn contains_string(v: &Vec<String>, s: &String) -> (r: bool)
    ensures
        r == v@.map_values(|t: String| t@).contains(s@),
{
    let ghost vs = v@.map_values(|t: String| t@);
    let mut i: usize = 0;
    while i < v.len()
        invariant
            vs == v@.map_values(|t: String| t@),
            i <= v@.len(),
            forall|j: int| 0 <= j < i ==> (#[trigger] v@[j])@ != s@,
        decreases v@.len() - i,
    {
        if v[i] == *s {
            assert(vs[i as int] == s@);
            return true;
        }
        i = i + 1;
    }
    proof {
        if vs.contains(s@) {
            let j = choose|j: int| 0 <= j < vs.len() && vs[j] == s@;
            assert(v@[j]@ == s@);
        }
    }
    false
}

/// The file name to save `stem.ext` under in a folder already holding
/// the names `taken`: the plain name if free, else the first free of
/// `stem (2).ext`, `stem (3).ext`, … A name returned is never one of
/// `taken`, and every attempt before it is.
pub fn unique_download_name(stem: &str, ext: &str, taken: &Vec<String>) -> (r: String)
    ensures
        r@ == download_name(stem@, ext@, chosen_attempt(stem@, ext@, taken@.map_values(|t: String| t@))),
        !taken@.map_values(|t: String| t@).contains(r@),
        forall|j: nat|
            1 <= j < chosen_attempt(stem@, ext@, taken@.map_values(|t: String| t@))
                ==> taken@.map_values(|t: String| t@).contains(#[trigger] download_name(stem@, ext@, j)),
{
    let ghost tv = taken@.map_values(|t: String| t@);
    let ghost k = chosen_attempt(stem@, ext@, tv);
    proof {
        lemma_chosen_attempt(stem@, ext@, tv);
    }
    let tl = taken.len();
    let mut n: u128 = 1;
    loop
        invariant
            tl == taken@.len(),
            1 <= n <= k,
            k <= tv.len() + 1,
            tv.len() == taken@.len(),
            tv == taken@.map_values(|t: String| t@),
            k == chosen_attempt(stem@, ext@, tv),
            !tv.contains(download_name(stem@, ext@, k)),
            first_free_attempt(stem@, ext@, tv, n as nat) == k,
        decreases k - n,
    {
        let candidate = download_file_name(stem, ext, n);
        if !contains_string(taken, &candidate) {
            assert(n as nat == k);
            proof {
                lemma_chosen_attempt(stem@, ext@, tv);
            }
            return candidate;
        }
        assert(n < k);
        n = n + 1;
    }
}


// ---------------------------------------------------------------------
// Laws
// ---------------------------------------------------------------------

/// A valid video id holds no path separator or dot, so `<id>.webm` and
/// `<id>.meta.json` always name a file directly inside the cache dir.
pub proof fn law_valid_ids_are_plain_names(id: Seq<char>)
    requires
        is_valid_video_id(id),
    ensures
        forall|i: int|
            0 <= i < id.len() ==> #[trigger] id[i] != '/' && id[i] != '\\' && id[i] != '.',
{
    assert forall|i: int| 0 <= i < id.len() implies #[trigger] id[i] != '/' && id[i] != '\\'
        && id[i] != '.' by {
        assert(is_id_char(id[i]));
    }
}

/// Every name the cover cache gives a URL is one the cover server
/// accepts: the disk cache and the server agree.
pub proof fn law_cover_names_are_servable(h: u64, url: Seq<char>)
    ensures
        is_valid_cover_name(hex_fixed(h as nat, 16) + "."@ + cover_ext(url)),
{
    reveal_strlit(".");
    reveal_strlit("png");
    reveal_strlit("webp");
    reveal_strlit("jpg");
    reveal_strlit("..");
    lemma_hex_fixed_shape(h as nat, 16);
    let x = hex_fixed(h as nat, 16);
    let ext = cover_ext(url);
    let name = x + "."@ + ext;
    assert(ext.len() == 3 || ext.len() == 4);
    assert forall|i: int| 0 <= i < ext.len() implies 'a' <= #[trigger] ext[i] && ext[i] <= 'z' by {}
    assert forall|i: int| 0 <= i < name.len() implies is_cover_name_char(#[trigger] name[i]) by {
        if i < 16 {
            assert(name[i] == x[i]);
            assert(is_lower_hex(x[i]));
        } else if i > 16 {
            assert(name[i] == ext[i - 17]);
        }
    }
    if contains_run(name, ".."@) {
        let k = choose|k: int|
            0 <= k && k + ".."@.len() <= name.len() && #[trigger] name.subrange(k, k + ".."@.len())
                == ".."@;
        assert(name[k] == name.subrange(k, k + 2)[0]);
        assert(name[k + 1] == name.subrange(k, k + 2)[1]);
        if k < 16 {
            assert(name[k] == x[k]);
            assert(is_lower_hex(x[k]));
        } else if k == 16 {
            assert(name[k + 1] == ext[0]);
        } else {
            assert(name[k] == ext[k - 17]);
        }
    }
}

/// No character a file system refuses.
pub open spec fn safe_name(s: Seq<char>) -> bool {
    forall|i: int| 0 <= i < s.len() ==> !is_forbidden_name_char(#[trigger] s[i])
}

proof fn lemma_strip_edges_safe(s: Seq<char>)
    requires
        safe_name(s),
    ensures
        safe_name(strip_edges(s)),
{
    lemma_strip_edges_shape(s);
    lemma_leading_edge_bound(s);
    let r = strip_edges(s);
    assert forall|i: int| 0 <= i < r.len() implies !is_forbidden_name_char(#[trigger] r[i]) by {
        assert(r[i] == s[i + leading_edge(s)]);
    }
}

/// A title turned into a download file stem is never empty, keeps at
/// most 120 characters, holds no character a file system refuses, and
/// neither starts nor ends with a dot or whitespace (no hidden file, and
/// nothing Windows would trim off the name reported back).
pub proof fn law_file_stem_is_safe(name: Seq<char>)
    ensures
        0 < file_stem(name).len() <= 120,
        safe_name(file_stem(name)),
        !is_edge_char(file_stem(name)[0]),
        !is_edge_char(file_stem(name).last()),
        file_stem(name)[0] != '.',
        file_stem(name).last() != '.',
        file_stem(name).last() != ' ',
{
    reveal_strlit("cover");
    let cleaned = name.map_values(|c: char| clean_name_char(c));
    assert(safe_name(cleaned)) by {
        assert forall|i: int| 0 <= i < cleaned.len() implies !is_forbidden_name_char(
            #[trigger] cleaned[i],
        ) by {
            assert(cleaned[i] == clean_name_char(name[i]));
        }
    }
    lemma_strip_edges_safe(cleaned);
    lemma_strip_edges_shape(cleaned);
    let stripped = strip_edges(cleaned);
    let cut = if stripped.len() > 120 {
        stripped.take(120)
    } else {
        stripped
    };
    assert(safe_name(cut)) by {
        assert forall|i: int| 0 <= i < cut.len() implies !is_forbidden_name_char(
            #[trigger] cut[i],
        ) by {
            assert(cut[i] == stripped[i]);
        }
    }
    lemma_strip_edges_safe(cut);
    lemma_strip_edges_shape(cut);
    let fs = file_stem(name);
    if strip_edges(cut).len() == 0 {
        assert(fs =~= seq!['c', 'o', 'v', 'e', 'r']);
    }
}

/// The cover allowlist treats its CDNs alike: a host that is
/// mzstatic.com, ytimg.com, ggpht.com or googleusercontent.com, or any
/// subdomain of one, passes, and an https URL naming it is accepted.
pub proof fn law_cover_cdn_hosts_pass(h: Seq<char>, cdn: Seq<char>)
    requires
        cdn == "mzstatic.com"@ || cdn == "ytimg.com"@ || cdn == "ggpht.com"@ || cdn
            == "googleusercontent.com"@,
        h == cdn || has_suffix(h, seq!['.'] + cdn),
    ensures
        is_cover_host(h),
        cover_url_verdict(Ok(("https"@, Some(h)))) == Ok::<(), Seq<char>>(()),
{
    reveal_strlit("mzstatic.com");
    reveal_strlit(".mzstatic.com");
    reveal_strlit("ytimg.com");
    reveal_strlit(".ytimg.com");
    reveal_strlit("ggpht.com");
    reveal_strlit(".ggpht.com");
    reveal_strlit("googleusercontent.com");
    reveal_strlit(".googleusercontent.com");
    assert(seq!['.'] + "mzstatic.com"@ =~= ".mzstatic.com"@);
    assert(seq!['.'] + "ytimg.com"@ =~= ".ytimg.com"@);
    assert(seq!['.'] + "ggpht.com"@ =~= ".ggpht.com"@);
    assert(seq!['.'] + "googleusercontent.com"@ =~= ".googleusercontent.com"@);
}

/// Only those CDNs pass: a host the allowlist accepts is one of
/// mzstatic.com, ytimg.com, ggpht.com and googleusercontent.com, or a
/// subdomain of one.
pub proof fn law_cover_hosts_are_cdn_hosts(h: Seq<char>)
    requires
        is_cover_host(h),
    ensures
        exists|cdn: Seq<char>|
            (cdn == "mzstatic.com"@ || cdn == "ytimg.com"@ || cdn == "ggpht.com"@ || cdn
                == "googleusercontent.com"@) && (h == cdn || has_suffix(h, #[trigger] (seq!['.'] + cdn))),
{
    reveal_strlit("mzstatic.com");
    reveal_strlit(".mzstatic.com");
    reveal_strlit("ytimg.com");
    reveal_strlit(".ytimg.com");
    reveal_strlit("ggpht.com");
    reveal_strlit(".ggpht.com");
    reveal_strlit("googleusercontent.com");
    reveal_strlit(".googleusercontent.com");
    assert(seq!['.'] + "mzstatic.com"@ =~= ".mzstatic.com"@);
    assert(seq!['.'] + "ytimg.com"@ =~= ".ytimg.com"@);
    assert(seq!['.'] + "ggpht.com"@ =~= ".ggpht.com"@);
    assert(seq!['.'] + "googleusercontent.com"@ =~= ".googleusercontent.com"@);
}

} // verus!
