//! The Netscape cookie-jar text format that the encrypted per-account jar
//! holds: reading it into entries, writing entries back, and the
//! `Cookie:` header that a host is sent from it.
//!
//! A jar line is `domain TAB include_subdomains TAB path TAB secure TAB
//! expiry TAB name TAB value`; lines starting with `#`, blank lines and
//! lines with fewer than seven fields are ignored. An entry read from a
//! jar keeps its line as stored, and is written back as that line until
//! something changes it.

use vstd::prelude::*;
use crate::text::{
    chars_eq, chars_of, contains_run, decimal, ends_with, extend_chars, free_of, has_suffix, i64_decimal,
    insert_sorted, is_blank, is_digit, is_ws, lemma_decimal_roundtrip, lemma_split_append_plain,
    lemma_split_field, lemma_split_nonempty, lemma_split_pieces, lemma_split_plain, lemma_trim_all_ws, lemma_split_push_sep, lemma_trim_nonempty, lex_sorted,
    lines, lines_of, parse_i64, parse_i64_chars, push_char, push_chars, seq_views, split,
    slice_chars, split_chars, string_from, string_views, strip_cr, strip_leading, strip_leading_chars, trim,
};

verus! {

/// One entry of a jar, as its fields are written.
pub struct EntryView {
    pub domain: Seq<char>,
    pub include_sub: Seq<char>,
    pub path: Seq<char>,
    pub secure: Seq<char>,
    pub expiry: i64,
    pub name: Seq<char>,
    pub value: Seq<char>,
    pub raw: Option<Seq<char>>,
}

/// One jar line, kept as stored so a rewrite preserves entries it does
/// not touch byte for byte: `raw` is the line as read (a `'\r'` before
/// its line break included), `None` for an entry made or changed since,
/// which is written from its fields.
pub struct JarEntry {
    pub domain: Vec<char>,
    pub include_sub: Vec<char>,
    pub path: Vec<char>,
    pub secure: Vec<char>,
    pub expiry: i64,
    pub name: Vec<char>,
    pub value: Vec<char>,
    pub raw: Option<Vec<char>>,
}

pub open spec fn opt_chars_view(o: Option<Vec<char>>) -> Option<Seq<char>> {
    match o {
        Some(v) => Some(v@),
        None => None,
    }
}

impl View for JarEntry {
    type V = EntryView;

    open spec fn view(&self) -> EntryView {
        EntryView {
            domain: self.domain@,
            include_sub: self.include_sub@,
            path: self.path@,
            secure: self.secure@,
            expiry: self.expiry,
            name: self.name@,
            value: self.value@,
            raw: opt_chars_view(self.raw),
        }
    }
}

impl JarEntry {
    pub fn duplicate(&self) -> (r: JarEntry)
        ensures
            r@ == self@,
    {
        JarEntry {
            domain: self.domain.clone(),
            include_sub: self.include_sub.clone(),
            path: self.path.clone(),
            secure: self.secure.clone(),
            expiry: self.expiry,
            name: self.name.clone(),
            value: self.value.clone(),
            raw: match &self.raw {
                Some(r) => Some(r.clone()),
                None => None,
            },
        }
    }
}

pub open spec fn entry_views(v: Seq<JarEntry>) -> Seq<EntryView> {
    v.map_values(|e: JarEntry| e@)
}

/// The comment line every jar written by the app starts with.
pub open spec fn jar_header() -> Seq<char> {
    "# Netscape HTTP Cookie File\n"@
}

/// A line that carries no entry: a comment or whitespace only.
pub open spec fn is_skipped_line(line: Seq<char>) -> bool {
    (line.len() > 0 && line[0] == '#') || trim(line).len() == 0
}

/// The entry a jar line holds, if any, with `raw` the line as stored. An
/// expiry that does not parse as an integer reads as 0.
pub open spec fn line_entry(line: Seq<char>, raw: Seq<char>) -> Option<EntryView> {
    let f = split(line, '\t');
    if is_skipped_line(line) || f.len() < 7 {
        None
    } else {
        Some(
            EntryView {
                domain: f[0],
                include_sub: f[1],
                path: f[2],
                secure: f[3],
                expiry: match parse_i64(f[4]) {
                    Some(v) => v,
                    None => 0,
                },
                name: f[5],
                value: f[6],
                raw: Some(raw),
            },
        )
    }
}

/// The lines of a jar as stored: the pieces between line breaks, a
/// `'\r'` before a break kept, a final empty piece dropped. `lines` gives
/// the text of each.
pub open spec fn stored_lines(jar: Seq<char>) -> Seq<Seq<char>> {
    let p = split(jar, '\n');
    if p.last().len() == 0 {
        p.drop_last()
    } else {
        p
    }
}

/// Entries of a sequence of lines (their text, and as stored), in order.
pub open spec fn entries_of_lines(ls: Seq<Seq<char>>, raws: Seq<Seq<char>>) -> Seq<EntryView>
    decreases ls.len(),
{
    if ls.len() == 0 {
        Seq::empty()
    } else {
        let rest = entries_of_lines(ls.drop_last(), raws.drop_last());
        match line_entry(ls.last(), raws[ls.len() - 1]) {
            Some(e) => rest.push(e),
            None => rest,
        }
    }
}

/// The entries of a jar, in file order.
pub open spec fn parse_jar(jar: Seq<char>) -> Seq<EntryView> {
    entries_of_lines(lines(jar), stored_lines(jar))
}

/// The text an entry is written as: the stored line of one read from a
/// jar and not changed since, else its seven fields.
pub open spec fn written_line(e: EntryView) -> Seq<char> {
    match e.raw {
        Some(r) => r,
        None => entry_line(e),
    }
}

/// One entry written as a jar line, with its line break.
pub open spec fn render_entry(e: EntryView) -> Seq<char> {
    written_line(e) + seq!['\n']
}

pub open spec fn render_entries(es: Seq<EntryView>) -> Seq<char>
    decreases es.len(),
{
    if es.len() == 0 {
        Seq::empty()
    } else {
        render_entries(es.drop_last()) + render_entry(es.last())
    }
}

/// A whole jar: the header line, then one line per entry.
pub open spec fn render_jar(es: Seq<EntryView>) -> Seq<char> {
    jar_header() + render_entries(es)
}

/// The entry of one line, computed.
fn entry_of_line(line: &[char], raw: &[char]) -> (r: Option<JarEntry>)
    ensures
        match r {
            Some(e) => line_entry(line@, raw@) == Some(e@),
            None => line_entry(line@, raw@).is_none(),
        },
{
    if line.len() > 0 && line[0] == '#' {
        return None;
    }
    if is_blank(line) {
        return None;
    }
    let f = split_chars(line, '\t');
    if f.len() < 7 {
        return None;
    }
    let stored = slice_chars(raw, 0, raw.len());
    assert(stored@ =~= raw@);
    let expiry = match parse_i64_chars(&f[4]) {
        Some(v) => v,
        None => 0,
    };
    Some(
        JarEntry {
            domain: f[0].clone(),
            include_sub: f[1].clone(),
            path: f[2].clone(),
            secure: f[3].clone(),
            expiry,
            name: f[5].clone(),
            value: f[6].clone(),
            raw: Some(stored),
        },
    )
}

/// Computes `stored_lines`.
fn stored_lines_of(jar: &[char]) -> (r: Vec<Vec<char>>)
    ensures
        r@.len() == stored_lines(jar@).len(),
        forall|k: int| 0 <= k < r@.len() ==> (#[trigger] r@[k])@ == stored_lines(jar@)[k],
{
    let mut pieces = split_chars(jar, '\n');
    proof {
        lemma_split_nonempty(jar@, '\n');
    }
    let n = pieces.len();
    if pieces[n - 1].len() == 0 {
        pieces.pop();
    }
    pieces
}

/// Reads every entry of a jar, in file order.
pub fn read_jar(jar: &[char]) -> (r: Vec<JarEntry>)
    ensures
        entry_views(r@) == parse_jar(jar@),
{
    let ls = lines_of(jar);
    let rs = stored_lines_of(jar);
    let ghost lv = lines(jar@);
    let ghost rv = stored_lines(jar@);
    proof {
        lemma_split_nonempty(jar@, '\n');
    }
    assert(lv.len() == rv.len());
    let mut r: Vec<JarEntry> = Vec::new();
    let mut k: usize = 0;
    while k < ls.len()
        invariant
            ls@.len() == lv.len(),
            rs@.len() == rv.len(),
            lv.len() == rv.len(),
            forall|j: int| 0 <= j < ls@.len() ==> (#[trigger] ls@[j])@ == lv[j],
            forall|j: int| 0 <= j < rs@.len() ==> (#[trigger] rs@[j])@ == rv[j],
            k <= ls@.len(),
            entry_views(r@) == entries_of_lines(lv.take(k as int), rv.take(k as int)),
        decreases ls@.len() - k,
    {
        assert(lv.take(k + 1).drop_last() =~= lv.take(k as int));
        assert(rv.take(k + 1).drop_last() =~= rv.take(k as int));
        assert(rv.take(k + 1)[k as int] == rv[k as int]);
        match entry_of_line(&ls[k], &rs[k]) {
            Some(e) => {
                r.push(e);
                assert(entry_views(r@) =~= entry_views(r@).drop_last().push(e@));
            },
            None => {},
        }
        k = k + 1;
    }
    assert(lv.take(ls@.len() as int) =~= lv);
    assert(rv.take(ls@.len() as int) =~= rv);
    r
}

/// Writes one entry as a jar line.
fn push_entry(out: &mut String, e: &JarEntry)
    ensures
        final(out)@ == old(out)@ + render_entry(e@),
{
    if let Some(r) = &e.raw {
        push_chars(out, r);
        push_char(out, '\n');
        assert(out@ =~= old(out)@ + render_entry(e@));
        return;
    }
    push_chars(out, &e.domain);
    push_char(out, '\t');
    push_chars(out, &e.include_sub);
    push_char(out, '\t');
    push_chars(out, &e.path);
    push_char(out, '\t');
    push_chars(out, &e.secure);
    push_char(out, '\t');
    let d = i64_decimal(e.expiry);
    push_chars(out, &d);
    push_char(out, '\t');
    push_chars(out, &e.name);
    push_char(out, '\t');
    push_chars(out, &e.value);
    push_char(out, '\n');
    assert(out@ =~= old(out)@ + render_entry(e@));
}

/// Writes a whole jar: the header line, then one line per entry.
pub fn write_jar(es: &[JarEntry]) -> (r: String)
    ensures
        r@ == render_jar(entry_views(es@)),
{
    let mut out = String::new();
    let header = chars_of("# Netscape HTTP Cookie File\n");
    push_chars(&mut out, &header);
    let mut k: usize = 0;
    while k < es.len()
        invariant
            k <= es@.len(),
            out@ == jar_header() + render_entries(entry_views(es@.take(k as int))),
        decreases es@.len() - k,
    {
        push_entry(&mut out, &es[k]);
        assert(entry_views(es@.take(k + 1)).drop_last() =~= entry_views(es@.take(k as int)));
        assert(out@ =~= jar_header() + render_entries(entry_views(es@.take(k + 1))));
        k = k + 1;
    }
    assert(es@.take(es@.len() as int) =~= es@);
    out
}

// ---------------------------------------------------------------------
// The Cookie header a host is sent
// ---------------------------------------------------------------------

/// Whether a jar entry is sent to `host`: the host is the entry's domain
/// (leading dots ignored), or, when the entry includes subdomains, a
/// subdomain of it.
pub open spec fn entry_matches_host(e: EntryView, host: Seq<char>) -> bool {
    let d = strip_leading(e.domain, '.');
    host == d || (e.include_sub == "TRUE"@ && has_suffix(host, seq!['.'] + d))
}

/// `name=value` pairs of the entries sent to `host`, in jar order.
pub open spec fn header_pairs(es: Seq<EntryView>, host: Seq<char>) -> Seq<Seq<char>>
    decreases es.len(),
{
    if es.len() == 0 {
        Seq::empty()
    } else {
        let rest = header_pairs(es.drop_last(), host);
        let e = es.last();
        if entry_matches_host(e, host) {
            rest.push(e.name + seq!['='] + e.value)
        } else {
            rest
        }
    }
}

/// Pieces joined with `sep` between consecutive ones.
pub open spec fn join(ps: Seq<Seq<char>>, sep: Seq<char>) -> Seq<char>
    decreases ps.len(),
{
    if ps.len() == 0 {
        Seq::empty()
    } else if ps.len() == 1 {
        ps[0]
    } else {
        join(ps.drop_last(), sep) + sep + ps.last()
    }
}

/// The `Cookie:` header value for `host`: `name=value` of every matching
/// entry, joined by `"; "`. Empty when nothing matches.
pub open spec fn cookie_header(jar: Seq<char>, host: Seq<char>) -> Seq<char> {
    join(header_pairs(parse_jar(jar), host), "; "@)
}

/// Computes `cookie_header(jar, host)`.
pub fn cookie_header_for_host(jar: &str, host: &str) -> (r: String)
    ensures
        r@ == cookie_header(jar@, host@),
{
    let jc = chars_of(jar);
    let hc = chars_of(host);
    let es = read_jar(&jc);
    let truec = chars_of("TRUE");
    let sep = chars_of("; ");
    let ghost ev = entry_views(es@);
    let mut out = String::new();
    let mut any = false;
    let mut k: usize = 0;
    while k < es.len()
        invariant
            k <= es@.len(),
            any == (header_pairs(ev.take(k as int), hc@).len() > 0),
            ev == entry_views(es@),
            ev == parse_jar(jc@),
            truec@ == "TRUE"@,
            sep@ == "; "@,
            out@ == join(header_pairs(ev.take(k as int), hc@), "; "@),
        decreases es@.len() - k,
    {
        let e = &es[k];
        let d = strip_leading_chars(&e.domain, '.');
        let mut dotted: Vec<char> = Vec::new();
        dotted.push('.');
        extend_chars(&mut dotted, &d);
        assert(dotted@ =~= seq!['.'] + d@);
        let hit = chars_eq(&hc, &d) || (chars_eq(&e.include_sub, &truec) && ends_with(
            &hc,
            &dotted,
        ));
        assert(ev.take(k + 1).drop_last() =~= ev.take(k as int));
        assert(ev.take(k + 1).last() == ev[k as int]);
        if hit {
            let ghost before = header_pairs(ev.take(k as int), hc@);
            if any {
                // not the first pair: a separator goes before it
                push_chars(&mut out, &sep);
            }
            any = true;
            push_chars(&mut out, &e.name);
            push_char(&mut out, '=');
            push_chars(&mut out, &e.value);
            proof {
                let p = e.name@ + seq!['='] + e.value@;
                let after = header_pairs(ev.take(k + 1), hc@);
                assert(after == before.push(p));
                assert(after.drop_last() =~= before);
                if before.len() == 0 {
                    assert(out@ =~= p);
                } else {
                    assert(out@ =~= join(before, "; "@) + "; "@ + p);
                }
            }
        }
        k = k + 1;
    }
    assert(ev.take(es@.len() as int) =~= ev);
    out
}


// ---------------------------------------------------------------------
// Comparing two jars
// ---------------------------------------------------------------------

/// `domain name`: what two jars are compared by.
pub open spec fn entry_key(e: EntryView) -> Seq<char> {
    e.domain + seq![' '] + e.name
}

/// The value of the last entry with key `k`, if any: what a map built
/// from the entries in order keeps.
pub open spec fn last_value(es: Seq<EntryView>, k: Seq<char>) -> Option<Seq<char>>
    decreases es.len(),
{
    if es.len() == 0 {
        None
    } else if entry_key(es.last()) == k {
        Some(es.last().value)
    } else {
        last_value(es.drop_last(), k)
    }
}

/// A cookie present in both jars whose value moved.
#[verifier::opaque]
pub open spec fn value_changed_between(before: Seq<char>, after: Seq<char>, k: Seq<char>) -> bool {
    let a = last_value(parse_jar(before), k);
    let b = last_value(parse_jar(after), k);
    a is Some && b is Some && a != b
}

fn entry_key_of(e: &JarEntry) -> (r: Vec<char>)
    ensures
        r@ == entry_key(e@),
{
    let mut r = e.domain.clone();
    r.push(' ');
    extend_chars(&mut r, &e.name);
    assert(r@ =~= entry_key(e@));
    r
}

fn contains_key(v: &Vec<Vec<char>>, x: &[char]) -> (r: bool)
    ensures
        r == seq_views(v@).contains(x@),
{
    let mut i: usize = 0;
    while i < v.len()
        invariant
            i <= v@.len(),
            forall|j: int| 0 <= j < i ==> (#[trigger] v@[j])@ != x@,
        decreases v@.len() - i,
    {
        if chars_eq(&v[i], x) {
            assert(seq_views(v@)[i as int] == x@);
            return true;
        }
        i = i + 1;
    }
    proof {
        if seq_views(v@).contains(x@) {
            let j = choose|j: int| 0 <= j < v@.len() && seq_views(v@)[j] == x@;
            assert(v@[j]@ == x@);
        }
    }
    false
}

/// The value of the last entry with key `k`.
fn last_value_of(es: &Vec<JarEntry>, k: &[char]) -> (r: Option<Vec<char>>)
    ensures
        match r {
            Some(v) => last_value(entry_views(es@), k@) == Some(v@),
            None => last_value(entry_views(es@), k@) is None,
        },
{
    let ghost ev = entry_views(es@);
    let mut r: Option<Vec<char>> = None;
    let mut j: usize = 0;
    while j < es.len()
        invariant
            ev == entry_views(es@),
            j <= es@.len(),
            match r {
                Some(v) => last_value(ev.take(j as int), k@) == Some(v@),
                None => last_value(ev.take(j as int), k@) is None,
            },
        decreases es@.len() - j,
    {
        assert(ev.take(j + 1).drop_last() =~= ev.take(j as int));
        let key = entry_key_of(&es[j]);
        if chars_eq(&key, k) {
            r = Some(es[j].value.clone());
        }
        j = j + 1;
    }
    assert(ev.take(es@.len() as int) =~= ev);
    r
}


proof fn lemma_take_contains(s: Seq<Seq<char>>, i: int)
    requires
        0 <= i < s.len(),
    ensures
        forall|x: Seq<char>|
            #[trigger] s.take(i + 1).contains(x) <==> (s.take(i).contains(x) || x == s[i]),
{
    assert forall|x: Seq<char>| #[trigger] s.take(i + 1).contains(x) <==> (s.take(i).contains(x)
        || x == s[i]) by {
        if s.take(i + 1).contains(x) {
            let t = choose|t: int| 0 <= t < i + 1 && #[trigger] s.take(i + 1)[t] == x;
            if t < i {
                assert(s.take(i)[t] == x);
            }
        }
        if s.take(i).contains(x) {
            let t = choose|t: int| 0 <= t < i && #[trigger] s.take(i)[t] == x;
            assert(s.take(i + 1)[t] == x);
        }
        if x == s[i] {
            assert(s.take(i + 1)[i] == x);
        }
    }
}

proof fn lemma_last_value_step(ev: Seq<EntryView>, j: int)
    requires
        0 <= j < ev.len(),
    ensures
        forall|k: Seq<char>|
            #[trigger] last_value(ev.take(j + 1), k) == if entry_key(ev[j]) == k {
                Some(ev[j].value)
            } else {
                last_value(ev.take(j), k)
            },
{
    assert(ev.take(j + 1).drop_last() =~= ev.take(j));
    assert(ev.take(j + 1).last() == ev[j]);
}

/// The strings of a list of character vectors.
fn strings_of(v: &Vec<Vec<char>>) -> (r: Vec<String>)
    ensures
        string_views(r@) == seq_views(v@),
{
    let mut r: Vec<String> = Vec::new();
    let mut i: usize = 0;
    while i < v.len()
        invariant
            i <= v@.len(),
            r@.len() == i,
            forall|t: int| 0 <= t < i ==> (#[trigger] r@[t])@ == v@[t]@,
        decreases v@.len() - i,
    {
        r.push(string_from(&v[i]));
        i = i + 1;
    }
    assert(string_views(r@) =~= seq_views(v@));
    r
}

/// The distinct keys of a list of entries, in order of first appearance.
fn distinct_keys(es: &Vec<JarEntry>) -> (r: Vec<Vec<char>>)
    ensures
        seq_views(r@).no_duplicates(),
        forall|k: Seq<char>|
            seq_views(r@).contains(k) <==> #[trigger] last_value(entry_views(es@), k) is Some,
{
    let ghost ev = entry_views(es@);
    let mut keys: Vec<Vec<char>> = Vec::new();
    let mut j: usize = 0;
    while j < es.len()
        invariant
            ev == entry_views(es@),
            j <= es@.len(),
            seq_views(keys@).no_duplicates(),
            forall|k: Seq<char>|
                seq_views(keys@).contains(k) <==> #[trigger] last_value(ev.take(j as int), k) is Some,
        decreases es@.len() - j,
    {
        let key = entry_key_of(&es[j]);
        assert(ev[j as int] == es@[j as int]@);
        proof {
            lemma_last_value_step(ev, j as int);
        }
        let ghost before = seq_views(keys@);
        if !contains_key(&keys, &key) {
            keys.push(key);
            proof {
                let after = seq_views(keys@);
                assert(after =~= before.push(key@));
                assert forall|a: int, b: int|
                    0 <= a < after.len() && 0 <= b < after.len() && a != b implies after[a]
                    != after[b] by {
                    if a < before.len() && b < before.len() {
                        assert(after[a] == before[a] && after[b] == before[b]);
                    } else if a < before.len() {
                        assert(after[a] == before[a]);
                        assert(before.contains(after[a]));
                    } else {
                        assert(after[b] == before[b]);
                        assert(before.contains(after[b]));
                    }
                }
                assert forall|k: Seq<char>| after.contains(k) <==> (before.contains(k) || k
                    == key@) by {
                    if after.contains(k) && k != key@ {
                        let t = choose|t: int| 0 <= t < after.len() && after[t] == k;
                        assert(before[t] == k);
                    }
                    if k == key@ {
                        assert(after[before.len() as int] == k);
                    }
                    if before.contains(k) {
                        let t = choose|t: int| 0 <= t < before.len() && before[t] == k;
                        assert(after[t] == k);
                    }
                }
            }
        }
        j = j + 1;
    }
    assert(ev.take(es@.len() as int) =~= ev);
    keys
}

/// The `domain name` keys of every entry of a jar, each once.
pub fn jar_cookie_keys(jar: &str) -> (r: Vec<String>)
    ensures
        string_views(r@).no_duplicates(),
        forall|k: Seq<char>|
            string_views(r@).contains(k) <==> #[trigger] last_value(parse_jar(jar@), k) is Some,
{
    let es = read_jar(&chars_of(jar));
    let keys = distinct_keys(&es);
    strings_of(&keys)
}

/// `domain name` to value for every entry of a jar; where a key repeats,
/// the last entry's value.
pub fn jar_cookie_values(jar: &str) -> (r: Vec<(String, String)>)
    ensures
        r@.map_values(|p: (String, String)| p.0@).no_duplicates(),
        forall|i: int|
            0 <= i < r@.len() ==> last_value(parse_jar(jar@), (#[trigger] r@[i]).0@) == Some(
                r@[i].1@,
            ),
        forall|k: Seq<char>|
            r@.map_values(|p: (String, String)| p.0@).contains(k) <==> #[trigger] last_value(
                parse_jar(jar@),
                k,
            ) is Some,
{
    let es = read_jar(&chars_of(jar));
    let keys = distinct_keys(&es);
    let ghost kv = seq_views(keys@);
    let mut r: Vec<(String, String)> = Vec::new();
    let mut i: usize = 0;
    while i < keys.len()
        invariant
            kv == seq_views(keys@),
            kv.no_duplicates(),
            forall|k: Seq<char>| kv.contains(k) <==> #[trigger] last_value(entry_views(es@), k) is Some,
            entry_views(es@) == parse_jar(jar@),
            i <= keys@.len(),
            r@.len() == i,
            forall|t: int| 0 <= t < i ==> (#[trigger] r@[t]).0@ == kv[t],
            forall|t: int|
                0 <= t < r@.len() ==> last_value(parse_jar(jar@), (#[trigger] r@[t]).0@) == Some(
                    r@[t].1@,
                ),
        decreases keys@.len() - i,
    {
        assert(kv.contains(kv[i as int]));
        let v = match last_value_of(&es, &keys[i]) {
            Some(v) => v,
            None => {
                assert(false);
                Vec::new()
            },
        };
        r.push((string_from(&keys[i]), string_from(&v)));
        i = i + 1;
    }
    assert(r@.map_values(|p: (String, String)| p.0@) =~= kv);
    r
}

/// `out` holds exactly the keys of `keys` whose value moved between the
/// two jars.
spec fn lists_changed(out: Seq<Seq<char>>, keys: Seq<Seq<char>>, before: Seq<char>, after: Seq<char>) -> bool {
    &&& forall|w: Seq<char>| #[trigger] out.contains(w) ==> keys.contains(w) && value_changed_between(before, after, w)
    &&& forall|w: Seq<char>| #[trigger] keys.contains(w) && value_changed_between(before, after, w) ==> out.contains(w)
}

proof fn lemma_lists_changed_step(
    old_out: Seq<Seq<char>>,
    new_out: Seq<Seq<char>>,
    keys: Seq<Seq<char>>,
    i: int,
    before: Seq<char>,
    after: Seq<char>,
    moved: bool,
)
    requires
        0 <= i < keys.len(),
        lists_changed(old_out, keys.take(i), before, after),
        moved == value_changed_between(before, after, keys[i]),
        moved ==> forall|s: Seq<char>| new_out.contains(s) <==> (s == keys[i] || old_out.contains(s)),
        !moved ==> new_out == old_out,
    ensures
        lists_changed(new_out, keys.take(i + 1), before, after),
{
    lemma_take_contains(keys, i);
    assert forall|w: Seq<char>| #[trigger] new_out.contains(w) implies keys.take(i + 1).contains(w)
        && value_changed_between(before, after, w) by {
        assert(keys.take(i + 1).contains(w) <==> (keys.take(i).contains(w) || w == keys[i]));
        if w != keys[i] {
            assert(old_out.contains(w));
        }
    }
    assert forall|w: Seq<char>| #[trigger] keys.take(i + 1).contains(w) && value_changed_between(before, after, w) implies new_out.contains(w) by {
        assert(keys.take(i + 1).contains(w) <==> (keys.take(i).contains(w) || w == keys[i]));
        if w != keys[i] {
            assert(keys.take(i).contains(w));
            assert(old_out.contains(w));
        }
    }
}

/// The keys present in both jars whose value differs, in ascending
/// order. Values themselves are never returned.
pub fn changed_cookie_names(before: &str, after: &str) -> (r: Vec<String>)
    ensures
        lex_sorted(string_views(r@)),
        forall|k: Seq<char>|
            string_views(r@).contains(k) <==> #[trigger] value_changed_between(before@, after@, k),
{
    let eb = read_jar(&chars_of(before));
    let ea = read_jar(&chars_of(after));
    let keys = distinct_keys(&eb);
    let ghost kv = seq_views(keys@);
    let ghost bv = before@;
    let ghost av = after@;
    let mut out: Vec<Vec<char>> = Vec::new();
    let mut i: usize = 0;
    while i < keys.len()
        invariant
            kv == seq_views(keys@),
            kv.no_duplicates(),
            bv == before@,
            av == after@,
            forall|k: Seq<char>| kv.contains(k) <==> #[trigger] last_value(entry_views(eb@), k) is Some,
            entry_views(eb@) == parse_jar(bv),
            entry_views(ea@) == parse_jar(av),
            i <= keys@.len(),
            lex_sorted(seq_views(out@)),
            lists_changed(seq_views(out@), kv.take(i as int), bv, av),
        decreases keys@.len() - i,
    {
        let k = &keys[i];
        let va = last_value_of(&eb, k);
        let vb = last_value_of(&ea, k);
        let moved = match (&va, &vb) {
            (Some(x), Some(y)) => !chars_eq(x, y),
            _ => false,
        };
        assert(kv[i as int] == k@);
        assert(moved == value_changed_between(bv, av, k@)) by {
            reveal(value_changed_between);
        }
        let ghost old_out = seq_views(out@);
        if moved {
            proof {
                if old_out.contains(k@) {
                    let t = choose|t: int| 0 <= t < i && #[trigger] kv.take(i as int)[t] == k@;
                    assert(kv[t] == kv[i as int]);
                }
            }
            insert_sorted(&mut out, k.clone());
        }
        proof {
            lemma_lists_changed_step(old_out, seq_views(out@), kv, i as int, bv, av, moved);
        }
        i = i + 1;
    }
    assert(kv.take(keys@.len() as int) =~= kv);
    let r = strings_of(&out);
    assert forall|k: Seq<char>| string_views(r@).contains(k) <==> #[trigger] value_changed_between(
        before@,
        after@,
        k,
    ) by {
        if value_changed_between(before@, after@, k) {
            reveal(value_changed_between);
            assert(kv.contains(k));
        }
        if string_views(r@).contains(k) {
            assert(kv.contains(k));
        }
    }
    r
}


// ---------------------------------------------------------------------
// Reading back what was written
// ---------------------------------------------------------------------

/// One entry's jar line, without its line break.
pub open spec fn entry_line(e: EntryView) -> Seq<char> {
    e.domain + seq!['\t'] + e.include_sub + seq!['\t'] + e.path + seq!['\t'] + e.secure
        + seq!['\t'] + decimal(e.expiry as int) + seq!['\t'] + e.name + seq!['\t'] + e.value
}

/// A field that fits in a jar line: no tab, no line break.
pub open spec fn plain_field(f: Seq<char>) -> bool {
    free_of(f, '\t') && free_of(f, '\n')
}

/// An entry whose line reads back as itself: every field is plain, the
/// line does not start like a comment, and it does not end in `'\r'`
/// (which a reader takes for half of a `"\r\n"`).
pub open spec fn writable_entry(e: EntryView) -> bool {
    &&& plain_field(e.domain)
    &&& plain_field(e.include_sub)
    &&& plain_field(e.path)
    &&& plain_field(e.secure)
    &&& plain_field(e.name)
    &&& plain_field(e.value)
    &&& !(e.domain.len() > 0 && e.domain[0] == '#')
    &&& !(e.value.len() > 0 && e.value.last() == '\r')
}

proof fn lemma_decimal_plain(v: i64)
    ensures
        plain_field(decimal(v as int)),
        decimal(v as int).len() >= 1,
        !is_ws(decimal(v as int)[decimal(v as int).len() - 1]),
{
    lemma_decimal_roundtrip(v);
    let d = decimal(v as int);
    assert forall|i: int| 0 <= i < d.len() implies #[trigger] d[i] != '\t' by {
        assert(is_digit(d[i]) || d[i] == '-');
    }
    assert forall|i: int| 0 <= i < d.len() implies #[trigger] d[i] != '\n' by {
        assert(is_digit(d[i]) || d[i] == '-');
    }
    assert(is_digit(d[d.len() - 1]) || d[d.len() - 1] == '-');
    if v < 0 {
        assert(d.len() >= 2);
    }
}

/// The line of a writable entry reads back as the entry.
proof fn lemma_entry_line_reads_back(e: EntryView)
    requires
        writable_entry(e),
    ensures
        line_entry(entry_line(e), entry_line(e)) == Some(as_written(e)),
        free_of(entry_line(e), '\n'),
        strip_cr(entry_line(e)) == entry_line(e),
{
    let x = decimal(e.expiry as int);
    lemma_decimal_plain(e.expiry);
    lemma_decimal_roundtrip(e.expiry);
    let l0 = e.domain;
    let l1 = l0 + seq!['\t'] + e.include_sub;
    let l2 = l1 + seq!['\t'] + e.path;
    let l3 = l2 + seq!['\t'] + e.secure;
    let l4 = l3 + seq!['\t'] + x;
    let l5 = l4 + seq!['\t'] + e.name;
    let l6 = l5 + seq!['\t'] + e.value;
    assert(l6 == entry_line(e));
    lemma_split_plain(l0, '\t');
    lemma_split_field(l0, e.include_sub, '\t');
    lemma_split_field(l1, e.path, '\t');
    lemma_split_field(l2, e.secure, '\t');
    lemma_split_field(l3, x, '\t');
    lemma_split_field(l4, e.name, '\t');
    lemma_split_field(l5, e.value, '\t');
    let f = split(l6, '\t');
    assert(f =~= seq![e.domain, e.include_sub, e.path, e.secure, x, e.name, e.value]);
    // Not a comment, and not blank: the expiry's last character is a digit.
    let k = l4.len() - 1;
    assert(l6[k] == x[x.len() - 1]);
    lemma_trim_nonempty(l6, k);
    if e.domain.len() > 0 {
        assert(l6[0] == e.domain[0]);
    } else {
        assert(l6[0] == '\t');
    }
    // No line break anywhere, and no '\r' at the end.
    assert forall|i: int| 0 <= i < l6.len() implies #[trigger] l6[i] != '\n' by {
        if i < l5.len() {
            if i < l4.len() {
                if i < l3.len() {
                    if i < l2.len() {
                        if i < l1.len() {
                            if i < l0.len() {
                                assert(l6[i] == l0[i]);
                            } else if i > l0.len() {
                                assert(l6[i] == e.include_sub[i - l0.len() - 1]);
                            }
                        } else if i > l1.len() {
                            assert(l6[i] == e.path[i - l1.len() - 1]);
                        }
                    } else if i > l2.len() {
                        assert(l6[i] == e.secure[i - l2.len() - 1]);
                    }
                } else if i > l3.len() {
                    assert(l6[i] == x[i - l3.len() - 1]);
                }
            } else if i > l4.len() {
                assert(l6[i] == e.name[i - l4.len() - 1]);
            }
        } else if i > l5.len() {
            assert(l6[i] == e.value[i - l5.len() - 1]);
        }
    }
    if e.value.len() > 0 {
        assert(l6.last() == e.value.last());
    } else {
        assert(l6.last() == '\t');
    }
}

/// The first line of every jar the app writes.
pub open spec fn header_line() -> Seq<char> {
    "# Netscape HTTP Cookie File"@
}

proof fn lemma_header()
    ensures
        jar_header() == header_line().push('\n'),
        free_of(header_line(), '\n'),
        header_line().len() > 0 && header_line()[0] == '#',
        header_line().last() != '\r',
{
    reveal_strlit("# Netscape HTTP Cookie File\n");
    reveal_strlit("# Netscape HTTP Cookie File");
    assert(jar_header() =~= header_line().push('\n'));
}

/// An entry that a write and a read give back: one made or changed since
/// it was read (no stored line) whose fields fit a jar line, or one whose
/// stored line holds no line break and still reads as an entry.
pub open spec fn sound_entry(e: EntryView) -> bool {
    match e.raw {
        None => writable_entry(e),
        Some(r) => free_of(r, '\n') && line_entry(strip_cr(r), r) is Some,
    }
}

/// An entry carrying the line its fields are written as.
pub open spec fn as_written(e: EntryView) -> EntryView {
    EntryView { raw: Some(entry_line(e)), ..e }
}

/// The entry a written entry is read back as.
pub open spec fn reread(e: EntryView) -> EntryView {
    match line_entry(strip_cr(written_line(e)), written_line(e)) {
        Some(x) => x,
        None => e,
    }
}

proof fn lemma_sound_written(e: EntryView)
    requires
        sound_entry(e),
    ensures
        free_of(written_line(e), '\n'),
        line_entry(strip_cr(written_line(e)), written_line(e)) == Some(reread(e)),
        reread(e).raw == Some(written_line(e)),
        (e.raw is None) ==> reread(e) == as_written(e),
{
    if e.raw is None {
        lemma_entry_line_reads_back(e);
    }
}

/// The written lines of a sequence of entries.
pub open spec fn written_lines(es: Seq<EntryView>) -> Seq<Seq<char>> {
    es.map_values(|e: EntryView| written_line(e))
}

proof fn lemma_split_rendered(es: Seq<EntryView>)
    requires
        forall|i: int| 0 <= i < es.len() ==> sound_entry(#[trigger] es[i]),
    ensures
        split(render_jar(es), '\n') == seq![header_line()] + written_lines(es) + seq![
            Seq::<char>::empty(),
        ],
    decreases es.len(),
{
    lemma_header();
    if es.len() == 0 {
        assert(render_jar(es) =~= header_line().push('\n'));
        lemma_split_push_sep(header_line(), '\n');
        lemma_split_plain(header_line(), '\n');
        assert(seq![header_line()] + written_lines(es) + seq![Seq::<char>::empty()] =~= seq![
            header_line(),
        ].push(Seq::<char>::empty()));
    } else {
        let rest = es.drop_last();
        let e = es.last();
        assert forall|i: int| 0 <= i < rest.len() implies sound_entry(#[trigger] rest[i]) by {
            assert(rest[i] == es[i]);
        }
        lemma_split_rendered(rest);
        lemma_sound_written(e);
        let x = render_jar(rest);
        assert(render_jar(es) =~= (x + written_line(e)).push('\n'));
        lemma_split_append_plain(x, written_line(e), '\n');
        lemma_split_push_sep(x + written_line(e), '\n');
        let p = seq![header_line()] + written_lines(rest);
        assert(split(x, '\n') == p.push(Seq::<char>::empty()));
        assert(Seq::<char>::empty() + written_line(e) =~= written_line(e));
        assert(split(x + written_line(e), '\n') =~= p.push(written_line(e)));
        assert(written_lines(es) =~= written_lines(rest).push(written_line(e)));
        assert(seq![header_line()] + written_lines(es) + seq![Seq::<char>::empty()] =~= p.push(
            written_line(e),
        ).push(Seq::<char>::empty()));
    }
}

proof fn lemma_entries_of_written(es: Seq<EntryView>)
    requires
        forall|i: int| 0 <= i < es.len() ==> sound_entry(#[trigger] es[i]),
    ensures
        entries_of_lines(
            (seq![header_line()] + written_lines(es)).map_values(|l: Seq<char>| strip_cr(l)),
            seq![header_line()] + written_lines(es),
        ) == es.map_values(|e: EntryView| reread(e)),
    decreases es.len(),
{
    lemma_header();
    let rs = seq![header_line()] + written_lines(es);
    let ls = rs.map_values(|l: Seq<char>| strip_cr(l));
    if es.len() == 0 {
        assert(ls =~= seq![header_line()]);
        assert(ls.drop_last() =~= Seq::<Seq<char>>::empty());
        assert(rs.drop_last() =~= Seq::<Seq<char>>::empty());
        assert(entries_of_lines(ls.drop_last(), rs.drop_last()) =~= Seq::<EntryView>::empty());
        assert(is_skipped_line(header_line()));
        assert(line_entry(ls.last(), rs[0]) is None);
        assert(es.map_values(|e: EntryView| reread(e)) =~= Seq::<EntryView>::empty());
    } else {
        let rest = es.drop_last();
        assert forall|i: int| 0 <= i < rest.len() implies sound_entry(#[trigger] rest[i]) by {
            assert(rest[i] == es[i]);
        }
        lemma_entries_of_written(rest);
        lemma_sound_written(es.last());
        let rs0 = seq![header_line()] + written_lines(rest);
        assert(rs.drop_last() =~= rs0);
        assert(ls.drop_last() =~= rs0.map_values(|l: Seq<char>| strip_cr(l)));
        assert(rs[ls.len() - 1] == written_line(es.last()));
        assert(ls.last() == strip_cr(written_line(es.last())));
        let prev = entries_of_lines(ls.drop_last(), rs.drop_last());
        assert(prev == rest.map_values(|e: EntryView| reread(e)));
        assert(line_entry(ls.last(), rs[ls.len() - 1]) == Some(reread(es.last())));
        assert(entries_of_lines(ls, rs) == prev.push(reread(es.last())));
        assert(es.map_values(|e: EntryView| reread(e)) =~= rest.map_values(|e: EntryView| reread(e)).push(
            reread(es.last()),
        ));
    }
}

/// What a jar write gives a read back: the entries in order, each as
/// `reread` gives it. One made or changed since it was read comes back
/// with the same fields (when they fit a jar line, see
/// `writable_entry`); every one comes back carrying the line it was
/// written as.
pub proof fn law_jar_read_gives_back_write(es: Seq<EntryView>)
    requires
        forall|i: int| 0 <= i < es.len() ==> sound_entry(#[trigger] es[i]),
    ensures
        parse_jar(render_jar(es)) == es.map_values(|e: EntryView| reread(e)),
        forall|i: int|
            0 <= i < es.len() ==> (#[trigger] reread(es[i])).raw == Some(written_line(es[i])),
        forall|i: int|
            0 <= i < es.len() && (es[i].raw is None) ==> #[trigger] reread(es[i]) == as_written(
                es[i],
            ),
{
    lemma_split_rendered(es);
    lemma_header();
    let p = split(render_jar(es), '\n');
    let rs = seq![header_line()] + written_lines(es);
    assert(p.drop_last() =~= rs);
    assert(p.last().len() == 0);
    assert(stored_lines(render_jar(es)) == rs);
    assert(lines(render_jar(es)) == rs.map_values(|l: Seq<char>| strip_cr(l)));
    lemma_entries_of_written(es);
    assert forall|i: int| 0 <= i < es.len() implies (#[trigger] reread(es[i])).raw == Some(
        written_line(es[i]),
    ) by {
        lemma_sound_written(es[i]);
    }
    assert forall|i: int| 0 <= i < es.len() && (es[i].raw is None) implies #[trigger] reread(es[i])
        == as_written(es[i]) by {
        lemma_sound_written(es[i]);
    }
}

// ---------------------------------------------------------------------
// What reading a jar gives
// ---------------------------------------------------------------------

/// Two readings of one stored line that agree but for a `'\r'` that the
/// first may keep at the end of its value.
pub open spec fn close_entries(a: EntryView, b: EntryView) -> bool {
    &&& a.domain == b.domain
    &&& a.include_sub == b.include_sub
    &&& a.path == b.path
    &&& a.secure == b.secure
    &&& a.expiry == b.expiry
    &&& a.name == b.name
    &&& a.raw == b.raw
    &&& (a.value == b.value || a.value == b.value.push('\r'))
}

/// An entry as reading a jar gives it: its stored line holds no line
/// break and, read again with a `'\r'` at its end dropped, gives the same
/// entry (but maybe for that `'\r'`); its fields other than the value
/// fit in a jar line, and its domain does not start like a comment.
pub open spec fn read_entry_ok(e: EntryView) -> bool {
    &&& match e.raw {
        Some(r) => free_of(r, '\n') && match line_entry(strip_cr(r), r) {
            Some(b) => close_entries(e, b),
            None => false,
        },
        None => false,
    }
    &&& plain_field(e.domain)
    &&& plain_field(e.include_sub)
    &&& plain_field(e.path)
    &&& plain_field(e.secure)
    &&& plain_field(e.name)
    &&& !(e.domain.len() > 0 && e.domain[0] == '#')
}

proof fn lemma_line_fields_plain(l: Seq<char>, raw: Seq<char>)
    requires
        free_of(l, '\n'),
    ensures
        line_entry(l, raw) matches Some(e) ==> plain_field(e.domain) && plain_field(e.include_sub)
            && plain_field(e.path) && plain_field(e.secure) && plain_field(e.name) && !(
        e.domain.len() > 0 && e.domain[0] == '#'),
{
    lemma_split_pieces(l, '\t', '\n');
    let f = split(l, '\t');
    if line_entry(l, raw) is Some {
        assert(free_of(f[0], '\t') && free_of(f[0], '\n'));
        assert(free_of(f[1], '\t') && free_of(f[1], '\n'));
        assert(free_of(f[2], '\t') && free_of(f[2], '\n'));
        assert(free_of(f[3], '\t') && free_of(f[3], '\n'));
        assert(free_of(f[5], '\t') && free_of(f[5], '\n'));
        if f[0].len() > 0 {
            assert(f[0][0] == l[0]);
        }
    }
}

/// Dropping a `'\r'` that ends a line changes at most the end of the
/// value it reads as.
proof fn lemma_line_entry_strip_cr(l: Seq<char>, raw: Seq<char>)
    ensures
        line_entry(l, raw) matches Some(a) ==> line_entry(strip_cr(l), raw) matches Some(b)
            && close_entries(a, b),
{
    if l.len() > 0 && l.last() == '\r' && line_entry(l, raw) is Some {
        let l0 = l.drop_last();
        assert(strip_cr(l) == l0);
        if forall|i: int| 0 <= i < l0.len() ==> is_ws(#[trigger] l0[i]) {
            assert forall|i: int| 0 <= i < l.len() implies is_ws(#[trigger] l[i]) by {
                if i < l0.len() {
                    assert(l[i] == l0[i]);
                }
            }
            lemma_trim_all_ws(l);
            assert(false);
        }
        let i = choose|i: int| 0 <= i < l0.len() && !is_ws(#[trigger] l0[i]);
        lemma_trim_nonempty(l0, i);
        assert(l0[0] == l[0]);
        assert(!is_skipped_line(l0));
        let f0 = split(l0, '\t');
        let f = split(l, '\t');
        lemma_split_nonempty(l0, '\t');
        assert(f == f0.update(f0.len() - 1, f0.last().push('\r')));
        assert(f0.len() >= 7);
        assert(f[0] == f0[0] && f[1] == f0[1] && f[2] == f0[2] && f[3] == f0[3]);
        assert(f[4] == f0[4] && f[5] == f0[5]);
        if f0.len() - 1 == 6 {
            assert(f[6] == f0[6].push('\r'));
        } else {
            assert(f[6] == f0[6]);
        }
    }
}

proof fn lemma_line_ok(l: Seq<char>, r: Seq<char>)
    requires
        free_of(r, '\n'),
        l == strip_cr(r) || l == r,
    ensures
        line_entry(l, r) matches Some(e) ==> read_entry_ok(e),
{
    assert(free_of(l, '\n')) by {
        assert forall|i: int| 0 <= i < l.len() implies #[trigger] l[i] != '\n' by {
            assert(l[i] == r[i]);
        }
    }
    lemma_line_fields_plain(l, r);
    lemma_line_entry_strip_cr(r, r);
}

proof fn lemma_entries_ok(ls: Seq<Seq<char>>, rs: Seq<Seq<char>>)
    requires
        ls.len() == rs.len(),
        forall|i: int|
            0 <= i < ls.len() ==> free_of(#[trigger] rs[i], '\n') && (ls[i] == strip_cr(rs[i])
                || ls[i] == rs[i]),
    ensures
        forall|j: int|
            0 <= j < entries_of_lines(ls, rs).len() ==> read_entry_ok(
                #[trigger] entries_of_lines(ls, rs)[j],
            ),
    decreases ls.len(),
{
    if ls.len() > 0 {
        let ls0 = ls.drop_last();
        let rs0 = rs.drop_last();
        assert forall|i: int| 0 <= i < ls0.len() implies free_of(#[trigger] rs0[i], '\n') && (ls0[i]
            == strip_cr(rs0[i]) || ls0[i] == rs0[i]) by {
            assert(rs0[i] == rs[i] && ls0[i] == ls[i]);
        }
        lemma_entries_ok(ls0, rs0);
        let k = ls.len() - 1;
        assert(free_of(rs[k], '\n') && (ls[k] == strip_cr(rs[k]) || ls[k] == rs[k]));
        lemma_line_ok(ls.last(), rs[k]);
        let prev = entries_of_lines(ls0, rs0);
        let all = entries_of_lines(ls, rs);
        assert forall|j: int| 0 <= j < all.len() implies read_entry_ok(#[trigger] all[j]) by {
            if j < prev.len() {
                assert(all[j] == prev[j]);
            }
        }
    }
}

/// Every entry a read gives is as `read_entry_ok` says.
pub proof fn lemma_parse_entries_ok(jar: Seq<char>)
    ensures
        forall|j: int| 0 <= j < parse_jar(jar).len() ==> read_entry_ok(#[trigger] parse_jar(jar)[j]),
{
    lemma_split_pieces(jar, '\n', '\n');
    lemma_split_nonempty(jar, '\n');
    let p = split(jar, '\n');
    let ls = lines(jar);
    let rs = stored_lines(jar);
    assert forall|i: int| 0 <= i < ls.len() implies free_of(#[trigger] rs[i], '\n') && (ls[i]
        == strip_cr(rs[i]) || ls[i] == rs[i]) by {
        assert(rs[i] == p[i]);
        if i < p.len() - 1 {
            assert(ls[i] == strip_cr(p[i]));
        }
    }
    lemma_entries_ok(ls, rs);
}

/// An entry read from a jar is sound: a write and a read give it back.
pub proof fn lemma_read_entry_sound(e: EntryView)
    requires
        read_entry_ok(e),
    ensures
        sound_entry(e),
        reread(e) == line_entry(strip_cr(written_line(e)), written_line(e))->Some_0,
        close_entries(e, reread(e)),
{
}

// ---------------------------------------------------------------------
// Who is sent what
// ---------------------------------------------------------------------

proof fn lemma_pairs_hold_entry(es: Seq<EntryView>, host: Seq<char>, i: int)
    requires
        0 <= i < es.len(),
        ({
            let d = strip_leading(es[i].domain, '.');
            host == d || (es[i].include_sub == "TRUE"@ && has_suffix(host, seq!['.'] + d))
        }),
    ensures
        header_pairs(es, host).contains(es[i].name + seq!['='] + es[i].value),
    decreases es.len(),
{
    let rest = es.drop_last();
    let p = es[i].name + seq!['='] + es[i].value;
    if i == es.len() - 1 {
        let hp = header_pairs(es, host);
        assert(hp == header_pairs(rest, host).push(p));
        assert(hp[hp.len() - 1] == p);
    } else {
        assert(rest[i] == es[i]);
        lemma_pairs_hold_entry(rest, host, i);
        let q = header_pairs(rest, host);
        let t = choose|t: int| 0 <= t < q.len() && q[t] == p;
        if entry_matches_host(es.last(), host) {
            assert(header_pairs(es, host)[t] == p);
        } else {
            assert(header_pairs(es, host) == q);
        }
    }
}

/// Each piece of a joined list occurs in the joined text.
proof fn lemma_join_holds_piece(ps: Seq<Seq<char>>, sep: Seq<char>, k: int)
    requires
        0 <= k < ps.len(),
    ensures
        contains_run(join(ps, sep), ps[k]),
    decreases ps.len(),
{
    let x = ps[k];
    if ps.len() == 1 {
        let z: int = 0;
        assert(join(ps, sep) == x);
        assert(join(ps, sep).subrange(z, z + x.len()) =~= x);
        assert(contains_run(join(ps, sep), x));
    } else {
        let pre = join(ps.drop_last(), sep);
        assert(join(ps, sep) == pre + sep + ps.last());
        if k == ps.len() - 1 {
            let at = (pre.len() + sep.len()) as int;
            assert(join(ps, sep).subrange(at, at + x.len()) =~= x);
            assert(contains_run(join(ps, sep), x));
        } else {
            assert(ps.drop_last()[k] == x);
            lemma_join_holds_piece(ps.drop_last(), sep, k);
            let at = choose|at: int|
                0 <= at && at + x.len() <= pre.len() && #[trigger] pre.subrange(at, at + x.len()) == x;
            assert(join(ps, sep).subrange(at, at + x.len()) =~= pre.subrange(at, at + x.len()));
            assert(contains_run(join(ps, sep), x));
        }
    }
}

/// Every jar entry for the host itself (its domain, leading dots
/// dropped, is the host) and every subdomain-wide (`TRUE`) entry for a
/// domain the host sits below is sent: its `name=value` is in the host's
/// `Cookie:` header.
pub proof fn law_header_sends_matching_entries(jar: Seq<char>, host: Seq<char>, i: int)
    requires
        0 <= i < parse_jar(jar).len(),
        ({
            let e = parse_jar(jar)[i];
            let d = strip_leading(e.domain, '.');
            host == d || (e.include_sub == "TRUE"@ && has_suffix(host, seq!['.'] + d))
        }),
    ensures
        contains_run(
            cookie_header(jar, host),
            parse_jar(jar)[i].name + seq!['='] + parse_jar(jar)[i].value,
        ),
{
    let es = parse_jar(jar);
    let p = es[i].name + seq!['='] + es[i].value;
    lemma_pairs_hold_entry(es, host, i);
    let ps = header_pairs(es, host);
    let k = choose|k: int| 0 <= k < ps.len() && ps[k] == p;
    lemma_join_holds_piece(ps, "; "@, k);
}

proof fn lemma_pairs_come_from_entries(es: Seq<EntryView>, host: Seq<char>)
    ensures
        forall|t: int|
            0 <= t < header_pairs(es, host).len() ==> exists|i: int|
                0 <= i < es.len() && #[trigger] header_pairs(es, host)[t] == es[i].name + seq!['=']
                    + es[i].value && ({
                    let d = strip_leading(es[i].domain, '.');
                    host == d || (es[i].include_sub == "TRUE"@ && has_suffix(host, seq!['.'] + d))
                }),
    decreases es.len(),
{
    if es.len() > 0 {
        let rest = es.drop_last();
        lemma_pairs_come_from_entries(rest, host);
        let hp = header_pairs(es, host);
        let q = header_pairs(rest, host);
        assert forall|t: int| 0 <= t < hp.len() implies exists|i: int|
            0 <= i < es.len() && #[trigger] hp[t] == es[i].name + seq!['='] + es[i].value && ({
                let d = strip_leading(es[i].domain, '.');
                host == d || (es[i].include_sub == "TRUE"@ && has_suffix(host, seq!['.'] + d))
            }) by {
            if t < q.len() {
                assert(hp[t] == q[t]);
                let i = choose|i: int|
                    0 <= i < rest.len() && #[trigger] q[t] == rest[i].name + seq!['='] + rest[i].value
                        && ({
                        let d = strip_leading(rest[i].domain, '.');
                        host == d || (rest[i].include_sub == "TRUE"@ && has_suffix(
                            host,
                            seq!['.'] + d,
                        ))
                    });
                assert(rest[i] == es[i]);
            } else {
                assert(hp[t] == es[es.len() - 1].name + seq!['='] + es[es.len() - 1].value);
            }
        }
    }
}

/// Only those entries are sent: every `name=value` pair of a host's
/// `Cookie:` header comes from a jar entry for the host itself or a
/// subdomain-wide entry for a domain the host sits below.
pub proof fn law_header_sends_only_matching_entries(jar: Seq<char>, host: Seq<char>)
    ensures
        forall|t: int|
            0 <= t < header_pairs(parse_jar(jar), host).len() ==> exists|i: int|
                0 <= i < parse_jar(jar).len() && #[trigger] header_pairs(parse_jar(jar), host)[t]
                    == parse_jar(jar)[i].name + seq!['='] + parse_jar(jar)[i].value && ({
                    let d = strip_leading(parse_jar(jar)[i].domain, '.');
                    host == d || (parse_jar(jar)[i].include_sub == "TRUE"@ && has_suffix(
                        host,
                        seq!['.'] + d,
                    ))
                }),
{
    lemma_pairs_come_from_entries(parse_jar(jar), host);
}

} // verus!
