use silicon_music::jar::{
    changed_cookie_names, jar_cookie_keys, jar_cookie_values, read_jar, write_jar, JarEntry,
};

const BEFORE: &str = "# Netscape HTTP Cookie File\n\
.youtube.com\tTRUE\t/\tTRUE\t1800000000\tSIDCC\told\n\
.youtube.com\tTRUE\t/\tTRUE\t1800000000\tSAPISID\tsame\n\
.google.com\tTRUE\t/\tTRUE\t1800000000\tNID\tn1\n\
# a comment\n\
\n\
broken line\n";

const AFTER: &str = "# Netscape HTTP Cookie File\n\
.youtube.com\tTRUE\t/\tTRUE\t1900000000\tSIDCC\tnew\n\
.youtube.com\tTRUE\t/\tTRUE\t1900000000\tSAPISID\tsame\n\
.youtube.com\tTRUE\t/\tTRUE\t1900000000\tLOGIN_INFO\tfresh\n\
.google.com\tTRUE\t/\tTRUE\t1800000000\tNID\tn2\n";

#[test]
fn keys_are_domain_and_name_of_every_entry() {
    let mut keys = jar_cookie_keys(BEFORE);
    keys.sort();
    assert_eq!(
        keys,
        vec![
            ".google.com NID".to_string(),
            ".youtube.com SAPISID".to_string(),
            ".youtube.com SIDCC".to_string(),
        ]
    );
}

#[test]
fn repeated_keys_are_listed_once() {
    let jar = ".a.com\tTRUE\t/\tTRUE\t1\tX\t1\n.a.com\tTRUE\t/\tTRUE\t1\tX\t2\n";
    assert_eq!(jar_cookie_keys(jar), vec![".a.com X".to_string()]);
    assert!(jar_cookie_keys("").is_empty());
}

#[test]
fn values_keep_the_last_entry_of_a_key() {
    let jar = ".a.com\tTRUE\t/\tTRUE\t1\tX\t1\n.b.com\tTRUE\t/\tTRUE\t1\tY\ty\n.a.com\tTRUE\t/\tTRUE\t1\tX\t2\n";
    let values = jar_cookie_values(jar);
    assert_eq!(
        values,
        vec![
            (".a.com X".to_string(), "2".to_string()),
            (".b.com Y".to_string(), "y".to_string()),
        ]
    );
}

#[test]
fn changed_names_are_the_sorted_keys_whose_value_moved() {
    assert_eq!(
        changed_cookie_names(BEFORE, AFTER),
        vec![".google.com NID".to_string(), ".youtube.com SIDCC".to_string()]
    );
    assert!(changed_cookie_names(AFTER, AFTER).is_empty());
    assert!(changed_cookie_names(BEFORE, "").is_empty());
}

fn entry(domain: &str, name: &str, value: &str, expiry: i64) -> JarEntry {
    JarEntry {
        domain: domain.chars().collect(),
        include_sub: "TRUE".chars().collect(),
        path: "/".chars().collect(),
        secure: "TRUE".chars().collect(),
        expiry,
        name: name.chars().collect(),
        value: value.chars().collect(),
        raw: None,
    }
}

#[test]
fn a_written_jar_reads_back_entry_for_entry() {
    let es = vec![
        entry(".youtube.com", "SAPISID", "abc/def", 1_800_000_000),
        entry(".google.com", "NID", "", -5),
        entry("", "X", "v w", 0),
    ];
    let text = write_jar(&es);
    assert!(text.starts_with("# Netscape HTTP Cookie File\n"));
    let chars: Vec<char> = text.chars().collect();
    let back = read_jar(&chars);
    assert_eq!(back.len(), es.len());
    for (a, b) in back.iter().zip(es.iter()) {
        assert_eq!(a.domain, b.domain);
        assert_eq!(a.include_sub, b.include_sub);
        assert_eq!(a.path, b.path);
        assert_eq!(a.secure, b.secure);
        assert_eq!(a.expiry, b.expiry);
        assert_eq!(a.name, b.name);
        assert_eq!(a.value, b.value);
    }
}

#[test]
fn a_read_entry_is_written_back_as_its_stored_line() {
    let text = "# Netscape HTTP Cookie File\r\n.youtube.com\tTRUE\t/\tTRUE\t007\tA\tb\textra\r\n";
    let chars: Vec<char> = text.chars().collect();
    let back = read_jar(&chars);
    assert_eq!(back.len(), 1);
    assert_eq!(back[0].expiry, 7);
    let expected: Vec<char> = ".youtube.com\tTRUE\t/\tTRUE\t007\tA\tb\textra\r".chars().collect();
    assert_eq!(back[0].raw, Some(expected));
    let out = write_jar(&back);
    assert_eq!(
        out,
        "# Netscape HTTP Cookie File\n.youtube.com\tTRUE\t/\tTRUE\t007\tA\tb\textra\r\n"
    );
}
