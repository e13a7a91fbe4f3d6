use silicon_music::auth::header_has_auth_cookie;
use silicon_music::jar::cookie_header_for_host;
use silicon_music::merge::merge_set_cookies_into_jar;

const NOW: i64 = 1_700_000_000;
const HOST: &str = "music.youtube.com";

fn jar() -> String {
    "# Netscape HTTP Cookie File\n\
     .youtube.com\tTRUE\t/\tTRUE\t1800000000\tSAPISID\told-sapisid\n\
     .youtube.com\tTRUE\t/\tTRUE\t1800000000\tSIDCC\told-sidcc\n"
        .to_string()
}

#[test]
fn merge_replaces_rotated_value() {
    let lines = vec![
        "SIDCC=new-sidcc; Domain=.youtube.com; Path=/; Secure; Max-Age=31536000".to_string(),
    ];
    let m = merge_set_cookies_into_jar(&jar(), &lines, HOST, NOW);
    assert!(m.value_changed && m.needs_write);
    assert!(m.jar.contains("SIDCC\tnew-sidcc"));
    assert!(!m.jar.contains("old-sidcc"));
    assert!(
        m.jar.contains("SAPISID\told-sapisid"),
        "untouched cookie survives"
    );
}

#[test]
fn merge_inserts_new_cookie_with_domain() {
    let lines = vec![
        "LOGIN_INFO=abc; Domain=.youtube.com; Path=/; Secure; HttpOnly; Max-Age=63072000"
            .to_string(),
    ];
    let m = merge_set_cookies_into_jar(&jar(), &lines, HOST, NOW);
    assert!(m.value_changed);
    assert!(m
        .jar
        .contains(".youtube.com\tTRUE\t/\tTRUE\t1763072000\tLOGIN_INFO\tabc"));
}

#[test]
fn merge_inserts_host_only_cookie_under_response_host() {
    let lines = vec!["PZS=1; Path=/; Secure; Max-Age=600".to_string()];
    let m = merge_set_cookies_into_jar(&jar(), &lines, HOST, NOW);
    assert!(m.value_changed);
    assert!(m.jar.contains(".music.youtube.com\tTRUE\t/\tTRUE"));
}

#[test]
fn merge_removes_expired_cookie() {
    let lines = vec!["SIDCC=gone; Domain=.youtube.com; Path=/; Max-Age=0".to_string()];
    let m = merge_set_cookies_into_jar(&jar(), &lines, HOST, NOW);
    assert!(m.value_changed);
    assert!(!m.jar.contains("SIDCC"));
}

#[test]
fn merge_refuses_to_delete_identity_cookies() {
    let lines = vec![
        "SAPISID=EXPIRED; Domain=.youtube.com; Path=/; Max-Age=0".to_string(),
        "SIDCC=gone; Domain=.youtube.com; Path=/; Max-Age=0".to_string(),
    ];
    let m = merge_set_cookies_into_jar(&jar(), &lines, HOST, NOW);
    assert!(
        m.jar.contains("SAPISID\told-sapisid"),
        "identity cookie must survive a server expiry"
    );
    assert!(!m.jar.contains("SIDCC"), "rotation cookies stay deletable");
    assert_eq!(m.blocked_deletions, vec!["youtube.com SAPISID".to_string()]);
}

#[test]
fn merge_rejects_a_domain_the_response_host_is_not_under() {
    let lines = vec!["EVIL=1; Domain=.google.com; Path=/; Secure; Max-Age=1000".to_string()];
    let m = merge_set_cookies_into_jar(&jar(), &lines, HOST, NOW);
    assert!(!m.value_changed && !m.needs_write);
    assert_eq!(m.jar, jar(), "jar must be untouched");
}

#[test]
fn merge_ignores_foreign_domains() {
    let lines = vec![
        "tracker=1; Domain=.example.com; Path=/; Max-Age=1000".to_string(),
        "__cf_bm=x; Domain=.genius.com; Path=/; Max-Age=1000".to_string(),
    ];
    let m = merge_set_cookies_into_jar(&jar(), &lines, HOST, NOW);
    assert!(!m.value_changed && !m.needs_write);
    assert_eq!(m.jar, jar(), "jar must be untouched");
}

#[test]
fn auth_check_ignores_prefix_lookalike_cookies() {
    assert!(!header_has_auth_cookie(
        "__Secure-1PSIDTS=a; __Secure-1PSIDCC=b; SIDCC=c"
    ));
}

#[test]
fn auth_check_needs_both_an_apisid_and_a_sid() {
    assert!(!header_has_auth_cookie("SAPISID=a; SIDCC=b"));
    assert!(!header_has_auth_cookie("__Secure-1PSID=a; YSC=b"));
    assert!(header_has_auth_cookie("SAPISID=a; __Secure-1PSID=b"));
    assert!(header_has_auth_cookie("__Secure-3PAPISID=a; SID=b"));
}

#[test]
fn auth_check_tolerates_spacing_and_empty_input() {
    assert!(header_has_auth_cookie("  SAPISID=a ;   SID=b  "));
    assert!(!header_has_auth_cookie(""));
}

#[test]
fn merge_expiry_only_refresh_persists_without_cache_reset() {
    let lines = vec![
        "SIDCC=old-sidcc; Domain=.youtube.com; Path=/; Secure; Max-Age=31536000".to_string(),
    ];
    let m = merge_set_cookies_into_jar(&jar(), &lines, HOST, NOW);
    let (out, changed, dirty) = (m.jar, m.value_changed, m.needs_write);
    assert!(!changed, "same value must not invalidate the header cache");
    assert!(dirty, "but the fresher expiry should be written");
    assert!(out.contains(&format!("{}", NOW + 31_536_000)));
}

#[test]
fn a_rotated_value_is_what_the_next_header_sends() {
    let lines = vec!["SIDCC=rotated; Domain=.youtube.com; Path=/; Secure; Max-Age=600".to_string()];
    let m = merge_set_cookies_into_jar(&jar(), &lines, HOST, NOW);
    let header = cookie_header_for_host(&m.jar, HOST);
    assert_eq!(header, "SAPISID=old-sapisid; SIDCC=rotated");
    assert_eq!(cookie_header_for_host(&m.jar, "example.com"), "");
}

#[test]
fn merge_keeps_untouched_lines_byte_for_byte() {
    let jar = "# Netscape HTTP Cookie File\n\
               .youtube.com\tTRUE\t/\tTRUE\t007\tSAPISID\told-sapisid\textra\r\n\
               .youtube.com\tTRUE\t/\tTRUE\t+5\tSIDCC\told-sidcc\n";
    let lines = vec!["SIDCC=new; Domain=.youtube.com; Path=/; Secure; Max-Age=600".to_string()];
    let m = merge_set_cookies_into_jar(jar, &lines, HOST, NOW);
    assert!(m.jar.contains(".youtube.com\tTRUE\t/\tTRUE\t007\tSAPISID\told-sapisid\textra\r\n"));
    assert!(m.jar.contains(&format!(".youtube.com\tTRUE\t/\tTRUE\t{}\tSIDCC\tnew\n", NOW + 600)));
    assert!(m.value_changed);
}

#[test]
fn merge_with_the_same_value_and_expiry_leaves_the_line_alone() {
    let jar = "# Netscape HTTP Cookie File\n.youtube.com\tTRUE\t/\tTRUE\t+0\tSIDCC\tsame\n";
    let lines = vec!["SIDCC=same; Domain=.youtube.com; Path=/".to_string()];
    let m = merge_set_cookies_into_jar(jar, &lines, HOST, NOW);
    assert_eq!(m.jar, jar);
    assert!(!m.value_changed);
    assert!(!m.needs_write);
}

#[test]
fn merge_skips_cookies_that_a_jar_line_cannot_hold() {
    let planted = "X=a\n.evil.com\tTRUE\t/\tFALSE\t0\tY\tz; Domain=.youtube.com".to_string();
    let tabbed = "T=a\tb; Domain=.youtube.com".to_string();
    let m = merge_set_cookies_into_jar(&jar(), &[planted, tabbed], HOST, NOW);
    assert_eq!(m.jar, jar());
    assert!(!m.value_changed);
    assert!(!m.needs_write);
    assert_eq!(cookie_header_for_host(&m.jar, "evil.com"), "");
}

#[test]
fn merging_the_same_lines_twice_changes_nothing_the_second_time() {
    let lines = vec![
        "SIDCC=rotated; Domain=.youtube.com; Path=/; Secure; Max-Age=600".to_string(),
        "NEW=1; Domain=.youtube.com; Path=/".to_string(),
        "SAPISID=; Domain=.youtube.com; Max-Age=0".to_string(),
    ];
    let m1 = merge_set_cookies_into_jar(&jar(), &lines, HOST, NOW);
    let m2 = merge_set_cookies_into_jar(&m1.jar, &lines, HOST, NOW);
    assert_eq!(m2.jar, m1.jar);
    assert!(!m2.value_changed);
    assert!(!m2.needs_write);
    assert_eq!(m2.blocked_deletions, m1.blocked_deletions);
    assert_eq!(m1.blocked_deletions, vec!["youtube.com SAPISID".to_string()]);
}
