use silicon_music::auth::{
    cookies_to_netscape, has_google_auth, has_login_info, has_youtube_auth, page_is_signed_in,
    WebCookie,
};
use silicon_music::power::{has_internet, init, network_wait_step, ConnectivityLevel, NetworkWait};

fn wc(name: &str, value: &str, domain: Option<&str>) -> WebCookie {
    WebCookie {
        name: name.to_string(),
        value: value.to_string(),
        domain: domain.map(|d| d.to_string()),
        path: None,
        secure: None,
        expires: None,
    }
}

#[test]
fn only_routed_connectivity_counts_as_internet() {
    assert_eq!(has_internet(Some(ConnectivityLevel::InternetAccess)), Some(true));
    assert_eq!(has_internet(Some(ConnectivityLevel::ConstrainedInternetAccess)), Some(true));
    assert_eq!(has_internet(Some(ConnectivityLevel::LocalAccess)), Some(false));
    assert_eq!(has_internet(Some(ConnectivityLevel::NoAccess)), Some(false));
    assert_eq!(has_internet(Some(ConnectivityLevel::Hidden)), Some(false));
    assert_eq!(has_internet(Some(ConnectivityLevel::Unknown)), Some(false));
    assert_eq!(has_internet(None), None);
}

#[test]
fn registration_failure_names_the_code() {
    assert_eq!(init(0), Ok(()));
    assert_eq!(
        init(87),
        Err("PowerRegisterSuspendResumeNotification failed: 87".to_string())
    );
}

#[test]
fn the_network_wait_only_stops_on_a_definite_no() {
    assert!(matches!(network_wait_step(Some(true), false), NetworkWait::Proceed));
    assert!(matches!(network_wait_step(None, true), NetworkWait::Proceed));
    assert!(matches!(network_wait_step(Some(false), false), NetworkWait::Retry));
    assert!(matches!(network_wait_step(Some(false), true), NetworkWait::GiveUp));
}

#[test]
fn webview_stores_are_checked_by_name_and_domain() {
    let store = vec![
        wc("SAPISID", "a", Some(".youtube.com")),
        wc("LOGIN_INFO", "b", Some("youtube.com")),
        wc("SID", "c", Some(".google.com")),
    ];
    assert!(has_youtube_auth(&store));
    assert!(has_login_info(&store));
    assert!(has_google_auth(&store));
    let google_only = vec![wc("SAPISID", "a", Some(".google.com"))];
    assert!(!has_youtube_auth(&google_only));
    assert!(has_google_auth(&google_only));
    let no_domain = vec![wc("SAPISID", "a", None)];
    assert!(!has_youtube_auth(&no_domain));
}

#[test]
fn a_captured_store_becomes_a_jar_of_google_and_youtube_cookies() {
    let mut sapisid = wc("SAPISID", "v1", Some("youtube.com"));
    sapisid.secure = Some(true);
    sapisid.expires = Some(1_800_000_000);
    let mut nid = wc("NID", "v2", Some(".google.com"));
    nid.path = Some("/x".to_string());
    let store = vec![sapisid, wc("tracker", "t", Some(".example.com")), nid, wc("X", "y", None)];
    assert_eq!(
        cookies_to_netscape(&store),
        "# Netscape HTTP Cookie File\n\
.youtube.com\tTRUE\t/\tTRUE\t1800000000\tSAPISID\tv1\n\
.google.com\tTRUE\t/x\tFALSE\t0\tNID\tv2\n"
    );
}

#[test]
fn the_home_page_tells_a_signed_in_session() {
    assert!(page_is_signed_in("...{\"LOGGED_IN\":true,\"x\":1}..."));
    assert!(!page_is_signed_in("...{\"LOGGED_IN\":false}..."));
    assert!(!page_is_signed_in(""));
}
