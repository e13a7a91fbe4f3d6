use silicon_music::session::{needs_boot_renewal, BOOT_RENEW_AFTER_SECS};

#[test]
fn a_missing_stamp_renews() {
    assert!(needs_boot_renewal(None, 1_000_000));
}

#[test]
fn a_fresh_stamp_does_not() {
    let now = 1_000_000;
    assert!(!needs_boot_renewal(Some(now - 60), now));
    assert!(!needs_boot_renewal(Some(now - BOOT_RENEW_AFTER_SECS), now));
}

#[test]
fn an_old_stamp_renews() {
    let now = 1_000_000;
    assert!(needs_boot_renewal(Some(now - BOOT_RENEW_AFTER_SECS - 1), now));
    assert!(needs_boot_renewal(Some(now - 10 * 3600), now));
}
