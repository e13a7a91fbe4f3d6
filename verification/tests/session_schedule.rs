use silicon_music::session::{
    backoff_wait, bridge_step, capture_is_alive, is_sign_in_flow_host, parse_last_refresh,
    settle_refresh, BridgeStep, KeeperTick, KeeperWait, LoginPoll, LoginTick, RefreshAttempt,
    RefreshFailure, RefreshSchedule, SessionRenewal, KEEPER_RELOAD_TICKS, REFRESH_INTERVAL_SECS,
    REFRESH_SHORT_RETRY_SECS, REFRESH_TICK_SECS, REFRESH_UNCONFIRMED_RETRY_SECS,
};

#[test]
fn the_refresh_stamp_parses_with_whitespace() {
    assert_eq!(parse_last_refresh(" 1700000000\n"), Some(1_700_000_000));
    assert_eq!(parse_last_refresh("-5"), Some(-5));
    assert_eq!(parse_last_refresh("soon"), None);
    assert_eq!(parse_last_refresh(""), None);
    assert_eq!(parse_last_refresh("99999999999999999999"), None);
}

#[test]
fn failures_have_stable_reasons_and_messages() {
    assert_eq!(RefreshFailure::NeedsRelink.reason(), "needs-relink");
    assert_eq!(RefreshFailure::NoProfile.reason(), "no-profile");
    assert_eq!(RefreshFailure::Offline.reason(), "offline");
    assert_eq!(RefreshFailure::Other("disk".to_string()).reason(), "error");
    assert_eq!(RefreshFailure::Offline.message(), "no internet");
    assert_eq!(RefreshFailure::NoProfile.message(), "no persisted webview profile");
    assert_eq!(RefreshFailure::Other("disk full".to_string()).message(), "disk full");
}

#[test]
fn only_a_lost_session_marks_relink_and_boot_failures_reach_the_ui() {
    let s = settle_refresh(false, &RefreshFailure::NeedsRelink);
    assert!(s.mark_needs_relink && s.notify_ui);
    let s = settle_refresh(false, &RefreshFailure::Offline);
    assert!(!s.mark_needs_relink && !s.notify_ui);
    let s = settle_refresh(true, &RefreshFailure::Other("x".to_string()));
    assert!(!s.mark_needs_relink && s.notify_ui);
}

#[test]
fn backoff_grows_then_caps_at_the_interval() {
    assert_eq!(backoff_wait(1), 30);
    assert_eq!(backoff_wait(2), 120);
    assert_eq!(backoff_wait(3), 300);
    assert_eq!(backoff_wait(4), REFRESH_INTERVAL_SECS);
    assert_eq!(backoff_wait(40), REFRESH_INTERVAL_SECS);
}

#[test]
fn the_schedule_follows_each_outcome() {
    let now = 1_000;
    let mut s = RefreshSchedule::new();
    assert!(s.is_due(0));
    s.schedule_after(&RefreshAttempt::Failed(RefreshFailure::Other("x".to_string())), now);
    assert_eq!((s.next_due, s.failures), (now + 30, 1));
    s.schedule_after(&RefreshAttempt::Failed(RefreshFailure::Other("x".to_string())), now);
    assert_eq!((s.next_due, s.failures), (now + 120, 2));
    s.schedule_after(&RefreshAttempt::Offline, now);
    assert_eq!((s.next_due, s.failures), (now + REFRESH_SHORT_RETRY_SECS, 2));
    s.schedule_after(&RefreshAttempt::Renewed { page_load_confirmed: false }, now);
    assert_eq!((s.next_due, s.failures), (now + REFRESH_UNCONFIRMED_RETRY_SECS, 0));
    s.schedule_after(&RefreshAttempt::Renewed { page_load_confirmed: true }, now);
    assert_eq!((s.next_due, s.failures), (now + REFRESH_INTERVAL_SECS, 0));
    s.schedule_after(&RefreshAttempt::LoginWindowOpen, now);
    assert_eq!(s.next_due, now + REFRESH_SHORT_RETRY_SECS);
    s.schedule_after(&RefreshAttempt::SignedOut, now);
    assert_eq!(s.next_due, now + REFRESH_INTERVAL_SECS);
    s.schedule_after(&RefreshAttempt::Failed(RefreshFailure::NeedsRelink), now);
    assert_eq!((s.next_due, s.failures), (now + REFRESH_INTERVAL_SECS, 0));
    assert!(!s.is_due(now));
    assert!(s.is_due(now + REFRESH_INTERVAL_SECS));
    s.wake();
    assert_eq!((s.next_due, s.failures), (0, 0));
}

#[test]
fn a_first_unexplained_failure_is_probed() {
    let s = RefreshSchedule::new();
    assert!(s.should_probe(&RefreshFailure::Other("x".to_string())));
    assert!(!s.should_probe(&RefreshFailure::Offline));
    let later = RefreshSchedule { next_due: 0, failures: 1 };
    assert!(!later.should_probe(&RefreshFailure::Other("x".to_string())));
}

#[test]
fn the_loop_sleeps_between_one_second_and_a_tick() {
    let s = RefreshSchedule { next_due: 1_000, failures: 0 };
    assert_eq!(s.tick_delay(2_000), 1);
    assert_eq!(s.tick_delay(990), 10);
    assert_eq!(s.tick_delay(0), REFRESH_TICK_SECS as u64);
}

#[test]
fn the_keeper_wait_trusts_only_a_reloaded_store() {
    let mut w = KeeperWait::new();
    assert!(!w.should_read(0, KEEPER_RELOAD_TICKS, false));
    assert!(w.should_read(KEEPER_RELOAD_TICKS - 4, KEEPER_RELOAD_TICKS, false));
    assert!(w.should_read(1, KEEPER_RELOAD_TICKS, true));
    assert!(w.page_loaded);
    assert!(matches!(w.after_read(1, true, true), KeeperTick::Capture));
    assert!(matches!(w.after_read(1, true, false), KeeperTick::Wait));
    assert!(matches!(w.after_read(4, true, false), KeeperTick::Capture));
    for _ in 0..3 {
        assert!(matches!(w.after_read(5, false, false), KeeperTick::Wait));
    }
    assert!(matches!(w.after_read(5, false, false), KeeperTick::StopSignedOut));
}

#[test]
fn the_bridge_is_tried_once() {
    assert!(matches!(bridge_step(Some(true), false), BridgeStep::Renewed));
    assert!(matches!(bridge_step(Some(false), false), BridgeStep::TryBridge));
    assert!(matches!(bridge_step(None, false), BridgeStep::TryBridge));
    assert!(matches!(bridge_step(None, true), BridgeStep::NeedsRelink));
    assert!(capture_is_alive(false, Some(false)));
    assert!(capture_is_alive(true, None));
    assert!(!capture_is_alive(true, Some(false)));
}

#[test]
fn the_sign_in_window_is_nudged_once_and_waits_for_login_info() {
    assert!(is_sign_in_flow_host(Some("accounts.google.com")));
    assert!(is_sign_in_flow_host(Some("music.youtube.com")));
    assert!(!is_sign_in_flow_host(Some("myaccount.google.com")));
    assert!(!is_sign_in_flow_host(None));
    let mut p = LoginPoll::new();
    assert!(matches!(p.tick(false, false, false, false), LoginTick::Wait));
    assert!(matches!(p.tick(false, true, true, false), LoginTick::Wait));
    assert!(matches!(p.tick(false, true, false, false), LoginTick::NudgeToServiceLogin));
    assert!(matches!(p.tick(false, true, false, false), LoginTick::Wait));
    for _ in 0..4 {
        assert!(matches!(p.tick(true, true, true, false), LoginTick::Wait));
    }
    assert!(matches!(p.tick(true, true, true, false), LoginTick::Capture));
    let mut q = LoginPoll::new();
    assert!(matches!(q.tick(true, false, false, true), LoginTick::Capture));
}

#[test]
fn the_boot_hold_ends_on_any_verdict_and_remembers_a_lost_session() {
    let mut r = SessionRenewal::new();
    assert!(!r.get_session_state().renewing);
    r.announce_renewal();
    assert!(r.get_session_state().renewing);
    // A transient failure during the boot renewal is reported once.
    assert!(r.settle(Some("a"), &RefreshFailure::Offline));
    assert!(!r.renewing);
    assert_eq!(r.needs_relink, None);
    // Later transient failures are not.
    assert!(!r.settle(Some("a"), &RefreshFailure::Offline));
    // A lost session always is, and is remembered.
    assert!(r.settle(Some("a"), &RefreshFailure::NeedsRelink));
    assert_eq!(r.get_session_state().needs_relink.as_deref(), Some("a"));
    r.set_needs_relink(None);
    assert_eq!(r.needs_relink, None);
    r.announce_renewal();
    r.renewed();
    assert!(!r.renewing);
}
