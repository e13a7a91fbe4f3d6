//! Decisions of the session keeper: whether a launch must renew the jar
//! before the UI trusts it, how the refresh loop schedules its next
//! attempt, how a sign-in or keeper webview is polled, and what a failed
//! refresh tells the UI.

use vstd::prelude::*;
use crate::text::{
    chars_eq, chars_of, clone_opt, ends_with, has_suffix, opt_chars, parse_i64, parse_i64_chars,
    trim, trim_chars,
};

verus! {

/// How long a healthy snapshot may age before it is renewed.
pub const REFRESH_INTERVAL_SECS: i64 = 1200;

/// Longest the loop ever sleeps in one go, so a wall clock that jumped
/// across a suspend is noticed promptly.
pub const REFRESH_TICK_SECS: i64 = 60;

/// Snapshot age past which a launch renews before the UI trusts the jar.
pub const BOOT_RENEW_AFTER_SECS: i64 = 1800;

/// Retry delay after a capture the keeper could not confirm with a page
/// load: the store it read may be the persisted one from last time.
pub const REFRESH_UNCONFIRMED_RETRY_SECS: i64 = 60;

/// Retry delay while a sign-in window owns the profile, and while the
/// machine is offline.
pub const REFRESH_SHORT_RETRY_SECS: i64 = 30;

/// Ticks (1.5 s each) to wait for the keeper's reload.
pub const KEEPER_RELOAD_TICKS: u8 = 20;

/// Ticks to wait for Google's sign-in bridge to land back on YT Music.
pub const KEEPER_BRIDGE_TICKS: u8 = 12;

/// In the last ticks of a wait an unconfirmed (no page-load hook) store is
/// accepted rather than failing the refresh outright.
pub const KEEPER_UNCONFIRMED_TICKS: u8 = 4;

/// Ticks after a confirmed page load with no YouTube session before the
/// wait gives up early.
pub const KEEPER_SIGNED_OUT_TICKS: u8 = 4;

/// Ticks a capture waits for `LOGIN_INFO` before taking what is there.
pub const LOGIN_INFO_GRACE_TICKS: u8 = 4;

// ---------------------------------------------------------------------
// Boot renewal
// ---------------------------------------------------------------------

/// A launch renews the snapshot first when no refresh was ever recorded,
/// or the last one is more than `BOOT_RENEW_AFTER_SECS` old.
pub open spec fn boot_renewal_due(last_refresh: Option<i64>, now: i64) -> bool {
    match last_refresh {
        None => true,
        Some(t) => now - t > BOOT_RENEW_AFTER_SECS,
    }
}

pub fn needs_boot_renewal(last_refresh: Option<i64>, now: i64) -> (r: bool)
    requires
        last_refresh matches Some(t) ==> i64::MIN <= now - t <= i64::MAX,
    ensures
        r == boot_renewal_due(last_refresh, now),
{
    match last_refresh {
        None => true,
        Some(t) => now - t > BOOT_RENEW_AFTER_SECS,
    }
}

/// The stamp of the last successful refresh, as stored in `last-refresh`:
/// a decimal integer, surrounding whitespace allowed.
pub fn parse_last_refresh(contents: &str) -> (r: Option<i64>)
    ensures
        r == parse_i64(trim(contents@)),
{
    let t = trim_chars(&chars_of(contents));
    parse_i64_chars(&t)
}

// ---------------------------------------------------------------------
// Refresh failures
// ---------------------------------------------------------------------

/// Why a refresh did not produce a usable jar.
pub enum RefreshFailure {
    /// The keeper profile no longer holds a YouTube session and Google's
    /// sign-in bridge could not restore it silently.
    NeedsRelink,
    /// Nothing to refresh from: no persisted webview profile.
    NoProfile,
    /// No internet for the whole wait.
    Offline,
    /// Anything else (window build, encrypt, disk); the jar is untouched.
    Other(String),
}

impl RefreshFailure {
    /// The `reason` of the `session-refresh-failed` event.
    pub fn reason(&self) -> (r: &'static str)
        ensures
            r@ == match self {
                RefreshFailure::NeedsRelink => "needs-relink"@,
                RefreshFailure::NoProfile => "no-profile"@,
                RefreshFailure::Offline => "offline"@,
                RefreshFailure::Other(_) => "error"@,
            },
    {
        match self {
            RefreshFailure::NeedsRelink => "needs-relink",
            RefreshFailure::NoProfile => "no-profile",
            RefreshFailure::Offline => "offline",
            RefreshFailure::Other(_) => "error",
        }
    }

    /// The text the failure is logged and reported with.
    pub fn message(&self) -> (r: String)
        ensures
            r@ == match self {
                RefreshFailure::NeedsRelink => "the keeper's session is gone and Google wants a click to restore it"@,
                RefreshFailure::NoProfile => "no persisted webview profile"@,
                RefreshFailure::Offline => "no internet"@,
                RefreshFailure::Other(e) => e@,
            },
    {
        match self {
            RefreshFailure::NeedsRelink => String::from_str(
                "the keeper's session is gone and Google wants a click to restore it",
            ),
            RefreshFailure::NoProfile => String::from_str("no persisted webview profile"),
            RefreshFailure::Offline => String::from_str("no internet"),
            RefreshFailure::Other(e) => e.clone(),
        }
    }
}

/// What closing out a failed refresh does.
pub struct Settlement {
    /// Record the account as needing a re-link (for a UI that mounts late).
    pub mark_needs_relink: bool,
    /// Emit `session-refresh-failed` to the UI.
    pub notify_ui: bool,
}

/// A failed refresh releases the boot hold; `needs-relink` is always
/// recorded and reported, the transient reasons are reported only while
/// a boot renewal was pending (so an offline laptop is not told every
/// 30 s).
pub fn settle_refresh(was_boot: bool, failure: &RefreshFailure) -> (r: Settlement)
    ensures
        r.mark_needs_relink == (failure is NeedsRelink),
        r.notify_ui == (was_boot || failure is NeedsRelink),
{
    let relink = match failure {
        RefreshFailure::NeedsRelink => true,
        _ => false,
    };
    Settlement { mark_needs_relink: relink, notify_ui: was_boot || relink }
}

/// Boot-time renewal state: whether a renewal the UI must wait for is
/// pending, and the account whose session Google expired for good (kept
/// as well as emitted, since the verdict can land before the UI listens).
pub struct SessionRenewal {
    pub renewing: bool,
    pub needs_relink: Option<String>,
}

/// What `get_session_state` reports to the frontend.
pub struct SessionState {
    pub renewing: bool,
    pub needs_relink: Option<String>,
}

pub open spec fn opt_str_view(o: Option<&str>) -> Option<Seq<char>> {
    match o {
        Some(s) => Some(s@),
        None => None,
    }
}

fn owned(o: Option<&str>) -> (r: Option<String>)
    ensures
        opt_chars(r) == opt_str_view(o),
{
    match o {
        Some(s) => Some(String::from_str(s)),
        None => None,
    }
}

impl SessionRenewal {
    /// Nothing pending, nothing to re-link.
    pub fn new() -> (r: SessionRenewal)
        ensures
            !r.renewing,
            r.needs_relink is None,
    {
        SessionRenewal { renewing: false, needs_relink: None }
    }

    /// Records (or, with `None`, clears) the account that needs a re-link.
    pub fn set_needs_relink(&mut self, id: Option<&str>)
        ensures
            opt_chars(final(self).needs_relink) == opt_str_view(id),
            final(self).renewing == old(self).renewing,
    {
        self.needs_relink = owned(id);
    }

    /// A renewal is about to run against a snapshot that may be dead:
    /// hold the UI's requests until the verdict.
    pub fn announce_renewal(&mut self)
        ensures
            final(self).renewing,
            opt_chars(final(self).needs_relink) == opt_chars(old(self).needs_relink),
    {
        self.renewing = true;
    }

    /// A renewal succeeded: the UI may go ahead.
    pub fn renewed(&mut self)
        ensures
            !final(self).renewing,
            opt_chars(final(self).needs_relink) == opt_chars(old(self).needs_relink),
    {
        self.renewing = false;
    }

    /// Closes out a failed refresh of account `id` (see `settle_refresh`):
    /// releases the UI, records a lost session, and says whether the UI
    /// must be told.
    pub fn settle(&mut self, id: Option<&str>, failure: &RefreshFailure) -> (notify: bool)
        ensures
            !final(self).renewing,
            opt_chars(final(self).needs_relink) == if failure is NeedsRelink {
                opt_str_view(id)
            } else {
                opt_chars(old(self).needs_relink)
            },
            notify == (old(self).renewing || failure is NeedsRelink),
    {
        let was_boot = self.renewing;
        self.renewing = false;
        let s = settle_refresh(was_boot, failure);
        if s.mark_needs_relink {
            self.set_needs_relink(id);
        }
        s.notify_ui
    }

    /// What the frontend reads on mount.
    pub fn get_session_state(&self) -> (r: SessionState)
        ensures
            r.renewing == self.renewing,
            opt_chars(r.needs_relink) == opt_chars(self.needs_relink),
    {
        SessionState { renewing: self.renewing, needs_relink: clone_opt(&self.needs_relink) }
    }
}

// ---------------------------------------------------------------------
// The refresh loop's schedule
// ---------------------------------------------------------------------

/// Wall-clock backoff after the `failures`-th consecutive unexplained
/// failure: 30 s, 2 min, 5 min, then the normal interval.
pub open spec fn backoff_secs(failures: nat) -> i64 {
    if failures == 1 {
        30
    } else if failures == 2 {
        120
    } else if failures == 3 {
        300
    } else {
        REFRESH_INTERVAL_SECS
    }
}

pub fn backoff_wait(failures: usize) -> (r: i64)
    requires
        failures >= 1,
    ensures
        r == backoff_secs(failures as nat),
{
    let backoff: [i64; 3] = [30, 120, 300];
    if failures - 1 < 3 {
        backoff[failures - 1]
    } else {
        REFRESH_INTERVAL_SECS
    }
}

/// How one due attempt of the refresh loop ended.
pub enum RefreshAttempt {
    /// A sign-in window owns the profile; nothing was tried.
    LoginWindowOpen,
    /// Nobody is signed in.
    SignedOut,
    /// The active account has no persisted webview profile.
    NoProfile,
    /// The network did not come back within the wait.
    Offline,
    /// The keeper renewed the jar.
    Renewed { page_load_confirmed: bool },
    /// The refresh failed.
    Failed(RefreshFailure),
}

/// The loop's schedule: the wall-clock time of the next attempt and the
/// number of consecutive unexplained failures.
pub struct RefreshSchedule {
    pub next_due: i64,
    pub failures: usize,
}

/// The schedule after an attempt that ended at `now` (see
/// `schedule_after`).
pub open spec fn next_schedule(failures: nat, attempt: RefreshAttempt, now: i64) -> (int, nat) {
    match attempt {
        RefreshAttempt::LoginWindowOpen => (now + REFRESH_SHORT_RETRY_SECS, failures),
        RefreshAttempt::SignedOut => (now + REFRESH_INTERVAL_SECS, failures),
        RefreshAttempt::NoProfile => (now + REFRESH_INTERVAL_SECS, failures),
        RefreshAttempt::Offline => (now + REFRESH_SHORT_RETRY_SECS, failures),
        RefreshAttempt::Renewed { page_load_confirmed } => (
            now + if page_load_confirmed {
                REFRESH_INTERVAL_SECS
            } else {
                REFRESH_UNCONFIRMED_RETRY_SECS
            },
            0,
        ),
        RefreshAttempt::Failed(f) => match f {
            RefreshFailure::NeedsRelink => (now + REFRESH_INTERVAL_SECS, 0),
            RefreshFailure::NoProfile => (now + REFRESH_INTERVAL_SECS, 0),
            RefreshFailure::Offline => (now + REFRESH_SHORT_RETRY_SECS, failures),
            RefreshFailure::Other(_) => (now + backoff_secs(failures + 1), failures + 1),
        },
    }
}

impl RefreshSchedule {
    /// The schedule at start-up: due at once.
    pub fn new() -> (r: RefreshSchedule)
        ensures
            r.next_due == 0,
            r.failures == 0,
    {
        RefreshSchedule { next_due: 0, failures: 0 }
    }

    /// An attempt is due once the wall clock reaches `next_due`.
    pub fn is_due(&self, now: i64) -> (r: bool)
        ensures
            r == (now >= self.next_due),
    {
        now >= self.next_due
    }

    /// Whether a failure of this kind gets a liveness probe first: only an
    /// unexplained one, and only the first in a row, so a dead profile is
    /// not probed on a loop.
    pub fn should_probe(&self, failure: &RefreshFailure) -> (r: bool)
        ensures
            r == (failure is Other && self.failures == 0),
    {
        match failure {
            RefreshFailure::Other(_) => self.failures == 0,
            _ => false,
        }
    }

    /// Records how an attempt ended at `now` and schedules the next one:
    /// the normal interval after a confirmed renewal or when nothing can
    /// help until the user acts, a minute after an unconfirmed capture,
    /// 30 s while offline or while a sign-in window is open, and the
    /// backoff after an unexplained failure.
    pub fn schedule_after(&mut self, attempt: &RefreshAttempt, now: i64)
        requires
            now + REFRESH_INTERVAL_SECS <= i64::MAX,
            old(self).failures < usize::MAX,
        ensures
            (final(self).next_due as int, final(self).failures as nat) == next_schedule(
                old(self).failures as nat,
                *attempt,
                now,
            ),
    {
        match attempt {
            RefreshAttempt::LoginWindowOpen => {
                self.next_due = now + REFRESH_SHORT_RETRY_SECS;
            },
            RefreshAttempt::SignedOut => {
                self.next_due = now + REFRESH_INTERVAL_SECS;
            },
            RefreshAttempt::NoProfile => {
                self.next_due = now + REFRESH_INTERVAL_SECS;
            },
            RefreshAttempt::Offline => {
                self.next_due = now + REFRESH_SHORT_RETRY_SECS;
            },
            RefreshAttempt::Renewed { page_load_confirmed } => {
                self.failures = 0;
                self.next_due = if *page_load_confirmed {
                    now + REFRESH_INTERVAL_SECS
                } else {
                    now + REFRESH_UNCONFIRMED_RETRY_SECS
                };
            },
            RefreshAttempt::Failed(f) => match f {
                RefreshFailure::NeedsRelink | RefreshFailure::NoProfile => {
                    self.failures = 0;
                    self.next_due = now + REFRESH_INTERVAL_SECS;
                },
                RefreshFailure::Offline => {
                    self.next_due = now + REFRESH_SHORT_RETRY_SECS;
                },
                RefreshFailure::Other(_) => {
                    self.failures = self.failures + 1;
                    let wait = backoff_wait(self.failures);
                    self.next_due = now + wait;
                },
            },
        }
    }

    /// A wake from sleep or an explicit renewal request: due at once, with
    /// the failure count reset.
    pub fn wake(&mut self)
        ensures
            final(self).next_due == 0,
            final(self).failures == 0,
    {
        self.next_due = 0;
        self.failures = 0;
    }

    /// Seconds to sleep before looking again: until the deadline, but at
    /// least one second and at most `REFRESH_TICK_SECS`.
    pub fn tick_delay(&self, now: i64) -> (r: u64)
        requires
            i64::MIN <= self.next_due - now <= i64::MAX,
        ensures
            r as int == if self.next_due - now < 1 {
                1
            } else if self.next_due - now > REFRESH_TICK_SECS {
                REFRESH_TICK_SECS as int
            } else {
                self.next_due - now
            },
    {
        let d = self.next_due - now;
        if d < 1 {
            1
        } else if d > REFRESH_TICK_SECS {
            REFRESH_TICK_SECS as u64
        } else {
            d as u64
        }
    }
}

/// A refresh that failed for want of a persisted profile is treated like
/// one that needs a re-link: nothing can fix either until the user acts,
/// so the next attempt is a full interval away and the failure count is
/// reset, whatever it was.
pub proof fn law_blocked_profile_waits_full_interval(failures: nat, now: i64)
    ensures
        next_schedule(failures, RefreshAttempt::Failed(RefreshFailure::NoProfile), now) == (
        now + REFRESH_INTERVAL_SECS, 0nat),
        next_schedule(failures, RefreshAttempt::Failed(RefreshFailure::NeedsRelink), now) == (
        now + REFRESH_INTERVAL_SECS, 0nat),
{
}

/// The wait before the next attempt is never shorter than the short retry
/// and never longer than the normal interval (the longest waits follow a
/// confirmed renewal, a sign-out, a missing or relink-blocked profile,
/// and the fourth and later consecutive unexplained failures); the
/// unexplained-failure backoff never shrinks as failures accumulate.
pub proof fn law_refresh_waits_are_bounded(failures: nat, attempt: RefreshAttempt, now: i64)
    ensures
        ({
            let (due, _) = next_schedule(failures, attempt, now);
            now + REFRESH_SHORT_RETRY_SECS <= due <= now + REFRESH_INTERVAL_SECS
        }),
        forall|a: nat, b: nat| 1 <= a <= b ==> backoff_secs(a) <= backoff_secs(b),
{
}

/// A confirmed renewal always resets the failure count and waits exactly
/// the normal interval, whatever happened before.
pub proof fn law_renewal_resets_backoff(failures: nat, now: i64)
    ensures
        next_schedule(failures, RefreshAttempt::Renewed { page_load_confirmed: true }, now) == (
            now + REFRESH_INTERVAL_SECS,
            0nat,
        ),
{
}

// ---------------------------------------------------------------------
// Polling the keeper after a navigation
// ---------------------------------------------------------------------

/// State of one wait for the keeper's cookie store.
pub struct KeeperWait {
    /// The keeper's page-load hook fired after the navigation.
    pub page_loaded: bool,
    /// Ticks seen with a loaded page and no YouTube session.
    pub signed_out_ticks: u8,
}

/// What a wait does after reading the store on one tick.
pub enum KeeperTick {
    /// Sleep and look again.
    Wait,
    /// Take this store as the capture.
    Capture,
    /// The page loaded and no session is there: a signed-out profile.
    StopSignedOut,
}

impl KeeperWait {
    pub fn new() -> (r: KeeperWait)
        ensures
            !r.page_loaded,
            r.signed_out_ticks == 0,
    {
        KeeperWait { page_loaded: false, signed_out_ticks: 0 }
    }

    /// Whether to read the store on tick `tick` of `max_ticks`. A store
    /// is not trusted until the page-load hook has moved, except in the
    /// last `KEEPER_UNCONFIRMED_TICKS` ticks.
    pub fn should_read(&mut self, tick: u8, max_ticks: u8, page_load_seen: bool) -> (r: bool)
        ensures
            final(self).page_loaded == (old(self).page_loaded || page_load_seen),
            final(self).signed_out_ticks == old(self).signed_out_ticks,
            r == (final(self).page_loaded || tick as int >= if max_ticks
                >= KEEPER_UNCONFIRMED_TICKS {
                max_ticks - KEEPER_UNCONFIRMED_TICKS
            } else {
                0
            }),
    {
        if !self.page_loaded {
            self.page_loaded = page_load_seen;
        }
        let unconfirmed_from = max_ticks.saturating_sub(KEEPER_UNCONFIRMED_TICKS);
        self.page_loaded || tick >= unconfirmed_from
    }

    /// The decision after reading the store on tick `tick`: `youtube_auth`
    /// and `login_info` describe what it held. Without a session, a loaded
    /// page counts towards giving up; with one, the capture waits a few
    /// ticks for `LOGIN_INFO` and then takes what is there.
    pub fn after_read(&mut self, tick: u8, youtube_auth: bool, login_info: bool) -> (r: KeeperTick)
        requires
            old(self).signed_out_ticks < u8::MAX,
        ensures
            !youtube_auth ==> {
                &&& final(self).signed_out_ticks == if old(self).page_loaded {
                    old(self).signed_out_ticks + 1
                } else {
                    old(self).signed_out_ticks as int
                }
                &&& (r is StopSignedOut <==> final(self).signed_out_ticks
                    >= KEEPER_SIGNED_OUT_TICKS && old(self).page_loaded)
                &&& (r is Wait <==> !(r is StopSignedOut))
            },
            youtube_auth ==> final(self).signed_out_ticks == old(self).signed_out_ticks && (r is Capture
                <==> (login_info || tick >= LOGIN_INFO_GRACE_TICKS)) && (r is Wait <==> !(r is Capture)),
            final(self).page_loaded == old(self).page_loaded,
    {
        if !youtube_auth {
            if self.page_loaded {
                self.signed_out_ticks = self.signed_out_ticks + 1;
                if self.signed_out_ticks >= KEEPER_SIGNED_OUT_TICKS {
                    return KeeperTick::StopSignedOut;
                }
            }
            return KeeperTick::Wait;
        }
        if !login_info && tick < LOGIN_INFO_GRACE_TICKS {
            return KeeperTick::Wait;
        }
        KeeperTick::Capture
    }
}

/// What a refresh does once a wait for the keeper has ended.
pub enum BridgeStep {
    /// The capture was written and authenticates: done.
    Renewed,
    /// No usable session yet: send the keeper through Google's sign-in
    /// bridge once.
    TryBridge,
    /// Even the bridge landed without a session: the user must re-link.
    NeedsRelink,
}

/// `alive` is whether the wait produced a session that authenticates
/// (`None` when it produced no capture at all); `bridged` whether the
/// sign-in bridge was already tried.
pub fn bridge_step(alive: Option<bool>, bridged: bool) -> (r: BridgeStep)
    ensures
        r is Renewed <==> alive == Some(true),
        r is TryBridge <==> (alive != Some(true) && !bridged),
        r is NeedsRelink <==> (alive != Some(true) && bridged),
{
    if alive == Some(true) {
        BridgeStep::Renewed
    } else if bridged {
        BridgeStep::NeedsRelink
    } else {
        BridgeStep::TryBridge
    }
}

/// Whether a capture counts as alive: without verification it does; with
/// it, the probe's verdict does, and a probe that could not run counts as
/// alive rather than sending a healthy session to the bridge.
pub fn capture_is_alive(verify: bool, probe: Option<bool>) -> (r: bool)
    ensures
        r == (!verify || probe != Some(false)),
{
    if !verify {
        true
    } else {
        match probe {
            Some(alive) => alive,
            None => true,
        }
    }
}

// ---------------------------------------------------------------------
// Polling the sign-in window
// ---------------------------------------------------------------------

/// State of the sign-in window's poll.
pub struct LoginPoll {
    /// The window was already sent back through ServiceLogin.
    pub nudged_to_yt: bool,
    /// Ticks spent waiting for `LOGIN_INFO` after the auth cookies.
    pub full_set_grace: u8,
}

/// What the poll does on one tick.
pub enum LoginTick {
    Wait,
    /// Replay the ServiceLogin URL so Google bridges the youtube.com
    /// cookies itself.
    NudgeToServiceLogin,
    /// Write the snapshot and finish the sign-in.
    Capture,
}

/// The window sits in the sign-in flow when it is on accounts.google.com
/// or a youtube.com host.
pub open spec fn in_sign_in_flow(host: Option<Seq<char>>) -> bool {
    match host {
        Some(h) => h == "accounts.google.com"@ || has_suffix(h, "youtube.com"@),
        None => false,
    }
}

pub fn is_sign_in_flow_host(host: Option<&str>) -> (r: bool)
    ensures
        r == in_sign_in_flow(match host {
            Some(h) => Some(h@),
            None => None,
        }),
{
    match host {
        Some(h) => {
            let hc = chars_of(h);
            chars_eq(&hc, &chars_of("accounts.google.com")) || ends_with(
                &hc,
                &chars_of("youtube.com"),
            )
        },
        None => false,
    }
}

impl LoginPoll {
    pub fn new() -> (r: LoginPoll)
        ensures
            !r.nudged_to_yt,
            r.full_set_grace == 0,
    {
        LoginPoll { nudged_to_yt: false, full_set_grace: 0 }
    }

    /// One tick, given what the window's cookie store holds. Without
    /// YouTube auth cookies the window is nudged once when Google auth is
    /// there but the window is parked outside the sign-in flow; with them,
    /// the capture waits up to `LOGIN_INFO_GRACE_TICKS` ticks for
    /// `LOGIN_INFO`.
    pub fn tick(
        &mut self,
        youtube_auth: bool,
        google_auth: bool,
        in_flow: bool,
        login_info: bool,
    ) -> (r: LoginTick)
        ensures
            !youtube_auth ==> {
                let nudge = !old(self).nudged_to_yt && google_auth && !in_flow;
                &&& (r is NudgeToServiceLogin <==> nudge)
                &&& (r is Wait <==> !nudge)
                &&& final(self).nudged_to_yt == (old(self).nudged_to_yt || nudge)
                &&& final(self).full_set_grace == old(self).full_set_grace
            },
            youtube_auth ==> {
                let wait = !login_info && old(self).full_set_grace < LOGIN_INFO_GRACE_TICKS;
                &&& (r is Wait <==> wait)
                &&& (r is Capture <==> !wait)
                &&& final(self).full_set_grace == if wait {
                    old(self).full_set_grace + 1
                } else {
                    old(self).full_set_grace as int
                }
                &&& final(self).nudged_to_yt == old(self).nudged_to_yt
            },
    {
        if !youtube_auth {
            if !self.nudged_to_yt && google_auth && !in_flow {
                self.nudged_to_yt = true;
                return LoginTick::NudgeToServiceLogin;
            }
            return LoginTick::Wait;
        }
        if !login_info && self.full_set_grace < LOGIN_INFO_GRACE_TICKS {
            self.full_set_grace = self.full_set_grace + 1;
            return LoginTick::Wait;
        }
        LoginTick::Capture
    }
}

} // verus!
