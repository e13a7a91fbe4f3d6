//! Power-state and connectivity decisions for the session-refresh loop:
//! reading the OS connectivity hint, the outcome of subscribing to
//! resume notifications, and when to stop waiting for the network.

use vstd::prelude::*;
use crate::text::{nat_digits, push_chars, u64_digits};

verus! {

/// Windows' `NL_NETWORK_CONNECTIVITY_LEVEL_HINT` (`NoAccess` is the
/// hint's `None` level).
pub enum ConnectivityLevel {
    Unknown,
    NoAccess,
    LocalAccess,
    InternetAccess,
    ConstrainedInternetAccess,
    Hidden,
}

/// Best-effort connectivity check from the OS hint; `hint` is `None`
/// when the OS could not be asked, and so is the answer ("can't tell").
/// "Constrained" (a captive portal or a metered link that still routes)
/// counts as internet; none, local-only, hidden and unknown do not.
pub fn has_internet(hint: Option<ConnectivityLevel>) -> (r: Option<bool>)
    ensures
        r == match hint {
            None => None,
            Some(level) => Some(
                level is InternetAccess || level is ConstrainedInternetAccess,
            ),
        },
{
    match hint {
        None => None,
        Some(ConnectivityLevel::InternetAccess) => Some(true),
        Some(ConnectivityLevel::ConstrainedInternetAccess) => Some(true),
        Some(_) => Some(false),
    }
}

/// The message `init` fails with for a nonzero return code.
pub open spec fn register_failure_message(rc: u32) -> Seq<char> {
    "PowerRegisterSuspendResumeNotification failed: "@ + nat_digits(rc as nat)
}

/// Outcome of subscribing to resume-from-sleep notifications, from the
/// return code of `PowerRegisterSuspendResumeNotification`: success for
/// 0, otherwise an error naming the code.
pub fn init(rc: u32) -> (r: Result<(), String>)
    ensures
        match r {
            Ok(()) => rc == 0,
            Err(msg) => rc != 0 && msg@ == register_failure_message(rc),
        },
{
    if rc == 0 {
        return Ok(());
    }
    let mut msg = String::from_str("PowerRegisterSuspendResumeNotification failed: ");
    let d = u64_digits(rc as u64);
    push_chars(&mut msg, &d);
    Err(msg)
}

/// What `wait_for_network` does after one look at the connectivity hint.
pub enum NetworkWait {
    /// Worth attempting a network call now.
    Proceed,
    /// The deadline passed with the OS still reporting no internet.
    GiveUp,
    /// Look again after a short sleep.
    Retry,
}

/// One step of waiting for the network: go ahead when connectivity is
/// confirmed or the OS cannot tell (refusing then would strand the
/// refresh forever); give up once the deadline has passed; else retry.
pub fn network_wait_step(connectivity: Option<bool>, deadline_passed: bool) -> (r: NetworkWait)
    ensures
        r is Proceed <==> connectivity != Some(false),
        r is GiveUp <==> (connectivity == Some(false) && deadline_passed),
        r is Retry <==> (connectivity == Some(false) && !deadline_passed),
{
    match connectivity {
        None => NetworkWait::Proceed,
        Some(true) => NetworkWait::Proceed,
        Some(false) => if deadline_passed {
            NetworkWait::GiveUp
        } else {
            NetworkWait::Retry
        },
    }
}

} // verus!
