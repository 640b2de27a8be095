//! The verdict of a time-boxed verification run of one test case.
use crate::ansi::{strip_color, stripped};
use vstd::prelude::*;

verus! {

/// How long a verification run may take, in seconds.
pub const TIMEOUT_SECS: u64 = 120;

/// The diagnostic recorded for a verification run that ran out of time.
pub const TIMED_OUT: &'static str = "verification run timed out after 120 s and was killed";

/// How the child process of a verification run ended.
#[derive(Debug)]
pub enum WaitOutcome {
    /// It exited; its standard error, when it could be read as UTF-8.
    Exited { success: bool, stderr: Option<String> },
    /// It did not exit in time and was killed.
    TimedOut,
    /// Waiting on it failed.
    WaitFailed,
}

/// The fault a verification run found: none on success, the standard error
/// without colour sequences on failure, a timeout diagnostic when it ran out of
/// time; nothing when the run could not be observed.
pub fn verdict(outcome: WaitOutcome) -> (r: Option<String>)
    ensures
        match outcome {
            WaitOutcome::Exited { success: true, .. } => r is None,
            WaitOutcome::Exited { success: false, stderr: Some(e) } => r matches Some(t) && t@
                == stripped(e@),
            WaitOutcome::Exited { success: false, stderr: None } => r is None,
            WaitOutcome::TimedOut => r matches Some(t) && t@ == TIMED_OUT@,
            WaitOutcome::WaitFailed => r is None,
        },
{
    match outcome {
        WaitOutcome::Exited { success, stderr } => {
            if success {
                None
            } else {
                match stderr {
                    Some(e) => Some(strip_color(e.as_str())),
                    None => None,
                }
            }
        },
        WaitOutcome::TimedOut => Some(String::from_str(TIMED_OUT)),
        WaitOutcome::WaitFailed => None,
    }
}

} // verus!
