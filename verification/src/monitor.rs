//! The monitor state machine. Each cycle the host observes the target
//! process and feeds the observation in as an [`Event`]; [`step`] answers
//! with the next [`MonitorState`] and the one [`Action`] the host must take
//! before the next event. The host performs the sleeps, the process scan and
//! the termination command; every decision is made here.

use vstd::prelude::*;

verus! {

/// Seconds between two scans of the process table while all is well.
pub const POLL_INTERVAL_SECS: u64 = 60;

/// Grace period after a termination was issued, before the first presence
/// check, so the OS can relaunch the target on its own.
pub const GRACE_SECS: u64 = 10;

/// Seconds between presence re-checks while waiting for the target to
/// reappear.
pub const RETRY_SECS: u64 = 1;

/// The watchdog's own run state.
#[derive(Clone, Copy, Debug, PartialEq, Eq, Structural)]
pub enum MonitorState {
    /// Polling the process table on the regular cadence.
    Scanning,
    /// A violation was seen: the target is being terminated and its
    /// reappearance awaited.
    Restarting,
    /// The target was not found: its reappearance is awaited without any
    /// termination being issued.
    AwaitingRestart,
}

/// What one scan of the process table found.
#[derive(Clone, Copy, Debug, PartialEq, Eq, Structural)]
pub enum ScanResult {
    /// No process with the target's image name exists.
    Absent,
    /// The target exists and its memory footprint in bytes was read.
    Found { usage_bytes: u64 },
    /// The target exists but its footprint could not be read (it exited
    /// between discovery and query, or the query was denied). The cycle is
    /// inconclusive: no restart may be triggered from it.
    Unreadable,
}

/// An observation the host hands back after performing the requested
/// [`Action`].
#[derive(Clone, Copy, Debug, PartialEq, Eq, Structural)]
pub enum Event {
    /// The outcome of a scan of the process table.
    Scanned(ScanResult),
    /// A termination of every process with the target's image name was
    /// requested; `invoked` says whether the command could be run at all.
    TerminationAttempted { invoked: bool },
    /// A single presence check of the target.
    PresenceChecked { present: bool },
}

/// What the host must do next, after sleeping the given number of seconds.
#[derive(Clone, Copy, Debug, PartialEq, Eq, Structural)]
pub enum Action {
    /// Scan the process table and report a [`Event::Scanned`].
    Scan { delay_secs: u64 },
    /// Issue a forceful termination for every process with the target's
    /// image name, at once, and report a [`Event::TerminationAttempted`].
    Terminate,
    /// Check once whether the target is present and report a
    /// [`Event::PresenceChecked`].
    CheckPresence { delay_secs: u64 },
}

/// Which events can arise in which state: scans only while scanning,
/// termination outcomes only while restarting, presence checks only while a
/// reappearance is awaited.
pub open spec fn event_fits(state: MonitorState, event: Event) -> bool {
    match event {
        Event::Scanned(_) => state is Scanning,
        Event::TerminationAttempted { .. } => state is Restarting,
        Event::PresenceChecked { .. } => state is Restarting || state is AwaitingRestart,
    }
}

/// The transition relation of the watchdog.
///
/// - A scan that finds the target within budget, or cannot read its
///   footprint, stays in `Scanning` and schedules the next scan one polling
///   interval later.
/// - A scan that finds the target strictly over the threshold enters
///   `Restarting` and has the host terminate every process with the
///   target's image name.
/// - A scan that finds no target enters `AwaitingRestart` and has the host
///   check for it at once; no termination is issued.
/// - A termination attempt, whether or not the command could be invoked,
///   is followed by a presence check after the grace period.
/// - A presence check that finds the target returns to `Scanning`; one that
///   does not repeats after the retry interval, without bound.
pub open spec fn spec_step(state: MonitorState, event: Event, threshold_bytes: u64) -> (
    MonitorState,
    Action,
) {
    match event {
        Event::Scanned(scan) => match scan {
            ScanResult::Absent => (
                MonitorState::AwaitingRestart,
                Action::CheckPresence { delay_secs: 0 },
            ),
            ScanResult::Found { usage_bytes } => if usage_bytes > threshold_bytes {
                (MonitorState::Restarting, Action::Terminate)
            } else {
                (MonitorState::Scanning, Action::Scan { delay_secs: POLL_INTERVAL_SECS })
            },
            ScanResult::Unreadable => (
                MonitorState::Scanning,
                Action::Scan { delay_secs: POLL_INTERVAL_SECS },
            ),
        },
        Event::TerminationAttempted { .. } => (
            MonitorState::Restarting,
            Action::CheckPresence { delay_secs: GRACE_SECS },
        ),
        Event::PresenceChecked { present } => if present {
            (MonitorState::Scanning, Action::Scan { delay_secs: POLL_INTERVAL_SECS })
        } else {
            (state, Action::CheckPresence { delay_secs: RETRY_SECS })
        },
    }
}

/// The state and action the watchdog starts from: scan at once.
pub fn initial() -> (r: (MonitorState, Action))
    ensures
        r == (MonitorState::Scanning, Action::Scan { delay_secs: 0u64 }),
{
    (MonitorState::Scanning, Action::Scan { delay_secs: 0 })
}

/// One transition of the watchdog: from the current state and the event the
/// host observed, the next state and the next action.
pub fn step(state: MonitorState, event: Event, threshold_bytes: u64) -> (r: (
    MonitorState,
    Action,
))
    requires
        event_fits(state, event),
    ensures
        r == spec_step(state, event, threshold_bytes),
{
    match event {
        Event::Scanned(scan) => match scan {
            ScanResult::Absent => (
                MonitorState::AwaitingRestart,
                Action::CheckPresence { delay_secs: 0 },
            ),
            ScanResult::Found { usage_bytes } => if crate::policy::is_violation(
                usage_bytes,
                threshold_bytes,
            ) {
                (MonitorState::Restarting, Action::Terminate)
            } else {
                (MonitorState::Scanning, Action::Scan { delay_secs: POLL_INTERVAL_SECS })
            },
            ScanResult::Unreadable => (
                MonitorState::Scanning,
                Action::Scan { delay_secs: POLL_INTERVAL_SECS },
            ),
        },
        Event::TerminationAttempted { .. } => (
            MonitorState::Restarting,
            Action::CheckPresence { delay_secs: GRACE_SECS },
        ),
        Event::PresenceChecked { present } => if present {
            (MonitorState::Scanning, Action::Scan { delay_secs: POLL_INTERVAL_SECS })
        } else {
            (state, Action::CheckPresence { delay_secs: RETRY_SECS })
        },
    }
}

/// A failure to invoke the termination command changes nothing about the
/// recovery that follows: whatever the outcome of the attempt, the watchdog
/// proceeds to the same confirm-and-wait phase.
pub proof fn lemma_termination_outcome_irrelevant(
    invoked_a: bool,
    invoked_b: bool,
    threshold_bytes: u64,
)
    ensures
        spec_step(
            MonitorState::Restarting,
            Event::TerminationAttempted { invoked: invoked_a },
            threshold_bytes,
        ) == spec_step(
            MonitorState::Restarting,
            Event::TerminationAttempted { invoked: invoked_b },
            threshold_bytes,
        ),
{
}

/// A scan that reads the target's footprint triggers a restart exactly
/// when the footprint strictly exceeds the threshold; a footprint equal to
/// the threshold never does.
pub proof fn lemma_restart_iff_violation(usage_bytes: u64, threshold_bytes: u64)
    ensures
        (spec_step(
            MonitorState::Scanning,
            Event::Scanned(ScanResult::Found { usage_bytes }),
            threshold_bytes,
        ).0 is Restarting) <==> usage_bytes > threshold_bytes,
{
}

/// A scan never triggers a restart unless the footprint strictly exceeds
/// the threshold: on an absent target, a within-budget footprint or an
/// unreadable one, the action taken is never a termination.
pub proof fn lemma_no_termination_without_violation(
    state: MonitorState,
    scan: ScanResult,
    threshold_bytes: u64,
)
    requires
        !(scan matches ScanResult::Found { usage_bytes } && usage_bytes > threshold_bytes),
    ensures
        !(spec_step(state, Event::Scanned(scan), threshold_bytes).1 is Terminate),
{
}

} // verus!
