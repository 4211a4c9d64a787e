use dwm_monitor::monitor::initial;
use dwm_monitor::monitor::step;
use dwm_monitor::monitor::Action;
use dwm_monitor::monitor::Event;
use dwm_monitor::monitor::MonitorState;
use dwm_monitor::monitor::ScanResult;
use dwm_monitor::monitor::GRACE_SECS;
use dwm_monitor::monitor::POLL_INTERVAL_SECS;
use dwm_monitor::monitor::RETRY_SECS;

const THRESHOLD: u64 = 1_048_576_000;

#[test]
fn starts_scanning_at_once() {
    assert_eq!(initial(), (MonitorState::Scanning, Action::Scan { delay_secs: 0 }));
}

#[test]
fn absent_target_awaits_restart_without_termination() {
    let (state, action) = step(MonitorState::Scanning, Event::Scanned(ScanResult::Absent), THRESHOLD);
    assert_eq!(state, MonitorState::AwaitingRestart);
    assert_eq!(action, Action::CheckPresence { delay_secs: 0 });
    assert_ne!(action, Action::Terminate);
}

#[test]
fn usage_equal_to_threshold_stays_scanning() {
    let (state, action) = step(
        MonitorState::Scanning,
        Event::Scanned(ScanResult::Found { usage_bytes: THRESHOLD }),
        THRESHOLD,
    );
    assert_eq!(state, MonitorState::Scanning);
    assert_eq!(action, Action::Scan { delay_secs: POLL_INTERVAL_SECS });
}

#[test]
fn usage_one_byte_over_threshold_restarts() {
    let (state, action) = step(
        MonitorState::Scanning,
        Event::Scanned(ScanResult::Found { usage_bytes: THRESHOLD + 1 }),
        THRESHOLD,
    );
    assert_eq!(state, MonitorState::Restarting);
    assert_eq!(action, Action::Terminate);
}

#[test]
fn unreadable_usage_stays_scanning() {
    let (state, action) = step(
        MonitorState::Scanning,
        Event::Scanned(ScanResult::Unreadable),
        THRESHOLD,
    );
    assert_eq!(state, MonitorState::Scanning);
    assert_eq!(action, Action::Scan { delay_secs: POLL_INTERVAL_SECS });
}

#[test]
fn failed_termination_still_proceeds_to_confirmation() {
    // the termination command could not be invoked at all
    let (state, action) = step(
        MonitorState::Restarting,
        Event::TerminationAttempted { invoked: false },
        THRESHOLD,
    );
    assert_eq!(state, MonitorState::Restarting);
    assert_eq!(action, Action::CheckPresence { delay_secs: GRACE_SECS });
    // the target is still gone after the grace period: keep retrying
    let (state, action) = step(
        MonitorState::Restarting,
        Event::PresenceChecked { present: false },
        THRESHOLD,
    );
    assert_eq!(state, MonitorState::Restarting);
    assert_eq!(action, Action::CheckPresence { delay_secs: RETRY_SECS });
    // the target reappears a little later: recovery reports success
    let (state, action) = step(
        MonitorState::Restarting,
        Event::PresenceChecked { present: true },
        THRESHOLD,
    );
    assert_eq!(state, MonitorState::Scanning);
    assert_eq!(action, Action::Scan { delay_secs: POLL_INTERVAL_SECS });
}

#[test]
fn successful_termination_proceeds_the_same_way() {
    let (state, action) = step(
        MonitorState::Restarting,
        Event::TerminationAttempted { invoked: true },
        THRESHOLD,
    );
    assert_eq!(state, MonitorState::Restarting);
    assert_eq!(action, Action::CheckPresence { delay_secs: GRACE_SECS });
}

#[test]
fn awaiting_restart_retries_until_presence() {
    let (state, action) = step(
        MonitorState::AwaitingRestart,
        Event::PresenceChecked { present: false },
        THRESHOLD,
    );
    assert_eq!(state, MonitorState::AwaitingRestart);
    assert_eq!(action, Action::CheckPresence { delay_secs: RETRY_SECS });
    let (state, action) = step(
        MonitorState::AwaitingRestart,
        Event::PresenceChecked { present: true },
        THRESHOLD,
    );
    assert_eq!(state, MonitorState::Scanning);
    assert_eq!(action, Action::Scan { delay_secs: POLL_INTERVAL_SECS });
}
