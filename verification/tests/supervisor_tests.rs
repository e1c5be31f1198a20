use sidecar_relay::is_success_status;
use sidecar_relay::supervisor::{
    drive_polls, resolve_launch, PollOutcome, PollVerdict, Probe, ResolutionFailure, SidecarManager,
    SidecarMode, StartAttempt, SupervisorError, MAX_HEALTH_ATTEMPTS,
};

fn probe(name: &str, ok: bool) -> Probe {
    Probe { name: name.to_string(), ok }
}

#[test]
fn success_status_is_exactly_2xx() {
    assert!(!is_success_status(199));
    assert!(is_success_status(200));
    assert!(is_success_status(204));
    assert!(is_success_status(299));
    assert!(!is_success_status(300));
    assert!(!is_success_status(500));
}

#[test]
fn healthy_on_first_poll() {
    let outcomes = vec![PollOutcome::Response { status: 200 }];
    assert_eq!(drive_polls(&outcomes), PollVerdict::Healthy);
}

#[test]
fn healthy_on_last_budgeted_poll() {
    // 59 failures then a success on the 60th poll: the budget is inclusive.
    let mut outcomes = vec![PollOutcome::Response { status: 500 }; 59];
    outcomes.push(PollOutcome::Response { status: 200 });
    assert_eq!(drive_polls(&outcomes), PollVerdict::Healthy);
}

#[test]
fn timeout_when_budget_exceeded() {
    let outcomes = vec![PollOutcome::Response { status: 500 }; 60];
    assert_eq!(drive_polls(&outcomes), PollVerdict::TimedOut);
    // A success after the 60th poll comes too late.
    let mut late = vec![PollOutcome::ConnectFailed; 60];
    late.push(PollOutcome::Response { status: 200 });
    assert_eq!(drive_polls(&late), PollVerdict::TimedOut);
}

#[test]
fn connect_failure_counts_as_not_ready() {
    let outcomes = vec![
        PollOutcome::ConnectFailed,
        PollOutcome::Response { status: 503 },
        PollOutcome::Response { status: 200 },
    ];
    assert_eq!(drive_polls(&outcomes), PollVerdict::Healthy);
}

#[test]
fn observe_steps_through_the_budget() {
    let mut att = StartAttempt::new();
    for _ in 0..(MAX_HEALTH_ATTEMPTS - 1) {
        let v = att.observe(PollOutcome::ConnectFailed);
        assert_eq!(v, PollVerdict::Retry);
    }
    let v = att.observe(PollOutcome::Response { status: 200 });
    assert_eq!(v, PollVerdict::Healthy);
}

#[test]
fn observe_times_out_on_last_failed_attempt() {
    let mut att = StartAttempt::new();
    for _ in 0..(MAX_HEALTH_ATTEMPTS - 1) {
        assert_eq!(att.observe(PollOutcome::Response { status: 500 }), PollVerdict::Retry);
    }
    assert_eq!(att.observe(PollOutcome::Response { status: 500 }), PollVerdict::TimedOut);
}

#[test]
fn stop_with_no_process_is_a_no_op() {
    let mut m = SidecarManager::new();
    assert!(!m.is_running());
    assert_eq!(m.stop(), None);
    assert!(!m.is_running());
}

#[test]
fn stop_twice_in_a_row_is_safe() {
    let mut m = SidecarManager::new();
    m.record_spawn(41);
    assert!(m.is_running());
    assert_eq!(m.stop(), Some(41));
    assert_eq!(m.stop(), None);
    assert!(!m.is_running());
}

#[test]
fn timed_out_start_leaves_handle_for_stop() {
    // The process is recorded before polling; a health timeout leaves it
    // recorded, so a later stop still reaps it.
    let mut m = SidecarManager::new();
    m.record_spawn(7);
    let outcomes = vec![PollOutcome::ConnectFailed; 60];
    assert_eq!(drive_polls(&outcomes), PollVerdict::TimedOut);
    assert!(m.is_running());
    assert_eq!(m.stop(), Some(7));
}

#[test]
fn bundled_executable_wins_resolution() {
    let bundled = vec![probe("sidecar/engine", true), probe("sidecar/engine.exe", true)];
    let scripts = vec![probe("../sidecar/main.py", true)];
    let interpreters = vec![probe("python3", true)];
    match resolve_launch(&bundled, &scripts, &interpreters) {
        Ok(SidecarMode::Bundled { path }) => assert_eq!(path, "sidecar/engine"),
        other => panic!("unexpected resolution: {:?}", other),
    }
}

#[test]
fn second_bundled_candidate_when_first_missing() {
    let bundled = vec![probe("sidecar/engine", false), probe("sidecar/engine.exe", true)];
    let scripts = vec![];
    let interpreters = vec![];
    match resolve_launch(&bundled, &scripts, &interpreters) {
        Ok(SidecarMode::Bundled { path }) => assert_eq!(path, "sidecar/engine.exe"),
        other => panic!("unexpected resolution: {:?}", other),
    }
}

#[test]
fn development_mode_pairs_first_script_with_first_interpreter() {
    let bundled = vec![probe("sidecar/engine", false)];
    let scripts = vec![probe("../sidecar/main.py", false), probe("sidecar/main.py", true)];
    let interpreters = vec![probe("python3.12", false), probe("python3", true), probe("python", true)];
    match resolve_launch(&bundled, &scripts, &interpreters) {
        Ok(SidecarMode::Python { interpreter, script }) => {
            assert_eq!(interpreter, "python3");
            assert_eq!(script, "sidecar/main.py");
        },
        other => panic!("unexpected resolution: {:?}", other),
    }
}

#[test]
fn missing_script_is_its_own_error() {
    let bundled = vec![probe("sidecar/engine", false)];
    let scripts = vec![probe("../sidecar/main.py", false)];
    let interpreters = vec![probe("python3", true)];
    assert!(matches!(
        resolve_launch(&bundled, &scripts, &interpreters),
        Err(SupervisorError::ResolutionError(ResolutionFailure::ScriptNotFound))
    ));
}

#[test]
fn missing_interpreter_is_its_own_error() {
    let bundled = vec![];
    let scripts = vec![probe("sidecar/main.py", true)];
    let interpreters = vec![probe("python3.12", false), probe("python3", false), probe("python", false)];
    assert!(matches!(
        resolve_launch(&bundled, &scripts, &interpreters),
        Err(SupervisorError::ResolutionError(ResolutionFailure::InterpreterNotFound))
    ));
}
