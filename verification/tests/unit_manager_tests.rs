use revisor::unit_manager::{
    Error, Reaped, Signal, StartStep, TimerStep, UnitManager, KILL_DELAY, RESTART_DELAY,
};

fn manager_with(names: &[&str]) -> UnitManager {
    let mut m = UnitManager::new("/srv/units".to_string());
    for name in names {
        m.add(name.to_string()).unwrap();
    }
    m
}

fn start_with_pid(m: &mut UnitManager, name: &str, pid: i32) {
    match m.start(name) {
        Ok(StartStep::Spawn(req)) => m.spawn_succeeded(req.key, pid),
        _ => panic!("expected a spawn request"),
    }
}

#[test]
fn added_unit_is_wanted_alive_without_process() {
    let m = manager_with(&["web"]);
    let status = m.status("web").unwrap();
    assert_eq!(status.pid, None);
    assert!(status.want_alive);
    assert!(m.unit_key_by_name("web").is_some());
}

#[test]
fn adding_a_name_twice_is_refused() {
    let mut m = manager_with(&["web"]);
    assert_eq!(m.add("web".to_string()), Err(()));
    assert_eq!(m.add("db".to_string()), Ok(()));
}

#[test]
fn unknown_units_are_not_found() {
    let mut m = manager_with(&["web"]);
    assert!(m.status("nope").is_none());
    assert!(m.unit_key_by_name("nope").is_none());
    assert!(matches!(m.start("nope"), Err(Error::NotFound)));
    assert!(matches!(m.stop("nope", 0), Err(Error::NotFound)));
    assert!(matches!(m.remove("nope", 0), Err(Error::NotFound)));
}

#[test]
fn start_asks_to_spawn_the_run_executable() {
    let mut m = manager_with(&["web"]);
    match m.start("web") {
        Ok(StartStep::Spawn(req)) => {
            assert_eq!(req.exec_path, "/srv/units/web/run");
            assert_eq!(req.name, "web");
            m.spawn_succeeded(req.key, 42);
        }
        _ => panic!("expected a spawn request"),
    }
    assert_eq!(m.status("web").unwrap().pid, Some(42));
    assert!(matches!(m.start("web"), Ok(StartStep::Running(42))));
}

#[test]
fn exec_path_joins_relative_directory() {
    let mut m = UnitManager::new("units/".to_string());
    m.add("a".to_string()).unwrap();
    match m.start("a") {
        Ok(StartStep::Spawn(req)) => assert_eq!(req.exec_path, "units/a/run"),
        _ => panic!("expected a spawn request"),
    }
}

#[test]
fn failed_spawn_schedules_a_restart() {
    let mut m = manager_with(&["web"]);
    let req = match m.start("web") {
        Ok(StartStep::Spawn(req)) => req,
        _ => panic!("expected a spawn request"),
    };
    m.spawn_failed(req.key, 100);
    assert_eq!(m.next_timeout(100), Some(RESTART_DELAY));
    assert_eq!(m.next_timeout(600), Some(RESTART_DELAY - 500));
    assert!(m.next_due_timer(100 + RESTART_DELAY - 1).is_none());
    match m.next_due_timer(100 + RESTART_DELAY) {
        Some(TimerStep::Spawn(again)) => assert_eq!(again.exec_path, "/srv/units/web/run"),
        _ => panic!("expected a restart"),
    }
    assert_eq!(m.next_timeout(5000), None);
}

#[test]
fn stop_sends_sigterm_and_escalates_to_sigkill() {
    let mut m = manager_with(&["web"]);
    start_with_pid(&mut m, "web", 7);
    let req = m.stop("web", 1000).unwrap().unwrap();
    assert_eq!(req.pid, 7);
    assert_eq!(req.signal, Signal::Terminate);
    let status = m.status("web").unwrap();
    assert!(!status.want_alive);
    assert_eq!(status.pid, Some(7));
    assert_eq!(m.next_timeout(1000), Some(KILL_DELAY));
    match m.next_due_timer(1000 + KILL_DELAY) {
        Some(TimerStep::Kill(kill)) => {
            assert_eq!(kill.pid, 7);
            assert_eq!(kill.signal, Signal::Kill);
            m.kill_succeeded(kill.key);
        }
        _ => panic!("expected a SIGKILL"),
    }
    assert!(m.status("web").is_some());
}

#[test]
fn failed_sigkill_is_retried() {
    let mut m = manager_with(&["web"]);
    start_with_pid(&mut m, "web", 7);
    m.stop("web", 0).unwrap();
    let kill = match m.next_due_timer(KILL_DELAY) {
        Some(TimerStep::Kill(kill)) => kill,
        _ => panic!("expected a SIGKILL"),
    };
    m.kill_failed(kill.key, KILL_DELAY);
    assert_eq!(m.next_timeout(KILL_DELAY), Some(KILL_DELAY));
}

#[test]
fn stopping_a_dead_unit_needs_no_signal() {
    let mut m = manager_with(&["web"]);
    assert!(m.stop("web", 0).unwrap().is_none());
    assert!(!m.status("web").unwrap().want_alive);
    assert_eq!(m.next_timeout(0), None);
}

#[test]
fn unrequested_death_restarts_after_delay() {
    let mut m = manager_with(&["web"]);
    start_with_pid(&mut m, "web", 9);
    assert!(matches!(m.notify_terminated(9, 50), Reaped::Handled));
    assert_eq!(m.status("web").unwrap().pid, None);
    assert!(!m.tracks_pid(9));
    assert_eq!(m.next_timeout(50), Some(RESTART_DELAY));
}

#[test]
fn requested_death_of_a_wanted_unit_restarts_at_once() {
    let mut m = manager_with(&["web"]);
    start_with_pid(&mut m, "web", 9);
    m.stop("web", 0).unwrap();
    match m.start("web") {
        Ok(StartStep::Running(9)) => {}
        _ => panic!("expected the running process"),
    }
    match m.notify_terminated(9, 10) {
        Reaped::Restart(req) => assert_eq!(req.exec_path, "/srv/units/web/run"),
        _ => panic!("expected an immediate restart"),
    }
    assert_eq!(m.next_timeout(10), None);
}

#[test]
fn death_of_a_stopped_unit_is_final() {
    let mut m = manager_with(&["web"]);
    start_with_pid(&mut m, "web", 9);
    m.stop("web", 0).unwrap();
    assert!(matches!(m.notify_terminated(9, 10), Reaped::Handled));
    assert_eq!(m.next_timeout(10), None);
    assert_eq!(m.status("web").unwrap().pid, None);
}

#[test]
fn unknown_pid_is_unrecognized() {
    let mut m = manager_with(&["web"]);
    assert!(matches!(m.notify_terminated(1234, 0), Reaped::Unrecognized));
}

#[test]
fn timers_fire_earliest_first() {
    let mut m = manager_with(&["a", "b"]);
    let ra = match m.start("a") {
        Ok(StartStep::Spawn(r)) => r,
        _ => panic!(),
    };
    let rb = match m.start("b") {
        Ok(StartStep::Spawn(r)) => r,
        _ => panic!(),
    };
    m.spawn_failed(rb.key, 0);
    m.spawn_failed(ra.key, 10);
    match m.next_due_timer(20_000) {
        Some(TimerStep::Spawn(r)) => assert_eq!(r.name, "b"),
        _ => panic!(),
    }
    match m.next_due_timer(20_000) {
        Some(TimerStep::Spawn(r)) => assert_eq!(r.name, "a"),
        _ => panic!(),
    }
    assert!(m.next_due_timer(20_000).is_none());
}

#[test]
fn alive_units_lists_units_with_processes_in_key_order() {
    let mut m = manager_with(&["a", "b", "c"]);
    start_with_pid(&mut m, "a", 11);
    start_with_pid(&mut m, "c", 33);
    let alive = m.alive_units();
    assert_eq!(alive, vec![(11, "a".to_string()), (33, "c".to_string())]);
}

#[test]
fn removing_a_dead_unit_forgets_it() {
    let mut m = manager_with(&["web"]);
    assert!(m.remove("web", 0).unwrap().is_none());
    assert!(m.status("web").is_none());
    assert_eq!(m.add("web".to_string()), Ok(()));
}

#[test]
fn removing_a_live_unit_kills_then_forgets_it() {
    let mut m = manager_with(&["web"]);
    start_with_pid(&mut m, "web", 5);
    let term = m.remove("web", 0).unwrap().unwrap();
    assert_eq!(term.signal, Signal::Terminate);
    match m.next_due_timer(KILL_DELAY) {
        Some(TimerStep::Kill(kill)) => m.kill_succeeded(kill.key),
        _ => panic!("expected a SIGKILL"),
    }
    assert!(m.status("web").is_none());
    assert!(m.tracks_pid(5));
    assert!(!m.pid_leads_to_unit(5));
}

#[test]
fn a_reused_key_takes_the_death_of_a_forgotten_units_process() {
    let mut m = manager_with(&["web"]);
    start_with_pid(&mut m, "web", 5);
    m.remove("web", 0).unwrap().unwrap();
    match m.next_due_timer(KILL_DELAY) {
        Some(TimerStep::Kill(kill)) => m.kill_succeeded(kill.key),
        _ => panic!("expected a SIGKILL"),
    }
    m.add("db".to_string()).unwrap();
    start_with_pid(&mut m, "db", 6);
    assert!(m.pid_leads_to_unit(5));
    assert!(matches!(m.notify_terminated(5, 100), Reaped::Handled));
    assert!(!m.tracks_pid(5));
    assert!(m.tracks_pid(6));
    assert_eq!(m.status("db").unwrap().pid, None);
    assert_eq!(m.next_timeout(100), Some(RESTART_DELAY));
}

#[test]
fn error_messages() {
    assert_eq!(Error::NotFound.message(), "unit not found");
    let err = Error::System(revisor::sys::Error {
        syscall_name: "kill",
        io_err: std::io::Error::from_raw_os_error(3),
    });
    let io = std::io::Error::from_raw_os_error(3);
    assert_eq!(err.message(), format!("kill failed: {}", io));
    let io = std::io::Error::from(std::io::ErrorKind::NotFound);
    let text = io.to_string();
    assert!(!text.is_empty());
    assert_eq!(Error::Io(io).message(), text);
}
