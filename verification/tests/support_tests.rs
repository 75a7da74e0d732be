use std::cell::Cell;
use std::sync::atomic::AtomicUsize;

use revisor::cli::{
    get_control_sock_path, is_unit_name, render_response, request_line, response_complete, Args,
    ClientArgs,
};
use revisor::exit::ExitWaiter;
use revisor::paths::{exec_path, push_path};
use revisor::signal::{AtomicSignalCounters, SignalCounters, SignalCountersImpl};
use revisor::sys::{io_attempt, wrap_libc, wrap_libc_attempt, Attempt};
use revisor::text::{append_decimal, append_signed_decimal};
use revisor::unit_manager::KILL_DELAY;
use revisor::util::{mutate_cell, skip_slice_until, IsNegative};

#[test]
fn path_pushing_follows_pathbuf() {
    assert_eq!(push_path("a".to_string(), "b"), "a/b");
    assert_eq!(push_path("a/".to_string(), "b"), "a/b");
    assert_eq!(push_path(String::new(), "b"), "b");
    assert_eq!(push_path("a".to_string(), "/b"), "/b");
    assert_eq!(exec_path("/u", "x"), "/u/x/run");
    let p: std::path::PathBuf = ["dir", "unit", "run"].iter().collect();
    assert_eq!(exec_path("dir", "unit"), p.to_str().unwrap());
}

#[test]
fn control_socket_path() {
    let args = Args::from_options(None, false, false, vec!["units".to_string()]).unwrap();
    assert_eq!(get_control_sock_path(&args), "units/control.sock");
    let args = Args::from_options(Some("/tmp/s".to_string()), false, true, vec!["u".to_string()]).unwrap();
    assert_eq!(get_control_sock_path(&args), "/tmp/s");
    assert!(args.kill_on_exit);
}

#[test]
fn arguments_need_one_directory_unless_help() {
    assert!(Args::from_options(None, false, false, vec![]).is_err());
    assert!(Args::from_options(None, false, false, vec!["a".into(), "b".into()]).is_err());
    let help = Args::from_options(None, true, false, vec![]).unwrap();
    assert!(help.need_help());
    assert_eq!(help.units, "");
}

#[test]
fn unit_names_have_no_dots() {
    assert!(is_unit_name("web"));
    assert!(!is_unit_name("control.sock"));
    assert!(!is_unit_name(".hidden"));
}

#[test]
fn client_request_and_response() {
    assert_eq!(request_line(&vec!["status".into(), "web".into()]), b"status\tweb\n".to_vec());
    assert_eq!(request_line(&vec![]), b"\n".to_vec());
    assert_eq!(render_response(b"ok: pid=1\twant_alive=true\n"), b"ok: pid=1 want_alive=true\n".to_vec());
    let buf = *b"ok\n\0";
    assert!(response_complete(&buf, 3, 3));
    assert!(!response_complete(&buf, 2, 2));
    assert!(response_complete(&buf, 2, 0));
    let client = ClientArgs::from_options(false, Some("/s".into()), vec!["x".into()]);
    assert_eq!(client.control_socket, "/s");
    assert!(!client.need_help());
}

#[test]
fn decimal_text() {
    let mut out = Vec::new();
    append_decimal(&mut out, 0);
    append_decimal(&mut out, 907);
    append_signed_decimal(&mut out, i32::MIN);
    assert_eq!(out, b"0907-2147483648".to_vec());
}

#[test]
fn wrap_libc_maps_negative_results_to_errors() {
    assert_eq!(wrap_libc("ok", || 5i32).ok(), Some(5));
    let err = wrap_libc("bad", || -1i32).err().unwrap();
    assert_eq!(err.syscall_name, "bad");
    assert!(err.message().starts_with("bad failed: "));
    assert!((-1isize).is_negative());
    assert!(!0i64.is_negative());
}

#[test]
fn skip_slice_until_first_match() {
    let xs = [1, 2, 3, 4];
    assert_eq!(skip_slice_until(&xs, |x| *x > 2), &[3, 4]);
    assert_eq!(skip_slice_until(&xs, |x| *x > 9), &[] as &[i32]);
    assert_eq!(skip_slice_until(&xs, |_| true), &xs);
}

#[test]
fn mutate_cell_changes_the_value() {
    let c = Cell::new(4u32);
    mutate_cell(&c, |x| *x += 1);
    assert_eq!(c.get(), 5);
}

#[test]
fn signal_counters() {
    let atomic: AtomicSignalCounters = SignalCountersImpl {
        sigchld: AtomicUsize::new(2),
        sigint: AtomicUsize::new(0),
        sigterm: AtomicUsize::new(1),
    };
    let counters = SignalCounters::load(&atomic);
    assert_eq!(counters.sigchld, 2);
    assert!(counters.exit_requested());
    let quiet = SignalCounters { sigchld: 9, sigint: 0, sigterm: 0 };
    assert!(!quiet.exit_requested());
}

#[test]
fn exit_waiter_tracks_processes_until_the_deadline() {
    let mut w = ExitWaiter::new(100);
    assert!(!w.keep_waiting(Some(1)));
    w.await_unit(7, "a".to_string());
    w.await_unit(8, "b".to_string());
    assert!(w.keep_waiting(w.time_left(100)));
    assert_eq!(w.time_left(100), Some(KILL_DELAY));
    assert_eq!(w.time_left(100 + KILL_DELAY), Some(0));
    assert_eq!(w.time_left(101 + KILL_DELAY), None);
    assert!(!w.keep_waiting(None));
    w.reaped(7);
    w.reaped(99);
    assert_eq!(w.remaining(), vec![(8, "b".to_string())]);
}

#[test]
fn attempts_retry_only_interruptions() {
    assert!(matches!(wrap_libc_attempt("read", || 7i32), Attempt::Finished(Ok(7))));
    match wrap_libc_attempt("read", || -1i32) {
        Attempt::Finished(Ok(_)) => panic!("a negative result is a failure"),
        Attempt::Finished(Err(err)) => {
            assert_eq!(err.syscall_name, "read");
            assert_ne!(err.io_err.kind(), std::io::ErrorKind::Interrupted);
        }
        Attempt::Interrupted(err) => {
            assert_eq!(err.syscall_name, "read");
            assert_eq!(err.io_err.kind(), std::io::ErrorKind::Interrupted);
        }
    }

    let ok: Attempt<std::io::Result<u8>, std::io::Error> = io_attempt(|| Ok(3u8));
    assert!(matches!(ok, Attempt::Finished(Ok(3))));
    let interrupted: Attempt<std::io::Result<u8>, std::io::Error> =
        io_attempt(|| Err(std::io::Error::from(std::io::ErrorKind::Interrupted)));
    match interrupted {
        Attempt::Interrupted(err) => assert_eq!(err.kind(), std::io::ErrorKind::Interrupted),
        _ => panic!("an interruption must ask for another attempt"),
    }
    let other: Attempt<std::io::Result<u8>, std::io::Error> =
        io_attempt(|| Err(std::io::Error::from(std::io::ErrorKind::WouldBlock)));
    match other {
        Attempt::Finished(Err(err)) => assert_eq!(err.kind(), std::io::ErrorKind::WouldBlock),
        _ => panic!("a failure other than an interruption must be handed back"),
    }
}

#[test]
fn signal_tracker_reaps_on_new_sigchld() {
    let mut t = revisor::signal::SignalTracker::new(0);
    let quiet = SignalCounters { sigchld: 0, sigint: 0, sigterm: 0 };
    let news = t.observe(&quiet);
    assert!(!news.reap && !news.exit);
    let child = SignalCounters { sigchld: 2, sigint: 0, sigterm: 0 };
    let news = t.observe(&child);
    assert!(news.reap && !news.exit);
    assert_eq!(t.sigchld_seen, 2);
    assert!(!t.observe(&child).reap);
    let term = SignalCounters { sigchld: 2, sigint: 0, sigterm: 1 };
    assert!(t.observe(&term).exit);
}
