use revisor::control_session::{
    action_for, parse_command, serialize_unit_status, Action, Command, ControlSession,
    InputRequest, Reply, Verb,
};
use revisor::poll::{INPUT_BITS, OUTPUT_BITS};
use revisor::unit_manager::{Error, UnitManager, UnitStatus};

#[test]
fn parses_the_verbs() {
    assert!(matches!(parse_command(b"start\tweb"), Command::Start(n) if n == "web"));
    assert!(matches!(parse_command(b"stop\tweb"), Command::Stop(n) if n == "web"));
    assert!(matches!(parse_command(b"status\tweb\textra"), Command::Status(n) if n == "web"));
    assert!(matches!(parse_command(b"start\t"), Command::Start(n) if n.is_empty()));
}

#[test]
fn missing_names_unknown_verbs_and_ignored_lines() {
    assert!(matches!(parse_command(b"start"), Command::MissingName(Verb::Start)));
    assert!(matches!(parse_command(b"status"), Command::MissingName(Verb::Status)));
    assert!(matches!(parse_command(b"restart\tweb"), Command::Unknown));
    assert!(matches!(parse_command(b"Start\tweb"), Command::Unknown));
    assert!(matches!(parse_command(b""), Command::Ignored));
    assert!(matches!(parse_command(&[0xff, 0xfe]), Command::Ignored));
}

#[test]
fn non_ascii_unit_names() {
    assert!(matches!(parse_command("stop\tcafé".as_bytes()), Command::Stop(n) if n == "café"));
}

#[test]
fn reply_lines() {
    assert_eq!(Reply::Success.to_bytes(), b"ok\n".to_vec());
    assert_eq!(Reply::Unknown.to_bytes(), b"unkn\n".to_vec());
    assert_eq!(Reply::Error("x".to_string()).to_bytes(), b"error: x\n".to_vec());
    assert_eq!(Reply::for_status(None).to_bytes(), b"error: not found\n".to_vec());
    assert_eq!(
        Reply::missing_name(Verb::Stop).to_bytes(),
        b"error: expected a unit name after 'stop'\n".to_vec()
    );
    assert_eq!(Reply::command_too_long().to_bytes(), b"error: command too long\n".to_vec());
    assert_eq!(
        Reply::from_result::<()>(Err(Error::NotFound)).to_bytes(),
        b"error: unit not found\n".to_vec()
    );
    assert_eq!(Reply::from_result::<i32>(Ok(3)).to_bytes(), b"ok\n".to_vec());
}

#[test]
fn status_serialization() {
    let alive = UnitStatus { pid: Some(1234), want_alive: true };
    assert_eq!(serialize_unit_status(&alive), b"pid=1234\twant_alive=true".to_vec());
    let dead = UnitStatus { pid: None, want_alive: false };
    assert_eq!(serialize_unit_status(&dead), b"pid=dead\twant_alive=false".to_vec());
    let negative = UnitStatus { pid: Some(-7), want_alive: false };
    assert_eq!(serialize_unit_status(&negative), b"pid=-7\twant_alive=false".to_vec());
    assert_eq!(
        Reply::for_status(Some(UnitStatus { pid: Some(5), want_alive: true })).to_bytes(),
        b"ok: pid=5\twant_alive=true\n".to_vec()
    );
}

#[test]
fn session_handles_lines_one_reply_at_a_time() {
    let mut s = ControlSession::new();
    assert_eq!(s.events().bits, INPUT_BITS);
    assert!(matches!(s.input_request(), InputRequest::Read(256)));
    s.input_received(b"status\ta\nstop\tb\npart");
    assert!(matches!(s.next_command(), Some(Command::Status(n)) if n == "a"));
    s.write_reply(&Reply::Success).unwrap();
    assert_eq!(s.pending_output(), b"ok\n");
    assert_eq!(s.events().bits, OUTPUT_BITS);
    assert!(matches!(s.input_request(), InputRequest::Wait));
    assert!(s.next_command().is_none());
    s.output_written(2);
    assert_eq!(s.pending_output(), b"\n");
    s.output_written(1);
    assert!(matches!(s.next_command(), Some(Command::Stop(n)) if n == "b"));
    assert!(s.next_command().is_none());
    assert!(matches!(s.input_request(), InputRequest::Read(252)));
    s.input_received(b"\n");
    assert!(matches!(s.next_command(), Some(Command::Unknown)));
}

#[test]
fn a_full_line_less_buffer_overflows() {
    let mut s = ControlSession::new();
    s.input_received(&[b'x'; 256]);
    assert!(s.next_command().is_none());
    assert!(s.input_overflowed());
    assert!(matches!(s.input_request(), InputRequest::Close));
    s.write_reply(&Reply::command_too_long()).unwrap();
    assert_eq!(s.pending_output(), b"error: command too long\n");
}

#[test]
fn replies_that_do_not_fit_are_refused() {
    let mut s = ControlSession::new();
    let long = "y".repeat(250);
    assert_eq!(s.write_reply(&Reply::Error(long)), Err(()));
    assert!(s.pending_output().is_empty());
}

#[test]
fn commands_become_actions() {
    let mut m = UnitManager::new("units".to_string());
    m.add("web".to_string()).unwrap();
    match action_for(Command::Status("web".to_string()), &m) {
        Action::Answer(Reply::Status(s)) => assert!(s.pid.is_none() && s.want_alive),
        other => panic!("unexpected {:?}", other),
    }
    match action_for(Command::Status("db".to_string()), &m) {
        Action::Answer(Reply::Error(text)) => assert_eq!(text, "not found"),
        other => panic!("unexpected {:?}", other),
    }
    assert!(matches!(action_for(Command::Start("web".to_string()), &m), Action::Start(n) if n == "web"));
    assert!(matches!(action_for(Command::Stop("db".to_string()), &m), Action::Stop(n) if n == "db"));
    match action_for(Command::MissingName(Verb::Stop), &m) {
        Action::Answer(Reply::Error(text)) => assert_eq!(text, "expected a unit name after 'stop'"),
        other => panic!("unexpected {:?}", other),
    }
    assert!(matches!(action_for(Command::Unknown, &m), Action::Answer(Reply::Unknown)));
    assert!(matches!(action_for(Command::Ignored, &m), Action::Nothing));
}
