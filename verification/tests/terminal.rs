use process_bridge::error::ErrorKind;
use process_bridge::terminal::{
    default_size, plan_terminal, resolve_shell, retire_pty_session, settle_kill,
    start_pty_session, stop_pty_session, write_to_pty, PtyStage, PtyState, ReadOutcome,
    TerminalEvent, TerminalReader,
};

#[test]
fn terminal_starts_at_24_by_80() {
    let size = default_size();
    assert_eq!((size.rows, size.cols, size.pixel_width, size.pixel_height), (24, 80, 0, 0));
}

#[test]
fn shell_of_the_platform() {
    let shell = resolve_shell(true, Some("/bin/zsh"));
    assert_eq!(shell.program, "powershell.exe");
    assert!(shell.args.is_empty());
    let shell = resolve_shell(true, None);
    assert_eq!(shell.program, "powershell.exe");
    assert!(shell.args.is_empty());
    let shell = resolve_shell(false, Some("/bin/zsh"));
    assert_eq!(shell.program, "/bin/zsh");
    assert_eq!(shell.args, vec!["-l".to_string()]);
    let shell = resolve_shell(false, None);
    assert_eq!(shell.program, "/bin/sh");
    assert_eq!(shell.args, vec!["-l".to_string()]);
}

#[test]
fn plan_of_a_terminal() {
    let launch = plan_terminal("t1", Some("/home/me"), false, Some("/usr/bin/fish"));
    assert_eq!(launch.terminal_id, "t1");
    assert_eq!(launch.working_dir, Some("/home/me".to_string()));
    assert_eq!(launch.shell.program, "/usr/bin/fish");
    assert_eq!(launch.shell.args, vec!["-l".to_string()]);
    assert_eq!(launch.size, default_size());
    let launch = plan_terminal("t2", None, true, None);
    assert_eq!(launch.terminal_id, "t2");
    assert_eq!(launch.working_dir, None);
    assert_eq!(launch.shell.program, "powershell.exe");
}

#[test]
fn event_names_carry_the_terminal() {
    let output = TerminalEvent::Output { terminal_id: "t1".to_string(), data: b"x".to_vec() };
    let exit = TerminalEvent::Exit { terminal_id: "t1".to_string() };
    assert_eq!(output.event_name(), "terminal-output-t1");
    assert_eq!(exit.event_name(), "terminal-exit-t1");
    let exit = TerminalEvent::Exit { terminal_id: "".to_string() };
    assert_eq!(exit.event_name(), "terminal-exit-");
}

#[test]
fn reader_emits_output_then_one_exit() {
    let mut reader = TerminalReader::new("t1");
    let step = reader.on_read(ReadOutcome::Data(b"echo hi\r\nhi\r\n".to_vec()));
    assert!(step.proceed);
    match step.event {
        Some(TerminalEvent::Output { terminal_id, data }) => {
            assert_eq!(terminal_id, "t1");
            assert!(String::from_utf8_lossy(&data).contains("hi"));
            assert_eq!(data, b"echo hi\r\nhi\r\n".to_vec());
        }
        other => panic!("{:?}", other),
    }
    let step = reader.on_read(ReadOutcome::Data(Vec::new()));
    assert!(!step.proceed);
    match step.event {
        Some(TerminalEvent::Exit { terminal_id }) => assert_eq!(terminal_id, "t1"),
        other => panic!("{:?}", other),
    }
    for outcome in [ReadOutcome::Data(Vec::new()), ReadOutcome::Failed, ReadOutcome::Data(b"late".to_vec())] {
        let step = reader.on_read(outcome);
        assert!(!step.proceed);
        assert!(step.event.is_none());
    }
}

#[test]
fn reader_emits_exit_on_a_failed_read() {
    let mut reader = TerminalReader::new("t9");
    let step = reader.on_read(ReadOutcome::Failed);
    assert!(!step.proceed);
    assert!(matches!(step.event, Some(TerminalEvent::Exit { ref terminal_id }) if terminal_id == "t9"));
    let step = reader.on_read(ReadOutcome::Failed);
    assert!(step.event.is_none());
}

#[test]
fn reader_counts_exits_over_a_run() {
    let run = vec![
        ReadOutcome::Data(b"a".to_vec()),
        ReadOutcome::Data(b"b".to_vec()),
        ReadOutcome::Failed,
        ReadOutcome::Data(b"c".to_vec()),
        ReadOutcome::Data(Vec::new()),
        ReadOutcome::Failed,
    ];
    let mut reader = TerminalReader::new("t");
    let mut outputs = Vec::new();
    let mut exits = 0;
    for outcome in run {
        match reader.on_read(outcome).event {
            Some(TerminalEvent::Output { data, .. }) => {
                assert_eq!(exits, 0);
                outputs.push(data);
            }
            Some(TerminalEvent::Exit { .. }) => exits += 1,
            None => {}
        }
    }
    assert_eq!(outputs, vec![b"a".to_vec(), b"b".to_vec()]);
    assert_eq!(exits, 1);
}

#[test]
fn reader_hands_out_the_bytes_as_read() {
    let mut reader = TerminalReader::new("t");
    match reader.on_read(ReadOutcome::Data(b"ok\xff!".to_vec())).event {
        Some(TerminalEvent::Output { data, .. }) => assert_eq!(data, b"ok\xff!".to_vec()),
        other => panic!("{:?}", other),
    }
    match reader.on_read(ReadOutcome::Data("gr\u{fc}n".as_bytes().to_vec())).event {
        Some(TerminalEvent::Output { data, .. }) => assert_eq!(data, "gr\u{fc}n".as_bytes().to_vec()),
        other => panic!("{:?}", other),
    }
}

#[test]
fn reader_keeps_a_character_that_is_cut_by_two_reads() {
    // The two bytes of one character come in two reads.
    let text = "caf\u{e9}";
    let bytes = text.as_bytes();
    let mut reader = TerminalReader::new("t");
    let mut joined = Vec::new();
    for piece in [&bytes[..4], &bytes[4..]] {
        match reader.on_read(ReadOutcome::Data(piece.to_vec())).event {
            Some(TerminalEvent::Output { data, .. }) => {
                assert_eq!(data, piece.to_vec());
                joined.extend(data);
            }
            other => panic!("{:?}", other),
        }
    }
    assert_eq!(joined, bytes.to_vec());
    assert_eq!(String::from_utf8(joined), Ok(text.to_string()));
}

#[test]
fn reader_output_joined_is_what_was_read() {
    let pieces: Vec<Vec<u8>> = vec![vec![0xe2], vec![0x82], vec![0xac, b'1'], vec![0xff; 4096], b"end".to_vec()];
    let mut reader = TerminalReader::new("t");
    let mut events = Vec::new();
    for piece in pieces.iter() {
        events.push(reader.on_read(ReadOutcome::Data(piece.clone())).event);
    }
    events.push(reader.on_read(ReadOutcome::Data(Vec::new())).event);
    events.push(reader.on_read(ReadOutcome::Data(b"late".to_vec())).event);
    let mut joined = Vec::new();
    let mut names = Vec::new();
    for event in events.into_iter().flatten() {
        names.push(event.event_name());
        if let TerminalEvent::Output { data, .. } = event {
            joined.extend(data);
        }
    }
    assert_eq!(joined, pieces.concat());
    let mut expected = vec!["terminal-output-t".to_string(); 5];
    expected.push("terminal-exit-t".to_string());
    assert_eq!(names, expected);
}

#[test]
fn ending_a_dead_shell_is_a_success() {
    assert!(settle_kill(Ok(()), false).is_ok());
    assert!(settle_kill(Ok(()), true).is_ok());
    assert!(settle_kill(Err("No such process".to_string()), true).is_ok());
    let error = settle_kill(Err("Operation not permitted".to_string()), false).unwrap_err();
    assert_eq!(error.kind, ErrorKind::Io);
    assert_eq!(error.message, "Failed to kill child process: Operation not permitted");
}

#[test]
fn failures_by_step() {
    let cases = [
        (PtyStage::OpenPty, ErrorKind::Spawn, "Failed to create PTY: boom"),
        (PtyStage::SpawnShell, ErrorKind::Spawn, "Failed to spawn shell: boom"),
        (PtyStage::CloneReader, ErrorKind::Spawn, "Failed to clone reader: boom"),
        (PtyStage::TakeWriter, ErrorKind::Spawn, "Failed to get writer: boom"),
        (PtyStage::LockState, ErrorKind::Io, "Failed to lock state: boom"),
        (PtyStage::LockWriter, ErrorKind::Io, "Failed to lock writer: boom"),
        (PtyStage::LockChild, ErrorKind::Io, "Failed to lock child: boom"),
        (PtyStage::Write, ErrorKind::Io, "Failed to write to PTY: boom"),
        (PtyStage::Flush, ErrorKind::Io, "Failed to flush PTY: boom"),
        (PtyStage::Kill, ErrorKind::Io, "Failed to kill child process: boom"),
    ];
    for (stage, kind, text) in cases {
        let error = stage.failure("boom");
        assert_eq!(error.kind, kind);
        assert_eq!(error.message, text);
    }
}

#[test]
fn start_registers_the_session() {
    let mut state: PtyState<u32> = PtyState::new();
    assert_eq!(retire_pty_session(&mut state, "t1"), None);
    assert_eq!(start_pty_session(&mut state, "t1".to_string(), Ok(1)).ok(), Some(None));
    assert_eq!(state.len(), 1);
    assert_eq!(write_to_pty(&state, "t1").ok(), Some(&1));
}

#[test]
fn restart_leaves_one_session_the_new_one() {
    let mut state: PtyState<u32> = PtyState::new();
    start_pty_session(&mut state, "t1".to_string(), Ok(1)).ok().unwrap();
    start_pty_session(&mut state, "t2".to_string(), Ok(2)).ok().unwrap();
    // The old session is handed out to be ended before the new one starts.
    assert_eq!(retire_pty_session(&mut state, "t1"), Some(1));
    assert!(write_to_pty(&state, "t1").is_err());
    assert_eq!(start_pty_session(&mut state, "t1".to_string(), Ok(11)).ok(), Some(None));
    assert_eq!(state.len(), 2);
    assert_eq!(write_to_pty(&state, "t1").ok(), Some(&11));
    assert_eq!(write_to_pty(&state, "t2").ok(), Some(&2));
}

#[test]
fn restart_without_retiring_hands_the_old_session_out() {
    let mut state: PtyState<u32> = PtyState::new();
    assert_eq!(start_pty_session(&mut state, "t1".to_string(), Ok(1)).ok(), Some(None));
    assert_eq!(start_pty_session(&mut state, "t1".to_string(), Ok(2)).ok(), Some(Some(1)));
    assert_eq!(state.len(), 1);
    assert_eq!(write_to_pty(&state, "t1").ok(), Some(&2));
}

#[test]
fn failed_restart_leaves_no_session() {
    let mut state: PtyState<u32> = PtyState::new();
    start_pty_session(&mut state, "t1".to_string(), Ok(1)).ok().unwrap();
    assert_eq!(retire_pty_session(&mut state, "t1"), Some(1));
    let error = start_pty_session(&mut state, "t1".to_string(), Err(PtyStage::OpenPty.failure("no ptys")))
        .err()
        .unwrap();
    assert_eq!(error.kind, ErrorKind::Spawn);
    assert_eq!(error.message, "Failed to create PTY: no ptys");
    assert_eq!(state.len(), 0);
}

#[test]
fn write_to_unknown_terminal_is_a_lookup_failure() {
    let state: PtyState<u32> = PtyState::new();
    let error = write_to_pty(&state, "t7").err().unwrap();
    assert_eq!(error.kind, ErrorKind::Lookup);
    assert_eq!(error.message, "No active PTY session for terminal t7");
}

#[test]
fn stop_hands_out_the_session_once() {
    let mut state: PtyState<u32> = PtyState::new();
    start_pty_session(&mut state, "t1".to_string(), Ok(1)).ok().unwrap();
    start_pty_session(&mut state, "t2".to_string(), Ok(2)).ok().unwrap();
    assert_eq!(stop_pty_session(&mut state, "t1").ok(), Some(1));
    let error = stop_pty_session(&mut state, "t1").err().unwrap();
    assert_eq!(error.kind, ErrorKind::Lookup);
    assert_eq!(error.message, "No active PTY session for terminal t1");
    assert_eq!(state.len(), 1);
    assert_eq!(write_to_pty(&state, "t2").ok(), Some(&2));
}

#[test]
fn stop_of_unknown_terminal_is_a_lookup_failure() {
    let mut state: PtyState<u32> = PtyState::new();
    let error = stop_pty_session(&mut state, "never").err().unwrap();
    assert_eq!(error.kind, ErrorKind::Lookup);
    assert_eq!(error.message, "No active PTY session for terminal never");
    assert_eq!(state.len(), 0);
    start_pty_session(&mut state, "t1".to_string(), Ok(1)).ok().unwrap();
    assert!(stop_pty_session(&mut state, "never").is_err());
    assert_eq!(state.len(), 1);
}
