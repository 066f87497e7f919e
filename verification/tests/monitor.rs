use rcard_host::monitor::{clean_response, parse_mach_create, strip_control_str, EmulatorError, MonitorState, WaitFor};

fn feed_all(m: &mut MonitorState, bytes: &[u8]) {
    for &b in bytes {
        m.feed(b);
    }
}

#[test]
fn banner_ends_at_the_prompt() {
    let mut m = MonitorState::new();
    assert!(!m.is_idle());
    feed_all(&mut m, b"Renode, version 1.15\r\n\x1b[32mready\x1b[0m\n(monitor) ");
    assert!(m.is_idle());
}

#[test]
fn command_response_round_trip() {
    let mut m = MonitorState::new();
    feed_all(&mut m, b"(monitor) ");
    assert!(m.is_idle());
    m.begin_command("sysbus ReadDoubleWord 0x0");
    assert!(!m.is_idle());
    feed_all(&mut m, b"sysbus ReadDoubleWord 0x0\r\n0x12345678\r\n(monitor) ");
    assert!(m.is_idle());
    let r = m.take_response();
    assert_eq!(r, vec!["0x12345678\r".to_string()]);
    assert!(m.take_response().is_empty());
}

#[test]
fn telnet_negotiation_is_skipped() {
    let mut m = MonitorState::new();
    feed_all(&mut m, &[0xFF, 0xFB, 0x01]);
    feed_all(&mut m, b"(monitor) ");
    assert!(m.is_idle());
}

#[test]
fn machine_creation_changes_the_prompt() {
    assert_eq!(parse_mach_create("mach create \"sf32\""), Some("sf32"));
    assert_eq!(parse_mach_create("  mach create   \"x\"  "), Some("x"));
    assert_eq!(parse_mach_create("mach create sf32"), None);
    assert_eq!(parse_mach_create("mach clear"), None);
    let mut m = MonitorState::new();
    feed_all(&mut m, b"(monitor) ");
    m.begin_command("mach create \"sf32\"");
    feed_all(&mut m, b"mach create \"sf32\"\n(monitor) ");
    assert!(!m.is_idle());
    feed_all(&mut m, b"\n(sf32) ");
    assert!(m.is_idle());
}

#[test]
fn closing_is_final() {
    let mut m = MonitorState::new();
    m.close();
    assert!(m.is_closed());
    feed_all(&mut m, b"(monitor) ");
    assert!(m.is_closed());
}

#[test]
fn control_sequences_are_stripped() {
    assert_eq!(strip_control_str("\x1b[31mred\x1b[0m text"), "red text");
    assert_eq!(strip_control_str("tab\there"), "tabhere");
    assert_eq!(strip_control_str("plain"), "plain");
}

#[test]
fn non_ascii_text_is_kept_as_it_is() {
    assert_eq!(strip_control_str("\u{e9}t\u{e9} \u{2192} \u{1F600}"), "\u{e9}t\u{e9} \u{2192} \u{1F600}");
    assert_eq!(strip_control_str("\x1b[1m\u{e9}\x1b[0m\r"), "\u{e9}");
}

#[test]
fn text_without_escapes_loses_only_control_characters() {
    let input = "a\tb\u{e9}\x01c\x7f\n";
    let kept: String = input.chars().filter(|c| *c >= ' ').collect();
    assert_eq!(strip_control_str(input), kept);
    assert_eq!(strip_control_str(input), "ab\u{e9}c\x7f");
}

#[test]
fn query_answers_are_cleaned_and_joined() {
    let raw = vec![
        "  first \r".to_string(),
        "\x1b[1m\x1b[0m".to_string(),
        "second".to_string(),
        "   ".to_string(),
    ];
    assert_eq!(clean_response(&raw), "first\nsecond");
    assert_eq!(clean_response(&Vec::new()), "");
}

#[test]
fn emulator_error_messages() {
    assert_eq!(EmulatorError::MonitorDisconnected.message(), "Renode monitor disconnected");
    assert_eq!(
        EmulatorError::RenodeSpawn("no such file".to_string()).message(),
        "failed to spawn Renode: no such file"
    );
    assert_eq!(EmulatorError::InvalidPlaces("bad".to_string()).message(), "invalid places binary: bad");
    let e = EmulatorError::send_timed_out("start");
    assert_eq!(e.message(), "monitor command error: timed out waiting to send 'start'");
    let e = EmulatorError::response_timed_out("s");
    assert_eq!(e.message(), "monitor command error: timed out waiting for response to 's'");
}

#[test]
fn a_wait_ends_when_idle_closed_or_out_of_time() {
    let mut st = MonitorState::new();
    assert!(st.wait_step(WaitFor::Banner, "", 5).is_none());
    match st.wait_step(WaitFor::Banner, "", 0) {
        Some(Err(EmulatorError::MonitorCommand(m))) => assert_eq!(m, "timed out waiting for Renode banner"),
        other => panic!("unexpected {other:?}"),
    }
    assert!(!st.is_closed());
    for &b in b"Renode\r\n(monitor) " {
        st.feed(b);
    }
    assert!(matches!(st.wait_step(WaitFor::Banner, "", 0), Some(Ok(()))));
    st.begin_command("help");
    match st.wait_step(WaitFor::Send, "help", 0) {
        Some(Err(EmulatorError::MonitorCommand(m))) => assert_eq!(m, "timed out waiting to send 'help'"),
        other => panic!("unexpected {other:?}"),
    }
    assert!(!st.is_closed());
    match st.wait_step(WaitFor::Response, "help", 0) {
        Some(Err(EmulatorError::MonitorCommand(m))) => assert_eq!(m, "timed out waiting for response to 'help'"),
        other => panic!("unexpected {other:?}"),
    }
    assert!(st.is_closed());
    assert!(matches!(st.wait_step(WaitFor::Response, "help", 100), Some(Err(EmulatorError::MonitorDisconnected))));
}
