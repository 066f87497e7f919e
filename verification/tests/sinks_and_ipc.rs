use rcard_host::ipc::{pick, PendingCalls};
use rcard_host::sinks::{
    parse_fragment, CobsFramer, DisplaySink, FrameEvent, HexDumpSink, StreamTable, StringLogger, GDDRAM_SIZE,
    STREAM_TIMEOUT_MS,
};

#[test]
fn hex_dump_lines_of_thirty_two_bytes() {
    let mut s = HexDumpSink::new(3);
    let mut lines = Vec::new();
    for b in 0u8..40 {
        if let Some(l) = s.on_byte(b) {
            lines.push(l);
        }
    }
    assert_eq!(lines.len(), 1);
    let expect: Vec<String> = (0u8..32).map(|b| format!("{b:02x}")).collect();
    assert_eq!(lines[0], format!("[USART3] {}", expect.join(" ")));
    let rest = s.flush().unwrap();
    assert_eq!(rest, "[USART3] 20 21 22 23 24 25 26 27");
    assert_eq!(s.flush(), None);
}

#[test]
fn text_lines_end_at_newlines() {
    let mut s = StringLogger::new(1);
    let mut lines = Vec::new();
    for &b in b"hello\nw\xffrld\n" {
        if let Some(l) = s.on_byte(b) {
            lines.push(l);
        }
    }
    assert_eq!(lines, vec!["hello".to_string(), "w\u{fffd}rld".to_string()]);
}

#[test]
fn display_frames_are_one_kibibyte() {
    let mut s = DisplaySink::new(4);
    let mut frames = Vec::new();
    for i in 0..(GDDRAM_SIZE * 2 + 5) {
        if let Some(f) = s.on_byte((i % 251) as u8) {
            frames.push(f);
        }
    }
    assert_eq!(frames.len(), 2);
    assert_eq!(frames[0].len(), GDDRAM_SIZE);
    assert_eq!(frames[1][0], (GDDRAM_SIZE % 251) as u8);
}

#[test]
fn cobs_frames_are_decoded_at_the_delimiter() {
    let mut f = CobsFramer::new();
    let mut chunks = Vec::new();
    for &b in &[0x03u8, 0x11, 0x22, 0x02, 0x33, 0x00, 0x00, 0x01, 0x01, 0x00] {
        match f.on_byte(b) {
            FrameEvent::Pending => {}
            FrameEvent::Delimiter { chunk } => chunks.push(chunk),
        }
    }
    assert_eq!(chunks.len(), 3);
    assert_eq!(chunks[0], Some(vec![0x11, 0x22, 0x00, 0x33]));
    assert_eq!(chunks[1], None);
    assert_eq!(chunks[2], Some(vec![0x00]));
}

#[test]
fn oversized_frames_are_dropped() {
    let mut f = CobsFramer::new();
    for _ in 0..400 {
        assert!(matches!(f.on_byte(0x01), FrameEvent::Pending));
    }
    match f.on_byte(0) {
        FrameEvent::Delimiter { chunk } => assert!(chunk.is_some()),
        FrameEvent::Pending => panic!("delimiter expected"),
    }
}

#[test]
fn fragments_carry_a_stream_id_and_data() {
    let mut chunk = vec![0x05u8];
    chunk.extend_from_slice(&0x0102_0304_0506_0708u64.to_le_bytes());
    chunk.push(3);
    chunk.extend_from_slice(&[9, 8, 7, 6]);
    assert_eq!(parse_fragment(&chunk, 5), Some((0x0102_0304_0506_0708, vec![9, 8, 7])));
    assert_eq!(parse_fragment(&chunk, 6), None);
    let mut empty = chunk.clone();
    empty[9] = 0;
    assert_eq!(parse_fragment(&empty, 5), None);
    let mut short = chunk.clone();
    short[9] = 5;
    assert_eq!(parse_fragment(&short, 5), None);
    assert_eq!(parse_fragment(&[5, 1, 2], 5), None);
}

#[test]
fn stale_streams_after_the_timeout() {
    let mut t: StreamTable<Vec<u8>> = StreamTable::new();
    t.touch(1, 100, vec![]);
    t.touch(2, 1000, vec![]);
    t.get_mut(1).unwrap().push(7);
    t.touch(1, 500, vec![99]);
    assert_eq!(t.get_mut(1).map(|s| s.clone()), Some(vec![7]));
    let mut stale = t.stale(500 + STREAM_TIMEOUT_MS + 1);
    stale.sort();
    assert_eq!(stale, vec![1]);
    assert!(t.stale(500 + STREAM_TIMEOUT_MS).is_empty());
    assert_eq!(t.remove(1), Some(vec![7]));
    assert_eq!(t.remove(1), None);
    assert!(t.get_mut(1).is_none());
    assert!(t.stale(0).is_empty());
}

#[test]
fn replies_go_to_the_waiting_call_once() {
    let mut p: PendingCalls<&str> = PendingCalls::new();
    assert_eq!(p.register(1, "a"), Ok(None));
    assert_eq!(p.register(2, "b"), Ok(None));
    assert_eq!(p.register(1, "a2"), Ok(Some("a")));
    assert_eq!(p.resolve(1), Some("a2"));
    assert_eq!(p.resolve(1), None);
    assert_eq!(p.take(2), Some("b"));
    assert_eq!(p.resolve(3), None);
}

#[test]
fn a_poisoned_table_refuses_calls() {
    let mut p: PendingCalls<u32> = PendingCalls::new();
    p.register(5, 50).unwrap();
    p.register(6, 60).unwrap();
    let mut dropped = p.poison();
    dropped.sort();
    assert_eq!(dropped, vec![50, 60]);
    assert_eq!(p.register(7, 70), Err(70));
    assert_eq!(p.resolve(5), None);
}

#[test]
fn highest_priority_transport_wins_last_on_ties() {
    let usb = "usb";
    let usart = "usart2";
    let other = "other";
    assert_eq!(pick::<&str>(&[]), None);
    assert_eq!(pick(&[(1, &usart), (2, &usb)]), Some(&usb));
    assert_eq!(pick(&[(2, &usb), (1, &usart)]), Some(&usb));
    assert_eq!(pick(&[(2, &usb), (2, &other)]), Some(&other));
}
