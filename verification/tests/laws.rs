use rcard_host::bridge::{flash_requested, BridgeEvent, FlashPhase, PendingFlashes, Usart1Session};
use rcard_host::hex::{parse_chip_uid, parse_tick_prefix};
use rcard_host::ids::DeviceId;
use rcard_host::ipc::PendingCalls;
use rcard_host::monitor::MonitorState;

#[test]
fn a_chip_uid_is_spelled_back_in_lower_case() {
    let serial = "00112233445566778899AABBCCDDEEFF";
    let uid = parse_chip_uid(serial).unwrap();
    assert_eq!(uid.to_hex_string(), serial.to_ascii_lowercase());
}

#[test]
fn a_formatted_tick_reads_back() {
    for t in [0u64, 0xff, 0x0123_4567_89ab_cdef, u64::MAX] {
        for line in [format!("T{t:016x} rest of line"), format!("T{t:016X} rest of line")] {
            let (tick, rest) = parse_tick_prefix(&line);
            assert_eq!(tick, Some(t));
            assert_eq!(rest, "rest of line");
        }
    }
}

#[test]
fn escape_sequences_leave_the_monitor_waiting() {
    let mut m = MonitorState::new();
    for &b in b"\x1b[1;32m\xff\xfb\x01(monitor) " {
        m.feed(b);
    }
    assert!(m.is_idle());
}

#[test]
fn a_manual_reset_is_asked_for_by_name() {
    let mut s = Usart1Session::new(0, "p".into());
    s.current_device = Some(DeviceId(4));
    let mut out = Vec::new();
    s.reset_not_triggered(&mut out);
    assert!(matches!(
        out[0],
        BridgeEvent::FlashProgress { device_id: DeviceId(4), phase: FlashPhase::WaitingForReset }
    ));
    let mut pending = PendingFlashes::new();
    let mut out2 = Vec::new();
    flash_requested(&mut pending, DeviceId(4), "fw.tfw".into(), &mut out2);
    assert!(matches!(out2[0], BridgeEvent::FlashProgress { device_id: DeviceId(4), phase: FlashPhase::Resetting }));
}

#[test]
fn a_poisoned_table_stays_empty() {
    let mut p: PendingCalls<u32> = PendingCalls::new();
    let _ = p.poison();
    for s in 0..5u16 {
        assert_eq!(p.register(s, s as u32), Err(s as u32));
    }
    assert_eq!(p.resolve(3), None);
}
