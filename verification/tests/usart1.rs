use rcard_host::bridge::{BridgeEvent, DeviceRegistry, LineStep, Usart1Session};
use rcard_host::ids::{AdapterId, DeviceId};
use rcard_host::state::{DeviceKind, DevicePhase, KnownCapability, SerialPortStatus};

const HELLO: &str = "hello uid=000102030405060708090a0b0c0d0e0f build=ffeeddccbbaa99887766554433221100";

#[test]
fn opening_announces_the_adapter() {
    let s = Usart1Session::new(2, "/dev/ttyUSB1".into());
    let mut out = Vec::new();
    s.opened(&mut out);
    assert_eq!(out.len(), 2);
    match &out[0] {
        BridgeEvent::AdapterCreated { adapter_id, display_name, ipc_transport } => {
            assert_eq!(*adapter_id, AdapterId(2));
            assert_eq!(display_name, "USART1 (/dev/ttyUSB1)");
            assert!(ipc_transport.is_none());
        }
        other => panic!("unexpected {other:?}"),
    }
    assert!(matches!(out[1], BridgeEvent::SerialStatus { index: 2, status: SerialPortStatus::PortOpen }));
}

#[test]
fn the_bootrom_banner_creates_an_ephemeral_device() {
    let mut s = Usart1Session::new(0, "COM3".into());
    let mut reg = DeviceRegistry::new();
    let mut out = Vec::new();
    let step = s.on_line("T0000000000000010 SFBL\r", 5, &mut reg, &mut out);
    match step {
        LineStep::EnterBootrom { ephemeral, line, device_tick } => {
            assert_eq!(ephemeral, DeviceId(0));
            assert_eq!(line, "SFBL");
            assert_eq!(device_tick, Some(16));
        }
        other => panic!("unexpected {other:?}"),
    }
    assert_eq!(s.current_device, Some(DeviceId(0)));
    assert!(matches!(&out[0], BridgeEvent::SerialRawLine { index: 0, line } if line == "SFBL"));
    match &out[1] {
        BridgeEvent::DeviceCreated { device_id, name, kind, .. } => {
            assert_eq!(*device_id, DeviceId(0));
            assert_eq!(name, "COM3 (USART1)");
            assert_eq!(*kind, DeviceKind::Ephemeral);
        }
        other => panic!("unexpected {other:?}"),
    }
    assert!(matches!(&out[2], BridgeEvent::AdapterBound { capabilities, .. } if capabilities == &vec![KnownCapability::SifliDebug]));
    assert!(matches!(out[3], BridgeEvent::DevicePhaseChanged { phase: DevicePhase::Stabilizing, .. }));
    assert_eq!(out.len(), 5);
}

#[test]
fn a_hello_line_binds_the_persistent_device() {
    let mut s = Usart1Session::new(1, "COM4".into());
    let mut reg = DeviceRegistry::new();
    let mut out = Vec::new();
    let step = s.on_line(HELLO, 7, &mut reg, &mut out);
    assert!(matches!(step, LineStep::Handled));
    let pid = s.current_device.expect("bound");
    assert!(out.iter().any(|e| matches!(e, BridgeEvent::DeviceCreated { kind: DeviceKind::Persistent, .. })));
    assert!(out.iter().any(|e| matches!(e, BridgeEvent::DeviceReportedBuildId { device_id, build_id_bytes } if *device_id == pid && build_id_bytes[0] == 0xff)));
    assert!(out.iter().any(|e| matches!(e, BridgeEvent::TextLog { device, received_at: 7, .. } if *device == pid)));
    let before = out.len();
    s.on_line("kernel: Awake", 8, &mut reg, &mut out);
    assert!(out[before..].iter().any(|e| matches!(e, BridgeEvent::DevicePhaseChanged { phase: DevicePhase::Kernel, .. })));
    let before = out.len();
    s.on_line(HELLO, 9, &mut reg, &mut out);
    assert!(!out[before..].iter().any(|e| matches!(e, BridgeEvent::DeviceCreated { .. })));
    assert_eq!(s.current_device, Some(pid));
}

#[test]
fn lines_without_a_device_are_only_forwarded() {
    let mut s = Usart1Session::new(1, "COM4".into());
    let mut reg = DeviceRegistry::new();
    let mut out = Vec::new();
    s.on_line("noise", 1, &mut reg, &mut out);
    assert_eq!(out.len(), 1);
    assert!(matches!(&out[0], BridgeEvent::SerialRawLine { line, .. } if line == "noise"));
}
