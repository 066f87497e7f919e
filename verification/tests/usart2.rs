use rcard_host::bridge::{BridgeEvent, DeviceRegistry, Usart2Session, USART2_ADAPTER_BASE};
use rcard_host::ids::{AdapterId, ChipUid};
use rcard_host::state::{DeviceKind, DevicePhase, KnownCapability, SerialPortStatus};

fn uid(b: u8) -> ChipUid {
    ChipUid([b; 16])
}

#[test]
fn a_usart2_wire_gets_its_own_adapter_range() {
    let s = Usart2Session::new(3, "/dev/ttyUSB4".into(), 7);
    assert_eq!(s.adapter_id, AdapterId(USART2_ADAPTER_BASE + 3));
    assert!(s.current_device.is_none());
}

#[test]
fn opening_usart2_announces_an_ipc_adapter() {
    let s = Usart2Session::new(0, "COM9".into(), 5);
    let mut out = Vec::new();
    s.opened(&mut out);
    assert_eq!(out.len(), 2);
    match &out[0] {
        BridgeEvent::AdapterCreated { adapter_id, display_name, ipc_transport } => {
            assert_eq!(*adapter_id, AdapterId(500_000));
            assert_eq!(display_name, "USART2 (COM9)");
            assert_eq!(*ipc_transport, Some(("usart2", 5)));
        }
        other => panic!("unexpected {other:?}"),
    }
    assert!(matches!(out[1], BridgeEvent::SerialStatus { index: 0, status: SerialPortStatus::PortOpen }));
}

#[test]
fn connecting_and_failing_report_the_port_status() {
    let s = Usart2Session::new(1, "p".into(), 0);
    let mut out = Vec::new();
    s.connecting(&mut out);
    s.connect_failed(&mut out);
    assert!(matches!(out[0], BridgeEvent::SerialStatus { index: 1, status: SerialPortStatus::Connecting }));
    assert!(matches!(out[1], BridgeEvent::SerialStatus { index: 1, status: SerialPortStatus::Error }));
}

#[test]
fn awake_binds_a_new_persistent_device() {
    let mut s = Usart2Session::new(0, "p".into(), 0);
    let mut reg = DeviceRegistry::new();
    let mut out = Vec::new();
    let before = s.on_awake(uid(0xab), [9u8; 16], &mut reg, &mut out);
    assert!(before.is_none());
    let pid = s.current_device.expect("bound");
    assert_eq!(out.len(), 5);
    match &out[0] {
        BridgeEvent::DeviceCreated { device_id, name, kind, firmware_id } => {
            assert_eq!(*device_id, pid);
            assert_eq!(name, &format!("Device {}", "ab".repeat(16)));
            assert_eq!(*kind, DeviceKind::Persistent);
            assert!(firmware_id.is_none());
        }
        other => panic!("unexpected {other:?}"),
    }
    match &out[1] {
        BridgeEvent::AdapterBound { adapter_id, device_id, capabilities } => {
            assert_eq!(*adapter_id, AdapterId(500_000));
            assert_eq!(*device_id, pid);
            assert_eq!(capabilities, &vec![KnownCapability::Ipc]);
        }
        other => panic!("unexpected {other:?}"),
    }
    match &out[2] {
        BridgeEvent::DeviceReportedBuildId { device_id, build_id_bytes } => {
            assert_eq!(*device_id, pid);
            assert_eq!(*build_id_bytes, [9u8; 16]);
        }
        other => panic!("unexpected {other:?}"),
    }
    assert!(matches!(out[3], BridgeEvent::DevicePhaseChanged { phase: DevicePhase::Kernel, .. }));
    assert!(matches!(out[4], BridgeEvent::SerialStatus { index: 0, status: SerialPortStatus::DeviceDetected }));
}

#[test]
fn a_second_awake_rebinds_to_the_same_device() {
    let mut s = Usart2Session::new(0, "p".into(), 0);
    let mut reg = DeviceRegistry::new();
    let mut out = Vec::new();
    s.on_awake(uid(1), [0u8; 16], &mut reg, &mut out);
    let pid = s.current_device.unwrap();
    let mut out2 = Vec::new();
    let before = s.on_awake(uid(1), [0u8; 16], &mut reg, &mut out2);
    assert_eq!(before, Some(pid));
    assert_eq!(s.current_device, Some(pid));
    assert_eq!(out2.len(), 5);
    match &out2[0] {
        BridgeEvent::AdapterUnbound { device_id, .. } => assert_eq!(*device_id, pid),
        other => panic!("unexpected {other:?}"),
    }
    assert!(!out2.iter().any(|e| matches!(e, BridgeEvent::DeviceCreated { .. })));
}

#[test]
fn closing_usart2_removes_the_adapter() {
    let mut s = Usart2Session::new(2, "p".into(), 0);
    let mut reg = DeviceRegistry::new();
    let mut out = Vec::new();
    s.on_awake(uid(2), [0u8; 16], &mut reg, &mut out);
    let pid = s.current_device;
    let mut out2 = Vec::new();
    assert_eq!(s.closed(&mut out2), pid);
    assert!(s.current_device.is_none());
    assert!(matches!(out2[0], BridgeEvent::AdapterRemoved { adapter_id: AdapterId(500_002) }));
}
