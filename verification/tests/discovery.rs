use rcard_host::bridge::{BridgeEvent, DeviceRegistry, Discovery, Usart1Session};
use rcard_host::discovery::{
    efuse_done, uid_from_efuse, UsbAttach, UsbSupervisor, EFUSEC_BANK0_DATA0, EFUSEC_CR, EFUSEC_SR,
    USB_ADAPTER_ID_BASE,
};
use rcard_host::ids::{AdapterId, ChipUid};
use rcard_host::state::{DeviceKind, KnownCapability, SerialPortStatus};

const SERIAL: &str = "00112233445566778899aabbccddeeff";

#[test]
fn the_efuse_registers_sit_in_the_controller() {
    assert_eq!(EFUSEC_CR, 0x5000_C000);
    assert_eq!(EFUSEC_SR, 0x5000_C008);
    assert_eq!(EFUSEC_BANK0_DATA0, 0x5000_C030);
}

#[test]
fn done_is_bit_zero_of_the_first_word() {
    assert!(efuse_done(&[1]));
    assert!(efuse_done(&[3, 0]));
    assert!(!efuse_done(&[2]));
    assert!(!efuse_done(&[]));
}

#[test]
fn the_uid_is_four_little_endian_words() {
    let uid = uid_from_efuse(&[0x0302_0100, 0x0706_0504, 0x0b0a_0908, 0x0f0e_0d0c, 0xffff_ffff]).unwrap();
    assert_eq!(uid.0, [0, 1, 2, 3, 4, 5, 6, 7, 8, 9, 10, 11, 12, 13, 14, 15]);
}

#[test]
fn too_few_data_words_is_an_error() {
    assert_eq!(uid_from_efuse(&[1, 2]).unwrap_err(), "expected 4 words, got 2");
}

#[test]
fn nothing_attached_leaves_the_wire_unbound() {
    let mut s = Usart1Session::new(0, "COM1".into());
    let mut reg = DeviceRegistry::new();
    let mut out = Vec::new();
    assert_eq!(s.discovered(Discovery::NotAttached, &mut reg, &mut out), None);
    assert!(out.is_empty());
    assert!(s.current_device.is_none());
}

#[test]
fn an_unidentified_chip_gets_an_ephemeral_device() {
    let mut s = Usart1Session::new(1, "COM4".into());
    let mut reg = DeviceRegistry::new();
    let mut out = Vec::new();
    let id = s.discovered(Discovery::Unidentified, &mut reg, &mut out).unwrap();
    assert_eq!(s.current_device, Some(id));
    assert_eq!(out.len(), 3);
    match &out[0] {
        BridgeEvent::DeviceCreated { device_id, name, kind, .. } => {
            assert_eq!(*device_id, id);
            assert_eq!(name, "COM4 (USART1)");
            assert_eq!(*kind, DeviceKind::Ephemeral);
        }
        other => panic!("unexpected {other:?}"),
    }
    match &out[1] {
        BridgeEvent::AdapterBound { adapter_id, capabilities, .. } => {
            assert_eq!(*adapter_id, AdapterId(1));
            assert_eq!(capabilities, &vec![KnownCapability::SifliDebug]);
        }
        other => panic!("unexpected {other:?}"),
    }
    assert!(matches!(out[2], BridgeEvent::SerialStatus { index: 1, status: SerialPortStatus::DeviceDetected }));
}

#[test]
fn an_identified_chip_keeps_its_persistent_device() {
    let uid = ChipUid([7; 16]);
    let mut reg = DeviceRegistry::new();
    let mut s = Usart1Session::new(0, "COM1".into());
    let mut out = Vec::new();
    let first = s.discovered(Discovery::Identified(uid), &mut reg, &mut out).unwrap();
    assert!(matches!(out[0], BridgeEvent::DeviceCreated { kind: DeviceKind::Persistent, .. }));
    let mut t = Usart1Session::new(1, "COM2".into());
    let mut out2 = Vec::new();
    let second = t.discovered(Discovery::Identified(uid), &mut reg, &mut out2).unwrap();
    assert_eq!(first, second);
    assert_eq!(out2.len(), 2);
    assert!(matches!(out2[0], BridgeEvent::AdapterBound { .. }));
}

#[test]
fn a_new_fob_is_attached_with_the_next_usb_adapter_id() {
    let mut sup = UsbSupervisor::new();
    let mut reg = DeviceRegistry::new();
    let mut out = Vec::new();
    let a = sup.on_connected(SERIAL, &mut reg, &mut out);
    let (uid, adapter_id, device_id) = match a {
        UsbAttach::Attach { uid, adapter_id, device_id } => (uid, adapter_id, device_id),
        UsbAttach::Ignored => panic!("ignored"),
    };
    assert_eq!(uid.0, [0x00, 0x11, 0x22, 0x33, 0x44, 0x55, 0x66, 0x77, 0x88, 0x99, 0xaa, 0xbb, 0xcc, 0xdd, 0xee, 0xff]);
    assert_eq!(adapter_id, AdapterId(USB_ADAPTER_ID_BASE));
    assert_eq!(out.len(), 1);
    match &out[0] {
        BridgeEvent::DeviceCreated { device_id: d, name, kind, .. } => {
            assert_eq!(*d, device_id);
            assert_eq!(name, &format!("Device {SERIAL}"));
            assert_eq!(*kind, DeviceKind::Persistent);
        }
        other => panic!("unexpected {other:?}"),
    }
    let mut out2 = Vec::new();
    sup.attached(SERIAL, uid, adapter_id, device_id, 9, &mut out2);
    assert!(sup.is_attached(&uid));
    match &out2[0] {
        BridgeEvent::AdapterCreated { adapter_id: a, display_name, ipc_transport } => {
            assert_eq!(*a, adapter_id);
            assert_eq!(display_name, &format!("USB ({SERIAL})"));
            assert_eq!(*ipc_transport, Some(("usb", 9)));
        }
        other => panic!("unexpected {other:?}"),
    }
    match &out2[1] {
        BridgeEvent::AdapterBound { device_id: d, capabilities, .. } => {
            assert_eq!(*d, device_id);
            assert_eq!(capabilities, &vec![KnownCapability::Ipc]);
        }
        other => panic!("unexpected {other:?}"),
    }
}

#[test]
fn a_repeated_report_of_an_attached_fob_is_ignored() {
    let mut sup = UsbSupervisor::new();
    let mut reg = DeviceRegistry::new();
    let mut out = Vec::new();
    if let UsbAttach::Attach { uid, adapter_id, device_id } = sup.on_connected(SERIAL, &mut reg, &mut out) {
        sup.attached(SERIAL, uid, adapter_id, device_id, 0, &mut out);
    }
    let n = out.len();
    assert!(matches!(sup.on_connected(SERIAL, &mut reg, &mut out), UsbAttach::Ignored));
    assert_eq!(out.len(), n);
}

#[test]
fn a_malformed_serial_is_ignored() {
    let mut sup = UsbSupervisor::new();
    let mut reg = DeviceRegistry::new();
    let mut out = Vec::new();
    assert!(matches!(sup.on_connected("not-a-uid", &mut reg, &mut out), UsbAttach::Ignored));
    assert!(out.is_empty());
}

#[test]
fn detaching_removes_the_adapter_and_forgets_the_fob() {
    let mut sup = UsbSupervisor::new();
    let mut reg = DeviceRegistry::new();
    let mut out = Vec::new();
    let (uid, adapter_id, device_id) = match sup.on_connected(SERIAL, &mut reg, &mut out) {
        UsbAttach::Attach { uid, adapter_id, device_id } => (uid, adapter_id, device_id),
        UsbAttach::Ignored => panic!("ignored"),
    };
    sup.attached(SERIAL, uid, adapter_id, device_id, 0, &mut out);
    let mut out2 = Vec::new();
    assert_eq!(sup.on_disconnected(uid, &mut out2), Some((adapter_id, device_id)));
    assert!(!sup.is_attached(&uid));
    assert!(matches!(out2[0], BridgeEvent::AdapterRemoved { adapter_id: a } if a == adapter_id));
    assert_eq!(sup.on_disconnected(uid, &mut out2), None);
    assert_eq!(out2.len(), 1);
    // the chip comes back: same device, next adapter id
    let mut out3 = Vec::new();
    match sup.on_connected(SERIAL, &mut reg, &mut out3) {
        UsbAttach::Attach { adapter_id: a, device_id: d, .. } => {
            assert_eq!(a, AdapterId(USB_ADAPTER_ID_BASE + 1));
            assert_eq!(d, device_id);
        }
        UsbAttach::Ignored => panic!("ignored"),
    }
    assert!(out3.is_empty());
}
