use rcard_host::capability::{CapabilitySet, TypeKey};
use rcard_host::handle::AdapterLink;
use rcard_host::ids::AdapterId;
use rcard_host::port_registry::{AvailablePort, PortConfiguration, PortIdentity, PortRegistry, UsbPortInfo};
use rcard_host::state::SerialAdapterType;

#[test]
fn query_finds_first_registration() {
    let mut set: CapabilitySet<&str> = CapabilitySet::new();
    assert_eq!(set.query(TypeKey(7)), None);
    set.register(AdapterId(1), TypeKey(7), "first");
    set.register(AdapterId(2), TypeKey(7), "second");
    set.register(AdapterId(2), TypeKey(9), "other");
    assert_eq!(set.query(TypeKey(7)), Some(&"first"));
    assert!(set.has(TypeKey(9)));
    assert!(!set.has(TypeKey(8)));
    let all = set.query_all(TypeKey(7));
    assert_eq!(all.len(), 2);
    assert_eq!(all[0].0, AdapterId(1));
    assert_eq!(*all[1].1, "second");
}

#[test]
fn removing_an_adapter_forgets_only_its_capabilities() {
    let mut set: CapabilitySet<u32> = CapabilitySet::new();
    set.register(AdapterId(1), TypeKey(7), 10);
    set.register(AdapterId(2), TypeKey(7), 20);
    set.register_raw(AdapterId(1), TypeKey(8), 30);
    set.remove_adapter(AdapterId(1));
    assert_eq!(set.query(TypeKey(7)), Some(&20));
    assert!(!set.has(TypeKey(8)));
    assert_eq!(set.query_all(TypeKey(7)).len(), 1);
}

#[test]
fn revoked_handles_see_no_capabilities() {
    let mut link = AdapterLink::new(AdapterId(3), vec![(TypeKey(1), 5u32), (TypeKey(2), 6u32)]);
    let h = link.handle();
    assert_eq!(h.adapter_id(), AdapterId(3));
    assert_eq!(h.query(TypeKey(2)), Some(&6));
    assert_eq!(h.capabilities().len(), 2);
    link.revoke();
    assert!(h.is_revoked());
    assert_eq!(h.query(TypeKey(2)), None);
    assert!(h.capabilities().is_empty());
    let fresh = link.handle();
    assert!(!fresh.is_revoked());
    assert_eq!(fresh.query(TypeKey(1)), Some(&5));
    assert!(h.is_revoked());
}

fn identity(serial: Option<&str>) -> PortIdentity {
    PortIdentity { vid: 0x1a86, pid: 0x7523, serial_number: serial.map(|s| s.to_string()), interface: Some(0) }
}

#[test]
fn registry_insert_replaces_and_remove_forgets() {
    let mut reg = PortRegistry::new();
    reg.insert(identity(Some("A")), PortConfiguration { adapter_type: SerialAdapterType::Usart1 });
    reg.insert(identity(Some("B")), PortConfiguration { adapter_type: SerialAdapterType::Usart2 });
    reg.insert(identity(Some("A")), PortConfiguration { adapter_type: SerialAdapterType::Usart2 });
    assert_eq!(reg.iter().len(), 2);
    assert_eq!(reg.get(&identity(Some("A"))).map(|c| c.adapter_type), Some(SerialAdapterType::Usart2));
    reg.remove(&identity(Some("A")));
    assert!(reg.get(&identity(Some("A"))).is_none());
    assert!(reg.get(&identity(Some("B"))).is_some());
    assert!(reg.get(&identity(None)).is_none());
}

#[test]
fn identities_compare_all_fields() {
    assert!(identity(Some("x")).same_as(&identity(Some("x"))));
    assert!(!identity(Some("x")).same_as(&identity(Some("y"))));
    assert!(!identity(Some("x")).same_as(&identity(None)));
    let mut other = identity(Some("x"));
    other.interface = Some(1);
    assert!(!identity(Some("x")).same_as(&other));
}

fn usb(manufacturer: Option<&str>, product: Option<&str>) -> UsbPortInfo {
    UsbPortInfo {
        vid: 0x0403,
        pid: 0x6001,
        serial_number: Some("FT1".to_string()),
        manufacturer: manufacturer.map(|s| s.to_string()),
        product: product.map(|s| s.to_string()),
        interface: None,
    }
}

#[test]
fn port_labels() {
    assert_eq!(PortIdentity::label(&usb(Some("FTDI"), Some("FT232R"))), "FTDI FT232R");
    assert_eq!(PortIdentity::label(&usb(None, Some("FT232R"))), "FT232R");
    assert_eq!(PortIdentity::label(&usb(Some("FTDI"), None)), "FTDI");
    assert_eq!(PortIdentity::label(&usb(None, None)), "0403:6001");
    let mut small = usb(None, None);
    small.vid = 0x1;
    small.pid = 0xab;
    assert_eq!(PortIdentity::label(&small), "0001:00ab");
}

#[test]
fn available_port_from_usb() {
    let p = AvailablePort::from_usb("/dev/ttyUSB0".to_string(), &usb(Some("FTDI"), None));
    assert_eq!(p.port_name, "/dev/ttyUSB0");
    assert_eq!(p.label, "FTDI");
    assert_eq!(p.identity.vid, 0x0403);
    assert_eq!(p.identity.serial_number.as_deref(), Some("FT1"));
}

#[test]
fn a_read_finds_the_earliest_entry_for_an_adapter() {
    let reg = PortRegistry::from_entries(vec![
        (identity(Some("B")), PortConfiguration { adapter_type: SerialAdapterType::Usart1 }),
        (identity(Some("A")), PortConfiguration { adapter_type: SerialAdapterType::Usart2 }),
        (identity(Some("A")), PortConfiguration { adapter_type: SerialAdapterType::Usart1 }),
    ]);
    assert_eq!(reg.get(&identity(Some("A"))).map(|c| c.adapter_type), Some(SerialAdapterType::Usart2));
    assert_eq!(reg.get(&identity(Some("B"))).map(|c| c.adapter_type), Some(SerialAdapterType::Usart1));
    assert!(reg.get(&identity(Some("C"))).is_none());
}
