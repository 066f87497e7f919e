use rcard_host::capability::TypeKey;
use rcard_host::ids::AdapterId;
use rcard_host::physical::{Adapter, AdapterError, PhysicalDevice};

struct Probe {
    id: u64,
    name: &'static str,
    caps: Vec<(u64, &'static str)>,
}

impl Adapter<&'static str> for Probe {
    fn id(&self) -> AdapterId {
        AdapterId(self.id)
    }

    fn display_name(&self) -> &str {
        self.name
    }

    fn capabilities(&self) -> Vec<(TypeKey, &'static str)> {
        self.caps.iter().map(|(t, v)| (TypeKey(*t), *v)).collect()
    }
}

#[test]
fn adapter_ids_count_up() {
    let mut dev: PhysicalDevice<Probe, &'static str> = PhysicalDevice::new();
    assert_eq!(dev.next_adapter_id(), AdapterId(0));
    assert_eq!(dev.next_adapter_id(), AdapterId(1));
    assert!(dev.adapters().is_empty());
}

#[test]
fn attached_adapters_contribute_and_detached_ones_take_back() {
    let mut dev: PhysicalDevice<Probe, &'static str> = PhysicalDevice::new();
    let a = dev.attach(Probe { id: 1, name: "swd", caps: vec![(10, "debug"), (20, "ipc-usb")] });
    let b = dev.attach(Probe { id: 2, name: "usart2", caps: vec![(20, "ipc-uart")] });
    assert_eq!((a, b), (AdapterId(1), AdapterId(2)));
    assert_eq!(dev.query_capability(TypeKey(20)), Some(&"ipc-usb"));
    assert_eq!(dev.query_all_capabilities(TypeKey(20)), vec![(AdapterId(1), &"ipc-usb"), (AdapterId(2), &"ipc-uart")]);
    assert!(dev.has_capability(TypeKey(10)));
    let names: Vec<(AdapterId, &str)> = dev.adapters().iter().map(|(id, p)| (*id, p.display_name())).collect();
    assert_eq!(names, vec![(AdapterId(1), "swd"), (AdapterId(2), "usart2")]);

    dev.detach(AdapterId(1));
    assert!(!dev.has_capability(TypeKey(10)));
    assert_eq!(dev.query_capability(TypeKey(20)), Some(&"ipc-uart"));
    assert_eq!(dev.adapters().len(), 1);
    assert_eq!(dev.adapters()[0].0, AdapterId(2));
}

#[test]
fn attaching_under_a_known_id_replaces_the_adapter() {
    let mut dev: PhysicalDevice<Probe, &'static str> = PhysicalDevice::new();
    dev.attach(Probe { id: 5, name: "first", caps: vec![] });
    dev.attach(Probe { id: 5, name: "second", caps: vec![(1, "x")] });
    let adapters = dev.adapters();
    assert_eq!(adapters.len(), 1);
    assert_eq!(adapters[0].1.display_name(), "second");
    assert_eq!(dev.query_capability(TypeKey(1)), Some(&"x"));
    let e = AdapterError { adapter: AdapterId(5), message: "port closed".to_string() };
    assert_eq!(e.clone().message, "port closed");
}

#[test]
fn detaching_undoes_attaching() {
    let mut dev: PhysicalDevice<Probe, &'static str> = PhysicalDevice::new();
    dev.attach(Probe { id: 1, name: "swd", caps: vec![(10, "debug"), (20, "ipc-usb")] });
    let before: Vec<(AdapterId, &str)> = dev.query_all_capabilities(TypeKey(20)).into_iter().map(|(a, v)| (a, *v)).collect();
    dev.attach(Probe { id: 2, name: "usart2", caps: vec![(20, "ipc-uart"), (30, "logs")] });
    dev.detach(AdapterId(2));
    let after: Vec<(AdapterId, &str)> = dev.query_all_capabilities(TypeKey(20)).into_iter().map(|(a, v)| (a, *v)).collect();
    assert_eq!(before, after);
    assert!(!dev.has_capability(TypeKey(30)));
    assert_eq!(dev.adapters().len(), 1);
    assert_eq!(dev.adapters()[0].0, AdapterId(1));
}
