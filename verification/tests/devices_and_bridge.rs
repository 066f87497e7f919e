use rcard_host::bridge::{
    device_name, get_or_create_persistent_device, BridgeEvent, DeviceRegistry, FlashDecision, FlashPhase,
    PendingFlashes, SettleCounter, StepStatus, FLASH_STEPS, MAX_FLASH_ATTEMPTS,
};
use rcard_host::devices::DeviceHandle;
use rcard_host::ids::{AdapterId, ChipUid, DeviceId, FirmwareId};
use rcard_host::state::{DeviceKind, DevicePhase, KnownCapability};

#[test]
fn logs_are_kept_in_stamp_order() {
    let mut d: DeviceHandle<&str> = DeviceHandle::new(DeviceId(1), "dev".into(), DeviceKind::Ephemeral, None);
    assert_eq!(d.phase, DevicePhase::Unknown);
    assert!(!d.is_connected());
    d.push_log(10, "a");
    d.push_log(30, "c");
    d.push_log(20, "b");
    d.push_log(20, "b2");
    d.push_log(5, "first");
    let order: Vec<&str> = d.log_buffer.iter().map(|(_, l)| *l).collect();
    assert_eq!(order, vec!["first", "a", "b", "b2", "c"]);
    let stamps: Vec<u64> = d.log_buffer.iter().map(|(t, _)| *t).collect();
    assert_eq!(stamps, vec![5, 10, 20, 20, 30]);
}

#[test]
fn capabilities_are_looked_up_by_kind() {
    let mut d: DeviceHandle<()> = DeviceHandle::new(DeviceId(1), "dev".into(), DeviceKind::Persistent, Some(FirmwareId(2)));
    assert!(!d.has_capability(KnownCapability::Ipc));
    d.capabilities.push((AdapterId(4), KnownCapability::Ipc));
    d.adapter_ids.push(AdapterId(4));
    assert!(d.has_capability(KnownCapability::Ipc));
    assert!(!d.has_capability(KnownCapability::SifliDebug));
    assert!(d.is_connected());
}

#[test]
fn flash_steps_progress() {
    let p = FlashPhase::Programming { bytes_written: 10, bytes_total: 100 };
    assert_eq!(p.step(), (5, false));
    assert!(p.past_stub_write());
    assert_eq!(p.step_status(4), StepStatus::Complete);
    assert_eq!(p.step_status(5), StepStatus::Active);
    assert_eq!(p.step_status(6), StepStatus::Pending);
    assert_eq!(p.step_progress(5), Some((10, 100)));
    assert_eq!(p.step_progress(1), None);
    let f = FlashPhase::Failed { at_step: 2, message: "boom".into() };
    assert_eq!(f.step_status(2), StepStatus::Failed);
    assert_eq!(f.step_status(1), StepStatus::Complete);
    assert!(!FlashPhase::Resetting.past_stub_write());
    assert_eq!(FlashPhase::Done.step(), (7, false));
    assert!((0..FLASH_STEPS).all(|i| FlashPhase::Done.step_status(i) == StepStatus::Complete));
    assert_eq!(FlashPhase::WaitingForReset.step_label(0), "Waiting for device reset...");
    assert_eq!(FlashPhase::Resetting.step_label(0), "Resetting device...");
    assert_eq!(FlashPhase::Done.step_label(1), "Writing stub to RAM");
}

#[test]
fn pending_flashes_give_up_after_the_limit() {
    let mut p = PendingFlashes::new();
    let dev = DeviceId(9);
    assert!(matches!(p.on_bootrom(dev), FlashDecision::NotPending));
    p.request(dev, "/fw.tfw".into());
    for n in 1..=MAX_FLASH_ATTEMPTS {
        match p.on_bootrom(dev) {
            FlashDecision::Attempt { attempt, tfw_path } => {
                assert_eq!(attempt, n);
                assert_eq!(tfw_path, "/fw.tfw");
            }
            _ => panic!("attempt {n} expected"),
        }
    }
    match p.on_bootrom(dev) {
        FlashDecision::GiveUp { message } => assert_eq!(message, "device reset 3 times, giving up"),
        _ => panic!("give up expected"),
    }
    assert!(matches!(p.on_bootrom(dev), FlashDecision::NotPending));
}

#[test]
fn a_new_request_restarts_the_count_and_removal_forgets() {
    let mut p = PendingFlashes::new();
    p.request(DeviceId(1), "a".into());
    p.on_bootrom(DeviceId(1));
    p.on_bootrom(DeviceId(1));
    p.request(DeviceId(1), "b".into());
    match p.on_bootrom(DeviceId(1)) {
        FlashDecision::Attempt { attempt, tfw_path } => {
            assert_eq!(attempt, 1);
            assert_eq!(tfw_path, "b");
        }
        _ => panic!("attempt expected"),
    }
    p.remove(DeviceId(1));
    assert!(matches!(p.on_bootrom(DeviceId(1)), FlashDecision::NotPending));
}

#[test]
fn registry_gives_each_chip_one_id() {
    let mut r = DeviceRegistry::new();
    let a = ChipUid([1; 16]);
    let b = ChipUid([2; 16]);
    assert_eq!(r.get_or_create(a), (DeviceId(0), true));
    assert_eq!(r.get_or_create(b), (DeviceId(1), true));
    assert_eq!(r.get_or_create(a), (DeviceId(0), false));
    assert_eq!(r.mint(), DeviceId(2));
    assert_eq!(r.get_or_create(ChipUid([3; 16])), (DeviceId(3), true));
}

#[test]
fn persistent_devices_are_announced_once() {
    let mut r = DeviceRegistry::new();
    let uid = ChipUid([0xab; 16]);
    let mut out = Vec::new();
    let name = device_name(&uid);
    assert_eq!(name, format!("Device {}", "ab".repeat(16)));
    let id = get_or_create_persistent_device(&mut r, uid, name.clone(), None, &mut out);
    let again = get_or_create_persistent_device(&mut r, uid, name, None, &mut out);
    assert_eq!(id, again);
    assert_eq!(out.len(), 1);
    match &out[0] {
        BridgeEvent::DeviceCreated { device_id, kind, .. } => {
            assert_eq!(*device_id, id);
            assert_eq!(*kind, DeviceKind::Persistent);
        }
        other => panic!("unexpected event {other:?}"),
    }
}

#[test]
fn settling_probes_after_the_last_wire() {
    let mut c = SettleCounter::new();
    c.register();
    c.register();
    assert!(!c.settle());
    assert!(c.settle());
}
