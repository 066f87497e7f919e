use rcard_host::bridge::FlashPhase;
use rcard_host::frontend::{find_firmware_for_build_id, firmware_with_build_id, FlashModalState, FrontendState, UiAction};
use rcard_host::ids::{AdapterId, BuildId, DeviceId, FirmwareId};
use rcard_host::pipeline::{
    BuildInfo, BuildStatus, CrateBuildState, CrateKind, FirmwareHandle, FirmwareMetadata, PipelinePhase,
};
use rcard_host::state::{AdapterHandle, DeviceKind, DevicePhase, FlashMethod, KnownCapability};

type Front = FrontendState<&'static str, u32, u32>;

fn adapter(id: u64, ipc: Option<(&'static str, u8)>) -> AdapterHandle {
    AdapterHandle::new(AdapterId(id), format!("adapter {id}"), ipc)
}

#[test]
fn orphaned_ephemeral_devices_go_away() {
    let mut f = Front::new();
    let mut actions = Vec::new();
    f.on_adapter_created(adapter(1, None));
    f.on_device_created(DeviceId(10), "eph".into(), DeviceKind::Ephemeral, None, &mut actions);
    f.on_device_created(DeviceId(11), "per".into(), DeviceKind::Persistent, None, &mut actions);
    f.on_adapter_bound(AdapterId(1), DeviceId(10), vec![KnownCapability::SifliDebug]);
    f.on_adapter_bound(AdapterId(1), DeviceId(11), vec![]);
    f.on_device_phase(DeviceId(11), DevicePhase::Kernel);
    assert_eq!(f.devices.len(), 2);
    f.on_adapter_unbound(AdapterId(1), DeviceId(10), &mut actions);
    assert_eq!(f.devices.len(), 1);
    assert_eq!(f.devices[0].id, DeviceId(11));
    assert!(actions.contains(&UiAction::CloseDevicePanes(DeviceId(10))));
    f.on_adapter_removed(AdapterId(1), &mut actions);
    assert_eq!(f.devices.len(), 1);
    assert_eq!(f.devices[0].phase, DevicePhase::Unknown);
    assert!(f.devices[0].adapter_ids.is_empty());
    assert_eq!(f.adapter_name(AdapterId(1)), "?");
}

#[test]
fn emulator_devices_open_at_once_and_duplicates_are_ignored() {
    let mut f = Front::new();
    let mut actions = Vec::new();
    f.on_device_created(DeviceId(3), "emu".into(), DeviceKind::Emulator, None, &mut actions);
    f.on_device_created(DeviceId(3), "again".into(), DeviceKind::Emulator, None, &mut actions);
    assert_eq!(actions, vec![UiAction::OpenDevice(DeviceId(3))]);
    assert_eq!(f.devices.len(), 1);
    assert_eq!(f.devices[0].name, "emu");
}

#[test]
fn logs_merge_in_stamp_order() {
    let mut f = Front::new();
    let mut actions = Vec::new();
    f.on_device_created(DeviceId(1), "d".into(), DeviceKind::Persistent, None, &mut actions);
    f.on_log(DeviceId(1), 20, "b");
    f.on_log(DeviceId(1), 10, "a");
    f.on_log(DeviceId(2), 5, "nobody");
    let logs: Vec<&str> = f.devices[0].log_buffer.iter().map(|(_, l)| *l).collect();
    assert_eq!(logs, vec!["a", "b"]);
}

#[test]
fn upgrades_move_logs_to_the_persistent_device() {
    let mut f = Front::new();
    let mut actions = Vec::new();
    f.on_device_created(DeviceId(1), "eph".into(), DeviceKind::Ephemeral, None, &mut actions);
    f.on_device_created(DeviceId(2), "per".into(), DeviceKind::Persistent, None, &mut actions);
    f.on_log(DeviceId(1), 15, "from eph");
    f.on_log(DeviceId(2), 10, "old");
    f.on_log(DeviceId(2), 20, "new");
    f.on_device_phase(DeviceId(1), DevicePhase::Bootloader);
    f.on_device_upgraded(DeviceId(1), DeviceId(2), &mut actions);
    assert_eq!(f.devices.len(), 1);
    let logs: Vec<&str> = f.devices[0].log_buffer.iter().map(|(_, l)| *l).collect();
    assert_eq!(logs, vec!["old", "from eph", "new"]);
    assert_eq!(f.devices[0].phase, DevicePhase::Bootloader);
    assert!(actions.contains(&UiAction::RetargetDevicePanes { old_id: DeviceId(1), new_id: DeviceId(2) }));
}

#[test]
fn flash_methods() {
    let mut f = Front::new();
    let mut actions = Vec::new();
    f.on_adapter_created(adapter(1, Some(("usart2", 1))));
    f.on_adapter_created(adapter(2, Some(("usb", 2))));
    f.on_adapter_created(adapter(3, None));
    f.on_device_created(DeviceId(1), "d".into(), DeviceKind::Persistent, None, &mut actions);
    assert_eq!(f.flash_method_for_device(DeviceId(1)), None);
    f.on_adapter_bound(AdapterId(3), DeviceId(1), vec![KnownCapability::SifliDebug]);
    assert_eq!(f.flash_method_for_device(DeviceId(1)), Some(FlashMethod::SifliDebug));
    f.on_adapter_bound(AdapterId(1), DeviceId(1), vec![KnownCapability::Ipc]);
    f.on_adapter_bound(AdapterId(2), DeviceId(1), vec![KnownCapability::Ipc]);
    assert_eq!(f.flash_method_for_device(DeviceId(1)), Some(FlashMethod::Ipc { transport: "usb" }));
    assert_eq!(f.flash_method_for_device(DeviceId(9)), None);
    assert_eq!(f.adapter_name(AdapterId(2)), "adapter 2");
}

#[test]
fn flash_progress_follows_the_dialog() {
    let mut f = Front::new();
    let mut actions = Vec::new();
    f.flash_modal = Some(FlashModalState::Flashing {
        firmware_id: FirmwareId(1),
        device_id: DeviceId(4),
        phase: FlashPhase::Resetting,
    });
    f.on_flash_progress(DeviceId(4), FlashPhase::Erasing, &mut actions);
    match &f.flash_modal {
        Some(FlashModalState::Flashing { phase, .. }) => assert_eq!(*phase, FlashPhase::Erasing),
        _ => panic!("dialog should still be flashing"),
    }
    assert!(actions.is_empty());
    f.on_flash_progress(DeviceId(4), FlashPhase::StubBooted, &mut actions);
    assert!(actions.is_empty());
    f.on_flash_progress(DeviceId(4), FlashPhase::Done, &mut actions);
    assert_eq!(actions, vec![UiAction::IpcSmokeTest(DeviceId(4))]);
}

fn firmware(id: u64, build_id: &str) -> FirmwareHandle {
    FirmwareHandle {
        id: FirmwareId(id),
        path: None,
        metadata: FirmwareMetadata {
            build: Some(BuildInfo {
                name: "fob".into(),
                version: None,
                build_id: build_id.into(),
                board: "b".into(),
                layout: "l".into(),
                build_duration_ms: None,
                allocations: vec![],
            }),
            config: None,
            ipc: None,
        },
    }
}

#[test]
fn build_ids_are_matched_as_uuids() {
    let fs = vec![
        firmware(1, "not a uuid"),
        firmware(2, "67e55044-10b1-426f-9247-bb680e5fe0c8"),
        firmware(3, "67e5504410b1426f9247bb680e5fe0c8"),
    ];
    let bytes = [0x67, 0xe5, 0x50, 0x44, 0x10, 0xb1, 0x42, 0x6f, 0x92, 0x47, 0xbb, 0x68, 0x0e, 0x5f, 0xe0, 0xc8];
    assert_eq!(find_firmware_for_build_id(&fs, &bytes), Some(FirmwareId(2)));
    let only_simple = vec![firmware(3, "67e5504410b1426f9247bb680e5fe0c8")];
    assert_eq!(find_firmware_for_build_id(&only_simple, &bytes), Some(FirmwareId(3)));
    assert_eq!(find_firmware_for_build_id(&fs, &[0; 16]), None);

    let mut f = Front::new();
    let mut actions = Vec::new();
    f.firmware = fs;
    f.on_device_created(DeviceId(5), "d".into(), DeviceKind::Persistent, None, &mut actions);
    f.on_device_reported_build_id(DeviceId(5), bytes, &mut actions);
    assert_eq!(f.devices[0].firmware_id, Some(FirmwareId(2)));
    assert!(actions.contains(&UiAction::FirmwareMatched { device_id: DeviceId(5), firmware_id: FirmwareId(2) }));
}

#[test]
fn build_lifecycle() {
    let mut f = Front::new();
    let b = f.next_build_id();
    assert_eq!(b, BuildId(0));
    assert_eq!(f.next_build_id(), BuildId(1));
    let fid = f.next_firmware_id();
    f.firmware.push(firmware(fid.0, "67e55044-10b1-426f-9247-bb680e5fe0c8"));
    let shown = f.build_for_firmware(fid, 1234, 50_000).expect("snapshot");
    assert_eq!(shown, BuildId(2));
    assert_eq!(f.builds.len(), 1);
    assert_eq!(f.build_for_firmware(fid, 1234, 60_000), Some(shown));
    assert_eq!(f.builds.len(), 1);
    assert_eq!(f.build_for_firmware(FirmwareId(99), 1, 1), None);

    f.on_build_phase(shown, PipelinePhase::Packing);
    assert_eq!(f.builds[0].phase, Some(PipelinePhase::Packing));
    f.on_build_crate_state(shown, "app", CrateKind::Task, CrateBuildState::Building);
    f.on_build_crate_sized(shown, "app", CrateKind::Task, "text".into(), 100);
    f.on_build_crate_sized(shown, "app", CrateKind::Task, "data".into(), 20);
    f.on_build_crate_sized(shown, "app", CrateKind::Task, "text".into(), 150);
    let app = f.builds[0].crates.iter().find(|c| c.name == "app").expect("app crate");
    assert_eq!(app.state, CrateBuildState::Building);
    assert_eq!(app.total_size, Some(170));
    f.on_build_log(shown, "hello".into());
    f.on_build_complete(shown, Err("linker failed".into()), None, 70_000);
    assert_eq!(f.builds[0].finished_at_ms, Some(70_000));
    assert_eq!(f.builds[0].log.last().map(|s| s.as_str()), Some("ERROR: linker failed"));
    match &f.builds[0].status {
        BuildStatus::Failed { error } => assert_eq!(error, "linker failed"),
        _ => panic!("failed build expected"),
    }
}

#[test]
fn loading_a_build_again_finds_the_loaded_firmware() {
    let fs = vec![firmware(1, "aaaa"), firmware(2, "bbbb")];
    assert_eq!(firmware_with_build_id(&fs, "bbbb"), Some(FirmwareId(2)));
    assert_eq!(firmware_with_build_id(&fs, "cccc"), None);
}
