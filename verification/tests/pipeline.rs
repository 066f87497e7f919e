use rcard_host::ids::{BuildId, FirmwareId};
use rcard_host::pipeline::{
    host_as_embedded, upsert_named, BuildConfig, BuildHandle, BuildInfo, BuildStatus, CrateBuildState, CrateKind,
    FirmwareConfig, FirmwareHandle, FirmwareMetadata, HostCrateBuildState, ImageProgress, IpcMetadataBundle,
    MemoryAllocation, MemoryConfig, MemoryDevice, MethodMeta, ParamMeta, PipelinePhase, ResourceMeta, ResourceSummary,
    ServerMeta, TaskConfig,
};

#[test]
fn phases_in_order_with_labels() {
    let phases = [
        PipelinePhase::Planning,
        PipelinePhase::CompilingTasks,
        PipelinePhase::Organizing { regions_placed: 3 },
        PipelinePhase::CompilingApp,
        PipelinePhase::ExtractingMetadata,
        PipelinePhase::Packing,
        PipelinePhase::Done,
    ];
    let orders: Vec<u8> = phases.iter().map(|p| p.order()).collect();
    assert_eq!(orders, vec![0, 1, 2, 3, 4, 5, 6]);
    let labels: Vec<&str> = phases.iter().map(|p| p.label()).collect();
    assert_eq!(labels, vec!["PLAN", "TASKS", "ORGANIZE", "APP", "METADATA", "PACK", "DONE"]);
    assert_eq!(PipelinePhase::Organizing { regions_placed: 0 }.order(), PipelinePhase::Organizing { regions_placed: 9 }.order());
}

#[test]
fn host_states_map_onto_embedded_ones() {
    assert_eq!(host_as_embedded(HostCrateBuildState::Queued), CrateBuildState::Queued);
    assert_eq!(host_as_embedded(HostCrateBuildState::Building), CrateBuildState::Building);
    assert_eq!(host_as_embedded(HostCrateBuildState::Running), CrateBuildState::Measuring);
    assert_eq!(host_as_embedded(HostCrateBuildState::Done), CrateBuildState::Linked);
    assert_eq!(host_as_embedded(HostCrateBuildState::Failed), CrateBuildState::Failed);
}

#[test]
fn memory_device_mappings() {
    let d = MemoryDevice { name: "psram".into(), size: 0x1000, mappings: vec![(0x6000_0000, 0x1000), (0x1000, 0x10)] };
    assert!(d.contains_address(0x6000_0000));
    assert!(d.contains_address(0x6000_0fff));
    assert!(!d.contains_address(0x6000_1000));
    assert!(d.contains_address(0x100f));
    assert!(!d.contains_address(0x0fff));
    let top = MemoryDevice { name: "top".into(), size: 0, mappings: vec![(u64::MAX - 1, 10)] };
    assert!(top.contains_address(u64::MAX - 1));
    assert!(!top.contains_address(u64::MAX));
}

fn bundle() -> IpcMetadataBundle {
    IpcMetadataBundle {
        resources: vec![
            (
                "Log".into(),
                ResourceMeta {
                    methods: vec![
                        MethodMeta {
                            name: "log".into(),
                            params: vec![ParamMeta { name: "msg".into(), ty: "&str".into() }],
                            return_type: None,
                        },
                        MethodMeta {
                            name: "level".into(),
                            params: vec![],
                            return_type: Some("u8".into()),
                        },
                    ],
                },
            ),
            ("Orphan".into(), ResourceMeta { methods: vec![] }),
        ],
        servers: vec![
            ("early".into(), ServerMeta { serves: vec!["Log".into()] }),
            ("sysmodule_log".into(), ServerMeta { serves: vec!["Log".into()] }),
        ],
    }
}

#[test]
fn resource_summaries() {
    let s = ResourceSummary::list_from_bundle(&bundle());
    assert_eq!(s.len(), 2);
    assert_eq!(s[0].name, "Log");
    assert_eq!(s[0].provider_task, "sysmodule_log");
    assert_eq!(s[0].methods, vec!["log(msg: &str)".to_string(), "level() -> u8".to_string()]);
    assert_eq!(s[1].provider_task, "");
    assert!(s[1].methods.is_empty());
}

fn empty_build() -> BuildHandle {
    BuildHandle {
        id: BuildId(1),
        config: BuildConfig { config: "fob".into(), board: "bento".into(), layout: "prod".into() },
        status: BuildStatus::Running,
        uuid: None,
        phase: None,
        crates: vec![],
        allocations: vec![],
        place_capacities: vec![],
        memories: vec![],
        resources: vec![],
        image: ImageProgress::NoImage,
        diagnostics: vec![],
        log: vec![],
        started_at_ms: 1000,
        finished_at_ms: None,
    }
}

#[test]
fn crates_are_found_or_added() {
    let mut b = empty_build();
    b.crate_mut("kernel", CrateKind::Kernel).state = CrateBuildState::Building;
    b.crate_mut("app", CrateKind::Task);
    b.crate_mut("kernel", CrateKind::Task).state = CrateBuildState::Linked;
    assert_eq!(b.crates.len(), 2);
    assert_eq!(b.crates[0].kind, CrateKind::Kernel);
    assert_eq!(b.crates[0].state, CrateBuildState::Linked);
    assert_eq!(b.crates[1].state, CrateBuildState::Queued);
    let tasks = b.crates_by_kind(CrateKind::Task);
    assert_eq!(tasks.len(), 1);
    assert_eq!(tasks[0].name, "app");
}

#[test]
fn elapsed_time_saturates() {
    let mut b = empty_build();
    assert_eq!(b.elapsed(1500), 500);
    assert_eq!(b.elapsed(10), 0);
    b.finished_at_ms = Some(4000);
    assert_eq!(b.elapsed(99999), 3000);
}

#[test]
fn sizes_are_upserted_in_first_measured_order() {
    let mut v: Vec<(String, u64)> = vec![];
    upsert_named(&mut v, "text".into(), 10);
    upsert_named(&mut v, "data".into(), 20);
    upsert_named(&mut v, "text".into(), 30);
    assert_eq!(v, vec![("text".to_string(), 30), ("data".to_string(), 20)]);
}

fn task(name: &str, priority: u32, deps: Vec<TaskConfig>) -> TaskConfig {
    TaskConfig { name: name.into(), priority, supervisor: name == "super", depends_on: deps }
}

fn firmware(path: Option<&str>, build: bool) -> FirmwareHandle {
    let shared = || task("sysmodule_log", 1, vec![]);
    FirmwareHandle {
        id: FirmwareId(7),
        path: path.map(|p| p.to_string()),
        metadata: FirmwareMetadata {
            build: if build {
                Some(BuildInfo {
                    name: "fob".into(),
                    version: Some("1.2".into()),
                    build_id: "0123456789abcdef".into(),
                    board: "bento".into(),
                    layout: "prod".into(),
                    build_duration_ms: Some(250),
                    allocations: vec![MemoryAllocation {
                        place: "ram".into(),
                        owner: "app".into(),
                        region: "data".into(),
                        base: 0x2000_0000,
                        size: 64,
                        requested_place: "ram".into(),
                    }],
                })
            } else {
                None
            },
            config: Some(FirmwareConfig {
                kernel: "kern".into(),
                bootloader: None,
                entries: vec![task("super", 0, vec![shared()]), task("app", 2, vec![shared()])],
                places: vec![("ram".into(), 4096)],
                memory: vec![("sram".into(), MemoryConfig { size: 4096, mappings: vec![(0x2000_0000, 4096)] })],
            }),
            ipc: Some(bundle()),
        },
    }
}

#[test]
fn firmware_display_names() {
    assert_eq!(firmware(Some("/x/fob.tfw"), true).display_name(), "fob v1.2 - 01234567");
    assert_eq!(firmware(None, true).display_name(), "fob v1.2 (builtin) - 01234567");
    assert_eq!(firmware(Some("/x/other.tfw"), false).display_name(), "other.tfw");
    assert_eq!(firmware(None, false).display_name(), "builtin");
    assert!(firmware(None, false).is_builtin());
    assert_eq!(firmware(None, true).build_id(), Some("0123456789abcdef"));
    assert_eq!(firmware(None, false).build_id(), None);
}

#[test]
fn snapshot_of_an_archive() {
    let fw = firmware(Some("/x/fob.tfw"), true);
    let h = BuildHandle::snapshot_from_firmware(&fw, 5000, 10_000);
    assert_eq!(h.id, BuildId(0));
    assert_eq!(h.config.config, "fob");
    assert_eq!(h.config.board, "bento");
    assert_eq!(h.uuid.as_deref(), Some("0123456789abcdef"));
    assert_eq!(h.phase, Some(PipelinePhase::Done));
    assert_eq!((h.started_at_ms, h.finished_at_ms), (9_750, Some(10_000)));
    match &h.status {
        BuildStatus::Succeeded { tfw_path, firmware_id } => {
            assert_eq!(tfw_path, "/x/fob.tfw");
            assert_eq!(*firmware_id, Some(FirmwareId(7)));
        }
        _ => panic!("snapshot should be a finished build"),
    }
    let names: Vec<&str> = h.crates.iter().map(|c| c.name.as_str()).collect();
    assert_eq!(names, vec!["kern", "super", "sysmodule_log", "app"]);
    assert_eq!(h.crates[0].kind, CrateKind::Kernel);
    assert_eq!(h.crates[2].kind, CrateKind::Sysmodule);
    assert!(h.crates[1].supervisor);
    assert_eq!(h.crates[3].priority, Some(2));
    assert!(h.crates.iter().all(|c| c.state == CrateBuildState::Linked));
    assert_eq!(h.crates[2].provides.len(), 1);
    assert_eq!(h.crates[2].provides[0].method_count, 2);
    assert_eq!(h.crates[3].uses.len(), 1);
    assert_eq!(h.crates[3].uses[0].server_task, "sysmodule_log");
    assert_eq!(h.crates[3].uses[0].resource, "Log");
    assert_eq!(h.place_capacities, vec![("ram".to_string(), 4096)]);
    assert_eq!(h.memories.len(), 1);
    assert!(h.memories[0].contains_address(0x2000_0010));
    assert_eq!(h.resources.len(), 2);
    assert_eq!(h.allocations.len(), 1);
    match &h.image {
        ImageProgress::Archived { size, path } => {
            assert_eq!(*size, 5000);
            assert_eq!(path, "/x/fob.tfw");
        }
        _ => panic!("archived image expected"),
    }
}

#[test]
fn an_archive_without_configuration_still_lists_its_resources() {
    let mut fw = firmware(Some("/x/fob.tfw"), true);
    fw.metadata.config = None;
    let h = BuildHandle::snapshot_from_firmware(&fw, 1, 1);
    let live = ResourceSummary::list_from_bundle(&bundle());
    assert_eq!(h.resources.len(), live.len());
    for (a, b) in h.resources.iter().zip(live.iter()) {
        assert_eq!((&a.name, &a.provider_task, &a.methods), (&b.name, &b.provider_task, &b.methods));
    }
    assert!(h.crates.is_empty());
}

#[test]
fn a_build_id_with_a_wide_character_still_snapshots() {
    let mut fw = firmware(Some("/x/fob.tfw"), true);
    if let Some(b) = fw.metadata.build.as_mut() {
        b.build_id = "0123456\u{e9}89".into();
    }
    let h = BuildHandle::snapshot_from_firmware(&fw, 1, 1);
    assert_eq!(h.uuid.as_deref(), Some("0123456\u{e9}89"));
}
