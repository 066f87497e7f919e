use rcard_host::memmap::{assign_colors, layout_fits, MemSegment};
use rcard_host::memmap_render::{choose_width, group_regions};

fn seg(memory: &str, owner: &str, base: u64, size: u64) -> MemSegment {
    MemSegment { memory: memory.into(), owner: owner.into(), base, size, lost: 0 }
}

#[test]
fn regions_keep_their_first_appearance_order() {
    let segs = vec![seg("flash", "kernel", 0, 10), seg("ram", "a", 100, 4), seg("flash", "b", 10, 6)];
    let (names, groups) = group_regions(&segs);
    assert_eq!(names, vec!["flash".to_string(), "ram".to_string()]);
    assert_eq!(groups[0].iter().map(|s| s.0.as_str()).collect::<Vec<_>>(), vec!["kernel", "b"]);
    assert_eq!(groups[1].len(), 1);
}

#[test]
fn a_narrow_region_layout_is_refused() {
    let many: Vec<(String, u64, u64, u64)> = (0..30).map(|i| (format!("t{i}"), i, 1, 0)).collect();
    assert!(!layout_fits(&many, 20));
    assert!(layout_fits(&many, 40));
    assert!(layout_fits(&[], 0));
}

#[test]
fn the_width_leaves_room_for_the_last_label() {
    let segs = vec![seg("ram", "kernel", 0, 1000), seg("ram", "a_rather_long_task_name", 1000, 1000)];
    let colors = assign_colors(&segs);
    let (_, groups) = group_regions(&segs);
    let w = choose_width(&groups, &colors, 80).unwrap();
    assert!(w >= 20 && w <= 78);
    assert_eq!(choose_width(&groups, &colors, 0), None);
}
