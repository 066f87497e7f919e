use rcard_host::measure::{bar_fill, region_kind, region_summaries, SegmentInfo, BAR_WIDTH};
use rcard_host::provision::{
    boot_writes, firmware_partition, image_writes, SfblAction, SfblWait, CHUNK_SIZE, DCRDR, DCRSR, DHCSR, RAM_BASE,
    RESUME_CORE,
};

#[test]
fn the_partition_is_cut_and_padded_to_words() {
    let full: Vec<u8> = (0u8..20).collect();
    assert_eq!(firmware_partition(&full, 2, 5), Some(vec![2, 3, 4, 5, 6, 0, 0, 0]));
    assert_eq!(firmware_partition(&full, 0, 8), Some((0u8..8).collect()));
    assert_eq!(firmware_partition(&full, 16, 4), Some(vec![16, 17, 18, 19]));
    assert_eq!(firmware_partition(&full, 16, 5), None);
    assert_eq!(firmware_partition(&full, 21, 0), None);
    assert_eq!(firmware_partition(&full, 20, 0), Some(vec![]));
}

#[test]
fn images_are_written_in_chunks_of_words() {
    let image: Vec<u8> = (0..(CHUNK_SIZE + 8)).map(|i| (i % 256) as u8).collect();
    let writes = image_writes(&image);
    assert_eq!(writes.len(), 2);
    assert_eq!(writes[0].0, RAM_BASE);
    assert_eq!(writes[0].1.len(), CHUNK_SIZE / 4);
    assert_eq!(writes[0].1[0], u32::from_le_bytes([0, 1, 2, 3]));
    assert_eq!(writes[1].0, RAM_BASE + CHUNK_SIZE as u32);
    assert_eq!(writes[1].1, vec![u32::from_le_bytes([0, 1, 2, 3]), u32::from_le_bytes([4, 5, 6, 7])]);
    assert!(image_writes(&vec![]).is_empty());
    let tail = image_writes(&vec![1, 2, 3, 4, 5]);
    assert_eq!(tail, vec![(RAM_BASE, vec![0x0403_0201])]);
}

#[test]
fn booting_sets_sp_and_pc_then_resumes() {
    let w = boot_writes(0x2000_8000, 0x2000_0101);
    assert_eq!(
        w,
        vec![(DCRDR, 0x2000_8000), (DCRSR, 0x0001_000D), (DCRDR, 0x2000_0101), (DCRSR, 0x0001_000F), (DHCSR, RESUME_CORE)]
    );
}

#[test]
fn bootloader_wait_settles_after_a_quiet_spell() {
    let mut w = SfblWait::Seeking;
    assert_eq!(w.on_line("noise"), SfblAction::Wait);
    assert_eq!(w.on_quiet(), SfblAction::Wait);
    assert_eq!(w.on_line("SFBL v1"), SfblAction::Report("  bootloader: SFBL v1".into()));
    assert_eq!(w, SfblWait::Settling);
    assert_eq!(w.on_line("SFBL v1"), SfblAction::Report("  bootloader reset: SFBL v1".into()));
    assert_eq!(w.on_quiet(), SfblAction::Done("  bootloader stable".into()));
    assert_eq!(w, SfblWait::Stable);
    assert_eq!(w.on_line("anything"), SfblAction::Wait);
}

#[test]
fn bootloader_wait_fails_on_other_output_or_closing() {
    let mut w = SfblWait::Seeking;
    w.on_line("SFBL");
    assert_eq!(
        w.on_line("kernel up"),
        SfblAction::Fail("error: unexpected output during bootloader settle: kernel up".into())
    );
    assert_eq!(w, SfblWait::Failed);
    let mut w = SfblWait::Seeking;
    assert_eq!(
        w.on_closed(),
        SfblAction::Fail("error: USART1 stream closed while waiting for bootloader".into())
    );
    let mut w = SfblWait::Settling;
    assert_eq!(
        w.on_closed(),
        SfblAction::Fail("error: USART1 stream closed while waiting for bootloader to settle".into())
    );
}

#[test]
fn regions_by_address() {
    assert_eq!(region_kind(0x2000_0000), "RAM");
    assert_eq!(region_kind(0x3fff_ffff), "RAM");
    assert_eq!(region_kind(0x4000_0000), "???");
    assert_eq!(region_kind(0x1000_0000), "FLASH");
    assert_eq!(region_kind(0x0fff_ffff), "???");
}

#[test]
fn bar_fill_rounds_to_the_nearest_cell() {
    assert_eq!(bar_fill(0, 0), 0);
    assert_eq!(bar_fill(5, 0), 0);
    assert_eq!(bar_fill(1, 2), 20);
    assert_eq!(bar_fill(1, 80), 1);
    assert_eq!(bar_fill(1, 81), 0);
    assert_eq!(bar_fill(100, 100), BAR_WIDTH);
    assert_eq!(bar_fill(500, 100), BAR_WIDTH);
    for (used, total) in [(3u64, 7u64), (10, 1000), (999, 1000), (123, 456)] {
        let f = ((used as f64 / total as f64) * BAR_WIDTH as f64).round() as usize;
        assert_eq!(bar_fill(used, total), f.min(BAR_WIDTH));
    }
}

#[test]
fn segments_are_summarised_by_region() {
    let segs = vec![
        SegmentInfo { dest: 0x2000_1000, file_size: 0x100, mem_size: 0x200 },
        SegmentInfo { dest: 0x1000_0000, file_size: 0x400, mem_size: 0x400 },
        SegmentInfo { dest: 0x2000_0000, file_size: 0x80, mem_size: 0x80 },
    ];
    let r = region_summaries(&segs);
    assert_eq!(r.len(), 2);
    assert_eq!(r[0].kind, "FLASH");
    assert_eq!(r[0].segments.len(), 1);
    assert_eq!((r[0].low, r[0].high), (0x1000_0000, 0x1000_0400));
    assert_eq!(r[1].kind, "RAM");
    assert_eq!(r[1].segments, vec![segs[0], segs[2]]);
    assert_eq!(r[1].file_size, 0x180);
    assert_eq!(r[1].mem_size, 0x280);
    assert_eq!((r[1].low, r[1].high), (0x2000_0000, 0x2000_1200));
    assert_eq!(segs[0].zero_fill(), 0x100);
    assert_eq!(segs[1].zero_fill(), 0);
    let odd = region_summaries(&vec![SegmentInfo { dest: 0x5000_0000, file_size: 1, mem_size: 1 }]);
    assert_eq!(odd.len(), 1);
    assert_eq!(odd[0].kind, "???");
}
