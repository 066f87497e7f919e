use rcard_host::stub::{
    bytes_total, check_read_back, chunk_progress, cut_write, plan_writes, vector_table, PendingWrite, StubSegment,
    MEM_WRITE_WIRE_OVERHEAD, VERIFY_CHUNK_WORDS, WRITE_CHUNK_WORDS,
};

fn seg(dest: u32, data: Vec<u8>, zero_fill: u32) -> StubSegment {
    let file_size = data.len() as u32;
    StubSegment { dest, data, file_size, zero_fill }
}

#[test]
fn segments_become_writes_smallest_first() {
    let writes = plan_writes(vec![
        seg(0x2000_0000, vec![1, 2, 3, 4, 5, 6, 7, 8, 9, 10, 11, 12], 0),
        seg(0x2000_1000, vec![0xaa, 0xbb, 0xcc, 0xdd], 0),
    ]);
    assert_eq!(writes.len(), 2);
    assert_eq!(writes[0].addr, 0x2000_1000);
    assert_eq!(writes[0].data, vec![0xddcc_bbaa]);
    assert_eq!(writes[1].addr, 0x2000_0000);
    assert_eq!(writes[1].data, vec![0x0403_0201, 0x0807_0605, 0x0c0b_0a09]);
}

#[test]
fn a_partial_word_is_padded_with_zeros() {
    let writes = plan_writes(vec![seg(0x100, vec![1, 2, 3, 4, 5], 0)]);
    assert_eq!(writes.len(), 1);
    assert_eq!(writes[0].data, vec![0x0403_0201, 0x0000_0005]);
}

#[test]
fn zero_fill_follows_the_file_bytes() {
    let writes = plan_writes(vec![seg(0x2000_0000, vec![1, 0, 0, 0, 2, 0, 0, 0, 3, 0, 0, 0], 8)]);
    assert_eq!(writes.len(), 2);
    // the zero-fill (two words) is the smaller write, so it comes first
    assert_eq!(writes[0].addr, 0x2000_000c);
    assert_eq!(writes[0].data, vec![0, 0]);
    assert_eq!(writes[1].addr, 0x2000_0000);
    assert_eq!(writes[1].data, vec![1, 2, 3]);
}

#[test]
fn equal_sizes_keep_segment_order() {
    let writes = plan_writes(vec![seg(0x30, vec![1, 0, 0, 0], 0), seg(0x10, vec![2, 0, 0, 0], 0)]);
    assert_eq!(writes[0].addr, 0x30);
    assert_eq!(writes[1].addr, 0x10);
}

#[test]
fn the_total_counts_four_bytes_a_word() {
    let ws = vec![
        PendingWrite { addr: 0, data: vec![0; 3] },
        PendingWrite { addr: 0x100, data: vec![0; 5] },
    ];
    assert_eq!(bytes_total(&ws), Some(32));
    assert_eq!(bytes_total(&Vec::new()), Some(0));
}

#[test]
fn a_write_is_cut_into_pieces_at_their_addresses() {
    let w = PendingWrite { addr: 0x2000_0000, data: (0..5).collect() };
    let pieces = cut_write(&w, 2).expect("fits");
    assert_eq!(
        pieces,
        vec![(0x2000_0000, vec![0, 1]), (0x2000_0008, vec![2, 3]), (0x2000_0010, vec![4])]
    );
    let empty = PendingWrite { addr: 4, data: Vec::new() };
    assert_eq!(cut_write(&empty, 2), Some(Vec::new()));
}

#[test]
fn a_piece_past_the_address_space_is_refused() {
    let w = PendingWrite { addr: 0xffff_fff8, data: vec![0; 4] };
    assert_eq!(cut_write(&w, 2), None);
}

#[test]
fn the_chunk_sizes_are_as_documented() {
    assert_eq!(WRITE_CHUNK_WORDS * 4, 1024 * 1024);
    assert_eq!(VERIFY_CHUNK_WORDS * 4, 4096);
}

#[test]
fn progress_counts_data_bytes_past_the_overhead() {
    assert_eq!(chunk_progress(100, 10, 0), 100);
    assert_eq!(chunk_progress(100, 10, MEM_WRITE_WIRE_OVERHEAD), 100);
    assert_eq!(chunk_progress(100, 10, MEM_WRITE_WIRE_OVERHEAD + 7), 107);
    assert_eq!(chunk_progress(100, 10, 10_000), 140);
}

#[test]
fn a_matching_read_back_passes() {
    assert_eq!(check_read_back(0x100, &vec![1, 2, 3], &vec![1, 2, 3]), Ok(()));
}

#[test]
fn a_short_read_back_reports_the_lengths() {
    assert_eq!(
        check_read_back(0x2000_0000, &vec![1, 2, 3], &vec![1]),
        Err("verify: addr=0x20000000 length mismatch: expected 3 words, got 1".to_string())
    );
}

#[test]
fn a_differing_word_reports_its_address() {
    assert_eq!(
        check_read_back(0x2000_0000, &vec![1, 2, 3], &vec![1, 9, 3]),
        Err("verify failed at 0x20000004: expected 0x00000002 got 0x00000009".to_string())
    );
}

#[test]
fn the_vector_table_is_read_at_the_entry() {
    let ws = vec![PendingWrite { addr: 0x2000_0000, data: vec![0xaa, 0x2001_0000, 0x2000_0101, 0] }];
    assert_eq!(vector_table(&ws, 0x2000_0004), Ok((0x2001_0000, 0x2000_0101)));
}

#[test]
fn an_entry_outside_every_write_is_an_error() {
    let ws = vec![PendingWrite { addr: 0x2000_0000, data: vec![0; 2] }];
    assert_eq!(vector_table(&ws, 0x3000_0000), Err("no segment contains entry point 0x30000000".to_string()));
}

#[test]
fn a_misaligned_entry_is_an_error() {
    let ws = vec![PendingWrite { addr: 0x2000_0000, data: vec![0; 4] }];
    assert_eq!(
        vector_table(&ws, 0x2000_0002),
        Err("entry point 0x20000002 not 4-byte aligned within segment".to_string())
    );
}

#[test]
fn a_segment_too_short_for_the_table_is_an_error() {
    let ws = vec![PendingWrite { addr: 0x2000_0000, data: vec![0; 2] }];
    assert_eq!(
        vector_table(&ws, 0x2000_0004),
        Err("segment at 0x20000000 too short for vector table at 0x20000004".to_string())
    );
}

use rcard_host::bridge::FlashPhase;
use rcard_host::stub::{stub_load_fits, stub_steps, StubStep};

fn poke(s: &StubStep) -> (u32, u32, &'static str) {
    match s {
        StubStep::Poke { addr, value, what } => (*addr, *value, *what),
        other => panic!("expected a poke, got {other:?}"),
    }
}

#[test]
fn the_load_writes_verifies_then_boots() {
    let ws = vec![PendingWrite { addr: 0x2000_0000, data: vec![0x2001_0000, 0x2000_0009, 7, 8] }];
    let steps = stub_steps(&ws, 0x2000_0000);
    assert_eq!(steps.len(), 11);
    assert!(matches!(&steps[0], StubStep::Report(FlashPhase::WritingStub { bytes_written: 0, bytes_total: 16 })));
    assert_eq!(poke(&steps[1]), (0xE000_EDF0, 0xA05F_0003, "halt core"));
    match &steps[2] {
        StubStep::WriteChunk { addr, words, completed } => {
            assert_eq!((*addr, *completed), (0x2000_0000, 0));
            assert_eq!(words, &ws[0].data);
        }
        other => panic!("unexpected {other:?}"),
    }
    assert!(matches!(&steps[3], StubStep::Report(FlashPhase::VerifyingStub { bytes_verified: 0, bytes_total: 16 })));
    match &steps[4] {
        StubStep::ReadBack { addr, want, verified } => {
            assert_eq!((*addr, *verified), (0x2000_0000, 16));
            assert_eq!(want, &ws[0].data);
        }
        other => panic!("unexpected {other:?}"),
    }
    assert!(matches!(&steps[5], StubStep::Report(FlashPhase::BootingStub)));
    assert_eq!(poke(&steps[6]), (0xE000_EDF8, 0x2001_0000, "write SP value"));
    assert_eq!(poke(&steps[7]), (0xE000_EDF4, 0x0001_000D, "write SP select"));
    assert_eq!(poke(&steps[8]), (0xE000_EDF8, 0x2000_0009, "write PC value"));
    assert_eq!(poke(&steps[9]), (0xE000_EDF4, 0x0001_000F, "write PC select"));
    assert_eq!(poke(&steps[10]), (0xE000_EDF0, 0xA05F_0001, "resume core"));
}

#[test]
fn read_back_goes_in_four_kib_pieces_counting_on() {
    let ws = vec![
        PendingWrite { addr: 0x1000, data: vec![0; 2] },
        PendingWrite { addr: 0x2000_0000, data: vec![1; 1500] },
    ];
    let steps = stub_steps(&ws, 0x2000_0000);
    let writes: Vec<(u32, usize, u32)> = steps
        .iter()
        .filter_map(|s| match s {
            StubStep::WriteChunk { addr, words, completed } => Some((*addr, words.len(), *completed)),
            _ => None,
        })
        .collect();
    assert_eq!(writes, vec![(0x1000, 2, 0), (0x2000_0000, 1500, 8)]);
    let reads: Vec<(u32, usize, u32)> = steps
        .iter()
        .filter_map(|s| match s {
            StubStep::ReadBack { addr, want, verified } => Some((*addr, want.len(), *verified)),
            _ => None,
        })
        .collect();
    assert_eq!(reads, vec![(0x1000, 2, 8), (0x2000_0000, 1024, 4104), (0x2000_1000, 476, 6008)]);
}

#[test]
fn a_missing_vector_table_fails_after_booting_is_reported() {
    let ws = vec![PendingWrite { addr: 0x2000_0000, data: vec![0; 2] }];
    let steps = stub_steps(&ws, 0x1000);
    assert!(matches!(steps[steps.len() - 2], StubStep::Report(FlashPhase::BootingStub)));
    match &steps[steps.len() - 1] {
        StubStep::Fail(m) => assert_eq!(m, "no segment contains entry point 0x1000"),
        other => panic!("unexpected {other:?}"),
    }
}

#[test]
fn a_write_past_the_address_space_does_not_fit() {
    assert!(stub_load_fits(&vec![PendingWrite { addr: 0xffff_fff8, data: vec![0; 2] }]));
    assert!(!stub_load_fits(&vec![PendingWrite { addr: 0xffff_fffc, data: vec![0; 2] }]));
}

#[test]
fn shown_progress_never_goes_back() {
    let ws = vec![
        PendingWrite { addr: 0x1000, data: vec![0; 3] },
        PendingWrite { addr: 0x2000_0000, data: vec![1; WRITE_CHUNK_WORDS + 5] },
        PendingWrite { addr: 0x3000_0000, data: vec![2; 1] },
    ];
    let steps = stub_steps(&ws, 0x2000_0000);
    let shown: Vec<u32> = steps
        .iter()
        .filter_map(|s| match s {
            StubStep::WriteChunk { completed, .. } => Some(*completed),
            _ => None,
        })
        .collect();
    let total = 4 * (3 + WRITE_CHUNK_WORDS as u32 + 5 + 1);
    assert_eq!(shown, vec![0, 12, 12 + 4 * WRITE_CHUNK_WORDS as u32, total - 4]);
    assert!(shown.windows(2).all(|w| w[0] <= w[1]));
    let mut last = 0;
    for delta in [0u64, 10, 14, 15, 20, 100, 1000] {
        let p = chunk_progress(12, 5, delta);
        assert!(p >= last && p >= 12 && p <= 12 + 20);
        last = p;
    }
    assert_eq!(last, 32);
}
