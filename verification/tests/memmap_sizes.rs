use rcard_host::memmap::{
    addr_line, assign_colors, bold, build_label_rows, compute_layout, dim, fg, fgbg, palette, render_bar,
    rightmost_overflow, short, MemSegment, Seg,
};
use rcard_host::sizes::{div_round_half_even, fmt_bpc, fmt_size, format_size, human_size};

#[test]
fn human_sizes() {
    assert_eq!(human_size(0), "0 B");
    assert_eq!(human_size(1023), "1023 B");
    assert_eq!(human_size(1024), "1.0 KiB");
    assert_eq!(human_size(1126), "1.1 KiB");
    assert_eq!(human_size(1536), "1.5 KiB");
    assert_eq!(human_size(1024 * 1024), "1.0 MiB");
    assert_eq!(human_size(5 * 1024 * 1024 + 512 * 1024), "5.5 MiB");
    assert_eq!(format_size(2048), "2.0 KiB");
}

#[test]
fn sizes_match_float_formatting() {
    for n in [0u64, 1, 999, 1024, 1075, 1076, 1177, 2047, 10 * 1024 + 51, 65536, 123456, 1048575] {
        let expect = if n >= 1024 { format!("{:.1} KiB", n as f64 / 1024.0) } else { format!("{n} B") };
        assert_eq!(fmt_size(n), expect, "n = {n}");
    }
    for n in [0u64, 1, 1023, 1024, 1536, 2560, 3584, 100_000] {
        let expect = if n >= 1024 { format!("~{:.0} KiB/char", n as f64 / 1024.0) } else { format!("~{n} B/char") };
        assert_eq!(fmt_bpc(n), expect, "n = {n}");
    }
}

#[test]
fn halves_round_to_even() {
    assert_eq!(div_round_half_even(5, 2), 2);
    assert_eq!(div_round_half_even(7, 2), 4);
    assert_eq!(div_round_half_even(7, 3), 2);
    assert_eq!(div_round_half_even(8, 3), 3);
}

#[test]
fn ansi_helpers() {
    assert_eq!(fg((1, 2, 3), "x"), "\x1b[38;2;1;2;3mx\x1b[0m");
    assert_eq!(fgbg((1, 2, 3), (4, 5, 6), "y"), "\x1b[38;2;1;2;3m\x1b[48;2;4;5;6my\x1b[0m");
    assert_eq!(dim("d"), "\x1b[2md\x1b[0m");
    assert_eq!(bold("b"), "\x1b[1mb\x1b[0m");
    assert_eq!(short("sysmodule_log"), "log");
    assert_eq!(short("app"), "app");
}

fn seg(memory: &str, owner: &str, base: u64, size: u64, lost: u64) -> MemSegment {
    MemSegment { memory: memory.to_string(), owner: owner.to_string(), base, size, lost }
}

#[test]
fn colours_in_first_appearance_order() {
    let segs = vec![
        seg("ram", "a", 0, 1, 0),
        seg("ram", "(unused)", 1, 1, 0),
        seg("ram", "b", 2, 1, 0),
        seg("flash", "a", 3, 1, 0),
    ];
    let colors = assign_colors(&segs);
    assert_eq!(colors.color("a"), palette(0));
    assert_eq!(colors.color("b"), palette(1));
    assert_eq!(colors.color("(unused)"), (50, 58, 68));
    assert_eq!(colors.color("nobody"), (140, 140, 140));
}

fn segs(sizes: &[u64]) -> Vec<Seg> {
    sizes.iter().enumerate().map(|(i, s)| (format!("t{i}"), (i as u64) * 0x1000, *s, 0)).collect()
}

#[test]
fn layout_shares_columns_by_size() {
    let s = segs(&[300, 100]);
    let colors = assign_colors(&[]);
    let l = compute_layout(&s, &colors, 10);
    assert_eq!((l[0].left, l[0].right), (0, 7));
    assert_eq!((l[1].left, l[1].right), (7, 10));
    assert_eq!(l[0].color, (140, 140, 140));
}

#[test]
fn layout_drift_goes_to_the_last_widest_segment() {
    let l = compute_layout(&segs(&[5, 5, 5]), &assign_colors(&[]), 10);
    let widths: Vec<usize> = l.iter().map(|e| e.right - e.left).collect();
    assert_eq!(widths, vec![3, 3, 4]);
    assert_eq!(l.last().unwrap().right, 10);
}

#[test]
fn layout_of_empty_segments_splits_evenly() {
    let l = compute_layout(&segs(&[0, 0, 0]), &assign_colors(&[]), 11);
    let widths: Vec<usize> = l.iter().map(|e| e.right - e.left).collect();
    assert_eq!(widths, vec![3, 3, 5]);
}

#[test]
fn layout_tiles_the_width() {
    for width in [3usize, 7, 20, 80] {
        let l = compute_layout(&segs(&[1, 1000, 37, 5000]), &assign_colors(&[]), width.max(4));
        assert_eq!(l[0].left, 0);
        for w in l.windows(2) {
            assert_eq!(w[0].right, w[1].left);
        }
        assert_eq!(l.last().unwrap().right, width.max(4));
    }
}

#[test]
fn address_line() {
    let line = addr_line(0x100, 0x200, 20);
    assert_eq!(line, format!("{} {} {}", dim("0x100"), dim(&"\u{b7}".repeat(8)), dim("0x200")));
    let tight = addr_line(0x100, 0x200, 5);
    assert_eq!(tight, format!("{} {} {}", dim("0x100"), dim(""), dim("0x200")));
}

#[test]
fn bar_and_labels() {
    let s = segs(&[300, 100]);
    let colors = assign_colors(&[]);
    let l = compute_layout(&s, &colors, 10);
    let (bar, rows) = render_bar(&l, 10);
    assert_eq!(bar.matches('\u{258c}').count(), 10);
    assert_eq!(rows, build_label_rows(&l, 10));
    let plain: Vec<String> = rows.iter().map(|r| strip_ansi(r)).collect();
    assert!(plain.iter().any(|r| r.contains("t0")), "{plain:?}");
    assert!(plain.iter().any(|r| r.contains("300 B")), "{plain:?}");
    assert_eq!(rightmost_overflow(&s, &colors, 10), 2);
    assert!(rightmost_overflow(&segs(&[1, 1]), &colors, 2) > 0);
}

fn strip_ansi(s: &str) -> String {
    let mut out = String::new();
    let mut in_escape = false;
    for c in s.chars() {
        if in_escape {
            if c.is_ascii_alphabetic() {
                in_escape = false;
            }
        } else if c == '\x1b' {
            in_escape = true;
        } else {
            out.push(c);
        }
    }
    out
}
