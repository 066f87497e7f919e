use rcard_host::stacktrace::{
    address_frames, backtrace_from, dedup_addresses, entry_task_name, format_address, shorten_path, thumb_address,
    unwind_step, CfaRule, ElfCache, FoundFrame, ReturnRule, StackDump, UnwindRow, UnwindStep, Unwinder, MAX_FRAMES,
};

#[test]
fn elf_entries_are_named_by_task() {
    assert_eq!(entry_task_name("elf/sysmodule_log"), Some("sysmodule_log".to_string()));
    assert_eq!(entry_task_name("elf/nested/dir/app"), Some("app".to_string()));
    assert_eq!(entry_task_name("elf/"), None);
    assert_eq!(entry_task_name("log-metadata.json"), None);
}

#[test]
fn elf_cache_keeps_the_latest() {
    let mut c = ElfCache::new();
    assert!(c.get("app").is_none());
    c.insert("app".into(), vec![1]);
    c.insert("log".into(), vec![2]);
    c.insert("app".into(), vec![3]);
    assert_eq!(c.get("app").map(|e| e.data.clone()), Some(vec![3]));
    assert_eq!(c.get("log").map(|e| e.data.clone()), Some(vec![2]));
}

#[test]
fn paths_are_shortened_to_the_project_tree() {
    assert_eq!(shorten_path("/home/me/rcard/firmware/src/main.rs"), "firmware/src/main.rs");
    assert_eq!(shorten_path("C:\\work\\rcard\\shared\\lib.rs"), "shared/lib.rs");
    assert_eq!(shorten_path("/x/modules/a/firmware/b.rs"), "firmware/b.rs");
    assert_eq!(shorten_path("/rustc/abc/library/core/src/panic.rs"), "/rustc/abc/library/core/src/panic.rs");
    assert_eq!(shorten_path("/a/patches/p.rs"), "patches/p.rs");
}

#[test]
fn addresses_are_zero_padded_hex() {
    assert_eq!(format_address(0x8000), "0x00008000");
    assert_eq!(format_address(0x1234_5678_9), "0x123456789");
    assert_eq!(format_address(0), "0x00000000");
    assert_eq!(thumb_address(0x1001), 0x1000);
    assert_eq!(thumb_address(0x1000), 0x1000);
}

fn dump(stack: Vec<u8>) -> StackDump {
    StackDump { sp: 0x2000_0000, lr: 0x0800_0101, pc: 0x0800_0201, stack }
}

fn row(offset: i64, ra: ReturnRule) -> UnwindRow {
    UnwindRow { cfa: CfaRule::RegisterAndOffset { register: 13, offset }, ra }
}

#[test]
fn leaf_frames_return_through_the_link_register() {
    let d = dump(vec![]);
    let s = unwind_step(Some(row(8, ReturnRule::Undefined)), 1, 0x0800_0201, 0x2000_0000, &d);
    assert_eq!(s, UnwindStep::Continue { pc: 0x0800_0101, sp: 0x2000_0008 });
    let s = unwind_step(Some(row(8, ReturnRule::SameValue)), 2, 0x0800_0201, 0x2000_0000, &d);
    assert_eq!(s, UnwindStep::Stop);
}

#[test]
fn saved_return_addresses_are_read_from_the_stack() {
    let mut stack = vec![0u8; 16];
    stack[12..16].copy_from_slice(&0x0800_0abcu32.to_le_bytes());
    let d = dump(stack);
    let s = unwind_step(Some(row(16, ReturnRule::Offset(-4))), 2, 0x0800_0201, 0x2000_0000, &d);
    assert_eq!(s, UnwindStep::Continue { pc: 0x0800_0abc, sp: 0x2000_0010 });
    assert_eq!(d.read_word(0x2000_000c), Some(0x0800_0abc));
    assert_eq!(d.read_word(0x2000_000d), None);
    assert_eq!(d.read_word(0x1fff_fffc), None);
    let s = unwind_step(Some(row(32, ReturnRule::Offset(0))), 2, 0x0800_0201, 0x2000_0000, &d);
    assert_eq!(s, UnwindStep::Stop);
}

#[test]
fn unwinding_stops_on_unsupported_rules_and_cycles() {
    let d = dump(vec![]);
    assert_eq!(unwind_step(None, 1, 0x100, 0x2000_0000, &d), UnwindStep::Stop);
    let bad_reg = UnwindRow { cfa: CfaRule::RegisterAndOffset { register: 7, offset: 0 }, ra: ReturnRule::Undefined };
    assert_eq!(unwind_step(Some(bad_reg), 1, 0x100, 0x2000_0000, &d), UnwindStep::Stop);
    let expr = UnwindRow { cfa: CfaRule::Unsupported, ra: ReturnRule::Undefined };
    assert_eq!(unwind_step(Some(expr), 1, 0x100, 0x2000_0000, &d), UnwindStep::Stop);
    assert_eq!(unwind_step(Some(row(0, ReturnRule::Unsupported)), 1, 0x100, 0x2000_0000, &d), UnwindStep::Stop);
    assert_eq!(unwind_step(Some(row(0, ReturnRule::ValOffset(0))), 3, 0x2000_0000, 0x2000_0000, &d), UnwindStep::Stop);
    assert_eq!(unwind_step(Some(row(-0x2000_0000, ReturnRule::ValOffset(0))), 3, 0x10, 0x2000_0000, &d), UnwindStep::Stop);
    assert_eq!(
        unwind_step(Some(row(4, ReturnRule::ValOffset(4))), 3, 0x10, 0x2000_0000, &d),
        UnwindStep::Continue { pc: 0x2000_0008, sp: 0x2000_0004 }
    );
}

#[test]
fn the_unwinder_collects_addresses_until_it_stops() {
    let mut u = Unwinder::new(dump(vec![]));
    assert_eq!(u.next_address(), Some(0x0800_0200));
    u.advance(Some(row(8, ReturnRule::Undefined)));
    assert_eq!(u.next_address(), Some(0x0800_0100));
    u.advance(Some(row(8, ReturnRule::Undefined)));
    assert_eq!(u.next_address(), None);
    assert_eq!(u.addresses(), vec![0x0800_0200, 0x0800_0100]);
}

#[test]
fn the_unwinder_stops_at_the_frame_limit() {
    let mut u = Unwinder::new(StackDump { sp: 0x2000_0000, lr: 0, pc: 0x10, stack: vec![] });
    let mut n = 0;
    while let Some(_) = u.next_address() {
        n += 1;
        u.advance(Some(row(0, ReturnRule::ValOffset(0x10 + 2 * n))));
    }
    assert_eq!(n, MAX_FRAMES as i64);
    assert_eq!(u.addresses().len(), MAX_FRAMES);
}

#[test]
fn repeated_addresses_are_kept_once() {
    assert_eq!(dedup_addresses(&vec![1, 1, 2, 2, 2, 1, 3]), vec![1, 2, 1, 3]);
    assert_eq!(dedup_addresses(&vec![]), Vec::<u64>::new());
}

#[test]
fn frames_of_an_address_mark_inlining() {
    let found = vec![
        FoundFrame { function: Some("inner".into()), file: Some("/x/firmware/a.rs".into()), line: Some(3) },
        FoundFrame { function: None, file: None, line: None },
        FoundFrame { function: Some("outer".into()), file: Some("/y/z.rs".into()), line: None },
    ];
    let f = address_frames(0x1234, found);
    assert_eq!(f.len(), 3);
    assert_eq!(f[0].function, "inner");
    assert_eq!(f[0].file.as_deref(), Some("firmware/a.rs"));
    assert_eq!(f[0].line, Some(3));
    assert!(f[0].is_inline);
    assert_eq!(f[1].function, "0x00001234");
    assert!(f[1].is_inline);
    assert!(!f[2].is_inline);
    assert_eq!(f[2].file.as_deref(), Some("/y/z.rs"));
}

#[test]
fn an_unresolved_backtrace_names_the_faulting_address() {
    let bt = backtrace_from(0x0800_0201, vec![]);
    assert_eq!(bt.frames.len(), 1);
    assert_eq!(bt.frames[0].function, "0x08000201");
    assert!(!bt.frames[0].is_inline);
    let frames = address_frames(1, vec![FoundFrame { function: Some("f".into()), file: None, line: None }]);
    let bt = backtrace_from(0, frames);
    assert_eq!(bt.frames[0].function, "f");
}
