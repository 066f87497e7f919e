use rcard_host::logfmt::{
    backtrace_lines, entry_lines, format_species, format_value, level_color, level_label, parse_backend, backend_known,
    parse_hash_key, prefix_width, source_location, split_text, task_pad, text_line, wrap_message, wrapped_lines,
    ConnectedBackend, HashTable, LogEntry, LogLevel, LogValue, MetadataFile, Species, TfwMetadata,
};
use rcard_host::stacktrace::{ElfCache, Frame};

const DIM: &str = "\x1b[2m";
const RESET: &str = "\x1b[0m";

fn names() -> HashTable<String> {
    let mut t = HashTable::new();
    t.insert(1, "Point".to_string());
    t.insert(2, "Unit".to_string());
    t
}

#[test]
fn levels() {
    assert_eq!(level_label(LogLevel::Warn), " WARN");
    assert_eq!(level_label(LogLevel::Panic), "PANIC");
    assert_eq!(level_color(LogLevel::Error), "\x1b[31m");
    assert_eq!(level_color(LogLevel::Trace), DIM);
}

#[test]
fn values_are_shown_like_rust_values() {
    let n = names();
    assert_eq!(format_value(&LogValue::Unsigned(42), &n), "42");
    assert_eq!(format_value(&LogValue::Signed(-7), &n), "-7");
    assert_eq!(format_value(&LogValue::Signed(i128::MIN), &n), i128::MIN.to_string());
    assert_eq!(format_value(&LogValue::Char('x'), &n), "'x'");
    assert_eq!(format_value(&LogValue::Bool(false), &n), "false");
    assert_eq!(format_value(&LogValue::Str("hi".into()), &n), "hi");
    assert_eq!(format_value(&LogValue::Unit, &n), "()");
    assert_eq!(format_value(&LogValue::Float("1.5".into()), &n), "1.5");
    let list = LogValue::List(vec![LogValue::Unsigned(1), LogValue::Unsigned(2)]);
    assert_eq!(format_value(&list, &n), "[1, 2]");
    assert_eq!(format_value(&LogValue::List(vec![]), &n), "[]");
    let t = LogValue::Tuple { type_id: 1, fields: vec![LogValue::Unsigned(1), LogValue::Bool(true)] };
    assert_eq!(format_value(&t, &n), "Point(1, true)");
    assert_eq!(format_value(&LogValue::Tuple { type_id: 2, fields: vec![] }, &n), "Unit");
    assert_eq!(format_value(&LogValue::Tuple { type_id: 9, fields: vec![LogValue::Unit] }, &n), "(())");
    let s = LogValue::Struct { type_id: 1, fields: vec![LogValue::Unsigned(3), LogValue::Unsigned(4)] };
    assert_eq!(format_value(&s, &n), "Point {3, 4}");
    assert_eq!(format_value(&LogValue::Struct { type_id: 9, fields: vec![] }, &n), "{}");
    assert_eq!(format_value(&LogValue::Struct { type_id: 9, fields: vec![LogValue::Unit] }, &n), "{()}");
    assert_eq!(format_value(&LogValue::Struct { type_id: 2, fields: vec![] }, &n), "Unit");
    assert_eq!(
        format_value(&LogValue::StackDump { sp: 0x2000_0100, len: 256 }, &n),
        "<stack dump: sp=0x20000100, 256 bytes>"
    );
}

#[test]
fn format_strings_are_filled_in_order() {
    let n = names();
    let vals = vec![LogValue::Unsigned(1), LogValue::Str("two".into())];
    assert_eq!(format_species("a={} b={} c={}", &vals, &n), "a=1 b=two c=???");
    assert_eq!(format_species("{{}}", &vals, &n), "{1}");
    assert_eq!(format_species("no holes", &vals, &n), "no holes");
    assert_eq!(format_species("{", &vals, &n), "{");
}

#[test]
fn later_table_entries_win() {
    let mut t: HashTable<u32> = HashTable::new();
    t.insert(5, 1);
    t.insert(5, 2);
    assert_eq!(t.get(5), Some(&2));
    assert_eq!(t.get(6), None);
}

#[test]
fn messages_wrap_at_the_content_width() {
    assert_eq!(wrap_message("abcdefg", 3), vec!["abc", "def", "g"]);
    assert_eq!(wrap_message("ab\n\ncd", 5), vec!["ab", "", "cd"]);
    assert_eq!(wrap_message("", 5), vec![""]);
    assert_eq!(wrap_message("abc\n", 3), vec!["abc", ""]);
}

#[test]
fn a_short_message_gets_its_location_on_the_same_line() {
    let lines = wrapped_lines("hello", Some("a.rs:1"), 30, 10);
    assert_eq!(lines, vec![format!("hello{} {DIM}a.rs:1{RESET}", " ".repeat(20 - 5 - 7))]);
    assert_eq!(wrapped_lines("hello", None, 30, 10), vec!["hello".to_string()]);
}

#[test]
fn a_long_location_moves_to_its_own_line() {
    let cp = format!("{} {DIM}|{RESET} ", " ".repeat(7));
    let lines = wrapped_lines("hello", Some("long/location.rs:1"), 20, 10);
    assert_eq!(lines, vec!["hello".to_string(), format!("{cp}{DIM}long/location.rs:1{RESET}")]);
}

#[test]
fn wrapped_messages_continue_under_a_bar() {
    let cp = format!("{} {DIM}|{RESET} ", " ".repeat(7));
    let lines = wrapped_lines("aaaaabbbbbc", Some("x:1"), 15, 10);
    assert_eq!(lines, vec!["aaaaa".to_string(), format!("{cp}bbbbb"), format!("{cp}c {DIM}x:1{RESET}")]);
    let lines = wrapped_lines("aaaaabbbbbcc", Some("x:1"), 15, 10);
    assert_eq!(
        lines,
        vec!["aaaaa".to_string(), format!("{cp}bbbbb"), format!("{cp}cc"), format!("{cp}  {DIM}x:1{RESET}")]
    );
    let narrow = wrapped_lines("abc", None, 10, 10);
    assert_eq!(narrow, vec!["abc".to_string()]);
}

#[test]
fn source_locations() {
    let sp = Species { format: "f".into(), file: Some("src/a.rs".into()), line: Some(12) };
    assert_eq!(source_location(&sp), Some("src/a.rs:12".to_string()));
    let sp = Species { format: "f".into(), file: Some("src/a.rs".into()), line: None };
    assert_eq!(source_location(&sp), None);
}

#[test]
fn hash_keys() {
    assert_eq!(parse_hash_key("0x1f"), Some(0x1f));
    assert_eq!(parse_hash_key("1F"), Some(0x1f));
    assert_eq!(parse_hash_key("0x0x10"), Some(0x10));
    assert_eq!(parse_hash_key("0x+10"), Some(0x10));
    assert_eq!(parse_hash_key("0x"), None);
    assert_eq!(parse_hash_key("+"), None);
    assert_eq!(parse_hash_key("-1"), None);
    assert_eq!(parse_hash_key("0xg"), None);
    assert_eq!(parse_hash_key("ffffffffffffffff"), Some(u64::MAX));
    assert_eq!(parse_hash_key("10000000000000000"), None);
    for key in ["0x1f", "abc", "+7", "0x", "", "fffffffffffffffff", "12 3"] {
        let expect = u64::from_str_radix(key.trim_start_matches("0x"), 16).ok();
        assert_eq!(parse_hash_key(key), expect, "key {key:?}");
    }
}

fn species(format: &str) -> Species {
    Species { format: format.into(), file: Some("main.rs".into()), line: Some(7) }
}

fn metadata() -> TfwMetadata {
    let files = vec![
        MetadataFile {
            species: vec![("0x10".into(), species("first {}")), ("zz".into(), species("never"))],
            types: vec![("0x1".into(), Some("Point".into())), ("0x2".into(), None)],
            task_names: vec![],
        },
        MetadataFile {
            species: vec![("10".into(), species("value={}"))],
            types: vec![],
            task_names: vec!["sysmodule_log".into(), "app".into()],
        },
        MetadataFile { species: vec![], types: vec![], task_names: vec!["ignored".into()] },
    ];
    TfwMetadata::from_files(&files, ElfCache::new())
}

#[test]
fn metadata_files_are_merged_in_order() {
    let m = metadata();
    assert_eq!(m.species.get(0x10).map(|s| s.format.clone()), Some("value={}".to_string()));
    assert!(m.species.get(0xbad).is_none());
    assert_eq!(m.type_names.get(1), Some(&"Point".to_string()));
    assert_eq!(m.type_names.get(2), None);
    assert_eq!(m.task_names, vec!["sysmodule_log".to_string(), "app".to_string()]);
}

#[test]
fn task_column_width() {
    assert_eq!(task_pad(&vec![]), 6);
    assert_eq!(task_pad(&vec!["sysmodule_log".into(), "app".into()]), 6);
    assert_eq!(task_pad(&vec!["sysmodule_watchdog".into(), "supervisor".into()]), 10);
    assert_eq!(prefix_width(6), 16);
}

#[test]
fn entries_with_known_species() {
    let m = metadata();
    let e = LogEntry { level: LogLevel::Info, source: 0, log_species: 0x10, values: vec![LogValue::Unsigned(5)] };
    let lines = entry_lines(&e, &m, 6, 16, 40);
    let head = format!(" \x1b[32m\x1b[1m INFO{RESET} \x1b[38;5;208m   log{RESET} {DIM}|{RESET} ");
    let pad = " ".repeat(24 - 7 - 10);
    assert_eq!(lines, vec![format!("{head}value=5{pad} {DIM}main.rs:7{RESET}")]);
}

#[test]
fn entries_with_unknown_species() {
    let m = metadata();
    let e = LogEntry {
        level: LogLevel::Error,
        source: 9,
        log_species: 0xabc,
        values: vec![LogValue::Unsigned(1), LogValue::Bool(true)],
    };
    let lines = entry_lines(&e, &m, 6, 16, 40);
    assert_eq!(
        lines,
        vec![format!(" \x1b[31m\x1b[1mERROR{RESET} \x1b[35m     ?{RESET} {DIM}|{RESET} 1, true {DIM}(species=0xabc){RESET}")]
    );
    let empty = LogEntry { level: LogLevel::Debug, source: 1, log_species: 0xabc, values: vec![] };
    let lines = entry_lines(&empty, &m, 6, 16, 40);
    assert!(lines[0].contains(&format!("   app{RESET}")));
    assert!(lines[0].contains(&format!("{DIM}|{RESET} ? ")));
}

#[test]
fn text_lines_take_their_source_from_a_prefix() {
    assert_eq!(
        text_line("usart1", "kernel: boot", 6),
        format!("       \x1b[37mkernel{RESET} {DIM}|{RESET} boot")
    );
    assert_eq!(
        text_line("usart1", "no prefix", 8),
        format!("       \x1b[37m  usart1{RESET} {DIM}|{RESET} no prefix")
    );
}

#[test]
fn backtraces_skip_the_capture_frame() {
    let frames = vec![
        Frame { function: "capture".into(), file: None, line: None, is_inline: false },
        Frame { function: "f".into(), file: Some("a.rs".into()), line: Some(1), is_inline: true },
        Frame { function: "g".into(), file: None, line: None, is_inline: false },
    ];
    let lines = backtrace_lines(&frames, 40, 16);
    let cp = format!("{} {DIM}|{RESET} ", " ".repeat(13));
    assert_eq!(lines.len(), 3);
    assert_eq!(lines[0], format!("{cp}{DIM}backtrace:{RESET}"));
    let left = "  f [inline]";
    assert_eq!(lines[1], format!("{cp}{left}{} {DIM}a.rs:1{RESET}", " ".repeat(24 - left.len() - 6 - 1)));
    assert_eq!(lines[2], format!("{cp}  g"));
}

#[test]
fn splitting_on_a_separator() {
    assert_eq!(split_text("a,b,,c", ','), vec!["a", "b", "", "c"]);
    assert_eq!(split_text("", ','), vec![""]);
}

#[test]
fn backends() {
    assert_eq!(parse_backend("emulator"), ConnectedBackend::Emulator);
    assert_eq!(
        parse_backend("serial:/dev/a,/dev/b"), ConnectedBackend::Serial { usart1: Some("/dev/a".into()), usart2: Some("/dev/b".into()) }
    );
    assert_eq!(parse_backend("serial:,/dev/b"), ConnectedBackend::Serial { usart1: None, usart2: Some("/dev/b".into()) });
    assert_eq!(parse_backend("serial:/dev/a"), ConnectedBackend::Serial { usart1: Some("/dev/a".into()), usart2: None });
    assert_eq!(parse_backend("serial:"), ConnectedBackend::Serial { usart1: None, usart2: None });
    assert_eq!(parse_backend("serial:a,b,c"), ConnectedBackend::Serial { usart1: Some("a".into()), usart2: Some("b".into()) });
    assert!(!backend_known("usb"));
    assert!(backend_known("emulator") && backend_known("serial:"));
    assert!(!backend_known("Emulator"));
}

