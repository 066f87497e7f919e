use std::io::{Cursor, Write};

use rcard_host::archive::{Tfw, TfwError};
use rcard_host::stacktrace::ElfCache;
use zip::write::SimpleFileOptions;
use zip::{CompressionMethod, ZipWriter};

fn archive(entries: &[(&str, &[u8])]) -> Vec<u8> {
    let mut w = ZipWriter::new(Cursor::new(Vec::new()));
    let opts = SimpleFileOptions::default().compression_method(CompressionMethod::Stored);
    for (name, data) in entries {
        w.start_file(*name, opts).unwrap();
        w.write_all(data).unwrap();
    }
    w.finish().unwrap().into_inner()
}

#[test]
fn entries_are_found_by_name() {
    let bytes = archive(&[("log-metadata.json", b"[]"), ("places.bin", &[1, 2, 3])]);
    let mut t = Tfw::open(bytes).map_err(|_| "open").unwrap();
    assert_eq!(t.entry("places.bin").ok(), Some(vec![1, 2, 3]));
    assert_eq!(t.entry("log-metadata.json").ok(), Some(b"[]".to_vec()));
    assert_eq!(t.entry("missing").err(), Some(TfwError::MissingEntry));
}

#[test]
fn bytes_that_are_no_archive_are_refused() {
    assert_eq!(Tfw::open(vec![1, 2, 3]).err(), Some(TfwError::InvalidArchive));
}

#[test]
fn task_elfs_are_loaded_from_the_elf_directory() {
    let bytes = archive(&[("elf/app", &[0x7f, b'E']), ("elf/sub/sysmodule_log", &[9]), ("elf/", &[]), ("other", &[5])]);
    let mut t = Tfw::open(bytes).map_err(|_| "open").unwrap();
    let mut cache = ElfCache::new();
    cache.load_from_archive(&mut t.archive);
    assert_eq!(cache.get("app").map(|e| e.data.clone()), Some(vec![0x7f, b'E']));
    assert_eq!(cache.get("sysmodule_log").map(|e| e.data.clone()), Some(vec![9]));
    assert!(cache.get("other").is_none());
    assert!(cache.get("").is_none());
}
