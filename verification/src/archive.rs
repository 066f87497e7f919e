//! Firmware archives (`.tfw`, zip files): their entries, read through the
//! `zip` crate, and what the tools take from them.

use vstd::prelude::*;

use std::io::Cursor;
use zip::ZipArchive;

use crate::stacktrace::{elf_entry_task, entry_task_name, ElfCache};

verus! {

#[verifier::external_type_specification]
#[verifier::external_body]
#[verifier::reject_recursive_types(T)]
pub struct ExCursor<T>(Cursor<T>);

#[verifier::external_type_specification]
#[verifier::external_body]
#[verifier::reject_recursive_types(R)]
pub struct ExZipArchive<R>(ZipArchive<R>);

/// What the `zip` crate reads of an archive's bytes: each entry's name and
/// its content when the entry can be read; none when the bytes are not an
/// archive.
pub uninterp spec fn zip_read(bytes: Seq<u8>) -> Option<Seq<(Seq<char>, Option<Seq<u8>>)>>;

/// The entries of an opened archive, as `zip_read` gives them.
pub uninterp spec fn zip_entries(a: ZipArchive<Cursor<Vec<u8>>>) -> Seq<(Seq<char>, Option<Seq<u8>>)>;

/// `ZipArchive::new` over the bytes: the archive when they are one. The
/// crate reports malformed input as an error (its own tests feed it
/// invalid archives), and its reading code outside tests holds no
/// `panic!` or `expect`; that no hostile central directory can make it
/// abort is not stated here beyond that reading.
#[verifier::external_body]
fn zip_open(bytes: Vec<u8>) -> (r: Option<ZipArchive<Cursor<Vec<u8>>>>)
    ensures
        match r {
            Some(a) => zip_read(bytes@) == Some(zip_entries(a)),
            None => zip_read(bytes@) is None,
        },
{
    ZipArchive::new(Cursor::new(bytes)).ok()
}

/// `ZipArchive::len`: the number of entries.
#[verifier::external_body]
fn zip_len(a: &ZipArchive<Cursor<Vec<u8>>>) -> (n: usize)
    ensures
        n == zip_entries(*a).len(),
{
    a.len()
}

/// The name of entry `i` (`ZipArchive::name_for_index`), which every entry
/// below the length has.
#[verifier::external_body]
fn zip_entry_name(a: &ZipArchive<Cursor<Vec<u8>>>, i: usize) -> (r: Option<String>)
    requires
        i < zip_entries(*a).len(),
    ensures
        r is Some,
        r is Some ==> r->0@ == zip_entries(*a)[i as int].0,
{
    a.name_for_index(i).map(|n| n.to_string())
}

/// The content of entry `i`, as `ZipArchive::by_index` and reading the
/// entry to its end give it; none when it cannot be read. Corrupt
/// compressed data is reported by the crate as a read error; that the
/// deflate decoder never aborts on it is not stated here.
#[verifier::external_body]
fn zip_entry_data(a: &mut ZipArchive<Cursor<Vec<u8>>>, i: usize) -> (r: Option<Vec<u8>>)
    requires
        i < zip_entries(*old(a)).len(),
    ensures
        zip_entries(*final(a)) == zip_entries(*old(a)),
        match r {
            Some(d) => zip_entries(*old(a))[i as int].1 == Some(d@),
            None => zip_entries(*old(a))[i as int].1 is None,
        },
{
    let mut f = a.by_index(i).ok()?;
    let mut data: Vec<u8> = Vec::new();
    std::io::Read::read_to_end(&mut f, &mut data).ok()?;
    Some(data)
}

/// The ELFs an archive holds: each readable entry under `elf/`, by the task
/// named by its last path component; a later entry for a task replaces an
/// earlier one.
pub open spec fn elfs_of(m: Map<Seq<char>, Seq<u8>>, es: Seq<(Seq<char>, Option<Seq<u8>>)>) -> Map<Seq<char>, Seq<u8>>
    decreases es.len(),
{
    if es.len() == 0 {
        m
    } else {
        let before = elfs_of(m, es.drop_last());
        match (elf_entry_task(es.last().0), es.last().1) {
            (Some(t), Some(d)) => before.insert(t, d),
            _ => before,
        }
    }
}

impl ElfCache {
    /// Load the task ELFs of a firmware archive (entries `elf/<task>`).
    pub fn load_from_archive(&mut self, archive: &mut ZipArchive<Cursor<Vec<u8>>>)
        ensures
            zip_entries(*final(archive)) == zip_entries(*old(archive)),
            final(self).view() == elfs_of(old(self).view(), zip_entries(*old(archive))),
    {
        let ghost es = zip_entries(*archive);
        let ghost m0 = self.view();
        let n = zip_len(archive);
        let mut i: usize = 0;
        while i < n
            invariant
                n == es.len(),
                i <= n,
                zip_entries(*archive) == es,
                es == zip_entries(*old(archive)),
                m0 == old(self).view(),
                self.view() == elfs_of(m0, es.subrange(0, i as int)),
            decreases n - i,
        {
            proof {
                assert(es.subrange(0, i + 1).drop_last() =~= es.subrange(0, i as int));
                assert(es.subrange(0, i + 1).last() == es[i as int]);
            }
            match zip_entry_name(archive, i) {
                Some(name) => {
                    match entry_task_name(name.as_str()) {
                        Some(task) => {
                            match zip_entry_data(archive, i) {
                                Some(data) => {
                                    self.insert(task, data);
                                },
                                None => {},
                            }
                        },
                        None => {},
                    }
                },
                None => {},
            }
            i += 1;
        }
        assert(es.subrange(0, i as int) =~= es);
    }
}

/// The content of the first entry named `name`, if it is readable.
pub open spec fn entry_named(es: Seq<(Seq<char>, Option<Seq<u8>>)>, name: Seq<char>) -> Option<Seq<u8>>
    decreases es.len(),
{
    if es.len() == 0 {
        None
    } else if es[0].0 == name {
        es[0].1
    } else {
        entry_named(es.drop_first(), name)
    }
}

/// Why a firmware archive could not be read.
#[derive(Clone, Copy, Debug, PartialEq, Eq, Structural)]
pub enum TfwError {
    /// The bytes are not a zip archive.
    InvalidArchive,
    /// The archive has no readable entry of that name.
    MissingEntry,
}

/// A firmware archive opened from its bytes.
pub struct Tfw {
    pub archive: ZipArchive<Cursor<Vec<u8>>>,
}

impl Tfw {
    /// The archive's entries.
    pub open spec fn entries(&self) -> Seq<(Seq<char>, Option<Seq<u8>>)> {
        zip_entries(self.archive)
    }

    /// Open an archive from its bytes.
    pub fn open(bytes: Vec<u8>) -> (r: Result<Tfw, TfwError>)
        ensures
            match r {
                Ok(t) => zip_read(bytes@) == Some(t.entries()),
                Err(e) => zip_read(bytes@) is None && e == TfwError::InvalidArchive,
            },
    {
        match zip_open(bytes) {
            Some(archive) => Ok(Tfw { archive }),
            None => Err(TfwError::InvalidArchive),
        }
    }

    /// The content of the entry called `name`.
    pub fn entry(&mut self, name: &str) -> (r: Result<Vec<u8>, TfwError>)
        ensures
            final(self).entries() == old(self).entries(),
            match entry_named(old(self).entries(), name@) {
                Some(d) => r matches Ok(v) && v@ == d,
                None => r == Err::<Vec<u8>, TfwError>(TfwError::MissingEntry),
            },
    {
        let ghost es = zip_entries(self.archive);
        let n = zip_len(&self.archive);
        let mut i: usize = 0;
        assert(es.subrange(0, n as int) =~= es);
        while i < n
            invariant
                n == es.len(),
                i <= n,
                zip_entries(self.archive) == es,
                es == old(self).entries(),
                entry_named(es, name@) == entry_named(es.subrange(i as int, n as int), name@),
            decreases n - i,
        {
            let ghost rest = es.subrange(i as int, n as int);
            proof {
                assert(rest[0] == es[i as int]);
                assert(rest.drop_first() =~= es.subrange(i + 1, n as int));
            }
            match zip_entry_name(&self.archive, i) {
                Some(entry_name) => {
                    if crate::text::str_eq(entry_name.as_str(), name) {
                        let d = zip_entry_data(&mut self.archive, i);
                        assert(zip_entries(self.archive) == es);
                        return match d {
                            Some(d) => Ok(d),
                            None => Err(TfwError::MissingEntry),
                        };
                    }
                },
                None => {},
            }
            i += 1;
        }
        proof {
            assert(es.subrange(i as int, n as int) =~= Seq::<(Seq<char>, Option<Seq<u8>>)>::empty());
        }
        Err(TfwError::MissingEntry)
    }
}

} // verus!
