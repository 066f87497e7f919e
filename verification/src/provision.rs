//! Loading the stub firmware into a device's RAM over the debug link:
//! cutting the firmware partition out of the stub image, the word writes
//! that carry it, the register writes that boot it, and waiting for the
//! bootloader to settle before any of that.

use vstd::prelude::*;

use crate::stacktrace::le_word;
use crate::text::{push_str, seq_starts_with, strip_prefix_str};

verus! {

/// Base address of RAM on the SF32LB52x.
pub const RAM_BASE: u32 = 0x2000_0000;

/// Bytes written per debug-link write.
pub const CHUNK_SIZE: usize = 65536;

/// `n` zero bytes.
pub open spec fn zeros(n: nat) -> Seq<u8> {
    Seq::new(n, |_i: int| 0u8)
}

/// The firmware partition of a disk image, padded with zeros to whole
/// words; none when the partition lies outside the image.
pub open spec fn spec_firmware_partition(full: Seq<u8>, offset: nat, size: nat) -> Option<Seq<u8>> {
    if offset + size <= full.len() {
        let part = full.subrange(offset as int, (offset + size) as int);
        Some(part + zeros(if part.len() % 4 == 0 {
            0
        } else {
            (4 - part.len() % 4) as nat
        }))
    } else {
        None
    }
}

/// The firmware partition of a disk image, padded with zeros to whole
/// words; none when the partition lies outside the image.
pub fn firmware_partition(full: &Vec<u8>, offset: usize, size: usize) -> (r: Option<Vec<u8>>)
    ensures
        match r {
            Some(img) => spec_firmware_partition(full@, offset as nat, size as nat) == Some(img@),
            None => spec_firmware_partition(full@, offset as nat, size as nat) is None,
        },
{
    if offset > full.len() || size > full.len() - offset {
        return None;
    }
    let stop = offset + size;
    let mut img: Vec<u8> = Vec::new();
    let mut i: usize = offset;
    while i < stop
        invariant
            stop == offset + size,
            offset <= i <= offset + size,
            offset + size <= full@.len(),
            img@ =~= full@.subrange(offset as int, i as int),
        decreases offset + size - i,
    {
        img.push(full[i]);
        i += 1;
    }
    let ghost part = img@;
    let pad: usize = if size % 4 == 0 { 0 } else { 4 - size % 4 };
    let mut k: usize = 0;
    while k < pad
        invariant
            k <= pad,
            pad < 4,
            img@ =~= part + zeros(k as nat),
        decreases pad - k,
    {
        img.push(0);
        k += 1;
    }
    Some(img)
}

/// The little-endian words of `b`, a trailing partial word dropped.
pub open spec fn le_words(b: Seq<u8>) -> Seq<u32> {
    Seq::new(b.len() / 4, |j: int| le_word(b[4 * j], b[4 * j + 1], b[4 * j + 2], b[4 * j + 3]) as u32)
}

/// How many writes an image of `len` bytes takes.
pub open spec fn chunk_count(len: nat) -> nat {
    (len + CHUNK_SIZE - 1) as nat / CHUNK_SIZE as nat
}

/// The bytes of the `k`-th write.
pub open spec fn chunk_of(image: Seq<u8>, k: nat) -> Seq<u8> {
    let start = k * CHUNK_SIZE;
    let end = if start + CHUNK_SIZE < image.len() {
        start + CHUNK_SIZE
    } else {
        image.len() as int
    };
    image.subrange(start, end)
}

/// The writes that put `image` into RAM, in order: each chunk's address
/// and its words.
pub open spec fn image_writes_spec(image: Seq<u8>) -> Seq<(u32, Seq<u32>)> {
    Seq::new(
        chunk_count(image.len()),
        |k: int| ((RAM_BASE + k * CHUNK_SIZE) as u32, le_words(chunk_of(image, k as nat))),
    )
}

fn words_of(image: &Vec<u8>, start: usize, end: usize) -> (r: Vec<u32>)
    requires
        start <= end <= image@.len(),
    ensures
        r@ == le_words(image@.subrange(start as int, end as int)),
{
    let ghost b = image@.subrange(start as int, end as int);
    let n = (end - start) / 4;
    let mut out: Vec<u32> = Vec::new();
    let mut j: usize = 0;
    while j < n
        invariant
            j <= n,
            n == (end - start) / 4,
            start <= end <= image@.len(),
            b == image@.subrange(start as int, end as int),
            out@ =~= le_words(b).subrange(0, j as int),
        decreases n - j,
    {
        let p = start + 4 * j;
        assert(b[4 * j] == image@[p as int]);
        assert(b[4 * j + 1] == image@[p + 1]);
        assert(b[4 * j + 2] == image@[p + 2]);
        assert(b[4 * j + 3] == image@[p + 3]);
        let w: u32 = image[p] as u32 + 256 * (image[p + 1] as u32) + 65536 * (image[p + 2] as u32) + 16777216 * (
        image[p + 3] as u32);
        out.push(w);
        j += 1;
    }
    assert(le_words(b).subrange(0, n as int) =~= le_words(b));
    out
}

/// The writes that put `image` into RAM: each chunk's address and words.
pub fn image_writes(image: &Vec<u8>) -> (r: Vec<(u32, Vec<u32>)>)
    requires
        image@.len() <= 0xE000_0000,
    ensures
        r@.len() == image_writes_spec(image@).len(),
        forall|k: int|
            0 <= k < r@.len() ==> (#[trigger] r@[k]).0 == image_writes_spec(image@)[k].0 && r@[k].1@
                == image_writes_spec(image@)[k].1,
{
    let count: usize = (image.len() + (CHUNK_SIZE - 1)) / CHUNK_SIZE;
    assert(count == chunk_count(image@.len()));
    let mut out: Vec<(u32, Vec<u32>)> = Vec::new();
    let mut k: usize = 0;
    while k < count
        invariant
            image@.len() <= 0xE000_0000,
            count == chunk_count(image@.len()),
            k <= count,
            out@.len() == k,
            forall|t: int|
                0 <= t < k ==> (#[trigger] out@[t]).0 == image_writes_spec(image@)[t].0 && out@[t].1@
                    == image_writes_spec(image@)[t].1,
        decreases count - k,
    {
        assert(k * 65536 < image@.len()) by (nonlinear_arith)
            requires
                k < count,
                count == (image@.len() + 65535) / 65536,
        ;
        let start: usize = k * CHUNK_SIZE;
        let end = if CHUNK_SIZE < image.len() - start { start + CHUNK_SIZE } else { image.len() };
        let words = words_of(image, start, end);
        let addr: u32 = RAM_BASE + start as u32;
        proof {
            assert(chunk_of(image@, k as nat) == image@.subrange(start as int, end as int));
            assert(addr == (RAM_BASE + k * CHUNK_SIZE) as u32);
        }
        out.push((addr, words));
        k += 1;
    }
    out
}


/// Debug halting control and status register.
pub const DHCSR: u32 = 0xE000_EDF0;

/// Debug core register selector.
pub const DCRSR: u32 = 0xE000_EDF4;

/// Debug core register data.
pub const DCRDR: u32 = 0xE000_EDF8;

/// Vector table offset register.
pub const VTOR: u32 = 0xE000_ED08;

/// `DBGKEY | C_HALT | C_DEBUGEN`: halt the core.
pub const HALT_CORE: u32 = 0xA05F_0003;

/// `DBGKEY | C_DEBUGEN`: let the halted core run.
pub const RESUME_CORE: u32 = 0xA05F_0001;

/// The register writes that start the loaded image: the stack pointer and
/// program counter set through the debug core registers, then the core
/// resumed.
pub open spec fn spec_boot_writes(initial_sp: u32, reset_vector: u32) -> Seq<(u32, u32)> {
    seq![
        (DCRDR, initial_sp),
        (DCRSR, 0x0001_000Du32),
        (DCRDR, reset_vector),
        (DCRSR, 0x0001_000Fu32),
        (DHCSR, RESUME_CORE),
    ]
}

/// The register writes that start the loaded image, given the stack
/// pointer and reset vector read from its vector table.
pub fn boot_writes(initial_sp: u32, reset_vector: u32) -> (r: Vec<(u32, u32)>)
    ensures
        r@ == spec_boot_writes(initial_sp, reset_vector),
{
    let mut v: Vec<(u32, u32)> = Vec::new();
    v.push((DCRDR, initial_sp));
    v.push((DCRSR, 0x0001_000D));
    v.push((DCRDR, reset_vector));
    v.push((DCRSR, 0x0001_000F));
    v.push((DHCSR, RESUME_CORE));
    assert(v@ =~= spec_boot_writes(initial_sp, reset_vector));
    v
}

// ── Waiting for the bootloader ───────────────────────────────────────

/// Where the wait for the bootloader stands.
#[derive(Clone, Copy, Debug, PartialEq, Eq, Structural)]
pub enum SfblWait {
    /// No bootloader line seen yet.
    Seeking,
    /// Seen; waiting for a quiet spell.
    Settling,
    /// The bootloader has settled.
    Stable,
    /// Given up.
    Failed,
}

/// What to do after an event of the wait.
#[derive(Debug, PartialEq, Eq)]
pub enum SfblAction {
    /// Keep waiting.
    Wait,
    /// Print this progress line and keep waiting.
    Report(String),
    /// Print this line; the bootloader is stable.
    Done(String),
    /// Print this error; the command fails.
    Fail(String),
}

/// Whether a line comes from the bootloader.
pub open spec fn is_sfbl(text: Seq<char>) -> bool {
    seq_starts_with(text, "SFBL"@)
}

/// The state and action after a line from USART1.
pub open spec fn sfbl_after_line(st: SfblWait, text: Seq<char>) -> (SfblWait, Option<(u8, Seq<char>)>) {
    match st {
        SfblWait::Seeking => if is_sfbl(text) {
            (SfblWait::Settling, Some((0u8, "  bootloader: "@ + text)))
        } else {
            (SfblWait::Seeking, None)
        },
        SfblWait::Settling => if is_sfbl(text) {
            (SfblWait::Settling, Some((0u8, "  bootloader reset: "@ + text)))
        } else {
            (SfblWait::Failed, Some((2u8, "error: unexpected output during bootloader settle: "@ + text)))
        },
        _ => (st, None),
    }
}

/// An action as plain values: 0 for a report, 1 when done, 2 for a
/// failure, with the line; none to keep waiting.
pub open spec fn action_values(a: SfblAction) -> Option<(u8, Seq<char>)> {
    match a {
        SfblAction::Wait => None,
        SfblAction::Report(m) => Some((0u8, m@)),
        SfblAction::Done(m) => Some((1u8, m@)),
        SfblAction::Fail(m) => Some((2u8, m@)),
    }
}

fn message(prefix: &str, text: &str) -> (r: String)
    ensures
        r@ == prefix@ + text@,
{
    let mut m = String::new();
    push_str(&mut m, prefix);
    push_str(&mut m, text);
    assert(m@ =~= prefix@ + text@);
    m
}

impl SfblWait {
    /// A line arrived on USART1.
    pub fn on_line(&mut self, text: &str) -> (a: SfblAction)
        ensures
            (*final(self), action_values(a)) == sfbl_after_line(*old(self), text@),
    {
        let sfbl = strip_prefix_str(text, "SFBL").is_some();
        match *self {
            SfblWait::Seeking => {
                if sfbl {
                    *self = SfblWait::Settling;
                    SfblAction::Report(message("  bootloader: ", text))
                } else {
                    SfblAction::Wait
                }
            },
            SfblWait::Settling => {
                if sfbl {
                    SfblAction::Report(message("  bootloader reset: ", text))
                } else {
                    *self = SfblWait::Failed;
                    SfblAction::Fail(message("error: unexpected output during bootloader settle: ", text))
                }
            },
            _ => SfblAction::Wait,
        }
    }

    /// No line arrived for the settling time: once a bootloader line has
    /// been seen, it is stable.
    pub fn on_quiet(&mut self) -> (a: SfblAction)
        ensures
            *old(self) == SfblWait::Settling ==> *final(self) == SfblWait::Stable && action_values(a) == Some(
                (1u8, "  bootloader stable"@),
            ),
            *old(self) != SfblWait::Settling ==> *final(self) == *old(self) && a == SfblAction::Wait,
    {
        match *self {
            SfblWait::Settling => {
                *self = SfblWait::Stable;
                let mut m = String::new();
                push_str(&mut m, "  bootloader stable");
                assert(m@ =~= "  bootloader stable"@);
                SfblAction::Done(m)
            },
            _ => SfblAction::Wait,
        }
    }

    /// The stream closed: the wait fails unless it is over.
    pub fn on_closed(&mut self) -> (a: SfblAction)
        ensures
            *old(self) == SfblWait::Seeking ==> *final(self) == SfblWait::Failed && action_values(a) == Some(
                (2u8, "error: USART1 stream closed while waiting for bootloader"@),
            ),
            *old(self) == SfblWait::Settling ==> *final(self) == SfblWait::Failed && action_values(a) == Some(
                (2u8, "error: USART1 stream closed while waiting for bootloader to settle"@),
            ),
            (*old(self) == SfblWait::Stable || *old(self) == SfblWait::Failed) ==> *final(self) == *old(self)
                && a == SfblAction::Wait,
    {
        let mut m = String::new();
        match *self {
            SfblWait::Seeking => {
                *self = SfblWait::Failed;
                push_str(&mut m, "error: USART1 stream closed while waiting for bootloader");
                assert(m@ =~= "error: USART1 stream closed while waiting for bootloader"@);
                SfblAction::Fail(m)
            },
            SfblWait::Settling => {
                *self = SfblWait::Failed;
                push_str(&mut m, "error: USART1 stream closed while waiting for bootloader to settle");
                assert(m@ =~= "error: USART1 stream closed while waiting for bootloader to settle"@);
                SfblAction::Fail(m)
            },
            _ => SfblAction::Wait,
        }
    }
}

/// A stable or failed wait stays so whatever line arrives.
pub proof fn law_sfbl_final_states_absorb(st: SfblWait, text: Seq<char>)
    requires
        st == SfblWait::Stable || st == SfblWait::Failed,
    ensures
        sfbl_after_line(st, text) == (st, None::<(u8, Seq<char>)>),
{
}

} // verus!
