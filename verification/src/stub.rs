//! Loading the stub firmware into a device's RAM over SifliDebug: the
//! writes the image's segments make (smallest first), how they are cut
//! into debug-link writes, how the progress bar counts the bytes on the
//! wire, the read-back check, and finding the vector table.

use vstd::prelude::*;

use crate::bridge::FlashPhase;
use crate::provision::{le_words, zeros, DCRDR, DCRSR, DHCSR, HALT_CORE, RESUME_CORE};
use crate::stacktrace::{address_text, format_address};
use crate::text::{hex_digits, push_decimal, push_hex, push_str};

verus! {

/// A loadable segment of the stub image.
pub struct StubSegment {
    /// Where it is loaded.
    pub dest: u32,
    /// The bytes loaded from the image.
    pub data: Vec<u8>,
    /// Bytes the image holds for it.
    pub file_size: u32,
    /// Bytes after them that are zero-filled.
    pub zero_fill: u32,
}

/// One contiguous region of words to write to device RAM.
pub struct PendingWrite {
    pub addr: u32,
    pub data: Vec<u32>,
}

/// A write as plain values: address and words.
pub open spec fn write_view(w: PendingWrite) -> (u32, Seq<u32>) {
    (w.addr, w.data@)
}

/// Writes as plain values.
pub open spec fn writes_view(ws: Seq<PendingWrite>) -> Seq<(u32, Seq<u32>)> {
    ws.map_values(|w: PendingWrite| write_view(w))
}

/// `n` zero words.
pub open spec fn zero_words(n: nat) -> Seq<u32> {
    Seq::new(n, |_i: int| 0u32)
}

/// The data padded with zeros to whole words.
pub open spec fn word_padded(d: Seq<u8>) -> Seq<u8> {
    d + zeros(if d.len() % 4 == 0 {
        0
    } else {
        (4 - d.len() % 4) as nat
    })
}

/// The writes a segment makes: its data (padded to whole words) at its
/// destination, then, when it has any, its zero-fill right after the bytes
/// the image holds.
pub open spec fn segment_writes(s: StubSegment) -> Seq<(u32, Seq<u32>)> {
    seq![(s.dest, le_words(word_padded(s.data@)))] + if s.zero_fill > 0 {
        seq![((s.dest + s.file_size) as u32, zero_words(((s.zero_fill + 3) / 4) as nat))]
    } else {
        Seq::empty()
    }
}

/// The writes of all segments, in order.
pub open spec fn collated(segs: Seq<StubSegment>) -> Seq<(u32, Seq<u32>)>
    decreases segs.len(),
{
    if segs.len() == 0 {
        Seq::empty()
    } else {
        collated(segs.drop_last()) + segment_writes(segs.last())
    }
}

/// Where `x` goes among writes sorted by length: before the first longer
/// one.
pub open spec fn slot_for(sorted: Seq<(u32, Seq<u32>)>, len: nat) -> int
    decreases sorted.len(),
{
    if sorted.len() == 0 {
        0
    } else if sorted[0].1.len() > len {
        0
    } else {
        1 + slot_for(sorted.drop_first(), len)
    }
}

/// The writes ordered by length, equal lengths in their original order.
pub open spec fn sorted_by_len(ws: Seq<(u32, Seq<u32>)>) -> Seq<(u32, Seq<u32>)>
    decreases ws.len(),
{
    if ws.len() == 0 {
        Seq::empty()
    } else {
        let s = sorted_by_len(ws.drop_last());
        s.insert(slot_for(s, ws.last().1.len()), ws.last())
    }
}

/// The segments' destinations and sizes stay within the address space.
pub open spec fn segments_fit(segs: Seq<StubSegment>) -> bool {
    forall|i: int|
        0 <= i < segs.len() ==> (#[trigger] segs[i]).dest + segs[i].file_size <= u32::MAX && segs[i].data@.len()
            + 3 <= usize::MAX
}

proof fn lemma_slot_for(sorted: Seq<(u32, Seq<u32>)>, len: nat)
    ensures
        0 <= slot_for(sorted, len) <= sorted.len(),
        forall|j: int| 0 <= j < slot_for(sorted, len) ==> (#[trigger] sorted[j]).1.len() <= len,
        slot_for(sorted, len) < sorted.len() ==> sorted[slot_for(sorted, len)].1.len() > len,
    decreases sorted.len(),
{
    if sorted.len() > 0 && sorted[0].1.len() <= len {
        lemma_slot_for(sorted.drop_first(), len);
        assert forall|j: int| 0 <= j < slot_for(sorted, len) implies (#[trigger] sorted[j]).1.len() <= len by {
            if j > 0 {
                assert(sorted[j] == sorted.drop_first()[j - 1]);
            }
        }
    }
}

fn words_of_padded(data: &Vec<u8>) -> (r: Vec<u32>)
    requires
        data@.len() + 3 <= usize::MAX,
    ensures
        r@ == le_words(word_padded(data@)),
{
    let mut padded: Vec<u8> = Vec::new();
    let mut i: usize = 0;
    while i < data.len()
        invariant
            i <= data@.len(),
            padded@ =~= data@.subrange(0, i as int),
        decreases data.len() - i,
    {
        padded.push(data[i]);
        i += 1;
    }
    assert(data@.subrange(0, i as int) =~= data@);
    let ghost d = padded@;
    let pad: usize = if data.len() % 4 == 0 { 0 } else { 4 - data.len() % 4 };
    let mut k: usize = 0;
    while k < pad
        invariant
            k <= pad,
            pad < 4,
            d == data@,
            padded@ =~= d + zeros(k as nat),
        decreases pad - k,
    {
        padded.push(0);
        k += 1;
    }
    assert(padded@ == word_padded(data@));
    let n = padded.len() / 4;
    let mut out: Vec<u32> = Vec::new();
    let mut j: usize = 0;
    let ghost b = padded@;
    while j < n
        invariant
            j <= n,
            n == b.len() / 4,
            n == padded.len() / 4,
            b == padded@,
            out@ =~= le_words(b).subrange(0, j as int),
        decreases n - j,
    {
        let len = padded.len();
        assert(4 * j + 3 < len) by (nonlinear_arith)
            requires
                j < n,
                n == len / 4,
        ;
        let p = 4 * j;
        let w: u32 = padded[p] as u32 + 256 * (padded[p + 1] as u32) + 65536 * (padded[p + 2] as u32) + 16777216 * (
        padded[p + 3] as u32);
        out.push(w);
        j += 1;
    }
    assert(le_words(b).subrange(0, n as int) =~= le_words(b));
    out
}

fn zero_vec(n: usize) -> (r: Vec<u32>)
    ensures
        r@ == zero_words(n as nat),
{
    let mut v: Vec<u32> = Vec::new();
    let mut i: usize = 0;
    while i < n
        invariant
            i <= n,
            v@ =~= zero_words(i as nat),
        decreases n - i,
    {
        v.push(0);
        i += 1;
    }
    v
}

/// Insert a write into writes sorted by length, after those no longer.
fn insert_sorted(sorted: &mut Vec<PendingWrite>, w: PendingWrite)
    ensures
        writes_view(final(sorted)@) == writes_view(old(sorted)@).insert(
            slot_for(writes_view(old(sorted)@), w.data@.len()),
            write_view(w),
        ),
{
    let ghost s0 = writes_view(sorted@);
    proof {
        lemma_slot_for(s0, w.data@.len());
    }
    let mut p: usize = 0;
    while p < sorted.len() && sorted[p].data.len() <= w.data.len()
        invariant
            p <= sorted@.len(),
            s0 == writes_view(sorted@),
            p <= slot_for(s0, w.data@.len()),
            0 <= slot_for(s0, w.data@.len()) <= s0.len(),
            forall|j: int| 0 <= j < slot_for(s0, w.data@.len()) ==> (#[trigger] s0[j]).1.len() <= w.data@.len(),
            slot_for(s0, w.data@.len()) < s0.len() ==> s0[slot_for(s0, w.data@.len())].1.len() > w.data@.len(),
        decreases sorted.len() - p,
    {
        assert(s0[p as int] == write_view(sorted@[p as int]));
        p += 1;
    }
    proof {
        if p < sorted@.len() {
            assert(s0[p as int] == write_view(sorted@[p as int]));
        }
        assert(p == slot_for(s0, w.data@.len()));
    }
    let ghost wv = write_view(w);
    sorted.insert(p, w);
    assert(writes_view(sorted@) =~= s0.insert(p as int, wv));
}

/// The writes that load the stub's segments, smallest first (equal sizes
/// in segment order).
pub fn plan_writes(segs: Vec<StubSegment>) -> (r: Vec<PendingWrite>)
    requires
        segments_fit(segs@),
    ensures
        writes_view(r@) == sorted_by_len(collated(segs@)),
{
    let ghost all = segs@;
    let count = segs.len();
    let mut sorted: Vec<PendingWrite> = Vec::new();
    let mut rev: Vec<StubSegment> = Vec::new();
    let mut segs = segs;
    while segs.len() > 0
        invariant
            segs@.len() + rev@.len() == all.len(),
            segs@ == all.subrange(0, segs@.len() as int),
            forall|j: int| 0 <= j < rev@.len() ==> #[trigger] rev@[j] == all[all.len() - 1 - j],
        decreases segs.len(),
    {
        let s = segs.pop().unwrap();
        rev.push(s);
        assert(segs@ =~= all.subrange(0, segs@.len() as int));
    }
    let ghost flat: Seq<(u32, Seq<u32>)> = Seq::empty();
    assert(all.subrange(0, 0) =~= Seq::<StubSegment>::empty());
    let mut k: usize = 0;
    while rev.len() > 0
        invariant
            rev@.len() + k == all.len(),
            all.len() == count,
            segments_fit(all),
            forall|j: int| 0 <= j < rev@.len() ==> #[trigger] rev@[j] == all[all.len() - 1 - j],
            sorted_by_len(flat) == writes_view(sorted@),
            flat == collated(all.subrange(0, k as int)),
        decreases rev.len(),
    {
        let s = rev.pop().unwrap();
        proof {
            assert(s == all[k as int]);
            assert(all.subrange(0, k + 1).drop_last() =~= all.subrange(0, k as int));
            assert(all.subrange(0, k + 1).last() == all[k as int]);
        }
        let ghost sw = segment_writes(s);
        let words = words_of_padded(&s.data);
        let ghost w1 = (s.dest, words@);
        let ghost before = writes_view(sorted@);
        insert_sorted(&mut sorted, PendingWrite { addr: s.dest, data: words });
        proof {
            let f1 = flat.push(w1);
            assert(f1.drop_last() =~= flat);
            assert(f1.last() == w1);
            assert(sorted_by_len(f1) == sorted_by_len(flat).insert(slot_for(sorted_by_len(flat), w1.1.len()), w1));
            assert(writes_view(sorted@) == before.insert(slot_for(before, w1.1.len()), w1));
            flat = f1;
        }
        if s.zero_fill > 0 {
            let n_words: usize = ((s.zero_fill as u64 + 3) / 4) as usize;
            let zeros = zero_vec(n_words);
            let ghost w2 = ((s.dest + s.file_size) as u32, zeros@);
            let ghost before2 = writes_view(sorted@);
            insert_sorted(&mut sorted, PendingWrite { addr: s.dest + s.file_size, data: zeros });
            proof {
                let f2 = flat.push(w2);
                assert(f2.drop_last() =~= flat);
                assert(f2.last() == w2);
                assert(sorted_by_len(f2) == sorted_by_len(flat).insert(slot_for(sorted_by_len(flat), w2.1.len()), w2));
                assert(writes_view(sorted@) == before2.insert(slot_for(before2, w2.1.len()), w2));
                flat = f2;
            }
        }
        proof {
            assert(flat =~= collated(all.subrange(0, k as int)) + sw);
        }
        k += 1;
    }
    proof {
        assert(all.subrange(0, k as int) =~= all);
    }
    sorted
}


/// Bytes of all writes.
pub open spec fn total_bytes(ws: Seq<(u32, Seq<u32>)>) -> nat
    decreases ws.len(),
{
    if ws.len() == 0 {
        0
    } else {
        total_bytes(ws.drop_last()) + 4 * ws.last().1.len()
    }
}

/// The bytes the writes carry, when the count fits in 32 bits.
pub fn bytes_total(writes: &Vec<PendingWrite>) -> (r: Option<u32>)
    ensures
        total_bytes(writes_view(writes@)) <= u32::MAX ==> r == Some(total_bytes(writes_view(writes@)) as u32),
        total_bytes(writes_view(writes@)) > u32::MAX ==> r is None,
{
    let ghost ws = writes_view(writes@);
    let mut total: u64 = 0;
    let mut i: usize = 0;
    while i < writes.len()
        invariant
            i <= writes@.len(),
            ws == writes_view(writes@),
            total == total_bytes(ws.subrange(0, i as int)),
            total <= u32::MAX,
        decreases writes.len() - i,
    {
        proof {
            assert(ws.subrange(0, i + 1).drop_last() =~= ws.subrange(0, i as int));
            assert(ws.subrange(0, i + 1).last() == write_view(writes@[i as int]));
            lemma_total_prefix(ws, i + 1);
        }
        let len = writes[i].data.len();
        if len > 0x4000_0000 {
            proof {
                lemma_total_prefix(ws, i + 1);
            }
            return None;
        }
        let add: u64 = 4 * len as u64;
        if total + add > 0xffff_ffff {
            proof {
                lemma_total_prefix(ws, i + 1);
            }
            return None;
        }
        total = total + add;
        i += 1;
    }
    assert(ws.subrange(0, i as int) =~= ws);
    Some(total as u32)
}

proof fn lemma_total_prefix(ws: Seq<(u32, Seq<u32>)>, i: int)
    requires
        0 <= i <= ws.len(),
    ensures
        total_bytes(ws.subrange(0, i)) <= total_bytes(ws),
    decreases ws.len(),
{
    if i < ws.len() {
        lemma_total_prefix(ws.drop_last(), i);
        assert(ws.drop_last().subrange(0, i) =~= ws.subrange(0, i));
    } else {
        assert(ws.subrange(0, i) =~= ws);
    }
}

/// Words per debug-link write of the stub (1 MiB).
pub const WRITE_CHUNK_WORDS: usize = 262144;

/// Words per read-back of the stub (4 KiB).
pub const VERIFY_CHUNK_WORDS: usize = 1024;

/// How many pieces of `c` words `n` words make.
pub open spec fn piece_count(n: nat, c: nat) -> nat {
    if c == 0 {
        0
    } else {
        ((n + c - 1) / c as int) as nat
    }
}

/// A write cut into pieces of `c` words, each at its address; none when an
/// address would pass the top of the 32-bit address space.
pub open spec fn pieces(addr: u32, data: Seq<u32>, c: nat) -> Option<Seq<(u32, Seq<u32>)>> {
    let n = piece_count(data.len(), c);
    if n > 0 && addr + 4 * c * (n - 1) > u32::MAX {
        None
    } else {
        Some(
            Seq::new(
                n,
                |k: int|
                    (
                        (addr + 4 * c * k) as u32,
                        data.subrange(c * k, if c * (k + 1) < data.len() {
                            c * (k + 1)
                        } else {
                            data.len() as int
                        }),
                    ),
            ),
        )
    }
}

/// A write cut into pieces of `words` words (see `pieces`).
pub fn cut_write(w: &PendingWrite, words: usize) -> (r: Option<Vec<(u32, Vec<u32>)>>)
    requires
        words > 0,
        words <= 0x1000_0000,
        4 * w.data@.len() <= u32::MAX,
    ensures
        match pieces(w.addr, w.data@, words as nat) {
            Some(ps) => r matches Some(v) && v@.len() == ps.len() && forall|k: int|
                0 <= k < ps.len() ==> (#[trigger] v@[k]).0 == ps[k].0 && v@[k].1@ == ps[k].1,
            None => r is None,
        },
{
    let len = w.data.len();
    let n: usize = len / words + if len % words == 0 { 0 } else { 1 };
    assert(n as nat == piece_count(len as nat, words as nat)) by (nonlinear_arith)
        requires
            n == len / words + if len % words == 0 { 0int } else { 1int },
            words > 0,
    ;
    assert(n <= len) by (nonlinear_arith)
        requires
            n == len / words + if len % words == 0 { 0int } else { 1int },
            words > 0,
    ;
    if n > 0 {
        assert(4 * (words as int) * ((n - 1) as int) <= 0x1000_0000_0000_0000) by (nonlinear_arith)
            requires
                words <= 0x1000_0000,
                n - 1 < 0x4000_0000,
        ;
        let last_off: u64 = 4 * (words as u64) * ((n - 1) as u64);
        if w.addr as u64 + last_off > 0xffff_ffff {
            return None;
        }
    }
    let mut out: Vec<(u32, Vec<u32>)> = Vec::new();
    let mut k: usize = 0;
    while k < n
        invariant
            k <= n,
            n <= len,
            n as nat == piece_count(len as nat, words as nat),
            len == w.data@.len(),
            4 * len <= u32::MAX,
            words > 0,
            words <= 0x1000_0000,
            n > 0 ==> w.addr + 4 * words * (n - 1) <= u32::MAX,
            out@.len() == k,
            pieces(w.addr, w.data@, words as nat) is Some,
            forall|t: int|
                0 <= t < k ==> (#[trigger] out@[t]).0 == pieces(w.addr, w.data@, words as nat)->0[t].0 && out@[t].1@
                    == pieces(w.addr, w.data@, words as nat)->0[t].1,
        decreases n - k,
    {
        assert(words * k < len) by (nonlinear_arith)
            requires
                k < n,
                n == (len + words - 1) / (words as int),
                words > 0,
        ;
        assert(4 * words * k <= 4 * words * (n - 1)) by (nonlinear_arith)
            requires
                k <= n - 1,
                words > 0,
        ;
        let start = words * k;
        let end = if words < len - start { start + words } else { len };
        let mut piece: Vec<u32> = Vec::new();
        let mut j: usize = start;
        while j < end
            invariant
                start <= j <= end,
                end <= w.data@.len(),
                piece@ =~= w.data@.subrange(start as int, j as int),
            decreases end - j,
        {
            piece.push(w.data[j]);
            j += 1;
        }
        let off: u32 = (4 * start) as u32;
        proof {
            assert(words * (k + 1) < len <==> words < len - start) by (nonlinear_arith)
                requires
                    start == words * k,
            ;
            assert(4 * start == 4 * words * k) by (nonlinear_arith)
                requires
                    start == words * k,
            ;
        }
        let addr = w.addr + off;
        proof {
            let ps = pieces(w.addr, w.data@, words as nat)->0;
            assert(start + words == words * (k + 1)) by (nonlinear_arith)
                requires
                    start == words * k,
            ;
            assert(ps[k as int].0 == addr);
            assert(ps[k as int].1 == w.data@.subrange(start as int, end as int));
        }
        out.push((addr, piece));
        k += 1;
    }
    Some(out)
}

/// The wire bytes a debug-link write spends before its first data byte.
pub const MEM_WRITE_WIRE_OVERHEAD: u64 = 14;

/// The bytes shown written while a chunk of `chunk_words` words goes out,
/// `wire_delta` bytes into it: what was written before, plus the chunk's
/// data bytes on the wire so far (past the command's overhead, at most the
/// whole chunk).
pub open spec fn spec_progress(completed: nat, chunk_words: nat, wire_delta: nat) -> nat {
    let sent = if wire_delta >= MEM_WRITE_WIRE_OVERHEAD {
        (wire_delta - MEM_WRITE_WIRE_OVERHEAD) as nat
    } else {
        0
    };
    completed + if sent < 4 * chunk_words {
        sent
    } else {
        4 * chunk_words
    }
}

/// The bytes shown written while a chunk goes out (see `spec_progress`).
pub fn chunk_progress(completed: u32, chunk_words: usize, wire_delta: u64) -> (r: u32)
    requires
        completed + 4 * chunk_words <= u32::MAX,
    ensures
        r == spec_progress(completed as nat, chunk_words as nat, wire_delta as nat),
{
    let payload: u64 = 4 * chunk_words as u64;
    let sent = wire_delta.saturating_sub(MEM_WRITE_WIRE_OVERHEAD);
    let shown = if sent < payload { sent } else { payload };
    completed + shown as u32
}

/// While one chunk goes out, the bytes shown grow with the bytes on the
/// wire, from the bytes written before the chunk up to those plus the
/// chunk's own.
pub proof fn law_chunk_progress_grows(completed: nat, chunk_words: nat, d1: nat, d2: nat)
    requires
        d1 <= d2,
    ensures
        completed <= spec_progress(completed, chunk_words, d1),
        spec_progress(completed, chunk_words, d1) <= spec_progress(completed, chunk_words, d2),
        spec_progress(completed, chunk_words, d2) <= completed + 4 * chunk_words,
{
}

/// `0x` and the lower-case hex digits.
pub open spec fn hex_text(n: nat) -> Seq<char> {
    "0x"@ + hex_digits(n)
}

fn push_hex_text(out: &mut String, n: u64)
    ensures
        final(out)@ == old(out)@ + hex_text(n as nat),
{
    push_str(out, "0x");
    push_hex(out, n);
    proof {
        reveal_strlit("0x");
    }
    assert(final(out)@ =~= old(out)@ + hex_text(n as nat));
}

/// Why the read-back of a chunk failed.
pub open spec fn read_back_error(addr: u32, want: Seq<u32>, got: Seq<u32>) -> Option<Seq<char>> {
    if got.len() != want.len() {
        Some(
            "verify: addr="@ + hex_text(addr as nat) + " length mismatch: expected "@ + crate::text::decimal(
                want.len(),
            ) + " words, got "@ + crate::text::decimal(got.len()),
        )
    } else {
        match first_difference(want, got, 0) {
            Some(i) => Some(
                "verify failed at "@ + hex_text((addr + 4 * i) as nat) + ": expected "@ + address_text(want[i] as u64)
                    + " got "@ + address_text(got[i] as u64),
            ),
            None => None,
        }
    }
}

/// The first index from `i` on where two sequences of equal length differ.
pub open spec fn first_difference(a: Seq<u32>, b: Seq<u32>, i: int) -> Option<int>
    decreases a.len() - i,
{
    if i < 0 || i >= a.len() {
        None
    } else if a[i] != b[i] {
        Some(i)
    } else {
        first_difference(a, b, i + 1)
    }
}

/// Compare what was read back at `addr` with what was written there.
pub fn check_read_back(addr: u32, want: &Vec<u32>, got: &Vec<u32>) -> (r: Result<(), String>)
    requires
        addr + 4 * want@.len() <= u32::MAX + 1,
    ensures
        match read_back_error(addr, want@, got@) {
            Some(m) => r matches Err(e) && e@ == m,
            None => r is Ok,
        },
{
    if got.len() != want.len() {
        let mut m = String::new();
        push_str(&mut m, "verify: addr=");
        push_hex_text(&mut m, addr as u64);
        push_str(&mut m, " length mismatch: expected ");
        push_decimal(&mut m, want.len() as u64);
        push_str(&mut m, " words, got ");
        push_decimal(&mut m, got.len() as u64);
        assert(m@ =~= read_back_error(addr, want@, got@)->0);
        return Err(m);
    }
    let mut i: usize = 0;
    while i < want.len()
        invariant
            i <= want@.len(),
            got@.len() == want@.len(),
            addr + 4 * want@.len() <= u32::MAX + 1,
            first_difference(want@, got@, 0) == first_difference(want@, got@, i as int),
        decreases want.len() - i,
    {
        if want[i] != got[i] {
            let bad: u32 = addr + (4 * i) as u32;
            let mut m = String::new();
            push_str(&mut m, "verify failed at ");
            push_hex_text(&mut m, bad as u64);
            push_str(&mut m, ": expected ");
            let a = format_address(want[i] as u64);
            push_str(&mut m, a.as_str());
            push_str(&mut m, " got ");
            let b = format_address(got[i] as u64);
            push_str(&mut m, b.as_str());
            assert(m@ =~= read_back_error(addr, want@, got@)->0);
            return Err(m);
        }
        i += 1;
    }
    Ok(())
}

/// The write holding `entry`: the first whose range (its address and, on
/// 32 bits, its length in bytes) contains it.
pub open spec fn holding_write(ws: Seq<(u32, Seq<u32>)>, entry: u32) -> Option<int>
    decreases ws.len(),
{
    if ws.len() == 0 {
        None
    } else if ws[0].0 <= entry && entry < vstd::wrapping::u32_specs::wrapping_add(ws[0].0, (4 * ws[0].1.len()) as u32) {
        Some(0)
    } else {
        match holding_write(ws.drop_first(), entry) {
            Some(i) => Some(i + 1),
            None => None,
        }
    }
}

/// The initial stack pointer and reset vector: the two words at the entry
/// point, taken from the write that holds it.
pub open spec fn spec_vector_table(ws: Seq<(u32, Seq<u32>)>, entry: u32) -> Result<(u32, u32), Seq<char>> {
    match holding_write(ws, entry) {
        None => Err("no segment contains entry point "@ + hex_text(entry as nat)),
        Some(i) => {
            let off = entry - ws[i].0;
            if off % 4 != 0 {
                Err("entry point "@ + hex_text(entry as nat) + " not 4-byte aligned within segment"@)
            } else if off / 4 + 2 > ws[i].1.len() {
                Err(
                    "segment at "@ + hex_text(ws[i].0 as nat) + " too short for vector table at "@ + hex_text(
                        entry as nat,
                    ),
                )
            } else {
                Ok((ws[i].1[off / 4], ws[i].1[off / 4 + 1]))
            }
        },
    }
}

/// The initial stack pointer and reset vector (see `spec_vector_table`).
pub fn vector_table(writes: &Vec<PendingWrite>, entry: u32) -> (r: Result<(u32, u32), String>)
    requires
        forall|i: int| 0 <= i < writes@.len() ==> 4 * (#[trigger] writes@[i]).data@.len() <= u32::MAX,
    ensures
        match spec_vector_table(writes_view(writes@), entry) {
            Ok(v) => r == Ok::<(u32, u32), String>(v),
            Err(m) => r matches Err(e) && e@ == m,
        },
{
    let ghost ws = writes_view(writes@);
    let mut i: usize = 0;
    assert(ws.subrange(0, ws.len() as int) =~= ws);
    while i < writes.len()
        invariant
            i <= writes@.len(),
            ws == writes_view(writes@),
            forall|t: int| 0 <= t < writes@.len() ==> 4 * (#[trigger] writes@[t]).data@.len() <= u32::MAX,
            holding_write(ws, entry) == match holding_write(ws.subrange(i as int, ws.len() as int), entry) {
                Some(j) => Some(j + i),
                None => None,
            },
        decreases writes.len() - i,
    {
        let w = &writes[i];
        let ghost rest = ws.subrange(i as int, ws.len() as int);
        proof {
            assert(rest[0] == write_view(writes@[i as int]));
            assert(rest.drop_first() =~= ws.subrange(i + 1, ws.len() as int));
        }
        let size: u32 = (4 * w.data.len()) as u32;
        let end = w.addr.wrapping_add(size);
        if w.addr <= entry && entry < end {
            let off = entry - w.addr;
            proof {
                reveal_strlit(" not 4-byte aligned within segment");
                reveal_strlit("entry point ");
                reveal_strlit("segment at ");
                reveal_strlit(" too short for vector table at ");
            }
            if off % 4 != 0 {
                let mut m = String::new();
                push_str(&mut m, "entry point ");
                push_hex_text(&mut m, entry as u64);
                push_str(&mut m, " not 4-byte aligned within segment");
                assert(m@ =~= "entry point "@ + hex_text(entry as nat) + " not 4-byte aligned within segment"@);
                return Err(m);
            }
            let wo = (off / 4) as usize;
            if wo + 2 > w.data.len() {
                let mut m = String::new();
                push_str(&mut m, "segment at ");
                push_hex_text(&mut m, w.addr as u64);
                push_str(&mut m, " too short for vector table at ");
                push_hex_text(&mut m, entry as u64);
                assert(m@ =~= "segment at "@ + hex_text(w.addr as nat) + " too short for vector table at "@ + hex_text(entry as nat));
                return Err(m);
            }
            return Ok((w.data[wo], w.data[wo + 1]));
        }
        i += 1;
    }
    proof {
        assert(ws.subrange(i as int, ws.len() as int) =~= Seq::<(u32, Seq<u32>)>::empty());
        reveal_strlit("no segment contains entry point ");
    }
    let mut m = String::new();
    push_str(&mut m, "no segment contains entry point ");
    push_hex_text(&mut m, entry as u64);
    assert(m@ =~= "no segment contains entry point "@ + hex_text(entry as nat));
    Err(m)
}


// ── The whole load ───────────────────────────────────────────────────

/// One step of loading the stub, in the order they are taken.
#[derive(Debug)]
pub enum StubStep {
    /// Report this phase of the flash.
    Report(FlashPhase),
    /// Write one word to a debug register; a failure is reported as
    /// `<what>: <error>`.
    Poke { addr: u32, value: u32, what: &'static str },
    /// Write these words, the progress bar counting from `completed` bytes
    /// (see [`chunk_progress`]).
    WriteChunk { addr: u32, words: Vec<u32>, completed: u32 },
    /// Read these words back and compare (see [`check_read_back`]); when
    /// they match, report `verified` bytes verified.
    ReadBack { addr: u32, want: Vec<u32>, verified: u32 },
    /// Stop with this error.
    Fail(String),
}

/// A step as plain values.
pub enum StepView {
    Report(FlashPhase),
    Poke(u32, u32, Seq<char>),
    WriteChunk(u32, Seq<u32>, u32),
    ReadBack(u32, Seq<u32>, u32),
    Fail(Seq<char>),
}

impl StubStep {
    /// The step as plain values.
    pub open spec fn view(&self) -> StepView {
        match self {
            StubStep::Report(p) => StepView::Report(*p),
            StubStep::Poke { addr, value, what } => StepView::Poke(*addr, *value, what@),
            StubStep::WriteChunk { addr, words, completed } => StepView::WriteChunk(*addr, words@, *completed),
            StubStep::ReadBack { addr, want, verified } => StepView::ReadBack(*addr, want@, *verified),
            StubStep::Fail(m) => StepView::Fail(m@),
        }
    }
}

/// Steps as plain values.
pub open spec fn steps_view(s: Seq<StubStep>) -> Seq<StepView> {
    s.map_values(|t: StubStep| t.view())
}

/// The steps of one write cut into pieces of `c` words: each piece written
/// with the bar at `done` plus the bytes before the piece, or read back
/// and, when it matches, `done` plus the bytes up to its end reported.
pub open spec fn chunk_steps(addr: u32, data: Seq<u32>, c: nat, done: nat, verify: bool) -> Seq<StepView> {
    let ps = pieces(addr, data, c)->0;
    Seq::new(
        ps.len(),
        |k: int|
            if verify {
                StepView::ReadBack(ps[k].0, ps[k].1, (done + 4 * (c * k) + 4 * ps[k].1.len()) as u32)
            } else {
                StepView::WriteChunk(ps[k].0, ps[k].1, (done + 4 * (c * k)) as u32)
            },
    )
}

/// The steps of all writes, one after another, each counting from the
/// bytes of the writes before it.
pub open spec fn all_chunk_steps(ws: Seq<(u32, Seq<u32>)>, c: nat, verify: bool) -> Seq<StepView>
    decreases ws.len(),
{
    if ws.len() == 0 {
        Seq::empty()
    } else {
        let pre = ws.drop_last();
        all_chunk_steps(pre, c, verify) + chunk_steps(ws.last().0, ws.last().1, c, total_bytes(pre), verify)
    }
}

/// Writes the load can take: their bytes count in 32 bits and none runs
/// past the top of the address space.
pub open spec fn load_fits(ws: Seq<(u32, Seq<u32>)>) -> bool {
    &&& total_bytes(ws) <= u32::MAX
    &&& forall|i: int| 0 <= i < ws.len() ==> (#[trigger] ws[i]).0 + 4 * ws[i].1.len() <= 0x1_0000_0000
}

/// The bytes a write step shows as already written; 0 for any other step.
pub open spec fn shown_written(s: StepView) -> int {
    match s {
        StepView::WriteChunk(_, _, done) => done as int,
        _ => 0,
    }
}

/// While the stub is written, the bytes shown written never go back: every
/// step of the writing is a write, and a later one never shows fewer bytes
/// than an earlier one, nor more than the load holds.
pub proof fn law_write_progress_never_goes_back(ws: Seq<(u32, Seq<u32>)>, c: nat, i: int, j: int)
    requires
        load_fits(ws),
        c > 0,
        0 <= i <= j < all_chunk_steps(ws, c, false).len(),
    ensures
        all_chunk_steps(ws, c, false)[i] is WriteChunk,
        shown_written(all_chunk_steps(ws, c, false)[i]) <= shown_written(all_chunk_steps(ws, c, false)[j]),
        shown_written(all_chunk_steps(ws, c, false)[j]) <= total_bytes(ws),
{
    lemma_write_steps_ordered(ws, c);
}

proof fn lemma_write_steps_ordered(ws: Seq<(u32, Seq<u32>)>, c: nat)
    requires
        load_fits(ws),
        c > 0,
    ensures
        forall|i: int|
            0 <= i < all_chunk_steps(ws, c, false).len() ==> (#[trigger] all_chunk_steps(ws, c, false)[i]) is WriteChunk
                && 0 <= shown_written(all_chunk_steps(ws, c, false)[i]) <= total_bytes(ws),
        forall|i: int, j: int|
            0 <= i <= j < all_chunk_steps(ws, c, false).len() ==> shown_written(
                #[trigger] all_chunk_steps(ws, c, false)[i],
            ) <= shown_written(#[trigger] all_chunk_steps(ws, c, false)[j]),
    decreases ws.len(),
{
    if ws.len() > 0 {
        let pre = ws.drop_last();
        lemma_total_prefix(ws, pre.len() as int);
        assert(ws.subrange(0, pre.len() as int) =~= pre);
        assert forall|i: int| 0 <= i < pre.len() implies (#[trigger] pre[i]).0 + 4 * pre[i].1.len() <= 0x1_0000_0000 by {
            assert(pre[i] == ws[i]);
        }
        lemma_write_steps_ordered(pre, c);
        let addr = ws.last().0;
        let data = ws.last().1;
        assert(ws[ws.len() - 1] == ws.last());
        lemma_pieces_fit(addr, data, c);
        let done = total_bytes(pre);
        let a = all_chunk_steps(pre, c, false);
        let b = chunk_steps(addr, data, c, done, false);
        let n = piece_count(data.len(), c);
        assert(b.len() == n);
        assert(total_bytes(ws) == done + 4 * data.len());
        assert forall|k: int| 0 <= k < b.len() implies (#[trigger] b[k]) is WriteChunk && shown_written(b[k]) == done + 4
            * (c * k) && done <= done + 4 * (c * k) <= total_bytes(ws) by {
            assert(0 <= c * k <= c * (n - 1)) by (nonlinear_arith)
                requires
                    0 <= k <= n - 1,
                    c > 0,
            ;
        }
        assert forall|k1: int, k2: int| 0 <= k1 <= k2 < b.len() implies #[trigger] shown_written(b[k1]) <= #[trigger] shown_written(
            b[k2],
        ) by {
            assert(c * k1 <= c * k2) by (nonlinear_arith)
                requires
                    0 <= k1 <= k2,
                    c > 0,
            ;
        }
        let all = all_chunk_steps(ws, c, false);
        assert(all == a + b);
        assert forall|i: int| 0 <= i < all.len() implies (#[trigger] all[i]) is WriteChunk && 0 <= shown_written(all[i])
            <= total_bytes(ws) by {
            if i < a.len() {
                assert(all[i] == a[i]);
            } else {
                assert(all[i] == b[i - a.len()]);
            }
        }
        assert forall|i: int, j: int| 0 <= i <= j < all.len() implies shown_written(#[trigger] all[i]) <= shown_written(
            #[trigger] all[j],
        ) by {
            if j < a.len() {
                assert(all[i] == a[i] && all[j] == a[j]);
            } else if i >= a.len() {
                assert(all[i] == b[i - a.len()] && all[j] == b[j - a.len()]);
                assert(shown_written(b[i - a.len()]) <= shown_written(b[j - a.len()]));
            } else {
                assert(all[i] == a[i] && all[j] == b[j - a.len()]);
                assert(shown_written(b[j - a.len()]) >= done);
            }
        }
    }
}

/// The whole load of the stub: report the start, halt the core, write
/// every piece, report and read back every piece, report booting, then set
/// the stack pointer and program counter from the vector table at `entry`
/// and resume the core (or fail when the table cannot be found).
pub open spec fn spec_stub_steps(ws: Seq<(u32, Seq<u32>)>, entry: u32) -> Seq<StepView> {
    let total = total_bytes(ws) as u32;
    seq![
        StepView::Report(FlashPhase::WritingStub { bytes_written: 0, bytes_total: total }),
        StepView::Poke(DHCSR, HALT_CORE, "halt core"@),
    ] + all_chunk_steps(ws, WRITE_CHUNK_WORDS as nat, false) + seq![
        StepView::Report(FlashPhase::VerifyingStub { bytes_verified: 0, bytes_total: total }),
    ] + all_chunk_steps(ws, VERIFY_CHUNK_WORDS as nat, true) + seq![StepView::Report(FlashPhase::BootingStub)]
        + match spec_vector_table(ws, entry) {
        Err(m) => seq![StepView::Fail(m)],
        Ok((sp, pc)) => seq![
            StepView::Poke(DCRDR, sp, "write SP value"@),
            StepView::Poke(DCRSR, 0x0001_000Du32, "write SP select"@),
            StepView::Poke(DCRDR, pc, "write PC value"@),
            StepView::Poke(DCRSR, 0x0001_000Fu32, "write PC select"@),
            StepView::Poke(DHCSR, RESUME_CORE, "resume core"@),
        ],
    }
}

proof fn lemma_pieces_fit(addr: u32, data: Seq<u32>, c: nat)
    requires
        c > 0,
        addr + 4 * data.len() <= 0x1_0000_0000,
    ensures
        pieces(addr, data, c) is Some,
        piece_count(data.len(), c) > 0 ==> c * (piece_count(data.len(), c) - 1) < data.len(),
{
    let n = piece_count(data.len(), c);
    if n > 0 {
        assert(c * (n - 1) < data.len()) by (nonlinear_arith)
            requires
                n == (data.len() + c - 1) / (c as int),
                c > 0,
                n > 0,
        ;
        assert(4 * c * (n - 1) == 4 * (c * (n - 1))) by (nonlinear_arith);
    }
}

fn push_step(steps: &mut Vec<StubStep>, t: StubStep)
    ensures
        steps_view(final(steps)@) == steps_view(old(steps)@).push(t.view()),
{
    steps.push(t);
    assert(steps_view(steps@) =~= steps_view(old(steps)@).push(t.view()));
}

fn push_chunk_steps(steps: &mut Vec<StubStep>, w: &PendingWrite, c: usize, done: u32, verify: bool)
    requires
        c == WRITE_CHUNK_WORDS || c == VERIFY_CHUNK_WORDS,
        w.addr + 4 * w.data@.len() <= 0x1_0000_0000,
        done + 4 * w.data@.len() <= u32::MAX,
    ensures
        steps_view(final(steps)@) == steps_view(old(steps)@) + chunk_steps(
            w.addr,
            w.data@,
            c as nat,
            done as nat,
            verify,
        ),
{
    proof {
        lemma_pieces_fit(w.addr, w.data@, c as nat);
    }
    let ghost ps = pieces(w.addr, w.data@, c as nat)->0;
    let ghost cs = chunk_steps(w.addr, w.data@, c as nat, done as nat, verify);
    let ghost base = steps_view(steps@);
    let ghost len = w.data@.len();
    let mut v = cut_write(w, c).unwrap();
    let n = v.len();
    let mut k: usize = 0;
    let mut off: usize = 0;
    while k < n
        invariant
            n == ps.len(),
            cs.len() == ps.len(),
            cs == chunk_steps(w.addr, w.data@, c as nat, done as nat, verify),
            ps == pieces(w.addr, w.data@, c as nat)->0,
            len == w.data@.len(),
            c == WRITE_CHUNK_WORDS || c == VERIFY_CHUNK_WORDS,
            done + 4 * len <= u32::MAX,
            piece_count(len, c as nat) == n,
            pieces(w.addr, w.data@, c as nat) is Some,
            n > 0 ==> c * (n - 1) < len,
            k <= n,
            off == c * k,
            v@.len() == n - k,
            forall|t: int| 0 <= t < v@.len() ==> (#[trigger] v@[t]).0 == ps[t + k].0 && v@[t].1@ == ps[t + k].1,
            steps_view(steps@) == base + cs.subrange(0, k as int),
        decreases n - k,
    {
        let (addr, words) = v.remove(0);
        proof {
            assert(c * k <= c * (n - 1)) by (nonlinear_arith)
                requires
                    k <= n - 1,
                    c > 0,
            ;
            assert(c * (k + 1) == c * k + c) by (nonlinear_arith);
            let hi = if c * (k + 1) < len { c * (k + 1) } else { len as int };
            assert(ps[k as int].1 == w.data@.subrange(c * k, hi));
            assert(words@.len() == hi - c * k);
        }
        let step = if verify {
            let verified: u32 = done + (4 * off) as u32 + (4 * words.len()) as u32;
            StubStep::ReadBack { addr, want: words, verified }
        } else {
            let completed: u32 = done + (4 * off) as u32;
            StubStep::WriteChunk { addr, words, completed }
        };
        proof {
            assert(step.view() == cs[k as int]);
        }
        push_step(steps, step);
        proof {
            assert(cs.subrange(0, k + 1) =~= cs.subrange(0, k as int).push(cs[k as int]));
            assert forall|t: int| 0 <= t < v@.len() implies (#[trigger] v@[t]).0 == ps[t + k + 1].0 && v@[t].1@ == ps[t
                + k + 1].1 by {
            }
        }
        off = off + c;
        k += 1;
    }
    assert(cs.subrange(0, n as int) =~= cs);
}

fn push_all_chunk_steps(steps: &mut Vec<StubStep>, writes: &Vec<PendingWrite>, c: usize, verify: bool)
    requires
        c == WRITE_CHUNK_WORDS || c == VERIFY_CHUNK_WORDS,
        load_fits(writes_view(writes@)),
    ensures
        steps_view(final(steps)@) == steps_view(old(steps)@) + all_chunk_steps(
            writes_view(writes@),
            c as nat,
            verify,
        ),
{
    let ghost ws = writes_view(writes@);
    let ghost base = steps_view(steps@);
    let mut done: u32 = 0;
    let mut i: usize = 0;
    assert(ws.subrange(0, 0) =~= Seq::<(u32, Seq<u32>)>::empty());
    while i < writes.len()
        invariant
            c == WRITE_CHUNK_WORDS || c == VERIFY_CHUNK_WORDS,
            ws == writes_view(writes@),
            load_fits(ws),
            i <= writes@.len(),
            done == total_bytes(ws.subrange(0, i as int)),
            steps_view(steps@) == base + all_chunk_steps(ws.subrange(0, i as int), c as nat, verify),
        decreases writes.len() - i,
    {
        let ghost pre = ws.subrange(0, i as int);
        let ghost next = ws.subrange(0, i + 1);
        proof {
            assert(next.drop_last() =~= pre);
            assert(next.last() == ws[i as int]);
            assert(ws[i as int] == write_view(writes@[i as int]));
            lemma_total_prefix(ws, i + 1);
        }
        push_chunk_steps(steps, &writes[i], c, done, verify);
        done = done + (4 * writes[i].data.len()) as u32;
        i += 1;
    }
    assert(ws.subrange(0, i as int) =~= ws);
}

/// The steps that load the stub (see [`spec_stub_steps`]).
pub fn stub_steps(writes: &Vec<PendingWrite>, entry: u32) -> (r: Vec<StubStep>)
    requires
        load_fits(writes_view(writes@)),
    ensures
        steps_view(r@) == spec_stub_steps(writes_view(writes@), entry),
{
    let ghost ws = writes_view(writes@);
    let total = match bytes_total(writes) {
        Some(t) => t,
        None => 0,
    };
    let mut steps: Vec<StubStep> = Vec::new();
    push_step(&mut steps, StubStep::Report(FlashPhase::WritingStub { bytes_written: 0, bytes_total: total }));
    push_step(&mut steps, StubStep::Poke { addr: DHCSR, value: HALT_CORE, what: "halt core" });
    let ghost s1 = steps_view(steps@);
    push_all_chunk_steps(&mut steps, writes, WRITE_CHUNK_WORDS, false);
    let ghost s2 = steps_view(steps@);
    push_step(&mut steps, StubStep::Report(FlashPhase::VerifyingStub { bytes_verified: 0, bytes_total: total }));
    let ghost s3 = steps_view(steps@);
    push_all_chunk_steps(&mut steps, writes, VERIFY_CHUNK_WORDS, true);
    let ghost s4 = steps_view(steps@);
    push_step(&mut steps, StubStep::Report(FlashPhase::BootingStub));
    let ghost s5 = steps_view(steps@);
    proof {
        assert forall|i: int| 0 <= i < writes@.len() implies 4 * (#[trigger] writes@[i]).data@.len() <= u32::MAX by {
            assert(ws[i] == write_view(writes@[i]));
            lemma_total_prefix(ws, i + 1);
            assert(ws.subrange(0, i + 1).drop_last() =~= ws.subrange(0, i));
            assert(ws.subrange(0, i + 1).last() == ws[i]);
        }
    }
    match vector_table(writes, entry) {
        Err(m) => {
            push_step(&mut steps, StubStep::Fail(m));
        },
        Ok((sp, pc)) => {
            push_step(&mut steps, StubStep::Poke { addr: DCRDR, value: sp, what: "write SP value" });
            push_step(&mut steps, StubStep::Poke { addr: DCRSR, value: 0x0001_000D, what: "write SP select" });
            push_step(&mut steps, StubStep::Poke { addr: DCRDR, value: pc, what: "write PC value" });
            push_step(&mut steps, StubStep::Poke { addr: DCRSR, value: 0x0001_000F, what: "write PC select" });
            push_step(&mut steps, StubStep::Poke { addr: DHCSR, value: RESUME_CORE, what: "resume core" });
        },
    }
    assert(steps_view(steps@) =~= spec_stub_steps(ws, entry));
    steps
}

/// Whether the load can take these writes (see [`load_fits`]).
pub fn stub_load_fits(writes: &Vec<PendingWrite>) -> (b: bool)
    ensures
        b == load_fits(writes_view(writes@)),
{
    let ghost ws = writes_view(writes@);
    if bytes_total(writes).is_none() {
        return false;
    }
    let mut i: usize = 0;
    while i < writes.len()
        invariant
            i <= writes@.len(),
            ws == writes_view(writes@),
            forall|t: int| 0 <= t < i ==> (#[trigger] ws[t]).0 + 4 * ws[t].1.len() <= 0x1_0000_0000,
        decreases writes.len() - i,
    {
        assert(ws[i as int] == write_view(writes@[i as int]));
        let len = writes[i].data.len();
        if len > 0x4000_0000 || writes[i].addr as u64 + 4 * (len as u64) > 0x1_0000_0000 {
            return false;
        }
        i += 1;
    }
    true
}

} // verus!
