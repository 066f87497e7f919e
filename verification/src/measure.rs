//! Summaries of a firmware image's segments by memory region, and the
//! fill of a usage bar.

use vstd::prelude::*;

verus! {

/// Width of a usage bar in cells.
pub const BAR_WIDTH: usize = 40;

/// The memory region an address lies in, in the order regions are listed:
/// 0 for an unknown region, 1 for flash, 2 for RAM.
pub open spec fn spec_region_index(addr: u64) -> int {
    if 0x2000_0000 <= addr < 0x4000_0000 {
        2
    } else if 0x1000_0000 <= addr < 0x2000_0000 {
        1
    } else {
        0
    }
}

/// The name of region `i`.
pub open spec fn region_name(i: int) -> Seq<char> {
    if i == 2 {
        "RAM"@
    } else if i == 1 {
        "FLASH"@
    } else {
        "???"@
    }
}

/// The name of the memory region an address lies in.
pub fn region_kind(addr: u64) -> (r: &'static str)
    ensures
        r@ == region_name(spec_region_index(addr)),
{
    if addr >= 0x2000_0000 && addr < 0x4000_0000 {
        "RAM"
    } else if addr >= 0x1000_0000 && addr < 0x2000_0000 {
        "FLASH"
    } else {
        "???"
    }
}

/// How many of the bar's cells show `used` of `total`: the share rounded
/// to the nearest cell, halves up, at most the whole bar; none of an empty
/// total.
pub open spec fn spec_bar_fill(used: nat, total: nat) -> nat {
    if total == 0 {
        0
    } else {
        let f = ((2 * BAR_WIDTH * used + total) as nat) / ((2 * total) as nat);
        if f > BAR_WIDTH {
            BAR_WIDTH as nat
        } else {
            f
        }
    }
}

/// How many of the bar's cells show `used` of `total`.
pub fn bar_fill(used: u64, total: u64) -> (r: usize)
    ensures
        r == spec_bar_fill(used as nat, total as nat),
        r <= BAR_WIDTH,
{
    if total == 0 {
        return 0;
    }
    let f: u128 = (80 * (used as u128) + total as u128) / (2 * (total as u128));
    if f > 40 {
        40
    } else {
        f as usize
    }
}

/// A loadable segment of an image.
#[derive(Clone, Copy, Debug, PartialEq, Eq, Structural)]
pub struct SegmentInfo {
    pub dest: u64,
    pub file_size: u64,
    pub mem_size: u64,
}

/// The bytes of a segment that are zero-filled rather than loaded.
pub open spec fn spec_zero_fill(s: SegmentInfo) -> nat {
    if s.mem_size > s.file_size {
        (s.mem_size - s.file_size) as nat
    } else {
        0
    }
}

impl SegmentInfo {
    /// The bytes that are zero-filled rather than loaded.
    pub fn zero_fill(&self) -> (r: u64)
        ensures
            r == spec_zero_fill(*self),
    {
        self.mem_size.saturating_sub(self.file_size)
    }
}

/// The segments of region `k`, in order.
pub open spec fn of_region(segs: Seq<SegmentInfo>, k: int) -> Seq<SegmentInfo>
    decreases segs.len(),
{
    if segs.len() == 0 {
        Seq::empty()
    } else {
        let rest = of_region(segs.drop_last(), k);
        if spec_region_index(segs.last().dest) == k {
            rest.push(segs.last())
        } else {
            rest
        }
    }
}

/// Total loaded bytes.
pub open spec fn file_total(segs: Seq<SegmentInfo>) -> nat
    decreases segs.len(),
{
    if segs.len() == 0 {
        0
    } else {
        (file_total(segs.drop_last()) + segs.last().file_size) as nat
    }
}

/// Total bytes in memory.
pub open spec fn mem_total(segs: Seq<SegmentInfo>) -> nat
    decreases segs.len(),
{
    if segs.len() == 0 {
        0
    } else {
        (mem_total(segs.drop_last()) + segs.last().mem_size) as nat
    }
}

/// The lowest destination, zero of none.
pub open spec fn low_address(segs: Seq<SegmentInfo>) -> nat
    decreases segs.len(),
{
    if segs.len() == 0 {
        0
    } else if segs.len() == 1 {
        segs[0].dest as nat
    } else {
        let r = low_address(segs.drop_last());
        if (segs.last().dest as nat) < r {
            segs.last().dest as nat
        } else {
            r
        }
    }
}

/// The highest end (destination plus size in memory), zero of none.
pub open spec fn high_address(segs: Seq<SegmentInfo>) -> nat
    decreases segs.len(),
{
    if segs.len() == 0 {
        0
    } else {
        let r = high_address(segs.drop_last());
        let e = segs.last().dest + segs.last().mem_size;
        if e > r {
            e as nat
        } else {
            r
        }
    }
}

/// The segments of one memory region with their totals and span.
pub struct RegionSummary {
    pub kind: &'static str,
    pub segments: Vec<SegmentInfo>,
    pub file_size: u64,
    pub mem_size: u64,
    pub low: u64,
    pub high: u64,
}

/// The sums and ends of a whole image fit in 64 bits.
pub open spec fn fits(segs: Seq<SegmentInfo>) -> bool {
    &&& file_total(segs) <= u64::MAX
    &&& mem_total(segs) <= u64::MAX
    &&& forall|i: int| 0 <= i < segs.len() ==> (#[trigger] segs[i]).dest + segs[i].mem_size <= u64::MAX
}

proof fn lemma_totals_prefix(segs: Seq<SegmentInfo>, i: int)
    requires
        0 <= i <= segs.len(),
    ensures
        file_total(segs.subrange(0, i)) <= file_total(segs),
        mem_total(segs.subrange(0, i)) <= mem_total(segs),
    decreases segs.len(),
{
    if i < segs.len() {
        lemma_totals_prefix(segs.drop_last(), i);
        assert(segs.drop_last().subrange(0, i) =~= segs.subrange(0, i));
    } else {
        assert(segs.subrange(0, i) =~= segs);
    }
}

proof fn lemma_region_totals(segs: Seq<SegmentInfo>, k: int)
    ensures
        file_total(of_region(segs, k)) <= file_total(segs),
        mem_total(of_region(segs, k)) <= mem_total(segs),
        forall|j: int|
            0 <= j < of_region(segs, k).len() ==> exists|i: int|
                0 <= i < segs.len() && #[trigger] of_region(segs, k)[j] == segs[i],
    decreases segs.len(),
{
    if segs.len() > 0 {
        lemma_region_totals(segs.drop_last(), k);
        let rest = of_region(segs.drop_last(), k);
        assert forall|j: int| 0 <= j < of_region(segs, k).len() implies exists|i: int|
            0 <= i < segs.len() && #[trigger] of_region(segs, k)[j] == segs[i] by {
            if j < rest.len() {
                let i = choose|i: int| 0 <= i < segs.drop_last().len() && rest[j] == segs.drop_last()[i];
                assert(of_region(segs, k)[j] == segs[i]);
            } else {
                assert(of_region(segs, k)[j] == segs[segs.len() - 1]);
            }
        }
        if spec_region_index(segs.last().dest) == k {
            assert(of_region(segs, k).drop_last() =~= rest);
        }
    }
}

/// Summarise the segments of region `k`.
fn summarise(segs: &Vec<SegmentInfo>, k: u8, kind: &'static str) -> (r: RegionSummary)
    requires
        fits(segs@),
        k <= 2,
    ensures
        r.kind == kind,
        r.segments@ == of_region(segs@, k as int),
        r.file_size == file_total(of_region(segs@, k as int)),
        r.mem_size == mem_total(of_region(segs@, k as int)),
        r.low == low_address(of_region(segs@, k as int)),
        r.high == high_address(of_region(segs@, k as int)),
{
    let mut mine: Vec<SegmentInfo> = Vec::new();
    let mut i: usize = 0;
    while i < segs.len()
        invariant
            i <= segs@.len(),
            mine@ == of_region(segs@.subrange(0, i as int), k as int),
        decreases segs.len() - i,
    {
        proof {
            assert(segs@.subrange(0, i + 1).drop_last() =~= segs@.subrange(0, i as int));
        }
        let idx: u8 = if segs[i].dest >= 0x2000_0000 && segs[i].dest < 0x4000_0000 {
            2
        } else if segs[i].dest >= 0x1000_0000 && segs[i].dest < 0x2000_0000 {
            1
        } else {
            0
        };
        if idx == k {
            mine.push(segs[i]);
        }
        i += 1;
    }
    assert(segs@.subrange(0, i as int) =~= segs@);
    proof {
        lemma_region_totals(segs@, k as int);
    }
    let ghost m = mine@;
    let mut file: u64 = 0;
    let mut mem: u64 = 0;
    let mut low: u64 = 0;
    let mut high: u64 = 0;
    let mut j: usize = 0;
    while j < mine.len()
        invariant
            j <= m.len(),
            m == mine@,
            m == of_region(segs@, k as int),
            fits(segs@),
            file_total(m) <= file_total(segs@),
            mem_total(m) <= mem_total(segs@),
            forall|t: int| 0 <= t < m.len() ==> exists|i: int| 0 <= i < segs@.len() && #[trigger] m[t] == segs@[i],
            file == file_total(m.subrange(0, j as int)),
            mem == mem_total(m.subrange(0, j as int)),
            low == low_address(m.subrange(0, j as int)),
            high == high_address(m.subrange(0, j as int)),
        decreases m.len() - j,
    {
        let ghost pre = m.subrange(0, j as int);
        let ghost next = m.subrange(0, j + 1);
        proof {
            assert(next.drop_last() =~= pre);
            assert(next.last() == m[j as int]);
            lemma_totals_prefix(m, j + 1);
            let i = choose|i: int| 0 <= i < segs@.len() && m[j as int] == segs@[i];
            assert(segs@[i].dest + segs@[i].mem_size <= u64::MAX);
        }
        let s = mine[j];
        file = file + s.file_size;
        mem = mem + s.mem_size;
        if j == 0 || s.dest < low {
            low = s.dest;
        }
        let end = s.dest + s.mem_size;
        if end > high {
            high = end;
        }
        proof {
            if j == 0 {
                assert(pre =~= Seq::<SegmentInfo>::empty());
            }
        }
        j += 1;
    }
    assert(m.subrange(0, j as int) =~= m);
    RegionSummary { kind, segments: mine, file_size: file, mem_size: mem, low, high }
}

/// The summaries of the regions an image's segments lie in, in the order
/// `???`, `FLASH`, `RAM`, regions without segments left out.
pub fn region_summaries(segs: &Vec<SegmentInfo>) -> (r: Vec<RegionSummary>)
    requires
        fits(segs@),
    ensures
        forall|i: int|
            0 <= i < r@.len() ==> {
                let k = if (#[trigger] r@[i]).kind@ == "RAM"@ {
                    2int
                } else if r@[i].kind@ == "FLASH"@ {
                    1int
                } else {
                    0int
                };
                &&& r@[i].kind@ == region_name(k)
                &&& r@[i].segments@ == of_region(segs@, k)
                &&& r@[i].segments@.len() > 0
                &&& r@[i].file_size == file_total(of_region(segs@, k))
                &&& r@[i].mem_size == mem_total(of_region(segs@, k))
                &&& r@[i].low == low_address(of_region(segs@, k))
                &&& r@[i].high == high_address(of_region(segs@, k))
            },
        forall|i: int, j: int| 0 <= i < j < r@.len() ==> region_rank(r@[i].kind@) < region_rank(r@[j].kind@),
        forall|k: int| 0 <= k <= 2 && of_region(segs@, k).len() > 0 ==> exists|i: int|
            0 <= i < r@.len() && (#[trigger] r@[i]).kind@ == region_name(k),
{
    proof {
        reveal_strlit("RAM");
        reveal_strlit("FLASH");
        reveal_strlit("???");
    }
    let mut out: Vec<RegionSummary> = Vec::new();
    let names: [&'static str; 3] = ["???", "FLASH", "RAM"];
    let mut k: u8 = 0;
    while k < 3
        invariant
            k <= 3,
            fits(segs@),
            names@[0]@ == "???"@,
            names@[1]@ == "FLASH"@,
            names@[2]@ == "RAM"@,
            forall|i: int|
                0 <= i < out@.len() ==> {
                    let kk = region_rank((#[trigger] out@[i]).kind@);
                    &&& 0 <= kk < k
                    &&& out@[i].kind@ == region_name(kk)
                    &&& out@[i].segments@ == of_region(segs@, kk)
                    &&& out@[i].segments@.len() > 0
                    &&& out@[i].file_size == file_total(of_region(segs@, kk))
                    &&& out@[i].mem_size == mem_total(of_region(segs@, kk))
                    &&& out@[i].low == low_address(of_region(segs@, kk))
                    &&& out@[i].high == high_address(of_region(segs@, kk))
                },
            forall|i: int, j: int| 0 <= i < j < out@.len() ==> region_rank(out@[i].kind@) < region_rank(out@[j].kind@),
            forall|kk: int| 0 <= kk < k && of_region(segs@, kk).len() > 0 ==> exists|i: int|
                0 <= i < out@.len() && (#[trigger] out@[i]).kind@ == region_name(kk),
        decreases 3 - k,
    {
        let s = summarise(segs, k, names[k as usize]);
        proof {
            reveal_strlit("RAM");
            reveal_strlit("FLASH");
            reveal_strlit("???");
            assert(s.kind@ == names@[k as int]@);
            lemma_region_names();
            assert(s.kind@ == region_name(k as int));
            assert(region_rank(s.kind@) == k as int);
        }
        let ghost old_out = out@;
        if s.segments.len() > 0 {
            out.push(s);
            proof {
                let last = out@.len() - 1;
                assert(out@[last].kind@ == region_name(k as int));
            }
        }
        proof {
            assert forall|kk: int| 0 <= kk < k + 1 && of_region(segs@, kk).len() > 0 implies exists|i: int|
                0 <= i < out@.len() && (#[trigger] out@[i]).kind@ == region_name(kk) by {
                if kk == k as int {
                    let last = out@.len() - 1;
                    assert(out@[last].kind@ == region_name(kk));
                } else {
                    let i = choose|i: int| 0 <= i < old_out.len() && (#[trigger] old_out[i]).kind@ == region_name(kk);
                    assert(out@[i] == old_out[i]);
                }
            }
        }
        k += 1;
    }
    out
}

proof fn lemma_region_names()
    ensures
        region_rank(region_name(0)) == 0,
        region_rank(region_name(1)) == 1,
        region_rank(region_name(2)) == 2,
{
    reveal_strlit("RAM");
    reveal_strlit("FLASH");
    reveal_strlit("???");
    assert("RAM"@[0] != "???"@[0]);
    assert("FLASH"@.len() != "???"@.len());
    assert("RAM"@.len() != "FLASH"@.len());
}

/// The rank of a region's name in listing order.
pub open spec fn region_rank(name: Seq<char>) -> int {
    if name == "RAM"@ {
        2
    } else if name == "FLASH"@ {
        1
    } else {
        0
    }
}

} // verus!
