//! The memory map report as a whole: the segments grouped by region in
//! order of first appearance, the bar width narrowed until the last label
//! of every region fits the terminal, and the lines printed for each region
//! and for the bytes lost to alignment.

use vstd::prelude::*;

use crate::memmap::{layout_defined, layout_fits, rightmost_overflow, spec_rightmost_overflow, ColorMap, MemSegment, Seg};
use crate::text::str_eq;

verus! {

// ── Grouping by region ───────────────────────────────────────────────

/// A segment as its region's bar takes it: `(owner, base, size, lost)`.
pub open spec fn seg_of(m: MemSegment) -> Seg {
    (m.owner, m.base, m.size, m.lost)
}

/// The first position from `i` on of a region called `name`.
pub open spec fn find_name(names: Seq<String>, name: Seq<char>, i: int) -> Option<int>
    decreases names.len() - i,
{
    if i < 0 || i >= names.len() {
        None
    } else if names[i]@ == name {
        Some(i)
    } else {
        find_name(names, name, i + 1)
    }
}

/// The regions in order of first appearance, and each region's segments
/// in order.
pub open spec fn spec_groups(ms: Seq<MemSegment>) -> (Seq<String>, Seq<Seq<Seg>>)
    decreases ms.len(),
{
    if ms.len() == 0 {
        (Seq::empty(), Seq::empty())
    } else {
        let (names, segs) = spec_groups(ms.drop_last());
        let m = ms.last();
        match find_name(names, m.memory@, 0) {
            Some(i) => (names, segs.update(i, segs[i].push(seg_of(m)))),
            None => (names.push(m.memory), segs.push(seq![seg_of(m)])),
        }
    }
}

/// Groups as plain sequences.
pub open spec fn groups_view(g: Seq<Vec<Seg>>) -> Seq<Seq<Seg>> {
    Seq::new(g.len(), |i: int| g[i]@)
}

proof fn lemma_find_name(names: Seq<String>, name: Seq<char>, i: int)
    ensures
        find_name(names, name, i) matches Some(j) ==> i <= j < names.len() && names[j]@ == name,
    decreases names.len() - i,
{
    if 0 <= i < names.len() && names[i]@ != name {
        lemma_find_name(names, name, i + 1);
    }
}

proof fn lemma_groups_len(ms: Seq<MemSegment>)
    ensures
        spec_groups(ms).0.len() == spec_groups(ms).1.len(),
        spec_groups(ms).1.len() > 0 ==> ms.len() > 0,
        forall|i: int| 0 <= i < spec_groups(ms).1.len() ==> (#[trigger] spec_groups(ms).1[i]).len() > 0,
    decreases ms.len(),
{
    if ms.len() > 0 {
        lemma_groups_len(ms.drop_last());
        let (names, segs) = spec_groups(ms.drop_last());
        lemma_find_name(names, ms.last().memory@, 0);
    }
}

fn find_region(names: &Vec<String>, name: &str) -> (r: Option<usize>)
    ensures
        match find_name(names@, name@, 0) {
            Some(i) => r == Some(i as usize),
            None => r is None,
        },
        r matches Some(i) ==> i < names@.len(),
{
    proof {
        lemma_find_name(names@, name@, 0);
    }
    let mut i: usize = 0;
    while i < names.len()
        invariant
            i <= names@.len(),
            find_name(names@, name@, 0) == find_name(names@, name@, i as int),
        decreases names.len() - i,
    {
        if str_eq(names[i].as_str(), name) {
            return Some(i);
        }
        i += 1;
    }
    None
}

/// The regions of the segments in order of first appearance, each with
/// its segments in order.
pub fn group_regions(segments: &[MemSegment]) -> (r: (Vec<String>, Vec<Vec<Seg>>))
    ensures
        (r.0@, groups_view(r.1@)) == spec_groups(segments@),
{
    let ghost ms = segments@;
    let mut names: Vec<String> = Vec::new();
    let mut groups: Vec<Vec<Seg>> = Vec::new();
    let mut i: usize = 0;
    assert(ms.subrange(0, 0) =~= Seq::<MemSegment>::empty());
    assert(groups_view(groups@) =~= Seq::<Seq<Seg>>::empty());
    while i < segments.len()
        invariant
            ms == segments@,
            i <= ms.len(),
            names@.len() == groups@.len(),
            (names@, groups_view(groups@)) == spec_groups(ms.subrange(0, i as int)),
        decreases segments.len() - i,
    {
        let m = &segments[i];
        let ghost pre = ms.subrange(0, i as int);
        proof {
            assert(ms.subrange(0, i + 1).drop_last() =~= pre);
            assert(ms.subrange(0, i + 1).last() == *m);
        }
        let seg: Seg = (m.owner.clone(), m.base, m.size, m.lost);
        assert(seg == seg_of(*m));
        let ghost g0 = groups_view(groups@);
        let ghost n0 = names@;
        let ghost next = spec_groups(ms.subrange(0, i + 1));
        proof {
            assert(spec_groups(pre).0 == n0 && spec_groups(pre).1 == g0);
            assert(next == match find_name(n0, m.memory@, 0) {
                Some(k) => (n0, g0.update(k, g0[k].push(seg_of(*m)))),
                None => (n0.push(m.memory), g0.push(seq![seg_of(*m)])),
            });
        }
        let mname = m.memory.as_str();
        let found = find_region(&names, mname);
        proof {
            lemma_find_name(n0, m.memory@, 0);
            assert(mname@ == m.memory@);
            assert(n0.len() == names.len());
            match find_name(n0, m.memory@, 0) {
                Some(k) => {
                    assert(found == Some(k as usize));
                    assert((k as usize) as int == k);
                },
                None => {},
            }
            assert(found matches Some(j) ==> find_name(n0, m.memory@, 0) == Some(j as int));
        }
        match found {
            Some(j) => {
                proof {
                    assert(find_name(n0, m.memory@, 0) == Some(j as int));
                }
                let mut g = groups.remove(j);
                g.push(seg);
                groups.insert(j, g);
                assert(groups_view(groups@) =~= g0.update(j as int, g0[j as int].push(seg_of(*m))));
                assert(next == (names@, groups_view(groups@)));
            },
            None => {
                names.push(m.memory.clone());
                let mut g: Vec<Seg> = Vec::new();
                g.push(seg);
                groups.push(g);
                assert(groups_view(groups@) =~= g0.push(seq![seg_of(*m)]));
                assert(names@ =~= n0.push(m.memory));
                assert(next == (names@, groups_view(groups@)));
            },
        }
        i += 1;
    }
    assert(ms.subrange(0, i as int) =~= ms);
    (names, groups)
}

// ── Choosing the bar width ───────────────────────────────────────────

/// How far the widest-running last label of any region passes `w`.
pub open spec fn max_overflow(gs: Seq<Seq<Seg>>, w: int) -> int
    decreases gs.len(),
{
    if gs.len() == 0 {
        0
    } else {
        let a = max_overflow(gs.drop_last(), w);
        let b = spec_rightmost_overflow(gs.last(), w);
        if a >= b {
            a
        } else {
            b
        }
    }
}

/// Every region can be laid out across `w` columns.
pub open spec fn all_defined(gs: Seq<Seq<Seg>>, w: int) -> bool {
    forall|i: int| 0 <= i < gs.len() ==> layout_defined(#[trigger] gs[i], w)
}

/// The terminal width less the margin of two columns and `overflow`
/// (zero when that is all of it).
pub open spec fn narrower(term_w: int, overflow: int) -> int {
    if term_w >= 2 + overflow {
        term_w - 2 - overflow
    } else {
        0
    }
}

/// Narrow the width `n` more times at most, stopping once it no longer
/// changes.
pub open spec fn solve(gs: Seq<Seq<Seg>>, term_w: int, w: int, n: nat) -> int
    decreases n,
{
    if n == 0 {
        w
    } else {
        let nw = narrower(term_w, max_overflow(gs, w));
        if nw == w {
            w
        } else {
            solve(gs, term_w, nw, (n - 1) as nat)
        }
    }
}

/// Every width the narrowing tries can be laid out.
pub open spec fn solve_defined(gs: Seq<Seq<Seg>>, term_w: int, w: int, n: nat) -> bool
    decreases n,
{
    n == 0 || (all_defined(gs, w) && {
        let nw = narrower(term_w, max_overflow(gs, w));
        nw == w || solve_defined(gs, term_w, nw, (n - 1) as nat)
    })
}

/// The bar width for a terminal `term_w` columns wide: start ten columns
/// (and the margin) in, narrow at most twenty times, and never go below
/// twenty columns.
pub open spec fn bar_width(gs: Seq<Seq<Seg>>, term_w: int) -> int {
    let w = solve(gs, term_w, narrower(term_w, 10), 20);
    if w >= 20 {
        w
    } else {
        20
    }
}

/// The narrowing and the final width can all be laid out.
pub open spec fn width_defined(gs: Seq<Seq<Seg>>, term_w: int) -> bool {
    solve_defined(gs, term_w, narrower(term_w, 10), 20) && all_defined(gs, bar_width(gs, term_w))
}

fn all_fit(groups: &Vec<Vec<Seg>>, w: usize) -> (b: bool)
    ensures
        b == all_defined(groups_view(groups@), w as int),
{
    let ghost gs = groups_view(groups@);
    let mut i: usize = 0;
    while i < groups.len()
        invariant
            gs == groups_view(groups@),
            i <= groups@.len(),
            forall|k: int| 0 <= k < i ==> layout_defined(#[trigger] gs[k], w as int),
        decreases groups.len() - i,
    {
        if !layout_fits(groups[i].as_slice(), w) {
            assert(!layout_defined(gs[i as int], w as int));
            return false;
        }
        i += 1;
    }
    true
}

fn overflow_of(groups: &Vec<Vec<Seg>>, colors: &ColorMap, w: usize) -> (r: usize)
    requires
        all_defined(groups_view(groups@), w as int),
    ensures
        r as int == max_overflow(groups_view(groups@), w as int),
{
    let ghost gs = groups_view(groups@);
    let mut m: usize = 0;
    let mut i: usize = 0;
    assert(gs.subrange(0, 0) =~= Seq::<Seq<Seg>>::empty());
    while i < groups.len()
        invariant
            gs == groups_view(groups@),
            all_defined(gs, w as int),
            i <= groups@.len(),
            m as int == max_overflow(gs.subrange(0, i as int), w as int),
        decreases groups.len() - i,
    {
        proof {
            assert(gs.subrange(0, i + 1).drop_last() =~= gs.subrange(0, i as int));
            assert(gs.subrange(0, i + 1).last() == gs[i as int]);
            assert(layout_defined(gs[i as int], w as int));
        }
        let o = rightmost_overflow(groups[i].as_slice(), colors, w);
        if o > m {
            m = o;
        }
        i += 1;
    }
    assert(gs.subrange(0, i as int) =~= gs);
    m
}

fn narrow(term_w: usize, overflow: usize) -> (r: usize)
    ensures
        r as int == narrower(term_w as int, overflow as int),
{
    if term_w as u128 >= 2 + overflow as u128 {
        term_w - 2 - overflow
    } else {
        0
    }
}

/// The bar width for a terminal `term_w` columns wide (see [`bar_width`]),
/// when every width tried can be laid out.
pub fn choose_width(groups: &Vec<Vec<Seg>>, colors: &ColorMap, term_w: usize) -> (r: Option<usize>)
    ensures
        r is Some <==> width_defined(groups_view(groups@), term_w as int),
        r matches Some(w) ==> w as int == bar_width(groups_view(groups@), term_w as int),
{
    let ghost gs = groups_view(groups@);
    let ghost t = term_w as int;
    let w0 = narrow(term_w, 10);
    let mut w = w0;
    let mut left: usize = 20;
    loop
        invariant_except_break
            gs == groups_view(groups@),
            t == term_w as int,
            left <= 20,
            solve(gs, t, w0 as int, 20) == solve(gs, t, w as int, left as nat),
            solve_defined(gs, t, w0 as int, 20) == solve_defined(gs, t, w as int, left as nat),
            w0 as int == narrower(t, 10),
        ensures
            gs == groups_view(groups@),
            t == term_w as int,
            solve(gs, t, w0 as int, 20) == w as int,
            solve_defined(gs, t, w0 as int, 20),
        decreases left,
    {
        if left == 0 {
            break;
        }
        if !all_fit(groups, w) {
            assert(!solve_defined(gs, t, w as int, left as nat));
            return None;
        }
        let o = overflow_of(groups, colors, w);
        let nw = narrow(term_w, o);
        if nw == w {
            break;
        }
        w = nw;
        left -= 1;
    }
    let fw = if w >= 20 { w } else { 20 };
    assert(w0 as int == narrower(t, 10));
    assert(bar_width(gs, t) == fw as int);
    if !all_fit(groups, fw) {
        return None;
    }
    Some(fw)
}

} // verus!
