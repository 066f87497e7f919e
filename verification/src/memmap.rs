//! Terminal memory map: colours per owner, the proportional layout of a
//! memory region's segments across the terminal width, the ANSI-coloured
//! bar and the address line.

use vstd::prelude::*;

use crate::text::{decimal, push_char, push_decimal, push_str, str_eq, strip_prefix_str};

verus! {

/// A 24-bit terminal colour.
pub type Rgb = (u8, u8, u8);

/// The owner colours, in the order they are handed out.
pub open spec fn spec_palette(i: int) -> Rgb {
    if i == 0 { (232, 201, 122) }
    else if i == 1 { (122, 184, 232) }
    else if i == 2 { (168, 232, 122) }
    else if i == 3 { (232, 122, 154) }
    else if i == 4 { (184, 122, 232) }
    else if i == 5 { (122, 232, 208) }
    else if i == 6 { (232, 160, 122) }
    else if i == 7 { (122, 154, 232) }
    else if i == 8 { (232, 224, 122) }
    else if i == 9 { (232, 122, 232) }
    else if i == 10 { (180, 232, 140) }
    else if i == 11 { (232, 180, 122) }
    else if i == 12 { (140, 180, 232) }
    else { (232, 140, 180) }
}

/// Number of palette colours.
pub const PALETTE_LEN: usize = 14;

/// Palette colour `i`.
pub fn palette(i: usize) -> (c: Rgb)
    requires
        i < PALETTE_LEN,
    ensures
        c == spec_palette(i as int),
{
    match i {
        0 => (232, 201, 122),
        1 => (122, 184, 232),
        2 => (168, 232, 122),
        3 => (232, 122, 154),
        4 => (184, 122, 232),
        5 => (122, 232, 208),
        6 => (232, 160, 122),
        7 => (122, 154, 232),
        8 => (232, 224, 122),
        9 => (232, 122, 232),
        10 => (180, 232, 140),
        11 => (232, 180, 122),
        12 => (140, 180, 232),
        _ => (232, 140, 180),
    }
}

/// Background of the bar where no segment lies.
pub open spec fn spec_dark() -> Rgb {
    (18, 24, 32)
}

/// Colour of the `(unused)` owner.
pub open spec fn spec_unused_color() -> Rgb {
    (50, 58, 68)
}

/// Colour marking lost bytes.
pub open spec fn spec_lost_color() -> Rgb {
    (220, 50, 60)
}

/// Colour of an owner missing from the colour map.
pub open spec fn spec_fallback_color() -> Rgb {
    (140, 140, 140)
}

/// A segment of a memory region as reported by the layout solver.
#[derive(Clone, Debug)]
pub struct MemSegment {
    /// Memory region name (e.g. `ram`, `flash`).
    pub memory: String,
    /// Owning crate, or `(unused)`.
    pub owner: String,
    pub base: u64,
    pub size: u64,
    /// Bytes lost to alignment.
    pub lost: u64,
}

/// Colour assigned to each owner, in first-appearance order.
pub struct ColorMap {
    entries: Vec<(String, Rgb)>,
}

/// Whether an owner already has a colour.
pub open spec fn has_owner(t: Seq<(Seq<char>, Rgb)>, o: Seq<char>) -> bool {
    exists|i: int| 0 <= i < t.len() && (#[trigger] t[i]).0 == o
}

/// Number of owners other than `(unused)` with a colour.
pub open spec fn palette_used(t: Seq<(Seq<char>, Rgb)>) -> nat
    decreases t.len(),
{
    if t.len() == 0 {
        0
    } else {
        palette_used(t.drop_last()) + if t.last().0 == "(unused)"@ { 0nat } else { 1nat }
    }
}

/// The colour table after seeing the given owners in order: each new owner
/// gets the next palette colour (cycling), `(unused)` gets its own grey.
pub open spec fn spec_assign(owners: Seq<Seq<char>>) -> Seq<(Seq<char>, Rgb)>
    decreases owners.len(),
{
    if owners.len() == 0 {
        Seq::empty()
    } else {
        let t = spec_assign(owners.drop_last());
        let o = owners.last();
        if has_owner(t, o) {
            t
        } else if o == "(unused)"@ {
            t.push((o, spec_unused_color()))
        } else {
            t.push((o, spec_palette((palette_used(t) % 14) as int)))
        }
    }
}

/// Colour of `o` in the table: the first entry for it, or the fallback grey.
pub open spec fn color_of(t: Seq<(Seq<char>, Rgb)>, o: Seq<char>) -> Rgb
    decreases t.len(),
{
    if t.len() == 0 {
        spec_fallback_color()
    } else if t[0].0 == o {
        t[0].1
    } else {
        color_of(t.drop_first(), o)
    }
}

impl ColorMap {
    /// The table as plain values.
    pub closed spec fn view(&self) -> Seq<(Seq<char>, Rgb)> {
        Seq::new(self.entries@.len(), |i: int| (self.entries@[i].0@, self.entries@[i].1))
    }

    /// Colour of an owner (the fallback grey if it has none).
    pub fn color(&self, owner: &str) -> (c: Rgb)
        ensures
            c == color_of(self.view(), owner@),
    {
        let mut i: usize = 0;
        assert(self.view().subrange(0, self.view().len() as int) =~= self.view());
        while i < self.entries.len()
            invariant
                i <= self.entries@.len(),
                color_of(self.view(), owner@) == color_of(
                    self.view().subrange(i as int, self.view().len() as int),
                    owner@,
                ),
            decreases self.entries.len() - i,
        {
            let ghost tail = self.view().subrange(i as int, self.view().len() as int);
            assert(tail[0] == self.view()[i as int]);
            if str_eq(self.entries[i].0.as_str(), owner) {
                return self.entries[i].1;
            }
            assert(tail.drop_first() =~= self.view().subrange(i + 1, self.view().len() as int));
            i += 1;
        }
        assert(self.view().subrange(i as int, self.view().len() as int).len() == 0);
        (140, 140, 140)
    }

    /// Whether an owner already has a colour.
    fn contains(&self, owner: &str) -> (r: bool)
        ensures
            r == has_owner(self.view(), owner@),
    {
        let mut i: usize = 0;
        while i < self.entries.len()
            invariant
                i <= self.entries@.len(),
                forall|j: int| 0 <= j < i ==> self.view()[j].0 != owner@,
            decreases self.entries.len() - i,
        {
            if str_eq(self.entries[i].0.as_str(), owner) {
                assert(self.view()[i as int].0 == owner@);
                return true;
            }
            i += 1;
        }
        false
    }
}

/// Owners of the segments, in order.
pub open spec fn owners_of(segments: Seq<MemSegment>) -> Seq<Seq<char>> {
    Seq::new(segments.len(), |i: int| segments[i].owner@)
}

/// Hand out colours to the owners of the segments, in order of first appearance.
pub fn assign_colors(segments: &[MemSegment]) -> (m: ColorMap)
    ensures
        m.view() == spec_assign(owners_of(segments@)),
{
    let mut map = ColorMap { entries: Vec::new() };
    let mut idx: usize = 0;
    let mut i: usize = 0;
    assert(owners_of(segments@).subrange(0, 0) =~= Seq::<Seq<char>>::empty());
    assert(map.view() =~= Seq::<(Seq<char>, Rgb)>::empty());
    while i < segments.len()
        invariant
            i <= segments@.len(),
            map.view() == spec_assign(owners_of(segments@).subrange(0, i as int)),
            idx == palette_used(map.view()) % 14,
        decreases segments.len() - i,
    {
        let seg = &segments[i];
        proof {
            assert(owners_of(segments@).subrange(0, i + 1).drop_last() =~= owners_of(
                segments@,
            ).subrange(0, i as int));
            assert(owners_of(segments@).subrange(0, i + 1).last() == seg.owner@);
        }
        if !map.contains(seg.owner.as_str()) {
            let ghost before = map.view();
            if str_eq(seg.owner.as_str(), "(unused)") {
                map.entries.push((seg.owner.clone(), (50, 58, 68)));
                assert(map.view().drop_last() =~= before);
            } else {
                map.entries.push((seg.owner.clone(), palette(idx)));
                assert(map.view().drop_last() =~= before);
                idx = if idx + 1 == PALETTE_LEN { 0 } else { idx + 1 };
            }
            assert(map.view() =~= spec_assign(owners_of(segments@).subrange(0, i + 1)));
        }
        i += 1;
    }
    assert(owners_of(segments@).subrange(0, i as int) =~= owners_of(segments@));
    map
}

// ── ANSI helpers ─────────────────────────────────────────────────────

/// The three components of a colour, as `r;g;b`.
pub open spec fn rgb_text(c: Rgb) -> Seq<char> {
    decimal(c.0 as nat) + seq![';'] + decimal(c.1 as nat) + seq![';'] + decimal(c.2 as nat)
}

fn push_rgb(out: &mut String, c: Rgb)
    ensures
        final(out)@ == old(out)@ + rgb_text(c),
{
    push_decimal(out, c.0 as u64);
    push_char(out, ';');
    push_decimal(out, c.1 as u64);
    push_char(out, ';');
    push_decimal(out, c.2 as u64);
    assert(final(out)@ =~= old(out)@ + rgb_text(c));
}

/// `s` in foreground colour `c`.
pub open spec fn spec_fg(c: Rgb, s: Seq<char>) -> Seq<char> {
    "\x1b[38;2;"@ + rgb_text(c) + seq!['m'] + s + "\x1b[0m"@
}

/// `s` in foreground colour `fg_c` on background `bg_c`.
pub open spec fn spec_fgbg(fg_c: Rgb, bg_c: Rgb, s: Seq<char>) -> Seq<char> {
    "\x1b[38;2;"@ + rgb_text(fg_c) + seq!['m'] + "\x1b[48;2;"@ + rgb_text(bg_c) + seq!['m'] + s
        + "\x1b[0m"@
}

/// `s` dimmed.
pub open spec fn spec_dim(s: Seq<char>) -> Seq<char> {
    "\x1b[2m"@ + s + "\x1b[0m"@
}

/// `s` in bold.
pub open spec fn spec_bold(s: Seq<char>) -> Seq<char> {
    "\x1b[1m"@ + s + "\x1b[0m"@
}

/// `s` in a 24-bit foreground colour.
pub fn fg(c: Rgb, s: &str) -> (r: String)
    ensures
        r@ == spec_fg(c, s@),
{
    let mut out = String::new();
    push_str(&mut out, "\x1b[38;2;");
    push_rgb(&mut out, c);
    push_char(&mut out, 'm');
    push_str(&mut out, s);
    push_str(&mut out, "\x1b[0m");
    assert(out@ =~= spec_fg(c, s@));
    out
}

/// `s` in a 24-bit foreground colour on a 24-bit background colour.
pub fn fgbg(fg_c: Rgb, bg_c: Rgb, s: &str) -> (r: String)
    ensures
        r@ == spec_fgbg(fg_c, bg_c, s@),
{
    let mut out = String::new();
    push_str(&mut out, "\x1b[38;2;");
    push_rgb(&mut out, fg_c);
    push_char(&mut out, 'm');
    push_str(&mut out, "\x1b[48;2;");
    push_rgb(&mut out, bg_c);
    push_char(&mut out, 'm');
    push_str(&mut out, s);
    push_str(&mut out, "\x1b[0m");
    assert(out@ =~= spec_fgbg(fg_c, bg_c, s@));
    out
}

/// `s` dimmed.
pub fn dim(s: &str) -> (r: String)
    ensures
        r@ == spec_dim(s@),
{
    let mut out = String::new();
    push_str(&mut out, "\x1b[2m");
    push_str(&mut out, s);
    push_str(&mut out, "\x1b[0m");
    assert(out@ =~= spec_dim(s@));
    out
}

/// `s` in bold.
pub fn bold(s: &str) -> (r: String)
    ensures
        r@ == spec_bold(s@),
{
    let mut out = String::new();
    push_str(&mut out, "\x1b[1m");
    push_str(&mut out, s);
    push_str(&mut out, "\x1b[0m");
    assert(out@ =~= spec_bold(s@));
    out
}

/// An owner's name without the `sysmodule_` prefix.
pub open spec fn spec_short(name: Seq<char>) -> Seq<char> {
    if crate::text::seq_starts_with(name, "sysmodule_"@) {
        name.subrange("sysmodule_"@.len() as int, name.len() as int)
    } else {
        name
    }
}

/// An owner's name without the `sysmodule_` prefix.
pub fn short(name: &str) -> (r: &str)
    ensures
        r@ == spec_short(name@),
{
    match strip_prefix_str(name, "sysmodule_") {
        Some(s) => s,
        None => name,
    }
}

} // verus!

verus! {

// ── Layout computation ───────────────────────────────────────────────

/// One segment's place on the bar, in character columns `[left, right)`.
#[derive(Debug)]
pub struct LayoutEntry {
    pub owner: String,
    pub color: Rgb,
    pub left: usize,
    pub right: usize,
    pub lost: u64,
    pub size: u64,
    pub base: u64,
}

/// A segment of a region: `(owner, base, size, lost)`.
pub type Seg = (String, u64, u64, u64);

/// Sum of the sizes.
pub open spec fn total_size(segs: Seq<Seg>) -> nat
    decreases segs.len(),
{
    if segs.len() == 0 {
        0
    } else {
        total_size(segs.drop_last()) + (segs.last().2 as nat)
    }
}

/// Sum of a sequence of integers.
pub open spec fn sum_int(s: Seq<int>) -> int
    decreases s.len(),
{
    if s.len() == 0 {
        0
    } else {
        sum_int(s.drop_last()) + s.last()
    }
}

/// Columns left over once every segment has its one column.
pub open spec fn spare(n: int, width: int) -> int {
    if width >= n { width - n } else { 0 }
}

/// `num / den` rounded to the nearest integer, halves away from zero.
pub open spec fn round_div(num: int, den: int) -> int {
    (2 * num + den) / (2 * den)
}

/// Extra columns for segment `i` before rounding drift is corrected: the
/// spare columns shared in proportion to size (evenly, the remainder to the
/// last segment, when all sizes are zero).
pub open spec fn raw_extra(segs: Seq<Seg>, width: int, i: int) -> int {
    let n = segs.len() as int;
    let rem = spare(n, width);
    let total = total_size(segs) as int;
    if total == 0 {
        if i == n - 1 {
            rem / n + (rem - (rem / n) * n)
        } else {
            rem / n
        }
    } else {
        round_div(segs[i].2 * rem, total)
    }
}

/// All extra columns before drift correction.
pub open spec fn raw_extras(segs: Seq<Seg>, width: int) -> Seq<int> {
    Seq::new(segs.len(), |i: int| raw_extra(segs, width, i))
}

/// Index of the last maximal element.
pub open spec fn argmax_last(s: Seq<int>) -> int
    decreases s.len(),
{
    if s.len() <= 1 {
        0
    } else {
        let k = argmax_last(s.drop_last());
        if s.last() >= s[k] {
            s.len() - 1
        } else {
            k
        }
    }
}

/// How far the rounded columns overshoot the width.
pub open spec fn drift(segs: Seq<Seg>, width: int) -> int {
    sum_int(raw_extras(segs, width)) + segs.len() - width
}

/// Extra columns after the drift is taken off (or added to) the widest segment.
pub open spec fn fixed_extras(segs: Seq<Seg>, width: int) -> Seq<int> {
    let e = raw_extras(segs, width);
    let d = drift(segs, width);
    if d != 0 {
        let k = argmax_last(e);
        e.update(k, e[k] - d)
    } else {
        e
    }
}

/// Inputs on which the layout is computed without overflow and without a
/// segment shrinking below one column: sizes and column counts fit, and the
/// drift never exceeds the widest segment's extra columns.
pub open spec fn layout_defined(segs: Seq<Seg>, width: int) -> bool {
    segs.len() == 0 || {
        &&& total_size(segs) <= u64::MAX
        &&& sum_int(raw_extras(segs, width)) + segs.len() <= isize::MAX
        &&& width <= isize::MAX
        &&& fixed_extras(segs, width)[argmax_last(raw_extras(segs, width))] >= 0
    }
}

/// Left column of segment `i`: one column each for the segments before it,
/// plus their extra columns.
pub open spec fn layout_left(segs: Seq<Seg>, width: int, i: int) -> int {
    i + sum_int(fixed_extras(segs, width).subrange(0, i))
}

proof fn lemma_total_size_prefix(segs: Seq<Seg>, i: int)
    requires
        0 <= i <= segs.len(),
    ensures
        total_size(segs.subrange(0, i)) <= total_size(segs),
    decreases segs.len() - i,
{
    if i < segs.len() {
        lemma_total_size_prefix(segs, i + 1);
        assert(segs.subrange(0, i + 1).drop_last() =~= segs.subrange(0, i));
    } else {
        assert(segs.subrange(0, i) =~= segs);
    }
}

proof fn lemma_size_le_total(segs: Seq<Seg>, i: int)
    requires
        0 <= i < segs.len(),
    ensures
        segs[i].2 <= total_size(segs),
    decreases segs.len(),
{
    if i < segs.len() - 1 {
        lemma_size_le_total(segs.drop_last(), i);
    }
}

proof fn lemma_sum_nonneg(s: Seq<int>)
    requires
        forall|j: int| 0 <= j < s.len() ==> s[j] >= 0,
    ensures
        sum_int(s) >= 0,
    decreases s.len(),
{
    if s.len() > 0 {
        lemma_sum_nonneg(s.drop_last());
        assert(s.last() == s[s.len() - 1]);
    }
}

proof fn lemma_sum_nonneg_prefix(s: Seq<int>, i: int)
    requires
        0 <= i <= s.len(),
        forall|j: int| 0 <= j < s.len() ==> s[j] >= 0,
    ensures
        0 <= sum_int(s.subrange(0, i)) <= sum_int(s),
    decreases s.len() - i,
{
    lemma_sum_nonneg(s.subrange(0, i));
    if i < s.len() {
        lemma_sum_nonneg_prefix(s, i + 1);
        assert(s.subrange(0, i + 1).drop_last() =~= s.subrange(0, i));
        assert(s.subrange(0, i + 1).last() == s[i]);
    } else {
        assert(s.subrange(0, i) =~= s);
    }
}

proof fn lemma_elem_le_sum(s: Seq<int>, k: int)
    requires
        0 <= k < s.len(),
        forall|j: int| 0 <= j < s.len() ==> s[j] >= 0,
    ensures
        s[k] <= sum_int(s),
{
    lemma_sum_nonneg_prefix(s, k);
    lemma_sum_nonneg_prefix(s, k + 1);
    assert(s.subrange(0, k + 1).drop_last() =~= s.subrange(0, k));
    assert(s.subrange(0, k + 1).last() == s[k]);
}

proof fn lemma_sum_update(s: Seq<int>, k: int, v: int)
    requires
        0 <= k < s.len(),
    ensures
        sum_int(s.update(k, v)) == sum_int(s) - s[k] + v,
    decreases s.len(),
{
    if k < s.len() - 1 {
        lemma_sum_update(s.drop_last(), k, v);
        assert(s.update(k, v).drop_last() =~= s.drop_last().update(k, v));
    } else {
        assert(s.update(k, v).drop_last() =~= s.drop_last());
    }
}

proof fn lemma_argmax_bounds(s: Seq<int>)
    requires
        s.len() > 0,
    ensures
        0 <= argmax_last(s) < s.len(),
        forall|j: int| 0 <= j < s.len() ==> #[trigger] s[j] <= s[argmax_last(s)],
    decreases s.len(),
{
    if s.len() > 1 {
        let t = s.drop_last();
        lemma_argmax_bounds(t);
        let k = argmax_last(t);
        assert forall|j: int| 0 <= j < s.len() implies #[trigger] s[j] <= s[argmax_last(s)] by {
            if j < s.len() - 1 {
                assert(s[j] == t[j]);
                assert(t[j] <= t[k]);
            }
        }
    }
}

proof fn lemma_round_div_bounds(a: int, b: int, t: int)
    requires
        0 <= a <= t,
        0 < t,
        0 <= b,
    ensures
        0 <= round_div(a * b, t) <= b,
{
    assert(0 <= a * b <= t * b) by (nonlinear_arith)
        requires
            0 <= a <= t,
            0 <= b,
    ;
    assert(2 * (a * b) + t < 2 * t * (b + 1)) by (nonlinear_arith)
        requires
            a * b <= t * b,
            0 < t,
    ;
    assert((2 * (a * b) + t) / (2 * t) <= b) by (nonlinear_arith)
        requires
            2 * (a * b) + t < 2 * t * (b + 1),
            0 < t,
    ;
    assert(0 <= (2 * (a * b) + t) / (2 * t)) by (nonlinear_arith)
        requires
            0 <= a * b,
            0 < t,
    ;
}

/// `num / den` rounded half away from zero, without overflow.
fn round_half_up(num: u128, den: u128) -> (r: u128)
    requires
        den > 0,
        num <= 0xffff_ffff_ffff_ffff_ffff_ffff_ffff_fffe,
    ensures
        r == round_div(num as int, den as int),
{
    let q = num / den;
    let rem = num % den;
    assert(num == q * den + rem) by (nonlinear_arith)
        requires
            q == num / den,
            rem == num % den,
            den > 0,
    ;
    let r: u128 = if rem >= den - rem { q + 1 } else { q };
    proof {
        let a = num as int;
        let d = den as int;
        assert(2 * a + d == 2 * q * d + 2 * rem + d) by (nonlinear_arith)
            requires
                a == q * d + rem,
        ;
        if rem >= den - rem {
            assert((2 * a + d) / (2 * d) == q + 1) by (nonlinear_arith)
                requires
                    2 * a + d == 2 * q * d + 2 * rem + d,
                    d <= 2 * rem < 2 * d,
                    0 < d,
            ;
        } else {
            assert((2 * a + d) / (2 * d) == q) by (nonlinear_arith)
                requires
                    2 * a + d == 2 * q * d + 2 * rem + d,
                    0 <= 2 * rem < d,
                    0 < d,
            ;
        }
    }
    assert(q <= num);
    r
}

/// The extra columns of each segment before drift is corrected (see
/// [`raw_extras`]).
fn raw_extra_vec(segs: &[Seg], width: usize, total: u64) -> (extra: Vec<usize>)
    requires
        segs@.len() > 0,
        total == total_size(segs@),
    ensures
        extra@.len() == segs@.len(),
        forall|k: int| 0 <= k < segs@.len() ==> (#[trigger] extra@[k]) as int == raw_extras(segs@, width as int)[k],
        forall|k: int| 0 <= k < segs@.len() ==> (#[trigger] extra@[k]) <= width,
{
    let n = segs.len();
    let ghost sg = segs@;
    let ghost w = width as int;
    let remainder: usize = if width >= n { width - n } else { 0 };
    let mut extra: Vec<usize> = Vec::new();
    if total == 0 {
        let base = remainder / n;
        assert(base * n <= remainder) by (nonlinear_arith)
            requires
                base == remainder / n,
                n > 0,
        ;
        assert(base <= base * n) by (nonlinear_arith)
            requires
                n > 0,
        ;
        let mut j: usize = 0;
        while j < n
            invariant
                n == sg.len(),
                j <= n,
                n > 0,
                base == remainder / n,
                base * n <= remainder,
                base <= base * n,
                total == total_size(sg),
                total == 0,
                remainder as int == spare(n as int, w),
                extra@.len() == j,
                remainder <= width,
                forall|k: int| 0 <= k < j ==> #[trigger] extra@[k] <= remainder,
                forall|k: int| 0 <= k < j ==> extra@[k] as int == (if k == n - 1 {
                    raw_extra(sg, w, k)
                } else {
                    base as int
                }),
            decreases n - j,
        {
            if j == n - 1 {
                extra.push(base + (remainder - base * n));
            } else {
                extra.push(base);
            }
            j += 1;
        }
    } else {
        let mut j: usize = 0;
        while j < n
            invariant
                n == sg.len(),
                sg == segs@,
                j <= n,
                total == total_size(sg),
                total > 0,
                remainder as int == spare(n as int, w),
                remainder <= width,
                extra@.len() == j,
                forall|k: int| 0 <= k < j ==> #[trigger] extra@[k] <= remainder,
                forall|k: int| 0 <= k < j ==> extra@[k] as int == raw_extra(sg, w, k),
            decreases n - j,
        {
            proof {
                lemma_size_le_total(sg, j as int);
                lemma_round_div_bounds(sg[j as int].2 as int, remainder as int, total as int);
                assert((segs@[j as int].2 as u128) * (remainder as u128) <= 0xffff_ffff_ffff_ffff * 0xffff_ffff_ffff_ffff) by (nonlinear_arith)
                    requires
                        segs@[j as int].2 <= 0xffff_ffff_ffff_ffff,
                        remainder <= 0xffff_ffff_ffff_ffff,
                ;
            }
            let num: u128 = (segs[j].2 as u128) * (remainder as u128);
            assert(num as int == sg[j as int].2 * remainder);
            let q = round_half_up(num, total as u128);
            assert(q <= remainder);
            extra.push(q as usize);
            j += 1;
        }
    }
    assert(extra@.len() == n);
    assert forall|k: int| 0 <= k < n implies (#[trigger] extra@[k]) as int == raw_extras(sg, w)[k] by {}
    extra
}

/// Lay the segments of one region across `width` columns: every segment
/// gets one column plus its share of the remaining columns in proportion
/// to its size; rounding drift is corrected on the widest segment.
/// Shares are computed exactly and rounded half away from zero; computing
/// them in floating point can round a share that is exactly a half column
/// down instead (for example 7/10 of 45 columns: 32 here).
pub fn compute_layout(segs: &[Seg], colors: &ColorMap, width: usize) -> (r: Vec<LayoutEntry>)
    requires
        layout_defined(segs@, width as int),
    ensures
        r@.len() == segs@.len(),
        forall|i: int|
            0 <= i < r@.len() ==> {
                let e = #[trigger] r@[i];
                &&& e.owner == segs@[i].0
                &&& e.color == color_of(colors.view(), segs@[i].0@)
                &&& e.left == layout_left(segs@, width as int, i)
                &&& e.right == e.left + 1 + fixed_extras(segs@, width as int)[i]
                &&& e.base == segs@[i].1
                &&& e.size == segs@[i].2
                &&& e.lost == segs@[i].3
            },
{
    let n = segs.len();
    if n == 0 {
        return Vec::new();
    }
    let ghost sg = segs@;
    let ghost w = width as int;
    // Total size.
    let mut total: u64 = 0;
    let mut i: usize = 0;
    while i < n
        invariant
            n == sg.len(),
            sg == segs@,
            i <= n,
            total == total_size(sg.subrange(0, i as int)),
            total_size(sg) <= u64::MAX,
        decreases n - i,
    {
        proof {
            assert(sg.subrange(0, i + 1).drop_last() =~= sg.subrange(0, i as int));
            lemma_total_size_prefix(sg, i + 1);
        }
        total = total + segs[i].2;
        i += 1;
    }
    assert(sg.subrange(0, n as int) =~= sg);
    let mut extra = raw_extra_vec(segs, width, total);
    // Fix rounding drift.
    let mut actual_total: usize = 0;
    let mut j: usize = 0;
    proof {
        lemma_raw_nonneg(sg, w);
    }
    while j < n
        invariant
            n == sg.len(),
            j <= n,
            extra@.len() == n,
            forall|k: int| 0 <= k < n ==> (#[trigger] extra@[k]) as int == raw_extras(sg, w)[k],
            forall|k: int| 0 <= k < n ==> raw_extras(sg, w)[k] >= 0,
            actual_total as int == sum_int(raw_extras(sg, w).subrange(0, j as int)),
            sum_int(raw_extras(sg, w)) + n <= isize::MAX,
        decreases n - j,
    {
        proof {
            assert(raw_extras(sg, w).subrange(0, j + 1).drop_last() =~= raw_extras(sg, w).subrange(0, j as int));
            lemma_sum_nonneg_prefix(raw_extras(sg, w), j + 1);
        }
        actual_total = actual_total + extra[j];
        j += 1;
    }
    assert(raw_extras(sg, w).subrange(0, n as int) =~= raw_extras(sg, w));
    actual_total = actual_total + n;
    let ghost e0 = raw_extras(sg, w);
    proof {
        lemma_argmax_bounds(e0);
    }
    if actual_total != width {
        let idx = last_max_index(&extra);
        assert(idx as int == argmax_last(e0)) by {
            assert(extra@.len() == e0.len());
            lemma_argmax_same(extra@, e0);
        }
        if actual_total > width {
            let d = actual_total - width;
            extra.set(idx, extra[idx] - d);
        } else {
            let d = width - actual_total;
            assert(extra@[idx as int] + d == fixed_extras(sg, w)[idx as int]);
            proof {
                lemma_fixed_nonneg(sg, w);
                lemma_sum_update(e0, argmax_last(e0), e0[argmax_last(e0)] - drift(sg, w));
                lemma_elem_le_sum(fixed_extras(sg, w), idx as int);
            }
            extra.set(idx, extra[idx] + d);
        }
    }
    let ghost fx = fixed_extras(sg, w);
    assert(extra@.len() == n);
    assert forall|k: int| 0 <= k < n implies (#[trigger] extra@[k]) as int == fx[k] by {}
    proof {
        lemma_fixed_nonneg(sg, w);
        if drift(sg, w) != 0 {
            lemma_sum_update(e0, argmax_last(e0), e0[argmax_last(e0)] - drift(sg, w));
        }
        assert(sum_int(fx) + n == w);
    }
    // Place the segments left to right.
    let mut result: Vec<LayoutEntry> = Vec::new();
    let mut cursor: usize = 0;
    let mut i: usize = 0;
    while i < n
        invariant
            n == sg.len(),
            i <= n,
            extra@.len() == n,
            forall|k: int| 0 <= k < n ==> (#[trigger] extra@[k]) as int == fx[k],
            fx == fixed_extras(sg, w),
            fx.len() == n,
            sg == segs@,
            w == width as int,
            forall|k: int| 0 <= k < n ==> fx[k] >= 0,
            sum_int(fx) + n == w,
            cursor as int == layout_left(sg, w, i as int),
            result@.len() == i,
            forall|k: int|
                0 <= k < i ==> {
                    let e = #[trigger] result@[k];
                    &&& e.owner == sg[k].0
                    &&& e.color == color_of(colors.view(), sg[k].0@)
                    &&& e.left == layout_left(sg, w, k)
                    &&& e.right == e.left + 1 + fx[k]
                    &&& e.base == sg[k].1
                    &&& e.size == sg[k].2
                    &&& e.lost == sg[k].3
                },
        decreases n - i,
    {
        proof {
            assert(fx.subrange(0, i + 1).drop_last() =~= fx.subrange(0, i as int));
            assert(fx.subrange(0, i + 1).last() == fx[i as int]);
            lemma_sum_nonneg_prefix(fx, i + 1);
            assert(cursor + 1 + fx[i as int] <= w);
        }
        let seg = &segs[i];
        let c = colors.color(seg.0.as_str());
        let wdt = 1 + extra[i];
        result.push(LayoutEntry {
            owner: seg.0.clone(),
            color: c,
            left: cursor,
            right: cursor + wdt,
            lost: seg.3,
            size: seg.2,
            base: seg.1,
        });
        cursor = cursor + wdt;
        i += 1;
    }
    result
}

/// Whether the layout of `segs` across `width` columns is defined (see
/// [`layout_defined`]): the check made before laying a region out.
pub fn layout_fits(segs: &[Seg], width: usize) -> (b: bool)
    ensures
        b == layout_defined(segs@, width as int),
{
    let n = segs.len();
    if n == 0 {
        return true;
    }
    let ghost sg = segs@;
    let ghost w = width as int;
    let mut total: u128 = 0;
    let mut i: usize = 0;
    while i < n
        invariant
            n == sg.len(),
            sg == segs@,
            i <= n,
            total == total_size(sg.subrange(0, i as int)),
            total <= i * 0xffff_ffff_ffff_ffffu128,
        decreases n - i,
    {
        proof {
            assert(sg.subrange(0, i + 1).drop_last() =~= sg.subrange(0, i as int));
        }
        total = total + segs[i].2 as u128;
        i += 1;
    }
    assert(sg.subrange(0, n as int) =~= sg);
    if total > 0xffff_ffff_ffff_ffff {
        return false;
    }
    if width as u128 > isize::MAX as u128 {
        return false;
    }
    let extra = raw_extra_vec(segs, width, total as u64);
    let ghost e0 = raw_extras(sg, w);
    let mut sum: u128 = 0;
    let mut j: usize = 0;
    while j < n
        invariant
            n == sg.len(),
            j <= n,
            extra@.len() == n,
            e0 == raw_extras(sg, w),
            forall|k: int| 0 <= k < n ==> (#[trigger] extra@[k]) as int == e0[k],
            forall|k: int| 0 <= k < n ==> (#[trigger] extra@[k]) <= width,
            sum as int == sum_int(e0.subrange(0, j as int)),
            sum <= j * 0xffff_ffff_ffff_ffffu128,
        decreases n - j,
    {
        proof {
            assert(e0.subrange(0, j + 1).drop_last() =~= e0.subrange(0, j as int));
        }
        sum = sum + extra[j] as u128;
        j += 1;
    }
    assert(e0.subrange(0, n as int) =~= e0);
    if sum + n as u128 > isize::MAX as u128 {
        return false;
    }
    proof {
        lemma_argmax_bounds(e0);
    }
    let idx = last_max_index(&extra);
    assert(idx as int == argmax_last(e0)) by {
        lemma_argmax_same(extra@, e0);
    }
    assert(fixed_extras(sg, w)[idx as int] == e0[idx as int] - drift(sg, w));
    extra[idx] as u128 + width as u128 >= sum + n as u128
}

/// Index of the last maximal element (the `max_by_key` choice).
fn last_max_index(v: &Vec<usize>) -> (r: usize)
    requires
        v@.len() > 0,
    ensures
        r as int == argmax_last(Seq::new(v@.len(), |i: int| v@[i] as int)),
        r < v@.len(),
{
    let ghost s = Seq::new(v@.len(), |i: int| v@[i] as int);
    let mut best: usize = 0;
    let mut i: usize = 1;
    while i < v.len()
        invariant
            s == Seq::new(v@.len(), |i: int| v@[i] as int),
            1 <= i <= v@.len(),
            best < i,
            best as int == argmax_last(s.subrange(0, i as int)),
        decreases v.len() - i,
    {
        proof {
            assert(s.subrange(0, i + 1).drop_last() =~= s.subrange(0, i as int));
        }
        if v[i] >= v[best] {
            best = i;
        }
        i += 1;
    }
    assert(s.subrange(0, i as int) =~= s);
    best
}

proof fn lemma_argmax_same(u: Seq<usize>, e: Seq<int>)
    requires
        u.len() == e.len(),
        forall|k: int| 0 <= k < u.len() ==> (#[trigger] u[k]) as int == e[k],
    ensures
        argmax_last(Seq::new(u.len(), |i: int| u[i] as int)) == argmax_last(e),
{
    assert(Seq::new(u.len(), |i: int| u[i] as int) =~= e);
}

proof fn lemma_raw_nonneg(segs: Seq<Seg>, width: int)
    requires
        segs.len() > 0,
    ensures
        forall|k: int| 0 <= k < segs.len() ==> raw_extras(segs, width)[k] >= 0,
{
    assert forall|k: int| 0 <= k < segs.len() implies raw_extras(segs, width)[k] >= 0 by {
        let n = segs.len() as int;
        let rem = spare(n, width);
        if total_size(segs) == 0 {
            assert((rem / n) * n <= rem) by (nonlinear_arith)
                requires
                    n > 0,
                    rem >= 0,
            ;
            assert(rem / n >= 0) by (nonlinear_arith)
                requires
                    n > 0,
                    rem >= 0,
            ;
        } else {
            lemma_size_le_total(segs, k);
            lemma_round_div_bounds(segs[k].2 as int, rem, total_size(segs) as int);
        }
    }
}

proof fn lemma_fixed_nonneg(segs: Seq<Seg>, width: int)
    requires
        segs.len() > 0,
        layout_defined(segs, width),
    ensures
        forall|k: int| 0 <= k < segs.len() ==> fixed_extras(segs, width)[k] >= 0,
{
    lemma_raw_nonneg(segs, width);
    lemma_argmax_bounds(raw_extras(segs, width));
}

} // verus!

verus! {

/// Every segment gets at least one column, each starts where the previous
/// one ends, and together they fill the width exactly.
pub proof fn law_layout_tiles_width(segs: Seq<Seg>, width: int)
    requires
        layout_defined(segs, width),
        segs.len() > 0,
        0 <= width,
    ensures
        layout_left(segs, width, 0) == 0,
        forall|i: int| 0 <= i < segs.len() ==> #[trigger] fixed_extras(segs, width)[i] >= 0,
        forall|i: int|
            0 <= i < segs.len() ==> layout_left(segs, width, i + 1) == #[trigger] layout_left(
                segs,
                width,
                i,
            ) + 1 + fixed_extras(segs, width)[i],
        layout_left(segs, width, segs.len() as int) == width,
{
    let fx = fixed_extras(segs, width);
    lemma_fixed_nonneg(segs, width);
    let e0 = raw_extras(segs, width);
    lemma_argmax_bounds(e0);
    if drift(segs, width) != 0 {
        lemma_sum_update(e0, argmax_last(e0), e0[argmax_last(e0)] - drift(segs, width));
    }
    assert(fx.subrange(0, 0) =~= Seq::<int>::empty());
    assert(fx.subrange(0, segs.len() as int) =~= fx);
    assert forall|i: int| 0 <= i < segs.len() implies layout_left(segs, width, i + 1)
        == #[trigger] layout_left(segs, width, i) + 1 + fixed_extras(segs, width)[i] by {
        assert(fx.subrange(0, i + 1).drop_last() =~= fx.subrange(0, i));
        assert(fx.subrange(0, i + 1).last() == fx[i]);
    }
}

// ── Address line ─────────────────────────────────────────────────────

/// `0x` followed by the lower-case hex digits of `n`.
pub open spec fn spec_hex_addr(n: nat) -> Seq<char> {
    seq!['0', 'x'] + crate::text::hex_digits(n)
}

/// `n` copies of the middle dot.
pub open spec fn dots(n: nat) -> Seq<char> {
    Seq::new(n, |i: int| '\u{00b7}')
}

/// The address line under a region's bar: start and end, dimmed, with a
/// dotted rule filling the width between them.
pub open spec fn spec_addr_line(start: nat, end: nat, width: nat) -> Seq<char> {
    let s = spec_hex_addr(start);
    let e = spec_hex_addr(end);
    let inner: nat = if width >= s.len() + e.len() + 2 { (width - (s.len() + e.len() + 2)) as nat } else { 0 };
    spec_dim(s) + seq![' '] + spec_dim(dots(inner)) + seq![' '] + spec_dim(e)
}

/// The address line under a region's bar.
pub fn addr_line(start: u64, end: u64, width: usize) -> (r: String)
    ensures
        r@ == spec_addr_line(start as nat, end as nat, width as nat),
{
    let mut s = String::new();
    push_str(&mut s, "0x");
    proof {
        reveal_strlit("0x");
    }
    crate::text::push_hex(&mut s, start);
    let mut e = String::new();
    push_str(&mut e, "0x");
    crate::text::push_hex(&mut e, end);
    let s_chars = crate::text::str_chars(s.as_str());
    let e_chars = crate::text::str_chars(e.as_str());
    assert(s@ =~= spec_hex_addr(start as nat));
    assert(e@ =~= spec_hex_addr(end as nat));
    let used: u128 = s_chars.len() as u128 + e_chars.len() as u128 + 2;
    let inner: usize = if width as u128 >= used { (width as u128 - used) as usize } else { 0 };
    let mut d = String::new();
    let mut k: usize = 0;
    while k < inner
        invariant
            k <= inner,
            d@ == dots(k as nat),
        decreases inner - k,
    {
        push_char(&mut d, '\u{00b7}');
        k += 1;
        assert(d@ =~= dots(k as nat));
    }
    let mut out = dim(s.as_str());
    push_char(&mut out, ' ');
    let dd = dim(d.as_str());
    push_str(&mut out, dd.as_str());
    push_char(&mut out, ' ');
    let de = dim(e.as_str());
    push_str(&mut out, de.as_str());
    assert(out@ =~= spec_addr_line(start as nat, end as nat, width as nat));
    out
}

// ── Label overflow ───────────────────────────────────────────────────

/// The first label line: a space and the short owner name.
pub open spec fn label_name(owner: Seq<char>) -> Seq<char> {
    seq![' '] + spec_short(owner)
}

/// The second label line: a space and the size.
pub open spec fn label_size(size: nat) -> Seq<char> {
    seq![' '] + crate::sizes::spec_fmt_size(size)
}

/// Width (in bytes, as the labels are measured) of a segment's label.
pub open spec fn label_width(owner: Seq<char>, size: nat) -> nat {
    let a = vstd::utf8::encode_utf8(label_name(owner)).len();
    let b = vstd::utf8::encode_utf8(label_size(size)).len();
    if a >= b { a } else { b }
}

/// Column where a label starts: one left of its segment.
pub open spec fn label_col(left: int) -> int {
    if left >= 1 { left - 1 } else { 0 }
}

/// How far the label of the last segment would run past `w` columns.
pub open spec fn spec_rightmost_overflow(segs: Seq<Seg>, w: int) -> int {
    if segs.len() == 0 {
        0
    } else {
        let last = segs.len() - 1;
        let col = label_col(layout_left(segs, w, last));
        let end = col + label_width(segs[last].0@, segs[last].2 as nat);
        if end >= w { end - w } else { 0 }
    }
}

/// Build a segment's two label lines and their common width.
fn label_texts(owner: &str, size: u64) -> (r: (String, String, usize))
    ensures
        r.0@ == label_name(owner@),
        r.1@ == label_size(size as nat),
        r.2 as nat == label_width(owner@, size as nat),
{
    let mut name = String::new();
    push_char(&mut name, ' ');
    push_str(&mut name, short(owner));
    let mut sz = String::new();
    push_char(&mut sz, ' ');
    let f = crate::sizes::fmt_size(size);
    push_str(&mut sz, f.as_str());
    assert(name@ =~= label_name(owner@));
    assert(sz@ =~= label_size(size as nat));
    let a = name.as_str().as_bytes().len();
    let b = sz.as_str().as_bytes().len();
    let w = if a >= b { a } else { b };
    (name, sz, w)
}

/// How far the label of the region's last segment runs past `w` columns
/// (0 if it fits).
pub fn rightmost_overflow(segs: &[Seg], colors: &ColorMap, w: usize) -> (r: usize)
    requires
        layout_defined(segs@, w as int),
    ensures
        r as int == spec_rightmost_overflow(segs@, w as int),
{
    let layout = compute_layout(segs, colors, w);
    let n = layout.len();
    if n == 0 {
        return 0;
    }
    let last = &layout[n - 1];
    let (_, _, text_w) = label_texts(last.owner.as_str(), last.size);
    let col: usize = if last.left >= 1 { last.left - 1 } else { 0 };
    proof {
        law_layout_tiles_width(segs@, w as int);
        assert(col <= w);
    }
    let end: u128 = col as u128 + text_w as u128;
    if end >= w as u128 { (end - w as u128) as usize } else { 0 }
}

} // verus!

verus! {

// ── Bar rendering ────────────────────────────────────────────────────

/// Colour and lost-byte mark of half-column `px` once the entries have been
/// painted in order: each segment fills its half-columns and, if it lost
/// bytes, marks its last half-column.
pub open spec fn pixel(es: Seq<LayoutEntry>, px: int) -> (Rgb, bool)
    decreases es.len(),
{
    if es.len() == 0 {
        (spec_dark(), false)
    } else {
        let e = es.last();
        if e.lost > 0 && e.right > 0 && px == 2 * e.right - 1 {
            (e.color, true)
        } else if 2 * e.left <= px < 2 * e.right {
            (e.color, false)
        } else {
            pixel(es.drop_last(), px)
        }
    }
}

/// Character column `ch` of the bar: a left-half block whose two halves
/// show the two half-columns, lost bytes in red.
pub open spec fn bar_cell(es: Seq<LayoutEntry>, ch: int) -> Seq<char> {
    let (lc, l_lost) = pixel(es, 2 * ch);
    let (rc, r_lost) = pixel(es, 2 * ch + 1);
    if l_lost {
        spec_fgbg(spec_lost_color(), rc, seq!['\u{258c}'])
    } else if r_lost {
        spec_fgbg(lc, spec_lost_color(), seq!['\u{258c}'])
    } else {
        spec_fgbg(lc, rc, seq!['\u{258c}'])
    }
}

/// The first `k` columns of the bar.
pub open spec fn bar_text(es: Seq<LayoutEntry>, k: int) -> Seq<char>
    decreases k,
{
    if k <= 0 {
        Seq::empty()
    } else {
        bar_text(es, k - 1) + bar_cell(es, k - 1)
    }
}

/// Entries whose half-column arithmetic stays within `usize`.
pub open spec fn bar_defined(es: Seq<LayoutEntry>, width: int) -> bool {
    &&& 2 * width <= usize::MAX
    &&& forall|k: int|
        0 <= k < es.len() ==> 2 * (#[trigger] es[k]).right <= usize::MAX && 2 * es[k].left
            <= usize::MAX
}

/// Paint the half-columns of the bar.
fn paint(layout: &[LayoutEntry], width: usize) -> (pixels: Vec<(Rgb, bool)>)
    requires
        bar_defined(layout@, width as int),
    ensures
        pixels@.len() == 2 * width,
        forall|q: int| 0 <= q < 2 * width ==> #[trigger] pixels@[q] == pixel(layout@, q),
{
    let n = width * 2;
    let mut pixels: Vec<(Rgb, bool)> = Vec::new();
    while pixels.len() < n
        invariant
            pixels@.len() <= n,
            forall|q: int| 0 <= q < pixels@.len() ==> #[trigger] pixels@[q] == (spec_dark(), false),
        decreases n - pixels@.len(),
    {
        pixels.push(((18, 24, 32), false));
    }
    let mut k: usize = 0;
    assert(layout@.subrange(0, 0) =~= Seq::<LayoutEntry>::empty());
    while k < layout.len()
        invariant
            n == 2 * width,
            bar_defined(layout@, width as int),
            k <= layout@.len(),
            pixels@.len() == n,
            forall|q: int| 0 <= q < n ==> #[trigger] pixels@[q] == pixel(layout@.subrange(0, k as int), q),
        decreases layout.len() - k,
    {
        let e = &layout[k];
        let ghost prev = layout@.subrange(0, k as int);
        let ghost cur = layout@.subrange(0, k + 1);
        assert(cur.drop_last() =~= prev);
        assert(cur.last() == *e);
        assert(2 * e.right <= usize::MAX);
        let lo = e.left * 2;
        let hi = e.right * 2;
        let mut px = lo;
        while px < hi
            invariant
                n == 2 * width,
                pixels@.len() == n,
                lo == 2 * e.left,
                hi == 2 * e.right,
                px == lo || lo <= px <= hi,
                forall|q: int|
                    0 <= q < n ==> #[trigger] pixels@[q] == (if lo <= q < px {
                        (e.color, false)
                    } else {
                        pixel(prev, q)
                    }),
            decreases hi - px,
        {
            if px < pixels.len() {
                pixels.set(px, (e.color, false));
            }
            px += 1;
        }
        let ghost filled = pixels@;
        assert forall|q: int| 0 <= q < n implies #[trigger] filled[q] == (if 2 * e.left <= q < 2
            * e.right {
            (e.color, false)
        } else {
            pixel(prev, q)
        }) by {}
        if e.lost > 0 && e.right > 0 {
            let idx = e.right * 2 - 1;
            if idx < pixels.len() {
                pixels.set(idx, (e.color, true));
            }
        }
        assert forall|q: int| 0 <= q < n implies #[trigger] pixels@[q] == pixel(cur, q) by {
            assert(filled[q] == filled[q]);
            if e.lost > 0 && e.right > 0 && q == 2 * e.right - 1 {
            } else {
                assert(pixels@[q] == filled[q]);
            }
        }
        k += 1;
    }
    assert(layout@.subrange(0, k as int) =~= layout@);
    pixels
}

/// The bar row for a region (labels come from [`build_label_rows`]).
pub fn render_bar(layout: &[LayoutEntry], width: usize) -> (r: (String, Vec<String>))
    requires
        bar_defined(layout@, width as int),
        label_rows_defined(layout@, width as int),
    ensures
        r.0@ == bar_text(layout@, width as int),
        r.1@.len() == spec_label_rows(layout@, width as int).len(),
        forall|i: int| 0 <= i < r.1@.len() ==> (#[trigger] r.1@[i])@ == spec_label_rows(layout@, width as int)[i],
{
    let pixels = paint(layout, width);
    let mut bar = String::new();
    let mut ch: usize = 0;
    while ch < width
        invariant
            ch <= width,
            2 * width <= usize::MAX,
            pixels@.len() == 2 * width,
            forall|q: int| 0 <= q < 2 * width ==> #[trigger] pixels@[q] == pixel(layout@, q),
            bar@ == bar_text(layout@, ch as int),
        decreases width - ch,
    {
        let (lc, l_lost) = pixels[ch * 2];
        let (rc, r_lost) = pixels[ch * 2 + 1];
        let cell = if l_lost {
            fgbg((220, 50, 60), rc, "\u{258c}")
        } else if r_lost {
            fgbg(lc, (220, 50, 60), "\u{258c}")
        } else {
            fgbg(lc, rc, "\u{258c}")
        };
        proof {
            reveal_strlit("\u{258c}");
        }
        push_str(&mut bar, cell.as_str());
        ch += 1;
    }
    let label_rows = build_label_rows(layout, width);
    (bar, label_rows)
}

} // verus!

verus! {

// ── Label rows ───────────────────────────────────────────────────────

/// Where a segment's two-line label was put, and what it says (padded to
/// a common width).
pub struct PlacementView {
    pub row: int,
    pub col: int,
    pub name: Seq<char>,
    pub size: Seq<char>,
    pub color: Rgb,
}

/// Some span on `row` of `sp` (rows of `(row, start, end)`) meets `[s, e)`.
pub open spec fn overlaps(sp: Seq<(int, int, int)>, row: int, s: int, e: int) -> bool {
    exists|j: int| 0 <= j < sp.len() && (#[trigger] sp[j]).0 == row && s < sp[j].2 && e > sp[j].1
}

/// The first row at or after `r` (below 40) where both label lines fit.
pub open spec fn free_row(sp: Seq<(int, int, int)>, s: int, e: int, r: int) -> Option<int>
    decreases 40 - r,
{
    if r >= 40 || r < 0 {
        None
    } else if !overlaps(sp, r, s, e) && !overlaps(sp, r + 1, s, e) {
        Some(r)
    } else {
        free_row(sp, s, e, r + 1)
    }
}

/// `s` padded with spaces to `w` characters.
pub open spec fn pad_to(s: Seq<char>, w: int) -> Seq<char> {
    if s.len() < w {
        s + Seq::new((w - s.len()) as nat, |i: int| ' ')
    } else {
        s
    }
}

/// Where entry `i` goes among `o`, kept in descending base order with ties
/// in their original order: before the first entry with a smaller base.
pub open spec fn insert_pos(o: Seq<int>, es: Seq<LayoutEntry>, b: u64, j: int) -> int
    decreases o.len() - j,
{
    if j >= o.len() || j < 0 {
        o.len() as int
    } else if es[o[j]].base < b {
        j
    } else {
        insert_pos(o, es, b, j + 1)
    }
}

/// The first `k` entries' indices ordered by base, largest first, ties in
/// original order (a stable sort).
pub open spec fn by_base(es: Seq<LayoutEntry>, k: int) -> Seq<int>
    decreases k,
{
    if k <= 0 {
        Seq::empty()
    } else {
        let o = by_base(es, k - 1);
        o.insert(insert_pos(o, es, es[k - 1].base, 0), k - 1)
    }
}

/// Labels placed greedily for the entries in `order`, each on the first
/// row pair where it does not overlap an earlier label; and the spans taken.
pub open spec fn place(es: Seq<LayoutEntry>, order: Seq<int>) -> (Seq<PlacementView>, Seq<(int, int, int)>)
    decreases order.len(),
{
    if order.len() == 0 {
        (Seq::empty(), Seq::empty())
    } else {
        let (ps, sp) = place(es, order.drop_last());
        let e = es[order.last()];
        let col = label_col(e.left as int);
        let tw = label_width(e.owner@, e.size as nat) as int;
        match free_row(sp, col, col + tw, 0) {
            Some(r) => (
                ps.push(PlacementView {
                    row: r,
                    col: col,
                    name: pad_to(label_name(e.owner@), tw),
                    size: pad_to(label_size(e.size as nat), tw),
                    color: e.color,
                }),
                sp.push((r, col, col + tw)).push((r + 1, col, col + tw)),
            ),
            None => (ps, sp),
        }
    }
}

/// The label character written last at row `r`, column `i`.
pub open spec fn label_cell(ps: Seq<PlacementView>, r: int, i: int) -> Option<(char, Rgb)>
    decreases ps.len(),
{
    if ps.len() == 0 {
        None
    } else {
        let p = ps.last();
        if p.row == r && p.col <= i < p.col + p.name.len() {
            Some((p.name[i - p.col], p.color))
        } else if p.row + 1 == r && p.col <= i < p.col + p.size.len() {
            Some((p.size[i - p.col], p.color))
        } else {
            label_cell(ps.drop_last(), r, i)
        }
    }
}

/// The colour of the leader line drawn last through row `r`, column `i`.
pub open spec fn leader_cell(ps: Seq<PlacementView>, r: int, i: int) -> Option<Rgb>
    decreases ps.len(),
{
    if ps.len() == 0 {
        None
    } else {
        let p = ps.last();
        if r < p.row && p.col == i {
            Some(p.color)
        } else {
            leader_cell(ps.drop_last(), r, i)
        }
    }
}

/// What column `i` of label row `r` shows: a label character, else a
/// leader line, else a blank inside the bar's width.
pub open spec fn cell_text(ps: Seq<PlacementView>, width: int, r: int, i: int) -> Seq<char> {
    match label_cell(ps, r, i) {
        Some((ch, c)) => spec_fg(c, seq![ch]),
        None => match leader_cell(ps, r, i) {
            Some(c) => spec_fg(c, seq!['\u{2502}']),
            None => if i < width {
                seq![' ']
            } else {
                Seq::empty()
            },
        },
    }
}

/// The first `k` columns of label row `r`.
pub open spec fn row_text(ps: Seq<PlacementView>, width: int, r: int, k: int) -> Seq<char>
    decreases k,
{
    if k <= 0 {
        Seq::empty()
    } else {
        row_text(ps, width, r, k - 1) + cell_text(ps, width, r, k - 1)
    }
}

/// One more than the lowest label row used.
pub open spec fn max_row(ps: Seq<PlacementView>) -> int
    decreases ps.len(),
{
    if ps.len() == 0 {
        0
    } else {
        let m = max_row(ps.drop_last());
        if ps.last().row + 1 > m { ps.last().row + 1 } else { m }
    }
}

/// The label rows under a bar: each segment's name and size, placed from
/// the highest address down on the first free row, with leader lines up
/// to the bar; trailing blanks trimmed.
pub open spec fn spec_label_rows(es: Seq<LayoutEntry>, width: int) -> Seq<Seq<char>> {
    let ps = place(es, by_base(es, es.len() as int)).0;
    if ps.len() == 0 {
        Seq::empty()
    } else {
        Seq::new(
            (max_row(ps) + 1) as nat,
            |r: int| crate::monitor::trim_end(row_text(ps, width, r, width + 60)),
        )
    }
}

/// Widths for which the label arithmetic stays within `usize`.
pub open spec fn label_rows_defined(es: Seq<LayoutEntry>, width: int) -> bool {
    &&& width + 60 <= usize::MAX
    &&& forall|k: int|
        0 <= k < es.len() ==> label_col((#[trigger] es[k]).left as int) + label_width(
            es[k].owner@,
            es[k].size as nat,
        ) <= usize::MAX
}

struct LabelPlacement {
    row: usize,
    col: usize,
    name: Vec<char>,
    size_str: Vec<char>,
    color: Rgb,
}

spec fn placement_view(p: LabelPlacement) -> PlacementView {
    PlacementView { row: p.row as int, col: p.col as int, name: p.name@, size: p.size_str@, color: p.color }
}

spec fn placements_view(ps: Seq<LabelPlacement>) -> Seq<PlacementView> {
    Seq::new(ps.len(), |i: int| placement_view(ps[i]))
}

spec fn spans_view(sp: Seq<(usize, usize, usize)>) -> Seq<(int, int, int)> {
    Seq::new(sp.len(), |i: int| (sp[i].0 as int, sp[i].1 as int, sp[i].2 as int))
}

proof fn lemma_insert_pos_range(o: Seq<int>, es: Seq<LayoutEntry>, b: u64, j: int)
    requires
        0 <= j <= o.len(),
    ensures
        j <= insert_pos(o, es, b, j) <= o.len(),
    decreases o.len() - j,
{
    if j < o.len() && !(es[o[j]].base < b) {
        lemma_insert_pos_range(o, es, b, j + 1);
    }
}

proof fn lemma_by_base(es: Seq<LayoutEntry>, k: int)
    requires
        0 <= k <= es.len(),
    ensures
        by_base(es, k).len() == k,
        forall|m: int| 0 <= m < k ==> 0 <= #[trigger] by_base(es, k)[m] < k,
    decreases k,
{
    if k > 0 {
        lemma_by_base(es, k - 1);
        let o = by_base(es, k - 1);
        lemma_insert_pos_range(o, es, es[k - 1].base, 0);
        let p = insert_pos(o, es, es[k - 1].base, 0);
        assert forall|m: int| 0 <= m < k implies 0 <= #[trigger] by_base(es, k)[m] < k by {
            if m > p {
                assert(by_base(es, k)[m] == o[m - 1]);
            }
        }
    }
}

fn sort_by_base(layout: &[LayoutEntry]) -> (o: Vec<usize>)
    ensures
        o@.len() == layout@.len(),
        forall|i: int| 0 <= i < o@.len() ==> (#[trigger] o@[i]) as int == by_base(layout@, layout@.len() as int)[i],
{
    let mut order: Vec<usize> = Vec::new();
    let mut i: usize = 0;
    while i < layout.len()
        invariant
            i <= layout@.len(),
            order@.len() == by_base(layout@, i as int).len(),
            forall|k: int| 0 <= k < order@.len() ==> (#[trigger] order@[k]) as int == by_base(layout@, i as int)[k],
            forall|k: int| 0 <= k < order@.len() ==> (#[trigger] order@[k]) < i,
        decreases layout.len() - i,
    {
        let ghost o = by_base(layout@, i as int);
        let b = layout[i].base;
        let mut j: usize = 0;
        while j < order.len() && layout[order[j]].base >= b
            invariant
                j <= order@.len(),
                order@.len() == o.len(),
                forall|k: int| 0 <= k < order@.len() ==> (#[trigger] order@[k]) as int == o[k],
                forall|k: int| 0 <= k < order@.len() ==> (#[trigger] order@[k]) < i,
                i < layout@.len(),
                b == layout@[i as int].base,
                insert_pos(o, layout@, b, 0) == insert_pos(o, layout@, b, j as int),
            decreases order.len() - j,
        {
            j += 1;
        }
        assert(insert_pos(o, layout@, b, j as int) == j);
        order.insert(j, i);
        proof {
            let o2 = by_base(layout@, i + 1);
            assert(o2 == o.insert(j as int, i as int));
            assert forall|k: int| 0 <= k < order@.len() implies (#[trigger] order@[k]) as int == o2[k] by {
                if k < j {
                } else if k == j {
                } else {
                }
            }
        }
        i += 1;
    }
    proof {
        lemma_by_base(layout@, layout@.len() as int);
    }
    order
}

fn overlaps_exec(spans: &Vec<(usize, usize, usize)>, row: usize, s: usize, e: usize) -> (r: bool)
    ensures
        r == overlaps(spans_view(spans@), row as int, s as int, e as int),
{
    let mut j: usize = 0;
    while j < spans.len()
        invariant
            j <= spans@.len(),
            forall|k: int|
                0 <= k < j ==> !((#[trigger] spans@[k]).0 == row && s < spans@[k].2 && e > spans@[k].1),
        decreases spans.len() - j,
    {
        let sp = spans[j];
        if sp.0 == row && s < sp.2 && e > sp.1 {
            assert(spans_view(spans@)[j as int].0 == row);
            return true;
        }
        j += 1;
    }
    assert forall|k: int| 0 <= k < spans_view(spans@).len() implies !((#[trigger] spans_view(spans@)[k]).0
        == row && s < spans_view(spans@)[k].2 && e > spans_view(spans@)[k].1) by {
        assert(spans_view(spans@)[k].0 == spans@[k].0 as int);
    }
    false
}

/// Characters of `s` padded with spaces to `w` characters.
fn padded_chars(s: &str, w: usize) -> (r: Vec<char>)
    ensures
        r@ == pad_to(s@, w as int),
{
    let mut v = crate::text::str_chars(s);
    let ghost orig = v@;
    while v.len() < w
        invariant
            orig == s@,
            v@.len() >= orig.len(),
            orig.len() >= w ==> v@.len() == orig.len(),
            orig.len() < w ==> v@.len() <= w,
            v@ == orig + Seq::new((v@.len() - orig.len()) as nat, |i: int| ' '),
        decreases w - v.len(),
    {
        v.push(' ');
        assert(v@ =~= orig + Seq::new((v@.len() - orig.len()) as nat, |i: int| ' '));
    }
    proof {
        if orig.len() >= w {
            assert(v@ =~= orig);
        }
    }
    assert(v@ =~= pad_to(s@, w as int));
    v
}

fn find_label(ps: &Vec<LabelPlacement>, r: usize, i: usize) -> (c: Option<(char, Rgb)>)
    requires
        forall|m: int| 0 <= m < ps@.len() ==> (#[trigger] ps@[m]).row < 40,
    ensures
        c == label_cell(placements_view(ps@), r as int, i as int),
{
    let ghost pv = placements_view(ps@);
    let mut k: usize = ps.len();
    assert(pv.subrange(0, k as int) =~= pv);
    while k > 0
        invariant
            k <= ps@.len(),
            pv == placements_view(ps@),
            forall|m: int| 0 <= m < ps@.len() ==> (#[trigger] ps@[m]).row < 40,
            label_cell(pv, r as int, i as int) == label_cell(pv.subrange(0, k as int), r as int, i as int),
        decreases k,
    {
        let p = &ps[k - 1];
        let ghost sub = pv.subrange(0, k as int);
        assert(sub.last() == placement_view(*p));
        assert(sub.drop_last() =~= pv.subrange(0, k - 1));
        if p.row == r && p.col <= i && i - p.col < p.name.len() {
            return Some((p.name[i - p.col], p.color));
        }
        if p.row + 1 == r && p.col <= i && i - p.col < p.size_str.len() {
            return Some((p.size_str[i - p.col], p.color));
        }
        k -= 1;
    }
    None
}

fn find_leader(ps: &Vec<LabelPlacement>, r: usize, i: usize) -> (c: Option<Rgb>)
    ensures
        c == leader_cell(placements_view(ps@), r as int, i as int),
{
    let ghost pv = placements_view(ps@);
    let mut k: usize = ps.len();
    assert(pv.subrange(0, k as int) =~= pv);
    while k > 0
        invariant
            k <= ps@.len(),
            pv == placements_view(ps@),
            leader_cell(pv, r as int, i as int) == leader_cell(pv.subrange(0, k as int), r as int, i as int),
        decreases k,
    {
        let p = &ps[k - 1];
        let ghost sub = pv.subrange(0, k as int);
        assert(sub.last() == placement_view(*p));
        assert(sub.drop_last() =~= pv.subrange(0, k - 1));
        if r < p.row && p.col == i {
            return Some(p.color);
        }
        k -= 1;
    }
    None
}

/// The label rows under a bar (see [`spec_label_rows`]).
pub fn build_label_rows(layout: &[LayoutEntry], width: usize) -> (rows: Vec<String>)
    requires
        label_rows_defined(layout@, width as int),
    ensures
        rows@.len() == spec_label_rows(layout@, width as int).len(),
        forall|i: int| 0 <= i < rows@.len() ==> (#[trigger] rows@[i])@ == spec_label_rows(layout@, width as int)[i],
{
    let ghost es = layout@;
    let order = sort_by_base(layout);
    let ghost ov = by_base(es, es.len() as int);
    proof {
        lemma_by_base(es, es.len() as int);
    }
    let mut placements: Vec<LabelPlacement> = Vec::new();
    let mut spans: Vec<(usize, usize, usize)> = Vec::new();
    let mut k: usize = 0;
    assert(ov.subrange(0, 0) =~= Seq::<int>::empty());
    while k < order.len()
        invariant
            es == layout@,
            order@.len() == ov.len(),
            ov.len() == es.len(),
            forall|m: int| 0 <= m < order@.len() ==> (#[trigger] order@[m]) as int == ov[m],
            forall|m: int| 0 <= m < ov.len() ==> 0 <= #[trigger] ov[m] < es.len(),
            label_rows_defined(es, width as int),
            k <= order@.len(),
            placements_view(placements@) == place(es, ov.subrange(0, k as int)).0,
            spans_view(spans@) == place(es, ov.subrange(0, k as int)).1,
            forall|m: int| 0 <= m < placements@.len() ==> (#[trigger] placements@[m]).row < 40,
        decreases order.len() - k,
    {
        let idx = order[k];
        let e = &layout[idx];
        let ghost pre = ov.subrange(0, k as int);
        assert(ov.subrange(0, k + 1).drop_last() =~= pre);
        assert(ov.subrange(0, k + 1).last() == idx as int);
        let (name, size_str, text_w) = label_texts(e.owner.as_str(), e.size);
        let col: usize = if e.left >= 1 { e.left - 1 } else { 0 };
        assert(col + text_w <= usize::MAX);
        let end = col + text_w;
        let mut row: usize = 0;
        let mut found = false;
        let ghost sp0 = spans_view(spans@);
        while !found && row < 40
            invariant
                row <= 40,
                sp0 == spans_view(spans@),
                found ==> row < 40,
                free_row(sp0, col as int, end as int, 0) == (if found {
                    Some(row as int)
                } else {
                    free_row(sp0, col as int, end as int, row as int)
                }),
            decreases 40 - row + (if found { 0int } else { 1int }),
        {
            if !overlaps_exec(&spans, row, col, end) && !overlaps_exec(&spans, row + 1, col, end) {
                found = true;
            } else {
                row += 1;
            }
        }
        if found {
            assert(free_row(sp0, col as int, end as int, 0) == Some(row as int));
            let name_chars = padded_chars(name.as_str(), text_w);
            let size_chars = padded_chars(size_str.as_str(), text_w);
            let ghost pv0 = placements_view(placements@);
            placements.push(LabelPlacement { row, col, name: name_chars, size_str: size_chars, color: e.color });
            assert(placements_view(placements@) =~= pv0.push(placement_view(placements@.last())));
            let ghost spv0 = spans_view(spans@);
            spans.push((row, col, end));
            spans.push((row + 1, col, end));
            assert(spans_view(spans@) =~= spv0.push((row as int, col as int, end as int)).push((row + 1, col as int, end as int)));
        } else {
            assert(free_row(sp0, col as int, end as int, 0) is None);
        }
        k += 1;
    }
    assert(ov.subrange(0, k as int) =~= ov);
    let mut rows: Vec<String> = Vec::new();
    if placements.len() == 0 {
        return rows;
    }
    let ghost pv = placements_view(placements@);
    // Lowest row used.
    let mut max_r: usize = 0;
    let mut m: usize = 0;
    assert(pv.subrange(0, 0) =~= Seq::<PlacementView>::empty());
    while m < placements.len()
        invariant
            pv == placements_view(placements@),
            m <= placements@.len(),
            max_r as int == max_row(pv.subrange(0, m as int)),
            max_r <= 40,
            forall|q: int| 0 <= q < placements@.len() ==> (#[trigger] placements@[q]).row < 40,
        decreases placements.len() - m,
    {
        assert(pv.subrange(0, m + 1).drop_last() =~= pv.subrange(0, m as int));
        assert(pv.subrange(0, m + 1).last() == placement_view(placements@[m as int]));
        let cand = placements[m].row + 1;
        if cand > max_r {
            max_r = cand;
        }
        m += 1;
    }
    assert(pv.subrange(0, m as int) =~= pv);
    let w2 = width + 60;
    let mut r: usize = 0;
    while r <= max_r
        invariant
            pv == placements_view(placements@),
            pv == place(es, ov).0,
            ov == by_base(es, es.len() as int),
            forall|m: int| 0 <= m < placements@.len() ==> (#[trigger] placements@[m]).row < 40,
            pv.len() > 0,
            max_r as int == max_row(pv),
            max_r <= 40,
            w2 == width + 60,
            r <= max_r + 1,
            rows@.len() == r,
            forall|q: int| 0 <= q < r ==> (#[trigger] rows@[q])@ == spec_label_rows(es, width as int)[q],
        decreases max_r + 1 - r,
    {
        let mut line = String::new();
        let mut i: usize = 0;
        while i < w2
            invariant
                pv == placements_view(placements@),
                forall|m: int| 0 <= m < placements@.len() ==> (#[trigger] placements@[m]).row < 40,
                i <= w2,
                line@ == row_text(pv, width as int, r as int, i as int),
            decreases w2 - i,
        {
            match find_label(&placements, r, i) {
                Some((ch, c)) => {
                    let mut one = String::new();
                    push_char(&mut one, ch);
                    let piece = fg(c, one.as_str());
                    push_str(&mut line, piece.as_str());
                    assert(one@ =~= seq![ch]);
                },
                None => match find_leader(&placements, r, i) {
                    Some(c) => {
                        let piece = fg(c, "\u{2502}");
                        proof {
                            reveal_strlit("\u{2502}");
                        }
                        push_str(&mut line, piece.as_str());
                    },
                    None => {
                        if i < width {
                            push_char(&mut line, ' ');
                        }
                    },
                },
            }
            assert(line@ =~= row_text(pv, width as int, r as int, i + 1));
            i += 1;
        }
        let trimmed = crate::monitor::trim_end_str(line.as_str());
        let owned = trimmed.to_owned();
        assert(spec_label_rows(es, width as int)[r as int] == crate::monitor::trim_end(
            row_text(pv, width as int, r as int, w2 as int),
        ));
        let ghost rows0 = rows@;
        rows.push(owned);
        assert forall|q: int| 0 <= q < r + 1 implies (#[trigger] rows@[q])@ == spec_label_rows(
            es,
            width as int,
        )[q] by {
            if q < r {
                assert(rows@[q] == rows0[q]);
            }
        }
        r += 1;
    }
    rows
}

} // verus!
