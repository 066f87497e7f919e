//! Human-readable byte counts, rounded the way one-decimal float formatting
//! rounds them: to the nearest tenth, halves to the even tenth.

use vstd::prelude::*;

use crate::text::{decimal, push_char, push_decimal, push_str};

verus! {

/// `num / den` rounded to the nearest integer, halves to even.
pub open spec fn round_half_even(num: nat, den: nat) -> nat {
    let q = num / den;
    let r = num % den;
    if 2 * r > den {
        q + 1
    } else if 2 * r < den {
        q
    } else if q % 2 == 0 {
        q
    } else {
        q + 1
    }
}

/// `num / den` rounded to the nearest integer, halves to even.
pub fn div_round_half_even(num: u128, den: u128) -> (r: u128)
    requires
        den > 0,
        num < 0xffff_ffff_ffff_ffff_ffff_ffff_ffff_ffff,
    ensures
        r as nat == round_half_even(num as nat, den as nat),
{
    let q = num / den;
    let rem = num % den;
    assert(q <= num) by (nonlinear_arith)
        requires
            q == num / den,
            den > 0,
    ;
    if rem > den - rem {
        q + 1
    } else if rem < den - rem {
        q
    } else if q % 2 == 0 {
        q
    } else {
        q + 1
    }
}

/// A count of tenths written with one decimal, e.g. `12.5`.
pub open spec fn tenths_text(t: nat) -> Seq<char> {
    decimal(t / 10) + seq!['.'] + decimal(t % 10)
}

fn push_tenths(out: &mut String, t: u64)
    ensures
        final(out)@ == old(out)@ + tenths_text(t as nat),
{
    push_decimal(out, t / 10);
    push_char(out, '.');
    push_decimal(out, t % 10);
    assert(final(out)@ =~= old(out)@ + tenths_text(t as nat));
}

/// Tenths of `n / unit`, rounded.
pub open spec fn tenths_of(n: nat, unit: nat) -> nat {
    round_half_even(10 * n, unit)
}

fn tenths(n: u64, unit: u64) -> (t: u64)
    requires
        unit >= 1024,
    ensures
        t as nat == tenths_of(n as nat, unit as nat),
{
    let num: u128 = 10 * (n as u128);
    let t = div_round_half_even(num, unit as u128);
    assert(t <= num / (unit as u128) + 1);
    assert(num / (unit as u128) <= num / 1024) by (nonlinear_arith)
        requires
            unit >= 1024,
            num >= 0,
    ;
    t as u64
}

/// Bytes as `N B`, `X.Y KiB` or `X.Y MiB`.
pub open spec fn spec_human_size(bytes: nat) -> Seq<char> {
    if bytes >= 1024 * 1024 {
        tenths_text(tenths_of(bytes, 1024 * 1024)) + " MiB"@
    } else if bytes >= 1024 {
        tenths_text(tenths_of(bytes, 1024)) + " KiB"@
    } else {
        decimal(bytes) + " B"@
    }
}

/// Bytes as `N B`, `X.Y KiB` or `X.Y MiB`.
pub fn human_size(bytes: u64) -> (s: String)
    ensures
        s@ == spec_human_size(bytes as nat),
{
    let mut out = String::new();
    if bytes >= 1024 * 1024 {
        push_tenths(&mut out, tenths(bytes, 1024 * 1024));
        push_str(&mut out, " MiB");
    } else if bytes >= 1024 {
        push_tenths(&mut out, tenths(bytes, 1024));
        push_str(&mut out, " KiB");
    } else {
        push_decimal(&mut out, bytes);
        push_str(&mut out, " B");
    }
    assert(out@ =~= spec_human_size(bytes as nat));
    out
}

/// Bytes as shown on the firmware status panel (same form as [`human_size`]).
pub fn format_size(bytes: u64) -> (s: String)
    ensures
        s@ == spec_human_size(bytes as nat),
{
    human_size(bytes)
}

/// Bytes as `N B` or `X.Y KiB` (memory map labels).
pub open spec fn spec_fmt_size(n: nat) -> Seq<char> {
    if n >= 1024 {
        tenths_text(tenths_of(n, 1024)) + " KiB"@
    } else {
        decimal(n) + " B"@
    }
}

/// Bytes as `N B` or `X.Y KiB` (memory map labels).
pub fn fmt_size(n: u64) -> (s: String)
    ensures
        s@ == spec_fmt_size(n as nat),
{
    let mut out = String::new();
    if n >= 1024 {
        push_tenths(&mut out, tenths(n, 1024));
        push_str(&mut out, " KiB");
    } else {
        push_decimal(&mut out, n);
        push_str(&mut out, " B");
    }
    assert(out@ =~= spec_fmt_size(n as nat));
    out
}

/// Bytes per bar character: `~N KiB/char` (whole KiB, rounded) or `~N B/char`.
pub open spec fn spec_fmt_bpc(n: nat) -> Seq<char> {
    if n >= 1024 {
        seq!['~'] + decimal(round_half_even(n, 1024)) + " KiB/char"@
    } else {
        seq!['~'] + decimal(n) + " B/char"@
    }
}

/// Bytes per bar character: `~N KiB/char` (whole KiB, rounded) or `~N B/char`.
pub fn fmt_bpc(n: u64) -> (s: String)
    ensures
        s@ == spec_fmt_bpc(n as nat),
{
    let mut out = String::new();
    push_char(&mut out, '~');
    if n >= 1024 {
        let k = div_round_half_even(n as u128, 1024);
        assert(k <= (n as u128) / 1024 + 1);
        push_decimal(&mut out, k as u64);
        push_str(&mut out, " KiB/char");
    } else {
        push_decimal(&mut out, n);
        push_str(&mut out, " B/char");
    }
    assert(out@ =~= spec_fmt_bpc(n as nat));
    out
}

} // verus!
