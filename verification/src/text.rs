//! Small string-building helpers shared by the formatting code.

use vstd::prelude::*;
use vstd::string::StrSliceExecFns;

verus! {

/// Appends one `char` to a `String` (std's `String::push`).
#[verifier::external_body]
pub(crate) fn push_char(s: &mut String, c: char)
    ensures
        final(s)@ == old(s)@.push(c),
{
    s.push(c);
}

/// Appends a string slice to a `String`.
pub(crate) fn push_str(s: &mut String, t: &str)
    ensures
        final(s)@ == old(s)@ + t@,
{
    s.append(t);
}

/// The character spelling a nibble in lower-case hexadecimal.
pub open spec fn hex_char(n: int) -> char {
    if n < 10 {
        (('0' as int) + n) as char
    } else {
        (('a' as int) + n - 10) as char
    }
}

/// Lower-case hex digit for a value below 16.
pub fn hex_digit(n: u8) -> (c: char)
    requires
        n < 16,
    ensures
        c == hex_char(n as int),
{
    if n < 10 {
        ((0x30u8 + n) as char)
    } else {
        ((0x61u8 + n - 10) as char)
    }
}

/// Decimal spelling of a natural number, without leading zeros (`"0"` for zero).
pub open spec fn decimal(n: nat) -> Seq<char>
    decreases n,
{
    if n < 10 {
        seq![(('0' as int) + n) as char]
    } else {
        decimal(n / 10).push((('0' as int) + (n % 10)) as char)
    }
}

/// Appends the decimal spelling of `n`.
pub fn push_decimal(s: &mut String, n: u64)
    ensures
        final(s)@ == old(s)@ + decimal(n as nat),
    decreases n,
{
    if n >= 10 {
        push_decimal(s, n / 10);
    }
    let d: u8 = (n % 10) as u8;
    push_char(s, (0x30u8 + d) as char);
    proof {
        assert(final(s)@ =~= old(s)@ + decimal(n as nat)) by {
            if n >= 10 {
                assert(decimal(n as nat) == decimal((n / 10) as nat).push(
                    (('0' as int) + (n % 10)) as char,
                ));
            }
        }
    }
}

/// Appends the decimal spelling of a 128-bit `n`.
pub fn push_decimal_u128(s: &mut String, n: u128)
    ensures
        final(s)@ == old(s)@ + decimal(n as nat),
    decreases n,
{
    if n >= 10 {
        push_decimal_u128(s, n / 10);
    }
    let d: u8 = (n % 10) as u8;
    push_char(s, (0x30u8 + d) as char);
    proof {
        assert(final(s)@ =~= old(s)@ + decimal(n as nat)) by {
            if n >= 10 {
                assert(decimal(n as nat) == decimal((n / 10) as nat).push(
                    (('0' as int) + (n % 10)) as char,
                ));
            }
        }
    }
}

/// Decimal spelling of an integer: a minus sign before a negative one.
pub open spec fn signed_decimal(n: int) -> Seq<char> {
    if n < 0 {
        seq!['-'] + decimal((-n) as nat)
    } else {
        decimal(n as nat)
    }
}

/// Appends the decimal spelling of a signed 128-bit `n`.
pub fn push_signed_decimal(s: &mut String, n: i128)
    ensures
        final(s)@ == old(s)@ + signed_decimal(n as int),
{
    if n < 0 {
        push_char(s, '-');
        let m: u128 = (-(n + 1)) as u128 + 1;
        push_decimal_u128(s, m);
        assert(final(s)@ =~= old(s)@ + signed_decimal(n as int));
    } else {
        push_decimal_u128(s, n as u128);
    }
}

/// The number a string of decimal digits spells, most significant first.
pub open spec fn digits_value(s: Seq<char>) -> int
    decreases s.len(),
{
    if s.len() == 0 {
        0
    } else {
        10 * digits_value(s.drop_last()) + (s.last() as int - '0' as int)
    }
}

/// One or more ASCII decimal digits.
pub open spec fn all_digits(s: Seq<char>) -> bool {
    s.len() > 0 && forall|i: int| 0 <= i < s.len() ==> '0' <= #[trigger] s[i] <= '9'
}

/// The number an optionally signed decimal text spells.
pub open spec fn signed_value(s: Seq<char>) -> int {
    if s.len() > 0 && s[0] == '-' {
        -digits_value(s.drop_first())
    } else {
        digits_value(s)
    }
}

proof fn lemma_decimal_reads_back(n: nat)
    ensures
        all_digits(decimal(n)),
        digits_value(decimal(n)) == n,
        decimal(n)[0] != '-',
    decreases n,
{
    if n >= 10 {
        lemma_decimal_reads_back(n / 10);
        let d = decimal(n);
        assert(d.drop_last() == decimal(n / 10));
        assert(10 * (n / 10) + n % 10 == n) by (nonlinear_arith);
        assert(d.last() == (('0' as int) + (n % 10)) as char);
        assert(d.last() as int == '0' as int + n % 10);
        assert(digits_value(d) == 10 * digits_value(d.drop_last()) + (d.last() as int - '0' as int));
        assert forall|i: int| 0 <= i < d.len() implies '0' <= #[trigger] d[i] <= '9' by {
            if i < d.len() - 1 {
                assert(d[i] == decimal(n / 10)[i]);
            }
        }
    } else {
        let d = decimal(n);
        assert(d.drop_last().len() == 0);
        assert(digits_value(d.drop_last()) == 0);
        assert(d.last() as int == '0' as int + n);
        assert(digits_value(d) == 10 * digits_value(d.drop_last()) + (d.last() as int - '0' as int));
    }
}

/// The text printed for a signed number is its ordinary decimal spelling:
/// digits only for a number at or above zero, a `-` and the digits of its
/// magnitude below zero, so that it reads back as the number.
pub proof fn law_signed_decimal_reads_back(n: int)
    ensures
        signed_value(signed_decimal(n)) == n,
        n >= 0 ==> all_digits(signed_decimal(n)),
        n < 0 ==> signed_decimal(n)[0] == '-' && all_digits(signed_decimal(n).drop_first()),
{
    if n < 0 {
        lemma_decimal_reads_back((-n) as nat);
        assert((seq!['-'] + decimal((-n) as nat)).drop_first() =~= decimal((-n) as nat));
    } else {
        lemma_decimal_reads_back(n as nat);
    }
}

/// Number of characters in the decimal spelling of `n`.
pub proof fn lemma_decimal_len(n: nat)
    ensures
        decimal(n).len() >= 1,
        n < 10 ==> decimal(n).len() == 1,
        n >= 10 ==> decimal(n).len() == decimal(n / 10).len() + 1,
    decreases n,
{
    if n >= 10 {
        lemma_decimal_len(n / 10);
    }
}

/// Upper-case ASCII letter test.
pub open spec fn is_ascii_alpha(b: u8) -> bool {
    (0x41 <= b <= 0x5a) || (0x61 <= b <= 0x7a)
}

/// `u8::is_ascii_alphabetic`.
pub fn ascii_alpha(b: u8) -> (r: bool)
    ensures
        r == is_ascii_alpha(b),
{
    (0x41 <= b && b <= 0x5a) || (0x61 <= b && b <= 0x7a)
}

/// Whether `prefix` is a prefix of `s`.
pub open spec fn seq_starts_with<T>(s: Seq<T>, prefix: Seq<T>) -> bool {
    prefix.len() <= s.len() && s.subrange(0, prefix.len() as int) == prefix
}

/// Byte-wise prefix test.
pub fn bytes_start_with(s: &[u8], prefix: &[u8]) -> (r: bool)
    ensures
        r == seq_starts_with(s@, prefix@),
{
    if prefix.len() > s.len() {
        return false;
    }
    let mut i: usize = 0;
    while i < prefix.len()
        invariant
            prefix.len() <= s.len(),
            i <= prefix.len(),
            forall|j: int| 0 <= j < i ==> s@[j] == prefix@[j],
        decreases prefix.len() - i,
    {
        if s[i] != prefix[i] {
            assert(s@.subrange(0, prefix.len() as int)[i as int] != prefix@[i as int]);
            return false;
        }
        i = i + 1;
    }
    assert(s@.subrange(0, prefix.len() as int) =~= prefix@);
    true
}

/// Byte-wise equality of two slices.
pub fn bytes_eq(a: &[u8], b: &[u8]) -> (r: bool)
    ensures
        r == (a@ == b@),
{
    if a.len() != b.len() {
        return false;
    }
    let mut i: usize = 0;
    while i < a.len()
        invariant
            a.len() == b.len(),
            i <= a.len(),
            forall|j: int| 0 <= j < i ==> a@[j] == b@[j],
        decreases a.len() - i,
    {
        if a[i] != b[i] {
            return false;
        }
        i = i + 1;
    }
    assert(a@ =~= b@);
    true
}

/// Character-wise equality of two string slices.
pub fn str_eq(a: &str, b: &str) -> (r: bool)
    ensures
        r == (a@ == b@),
{
    let ab = a.as_bytes();
    let bb = b.as_bytes();
    proof {
        vstd::utf8::encode_utf8_decode_utf8(a@);
        vstd::utf8::encode_utf8_decode_utf8(b@);
    }
    bytes_eq(ab, bb)
}

/// Whether the characters of `p` stand in `cs` from position `at` on.
fn chars_at(cs: &Vec<char>, at: usize, p: &Vec<char>) -> (r: bool)
    requires
        at + p@.len() <= cs@.len(),
    ensures
        r == (cs@.subrange(at as int, at + p@.len()) == p@),
{
    let n = cs.len();
    let mut i: usize = 0;
    while i < p.len()
        invariant
            n == cs@.len(),
            at + p@.len() <= cs@.len(),
            i <= p@.len(),
            forall|k: int| 0 <= k < i ==> cs@[at + k] == #[trigger] p@[k],
        decreases p.len() - i,
    {
        if cs[at + i] != p[i] {
            assert(cs@.subrange(at as int, at + p@.len())[i as int] != p@[i as int]);
            return false;
        }
        i += 1;
    }
    assert(cs@.subrange(at as int, at + p@.len()) =~= p@);
    true
}

/// The rest of `s` after `p`, if `s` starts with `p` (what
/// `str::strip_prefix` gives).
pub(crate) fn strip_prefix_str<'a>(s: &'a str, p: &str) -> (r: Option<&'a str>)
    ensures
        crate::text::seq_starts_with(s@, p@) ==> r is Some && r->0@ == s@.subrange(
            p@.len() as int,
            s@.len() as int,
        ),
        !crate::text::seq_starts_with(s@, p@) ==> r is None,
{
    let cs = str_chars(s);
    let ps = str_chars(p);
    if ps.len() > cs.len() || !chars_at(&cs, 0, &ps) {
        return None;
    }
    Some(s.substring_char(ps.len(), cs.len()))
}

/// `s` before `p`, if `s` ends with `p` (what `str::strip_suffix` gives).
pub(crate) fn strip_suffix_str<'a>(s: &'a str, p: &str) -> (r: Option<&'a str>)
    ensures
        ends_with(s@, p@) ==> r is Some && r->0@ == s@.subrange(0, s@.len() - p@.len()),
        !ends_with(s@, p@) ==> r is None,
{
    let cs = str_chars(s);
    let ps = str_chars(p);
    if ps.len() > cs.len() || !chars_at(&cs, cs.len() - ps.len(), &ps) {
        return None;
    }
    Some(s.substring_char(0, cs.len() - ps.len()))
}

/// Whether `p` is a suffix of `s`.
pub open spec fn ends_with(s: Seq<char>, p: Seq<char>) -> bool {
    p.len() <= s.len() && s.subrange(s.len() - p.len(), s.len() as int) == p
}

} // verus!

verus! {

/// The characters of a string slice.
pub fn str_chars(s: &str) -> (r: Vec<char>)
    ensures
        r@ == s@,
{
    let mut out: Vec<char> = Vec::new();
    let mut it = s.chars();
    proof {
        vstd::string::axiom_spec_iter(s);
    }
    let ghost total = s@;
    loop
        invariant
            vstd::std_specs::iter::IteratorSpec::remaining(&it) == total.subrange(out@.len() as int, total.len() as int),
            out@ == total.subrange(0, out@.len() as int),
            out@.len() <= total.len(),
            total == s@,
        ensures
            out@ == s@,
        decreases total.len() - out@.len(),
    {
        let ghost before = it;
        match it.next() {
            Some(c) => {
                proof {
                    vstd::string::next_postcondition(&before, &it, Some(c));
                }
                out.push(c);
            },
            None => {
                proof {
                    vstd::string::next_postcondition(&before, &it, None);
                    assert(out@ =~= total);
                }
                break;
            },
        }
    }
    out
}

} // verus!

verus! {

/// Lower-case hex spelling of a natural number, without leading zeros.
pub open spec fn hex_digits(n: nat) -> Seq<char>
    decreases n,
{
    if n < 16 {
        seq![hex_char(n as int)]
    } else {
        hex_digits(n / 16).push(hex_char((n % 16) as int))
    }
}

/// Appends the lower-case hex spelling of `n`.
pub fn push_hex(s: &mut String, n: u64)
    ensures
        final(s)@ == old(s)@ + hex_digits(n as nat),
    decreases n,
{
    if n >= 16 {
        push_hex(s, n / 16);
    }
    let d: u8 = (n % 16) as u8;
    push_char(s, hex_digit(d));
    proof {
        assert(final(s)@ =~= old(s)@ + hex_digits(n as nat));
    }
}




} // verus!
