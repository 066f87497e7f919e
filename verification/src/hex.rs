//! Hexadecimal text the device prints on its serial lines: tick prefixes,
//! `hello uid=… build=…` announcements and chip UIDs.

use vstd::prelude::*;
use vstd::utf8::*;
use vstd::string::StringSliceAdditionalSpecFns;

use crate::ids::ChipUid;
use crate::text::{hex_char, hex_digit, push_char, seq_starts_with, bytes_start_with};

verus! {

/// Value of an ASCII hex digit, either case.
pub open spec fn hex_val(c: u8) -> Option<u8> {
    if 0x30 <= c <= 0x39 {
        Some((c - 0x30) as u8)
    } else if 0x61 <= c <= 0x66 {
        Some((c - 0x61 + 10) as u8)
    } else if 0x41 <= c <= 0x46 {
        Some((c - 0x41 + 10) as u8)
    } else {
        None
    }
}

/// Every byte of `s` is an ASCII hex digit.
pub open spec fn all_hex(s: Seq<u8>) -> bool {
    forall|i: int| 0 <= i < s.len() ==> (#[trigger] hex_val(s[i])) is Some
}

/// The byte spelled by the two hex digits at `s[2 * i]` and `s[2 * i + 1]`.
pub open spec fn hex_pair(s: Seq<u8>, i: int) -> u8 {
    (hex_val(s[2 * i])->0 * 16 + hex_val(s[2 * i + 1])->0) as u8
}

/// Decoding of exactly 32 hex digits into 16 bytes.
pub open spec fn spec_parse_hex16(s: Seq<u8>) -> Option<Seq<u8>> {
    if s.len() == 32 && all_hex(s) {
        Some(Seq::new(16, |i: int| hex_pair(s, i)))
    } else {
        None
    }
}

/// Big-endian value of a run of hex digits.
pub open spec fn hex_number(s: Seq<u8>) -> nat
    decreases s.len(),
{
    if s.len() == 0 {
        0
    } else {
        hex_number(s.drop_last()) * 16 + (hex_val(s.last())->0 as nat)
    }
}

/// Lower-case hex spelling of a byte string, two digits per byte.
pub open spec fn hex_encode(b: Seq<u8>) -> Seq<char> {
    Seq::new(
        2 * b.len(),
        |i: int|
            if i % 2 == 0 {
                hex_char((b[i / 2] / 16) as int)
            } else {
                hex_char((b[i / 2] % 16) as int)
            },
    )
}

/// Parse a single ASCII hex digit — returns `None` for any non-hex byte.
pub fn hex_nibble(c: u8) -> (r: Option<u8>)
    ensures
        r == hex_val(c),
{
    if 0x30u8 <= c && c <= 0x39u8 {
        Some(c - 0x30u8)
    } else if 0x61u8 <= c && c <= 0x66u8 {
        Some(c - 0x61u8 + 10)
    } else if 0x41u8 <= c && c <= 0x46u8 {
        Some(c - 0x41u8 + 10)
    } else {
        None
    }
}

/// Decode 32 ASCII hex chars into 16 bytes, lowercase or uppercase.
pub fn parse_hex16(s: &[u8]) -> (r: Option<[u8; 16]>)
    ensures
        r is Some <==> spec_parse_hex16(s@) is Some,
        r matches Some(a) ==> a@ == spec_parse_hex16(s@)->0,
{
    if s.len() != 32 {
        return None;
    }
    let mut out = [0u8; 16];
    let mut i: usize = 0;
    while i < 16
        invariant
            s@.len() == 32,
            i <= 16,
            forall|j: int| 0 <= j < 2 * i ==> (#[trigger] hex_val(s@[j])) is Some,
            forall|j: int| 0 <= j < i ==> out@[j] == #[trigger] hex_pair(s@, j),
        decreases 16 - i,
    {
        let hi = match hex_nibble(s[i * 2]) {
            Some(v) => v,
            None => {
                assert(!all_hex(s@));
                return None;
            },
        };
        let lo = match hex_nibble(s[i * 2 + 1]) {
            Some(v) => v,
            None => {
                assert(!all_hex(s@));
                return None;
            },
        };
        assert(hi < 16 && lo < 16);
        out[i] = hi * 16 + lo;
        i = i + 1;
    }
    assert(all_hex(s@));
    assert(out@ =~= Seq::new(16, |k: int| hex_pair(s@, k)));
    Some(out)
}

/// The `hello` announcement: `hello uid=` + 32 hex digits + ` build=` + 32 hex digits.
pub open spec fn spec_parse_hello(b: Seq<u8>) -> Option<(Seq<u8>, Seq<u8>)> {
    if b.len() == 10 + 32 + 7 + 32 && seq_starts_with(b, hello_prefix()) && b.subrange(42, 49)
        == build_marker() {
        match (spec_parse_hex16(b.subrange(10, 42)), spec_parse_hex16(b.subrange(49, 81))) {
            (Some(u), Some(f)) => Some((u, f)),
            _ => None,
        }
    } else {
        None
    }
}

/// Bytes of `hello uid=`.
pub open spec fn hello_prefix() -> Seq<u8> {
    seq![0x68u8, 0x65, 0x6c, 0x6c, 0x6f, 0x20, 0x75, 0x69, 0x64, 0x3d]
}

/// Bytes of ` build=`.
pub open spec fn build_marker() -> Seq<u8> {
    seq![0x20u8, 0x62, 0x75, 0x69, 0x6c, 0x64, 0x3d]
}

/// The inputs on which the announcement parser cuts the line inside a
/// multi-byte character (the line starts with `hello uid=`, has at least 32
/// further bytes, and byte 42 continues a character).
pub open spec fn hello_cut_mid_char(b: Seq<u8>) -> bool {
    seq_starts_with(b, hello_prefix()) && b.len() >= 42 && (b.len() > 42
        && is_continuation_byte(b[42]))
}

/// Parse a `hello uid=<32hex> build=<32hex>` line as emitted by the
/// supervisor in response to a USART2 MoshiMoshi.
/// Returns `(uid, firmware_id)` on a successful match.
pub fn parse_hello_line(line: &str) -> (r: Option<([u8; 16], [u8; 16])>)
    requires
        !hello_cut_mid_char(line.spec_bytes()),
    ensures
        r is Some <==> spec_parse_hello(line.spec_bytes()) is Some,
        r matches Some((u, f)) ==> (u@, f@) == spec_parse_hello(line.spec_bytes())->0,
{
    let b = line.as_bytes();
    let prefix: [u8; 10] = [0x68, 0x65, 0x6c, 0x6c, 0x6f, 0x20, 0x75, 0x69, 0x64, 0x3d];
    let marker: [u8; 7] = [0x20, 0x62, 0x75, 0x69, 0x6c, 0x64, 0x3d];
    assert(prefix@ =~= hello_prefix());
    assert(marker@ =~= build_marker());
    if !bytes_start_with(b, prefix.as_slice()) {
        return None;
    }
    if b.len() < 42 {
        return None;
    }
    if b.len() != 81 {
        return None;
    }
    let uid_hex = vstd::slice::slice_subrange(b, 10, 42);
    let build_tag = vstd::slice::slice_subrange(b, 42, 49);
    if !crate::text::bytes_eq(build_tag, marker.as_slice()) {
        return None;
    }
    let build_hex = vstd::slice::slice_subrange(b, 49, 81);
    let uid = match parse_hex16(uid_hex) {
        Some(u) => u,
        None => return None,
    };
    let build = match parse_hex16(build_hex) {
        Some(f) => f,
        None => return None,
    };
    Some((uid, build))
}

/// A `T<16 hex digits> ` tick prefix.
pub open spec fn has_tick_prefix(b: Seq<u8>) -> bool {
    b.len() >= 18 && b[0] == 0x54u8 && b[17] == 0x20u8 && all_hex(b.subrange(1, 17))
}

/// Parse the `T<16 hex digits> ` tick prefix emitted by the supervisor.
/// Returns `(Some(tick), stripped_text)` on success, or `(None, original)` if
/// the line doesn't carry a tick prefix.
pub fn parse_tick_prefix(line: &str) -> (r: (Option<u64>, String))
    ensures
        has_tick_prefix(line.spec_bytes()) ==> {
            &&& r.0 == Some(hex_number(line.spec_bytes().subrange(1, 17)) as u64)
            &&& encode_utf8(r.1@) == line.spec_bytes().subrange(18, line.spec_bytes().len() as int)
        },
        !has_tick_prefix(line.spec_bytes()) ==> r.0 is None && r.1@ == line@,
{
    let bytes = line.as_bytes();
    if bytes.len() >= 18 && bytes[0] == 0x54u8 && bytes[17] == 0x20u8 {
        let mut tick: u64 = 0;
        let mut i: usize = 1;
        while i < 17
            invariant
                bytes@ == line.spec_bytes(),
                bytes@.len() >= 18,
                1 <= i <= 17,
                all_hex(bytes@.subrange(1, i as int)),
                tick as nat == hex_number(bytes@.subrange(1, i as int)),
                (tick as nat) < pow16((i - 1) as nat),
            decreases 17 - i,
        {
            let b = bytes[i];
            let nib = match hex_nibble(b) {
                Some(n) => n,
                None => {
                    proof {
                        assert(bytes@.subrange(1, 17)[i - 1] == b);
                    }
                    return (None, line.to_owned());
                },
            };
            proof {
                lemma_pow16_step((i - 1) as nat);
                lemma_pow16_bound((i - 1) as nat);
                assert(bytes@.subrange(1, i + 1).drop_last() =~= bytes@.subrange(1, i as int));
                assert(bytes@.subrange(1, i + 1).last() == b);
            }
            tick = tick * 16 + nib as u64;
            i = i + 1;
            proof {
                assert forall|j: int| 0 <= j < bytes@.subrange(1, i as int).len() implies (
                #[trigger] hex_val(bytes@.subrange(1, i as int)[j])) is Some by {
                    if j < i - 2 {
                        assert(bytes@.subrange(1, i as int)[j] == bytes@.subrange(
                            1,
                            (i - 1) as int,
                        )[j]);
                    }
                }
            }
        }
        proof {
            encode_utf8_valid_utf8(line@);
            is_char_boundary_iff_is_leading_byte(bytes@, 17);
            lemma_boundary_after_ascii(bytes@, 17);
        }
        let (_, rest) = split_str(line, 18);
        (Some(tick), rest.to_owned())
    } else {
        (None, line.to_owned())
    }
}

/// `str::split_at`, at a byte index on a character boundary.
fn split_str(line: &str, mid: usize) -> (r: (&str, &str))
    requires
        is_char_boundary(line.spec_bytes(), mid as int),
    ensures
        r.0.spec_bytes() == line.spec_bytes().subrange(0, mid as int),
        r.1.spec_bytes() == line.spec_bytes().subrange(mid as int, line.spec_bytes().len() as int),
{
    line.split_at(mid)
}

/// In valid UTF-8, the byte after an ASCII byte that starts a character
/// starts a character too.
proof fn lemma_boundary_after_ascii(b: Seq<u8>, i: int)
    requires
        valid_utf8(b),
        0 <= i < b.len(),
        is_char_boundary(b, i),
        b[i] < 0x80,
    ensures
        is_char_boundary(b, i + 1),
    decreases b.len(),
{
    reveal_with_fuel(is_char_boundary, 2);
    if i > 0 {
        let l = length_of_first_scalar(b);
        let p = pop_first_scalar(b);
        assert(p.len() < b.len());
        assert(p[i - l] == b[i]);
        lemma_boundary_after_ascii(p, i - l);
    }
}

/// Powers of sixteen.
pub open spec fn pow16(n: nat) -> nat
    decreases n,
{
    if n == 0 {
        1
    } else {
        16 * pow16((n - 1) as nat)
    }
}

proof fn lemma_pow16_step(n: nat)
    ensures
        pow16(n + 1) == 16 * pow16(n),
{
}

proof fn lemma_pow16_mono(a: nat, b: nat)
    requires
        a <= b,
    ensures
        pow16(a) <= pow16(b),
    decreases b,
{
    if a < b {
        lemma_pow16_mono(a, (b - 1) as nat);
    }
}

proof fn lemma_pow16_bound(n: nat)
    requires
        n <= 15,
    ensures
        16 * pow16(n) <= 0x1_0000_0000_0000_0000,
{
    lemma_pow16_mono(n, 15);
    reveal_with_fuel(pow16, 16);
    assert(pow16(15) == 0x1000_0000_0000_0000);
}

/// Decoding of a chip UID string: exactly 32 characters, each pair of which
/// is a hex byte.
pub open spec fn spec_parse_chip_uid(s: Seq<char>) -> Option<Seq<u8>> {
    spec_parse_hex16(encode_utf8(s))
}

/// Parse a chip UID from its USB serial string (32 hex chars, byte order
/// matching `ChipUid`'s hex spelling). Returns `None` on bad input.
pub fn parse_chip_uid(serial: &str) -> (r: Option<ChipUid>)
    ensures
        r is Some <==> spec_parse_chip_uid(serial@) is Some,
        r matches Some(u) ==> u.0@ == spec_parse_chip_uid(serial@)->0,
{
    match parse_hex16(serial.as_bytes()) {
        Some(b) => Some(ChipUid(b)),
        None => None,
    }
}

/// Lower-case hex spelling of 16 bytes (32 characters).
pub fn hex16(data: &[u8; 16]) -> (s: String)
    ensures
        s@ == hex_encode(data@),
{
    let mut s = String::new();
    let mut i: usize = 0;
    while i < 16
        invariant
            i <= 16,
            s@ == hex_encode(data@.subrange(0, i as int)),
        decreases 16 - i,
    {
        let b = data[i];
        push_char(&mut s, hex_digit(b / 16));
        push_char(&mut s, hex_digit(b % 16));
        proof {
            assert(s@ =~= hex_encode(data@.subrange(0, i + 1)));
        }
        i = i + 1;
    }
    assert(data@.subrange(0, 16) =~= data@);
    s
}

impl ChipUid {
    /// The UID as 32 lower-case hex digits (its display form).
    pub fn to_hex_string(&self) -> (s: String)
        ensures
            s@ == hex_encode(self.0@),
    {
        hex16(&self.0)
    }
}

/// Spelling a UID and parsing it back gives the same UID.
pub proof fn lemma_chip_uid_round_trip(u: ChipUid)
    ensures
        spec_parse_chip_uid(hex_encode(u.0@)) == Some(u.0@),
{
    let h = hex_encode(u.0@);
    lemma_encode_hex_ascii(h);
    let b = encode_utf8(h);
    assert(b.len() == 32);
    assert forall|i: int| 0 <= i < 32 implies (#[trigger] hex_val(b[i])) is Some && hex_val(b[i])->0
        == (if i % 2 == 0 {
        u.0@[i / 2] / 16
    } else {
        u.0@[i / 2] % 16
    }) by {}
    assert(spec_parse_hex16(b)->0 =~= u.0@) by {
        assert forall|k: int| 0 <= k < 16 implies hex_pair(b, k) == u.0@[k] by {
            assert(hex_val(b[2 * k])->0 == u.0@[(2 * k) / 2] / 16);
            assert(hex_val(b[2 * k + 1])->0 == u.0@[(2 * k + 1) / 2] % 16);
            assert((2 * k) / 2 == k);
            assert((2 * k + 1) / 2 == k);
        }
    }
}

/// Lower-case hex characters encode to themselves as single bytes.
proof fn lemma_encode_hex_ascii(h: Seq<char>)
    requires
        forall|i: int| 0 <= i < h.len() ==> #[trigger] (h[i] as u32) < 0x80,
    ensures
        encode_utf8(h).len() == h.len(),
        forall|i: int| 0 <= i < h.len() ==> #[trigger] encode_utf8(h)[i] == (h[i] as u32) as u8,
    decreases h.len(),
{
    if h.len() > 0 {
        let rest = h.drop_first();
        assert forall|i: int| 0 <= i < rest.len() implies #[trigger] (rest[i] as u32) < 0x80 by {
            assert(rest[i] == h[i + 1]);
        }
        lemma_encode_hex_ascii(rest);
        let c = h[0] as u32;
        assert(c < 0x80);
        assert(c < 0x80 ==> (c & 0x7f) == c) by (bit_vector);
        assert(has_width_1_encoding(c));
        assert(leading_byte_width_1(c) == c as u8);
        assert(encode_scalar(c) =~= seq![c as u8]);
        assert(encode_utf8(h) == encode_scalar(c) + encode_utf8(rest));
        assert forall|i: int| 0 <= i < h.len() implies #[trigger] encode_utf8(h)[i] == (h[i]
            as u32) as u8 by {
            if i == 0 {
                assert(encode_utf8(h)[0] == c as u8);
            } else {
                assert(encode_utf8(h)[i] == encode_utf8(rest)[i - 1]);
                assert(rest[i - 1] == h[i]);
            }
        }
    }
}


proof fn lemma_ascii_bytes_ascii_chars(s: Seq<char>)
    requires
        forall|i: int| 0 <= i < encode_utf8(s).len() ==> #[trigger] encode_utf8(s)[i] < 0x80,
    ensures
        forall|i: int| 0 <= i < s.len() ==> #[trigger] (s[i] as u32) < 0x80,
    decreases s.len(),
{
    if s.len() > 0 {
        let c = s[0] as u32;
        let rest = s.drop_first();
        let e = encode_utf8(s);
        assert(e == encode_scalar(c) + encode_utf8(rest));
        if c >= 0x80 {
            let b0 = encode_scalar(c)[0];
            assert(e[0] == b0);
            if has_width_2_encoding(c) {
                let y = ((c >> 6) & 0x1F) as u8;
                assert((0xC0u8 | y) >= 0xC0) by (bit_vector);
            } else if has_width_3_encoding(c) {
                let y = ((c >> 12) & 0x0F) as u8;
                assert((0xE0u8 | y) >= 0xC0) by (bit_vector);
            } else {
                let y = ((c >> 18) & 0x7) as u8;
                assert((0xF0u8 | y) >= 0xC0) by (bit_vector);
            }
            assert(false);
        }
        assert(encode_scalar(c).len() == 1);
        assert forall|i: int| 0 <= i < encode_utf8(rest).len() implies #[trigger] encode_utf8(rest)[i] < 0x80 by {
            assert(encode_utf8(rest)[i] == e[i + 1]);
        }
        lemma_ascii_bytes_ascii_chars(rest);
        assert forall|i: int| 0 <= i < s.len() implies #[trigger] (s[i] as u32) < 0x80 by {
            if i > 0 {
                assert(s[i] == rest[i - 1]);
            }
        }
    }
}

proof fn lemma_hex_digit_lower(c: char)
    requires
        (c as u32) < 0x80,
        hex_val((c as u32) as u8) is Some,
    ensures
        hex_char(hex_val((c as u32) as u8)->0 as int) == (if 'A' <= c <= 'Z' {
            ((c as int) + 32) as char
        } else {
            c
        }),
{
    let v = c as u32;
    assert(v < 0x80 ==> (v as u8) as u32 == v) by (bit_vector);
    let x = v as u8;
    assert(x as int == c as int);
}

/// A text with its ASCII capital letters made small.
pub open spec fn ascii_lower(s: Seq<char>) -> Seq<char> {
    Seq::new(s.len(), |i: int| if 'A' <= s[i] <= 'Z' { ((s[i] as int) + 32) as char } else { s[i] })
}

/// A chip UID read from a serial string is spelled back as that string in
/// lower case.
pub proof fn law_chip_uid_spelling(s: Seq<char>)
    requires
        spec_parse_chip_uid(s) is Some,
    ensures
        hex_encode(spec_parse_chip_uid(s)->0) == ascii_lower(s),
{
    let b = encode_utf8(s);
    let u = spec_parse_chip_uid(s)->0;
    assert forall|i: int| 0 <= i < b.len() implies #[trigger] b[i] < 0x80 by {
        assert(hex_val(b[i]) is Some);
    }
    lemma_ascii_bytes_ascii_chars(s);
    lemma_encode_hex_ascii(s);
    assert(s.len() == 32);
    let h = hex_encode(u);
    assert forall|i: int| 0 <= i < 32 implies #[trigger] h[i] == ascii_lower(s)[i] by {
        let k = i / 2;
        assert(0 <= k < 16);
        assert(hex_val(b[2 * k]) is Some && hex_val(b[2 * k + 1]) is Some);
        let hi = hex_val(b[2 * k])->0;
        let lo = hex_val(b[2 * k + 1])->0;
        assert(u[k] == hex_pair(b, k));
        assert(u[k] / 16 == hi && u[k] % 16 == lo);
        assert(b[i] == (s[i] as u32) as u8);
        lemma_hex_digit_lower(s[i]);
        if i % 2 == 0 {
            assert(i == 2 * k);
        } else {
            assert(i == 2 * k + 1);
        }
    }
    assert(h =~= ascii_lower(s));
}

/// The byte spelling hex digit `n` (`0`-`9`, then `a`-`f` or `A`-`F`).
pub open spec fn hex_digit_byte(n: nat, upper: bool) -> u8 {
    if n < 10 {
        (0x30 + n) as u8
    } else if upper {
        (0x41 + n - 10) as u8
    } else {
        (0x61 + n - 10) as u8
    }
}

/// `t` written with exactly `n` hex digits, zero-padded (as `{:016x}` or
/// `{:016X}` writes a tick).
pub open spec fn hex_digits_fixed(t: nat, n: nat, upper: bool) -> Seq<u8>
    decreases n,
{
    if n == 0 {
        Seq::empty()
    } else {
        hex_digits_fixed(t / 16, (n - 1) as nat, upper).push(hex_digit_byte(t % 16, upper))
    }
}

proof fn lemma_hex_digits_fixed(t: nat, n: nat, upper: bool)
    requires
        t < pow16(n),
    ensures
        hex_digits_fixed(t, n, upper).len() == n,
        all_hex(hex_digits_fixed(t, n, upper)),
        hex_number(hex_digits_fixed(t, n, upper)) == t,
    decreases n,
{
    if n > 0 {
        lemma_pow16_step((n - 1) as nat);
        assert(t / 16 < pow16((n - 1) as nat)) by (nonlinear_arith)
            requires
                t < pow16(n),
                pow16(n) == 16 * pow16((n - 1) as nat),
        ;
        lemma_hex_digits_fixed(t / 16, (n - 1) as nat, upper);
        let d = hex_digits_fixed(t, n, upper);
        let pre = hex_digits_fixed(t / 16, (n - 1) as nat, upper);
        assert(d.drop_last() =~= pre);
        assert(hex_val(hex_digit_byte(t % 16, upper)) == Some((t % 16) as u8));
        assert forall|i: int| 0 <= i < d.len() implies (#[trigger] hex_val(d[i])) is Some by {
            if i < pre.len() {
                assert(d[i] == pre[i]);
            }
        }
        assert(t == (t / 16) * 16 + t % 16);
    } else {
        assert(t == 0);
    }
}

/// A tick written as `T`, sixteen hex digits (either case) and a space,
/// then the text, is read back as that tick and that text.
pub proof fn law_tick_prefix_round_trip(t: u64, upper: bool, rest: Seq<u8>)
    ensures
        ({
            let line = seq![0x54u8] + hex_digits_fixed(t as nat, 16, upper) + seq![0x20u8] + rest;
            &&& has_tick_prefix(line)
            &&& hex_number(line.subrange(1, 17)) == t
            &&& line.subrange(18, line.len() as int) == rest
        }),
{
    assert(pow16(16) == 0x1_0000_0000_0000_0000) by {
        reveal_with_fuel(pow16, 17);
    }
    lemma_hex_digits_fixed(t as nat, 16, upper);
    let d = hex_digits_fixed(t as nat, 16, upper);
    let line = seq![0x54u8] + d + seq![0x20u8] + rest;
    assert(line.subrange(1, 17) =~= d);
    assert(line.subrange(18, line.len() as int) =~= rest);
    assert(line[17] == 0x20u8);
}

/// Sixteen bytes spelled as 32 hex digits in either case, two per byte.
pub open spec fn hex16_spelling(d: Seq<u8>, upper: bool) -> Seq<u8> {
    Seq::new(
        32,
        |i: int|
            if i % 2 == 0 {
                hex_digit_byte((d[i / 2] / 16) as nat, upper)
            } else {
                hex_digit_byte((d[i / 2] % 16) as nat, upper)
            },
    )
}

/// Sixteen bytes spelled in hex, lower or upper case, decode back to
/// themselves.
pub proof fn law_hex16_round_trip(d: Seq<u8>, upper: bool)
    requires
        d.len() == 16,
    ensures
        spec_parse_hex16(hex16_spelling(d, upper)) == Some(d),
{
    let b = hex16_spelling(d, upper);
    assert forall|i: int| 0 <= i < 32 implies (#[trigger] hex_val(b[i])) is Some && hex_val(b[i])->0 == (if i % 2
        == 0 {
        d[i / 2] / 16
    } else {
        d[i / 2] % 16
    }) by {}
    assert(all_hex(b));
    assert forall|k: int| 0 <= k < 16 implies #[trigger] hex_pair(b, k) == d[k] by {
        assert((2 * k) % 2 == 0 && (2 * k) / 2 == k);
        assert((2 * k + 1) % 2 == 1 && (2 * k + 1) / 2 == k);
        assert(d[k] == (d[k] / 16) * 16 + d[k] % 16);
    }
    assert(Seq::new(16, |i: int| hex_pair(b, i)) =~= d);
}
} // verus!
