use rcard_host::hex::{hex16, parse_chip_uid, parse_hello_line, parse_hex16, parse_tick_prefix};
use rcard_host::ids::ChipUid;
use rcard_host::text::{push_decimal, push_decimal_u128, push_hex, push_signed_decimal, str_chars, str_eq};

#[test]
fn decimal_spellings() {
    let mut s = String::new();
    push_decimal(&mut s, 0);
    assert_eq!(s, "0");
    let mut s = String::from("n=");
    push_decimal(&mut s, 1234567890);
    assert_eq!(s, "n=1234567890");
    let mut s = String::new();
    push_decimal_u128(&mut s, u128::MAX);
    assert_eq!(s, u128::MAX.to_string());
    let mut s = String::new();
    push_signed_decimal(&mut s, i128::MIN);
    assert_eq!(s, i128::MIN.to_string());
    let mut s = String::new();
    push_signed_decimal(&mut s, -42);
    assert_eq!(s, "-42");
}

#[test]
fn hex_spelling_has_no_leading_zeros() {
    let mut s = String::new();
    push_hex(&mut s, 0);
    assert_eq!(s, "0");
    let mut s = String::new();
    push_hex(&mut s, 0xdead_beef);
    assert_eq!(s, "deadbeef");
}

#[test]
fn chars_and_equality() {
    assert_eq!(str_chars("aé😀"), vec!['a', 'é', '😀']);
    assert!(str_eq("abc", "abc"));
    assert!(!str_eq("abc", "abd"));
    assert!(!str_eq("ab", "abc"));
}

#[test]
fn hex16_round_trip() {
    let bytes: [u8; 16] = [0, 1, 2, 0x7f, 0x80, 0xff, 0x10, 0x20, 0xaa, 0xbb, 0xcc, 0xdd, 0xee, 0x01, 0x23, 0x45];
    let text = hex16(&bytes);
    assert_eq!(text, "0001027f80ff1020aabbccddee012345");
    assert_eq!(parse_hex16(text.as_bytes()), Some(bytes));
    let upper = text.to_uppercase();
    assert_eq!(parse_hex16(upper.as_bytes()), Some(bytes));
}

#[test]
fn hex16_rejects_bad_input() {
    assert_eq!(parse_hex16(b"0011"), None);
    assert_eq!(parse_hex16(b"zz01027f80ff1020aabbccddee012345"), None);
    assert_eq!(parse_hex16(b"0001027f80ff1020aabbccddee0123456"), None);
}

#[test]
fn chip_uid_display_and_parse() {
    let uid = ChipUid([0x12; 16]);
    let text = uid.to_hex_string();
    assert_eq!(text, "12".repeat(16));
    assert_eq!(parse_chip_uid(&text), Some(uid));
    assert_eq!(parse_chip_uid("not a uid"), None);
}

#[test]
fn hello_line_parses_uid_and_build() {
    let uid = "000102030405060708090a0b0c0d0e0f";
    let build = "ffeeddccbbaa99887766554433221100";
    let line = format!("hello uid={uid} build={build}");
    let (u, b) = parse_hello_line(&line).expect("hello line");
    assert_eq!(u, [0, 1, 2, 3, 4, 5, 6, 7, 8, 9, 10, 11, 12, 13, 14, 15]);
    assert_eq!(b[0], 0xff);
    assert_eq!(b[15], 0x00);
}

#[test]
fn hello_line_rejects_other_lines() {
    assert_eq!(parse_hello_line("hello"), None);
    assert_eq!(parse_hello_line("goodbye uid=000102030405060708090a0b0c0d0e0f build=ffeeddccbbaa99887766554433221100"), None);
    assert_eq!(parse_hello_line("hello uid=000102030405060708090a0b0c0d0e0f bxild=ffeeddccbbaa99887766554433221100"), None);
    assert_eq!(parse_hello_line("hello uid=0001020304050607080g0a0b0c0d0e0f build=ffeeddccbbaa99887766554433221100"), None);
}

#[test]
fn tick_prefix_is_stripped() {
    let (tick, rest) = parse_tick_prefix("T00000000000000ff hello");
    assert_eq!(tick, Some(255));
    assert_eq!(rest, "hello");
    let (tick, rest) = parse_tick_prefix("no tick here");
    assert_eq!(tick, None);
    assert_eq!(rest, "no tick here");
    let (tick, rest) = parse_tick_prefix("T00000000000000fg hello");
    assert_eq!(tick, None);
    assert_eq!(rest, "T00000000000000fg hello");
}
