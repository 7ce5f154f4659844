use hexfmt::{hex, HexFmt};

#[test]
fn empty_slice_produces_empty_string() {
    assert_eq!("", hex(&[]).lower_hex(0, 0));
}

#[test]
fn single_octet() {
    assert_eq!("01", hex(&[0x01]).lower_hex(0, 0));
}

#[test]
fn several_octets() {
    assert_eq!("01020f", hex(&[0x01, 0x02, 0x0f]).lower_hex(0, 0));
}

#[test]
fn uppercase_octet() {
    assert_eq!("FF", hex(&[0xff]).upper_hex(0, 0));
}

#[test]
fn breaks_between_lines_1() {
    assert_eq!("AA\nBB", hex(&[0xaa, 0xbb]).upper_hex(1, 0));
}

#[test]
fn four_octets_rowlimit_2_makes_2_lines() {
    assert_eq!("AABB\nCCDD", hex(&[0xaa, 0xbb, 0xcc, 0xdd]).upper_hex(2, 0));
}

#[test]
fn five_octets_rowlimit_2_makes_3_lines() {
    assert_eq!(
        "AABB\nCCDD\nEE",
        hex(&[0xaa, 0xbb, 0xcc, 0xdd, 0xee]).upper_hex(2, 0)
    );
}

#[test]
fn two_octets_grouplimit_1_makes_2_groups() {
    assert_eq!("11 22", hex(&[0x11, 0x22]).lower_hex(0, 1));
}

#[test]
fn five_octets_grouplimit_2_makes_3_groups() {
    assert_eq!("1122 3344 55", hex(&[0x11, 0x22, 0x33, 0x44, 0x55]).lower_hex(0, 2));
}

#[test]
fn groups_and_rows_play_nice() {
    assert_eq!(
        "1122 3344 55\na0b0 c0",
        hex(&[0x11, 0x22, 0x33, 0x44, 0x55, 0xa0, 0xb0, 0xc0]).lower_hex(5, 2)
    );
}

#[test]
fn flat_rendering_has_two_chars_per_byte() {
    let bytes = [0x00u8, 0x7f, 0x80, 0xff];
    let s = hex(&bytes).lower_hex(0, 0);
    assert_eq!(s.len(), 2 * bytes.len());
    assert_eq!("007f80ff", s);
}

#[test]
fn every_nibble_value_appears_zero_padded() {
    let bytes = [0x01u8, 0x23, 0x45, 0x67, 0x89, 0xab, 0xcd, 0xef];
    assert_eq!("0123456789abcdef", hex(&bytes).lower_hex(0, 0));
    assert_eq!("0123456789ABCDEF", hex(&bytes).upper_hex(0, 0));
}

#[test]
fn empty_input_is_empty_under_any_directives() {
    assert_eq!("", hex(&[]).lower_hex(0, 0));
    assert_eq!("", hex(&[]).upper_hex(0, 0));
    assert_eq!("", hex(&[]).lower_hex(3, 2));
    assert_eq!("", hex(&[]).upper_hex(1, 1));
}

#[test]
fn uppercase_is_lowercase_uppercased_with_same_separators() {
    let bytes = [0xde, 0xad, 0xbe, 0xef, 0x01, 0x9a, 0xfc];
    let lower = hex(&bytes).lower_hex(3, 2);
    let upper = hex(&bytes).upper_hex(3, 2);
    assert_eq!(lower.to_uppercase(), upper);
}

#[test]
fn row_breaks_fall_after_every_row_width_bytes() {
    let bytes = [0x10u8, 0x11, 0x12, 0x13, 0x14, 0x15, 0x16];
    let s = hex(&bytes).lower_hex(3, 0);
    assert_eq!("101112\n131415\n16", s);
}

#[test]
fn row_break_subsumes_group_break() {
    let bytes = [0x10u8, 0x11, 0x12, 0x13];
    let s = hex(&bytes).lower_hex(2, 2);
    assert_eq!("1011\n1213", s);
}

#[test]
fn group_counter_restarts_at_row_break() {
    let bytes = [0x01u8, 0x02, 0x03, 0x04, 0x05, 0x06];
    let s = hex(&bytes).lower_hex(3, 2);
    assert_eq!("0102 03\n0405 06", s);
}

#[test]
fn directives_larger_than_input_produce_no_separators() {
    let bytes = [0x01u8, 0x02, 0x03];
    assert_eq!("010203", hex(&bytes).lower_hex(10, 0));
    assert_eq!("010203", hex(&bytes).lower_hex(0, 7));
    assert_eq!("010203", hex(&bytes).lower_hex(10, 7));
}

#[test]
fn no_trailing_separator_when_last_byte_fills_a_row_or_group() {
    assert_eq!("0102", hex(&[0x01, 0x02]).lower_hex(2, 0));
    assert_eq!("0102", hex(&[0x01, 0x02]).lower_hex(0, 2));
}

#[test]
fn fmt_selects_the_digit_case() {
    let bytes = [0xabu8, 0xcd];
    assert_eq!(hex(&bytes).fmt(0, 0, false), "abcd");
    assert_eq!(hex(&bytes).fmt(0, 0, true), "ABCD");
    assert_eq!(hex(&bytes).fmt(1, 0, true), "AB\nCD");
}

#[test]
fn from_wraps_a_byte_slice() {
    let bytes = [0x5au8, 0xa5];
    let r = HexFmt::from(&bytes[..]);
    assert_eq!("5aa5", r.lower_hex(0, 0));
}

#[test]
fn text_viewed_as_bytes_renders_like_the_bytes() {
    let text = "OK";
    assert_eq!("4f4b", hex(text.as_bytes()).lower_hex(0, 0));
}
