use billion_rows::scan::{calculate_local_offset, find_next_line, find_slow};
use billion_rows::swar::{find_char_in_rawdata, find_in_rawdata, first_flagged_byte, load_word};

fn padded(text: &[u8]) -> Vec<u8> {
    let mut v = text.to_vec();
    v.extend_from_slice(&[b'x'; 64]);
    v
}

#[test]
fn semicolon_flags_mark_first_semicolon() {
    let data = padded(b"Hamburg;12.0\nBulawayo;8.9\n");
    let raw = load_word(&data, 0);
    let flags = find_in_rawdata(raw);
    assert_ne!(flags, 0);
    assert_eq!(first_flagged_byte(flags), 7);
}

#[test]
fn no_semicolon_gives_no_flag() {
    let data = padded(b"abcdefghijklmnop;");
    let raw = load_word(&data, 0);
    assert_eq!(find_in_rawdata(raw), 0);
}

#[test]
fn semicolon_at_first_and_last_byte() {
    let data = padded(b";bcdefghijklmno;");
    assert_eq!(first_flagged_byte(find_in_rawdata(load_word(&data, 0))), 0);
    let data = padded(b"abcdefghijklmno;");
    assert_eq!(first_flagged_byte(find_in_rawdata(load_word(&data, 0))), 15);
}

#[test]
fn non_ascii_bytes_are_not_semicolons() {
    let data = padded("Zürich;ÄÖÜßéèà;".as_bytes());
    assert_eq!(first_flagged_byte(find_in_rawdata(load_word(&data, 0))), 7);
}

#[test]
fn newline_flags() {
    let data = padded(b"ab;1.0\ncd;2.0\nef");
    let raw = load_word(&data, 0);
    let flags = find_char_in_rawdata(raw, 0x0A0A0A0A0A0A0A0A0A0A0A0A0A0A0A0Au128);
    assert_eq!(first_flagged_byte(flags), 6);
}

#[test]
fn load_word_is_little_endian() {
    let data: Vec<u8> = (0u8..32).collect();
    let raw = load_word(&data, 3);
    let expected = u128::from_le_bytes(data[3..19].try_into().unwrap());
    assert_eq!(raw, expected);
}

#[test]
fn find_slow_finds_semicolon_blocks_away() {
    let name = b"A very long station name that spans blocks";
    let mut text = name.to_vec();
    text.extend_from_slice(b";1.0\n");
    let data = padded(&text);
    let (offset, len) = find_slow(&data, 16, 16);
    assert_eq!(len, name.len() + 1);
    assert_eq!(offset, 16 + 16 * ((name.len() - 16) / 16));
}

#[test]
fn find_next_line_counts_through_newline() {
    let data = padded(b"rest of a line;1.0\nNext;2.0\n");
    assert_eq!(find_next_line(&data, 0, 0), 19);
    assert_eq!(find_next_line(&data, 5, 7), 7 + 14);
}

#[test]
fn local_offset_at_start_is_zero() {
    let data = padded(b"abc;1.0\n");
    assert_eq!(calculate_local_offset(&data, 0), 0);
}

#[test]
fn local_offset_skips_to_next_line() {
    let data = padded(b"abc;1.0\nxyz;2.0\n");
    assert_eq!(calculate_local_offset(&data, 2), 6);
    assert_eq!(calculate_local_offset(&data, 7), 1);
}
