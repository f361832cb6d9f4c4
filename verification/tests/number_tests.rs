use billion_rows::number::convert_into_number;

fn word(text: &[u8]) -> u64 {
    let mut bytes = [b'\n'; 8];
    bytes[..text.len()].copy_from_slice(text);
    u64::from_le_bytes(bytes)
}

#[test]
fn one_digit_before_the_point() {
    assert_eq!(convert_into_number(word(b"1.2\nAbc")), (12, 1));
}

#[test]
fn two_digits_before_the_point() {
    assert_eq!(convert_into_number(word(b"12.3\nAb")), (123, 2));
}

#[test]
fn negative_one_digit() {
    assert_eq!(convert_into_number(word(b"-4.5\nAb")), (-45, 2));
}

#[test]
fn negative_two_digits() {
    assert_eq!(convert_into_number(word(b"-99.9\nA")), (-999, 3));
}

#[test]
fn zero_values() {
    assert_eq!(convert_into_number(word(b"0.0\n")), (0, 1));
    assert_eq!(convert_into_number(word(b"-0.0\n")), (0, 2));
}

#[test]
fn every_two_digit_value_parses() {
    for v in 0..1000i32 {
        for neg in [false, true] {
            let text = format!("{}{}.{}\n", if neg { "-" } else { "" }, v / 10, v % 10);
            let (value, dot) = convert_into_number(word(text.as_bytes()));
            assert_eq!(value, if neg { -v } else { v }, "{}", text);
            assert_eq!(dot, text.find('.').unwrap());
        }
    }
}
