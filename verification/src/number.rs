use vstd::prelude::*;
use vstd::bytes::spec_u64_to_le_bytes_open;
use vstd::std_specs::bits::{u64_trailing_zeros, axiom_u64_trailing_zeros};

verus! {

pub open spec fn is_digit(b: u8) -> bool {
    48 <= b <= 57
}

pub open spec fn digit_value(b: u8) -> int {
    b - 48
}

/// Index of the first digit of the number text that starts at `p`.
pub open spec fn number_digits_start(s: Seq<u8>, p: int) -> int {
    if s[p] == 45u8 { p + 1 } else { p }
}

/// The text at `p` is a measurement in the short form: an optional `-`,
/// one or two digits, a `.`, and one digit.
pub open spec fn short_number_at(s: Seq<u8>, p: int) -> bool {
    let q = number_digits_start(s, p);
    &&& 0 <= p
    &&& q + 2 < s.len()
    &&& is_digit(s[q])
    &&& ((s[q + 1] == 46u8 && is_digit(s[q + 2])) || (q + 3 < s.len() && is_digit(s[q + 1])
        && s[q + 2] == 46u8 && is_digit(s[q + 3])))
}

/// Index of the `.` of a short number text starting at `p`.
pub open spec fn short_number_dot(s: Seq<u8>, p: int) -> int {
    let q = number_digits_start(s, p);
    if s[q + 1] == 46u8 { q + 1 } else { q + 2 }
}

/// Value in tenths of a short number text starting at `p`.
pub open spec fn short_number_value(s: Seq<u8>, p: int) -> int {
    let q = number_digits_start(s, p);
    let magnitude = if s[q + 1] == 46u8 {
        10 * digit_value(s[q]) + digit_value(s[q + 2])
    } else {
        100 * digit_value(s[q]) + 10 * digit_value(s[q + 1]) + digit_value(s[q + 3])
    };
    if s[p] == 45u8 { -magnitude } else { magnitude }
}

/// Parses the measurement at the start of the eight little-endian bytes of
/// `number_word` without branching on the digits: returns its value in
/// tenths and the offset of its decimal point.
pub fn convert_into_number(number_word: u64) -> (r: (i32, usize))
    requires
        short_number_at(spec_u64_to_le_bytes_open(number_word), 0),
    ensures
        r.0 as int == short_number_value(spec_u64_to_le_bytes_open(number_word), 0),
        r.1 as int == short_number_dot(spec_u64_to_le_bytes_open(number_word), 0),
{
    let w = number_word;
    let ghost bytes = spec_u64_to_le_bytes_open(w);
    let ghost b0 = (w & 0xff) as u8;
    let ghost b1 = ((w >> 8) & 0xff) as u8;
    let ghost b2 = ((w >> 16) & 0xff) as u8;
    let ghost b3 = ((w >> 24) & 0xff) as u8;
    let ghost b4 = ((w >> 32) & 0xff) as u8;
    assert(bytes[0] == b0 && bytes[1] == b1 && bytes[2] == b2 && bytes[3] == b3 && bytes[4] == b4);
    let ghost k: u64 = short_number_dot(bytes, 0) as u64;
    let probe = !w & 0x10101000u64;
    let ghost e: u64 = (8 * k + 4) as u64;
    proof {
        assert(b0 == 45u8 || is_digit(b0));
        assert(probe & (1u64 << e) != 0 && probe & (((1u64 << e) - 1) as u64) == 0)
            by (bit_vector)
            requires
                probe == !w & 0x10101000u64,
                b0 == (w & 0xff) as u8,
                b1 == ((w >> 8) & 0xff) as u8,
                b2 == ((w >> 16) & 0xff) as u8,
                b3 == ((w >> 24) & 0xff) as u8,
                1 <= k <= 3,
                e == 8 * k + 4,
                k == 1 ==> b1 == 46u8,
                k == 2 ==> b2 == 46u8 && 48 <= b1 <= 57,
                k == 3 ==> b3 == 46u8 && 48 <= b1 <= 57 && 48 <= b2 <= 57,
        ;
        axiom_u64_trailing_zeros(probe);
        let t = u64_trailing_zeros(probe) as u64;
        assert((probe >> e) & 1u64 == 1u64) by (bit_vector)
            requires
                probe & (1u64 << e) != 0,
                e < 64,
        ;
        if t < e {
            assert((probe >> t) & 1u64 == 0u64) by (bit_vector)
                requires
                    probe & (((1u64 << e) - 1) as u64) == 0,
                    t < e,
                    e < 64,
            ;
        }
        if t > e {
            assert((probe >> e) & 1u64 == 0u64);
        }
    }
    let decimal_sep_pos = probe.trailing_zeros();
    let shift = 28 - decimal_sep_pos;
    let signed = ((!w << 59u64) as i64) >> 63u64;
    let design_mask = !(signed & 0xFFi64);
    let digits = ((w & design_mask as u64) << shift) & 0x0F000F0F00u64;
    let tmp_value = (digits as u128) * (0x640a0001u64 as u128);
    let abs_value: i32 = ((tmp_value >> 32u128) as i32) & 0x3FFi32;
    assert(0 <= abs_value <= 0x3FF && (signed == 0 || signed == -1)) by (bit_vector)
        requires
            abs_value == ((tmp_value >> 32u128) as i32) & 0x3FFi32,
            signed == ((!w << 59u64) as i64) >> 63u64,
    ;
    assert(-1024 <= (abs_value ^ signed as i32) <= 1023) by (bit_vector)
        requires
            0 <= abs_value <= 0x3FF,
            signed == 0 || signed == -1,
    ;
    let value: i32 = (abs_value ^ signed as i32) - signed as i32;
    proof {
        assert({
            &&& (k == 1 ==> value == 10 * (b0 - 48) + (b2 - 48))
            &&& (k == 2 && b0 != 45u8 ==> value == 100 * (b0 - 48) + 10 * (b1 - 48) + (b3 - 48))
            &&& (k == 2 && b0 == 45u8 ==> value == -(10 * (b1 - 48) + (b3 - 48)))
            &&& (k == 3 ==> value == -(100 * (b1 - 48) + 10 * (b2 - 48) + (b4 - 48)))
        }) by (bit_vector)
            requires
                b0 == (w & 0xff) as u8,
                b1 == ((w >> 8) & 0xff) as u8,
                b2 == ((w >> 16) & 0xff) as u8,
                b3 == ((w >> 24) & 0xff) as u8,
                b4 == ((w >> 32) & 0xff) as u8,
                decimal_sep_pos == 8 * k + 4,
                shift == 28 - decimal_sep_pos,
                signed == ((!w << 59u64) as i64) >> 63u64,
                design_mask == !(signed & 0xFFi64),
                digits == ((w & design_mask as u64) << shift) & 0x0F000F0F00u64,
                tmp_value == (digits as u128) * (0x640a0001u64 as u128),
                abs_value == ((tmp_value >> 32u128) as i32) & 0x3FFi32,
                value == (abs_value ^ signed as i32) - signed as i32,
                1 <= k <= 3,
                b0 == 45u8 || 48 <= b0 <= 57,
                k == 1 ==> 48 <= b0 <= 57 && b1 == 46u8 && 48 <= b2 <= 57,
                k == 2 && b0 != 45u8 ==> 48 <= b1 <= 57 && b2 == 46u8 && 48 <= b3 <= 57,
                k == 2 && b0 == 45u8 ==> 48 <= b1 <= 57 && b2 == 46u8 && 48 <= b3 <= 57,
                k == 3 ==> b0 == 45u8 && 48 <= b1 <= 57 && 48 <= b2 <= 57 && b3 == 46u8
                    && 48 <= b4 <= 57,
        ;
    }
    assert(decimal_sep_pos >> 3u32 == k) by (bit_vector)
        requires
            decimal_sep_pos == 8 * k + 4,
            1 <= k <= 3,
    ;
    (value, (decimal_sep_pos >> 3u32) as usize)
}

} // verus!
