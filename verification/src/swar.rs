use vstd::prelude::*;
use vstd::bytes::{spec_u64_to_le_bytes, spec_u64_to_le_bytes_to_open,
    u64_from_le_bytes, lemma_auto_spec_u64_to_from_le_bytes};
use vstd::slice::slice_subrange;
use vstd::std_specs::bits::{u64_trailing_zeros, axiom_u64_trailing_zeros};

verus! {

/// `;` in every byte.
pub const DELIMITER_MASK: u128 = 0x3B3B_3B3B_3B3B_3B3B_3B3B_3B3B_3B3B_3B3Bu128;

/// `\n` in every byte.
pub const DELIMITER_MASK_CR: u128 = 0x0A0A_0A0A_0A0A_0A0A_0A0A_0A0A_0A0A_0A0Au128;

/// One in every byte.
pub const SUB_MASK1: u128 = 0x0101_0101_0101_0101_0101_0101_0101_0101u128;

/// The high bit of every byte.
pub const SUB_MASK2: u128 = 0x8080_8080_8080_8080_8080_8080_8080_8080u128;

/// Byte `i` (little-endian) of a sixteen-byte word.
pub open spec fn byte_at(x: u128, i: int) -> u8 {
    ((x >> ((8 * i) as u128)) & 0xffu128) as u8
}

/// The sixteen bytes of a word, least significant first.
pub open spec fn word_bytes(x: u128) -> Seq<u8> {
    seq![
        byte_at(x, 0),
        byte_at(x, 1),
        byte_at(x, 2),
        byte_at(x, 3),
        byte_at(x, 4),
        byte_at(x, 5),
        byte_at(x, 6),
        byte_at(x, 7),
        byte_at(x, 8),
        byte_at(x, 9),
        byte_at(x, 10),
        byte_at(x, 11),
        byte_at(x, 12),
        byte_at(x, 13),
        byte_at(x, 14),
        byte_at(x, 15),
    ]
}

/// A word with the byte `d` in each of its sixteen bytes.
pub open spec fn broadcast(d: u8) -> u128 {
    (d as u128 * SUB_MASK1) as u128
}

/// The high bit of byte `i` is set where byte `i` of `c` is zero, as long as
/// no lower byte is zero (above the first zero byte the flags are unspecified).
pub open spec fn zero_byte_flags(c: u128) -> u128 {
    c.wrapping_sub(SUB_MASK1) & (!c & SUB_MASK2)
}

/// `i` is the position of the first occurrence of `d` in `s`.
pub open spec fn is_first_index_of(s: Seq<u8>, d: u8, i: int) -> bool {
    &&& 0 <= i < s.len()
    &&& s[i] == d
    &&& forall|j: int| 0 <= j < i ==> s[j] != d
}

/// The bits of bytes `0..=i`.
pub open spec fn mask_through(i: int) -> u128 {
    if i < 15 {
        ((1u128 << ((8 * i + 8) as u128)) - 1u128) as u128
    } else {
        0xffff_ffff_ffff_ffff_ffff_ffff_ffff_ffffu128
    }
}

/// The high bit of byte `i`.
pub open spec fn top_bit(i: int) -> u128 {
    1u128 << ((8 * i + 7) as u128)
}

proof fn lemma_zero_byte_flags_bits(raw: u128, d: u8, c: u128, t: u128, r: u128)
    by (bit_vector)
    requires
        c == raw ^ ((d as u128 * 0x0101_0101_0101_0101_0101_0101_0101_0101u128) as u128),
        (t + 0x0101_0101_0101_0101_0101_0101_0101_0101u128) as u128 == c,
        r == t & (!c & 0x8080_8080_8080_8080_8080_8080_8080_8080u128),
    ensures
            ((raw >> 0u128) & 0xffu128) as u8 == d
                ==> r & (((1u128 << 8u128) - 1u128) as u128) == 1u128 << 7u128,
            ((raw >> 0u128) & 0xffu128) as u8 != d && ((raw >> 8u128) & 0xffu128) as u8 == d
                ==> r & (((1u128 << 16u128) - 1u128) as u128) == 1u128 << 15u128,
            ((raw >> 0u128) & 0xffu128) as u8 != d && ((raw >> 8u128) & 0xffu128) as u8 != d && ((raw >> 16u128) & 0xffu128) as u8 == d
                ==> r & (((1u128 << 24u128) - 1u128) as u128) == 1u128 << 23u128,
            ((raw >> 0u128) & 0xffu128) as u8 != d && ((raw >> 8u128) & 0xffu128) as u8 != d && ((raw >> 16u128) & 0xffu128) as u8 != d && ((raw >> 24u128) & 0xffu128) as u8 == d
                ==> r & (((1u128 << 32u128) - 1u128) as u128) == 1u128 << 31u128,
            ((raw >> 0u128) & 0xffu128) as u8 != d && ((raw >> 8u128) & 0xffu128) as u8 != d && ((raw >> 16u128) & 0xffu128) as u8 != d && ((raw >> 24u128) & 0xffu128) as u8 != d && ((raw >> 32u128) & 0xffu128) as u8 == d
                ==> r & (((1u128 << 40u128) - 1u128) as u128) == 1u128 << 39u128,
            ((raw >> 0u128) & 0xffu128) as u8 != d && ((raw >> 8u128) & 0xffu128) as u8 != d && ((raw >> 16u128) & 0xffu128) as u8 != d && ((raw >> 24u128) & 0xffu128) as u8 != d && ((raw >> 32u128) & 0xffu128) as u8 != d && ((raw >> 40u128) & 0xffu128) as u8 == d
                ==> r & (((1u128 << 48u128) - 1u128) as u128) == 1u128 << 47u128,
            ((raw >> 0u128) & 0xffu128) as u8 != d && ((raw >> 8u128) & 0xffu128) as u8 != d && ((raw >> 16u128) & 0xffu128) as u8 != d && ((raw >> 24u128) & 0xffu128) as u8 != d && ((raw >> 32u128) & 0xffu128) as u8 != d && ((raw >> 40u128) & 0xffu128) as u8 != d && ((raw >> 48u128) & 0xffu128) as u8 == d
                ==> r & (((1u128 << 56u128) - 1u128) as u128) == 1u128 << 55u128,
            ((raw >> 0u128) & 0xffu128) as u8 != d && ((raw >> 8u128) & 0xffu128) as u8 != d && ((raw >> 16u128) & 0xffu128) as u8 != d && ((raw >> 24u128) & 0xffu128) as u8 != d && ((raw >> 32u128) & 0xffu128) as u8 != d && ((raw >> 40u128) & 0xffu128) as u8 != d && ((raw >> 48u128) & 0xffu128) as u8 != d && ((raw >> 56u128) & 0xffu128) as u8 == d
                ==> r & (((1u128 << 64u128) - 1u128) as u128) == 1u128 << 63u128,
            ((raw >> 0u128) & 0xffu128) as u8 != d && ((raw >> 8u128) & 0xffu128) as u8 != d && ((raw >> 16u128) & 0xffu128) as u8 != d && ((raw >> 24u128) & 0xffu128) as u8 != d && ((raw >> 32u128) & 0xffu128) as u8 != d && ((raw >> 40u128) & 0xffu128) as u8 != d && ((raw >> 48u128) & 0xffu128) as u8 != d && ((raw >> 56u128) & 0xffu128) as u8 != d && ((raw >> 64u128) & 0xffu128) as u8 == d
                ==> r & (((1u128 << 72u128) - 1u128) as u128) == 1u128 << 71u128,
            ((raw >> 0u128) & 0xffu128) as u8 != d && ((raw >> 8u128) & 0xffu128) as u8 != d && ((raw >> 16u128) & 0xffu128) as u8 != d && ((raw >> 24u128) & 0xffu128) as u8 != d && ((raw >> 32u128) & 0xffu128) as u8 != d && ((raw >> 40u128) & 0xffu128) as u8 != d && ((raw >> 48u128) & 0xffu128) as u8 != d && ((raw >> 56u128) & 0xffu128) as u8 != d && ((raw >> 64u128) & 0xffu128) as u8 != d && ((raw >> 72u128) & 0xffu128) as u8 == d
                ==> r & (((1u128 << 80u128) - 1u128) as u128) == 1u128 << 79u128,
            ((raw >> 0u128) & 0xffu128) as u8 != d && ((raw >> 8u128) & 0xffu128) as u8 != d && ((raw >> 16u128) & 0xffu128) as u8 != d && ((raw >> 24u128) & 0xffu128) as u8 != d && ((raw >> 32u128) & 0xffu128) as u8 != d && ((raw >> 40u128) & 0xffu128) as u8 != d && ((raw >> 48u128) & 0xffu128) as u8 != d && ((raw >> 56u128) & 0xffu128) as u8 != d && ((raw >> 64u128) & 0xffu128) as u8 != d && ((raw >> 72u128) & 0xffu128) as u8 != d && ((raw >> 80u128) & 0xffu128) as u8 == d
                ==> r & (((1u128 << 88u128) - 1u128) as u128) == 1u128 << 87u128,
            ((raw >> 0u128) & 0xffu128) as u8 != d && ((raw >> 8u128) & 0xffu128) as u8 != d && ((raw >> 16u128) & 0xffu128) as u8 != d && ((raw >> 24u128) & 0xffu128) as u8 != d && ((raw >> 32u128) & 0xffu128) as u8 != d && ((raw >> 40u128) & 0xffu128) as u8 != d && ((raw >> 48u128) & 0xffu128) as u8 != d && ((raw >> 56u128) & 0xffu128) as u8 != d && ((raw >> 64u128) & 0xffu128) as u8 != d && ((raw >> 72u128) & 0xffu128) as u8 != d && ((raw >> 80u128) & 0xffu128) as u8 != d && ((raw >> 88u128) & 0xffu128) as u8 == d
                ==> r & (((1u128 << 96u128) - 1u128) as u128) == 1u128 << 95u128,
            ((raw >> 0u128) & 0xffu128) as u8 != d && ((raw >> 8u128) & 0xffu128) as u8 != d && ((raw >> 16u128) & 0xffu128) as u8 != d && ((raw >> 24u128) & 0xffu128) as u8 != d && ((raw >> 32u128) & 0xffu128) as u8 != d && ((raw >> 40u128) & 0xffu128) as u8 != d && ((raw >> 48u128) & 0xffu128) as u8 != d && ((raw >> 56u128) & 0xffu128) as u8 != d && ((raw >> 64u128) & 0xffu128) as u8 != d && ((raw >> 72u128) & 0xffu128) as u8 != d && ((raw >> 80u128) & 0xffu128) as u8 != d && ((raw >> 88u128) & 0xffu128) as u8 != d && ((raw >> 96u128) & 0xffu128) as u8 == d
                ==> r & (((1u128 << 104u128) - 1u128) as u128) == 1u128 << 103u128,
            ((raw >> 0u128) & 0xffu128) as u8 != d && ((raw >> 8u128) & 0xffu128) as u8 != d && ((raw >> 16u128) & 0xffu128) as u8 != d && ((raw >> 24u128) & 0xffu128) as u8 != d && ((raw >> 32u128) & 0xffu128) as u8 != d && ((raw >> 40u128) & 0xffu128) as u8 != d && ((raw >> 48u128) & 0xffu128) as u8 != d && ((raw >> 56u128) & 0xffu128) as u8 != d && ((raw >> 64u128) & 0xffu128) as u8 != d && ((raw >> 72u128) & 0xffu128) as u8 != d && ((raw >> 80u128) & 0xffu128) as u8 != d && ((raw >> 88u128) & 0xffu128) as u8 != d && ((raw >> 96u128) & 0xffu128) as u8 != d && ((raw >> 104u128) & 0xffu128) as u8 == d
                ==> r & (((1u128 << 112u128) - 1u128) as u128) == 1u128 << 111u128,
            ((raw >> 0u128) & 0xffu128) as u8 != d && ((raw >> 8u128) & 0xffu128) as u8 != d && ((raw >> 16u128) & 0xffu128) as u8 != d && ((raw >> 24u128) & 0xffu128) as u8 != d && ((raw >> 32u128) & 0xffu128) as u8 != d && ((raw >> 40u128) & 0xffu128) as u8 != d && ((raw >> 48u128) & 0xffu128) as u8 != d && ((raw >> 56u128) & 0xffu128) as u8 != d && ((raw >> 64u128) & 0xffu128) as u8 != d && ((raw >> 72u128) & 0xffu128) as u8 != d && ((raw >> 80u128) & 0xffu128) as u8 != d && ((raw >> 88u128) & 0xffu128) as u8 != d && ((raw >> 96u128) & 0xffu128) as u8 != d && ((raw >> 104u128) & 0xffu128) as u8 != d && ((raw >> 112u128) & 0xffu128) as u8 == d
                ==> r & (((1u128 << 120u128) - 1u128) as u128) == 1u128 << 119u128,
            ((raw >> 0u128) & 0xffu128) as u8 != d && ((raw >> 8u128) & 0xffu128) as u8 != d && ((raw >> 16u128) & 0xffu128) as u8 != d && ((raw >> 24u128) & 0xffu128) as u8 != d && ((raw >> 32u128) & 0xffu128) as u8 != d && ((raw >> 40u128) & 0xffu128) as u8 != d && ((raw >> 48u128) & 0xffu128) as u8 != d && ((raw >> 56u128) & 0xffu128) as u8 != d && ((raw >> 64u128) & 0xffu128) as u8 != d && ((raw >> 72u128) & 0xffu128) as u8 != d && ((raw >> 80u128) & 0xffu128) as u8 != d && ((raw >> 88u128) & 0xffu128) as u8 != d && ((raw >> 96u128) & 0xffu128) as u8 != d && ((raw >> 104u128) & 0xffu128) as u8 != d && ((raw >> 112u128) & 0xffu128) as u8 != d && ((raw >> 120u128) & 0xffu128) as u8 == d
                ==> r & 0xffff_ffff_ffff_ffff_ffff_ffff_ffff_ffffu128 == 1u128 << 127u128,
            (((raw >> 0u128) & 0xffu128) as u8 != d && ((raw >> 8u128) & 0xffu128) as u8 != d && ((raw >> 16u128) & 0xffu128) as u8 != d && ((raw >> 24u128) & 0xffu128) as u8 != d && ((raw >> 32u128) & 0xffu128) as u8 != d && ((raw >> 40u128) & 0xffu128) as u8 != d && ((raw >> 48u128) & 0xffu128) as u8 != d && ((raw >> 56u128) & 0xffu128) as u8 != d && ((raw >> 64u128) & 0xffu128) as u8 != d && ((raw >> 72u128) & 0xffu128) as u8 != d && ((raw >> 80u128) & 0xffu128) as u8 != d && ((raw >> 88u128) & 0xffu128) as u8 != d && ((raw >> 96u128) & 0xffu128) as u8 != d && ((raw >> 104u128) & 0xffu128) as u8 != d && ((raw >> 112u128) & 0xffu128) as u8 != d && ((raw >> 120u128) & 0xffu128) as u8 != d)
                <==> r == 0u128,
{
}

/// What the flags of `raw ^ broadcast(d)` say of the bytes of `raw`: none
/// is set exactly when no byte is `d`, and the lowest one marks the first `d`.
pub proof fn lemma_zero_byte_flags(raw: u128, d: u8)
    ensures
        (zero_byte_flags(raw ^ broadcast(d)) == 0) <==> (forall|j: int|
            0 <= j < 16 ==> word_bytes(raw)[j] != d),
        forall|i: int|
            is_first_index_of(word_bytes(raw), d, i) ==> zero_byte_flags(raw ^ broadcast(d))
                & mask_through(i) == top_bit(i),
{
    let c = raw ^ broadcast(d);
    let t = c.wrapping_sub(SUB_MASK1);
    let r = zero_byte_flags(c);
    assert((t + SUB_MASK1) as u128 == c) by (bit_vector)
        requires
            t == (if c - SUB_MASK1 < 0 {
                (c - SUB_MASK1 + 0x1_0000_0000_0000_0000_0000_0000_0000_0000int) as u128
            } else {
                (c - SUB_MASK1) as u128
            }),
    ;
    lemma_zero_byte_flags_bits(raw, d, c, t, r);
    let s = word_bytes(raw);
    assert forall|i: int| is_first_index_of(s, d, i) implies r & mask_through(i) == top_bit(i) by {
            if i == 0 {
                 assert(s[0] == d);
            } else if i == 1 {
                assert(s[0] != d); assert(s[1] == d);
            } else if i == 2 {
                assert(s[0] != d); assert(s[1] != d); assert(s[2] == d);
            } else if i == 3 {
                assert(s[0] != d); assert(s[1] != d); assert(s[2] != d); assert(s[3] == d);
            } else if i == 4 {
                assert(s[0] != d); assert(s[1] != d); assert(s[2] != d); assert(s[3] != d); assert(s[4] == d);
            } else if i == 5 {
                assert(s[0] != d); assert(s[1] != d); assert(s[2] != d); assert(s[3] != d); assert(s[4] != d); assert(s[5] == d);
            } else if i == 6 {
                assert(s[0] != d); assert(s[1] != d); assert(s[2] != d); assert(s[3] != d); assert(s[4] != d); assert(s[5] != d); assert(s[6] == d);
            } else if i == 7 {
                assert(s[0] != d); assert(s[1] != d); assert(s[2] != d); assert(s[3] != d); assert(s[4] != d); assert(s[5] != d); assert(s[6] != d); assert(s[7] == d);
            } else if i == 8 {
                assert(s[0] != d); assert(s[1] != d); assert(s[2] != d); assert(s[3] != d); assert(s[4] != d); assert(s[5] != d); assert(s[6] != d); assert(s[7] != d); assert(s[8] == d);
            } else if i == 9 {
                assert(s[0] != d); assert(s[1] != d); assert(s[2] != d); assert(s[3] != d); assert(s[4] != d); assert(s[5] != d); assert(s[6] != d); assert(s[7] != d); assert(s[8] != d); assert(s[9] == d);
            } else if i == 10 {
                assert(s[0] != d); assert(s[1] != d); assert(s[2] != d); assert(s[3] != d); assert(s[4] != d); assert(s[5] != d); assert(s[6] != d); assert(s[7] != d); assert(s[8] != d); assert(s[9] != d); assert(s[10] == d);
            } else if i == 11 {
                assert(s[0] != d); assert(s[1] != d); assert(s[2] != d); assert(s[3] != d); assert(s[4] != d); assert(s[5] != d); assert(s[6] != d); assert(s[7] != d); assert(s[8] != d); assert(s[9] != d); assert(s[10] != d); assert(s[11] == d);
            } else if i == 12 {
                assert(s[0] != d); assert(s[1] != d); assert(s[2] != d); assert(s[3] != d); assert(s[4] != d); assert(s[5] != d); assert(s[6] != d); assert(s[7] != d); assert(s[8] != d); assert(s[9] != d); assert(s[10] != d); assert(s[11] != d); assert(s[12] == d);
            } else if i == 13 {
                assert(s[0] != d); assert(s[1] != d); assert(s[2] != d); assert(s[3] != d); assert(s[4] != d); assert(s[5] != d); assert(s[6] != d); assert(s[7] != d); assert(s[8] != d); assert(s[9] != d); assert(s[10] != d); assert(s[11] != d); assert(s[12] != d); assert(s[13] == d);
            } else if i == 14 {
                assert(s[0] != d); assert(s[1] != d); assert(s[2] != d); assert(s[3] != d); assert(s[4] != d); assert(s[5] != d); assert(s[6] != d); assert(s[7] != d); assert(s[8] != d); assert(s[9] != d); assert(s[10] != d); assert(s[11] != d); assert(s[12] != d); assert(s[13] != d); assert(s[14] == d);
            } else if i == 15 {
                assert(s[0] != d); assert(s[1] != d); assert(s[2] != d); assert(s[3] != d); assert(s[4] != d); assert(s[5] != d); assert(s[6] != d); assert(s[7] != d); assert(s[8] != d); assert(s[9] != d); assert(s[10] != d); assert(s[11] != d); assert(s[12] != d); assert(s[13] != d); assert(s[14] != d); assert(s[15] == d);
            }
    }
    if r == 0 {
        assert forall|j: int| 0 <= j < 16 implies s[j] != d by {
        }
    }
}

/// Flags the bytes of `raw_data` equal to those of `delimiter`; when the
/// delimiter repeats one byte, the lowest flag marks its first occurrence.
pub fn find_char_in_rawdata(raw_data: u128, delimiter: u128) -> (r: u128)
    ensures
        r == zero_byte_flags(raw_data ^ delimiter),
        forall|d: u8|
            delimiter == #[trigger] broadcast(d) ==> ((r == 0) <==> (forall|j: int|
                0 <= j < 16 ==> word_bytes(raw_data)[j] != d)),
        forall|d: u8, i: int|
            delimiter == broadcast(d) && #[trigger] is_first_index_of(word_bytes(raw_data), d, i) ==> r
                & mask_through(i) == top_bit(i),
{
    proof {
        assert forall|d: u8| delimiter == #[trigger] broadcast(d) implies ((zero_byte_flags(raw_data ^ delimiter) == 0)
            <==> (forall|j: int| 0 <= j < 16 ==> word_bytes(raw_data)[j] != d)) by {
            lemma_zero_byte_flags(raw_data, d);
        }
        assert forall|d: u8, i: int|
            delimiter == broadcast(d) && #[trigger] is_first_index_of(word_bytes(raw_data), d, i) implies zero_byte_flags(
                raw_data ^ delimiter,
            ) & mask_through(i) == top_bit(i) by {
            lemma_zero_byte_flags(raw_data, d);
        }
    }
    let comparison_result1 = raw_data ^ delimiter;
    let high_bit_mask1 = comparison_result1.wrapping_sub(SUB_MASK1) & (!comparison_result1
        & SUB_MASK2);
    high_bit_mask1
}

/// Flags the bytes of `raw_data` that hold `;`.
pub fn find_in_rawdata(raw_data: u128) -> (r: u128)
    ensures
        r == zero_byte_flags(raw_data ^ broadcast(59u8)),
        (r == 0) <==> (forall|j: int| 0 <= j < 16 ==> word_bytes(raw_data)[j] != 59u8),
        forall|i: int| is_first_index_of(word_bytes(raw_data), 59u8, i) ==> r & mask_through(i) == top_bit(i),
{
    proof {
        lemma_zero_byte_flags(raw_data, 59u8);
    }
    assert(DELIMITER_MASK == broadcast(59u8));
    let comparison_result1 = raw_data ^ DELIMITER_MASK;
    let high_bit_mask1 = comparison_result1.wrapping_sub(SUB_MASK1) & (!comparison_result1
        & SUB_MASK2);
    high_bit_mask1
}

/// `e` is the position of the lowest set bit of `x`.
proof fn lemma_u64_trailing_zeros_at(x: u64, e: u64)
    requires
        e < 64,
        x << ((63 - e) as u64) == 1u64 << 63u64,
    ensures
        u64_trailing_zeros(x) == e,
{
    axiom_u64_trailing_zeros(x);
    let t = u64_trailing_zeros(x) as u64;
    assert((x >> e) & 1u64 == 1u64) by (bit_vector)
        requires
            x << ((63 - e) as u64) == 1u64 << 63u64,
            e < 64,
    ;
    if t < e {
        assert((x >> t) & 1u64 == 0u64) by (bit_vector)
            requires
                x << ((63 - e) as u64) == 1u64 << 63u64,
                t < e,
                e < 64,
        ;
    }
    if t > e {
        assert((x >> e) & 1u64 == 0u64);
    }
}

proof fn lemma_flag_halves(flags: u128, i: u64, lo: u64, hi: u64)
    by (bit_vector)
    requires
        i < 16,
        flags & (if i < 15 {
            ((1u128 << ((8 * i + 8) as u128)) - 1u128) as u128
        } else {
            0xffff_ffff_ffff_ffff_ffff_ffff_ffff_ffffu128
        }) == 1u128 << ((8 * i + 7) as u128),
        lo == flags as u64,
        hi == (flags >> 64u128) as u64,
    ensures
        i < 8 ==> lo << ((63 - (8 * i + 7)) as u64) == 1u64 << 63u64,
        i >= 8 ==> lo == 0 && hi << ((63 - (8 * i - 57)) as u64) == 1u64 << 63u64,
{
}

/// Index of the byte whose high bit is the lowest set bit of `flags`, as the
/// scanner reads it off the trailing zeros.
pub fn first_flagged_byte(flags: u128) -> (k: usize)
    requires
        exists|i: int| 0 <= i < 16 && flags & mask_through(i) == top_bit(i),
    ensures
        k < 16,
        forall|i: int| 0 <= i < 16 && flags & mask_through(i) == top_bit(i) ==> i == k,
{
    let ghost i = choose|i: int| 0 <= i < 16 && flags & mask_through(i) == top_bit(i);
    let lo = flags as u64;
    let hi = (flags >> 64u128) as u64;
    proof {
        lemma_flag_halves(flags, i as u64, lo, hi);
        if i < 8 {
            lemma_u64_trailing_zeros_at(lo, (8 * i + 7) as u64);
        } else {
            lemma_u64_trailing_zeros_at(hi, (8 * i - 57) as u64);
        }
    }
    let trailing_zeros: u32 = if lo != 0 {
        lo.trailing_zeros()
    } else {
        64 + hi.trailing_zeros()
    };
    assert(trailing_zeros == 8 * i + 7);
    let ghost iu: u32 = i as u32;
    let shifted = trailing_zeros >> 3u32;
    assert(shifted == iu) by (bit_vector)
        requires
            shifted == trailing_zeros >> 3u32,
            trailing_zeros == 8 * iu + 7,
            iu < 16,
    ;
    let k = shifted as usize;
    proof {
        assert forall|j: int| 0 <= j < 16 && flags & mask_through(j) == top_bit(j) implies j == k by {
            lemma_flag_halves(flags, j as u64, lo, hi);
            if j < 8 {
                lemma_u64_trailing_zeros_at(lo, (8 * j + 7) as u64);
            } else {
                lemma_u64_trailing_zeros_at(hi, (8 * j - 57) as u64);
            }
        }
    }
    k
}

/// Reads sixteen bytes of `data` at `offset` as a little-endian word.
pub fn load_word(data: &[u8], offset: usize) -> (x: u128)
    requires
        offset + 16 <= data@.len(),
    ensures
        word_bytes(x) == data@.subrange(offset as int, offset + 16),
{
    let n = data.len();
    let lo = u64_from_le_bytes(slice_subrange(data, offset, offset + 8));
    let hi = u64_from_le_bytes(slice_subrange(data, offset + 8, offset + 16));
    let x = (lo as u128) | ((hi as u128) << 64u128);
    proof {
        lemma_auto_spec_u64_to_from_le_bytes();
        spec_u64_to_le_bytes_to_open(lo);
        spec_u64_to_le_bytes_to_open(hi);
        assert(spec_u64_to_le_bytes(lo) == data@.subrange(offset as int, offset + 8));
        assert(spec_u64_to_le_bytes(hi) == data@.subrange(offset + 8, offset + 16));
        lemma_load_word_bytes(lo, hi, x);
        assert(word_bytes(x) =~= data@.subrange(offset as int, offset + 16));
    }
    x
}

proof fn lemma_load_word_bytes(lo: u64, hi: u64, x: u128)
    by (bit_vector)
    requires
        x == (lo as u128) | ((hi as u128) << 64u128),
    ensures
            byte_at(x, 0) == (lo & 0xffu64) as u8,
            byte_at(x, 1) == ((lo >> 8u64) & 0xffu64) as u8,
            byte_at(x, 2) == ((lo >> 16u64) & 0xffu64) as u8,
            byte_at(x, 3) == ((lo >> 24u64) & 0xffu64) as u8,
            byte_at(x, 4) == ((lo >> 32u64) & 0xffu64) as u8,
            byte_at(x, 5) == ((lo >> 40u64) & 0xffu64) as u8,
            byte_at(x, 6) == ((lo >> 48u64) & 0xffu64) as u8,
            byte_at(x, 7) == ((lo >> 56u64) & 0xffu64) as u8,
            byte_at(x, 8) == (hi & 0xffu64) as u8,
            byte_at(x, 9) == ((hi >> 8u64) & 0xffu64) as u8,
            byte_at(x, 10) == ((hi >> 16u64) & 0xffu64) as u8,
            byte_at(x, 11) == ((hi >> 24u64) & 0xffu64) as u8,
            byte_at(x, 12) == ((hi >> 32u64) & 0xffu64) as u8,
            byte_at(x, 13) == ((hi >> 40u64) & 0xffu64) as u8,
            byte_at(x, 14) == ((hi >> 48u64) & 0xffu64) as u8,
            byte_at(x, 15) == ((hi >> 56u64) & 0xffu64) as u8,
{
}

} // verus!
