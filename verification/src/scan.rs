use vstd::prelude::*;
use crate::swar::{
    load_word, word_bytes, find_in_rawdata, find_char_in_rawdata, first_flagged_byte, broadcast,
    lemma_zero_byte_flags, is_first_index_of, mask_through, top_bit, DELIMITER_MASK_CR,
};
use crate::lines::{is_first_from, has_from, first_from};

verus! {

/// Inside one sixteen-byte block: where its first `c` is, if any.
pub(crate) proof fn lemma_block_first(s: Seq<u8>, offset: int, raw: u128, c: u8, first: int)
    requires
        0 <= offset,
        offset + 16 <= s.len(),
        word_bytes(raw) == s.subrange(offset, offset + 16),
        is_first_from(s, offset, c, first),
    ensures
        first >= offset + 16 <==> forall|j: int| 0 <= j < 16 ==> word_bytes(raw)[j] != c,
        first < offset + 16 ==> is_first_index_of(word_bytes(raw), c, first - offset),
{
    if first < offset + 16 {
        assert(word_bytes(raw)[first - offset] == c);
        assert forall|j: int| 0 <= j < first - offset implies word_bytes(raw)[j] != c by {
            assert(word_bytes(raw)[j] == s[offset + j]);
        }
    } else {
        assert forall|j: int| 0 <= j < 16 implies word_bytes(raw)[j] != c by {
            assert(word_bytes(raw)[j] == s[offset + j]);
        }
    }
}

/// Scans `data` from `offset`, sixteen bytes at a time, for the first `;`.
/// Returns the start of the block that holds it and `len` increased by the
/// distance from `offset` to just past it.
pub fn find_slow(data: &[u8], offset: usize, len: usize) -> (r: (usize, usize))
    requires
        has_from(data@, offset as int, 59u8),
        offset + 16 * ((first_from(data@, offset as int, 59u8) - offset) / 16 + 1) <= data@.len(),
        len + (first_from(data@, offset as int, 59u8) - offset) + 1 <= usize::MAX,
    ensures
        r.1 == len + (first_from(data@, offset as int, 59u8) - offset) + 1,
        r.0 == offset + 16 * ((first_from(data@, offset as int, 59u8) - offset) / 16),
{
    let ghost s = data@;
    let ghost c = first_from(s, offset as int, 59u8);
    let ghost offset0 = offset as int;
    let ghost len0 = len as int;
    let ghost mut m: int = 0;
    let n = data.len();
    let mut offset = offset;
    let mut len = len;
    let mut no_content1 = true;
    while no_content1
        invariant
            s == data@,
            n == data@.len(),
            is_first_from(s, offset0, 59u8, c),
            offset0 + 16 * ((c - offset0) / 16 + 1) <= s.len(),
            len0 + (c - offset0) + 1 <= usize::MAX,
            0 <= m,
            offset == offset0 + 16 * m,
            no_content1 ==> offset <= c && len == len0 + 16 * m,
            !no_content1 ==> len == len0 + (c - offset0) + 1 && m == (c - offset0) / 16,
        decreases c - offset + (if no_content1 { 16int } else { 0int }),
    {
        assert(offset + 16 <= n) by (nonlinear_arith)
            requires
                offset == offset0 + 16 * m,
                offset <= c,
                0 <= m,
                offset0 + 16 * ((c - offset0) / 16 + 1) <= n,
        {
            assert(m <= (c - offset0) / 16);
        }
        let raw_data = load_word(data, offset);
        let high_bit_mask = find_in_rawdata(raw_data);
        proof {
            lemma_zero_byte_flags(raw_data, 59u8);
            lemma_block_first(s, offset as int, raw_data, 59u8, c);
        }
        no_content1 = high_bit_mask == 0;
        if no_content1 {
            len += 16;
            offset += 16;
            proof {
                m = m + 1;
            }
        } else {
            assert(c < offset + 16);
            assert(high_bit_mask & mask_through(c - offset) == top_bit(c - offset));
            let k = first_flagged_byte(high_bit_mask);
            assert(k == c - offset);
            assert(m == (c - offset0) / 16) by (nonlinear_arith)
                requires
                    offset == offset0 + 16 * m,
                    offset <= c < offset + 16,
            {
            }
            len += 1 + k;
        }
    }
    (offset, len)
}

/// Scans `data` from `offset`, sixteen bytes at a time, for the first line
/// end; returns `len` increased by the distance from `offset` to just past it.
pub fn find_next_line(data: &[u8], offset: usize, len: usize) -> (r: usize)
    requires
        has_from(data@, offset as int, 10u8),
        offset + 16 * ((first_from(data@, offset as int, 10u8) - offset) / 16 + 1) <= data@.len(),
        len + (first_from(data@, offset as int, 10u8) - offset) + 1 <= usize::MAX,
    ensures
        r == len + (first_from(data@, offset as int, 10u8) - offset) + 1,
{
    let ghost s = data@;
    let ghost c = first_from(s, offset as int, 10u8);
    let ghost offset0 = offset as int;
    let ghost len0 = len as int;
    let ghost mut m: int = 0;
    let n = data.len();
    let mut offset = offset;
    let mut len = len;
    let mut no_content1 = true;
    assert(DELIMITER_MASK_CR == broadcast(10u8));
    while no_content1
        invariant
            s == data@,
            n == data@.len(),
            is_first_from(s, offset0, 10u8, c),
            offset0 + 16 * ((c - offset0) / 16 + 1) <= s.len(),
            len0 + (c - offset0) + 1 <= usize::MAX,
            0 <= m,
            offset == offset0 + 16 * m,
            no_content1 ==> offset <= c && len == len0 + 16 * m,
            !no_content1 ==> len == len0 + (c - offset0) + 1,
        decreases c - offset + (if no_content1 { 16int } else { 0int }),
    {
        assert(offset + 16 <= n) by (nonlinear_arith)
            requires
                offset == offset0 + 16 * m,
                offset <= c,
                0 <= m,
                offset0 + 16 * ((c - offset0) / 16 + 1) <= n,
        {
            assert(m <= (c - offset0) / 16);
        }
        let raw_data = load_word(data, offset);
        let high_bit_mask = find_char_in_rawdata(raw_data, DELIMITER_MASK_CR);
        proof {
            lemma_zero_byte_flags(raw_data, 10u8);
            lemma_block_first(s, offset as int, raw_data, 10u8, c);
        }
        no_content1 = high_bit_mask == 0;
        if no_content1 {
            len += 16;
            offset += 16;
            proof {
                m = m + 1;
            }
        } else {
            assert(c < offset + 16);
            assert(high_bit_mask & mask_through(c - offset) == top_bit(c - offset));
            let k = first_flagged_byte(high_bit_mask);
            assert(k == c - offset);
            len += 1 + k;
        }
    }
    len
}

/// Distance from `begin` to the start of the first whole line at or after
/// it: zero at the start of the input, else just past the next line end.
pub fn calculate_local_offset(data: &[u8], begin: usize) -> (r: usize)
    requires
        begin > 0 ==> has_from(data@, begin as int, 10u8) && begin + 16 * ((first_from(
            data@,
            begin as int,
            10u8,
        ) - begin) / 16 + 1) <= data@.len(),
    ensures
        r == (if begin > 0 { first_from(data@, begin as int, 10u8) - begin + 1 } else { 0 }),
{
    let n = data.len();
    if begin > 0 {
        find_next_line(data, begin, 0)
    } else {
        0
    }
}

} // verus!
