use vstd::prelude::*;
use crate::custom_map::{
    Entry, MAP_SIZE, entry_name, table_wf, home_of, chain_clear, passes, probe_distance,
    slot_index, byte_home, raw_home, byte_probe_stops_at, word_probe_stops_at, masked_word,
    low_bytes_mask,
};
use crate::swar::{word_bytes, byte_at};

verus! {

/// Number of filled slots among the first `k`.
pub open spec fn filled_count(slots: Seq<Option<Entry>>, k: int) -> nat
    decreases k,
{
    if k <= 0 {
        0
    } else {
        filled_count(slots, k - 1) + if slots[k - 1] is Some { 1nat } else { 0nat }
    }
}

pub proof fn lemma_filled_count_not_full(slots: Seq<Option<Entry>>, k: int)
    requires
        0 <= k <= slots.len(),
        filled_count(slots, k) < k,
    ensures
        exists|i: int| 0 <= i < k && (#[trigger] slots[i]) is None,
    decreases k,
{
    if slots[k - 1] is Some {
        lemma_filled_count_not_full(slots, k - 1);
        let i = choose|i: int| 0 <= i < k - 1 && (#[trigger] slots[i]) is None;
        assert(slots[i] is None);
    } else {
        assert(slots[k - 1] is None);
    }
}

pub proof fn lemma_filled_count_fill(slots: Seq<Option<Entry>>, i: int, e: Entry, k: int)
    requires
        0 <= i < slots.len(),
        slots[i] is None,
        0 <= k <= slots.len(),
    ensures
        filled_count(slots.update(i, Some(e)), k) == filled_count(slots, k) + if i < k { 1nat } else { 0nat },
    decreases k,
{
    if k > 0 {
        lemma_filled_count_fill(slots, i, e, k - 1);
    }
}

pub proof fn lemma_filled_count_same_shape(a: Seq<Option<Entry>>, b: Seq<Option<Entry>>, k: int)
    requires
        0 <= k <= a.len(),
        a.len() == b.len(),
        forall|i: int| 0 <= i < a.len() ==> (#[trigger] a[i] is Some) == (b[i] is Some),
    ensures
        filled_count(a, k) == filled_count(b, k),
    decreases k,
{
    if k > 0 {
        lemma_filled_count_same_shape(a, b, k - 1);
    }
}

/// No byte of `n` is zero.
pub open spec fn zero_free(n: Seq<u8>) -> bool {
    forall|i: int| 0 <= i < n.len() ==> #[trigger] n[i] != 0u8
}

/// `n` followed by zeros up to sixteen bytes.
pub open spec fn name_padded(n: Seq<u8>) -> Seq<u8> {
    n + Seq::new((16 - n.len()) as nat, |i: int| 0u8)
}

/// A name the table can key by its masked word.
pub open spec fn word_name(n: Seq<u8>) -> bool {
    1 <= n.len() <= 16 && zero_free(n)
}

/// Every slot filled by word holds, as its word, its own name padded with zeros.
pub open spec fn words_faithful(slots: Seq<Option<Entry>>, by_raw: Seq<bool>, data: Seq<u8>) -> bool {
    forall|i: int|
        0 <= i < slots.len() && (#[trigger] slots[i]) is Some && by_raw[i] ==> {
            let n = entry_name(data, slots[i].unwrap());
            word_name(n) && word_bytes(slots[i].unwrap().2 as u128) == name_padded(n)
        }
}

/// Some slot filled by bytes holds the name `n`.
pub open spec fn has_byte_slot(slots: Seq<Option<Entry>>, by_raw: Seq<bool>, data: Seq<u8>, n: Seq<u8>) -> bool {
    exists|i: int|
        0 <= i < slots.len() && (#[trigger] slots[i]) is Some && !by_raw[i] && entry_name(data, slots[i].unwrap()) == n
}

/// Some slot filled by word holds the name `n`.
pub open spec fn has_word_slot(slots: Seq<Option<Entry>>, by_raw: Seq<bool>, data: Seq<u8>, n: Seq<u8>) -> bool {
    exists|i: int|
        0 <= i < slots.len() && (#[trigger] slots[i]) is Some && by_raw[i] && entry_name(data, slots[i].unwrap()) == n
}

proof fn lemma_probe_passes(h: int, i: int, r: int)
    requires
        0 <= h < MAP_SIZE,
        0 <= i < MAP_SIZE,
        0 <= r < MAP_SIZE,
        i != r,
    ensures
        probe_distance(h, i) < probe_distance(h, r) ==> slot_index(h, probe_distance(h, i)) == i,
        probe_distance(h, r) < probe_distance(h, i) ==> slot_index(h, probe_distance(h, r)) == r,
        probe_distance(h, i) != probe_distance(h, r),
        0 <= probe_distance(h, i),
        0 <= probe_distance(h, r),
{
}

/// When probing by bytes for `n` stops at an empty slot, no slot filled by
/// bytes holds `n`.
pub proof fn lemma_byte_absent(slots: Seq<Option<Entry>>, by_raw: Seq<bool>, data: Seq<u8>, n: Seq<u8>, r: int)
    requires
        table_wf(slots, by_raw, data),
        byte_probe_stops_at(slots, data, n, r),
        slots[r] is None,
    ensures
        !has_byte_slot(slots, by_raw, data, n),
{
    if has_byte_slot(slots, by_raw, data, n) {
        let i = choose|i: int|
            0 <= i < slots.len() && (#[trigger] slots[i]) is Some && !by_raw[i] && entry_name(data, slots[i].unwrap()) == n;
        let h = byte_home(n);
        assert(home_of(slots, by_raw, data, i) == h);
        assert(chain_clear(slots, by_raw, data, i));
        lemma_probe_passes(h, i, r);
        if probe_distance(h, i) < probe_distance(h, r) {
            assert(slots[slot_index(h, probe_distance(h, i))] is Some);
        } else {
            assert(passes(slots, by_raw, data, i, slot_index(h, probe_distance(h, r))));
        }
    }
}

/// When probing by word for the padded `n` stops at an empty slot, no slot
/// filled by word holds `n`.
pub proof fn lemma_word_absent(slots: Seq<Option<Entry>>, by_raw: Seq<bool>, data: Seq<u8>, n: Seq<u8>, w: i128, r: int)
    requires
        table_wf(slots, by_raw, data),
        words_faithful(slots, by_raw, data),
        word_bytes(w as u128) == name_padded(n),
        word_probe_stops_at(slots, w, r),
        slots[r] is None,
    ensures
        !has_word_slot(slots, by_raw, data, n),
{
    if has_word_slot(slots, by_raw, data, n) {
        let i = choose|i: int|
            0 <= i < slots.len() && (#[trigger] slots[i]) is Some && by_raw[i] && entry_name(data, slots[i].unwrap()) == n;
        let wi = slots[i].unwrap().2;
        lemma_word_bytes_injective(wi, w);
        let h = raw_home(w);
        assert(home_of(slots, by_raw, data, i) == h);
        assert(chain_clear(slots, by_raw, data, i));
        lemma_probe_passes(h, i, r);
        if probe_distance(h, i) < probe_distance(h, r) {
            assert(slots[slot_index(h, probe_distance(h, i))] is Some);
        } else {
            assert(passes(slots, by_raw, data, i, slot_index(h, probe_distance(h, r))));
        }
    }
}

/// Words with the same bytes are the same word.
pub proof fn lemma_word_bytes_injective(a: i128, b: i128)
    requires
        word_bytes(a as u128) == word_bytes(b as u128),
    ensures
        a == b,
{
    let x = a as u128;
    let y = b as u128;
    assert forall|i: int| 0 <= i < 16 implies #[trigger] byte_at(x, i) == byte_at(y, i) by {
        assert(word_bytes(x)[i] == word_bytes(y)[i]);
    }
    lemma_bytes_determine_word(a, b);
}

proof fn lemma_bytes_determine_word(a: i128, b: i128)
    by (bit_vector)
    requires
        byte_at(a as u128, 0) == byte_at(b as u128, 0),
        byte_at(a as u128, 1) == byte_at(b as u128, 1),
        byte_at(a as u128, 2) == byte_at(b as u128, 2),
        byte_at(a as u128, 3) == byte_at(b as u128, 3),
        byte_at(a as u128, 4) == byte_at(b as u128, 4),
        byte_at(a as u128, 5) == byte_at(b as u128, 5),
        byte_at(a as u128, 6) == byte_at(b as u128, 6),
        byte_at(a as u128, 7) == byte_at(b as u128, 7),
        byte_at(a as u128, 8) == byte_at(b as u128, 8),
        byte_at(a as u128, 9) == byte_at(b as u128, 9),
        byte_at(a as u128, 10) == byte_at(b as u128, 10),
        byte_at(a as u128, 11) == byte_at(b as u128, 11),
        byte_at(a as u128, 12) == byte_at(b as u128, 12),
        byte_at(a as u128, 13) == byte_at(b as u128, 13),
        byte_at(a as u128, 14) == byte_at(b as u128, 14),
        byte_at(a as u128, 15) == byte_at(b as u128, 15),
    ensures
        a == b,
{
}

/// Padded names that are equal come from equal names.
pub proof fn lemma_name_padded_injective(a: Seq<u8>, b: Seq<u8>)
    requires
        word_name(a),
        word_name(b),
        name_padded(a) == name_padded(b),
    ensures
        a == b,
{
    if a.len() < b.len() {
        assert(name_padded(a)[a.len() as int] == 0u8);
        assert(name_padded(b)[a.len() as int] == b[a.len() as int]);
    } else if b.len() < a.len() {
        assert(name_padded(b)[b.len() as int] == 0u8);
        assert(name_padded(a)[b.len() as int] == a[b.len() as int]);
    } else {
        assert forall|i: int| 0 <= i < a.len() implies a[i] == b[i] by {
            assert(name_padded(a)[i] == name_padded(b)[i]);
            assert(name_padded(a)[i] == a[i]);
            assert(name_padded(b)[i] == b[i]);
        }
        assert(a =~= b);
    }
}

/// The padded bytes of a proper name are not all zero.
pub proof fn lemma_word_name_nonzero(w: i128, n: Seq<u8>)
    requires
        word_name(n),
        word_bytes(w as u128) == name_padded(n),
    ensures
        w != 0,
{
    assert(word_bytes(w as u128)[0] == n[0]);
    assert(byte_at(0i128 as u128, 0) == 0u8) by (bit_vector);
}

/// A slot found by word, in a faithful table, holds the name the word was made of.
pub proof fn lemma_word_match_name(slots: Seq<Option<Entry>>, by_raw: Seq<bool>, data: Seq<u8>, n: Seq<u8>, w: i128, r: int)
    requires
        table_wf(slots, by_raw, data),
        words_faithful(slots, by_raw, data),
        word_name(n),
        word_bytes(w as u128) == name_padded(n),
        0 <= r < MAP_SIZE,
        slots[r] is Some,
        slots[r].unwrap().2 == w,
    ensures
        entry_name(data, slots[r].unwrap()) == n,
{
    lemma_word_name_nonzero(w, n);
    assert(by_raw[r]);
    let m = entry_name(data, slots[r].unwrap());
    lemma_name_padded_injective(m, n);
}


proof fn lemma_mask_bytes(x: u128, len: u128, m: u128)
    by (bit_vector)
    requires
        len <= 16,
        m == ((x as i128) as u128) & (if len >= 16 {
            0xffff_ffff_ffff_ffff_ffff_ffff_ffff_ffffu128
        } else {
            ((1u128 << ((8 * len) as u128)) - 1u128) as u128
        }),
    ensures
        byte_at(m, 0) == (if 0u128 < len { byte_at(x, 0) } else { 0u8 }),
        byte_at(m, 1) == (if 1u128 < len { byte_at(x, 1) } else { 0u8 }),
        byte_at(m, 2) == (if 2u128 < len { byte_at(x, 2) } else { 0u8 }),
        byte_at(m, 3) == (if 3u128 < len { byte_at(x, 3) } else { 0u8 }),
        byte_at(m, 4) == (if 4u128 < len { byte_at(x, 4) } else { 0u8 }),
        byte_at(m, 5) == (if 5u128 < len { byte_at(x, 5) } else { 0u8 }),
        byte_at(m, 6) == (if 6u128 < len { byte_at(x, 6) } else { 0u8 }),
        byte_at(m, 7) == (if 7u128 < len { byte_at(x, 7) } else { 0u8 }),
        byte_at(m, 8) == (if 8u128 < len { byte_at(x, 8) } else { 0u8 }),
        byte_at(m, 9) == (if 9u128 < len { byte_at(x, 9) } else { 0u8 }),
        byte_at(m, 10) == (if 10u128 < len { byte_at(x, 10) } else { 0u8 }),
        byte_at(m, 11) == (if 11u128 < len { byte_at(x, 11) } else { 0u8 }),
        byte_at(m, 12) == (if 12u128 < len { byte_at(x, 12) } else { 0u8 }),
        byte_at(m, 13) == (if 13u128 < len { byte_at(x, 13) } else { 0u8 }),
        byte_at(m, 14) == (if 14u128 < len { byte_at(x, 14) } else { 0u8 }),
        byte_at(m, 15) == (if 15u128 < len { byte_at(x, 15) } else { 0u8 }),
{
}

/// The bytes of a masked word: the first `len` bytes of the word, then zeros.
pub proof fn lemma_masked_word_bytes(x: u128, len: int)
    requires
        0 <= len <= 16,
    ensures
        word_bytes(masked_word(x as i128, len) as u128) == word_bytes(x).subrange(0, len) + Seq::new(
            (16 - len) as nat,
            |i: int| 0u8,
        ),
{
    let m = ((x as i128) as u128) & low_bytes_mask(len);
    lemma_mask_bytes(x, len as u128, m);
    assert(masked_word(x as i128, len) == m as i128);
    assert((m as i128) as u128 == m) by (bit_vector);
    assert(word_bytes(m) =~= word_bytes(x).subrange(0, len) + Seq::new((16 - len) as nat, |i: int| 0u8));
}

} // verus!
