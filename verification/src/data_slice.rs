use vstd::prelude::*;
use vstd::bytes::{
    spec_u64_to_le_bytes, spec_u64_to_le_bytes_to_open, u64_from_le_bytes,
    lemma_auto_spec_u64_to_from_le_bytes,
};
use vstd::slice::slice_subrange;
use crate::record::{Stats, single_stats, merge_stats, add_stats, lemma_merge_associative};
use crate::number::convert_into_number;
use crate::swar::{
    load_word, word_bytes, find_in_rawdata, first_flagged_byte, broadcast, zero_byte_flags,
    lemma_zero_byte_flags, mask_through, top_bit,
};
use crate::custom_map::{CustomMap, Entry, MAP_SIZE, entry_name, lemma_slots_unique};
use crate::capacity::{word_name, lemma_word_bytes_injective};
use crate::lines::{
    is_line, is_short_line, fast_readable, fast_region_ok, region_ok, region_stats, region_names,
    region_starts, region_measure, line_semicolon, line_name, line_value, line_next,
    line_dot, line_magnitude, line_start_from, has_from, first_from, lemma_first_from, lemma_line_facts,
    lemma_line_digits, lemma_short_line, lemma_short_number_window, lemma_fast_region_is_region,
    lemma_fast_region_step, lemma_region_step, lemma_region_stats_within, lemma_region_names_finite,
    lemma_region_names_step, newline_ended, lemma_region_split, is_first_from, lemma_region_shrink,
    lemma_first_from_skip, lemma_region_start_line, region_values, line_values, lemma_region_names_values,
};
use crate::scan::{find_slow, calculate_local_offset, lemma_block_first};
use crate::accumulate::{
    table_ready, has_room, slot_holds, slots_kept, records_fit, locate_by_bytes, locate_by_word,
    slow_process, lemma_room_subset, lemma_room_after_add, lemma_ready_after_add, lemma_fresh_table,
    names_longer, names_upto, located, keys_kept, new_slots_from, new_slots_counted, counted, lemma_keys_trans,
    lemma_new_slots_trans, lemma_located_keys, lemma_added_keys, has_kind_slot, fresh_fit, slow_kind,
    region_vals, with_region, lemma_fit_ext, lemma_fit_located, lemma_fit_next, lemma_fit_add, lemma_fit_prefix,
};
use crate::record::{lemma_merge_empty, lemma_within_sentinels_closed, empty_stats};
use crate::line_laws::{
    line_after, newline_lines, lemma_newline_lines_are_region, lemma_region_starts_are_line_starts,
    lemma_names_hold_no_line_end, lemma_each_line_counted,
};

verus! {

/// Finds or makes the slot of the station of the line at `start`, given the
/// line's first sixteen bytes and their `;` flags; returns the slot and the
/// distance from `start` to just past the `;`. A name of fewer than sixteen
/// bytes is found by its masked word, one of sixteen or more by its bytes.
fn fast_line_index(map: &mut CustomMap, data: &[u8], start: usize, raw_data: u128, high_bit_mask: u128) -> (r: (usize, usize))
    requires
        table_ready(*old(map)),
        old(map).data() == data@,
        data@.len() < usize::MAX,
        is_line(data@, start as int),
        fast_readable(data@, start as int),
        word_bytes(raw_data) == data@.subrange(start as int, start + 16),
        high_bit_mask == zero_byte_flags(raw_data ^ broadcast(59u8)),
        line_name(data@, start as int).len() <= 16 ==> word_name(line_name(data@, start as int)),
        line_name(data@, start as int).len() >= 16 ==> has_room(
            *old(map),
            Set::empty().insert(line_name(data@, start as int)),
            Set::empty(),
        ),
        line_name(data@, start as int).len() < 16 ==> has_room(
            *old(map),
            Set::empty(),
            Set::empty().insert(line_name(data@, start as int)),
        ),
        short_word_slots(*old(map)),
    ensures
        r.1 == line_semicolon(data@, start as int) - start + 1,
        short_word_slots(*final(map)),
        final(map).filled_by_word()[r.0 as int] == fast_kind(line_name(data@, start as int)),
        old(map).slots()[r.0 as int] is None ==> !has_kind_slot(
            *old(map),
            line_name(data@, start as int),
            fast_kind(line_name(data@, start as int)),
        ),
        table_ready(*final(map)),
        final(map).data() == old(map).data(),
        forall|nb: Set<Seq<u8>>, nw: Set<Seq<u8>>|
            (line_name(data@, start as int).len() >= 16 ==> nb.contains(line_name(data@, start as int))) && (line_name(
                data@,
                start as int,
            ).len() < 16 ==> nw.contains(line_name(data@, start as int))) && has_room(*old(map), nb, nw)
                ==> #[trigger] has_room(*final(map), nb, nw),
        slot_holds(*final(map), r.0 as int, line_name(data@, start as int)),
        located(
            *old(map),
            *final(map),
            r.0 as int,
            start as int,
            line_semicolon(data@, start as int) - start,
            line_name(data@, start as int).len() < 16,
        ),
        slots_kept(old(map).slots(), final(map).slots()),
        forall|n: Seq<u8>| #[trigger] final(map).station_stats(n) == old(map).station_stats(n),
{
    let ghost s = data@;
    let ghost c = line_semicolon(s, start as int);
    proof {
        lemma_line_facts(s, start as int);
        lemma_zero_byte_flags(raw_data, 59u8);
        lemma_block_first(s, start as int, raw_data, 59u8, c);
    }
    let mut len: usize = 0;
    let index;
    if high_bit_mask != 0 {
        assert(high_bit_mask & mask_through(c - start) == top_bit(c - start));
        len += 1 + first_flagged_byte(high_bit_mask);
        proof {
            assert(word_bytes(raw_data).subrange(0, len - 1) =~= s.subrange(start as int, start + len - 1));
        }
        index = locate_by_word(map, start, len - 1, raw_data);
        proof {
            assert(s.subrange(start as int, start + len - 1) =~= line_name(s, start as int));
        }
    } else {
        proof {
            lemma_first_from(s, start + 16, 59u8, c);
            assert(start + 16 + 16 * ((c - (start + 16)) / 16 + 1) == start + 16 * ((c - start) / 16 + 1));
        }
        let (_, found_len) = find_slow(data, start + 16, len + 16);
        len = found_len;
        let ghost old_map = *map;
        index = locate_by_bytes(map, start, len - 1);
        proof {
            assert(s.subrange(start as int, start + len - 1) =~= line_name(s, start as int));
            if old_map.slots()[index as int] is Some && old_map.filled_by_word()[index as int] {
                assert(old_map.slots()[index as int] is Some);
            }
        }
    }
    proof {
        let m = *map;
        assert forall|i: int|
            0 <= i < MAP_SIZE && (#[trigger] m.slots()[i]) is Some && m.filled_by_word()[i] implies entry_name(
            m.data(),
            m.slots()[i].unwrap(),
        ).len() < 16 by {
            if i != index {
                assert(m.slots()[i] == old(map).slots()[i]);
            }
        }
    }
    (index, len)
}

/// A third of the slice, the length of each of its first two parts.
pub open spec fn slice_step(begin: int, end: int) -> int {
    (end - begin) / 3
}

/// Where part `k` (1, 2 or 3) of the slice `begin..end` ends.
pub open spec fn slice_part_end(begin: int, end: int, k: int) -> int {
    if k == 1 {
        begin + slice_step(begin, end)
    } else if k == 2 {
        begin + 2 * slice_step(begin, end)
    } else {
        end
    }
}

/// Where the search for the first line of part `k` starts.
pub open spec fn slice_part_begin(begin: int, end: int, k: int) -> int {
    if k == 1 {
        begin
    } else {
        slice_part_end(begin, end, k - 1)
    }
}

/// The first line of part `k`.
pub open spec fn slice_part_start(s: Seq<u8>, begin: int, end: int, k: int) -> int {
    line_start_from(s, slice_part_begin(begin, end, k))
}

/// From `b` on, a line end can be found by blocks of sixteen bytes (none is
/// looked for at the start of the input).
pub open spec fn start_findable(s: Seq<u8>, b: int) -> bool {
    b > 0 ==> has_from(s, b, 10u8) && b + 16 * ((first_from(s, b, 10u8) - b) / 16 + 1) <= s.len()
}

/// Part `k` of the slice can be scanned: its first line can be found, and
/// its lines form a region whose lines more than 128 bytes before its end
/// are short and readable word at a time.
pub open spec fn slice_part_ok(s: Seq<u8>, begin: int, end: int, k: int) -> bool {
    &&& start_findable(s, slice_part_begin(begin, end, k))
    &&& fast_region_ok(
        s,
        slice_part_start(s, begin, end, k),
        slice_part_end(begin, end, k) - 128,
        slice_part_end(begin, end, k),
    )
}

/// The slice `begin..end` of `s` can be scanned in three parts.
pub open spec fn slice_ok(s: Seq<u8>, begin: int, end: int) -> bool {
    &&& 0 <= begin <= end
    &&& begin + slice_step(begin, end) >= 128
    &&& slice_part_ok(s, begin, end, 1)
    &&& slice_part_ok(s, begin, end, 2)
    &&& slice_part_ok(s, begin, end, 3)
}

/// Statistics of station `name` over part `k` of the slice.
pub open spec fn slice_part_stats(s: Seq<u8>, begin: int, end: int, k: int, name: Seq<u8>) -> Stats {
    region_stats(s, slice_part_start(s, begin, end, k), slice_part_end(begin, end, k), name)
}

/// Statistics of station `name` over the slice.
pub open spec fn slice_stats(s: Seq<u8>, begin: int, end: int, name: Seq<u8>) -> Stats {
    merge_stats(
        merge_stats(slice_part_stats(s, begin, end, 1, name), slice_part_stats(s, begin, end, 2, name)),
        slice_part_stats(s, begin, end, 3, name),
    )
}

/// The station names of part `k` of the slice.
pub open spec fn slice_part_names(s: Seq<u8>, begin: int, end: int, k: int) -> Set<Seq<u8>> {
    region_names(s, slice_part_start(s, begin, end, k), slice_part_end(begin, end, k))
}

/// The station names of the slice.
pub open spec fn slice_names(s: Seq<u8>, begin: int, end: int) -> Set<Seq<u8>> {
    slice_part_names(s, begin, end, 1) + slice_part_names(s, begin, end, 2) + slice_part_names(s, begin, end, 3)
}

/// The starts of the lines of part `k` of the slice.
pub open spec fn slice_part_starts(s: Seq<u8>, begin: int, end: int, k: int) -> Set<int> {
    region_starts(s, slice_part_start(s, begin, end, k), slice_part_end(begin, end, k))
}

/// The starts of the lines of the slice.
pub open spec fn slice_starts(s: Seq<u8>, begin: int, end: int) -> Set<int> {
    slice_part_starts(s, begin, end, 1) + slice_part_starts(s, begin, end, 2) + slice_part_starts(s, begin, end, 3)
}

/// The kind of slot the word-at-a-time scan keeps a name in: by word for
/// fewer than sixteen bytes.
pub open spec fn fast_kind(n: Seq<u8>) -> bool {
    n.len() < 16
}

/// The measurements of station `n` that the word-at-a-time scan adds, in
/// its order, from the lines at `o1`, `o2` and `o3`, while each is before
/// its safe end `f1`, `f2`, `f3`: one line of each part per round.
#[verifier::opaque]
pub open spec fn fast_values(s: Seq<u8>, o1: int, f1: int, o2: int, f2: int, o3: int, f3: int, n: Seq<u8>) -> Seq<int>
    decreases region_measure(o1, f1),
{
    if o1 < f1 && o2 < f2 && o3 < f3 && is_line(s, o1) && is_line(s, o2) && is_line(s, o3) {
        proof {
            lemma_line_facts(s, o1);
        }
        line_values(s, o1, n) + line_values(s, o2, n) + line_values(s, o3, n) + fast_values(
            s,
            line_next(s, o1),
            f1,
            line_next(s, o2),
            f2,
            line_next(s, o3),
            f3,
            n,
        )
    } else {
        Seq::empty()
    }
}

/// Where the word-at-a-time scan from `o1`, `o2` and `o3` stops: the first
/// round at which a part has reached its safe end.
#[verifier::opaque]
pub open spec fn fast_stop(s: Seq<u8>, o1: int, f1: int, o2: int, f2: int, o3: int, f3: int) -> (int, int, int)
    decreases region_measure(o1, f1),
{
    if o1 < f1 && o2 < f2 && o3 < f3 && is_line(s, o1) && is_line(s, o2) && is_line(s, o3) {
        proof {
            lemma_line_facts(s, o1);
        }
        fast_stop(s, line_next(s, o1), f1, line_next(s, o2), f2, line_next(s, o3), f3)
    } else {
        (o1, o2, o3)
    }
}

/// The measurements of the three regions that end at `e1`, `e2` and `e3`,
/// for the slot each goes to in the byte-by-byte scan, region after region.
#[verifier::opaque]
pub open spec fn tail_vals(s: Seq<u8>, o1: int, e1: int, o2: int, e2: int, o3: int, e3: int) -> spec_fn(
    Seq<u8>,
    bool,
) -> Seq<int> {
    |n: Seq<u8>, k: bool|
        if k == slow_kind(n) {
            region_values(s, o1, e1, n) + region_values(s, o2, e2, n) + region_values(s, o3, e3, n)
        } else {
            Seq::<int>::empty()
        }
}

/// The measurements each slot still takes, in order, when the three parts
/// are at `o1`, `o2` and `o3`: those of the word-at-a-time rounds for the
/// slot each goes to there, then those of the rest of each part, byte by
/// byte, for the slot each goes to there. A name of exactly sixteen bytes
/// goes to a slot filled by bytes in the first phase and by word in the
/// second.
#[verifier::opaque]
pub open spec fn scan_future(s: Seq<u8>, o1: int, e1: int, o2: int, e2: int, o3: int, e3: int) -> spec_fn(
    Seq<u8>,
    bool,
) -> Seq<int> {
    |n: Seq<u8>, k: bool|
        {
            let stop = fast_stop(s, o1, e1 - 128, o2, e2 - 128, o3, e3 - 128);
            (if k == fast_kind(n) {
                fast_values(s, o1, e1 - 128, o2, e2 - 128, o3, e3 - 128, n)
            } else {
                Seq::<int>::empty()
            }) + tail_vals(s, stop.0, e1, stop.1, e2, stop.2, e3)(n, k)
        }
}

/// The measurements the slot of kind `k` (by word, or by bytes) for station
/// `n` takes, in the order the scan of the slice adds them.
pub open spec fn scan_values(s: Seq<u8>, begin: int, end: int) -> spec_fn(Seq<u8>, bool) -> Seq<int> {
    scan_future(
        s,
        slice_part_start(s, begin, end, 1),
        slice_part_end(begin, end, 1),
        slice_part_start(s, begin, end, 2),
        slice_part_end(begin, end, 2),
        slice_part_start(s, begin, end, 3),
        slice_part_end(begin, end, 3),
    )
}

/// The measurement of the line at `p`, for the slot it goes to in the
/// word-at-a-time scan, followed by `rest`.
#[verifier::opaque]
pub open spec fn fast_line_then(s: Seq<u8>, p: int, rest: spec_fn(Seq<u8>, bool) -> Seq<int>) -> spec_fn(
    Seq<u8>,
    bool,
) -> Seq<int> {
    |n: Seq<u8>, k: bool|
        if k == fast_kind(n) {
            line_values(s, p, n) + rest(n, k)
        } else {
            rest(n, k)
        }
}

/// Every slot filled by word holds a name of fewer than sixteen bytes.
pub open spec fn short_word_slots(map: CustomMap) -> bool {
    forall|i: int|
        0 <= i < MAP_SIZE && (#[trigger] map.slots()[i]) is Some && map.filled_by_word()[i] ==> entry_name(
            map.data(),
            map.slots()[i].unwrap(),
        ).len() < 16
}

/// Adding the measurement of the line at `p` to the slot of its station,
/// of the kind the word-at-a-time scan uses, leaves `rest` to take.
proof fn lemma_fit_fast_line(
    m1: CustomMap,
    m2: CustomMap,
    s: Seq<u8>,
    index: int,
    p: int,
    rest: spec_fn(Seq<u8>, bool) -> Seq<int>,
)
    requires
        table_ready(m1),
        m1.data() == s,
        0 <= index < MAP_SIZE,
        m2.data() == m1.data(),
        m2.filled_by_word() == m1.filled_by_word(),
        m2.slots().len() == MAP_SIZE,
        m1.slots()[index] is Some,
        m2.slots()[index] is Some,
        m2.slots()[index].unwrap().0 == m1.slots()[index].unwrap().0,
        m2.slots()[index].unwrap().1 == m1.slots()[index].unwrap().1,
        entry_name(s, m1.slots()[index].unwrap()) == line_name(s, p),
        m1.filled_by_word()[index] == fast_kind(line_name(s, p)),
        m2.slots()[index].unwrap().3@ == add_stats(m1.slots()[index].unwrap().3@, line_value(s, p)),
        forall|i: int| 0 <= i < MAP_SIZE && i != index ==> #[trigger] m2.slots()[i] == m1.slots()[i],
        records_fit(m1, fast_line_then(s, p, rest)),
    ensures
        records_fit(m2, rest),
{
    reveal(fast_line_then);
    let nm = line_name(s, p);
    let kd = fast_kind(nm);
    let vals = fast_line_then(s, p, rest);
    assert(vals(nm, kd) =~= seq![line_value(s, p)] + rest(nm, kd));
    assert(rest(nm, kd) =~= vals(nm, kd).drop_first());
    assert forall|n: Seq<u8>, k: bool| !(n == nm && k == kd) implies #[trigger] rest(n, k) == vals(n, k) by {
        if k == fast_kind(n) {
            assert(line_values(s, p, n) =~= Seq::<int>::empty());
            assert(vals(n, k) =~= rest(n, k));
        }
    }
    lemma_fit_add(m1, m2, index, vals, rest);
}

/// Three measurements added, each to the statistics of its own station,
/// against three regions that each lose their first line.
proof fn lemma_three_lines(t: Stats, x1: Stats, x2: Stats, x3: Stats, v1: int, v2: int, v3: int, b1: bool, b2: bool, b3: bool)
    ensures
        ({
            let t1 = if b1 { add_stats(t, v1) } else { t };
            let t2 = if b2 { add_stats(t1, v2) } else { t1 };
            let t3 = if b3 { add_stats(t2, v3) } else { t2 };
            let p1 = if b1 { merge_stats(single_stats(v1), x1) } else { x1 };
            let p2 = if b2 { merge_stats(single_stats(v2), x2) } else { x2 };
            let p3 = if b3 { merge_stats(single_stats(v3), x3) } else { x3 };
            merge_stats(t3, merge_stats(merge_stats(x1, x2), x3)) == merge_stats(t, merge_stats(merge_stats(p1, p2), p3))
        }),
{
}

/// The measurement of the short line whose `;` is at `semicolon`, read from
/// the eight bytes after it; returns its value and the offset of its
/// decimal point from the byte after the `;`.
fn fast_line_value(data: &[u8], semicolon: usize, Ghost(p): Ghost<int>) -> (r: (i32, usize))
    requires
        is_short_line(data@, p),
        fast_readable(data@, p),
        semicolon == line_semicolon(data@, p),
    ensures
        r.0 == line_value(data@, p),
        r.1 == line_dot(data@, p) - semicolon - 1,
{
    let ghost s = data@;
    let n = data.len();
    proof {
        lemma_line_facts(s, p);
    }
    let offset = semicolon + 1;
    let number_word = u64_from_le_bytes(slice_subrange(data, offset, offset + 8));
    proof {
        lemma_line_facts(s, p);
        lemma_short_line(s, p);
        lemma_auto_spec_u64_to_from_le_bytes();
        spec_u64_to_le_bytes_to_open(number_word);
        assert(spec_u64_to_le_bytes(number_word) == s.subrange(offset as int, offset + 8));
        lemma_short_number_window(s, offset as int, s.subrange(offset as int, offset + 8));
    }
    convert_into_number(number_word)
}

/// One round of the word-at-a-time scan: adds to the table the short lines
/// at `offset_1`, `offset_2` and `offset_3`, of the regions that end at
/// `end_1`, `end_2` and `end_3`; returns where the lines after them start.
#[verifier::rlimit(80)]
fn scan_three_lines(
    map: &mut CustomMap,
    data: &[u8],
    offset_1: usize,
    offset_2: usize,
    offset_3: usize,
    Ghost(end_1): Ghost<int>,
    Ghost(end_2): Ghost<int>,
    Ghost(end_3): Ghost<int>,
    Ghost(names): Ghost<Set<Seq<u8>>>,
    Ghost(nb): Ghost<Set<Seq<u8>>>,
    Ghost(nw): Ghost<Set<Seq<u8>>>,
    Ghost(rest): Ghost<spec_fn(Seq<u8>, bool) -> Seq<int>>,
) -> (r: (usize, usize, usize))
    requires
        table_ready(*old(map)),
        old(map).data() == data@,
        data@.len() < usize::MAX,
        is_short_line(data@, offset_1 as int) && fast_readable(data@, offset_1 as int),
        is_short_line(data@, offset_2 as int) && fast_readable(data@, offset_2 as int),
        is_short_line(data@, offset_3 as int) && fast_readable(data@, offset_3 as int),
        region_ok(data@, offset_1 as int, end_1) && offset_1 <= end_1,
        region_ok(data@, offset_2 as int, end_2) && offset_2 <= end_2,
        region_ok(data@, offset_3 as int, end_3) && offset_3 <= end_3,
        names.contains(line_name(data@, offset_1 as int)),
        names.contains(line_name(data@, offset_2 as int)),
        names.contains(line_name(data@, offset_3 as int)),
        forall|m: Seq<u8>| #[trigger] names.contains(m) ==> m.len() <= 16 ==> word_name(m),
        has_room(*old(map), nb, nw),
        in_kind_names(line_name(data@, offset_1 as int), nb, nw),
        in_kind_names(line_name(data@, offset_2 as int), nb, nw),
        in_kind_names(line_name(data@, offset_3 as int), nb, nw),
        short_word_slots(*old(map)),
        records_fit(
            *old(map),
            fast_line_then(
                data@,
                offset_1 as int,
                fast_line_then(data@, offset_2 as int, fast_line_then(data@, offset_3 as int, rest)),
            ),
        ),
    ensures
        r.0 == line_next(data@, offset_1 as int),
        r.1 == line_next(data@, offset_2 as int),
        r.2 == line_next(data@, offset_3 as int),
        table_ready(*final(map)),
        final(map).data() == data@,
        has_room(*final(map), nb, nw),
        short_word_slots(*final(map)),
        records_fit(*final(map), rest),
        forall|m: Seq<u8>|
            #[trigger] merge_stats(
                final(map).station_stats(m),
                merge_stats(
                    merge_stats(region_stats(data@, r.0 as int, end_1, m), region_stats(data@, r.1 as int, end_2, m)),
                    region_stats(data@, r.2 as int, end_3, m),
                ),
            ) == merge_stats(
                old(map).station_stats(m),
                merge_stats(
                    merge_stats(region_stats(data@, offset_1 as int, end_1, m), region_stats(data@, offset_2 as int, end_2, m)),
                    region_stats(data@, offset_3 as int, end_3, m),
                ),
            ),
        keys_kept(*old(map), *final(map)),
        new_slots_from(
            *old(map),
            *final(map),
            Set::empty().insert(offset_1 as int).insert(offset_2 as int).insert(offset_3 as int),
        ),
        new_slots_counted(*old(map), *final(map)),
{
    let ghost s = data@;
    let ghost map_in = *map;
    let mut offset_1 = offset_1;
    let mut offset_2 = offset_2;
    let mut offset_3 = offset_3;
    let start_1 = offset_1;
    let start_2 = offset_2;
    let start_3 = offset_3;
    let ghost p1 = start_1 as int;
    let ghost p2 = start_2 as int;
    let ghost p3 = start_3 as int;
    let ghost nm1 = line_name(s, p1);
    let ghost nm2 = line_name(s, p2);
    let ghost nm3 = line_name(s, p3);
    proof {
        lemma_region_step(s, p1, end_1, nm1);
        lemma_region_step(s, p2, end_2, nm2);
        lemma_region_step(s, p3, end_3, nm3);
        lemma_line_facts(s, p1);
        lemma_line_facts(s, p2);
        lemma_line_facts(s, p3);
        lemma_line_digits(s, p1);
        lemma_line_digits(s, p2);
        lemma_line_digits(s, p3);
        lemma_region_names_step(s, p1, end_1);
        lemma_region_names_step(s, p2, end_2);
        lemma_region_names_step(s, p3, end_3);
    }
    let raw_data_1 = load_word(data, offset_1);
    let high_bit_mask_1 = find_in_rawdata(raw_data_1);
    let raw_data_2 = load_word(data, offset_2);
    let high_bit_mask_2 = find_in_rawdata(raw_data_2);
    let raw_data_3 = load_word(data, offset_3);
    let high_bit_mask_3 = find_in_rawdata(raw_data_3);
    let ghost map0 = *map;
    proof {
        lemma_room_for_line(*map, nb, nw, nm1);
    }
    let (index_1, len_1) = fast_line_index(map, data, start_1, raw_data_1, high_bit_mask_1);
    let ghost map1 = *map;
    proof {
        assert(has_room(*map, nb, nw));
        lemma_room_for_line(*map, nb, nw, nm2);
    }
    let (index_2, len_2) = fast_line_index(map, data, start_2, raw_data_2, high_bit_mask_2);
    let ghost map2 = *map;
    proof {
        assert(has_room(*map, nb, nw));
        lemma_room_for_line(*map, nb, nw, nm3);
    }
    let (index_3, len_3) = fast_line_index(map, data, start_3, raw_data_3, high_bit_mask_3);
    let ghost map3 = *map;
    let ghost v2 = fast_line_then(s, p2, fast_line_then(s, p3, rest));
    let ghost v1 = fast_line_then(s, p1, v2);
    let ghost v3 = fast_line_then(s, p3, rest);
    proof {
        assert(has_room(*map, nb, nw));
        assert(map2.slots()[index_1 as int] == map1.slots()[index_1 as int]);
        assert(map3.slots()[index_1 as int] == map1.slots()[index_1 as int]);
        assert(map3.slots()[index_2 as int] == map2.slots()[index_2 as int]);
        assert(map3.filled_by_word()[index_1 as int] == map1.filled_by_word()[index_1 as int]);
        assert(map3.filled_by_word()[index_2 as int] == map2.filled_by_word()[index_2 as int]);
        lemma_fit_located(map0, map1, index_1 as int, p1, line_semicolon(s, p1) - p1, fast_kind(nm1), v1);
        lemma_fit_located(map1, map2, index_2 as int, p2, line_semicolon(s, p2) - p2, fast_kind(nm2), v1);
        lemma_fit_located(map2, map3, index_3 as int, p3, line_semicolon(s, p3) - p3, fast_kind(nm3), v1);
        assert(line_values(s, p1, nm1) =~= seq![line_value(s, p1)]);
        lemma_fast_line_then_at(s, p1, v2, nm1, fast_kind(nm1));
        lemma_fit_next(map3, index_1 as int, v1);
    }
    offset_1 = start_1 + len_1;
    let (value_1, num_offset_1) = fast_line_value(data, offset_1 - 1, Ghost(p1));
    map.add_value(index_1, value_1);
    let ghost map4 = *map;
    let ghost n1 = line_next(s, p1);
    let ghost n2 = line_next(s, p2);
    let ghost n3 = line_next(s, p3);
    offset_2 = start_2 + len_2;
    let (value_2, num_offset_2) = fast_line_value(data, offset_2 - 1, Ghost(p2));
    proof {
        lemma_fit_fast_line(map3, map4, s, index_1 as int, p1, v2);
        lemma_ready_after_add(map3, map4, index_1 as int);
        lemma_room_after_add(map3, map4, index_1 as int, nb, nw);
        assert(map4.slots()[index_2 as int] == map3.slots()[index_2 as int] || index_2 == index_1);
        assert(line_values(s, p2, nm2) =~= seq![line_value(s, p2)]);
        lemma_fast_line_then_at(s, p2, v3, nm2, fast_kind(nm2));
        lemma_fit_next(map4, index_2 as int, v2);
    }
    map.add_value(index_2, value_2);
    let ghost map5 = *map;
    offset_3 = start_3 + len_3;
    let (value_3, num_offset_3) = fast_line_value(data, offset_3 - 1, Ghost(p3));
    proof {
        lemma_fit_fast_line(map4, map5, s, index_2 as int, p2, v3);
        lemma_ready_after_add(map4, map5, index_2 as int);
        lemma_room_after_add(map4, map5, index_2 as int, nb, nw);
        assert(line_values(s, p3, nm3) =~= seq![line_value(s, p3)]);
        lemma_fast_line_then_at(s, p3, rest, nm3, fast_kind(nm3));
        lemma_fit_next(map5, index_3 as int, v3);
    }
    map.add_value(index_3, value_3);
    let ghost map6 = *map;
    offset_1 += num_offset_1 + 3;
    offset_2 += num_offset_2 + 3;
    offset_3 += num_offset_3 + 3;
    proof {
        lemma_fit_fast_line(map5, map6, s, index_3 as int, p3, rest);
        lemma_short_after_add(map3, map4, index_1 as int);
        lemma_short_after_add(map4, map5, index_2 as int);
        lemma_short_after_add(map5, map6, index_3 as int);
        lemma_ready_after_add(map5, map6, index_3 as int);
        lemma_room_after_add(map5, map6, index_3 as int, nb, nw);
        assert(offset_1 == line_next(s, p1));
        assert(offset_2 == line_next(s, p2));
        assert(offset_3 == line_next(s, p3));
        lemma_three_slots(map0, map1, map2, map3, map4, map5, map6, index_1 as int, index_2 as int, index_3 as int, p1, p2, p3);
        assert forall|m: Seq<u8>|
            #[trigger] merge_stats(
                map.station_stats(m),
                merge_stats(
                    merge_stats(region_stats(s, offset_1 as int, end_1, m), region_stats(s, offset_2 as int, end_2, m)),
                    region_stats(s, offset_3 as int, end_3, m),
                ),
            ) == merge_stats(
                map_in.station_stats(m),
                merge_stats(
                    merge_stats(region_stats(s, p1, end_1, m), region_stats(s, p2, end_2, m)),
                    region_stats(s, p3, end_3, m),
                ),
            ) by {
            lemma_region_step(s, p1, end_1, m);
            lemma_region_step(s, p2, end_2, m);
            lemma_region_step(s, p3, end_3, m);
            lemma_three_lines(
                map0.station_stats(m),
                region_stats(s, offset_1 as int, end_1, m),
                region_stats(s, offset_2 as int, end_2, m),
                region_stats(s, offset_3 as int, end_3, m),
                value_1 as int,
                value_2 as int,
                value_3 as int,
                nm1 == m,
                nm2 == m,
                nm3 == m,
            );
        }
    }
    (offset_1, offset_2, offset_3)
}

/// Adding a measurement to a slot keeps the slots filled by word holding
/// short names.
proof fn lemma_short_after_add(m1: CustomMap, m2: CustomMap, index: int)
    requires
        short_word_slots(m1),
        0 <= index < MAP_SIZE,
        m2.data() == m1.data(),
        m2.filled_by_word() == m1.filled_by_word(),
        m1.slots()[index] is Some,
        m2.slots()[index] is Some,
        m2.slots()[index].unwrap().0 == m1.slots()[index].unwrap().0,
        m2.slots()[index].unwrap().1 == m1.slots()[index].unwrap().1,
        forall|i: int| 0 <= i < MAP_SIZE && i != index ==> #[trigger] m2.slots()[i] == m1.slots()[i],
    ensures
        short_word_slots(m2),
{
    assert forall|i: int|
        0 <= i < MAP_SIZE && (#[trigger] m2.slots()[i]) is Some && m2.filled_by_word()[i] implies entry_name(
        m2.data(),
        m2.slots()[i].unwrap(),
    ).len() < 16 by {
        assert(m1.slots()[i] is Some);
    }
}

/// `nm` is among the names of the kind of slot the word-at-a-time scan
/// keeps it in: `nw` for those kept by word, `nb` for those kept by bytes.
pub open spec fn in_kind_names(nm: Seq<u8>, nb: Set<Seq<u8>>, nw: Set<Seq<u8>>) -> bool {
    &&& fast_kind(nm) ==> nw.contains(nm)
    &&& !fast_kind(nm) ==> nb.contains(nm)
}

/// The table has room for the name of a line to be found by the kind of
/// comparison its length calls for.
proof fn lemma_room_for_line(map: CustomMap, nb: Set<Seq<u8>>, nw: Set<Seq<u8>>, nm: Seq<u8>)
    requires
        has_room(map, nb, nw),
        in_kind_names(nm, nb, nw),
    ensures
        nm.len() >= 16 ==> has_room(map, Set::empty().insert(nm), Set::empty()),
        nm.len() < 16 ==> has_room(map, Set::empty(), Set::empty().insert(nm)),
{
    if nm.len() >= 16 {
        lemma_room_subset(map, nb, nw, Set::empty().insert(nm), Set::empty());
    } else {
        lemma_room_subset(map, nb, nw, Set::empty(), Set::empty().insert(nm));
    }
}

/// Three lookups, then an addition to each slot found, keep the filled
/// slots, and each slot they filled names one of the three lines and has
/// taken a measurement.
proof fn lemma_three_slots(
    m0: CustomMap,
    m1: CustomMap,
    m2: CustomMap,
    m3: CustomMap,
    m4: CustomMap,
    m5: CustomMap,
    m6: CustomMap,
    i1: int,
    i2: int,
    i3: int,
    p1: int,
    p2: int,
    p3: int,
)
    requires
        table_ready(m0),
        table_ready(m1),
        table_ready(m2),
        table_ready(m3),
        table_ready(m4),
        table_ready(m5),
        m1.data() == m0.data(),
        m2.data() == m0.data(),
        m3.data() == m0.data(),
        m4.data() == m0.data(),
        m5.data() == m0.data(),
        m6.data() == m0.data(),
        located(m0, m1, i1, p1, line_semicolon(m0.data(), p1) - p1, line_name(m0.data(), p1).len() < 16),
        located(m1, m2, i2, p2, line_semicolon(m0.data(), p2) - p2, line_name(m0.data(), p2).len() < 16),
        located(m2, m3, i3, p3, line_semicolon(m0.data(), p3) - p3, line_name(m0.data(), p3).len() < 16),
        is_line(m0.data(), p1),
        is_line(m0.data(), p2),
        is_line(m0.data(), p3),
        m1.slots()[i1] is Some,
        m2.slots()[i2] is Some,
        m3.slots()[i3] is Some,
        m3.slots()[i1] is Some,
        m3.slots()[i2] is Some,
        m4.filled_by_word() == m3.filled_by_word(),
        m4.slots().len() == MAP_SIZE,
        m4.slots()[i1] is Some,
        m4.slots()[i1].unwrap().0 == m3.slots()[i1].unwrap().0,
        m4.slots()[i1].unwrap().1 == m3.slots()[i1].unwrap().1,
        m4.slots()[i1].unwrap().2 == m3.slots()[i1].unwrap().2,
        exists|v: int| m4.slots()[i1].unwrap().3@ == add_stats(m3.slots()[i1].unwrap().3@, v),
        forall|i: int| 0 <= i < MAP_SIZE && i != i1 ==> #[trigger] m4.slots()[i] == m3.slots()[i],
        m5.filled_by_word() == m4.filled_by_word(),
        m5.slots().len() == MAP_SIZE,
        m5.slots()[i2] is Some,
        m5.slots()[i2].unwrap().0 == m4.slots()[i2].unwrap().0,
        m5.slots()[i2].unwrap().1 == m4.slots()[i2].unwrap().1,
        m5.slots()[i2].unwrap().2 == m4.slots()[i2].unwrap().2,
        exists|v: int| m5.slots()[i2].unwrap().3@ == add_stats(m4.slots()[i2].unwrap().3@, v),
        forall|i: int| 0 <= i < MAP_SIZE && i != i2 ==> #[trigger] m5.slots()[i] == m4.slots()[i],
        m6.filled_by_word() == m5.filled_by_word(),
        m6.slots().len() == MAP_SIZE,
        m6.slots()[i3] is Some,
        m6.slots()[i3].unwrap().0 == m5.slots()[i3].unwrap().0,
        m6.slots()[i3].unwrap().1 == m5.slots()[i3].unwrap().1,
        m6.slots()[i3].unwrap().2 == m5.slots()[i3].unwrap().2,
        exists|v: int| m6.slots()[i3].unwrap().3@ == add_stats(m5.slots()[i3].unwrap().3@, v),
        forall|i: int| 0 <= i < MAP_SIZE && i != i3 ==> #[trigger] m6.slots()[i] == m5.slots()[i],
    ensures
        keys_kept(m0, m6),
        new_slots_from(m0, m6, Set::empty().insert(p1).insert(p2).insert(p3)),
        new_slots_counted(m0, m6),
{
    let s = m0.data();
    let all = Set::empty().insert(p1).insert(p2).insert(p3);
    lemma_line_facts(s, p1);
    lemma_line_facts(s, p2);
    lemma_line_facts(s, p3);
    lemma_located_keys(m0, m1, i1, p1, line_semicolon(s, p1) - p1, line_name(s, p1).len() < 16);
    lemma_located_keys(m1, m2, i2, p2, line_semicolon(s, p2) - p2, line_name(s, p2).len() < 16);
    lemma_located_keys(m2, m3, i3, p3, line_semicolon(s, p3) - p3, line_name(s, p3).len() < 16);
    let v1 = choose|v: int| m4.slots()[i1].unwrap().3@ == add_stats(m3.slots()[i1].unwrap().3@, v);
    let v2 = choose|v: int| m5.slots()[i2].unwrap().3@ == add_stats(m4.slots()[i2].unwrap().3@, v);
    let v3 = choose|v: int| m6.slots()[i3].unwrap().3@ == add_stats(m5.slots()[i3].unwrap().3@, v);
    lemma_added_keys(m3, m4, i1, v1);
    lemma_added_keys(m4, m5, i2, v2);
    lemma_added_keys(m5, m6, i3, v3);
    lemma_keys_trans(m0, m1, m2);
    lemma_keys_trans(m0, m2, m3);
    lemma_keys_trans(m0, m3, m4);
    lemma_keys_trans(m0, m4, m5);
    lemma_keys_trans(m0, m5, m6);
    lemma_keys_trans(m4, m5, m6);
    lemma_new_slots_trans(m0, m1, m2, Set::empty().insert(p1), Set::empty().insert(p2), all);
    lemma_new_slots_trans(m0, m2, m3, all, Set::empty().insert(p3), all);
    lemma_new_slots_trans(m0, m3, m4, all, Set::empty(), all);
    lemma_new_slots_trans(m0, m4, m5, all, Set::empty(), all);
    lemma_new_slots_trans(m0, m5, m6, all, Set::empty(), all);
    assert(counted(m6.slots()[i1].unwrap().3)) by {
        assert(m4.slots()[i1] is Some);
    }
    assert(counted(m6.slots()[i2].unwrap().3)) by {
        assert(m5.slots()[i2] is Some);
    }
    assert forall|i: int| 0 <= i < MAP_SIZE && m0.slots()[i] is None && (#[trigger] m6.slots()[i]) is Some implies counted(
        m6.slots()[i].unwrap().3,
    ) by {
        if m3.slots()[i] is None {
            assert(i != i1 && i != i2 && i != i3);
            assert(m6.slots()[i] == m5.slots()[i]);
            assert(m5.slots()[i] == m4.slots()[i]);
            assert(m4.slots()[i] == m3.slots()[i]);
        } else if m1.slots()[i] is Some {
            assert(i == i1);
        } else if m2.slots()[i] is Some {
            assert(i == i2);
        } else {
            assert(i == i3);
        }
    }
}

/// One round of the word-at-a-time scan, while every part is before its
/// safe end: the measurements of its three lines come first, and the scan
/// stops where it stops from the next three lines.
proof fn lemma_fast_step(s: Seq<u8>, q1: int, f1: int, q2: int, f2: int, q3: int, f3: int)
    requires
        q1 < f1 && q2 < f2 && q3 < f3,
        is_line(s, q1) && is_line(s, q2) && is_line(s, q3),
    ensures
        fast_stop(s, q1, f1, q2, f2, q3, f3) == fast_stop(
            s,
            line_next(s, q1),
            f1,
            line_next(s, q2),
            f2,
            line_next(s, q3),
            f3,
        ),
        forall|m: Seq<u8>|
            #[trigger] fast_values(s, q1, f1, q2, f2, q3, f3, m) == line_values(s, q1, m) + line_values(s, q2, m)
                + line_values(s, q3, m) + fast_values(s, line_next(s, q1), f1, line_next(s, q2), f2, line_next(s, q3), f3, m),
{
    reveal(fast_values);
    reveal(fast_stop);
}

/// Once a part is at its safe end, the word-at-a-time scan stops there and
/// adds nothing.
proof fn lemma_fast_done(s: Seq<u8>, o1: int, f1: int, o2: int, f2: int, o3: int, f3: int)
    requires
        !(o1 < f1 && o2 < f2 && o3 < f3),
    ensures
        fast_stop(s, o1, f1, o2, f2, o3, f3) == (o1, o2, o3),
        forall|m: Seq<u8>| #[trigger] fast_values(s, o1, f1, o2, f2, o3, f3, m) == Seq::<int>::empty(),
{
    reveal(fast_values);
    reveal(fast_stop);
}

proof fn lemma_scan_round_at(s: Seq<u8>, q1: int, e1: int, q2: int, e2: int, q3: int, e3: int, m: Seq<u8>, k: bool)
    requires
        q1 < e1 - 128 && q2 < e2 - 128 && q3 < e3 - 128,
        is_line(s, q1) && is_line(s, q2) && is_line(s, q3),
    ensures
        fast_line_then(
            s,
            q1,
            fast_line_then(
                s,
                q2,
                fast_line_then(s, q3, scan_future(s, line_next(s, q1), e1, line_next(s, q2), e2, line_next(s, q3), e3)),
            ),
        )(m, k) == scan_future(s, q1, e1, q2, e2, q3, e3)(m, k),
{
    let (f1, f2, f3) = (e1 - 128, e2 - 128, e3 - 128);
    let (n1, n2, n3) = (line_next(s, q1), line_next(s, q2), line_next(s, q3));
    lemma_fast_step(s, q1, f1, q2, f2, q3, f3);
    let stop = fast_stop(s, q1, f1, q2, f2, q3, f3);
    let tail = tail_vals(s, stop.0, e1, stop.1, e2, stop.2, e3)(m, k);
    let fv = fast_values(s, q1, f1, q2, f2, q3, f3, m);
    let fv2 = fast_values(s, n1, f1, n2, f2, n3, f3, m);
    let (l1, l2, l3) = (line_values(s, q1, m), line_values(s, q2, m), line_values(s, q3, m));
    assert(fv == l1 + l2 + l3 + fv2);
    let rest = scan_future(s, n1, e1, n2, e2, n3, e3);
    let sf = scan_future(s, q1, e1, q2, e2, q3, e3);
    let e = Seq::<int>::empty();
    lemma_scan_future_at(s, n1, e1, n2, e2, n3, e3, m, k);
    lemma_scan_future_at(s, q1, e1, q2, e2, q3, e3, m, k);
    let r3 = fast_line_then(s, q3, rest);
    let r2 = fast_line_then(s, q2, r3);
    lemma_fast_line_then_at(s, q3, rest, m, k);
    lemma_fast_line_then_at(s, q2, r3, m, k);
    lemma_fast_line_then_at(s, q1, r2, m, k);
    if k == fast_kind(m) {
        assert(l1 + (l2 + (l3 + (fv2 + tail))) =~= (l1 + l2 + l3 + fv2) + tail);
    }
}

/// What `fast_line_then` holds for one name and kind.
proof fn lemma_fast_line_then_at(s: Seq<u8>, p: int, rest: spec_fn(Seq<u8>, bool) -> Seq<int>, m: Seq<u8>, k: bool)
    ensures
        fast_line_then(s, p, rest)(m, k) == if k == fast_kind(m) {
            line_values(s, p, m) + rest(m, k)
        } else {
            rest(m, k)
        },
{
    reveal(fast_line_then);
}

/// What `scan_future` holds for one name and kind.
proof fn lemma_scan_future_at(s: Seq<u8>, o1: int, e1: int, o2: int, e2: int, o3: int, e3: int, m: Seq<u8>, k: bool)
    ensures
        ({
            let stop = fast_stop(s, o1, e1 - 128, o2, e2 - 128, o3, e3 - 128);
            scan_future(s, o1, e1, o2, e2, o3, e3)(m, k) == (if k == fast_kind(m) {
                fast_values(s, o1, e1 - 128, o2, e2 - 128, o3, e3 - 128, m)
            } else {
                Seq::<int>::empty()
            }) + tail_vals(s, stop.0, e1, stop.1, e2, stop.2, e3)(m, k)
        }),
{
    reveal(scan_future);
}

/// A round of the word-at-a-time scan takes the measurements of its three
/// lines, for the slots they go to there, before what comes after.
proof fn lemma_scan_round(s: Seq<u8>, q1: int, e1: int, q2: int, e2: int, q3: int, e3: int)
    requires
        q1 < e1 - 128 && q2 < e2 - 128 && q3 < e3 - 128,
        is_line(s, q1) && is_line(s, q2) && is_line(s, q3),
    ensures
        forall|m: Seq<u8>, k: bool|
            #[trigger] fast_line_then(
                s,
                q1,
                fast_line_then(
                    s,
                    q2,
                    fast_line_then(
                        s,
                        q3,
                        scan_future(s, line_next(s, q1), e1, line_next(s, q2), e2, line_next(s, q3), e3),
                    ),
                ),
            )(m, k) == scan_future(s, q1, e1, q2, e2, q3, e3)(m, k),
{
    assert forall|m: Seq<u8>, k: bool|
        #[trigger] fast_line_then(
            s,
            q1,
            fast_line_then(
                s,
                q2,
                fast_line_then(s, q3, scan_future(s, line_next(s, q1), e1, line_next(s, q2), e2, line_next(s, q3), e3)),
            ),
        )(m, k) == scan_future(s, q1, e1, q2, e2, q3, e3)(m, k) by {
        lemma_scan_round_at(s, q1, e1, q2, e2, q3, e3, m, k);
    }
}

/// Once a part has reached its safe end, what is left to take is the rest
/// of each part, byte by byte.
proof fn lemma_scan_exit(s: Seq<u8>, o1: int, e1: int, o2: int, e2: int, o3: int, e3: int)
    requires
        !(o1 < e1 - 128 && o2 < e2 - 128 && o3 < e3 - 128),
    ensures
        forall|m: Seq<u8>, k: bool|
            #[trigger] tail_vals(s, o1, e1, o2, e2, o3, e3)(m, k) == scan_future(s, o1, e1, o2, e2, o3, e3)(m, k),
{
    reveal(scan_future);
    lemma_fast_done(s, o1, e1 - 128, o2, e2 - 128, o3, e3 - 128);
    let sf = scan_future(s, o1, e1, o2, e2, o3, e3);
    let tv = tail_vals(s, o1, e1, o2, e2, o3, e3);
    assert forall|m: Seq<u8>, k: bool| #[trigger] tv(m, k) == sf(m, k) by {
        assert(fast_values(s, o1, e1 - 128, o2, e2 - 128, o3, e3 - 128, m) == Seq::<int>::empty());
        assert(tv(m, k) =~= sf(m, k));
    }
}

/// Adds to the table, byte by byte, the rest of each of the three regions.
fn finish_regions(
    map: &mut CustomMap,
    data: &[u8],
    offset_1: usize,
    end_1: usize,
    offset_2: usize,
    end_2: usize,
    offset_3: usize,
    end_3: usize,
    Ghost(names): Ghost<Set<Seq<u8>>>,
    Ghost(nb): Ghost<Set<Seq<u8>>>,
    Ghost(nw): Ghost<Set<Seq<u8>>>,
)
    requires
        table_ready(*old(map)),
        old(map).data() == data@,
        data@.len() < usize::MAX,
        region_ok(data@, offset_1 as int, end_1 as int),
        region_ok(data@, offset_2 as int, end_2 as int),
        region_ok(data@, offset_3 as int, end_3 as int),
        region_names(data@, offset_1 as int, end_1 as int).subset_of(names),
        region_names(data@, offset_2 as int, end_2 as int).subset_of(names),
        region_names(data@, offset_3 as int, end_3 as int).subset_of(names),
        forall|m: Seq<u8>| #[trigger] names.contains(m) ==> m.len() <= 16 ==> word_name(m),
        has_room(*old(map), nb, nw),
        names_longer(region_names(data@, offset_1 as int, end_1 as int), 16).subset_of(nb),
        names_longer(region_names(data@, offset_2 as int, end_2 as int), 16).subset_of(nb),
        names_longer(region_names(data@, offset_3 as int, end_3 as int), 16).subset_of(nb),
        names_upto(region_names(data@, offset_1 as int, end_1 as int), 16).subset_of(nw),
        names_upto(region_names(data@, offset_2 as int, end_2 as int), 16).subset_of(nw),
        names_upto(region_names(data@, offset_3 as int, end_3 as int), 16).subset_of(nw),
        records_fit(
            *old(map),
            tail_vals(data@, offset_1 as int, end_1 as int, offset_2 as int, end_2 as int, offset_3 as int, end_3 as int),
        ),
    ensures
        table_ready(*final(map)),
        final(map).data() == data@,
        forall|m: Seq<u8>|
            #[trigger] final(map).station_stats(m) == merge_stats(
                old(map).station_stats(m),
                merge_stats(
                    merge_stats(region_stats(data@, offset_1 as int, end_1 as int, m), region_stats(data@, offset_2 as int, end_2 as int, m)),
                    region_stats(data@, offset_3 as int, end_3 as int, m),
                ),
            ),
        keys_kept(*old(map), *final(map)),
        new_slots_from(
            *old(map),
            *final(map),
            region_starts(data@, offset_1 as int, end_1 as int) + region_starts(data@, offset_2 as int, end_2 as int)
                + region_starts(data@, offset_3 as int, end_3 as int),
        ),
        new_slots_counted(*old(map), *final(map)),
{
    let ghost s = data@;
    let ghost t0 = *map;
    let ghost o1 = offset_1 as int;
    let ghost o2 = offset_2 as int;
    let ghost o3 = offset_3 as int;
    let ghost r1 = |m: Seq<u8>| region_stats(s, o1, end_1 as int, m);
    let ghost r2 = |m: Seq<u8>| region_stats(s, o2, end_2 as int, m);
    let ghost r3 = |m: Seq<u8>| region_stats(s, o3, end_3 as int, m);
    let ghost all = region_starts(s, o1, end_1 as int) + region_starts(s, o2, end_2 as int) + region_starts(
        s,
        o3,
        end_3 as int,
    );
    let ghost w3 = region_vals(s, o3, end_3 as int);
    let ghost w23 = with_region(s, o2, end_2 as int, w3);
    let ghost w123 = with_region(s, o1, end_1 as int, w23);
    proof {
        lemma_room_subset(
            *map,
            nb,
            nw,
            names_longer(region_names(s, o1, end_1 as int), 16),
            names_upto(region_names(s, o1, end_1 as int), 16),
        );
        let tv = tail_vals(s, o1, end_1 as int, o2, end_2 as int, o3, end_3 as int);
        reveal(tail_vals);
        assert forall|m: Seq<u8>, k: bool| #[trigger] w123(m, k) == tv(m, k) by {
            assert(w123(m, k) =~= tv(m, k));
        }
        lemma_fit_ext(*map, tv, w123);
        let r1v = region_vals(s, o1, end_1 as int);
        assert forall|m: Seq<u8>, k: bool| #[trigger] w123(m, k) == r1v(m, k) + w23(m, k) by {
            assert(w123(m, k) =~= r1v(m, k) + w23(m, k));
        }
        lemma_fit_prefix(*map, w123, r1v, w23);
    }
    slow_process(data, offset_1, end_1, map);
    let ghost t1 = *map;
    proof {
        assert(has_room(*map, nb, nw));
        assert(records_fit(*map, w23));
        lemma_room_subset(
            *map,
            nb,
            nw,
            names_longer(region_names(s, o2, end_2 as int), 16),
            names_upto(region_names(s, o2, end_2 as int), 16),
        );
        let r2v = region_vals(s, o2, end_2 as int);
        assert forall|m: Seq<u8>, k: bool| #[trigger] w23(m, k) == r2v(m, k) + w3(m, k) by {
            assert(w23(m, k) =~= r2v(m, k) + w3(m, k));
        }
        lemma_fit_prefix(*map, w23, r2v, w3);
    }
    slow_process(data, offset_2, end_2, map);
    let ghost t2 = *map;
    proof {
        assert(has_room(*map, nb, nw));
        assert(records_fit(*map, w3));
        lemma_room_subset(
            *map,
            nb,
            nw,
            names_longer(region_names(s, o3, end_3 as int), 16),
            names_upto(region_names(s, o3, end_3 as int), 16),
        );
    }
    slow_process(data, offset_3, end_3, map);
    proof {
        assert forall|m: Seq<u8>| #[trigger] map.station_stats(m) == merge_stats(
            t0.station_stats(m),
            merge_stats(merge_stats(r1(m), r2(m)), r3(m)),
        ) by {
            lemma_merge_associative(t0.station_stats(m), r1(m), r2(m));
            lemma_merge_associative(t0.station_stats(m), merge_stats(r1(m), r2(m)), r3(m));
        }
        lemma_keys_trans(t0, t1, t2);
        lemma_keys_trans(t0, t2, *map);
        lemma_new_slots_trans(t0, t1, t2, region_starts(s, o1, end_1 as int), region_starts(s, o2, end_2 as int), all);
        lemma_new_slots_trans(t0, t2, *map, all, region_starts(s, o3, end_3 as int), all);
    }
}

/// The station names of the slice whose slot of kind `by_word` takes at
/// least one measurement: each takes one slot of that kind.
pub open spec fn slot_names(s: Seq<u8>, begin: int, end: int, by_word: bool) -> Set<Seq<u8>> {
    slice_names(s, begin, end).filter(|n: Seq<u8>| scan_values(s, begin, end)(n, by_word).len() > 0)
}

/// What is left to take when the parts are at `o1`, `o2` and `o3` is left
/// of what the scan of the slice takes: no slot that takes nothing in the
/// whole scan has anything left.
pub open spec fn future_within(s: Seq<u8>, begin: int, end: int, o1: int, e1: int, o2: int, e2: int, o3: int, e3: int) -> bool {
    forall|n: Seq<u8>, k: bool|
        (#[trigger] scan_future(s, o1, e1, o2, e2, o3, e3)(n, k)).len() > 0 ==> scan_values(s, begin, end)(n, k).len()
            > 0
}

/// What `tail_vals` holds for one name and kind.
proof fn lemma_tail_vals_at(s: Seq<u8>, o1: int, e1: int, o2: int, e2: int, o3: int, e3: int, m: Seq<u8>, k: bool)
    ensures
        tail_vals(s, o1, e1, o2, e2, o3, e3)(m, k) == if k == slow_kind(m) {
            region_values(s, o1, e1, m) + region_values(s, o2, e2, m) + region_values(s, o3, e3, m)
        } else {
            Seq::<int>::empty()
        },
{
    reveal(tail_vals);
}

/// A round of the word-at-a-time scan leaves no slot more to take, and
/// each of its three lines has its measurement still to take.
proof fn lemma_round_heads(s: Seq<u8>, q1: int, e1: int, q2: int, e2: int, q3: int, e3: int)
    requires
        q1 < e1 - 128 && q2 < e2 - 128 && q3 < e3 - 128,
        is_line(s, q1) && is_line(s, q2) && is_line(s, q3),
    ensures
        forall|n: Seq<u8>, k: bool|
            (#[trigger] scan_future(s, line_next(s, q1), e1, line_next(s, q2), e2, line_next(s, q3), e3)(n, k)).len()
                <= scan_future(s, q1, e1, q2, e2, q3, e3)(n, k).len(),
        scan_future(s, q1, e1, q2, e2, q3, e3)(line_name(s, q1), fast_kind(line_name(s, q1))).len() > 0,
        scan_future(s, q1, e1, q2, e2, q3, e3)(line_name(s, q2), fast_kind(line_name(s, q2))).len() > 0,
        scan_future(s, q1, e1, q2, e2, q3, e3)(line_name(s, q3), fast_kind(line_name(s, q3))).len() > 0,
{
    let rest = scan_future(s, line_next(s, q1), e1, line_next(s, q2), e2, line_next(s, q3), e3);
    let r3 = fast_line_then(s, q3, rest);
    let r2 = fast_line_then(s, q2, r3);
    assert forall|n: Seq<u8>, k: bool| (#[trigger] rest(n, k)).len() <= scan_future(s, q1, e1, q2, e2, q3, e3)(n, k).len() by {
        lemma_scan_round_at(s, q1, e1, q2, e2, q3, e3, n, k);
        lemma_fast_line_then_at(s, q3, rest, n, k);
        lemma_fast_line_then_at(s, q2, r3, n, k);
        lemma_fast_line_then_at(s, q1, r2, n, k);
    }
    let n1 = line_name(s, q1);
    let n2 = line_name(s, q2);
    let n3 = line_name(s, q3);
    lemma_scan_round_at(s, q1, e1, q2, e2, q3, e3, n1, fast_kind(n1));
    lemma_fast_line_then_at(s, q1, r2, n1, fast_kind(n1));
    lemma_scan_round_at(s, q1, e1, q2, e2, q3, e3, n2, fast_kind(n2));
    lemma_fast_line_then_at(s, q1, r2, n2, fast_kind(n2));
    lemma_fast_line_then_at(s, q2, r3, n2, fast_kind(n2));
    lemma_scan_round_at(s, q1, e1, q2, e2, q3, e3, n3, fast_kind(n3));
    lemma_fast_line_then_at(s, q1, r2, n3, fast_kind(n3));
    lemma_fast_line_then_at(s, q2, r3, n3, fast_kind(n3));
    lemma_fast_line_then_at(s, q3, rest, n3, fast_kind(n3));
}

/// A name with a measurement still to take, for the slot the
/// word-at-a-time scan keeps it in, is among the names of that kind.
proof fn lemma_in_kind(s: Seq<u8>, b: int, e: int, o1: int, e1: int, o2: int, e2: int, o3: int, e3: int, nm: Seq<u8>)
    requires
        future_within(s, b, e, o1, e1, o2, e2, o3, e3),
        scan_future(s, o1, e1, o2, e2, o3, e3)(nm, fast_kind(nm)).len() > 0,
        slice_names(s, b, e).contains(nm),
    ensures
        in_kind_names(nm, slot_names(s, b, e, false), slot_names(s, b, e, true)),
{
    assert(scan_values(s, b, e)(nm, fast_kind(nm)).len() > 0);
}

/// When the word-at-a-time scan stops, each name of the rest of a part
/// takes a slot of the kind the byte-by-byte scan keeps it in.
proof fn lemma_exit_needs(s: Seq<u8>, b: int, e: int, o1: int, e1: int, o2: int, e2: int, o3: int, e3: int, p: int, end: int)
    requires
        !(o1 < e1 - 128 && o2 < e2 - 128 && o3 < e3 - 128),
        (p == o1 && end == e1) || (p == o2 && end == e2) || (p == o3 && end == e3),
        region_names(s, p, end).subset_of(slice_names(s, b, e)),
        future_within(s, b, e, o1, e1, o2, e2, o3, e3),
    ensures
        names_longer(region_names(s, p, end), 16).subset_of(slot_names(s, b, e, false)),
        names_upto(region_names(s, p, end), 16).subset_of(slot_names(s, b, e, true)),
{
    lemma_scan_exit(s, o1, e1, o2, e2, o3, e3);
    assert forall|m: Seq<u8>| #[trigger] region_names(s, p, end).contains(m) implies scan_values(s, b, e)(
        m,
        slow_kind(m),
    ).len() > 0 by {
        lemma_region_names_values(s, p, end, m);
        lemma_tail_vals_at(s, o1, e1, o2, e2, o3, e3, m, slow_kind(m));
        assert(scan_future(s, o1, e1, o2, e2, o3, e3)(m, slow_kind(m)).len() > 0);
    }
    assert forall|m: Seq<u8>| #[trigger] names_longer(region_names(s, p, end), 16).contains(m) implies slot_names(
        s,
        b,
        e,
        false,
    ).contains(m) by {
        assert(region_names(s, p, end).contains(m));
    }
    assert forall|m: Seq<u8>| #[trigger] names_upto(region_names(s, p, end), 16).contains(m) implies slot_names(
        s,
        b,
        e,
        true,
    ).contains(m) by {
        assert(region_names(s, p, end).contains(m));
    }
}

/// Aggregates the lines of the slice `begin..end` of `data` into a new
/// table. The slice is cut in three parts, each starting at its first whole
/// line; the parts are scanned together, word at a time, while each is more
/// than 128 bytes before its end, and each is then finished byte by byte.
/// Every filled slot holds the station of a line of the slice, counted at
/// least once, and only a name of exactly sixteen bytes can be held by two
/// slots (one found by word, one by bytes).
/// Of the input it asks that each slot can take, without its count or any
/// running sum overflowing, the measurements it is given in the order the
/// scan gives them (`scan_values`), and that the table has a slot for each
/// name and kind of slot that takes one (`slot_names`).
#[verifier::rlimit(60)]
pub fn calculate_data_slice<'a>(data: &'a [u8], begin: usize, end: usize) -> (map: CustomMap<'a>)
    requires
        slice_ok(data@, begin as int, end as int),
        data@.len() < usize::MAX,
        forall|m: Seq<u8>|
            #[trigger] slice_names(data@, begin as int, end as int).contains(m) ==> m.len() <= 16 ==> word_name(m),
        slot_names(data@, begin as int, end as int, false).len() + slot_names(data@, begin as int, end as int, true).len()
            <= MAP_SIZE,
        fresh_fit(scan_values(data@, begin as int, end as int)),
    ensures
        table_ready(map),
        map.data() == data@,
        forall|m: Seq<u8>| #[trigger] map.station_stats(m) == slice_stats(data@, begin as int, end as int, m),
        forall|i: int|
            0 <= i < MAP_SIZE && (#[trigger] map.slots()[i]) is Some ==> {
                let e = map.slots()[i].unwrap();
                &&& slice_starts(data@, begin as int, end as int).contains(e.0 as int)
                &&& e.0 + e.1 == line_semicolon(data@, e.0 as int)
                &&& e.1 >= 1
                &&& slice_names(data@, begin as int, end as int).contains(entry_name(data@, e))
                &&& counted(e.3)
            },
        forall|i: int, j: int|
            0 <= i < MAP_SIZE && 0 <= j < MAP_SIZE && i != j && (#[trigger] map.slots()[i]) is Some
                && (#[trigger] map.slots()[j]) is Some && entry_name(data@, map.slots()[i].unwrap()) == entry_name(
                data@,
                map.slots()[j].unwrap(),
            ) ==> entry_name(data@, map.slots()[i].unwrap()).len() == 16,
        newline_lines(data@, slice_part_start(data@, begin as int, end as int, 1), end as int) ==> forall|i: int|
            0 <= i < MAP_SIZE && (#[trigger] map.slots()[i]) is Some ==> {
                let en = map.slots()[i].unwrap();
                &&& (en.0 == slice_part_start(data@, begin as int, end as int, 1) || data@[en.0 - 1] == 10u8)
                &&& forall|j: int| 0 <= j < en.1 ==> #[trigger] data@[en.0 + j] != 10u8
            },
        newline_lines(data@, slice_part_start(data@, begin as int, end as int, 1), end as int) ==> forall|n: Seq<u8>|
            (exists|j: int| 0 <= j < n.len() && #[trigger] n[j] == 10u8) ==> #[trigger] map.station_stats(n)
                == empty_stats(),
        newline_lines(data@, slice_part_start(data@, begin as int, end as int, 1), end as int) ==> forall|q: int|
            slice_part_start(data@, begin as int, end as int, 1) <= q <= end && (q == slice_part_start(
                data@,
                begin as int,
                end as int,
                1,
            ) || data@[q - 1] == 10u8) ==> {
                let st = #[trigger] map.station_stats(line_name(data@, q));
                &&& st.count >= 1
                &&& st.min <= line_value(data@, q) <= st.max
            },
{
    let ghost s = data@;
    let ghost b = begin as int;
    let ghost e = end as int;
    let ghost names = slice_names(s, b, e);
    let ghost nb = slot_names(s, b, e, false);
    let ghost nw = slot_names(s, b, e, true);
    let ghost all = slice_starts(s, b, e);
    let n = data.len();
    let mut map = CustomMap::new(&data);
    let ghost map0 = map;
    proof {
        lemma_region_names_finite(s, slice_part_start(s, b, e, 1), slice_part_end(b, e, 1));
        lemma_region_names_finite(s, slice_part_start(s, b, e, 2), slice_part_end(b, e, 2));
        lemma_region_names_finite(s, slice_part_start(s, b, e, 3), slice_part_end(b, e, 3));
        names.lemma_len_filter(|m: Seq<u8>| scan_values(s, b, e)(m, false).len() > 0);
        names.lemma_len_filter(|m: Seq<u8>| scan_values(s, b, e)(m, true).len() > 0);
        lemma_fresh_table(map, nb, nw);
    }
    let mut offset_1 = begin;
    let safe: usize = 128;
    let step = (end - begin) / 3;
    offset_1 += calculate_local_offset(data, offset_1);
    let end_1 = begin + step;
    let mut offset_2 = end_1;
    offset_2 += calculate_local_offset(data, offset_2);
    let end_2 = begin + step * 2;
    let mut offset_3 = end_2;
    offset_3 += calculate_local_offset(data, offset_3);
    let end_3 = end;
    let end_1_safe = end_1 - safe;
    let end_2_safe = end_2 - safe;
    let end_3_safe = end_3 - safe;
    proof {
        assert(offset_1 == slice_part_start(s, b, e, 1));
        assert(offset_2 == slice_part_start(s, b, e, 2));
        assert(offset_3 == slice_part_start(s, b, e, 3));
        assert(end_1 == slice_part_end(b, e, 1));
        assert(end_2 == slice_part_end(b, e, 2));
        assert(end_3 == slice_part_end(b, e, 3));
        assert forall|m: Seq<u8>|
            #[trigger] merge_stats(
                map.station_stats(m),
                merge_stats(
                    merge_stats(region_stats(s, offset_1 as int, end_1 as int, m), region_stats(s, offset_2 as int, end_2 as int, m)),
                    region_stats(s, offset_3 as int, end_3 as int, m),
                ),
            ) == slice_stats(s, b, e, m) by {
            lemma_region_stats_within(s, offset_1 as int, end_1 as int, m);
            lemma_region_stats_within(s, offset_2 as int, end_2 as int, m);
            lemma_region_stats_within(s, offset_3 as int, end_3 as int, m);
            let r1 = region_stats(s, offset_1 as int, end_1 as int, m);
            let r2 = region_stats(s, offset_2 as int, end_2 as int, m);
            let r3 = region_stats(s, offset_3 as int, end_3 as int, m);
            lemma_within_sentinels_closed(r1, r2, 0);
            lemma_within_sentinels_closed(merge_stats(r1, r2), r3, 0);
            lemma_merge_empty(merge_stats(merge_stats(r1, r2), r3));
        }
        assert(records_fit(map, scan_values(s, b, e)));
    }
    while offset_1 < end_1_safe && offset_2 < end_2_safe && offset_3 < end_3_safe
        invariant
            s == data@,
            n == s.len(),
            s.len() < usize::MAX,
            end_1_safe == end_1 - 128,
            end_2_safe == end_2 - 128,
            end_3_safe == end_3 - 128,
            table_ready(map),
            map.data() == s,
            map0.slots() == Seq::new(MAP_SIZE as nat, |i: int| None::<Entry>),
            fast_region_ok(s, offset_1 as int, end_1_safe as int, end_1 as int),
            fast_region_ok(s, offset_2 as int, end_2_safe as int, end_2 as int),
            fast_region_ok(s, offset_3 as int, end_3_safe as int, end_3 as int),
            region_names(s, offset_1 as int, end_1 as int).subset_of(names),
            region_names(s, offset_2 as int, end_2 as int).subset_of(names),
            region_names(s, offset_3 as int, end_3 as int).subset_of(names),
            region_starts(s, offset_1 as int, end_1 as int).subset_of(all),
            region_starts(s, offset_2 as int, end_2 as int).subset_of(all),
            region_starts(s, offset_3 as int, end_3 as int).subset_of(all),
            forall|m: Seq<u8>| #[trigger] names.contains(m) ==> m.len() <= 16 ==> word_name(m),
            names == slice_names(s, b, e),
            nb == slot_names(s, b, e, false),
            nw == slot_names(s, b, e, true),
            has_room(map, nb, nw),
            future_within(s, b, e, offset_1 as int, end_1 as int, offset_2 as int, end_2 as int, offset_3 as int, end_3 as int),
            forall|m: Seq<u8>|
                #[trigger] merge_stats(
                    map.station_stats(m),
                    merge_stats(
                        merge_stats(region_stats(s, offset_1 as int, end_1 as int, m), region_stats(s, offset_2 as int, end_2 as int, m)),
                        region_stats(s, offset_3 as int, end_3 as int, m),
                    ),
                ) == slice_stats(s, b, e, m),
            records_fit(
                map,
                scan_future(s, offset_1 as int, end_1 as int, offset_2 as int, end_2 as int, offset_3 as int, end_3 as int),
            ),
            short_word_slots(map),
            new_slots_from(map0, map, all),
            new_slots_counted(map0, map),
        decreases region_measure(offset_1 as int, end_1 as int),
    {
        let ghost map_before = map;
        proof {
            lemma_fast_region_step(s, offset_1 as int, end_1_safe as int, end_1 as int);
            lemma_fast_region_step(s, offset_2 as int, end_2_safe as int, end_2 as int);
            lemma_fast_region_step(s, offset_3 as int, end_3_safe as int, end_3 as int);
            lemma_fast_region_is_region(s, offset_1 as int, end_1_safe as int, end_1 as int);
            lemma_fast_region_is_region(s, offset_2 as int, end_2_safe as int, end_2 as int);
            lemma_fast_region_is_region(s, offset_3 as int, end_3_safe as int, end_3 as int);
            lemma_region_names_step(s, offset_1 as int, end_1 as int);
            lemma_region_names_step(s, offset_2 as int, end_2 as int);
            lemma_region_names_step(s, offset_3 as int, end_3 as int);
            lemma_region_step(s, offset_1 as int, end_1 as int, Seq::<u8>::empty());
            lemma_region_step(s, offset_2 as int, end_2 as int, Seq::<u8>::empty());
            lemma_region_step(s, offset_3 as int, end_3 as int, Seq::<u8>::empty());
        }
        let ghost (q1, q2, q3) = (offset_1 as int, offset_2 as int, offset_3 as int);
        let ghost rest = scan_future(
            s,
            line_next(s, q1),
            end_1 as int,
            line_next(s, q2),
            end_2 as int,
            line_next(s, q3),
            end_3 as int,
        );
        proof {
            lemma_round_heads(s, q1, end_1 as int, q2, end_2 as int, q3, end_3 as int);
            assert(names.contains(line_name(s, q1)));
            assert(names.contains(line_name(s, q2)));
            assert(names.contains(line_name(s, q3)));
            let sf = scan_future(s, q1, end_1 as int, q2, end_2 as int, q3, end_3 as int);
            assert(sf(line_name(s, q1), fast_kind(line_name(s, q1))).len() > 0);
            assert(sf(line_name(s, q2), fast_kind(line_name(s, q2))).len() > 0);
            assert(sf(line_name(s, q3), fast_kind(line_name(s, q3))).len() > 0);
            let (e1, e2, e3) = (end_1 as int, end_2 as int, end_3 as int);
            lemma_in_kind(s, b, e, q1, e1, q2, e2, q3, e3, line_name(s, q1));
            lemma_in_kind(s, b, e, q1, e1, q2, e2, q3, e3, line_name(s, q2));
            lemma_in_kind(s, b, e, q1, e1, q2, e2, q3, e3, line_name(s, q3));
            lemma_scan_round(s, q1, end_1 as int, q2, end_2 as int, q3, end_3 as int);
            lemma_fit_ext(
                map,
                scan_future(s, q1, end_1 as int, q2, end_2 as int, q3, end_3 as int),
                fast_line_then(s, q1, fast_line_then(s, q2, fast_line_then(s, q3, rest))),
            );
        }
        let (next_1, next_2, next_3) = scan_three_lines(
            &mut map,
            data,
            offset_1,
            offset_2,
            offset_3,
            Ghost(end_1 as int),
            Ghost(end_2 as int),
            Ghost(end_3 as int),
            Ghost(names),
            Ghost(nb),
            Ghost(nw),
            Ghost(rest),
        );
        offset_1 = next_1;
        offset_2 = next_2;
        offset_3 = next_3;
        proof {
            lemma_line_facts(s, q1);
            assert forall|m: Seq<u8>|
                #[trigger] merge_stats(
                    map.station_stats(m),
                    merge_stats(
                        merge_stats(region_stats(s, offset_1 as int, end_1 as int, m), region_stats(s, offset_2 as int, end_2 as int, m)),
                        region_stats(s, offset_3 as int, end_3 as int, m),
                    ),
                ) == slice_stats(s, b, e, m) by {
                assert(merge_stats(
                    map_before.station_stats(m),
                    merge_stats(
                        merge_stats(region_stats(s, q1, end_1 as int, m), region_stats(s, q2, end_2 as int, m)),
                        region_stats(s, q3, end_3 as int, m),
                    ),
                ) == slice_stats(s, b, e, m));
            }
            lemma_new_slots_trans(map0, map_before, map, all, Set::empty().insert(q1).insert(q2).insert(q3), all);
            assert forall|m: Seq<u8>, k: bool|
                (#[trigger] scan_future(s, offset_1 as int, end_1 as int, offset_2 as int, end_2 as int, offset_3 as int, end_3 as int)(
                    m,
                    k,
                )).len() > 0 implies scan_values(s, b, e)(m, k).len() > 0 by {
                assert(scan_future(s, q1, end_1 as int, q2, end_2 as int, q3, end_3 as int)(m, k).len() > 0);
            }
        }
    }
    proof {
        lemma_fast_region_is_region(s, offset_1 as int, end_1_safe as int, end_1 as int);
        lemma_fast_region_is_region(s, offset_2 as int, end_2_safe as int, end_2 as int);
        lemma_fast_region_is_region(s, offset_3 as int, end_3_safe as int, end_3 as int);
        let (o1, o2, o3) = (offset_1 as int, offset_2 as int, offset_3 as int);
        lemma_scan_exit(s, o1, end_1 as int, o2, end_2 as int, o3, end_3 as int);
        lemma_fit_ext(
            map,
            scan_future(s, o1, end_1 as int, o2, end_2 as int, o3, end_3 as int),
            tail_vals(s, o1, end_1 as int, o2, end_2 as int, o3, end_3 as int),
        );
    }
    let ghost map_before = map;
    proof {
        let (o1, o2, o3) = (offset_1 as int, offset_2 as int, offset_3 as int);
        let (e1, e2, e3) = (end_1 as int, end_2 as int, end_3 as int);
        lemma_exit_needs(s, b, e, o1, e1, o2, e2, o3, e3, o1, e1);
        lemma_exit_needs(s, b, e, o1, e1, o2, e2, o3, e3, o2, e2);
        lemma_exit_needs(s, b, e, o1, e1, o2, e2, o3, e3, o3, e3);
    }
    finish_regions(&mut map, data, offset_1, end_1, offset_2, end_2, offset_3, end_3, Ghost(names), Ghost(nb), Ghost(nw));
    proof {
        assert forall|m: Seq<u8>| #[trigger] map.station_stats(m) == slice_stats(s, b, e, m) by {
            assert(merge_stats(
                map_before.station_stats(m),
                merge_stats(
                    merge_stats(region_stats(s, offset_1 as int, end_1 as int, m), region_stats(s, offset_2 as int, end_2 as int, m)),
                    region_stats(s, offset_3 as int, end_3 as int, m),
                ),
            ) == slice_stats(s, b, e, m));
        }
        lemma_new_slots_trans(
            map0,
            map_before,
            map,
            all,
            region_starts(s, offset_1 as int, end_1 as int) + region_starts(s, offset_2 as int, end_2 as int)
                + region_starts(s, offset_3 as int, end_3 as int),
            all,
        );
        assert forall|i: int| 0 <= i < MAP_SIZE && (#[trigger] map.slots()[i]) is Some implies ({
            let en = map.slots()[i].unwrap();
            &&& all.contains(en.0 as int)
            &&& en.0 + en.1 == line_semicolon(s, en.0 as int)
            &&& en.1 >= 1
            &&& names.contains(entry_name(s, en))
            &&& counted(en.3)
        }) by {
            let en = map.slots()[i].unwrap();
            assert(map0.slots()[i] is None);
            let q = en.0 as int;
            assert(entry_name(s, en) =~= line_name(s, q));
            if slice_part_starts(s, b, e, 1).contains(q) {
                lemma_region_start_line(s, slice_part_start(s, b, e, 1), slice_part_end(b, e, 1), q);
            } else if slice_part_starts(s, b, e, 2).contains(q) {
                lemma_region_start_line(s, slice_part_start(s, b, e, 2), slice_part_end(b, e, 2), q);
            } else {
                lemma_region_start_line(s, slice_part_start(s, b, e, 3), slice_part_end(b, e, 3), q);
            }
        }
        assert forall|i: int, j: int|
            0 <= i < MAP_SIZE && 0 <= j < MAP_SIZE && i != j && (#[trigger] map.slots()[i]) is Some
                && (#[trigger] map.slots()[j]) is Some && entry_name(s, map.slots()[i].unwrap()) == entry_name(
                s,
                map.slots()[j].unwrap(),
            ) implies entry_name(s, map.slots()[i].unwrap()).len() == 16 by {
            assert(map0.slots()[i] is None);
            assert(map0.slots()[j] is None);
            lemma_one_slot_per_name(map, i, j);
        }
        lemma_slice_lines(map, s, b, e);
    }
    map
}

/// Two slots of a table hold the same name only if one was filled by
/// comparing words and the other by comparing bytes; where every slot
/// filled by bytes holds a name of at least sixteen bytes, that name has
/// exactly sixteen.
pub proof fn lemma_one_slot_per_name(map: CustomMap, i: int, j: int)
    requires
        table_ready(map),
        0 <= i < MAP_SIZE,
        0 <= j < MAP_SIZE,
        i != j,
        map.slots()[i] is Some,
        map.slots()[j] is Some,
        entry_name(map.data(), map.slots()[i].unwrap()) == entry_name(map.data(), map.slots()[j].unwrap()),
    ensures
        map.filled_by_word()[i] != map.filled_by_word()[j],
        (!map.filled_by_word()[i] ==> map.slots()[i].unwrap().1 >= 16) && (!map.filled_by_word()[j]
            ==> map.slots()[j].unwrap().1 >= 16) ==> entry_name(map.data(), map.slots()[i].unwrap()).len() == 16,
{
    let slots = map.slots();
    let data = map.data();
    let nm = entry_name(data, slots[i].unwrap());
    if map.filled_by_word()[i] == map.filled_by_word()[j] {
        lemma_slots_unique(map, i, j);
        if map.filled_by_word()[i] {
            lemma_word_bytes_injective(slots[i].unwrap().2, slots[j].unwrap().2);
        }
    }
}

/// The slices the input is cut into, one per worker, where
/// `step = len / num_threads`: `0..step`, then `step * k + 1..step * (k + 1)`
/// for `k` in `1..num_threads - 1`, and last `step * (num_threads - 1) + 1..len - 5`.
pub fn plan_slices(len: usize, num_threads: usize) -> (r: Vec<(usize, usize)>)
    requires
        num_threads >= 1,
        5 <= len < usize::MAX,
    ensures
        r.len() == (if num_threads >= 2 { num_threads as int } else { 2 }),
        r[0] == (0usize, len / num_threads),
        forall|k: int|
            1 <= k < r.len() - 1 ==> (#[trigger] r[k]).0 == (len / num_threads) * k + 1 && r[k].1 == (len
                / num_threads) * (k + 1),
        r[r.len() - 1].0 == (len / num_threads) * (num_threads - 1) + 1,
        r[r.len() - 1].1 == len - 5,
{
    let step = len / num_threads;
    assert(step * num_threads <= len) by (nonlinear_arith)
        requires
            step == len / num_threads,
            num_threads >= 1,
    ;
    let mut ranges: Vec<(usize, usize)> = Vec::new();
    ranges.push((0, step));
    let mut i: usize = 1;
    while i < num_threads - 1
        invariant
            1 <= i,
            num_threads >= 1,
            len < usize::MAX,
            num_threads >= 2 ==> i <= num_threads - 1,
            num_threads < 2 ==> i == 1,
            step == len / num_threads,
            step * num_threads <= len,
            ranges.len() == i,
            ranges[0] == (0usize, step),
            forall|k: int| 1 <= k < i ==> (#[trigger] ranges[k]).0 == step * k + 1 && ranges[k].1 == step * (k + 1),
        decreases num_threads - i,
    {
        assert(step * i <= step * (i + 1) <= step * num_threads) by (nonlinear_arith)
            requires
                i + 1 <= num_threads,
        ;
        ranges.push((step * i + 1, step * (i + 1)));
        i += 1;
    }
    assert(step * (num_threads - 1) <= step * num_threads) by (nonlinear_arith)
        requires
            num_threads >= 1,
    ;
    ranges.push((step * (num_threads - 1) + 1, len - 5));
    ranges
}

/// Looking for `c` from a later position finds it no earlier.
proof fn lemma_first_from_later(s: Seq<u8>, x: int, y: int, c: u8)
    requires
        0 <= y <= x,
        has_from(s, x, c),
        has_from(s, y, c),
    ensures
        first_from(s, y, c) <= first_from(s, x, c),
{
    let fx = first_from(s, x, c);
    let fy = first_from(s, y, c);
    assert(is_first_from(s, x, c, fx));
    assert(is_first_from(s, y, c, fy));
    if fx < fy {
        assert(s[fx] != c);
    }
}

/// When a slice is made of lines from its first whole line on, so is each
/// of its three parts, and each part starts at that first line or right
/// after a line end.
proof fn lemma_slice_part_lines(s: Seq<u8>, b: int, e: int, k: int)
    requires
        slice_ok(s, b, e),
        1 <= k <= 3,
        newline_lines(s, slice_part_start(s, b, e, 1), e),
    ensures
        newline_lines(s, slice_part_start(s, b, e, k), slice_part_end(b, e, k)),
        slice_part_start(s, b, e, k) == slice_part_start(s, b, e, 1) || (slice_part_start(s, b, e, 1)
            < slice_part_start(s, b, e, k) && s[slice_part_start(s, b, e, k) - 1] == 10u8),
{
    let o1 = slice_part_start(s, b, e, 1);
    let ok = slice_part_start(s, b, e, k);
    let ek = slice_part_end(b, e, k);
    let bk = slice_part_begin(b, e, k);
    assert(0 <= slice_step(b, e)) by (nonlinear_arith)
        requires
            b <= e,
    ;
    assert(slice_part_end(b, e, 1) <= slice_part_end(b, e, 2) <= e) by (nonlinear_arith)
        requires
            slice_part_end(b, e, 1) == b + slice_step(b, e),
            slice_part_end(b, e, 2) == b + 2 * slice_step(b, e),
            slice_step(b, e) == (e - b) / 3,
            0 <= slice_step(b, e),
            b <= e,
    ;
    if k > 1 {
        assert(bk > 0);
        assert(has_from(s, bk, 10u8));
        assert(is_first_from(s, bk, 10u8, ok - 1));
        if b > 0 {
            lemma_first_from_later(s, bk, b, 10u8);
        }
    }
    assert(ok == o1 || (o1 < ok && s[ok - 1] == 10u8));
    assert(newline_lines(s, ok, ek)) by {
        if ok <= ek && ok != o1 {
            assert(s[ok - 1] == 10u8);
            assert(line_after(s, ok - 1));
        }
    }
}

/// In a slice made of lines, its statistics are those of its lines read
/// one after another from its first whole line.
proof fn lemma_slice_lines_stats(s: Seq<u8>, b: int, e: int)
    requires
        slice_ok(s, b, e),
        newline_lines(s, slice_part_start(s, b, e, 1), e),
    ensures
        forall|m: Seq<u8>| #[trigger] slice_stats(s, b, e, m) == region_stats(s, slice_part_start(s, b, e, 1), e, m),
{
    let o1 = slice_part_start(s, b, e, 1);
    lemma_newline_lines_are_region(s, o1, e);
    assert(b > 0 ==> has_from(s, b, 10u8));
    assert forall|m: Seq<u8>| #[trigger] slice_stats(s, b, e, m) == region_stats(s, o1, e, m) by {
        lemma_slice_stats_sequential(s, b, e, m);
    }
}

/// In a slice made of lines, every line it reads starts at its first whole
/// line or right after a line end.
proof fn lemma_slice_starts_lines(s: Seq<u8>, b: int, e: int, q: int)
    requires
        slice_ok(s, b, e),
        newline_lines(s, slice_part_start(s, b, e, 1), e),
        slice_starts(s, b, e).contains(q),
    ensures
        region_starts(s, slice_part_start(s, b, e, 1), e).contains(q),
{
    let o1 = slice_part_start(s, b, e, 1);
    let k = if slice_part_starts(s, b, e, 1).contains(q) {
        1int
    } else if slice_part_starts(s, b, e, 2).contains(q) {
        2int
    } else {
        3int
    };
    lemma_slice_part_lines(s, b, e, k);
    let ok = slice_part_start(s, b, e, k);
    let ek = slice_part_end(b, e, k);
    lemma_region_starts_are_line_starts(s, ok, ek);
    lemma_region_start_line(s, ok, ek, q);
    assert(ek <= e) by (nonlinear_arith)
        requires
            ek == slice_part_end(b, e, k),
            1 <= k <= 3,
            slice_part_end(b, e, 1) == b + slice_step(b, e),
            slice_part_end(b, e, 2) == b + 2 * slice_step(b, e),
            slice_part_end(b, e, 3) == e,
            slice_step(b, e) == (e - b) / 3,
            b <= e,
    ;
    lemma_region_starts_are_line_starts(s, o1, e);
}

/// In a slice made of lines, every slot that names a line the slice reads
/// holds a name that starts at a line start and holds no line end.
pub proof fn lemma_slice_lines_slots(map: CustomMap, s: Seq<u8>, b: int, e: int)
    requires
        slice_ok(s, b, e),
        newline_lines(s, slice_part_start(s, b, e, 1), e),
        map.data() == s,
        forall|i: int|
            0 <= i < MAP_SIZE && (#[trigger] map.slots()[i]) is Some ==> {
                let en = map.slots()[i].unwrap();
                &&& slice_starts(s, b, e).contains(en.0 as int)
                &&& en.0 + en.1 == line_semicolon(s, en.0 as int)
            },
    ensures
        forall|i: int|
            0 <= i < MAP_SIZE && (#[trigger] map.slots()[i]) is Some ==> {
                let en = map.slots()[i].unwrap();
                &&& (en.0 == slice_part_start(s, b, e, 1) || s[en.0 - 1] == 10u8)
                &&& forall|j: int| 0 <= j < en.1 ==> #[trigger] s[en.0 + j] != 10u8
            },
{
    let o1 = slice_part_start(s, b, e, 1);
    assert forall|i: int| 0 <= i < MAP_SIZE && (#[trigger] map.slots()[i]) is Some implies ({
        let en = map.slots()[i].unwrap();
        &&& (en.0 == o1 || s[en.0 - 1] == 10u8)
        &&& forall|j: int| 0 <= j < en.1 ==> #[trigger] s[en.0 + j] != 10u8
    }) by {
        let en = map.slots()[i].unwrap();
        lemma_slice_starts_lines(s, b, e, en.0 as int);
        lemma_slot_line(s, o1, e, en.0 as int, en.1 as int);
    }
}

/// A name read at a line start of a region made of lines starts right
/// after a line end (or at the region's start) and holds no line end.
proof fn lemma_slot_line(s: Seq<u8>, o1: int, e: int, q: int, len: int)
    requires
        0 <= o1,
        newline_lines(s, o1, e),
        region_starts(s, o1, e).contains(q),
        q + len == line_semicolon(s, q),
    ensures
        q == o1 || s[q - 1] == 10u8,
        forall|j: int| 0 <= j < len ==> #[trigger] s[q + j] != 10u8,
{
    lemma_region_starts_are_line_starts(s, o1, e);
    lemma_region_start_line(s, o1, e, q);
    let nm = line_name(s, q);
    lemma_names_hold_no_line_end(s, o1, e, nm);
    assert forall|j: int| 0 <= j < len implies #[trigger] s[q + j] != 10u8 by {
        assert(nm[j] == s[q + j]);
    }
}

/// In a slice made of lines, no station whose name holds a line end has a
/// measurement, and every line of the slice counts for its own station:
/// its measurement lies between that station's minimum and maximum.
pub proof fn lemma_slice_lines_counted(s: Seq<u8>, b: int, e: int)
    requires
        slice_ok(s, b, e),
        newline_lines(s, slice_part_start(s, b, e, 1), e),
    ensures
        forall|n: Seq<u8>|
            (exists|j: int| 0 <= j < n.len() && #[trigger] n[j] == 10u8) ==> #[trigger] slice_stats(s, b, e, n)
                == empty_stats(),
        forall|q: int|
            slice_part_start(s, b, e, 1) <= q <= e && (q == slice_part_start(s, b, e, 1) || s[q - 1] == 10u8) ==> {
                let st = #[trigger] slice_stats(s, b, e, line_name(s, q));
                &&& st.count >= 1
                &&& st.min <= line_value(s, q) <= st.max
            },
{
    let o1 = slice_part_start(s, b, e, 1);
    lemma_slice_lines_stats(s, b, e);
    lemma_region_starts_are_line_starts(s, o1, e);
    assert forall|n: Seq<u8>|
        (exists|j: int| 0 <= j < n.len() && #[trigger] n[j] == 10u8) implies #[trigger] slice_stats(s, b, e, n)
            == empty_stats() by {
        lemma_names_hold_no_line_end(s, o1, e, n);
    }
    assert forall|q: int| o1 <= q <= e && (q == o1 || s[q - 1] == 10u8) implies ({
        let st = #[trigger] slice_stats(s, b, e, line_name(s, q));
        &&& st.count >= 1
        &&& st.min <= line_value(s, q) <= st.max
    }) by {
        assert(region_starts(s, o1, e).contains(q));
        lemma_each_line_counted(s, o1, e, q);
    }
}

/// What a table of a slice made of lines holds: every filled slot names a
/// line, from a line start to its `;`, and holds no line end; no station
/// whose name holds a line end has a measurement; and every line of the
/// slice counts for its own station.
pub proof fn lemma_slice_lines(map: CustomMap, s: Seq<u8>, b: int, e: int)
    requires
        slice_ok(s, b, e),
        map.data() == s,
        forall|m: Seq<u8>| #[trigger] map.station_stats(m) == slice_stats(s, b, e, m),
        forall|i: int|
            0 <= i < MAP_SIZE && (#[trigger] map.slots()[i]) is Some ==> {
                let en = map.slots()[i].unwrap();
                &&& slice_starts(s, b, e).contains(en.0 as int)
                &&& en.0 + en.1 == line_semicolon(s, en.0 as int)
            },
    ensures
        newline_lines(s, slice_part_start(s, b, e, 1), e) ==> forall|i: int|
            0 <= i < MAP_SIZE && (#[trigger] map.slots()[i]) is Some ==> {
                let en = map.slots()[i].unwrap();
                &&& (en.0 == slice_part_start(s, b, e, 1) || s[en.0 - 1] == 10u8)
                &&& forall|j: int| 0 <= j < en.1 ==> #[trigger] s[en.0 + j] != 10u8
            },
        newline_lines(s, slice_part_start(s, b, e, 1), e) ==> forall|n: Seq<u8>|
            (exists|j: int| 0 <= j < n.len() && #[trigger] n[j] == 10u8) ==> #[trigger] map.station_stats(n)
                == empty_stats(),
        newline_lines(s, slice_part_start(s, b, e, 1), e) ==> forall|q: int|
            slice_part_start(s, b, e, 1) <= q <= e && (q == slice_part_start(s, b, e, 1) || s[q - 1] == 10u8) ==> {
                let st = #[trigger] map.station_stats(line_name(s, q));
                &&& st.count >= 1
                &&& st.min <= line_value(s, q) <= st.max
            },
{
    if newline_lines(s, slice_part_start(s, b, e, 1), e) {
        lemma_slice_lines_slots(map, s, b, e);
        lemma_slice_lines_counted(s, b, e);
        assert forall|q: int|
            slice_part_start(s, b, e, 1) <= q <= e && (q == slice_part_start(s, b, e, 1) || s[q - 1] == 10u8) implies ({
                let st = #[trigger] map.station_stats(line_name(s, q));
                &&& st.count >= 1
                &&& st.min <= line_value(s, q) <= st.max
            }) by {
            assert(map.station_stats(line_name(s, q)) == slice_stats(s, b, e, line_name(s, q)));
        }
    }
}

/// Scanning a slice in three parts aggregates what one pass over it does:
/// when its lines each end with a line end and hold no other, the
/// statistics of the slice are those of every line from the first whole
/// line at or after `begin` to the last that starts at or before `end`.
pub proof fn lemma_slice_stats_sequential(s: Seq<u8>, begin: int, end: int, name: Seq<u8>)
    requires
        0 <= begin <= end,
        begin + slice_step(begin, end) > 0,
        begin > 0 ==> has_from(s, begin, 10u8),
        region_ok(s, line_start_from(s, begin), end),
        newline_ended(s, line_start_from(s, begin), end),
    ensures
        slice_stats(s, begin, end, name) == region_stats(s, line_start_from(s, begin), end, name),
{
    let o1 = line_start_from(s, begin);
    let e1 = slice_part_end(begin, end, 1);
    let e2 = slice_part_end(begin, end, 2);
    assert(0 <= slice_step(begin, end)) by (nonlinear_arith)
        requires
            begin <= end,
    ;
    assert(e1 <= e2 <= end) by (nonlinear_arith)
        requires
            e1 == begin + slice_step(begin, end),
            e2 == begin + 2 * slice_step(begin, end),
            slice_step(begin, end) == (end - begin) / 3,
            0 <= slice_step(begin, end),
            begin <= end,
    ;
    if begin > 0 {
        let f = first_from(s, begin, 10u8);
        assert(is_first_from(s, begin, 10u8, f));
        if o1 > e1 {
            assert(is_first_from(s, e1, 10u8, o1 - 1));
            lemma_first_from(s, e1, 10u8, o1 - 1);
        }
    }
    lemma_region_split(s, o1, e1, end, name);
    let o2 = first_from(s, e1, 10u8) + 1;
    assert(o2 == slice_part_start(s, begin, end, 2));
    assert(is_first_from(s, e1, 10u8, o2 - 1));
    if o2 > e2 {
        assert(is_first_from(s, e2, 10u8, o2 - 1));
        lemma_first_from(s, e2, 10u8, o2 - 1);
    }
    lemma_region_split(s, o2, e2, end, name);
    assert(first_from(s, e2, 10u8) + 1 == slice_part_start(s, begin, end, 3));
    lemma_merge_associative(
        region_stats(s, o1, e1, name),
        region_stats(s, o2, e2, name),
        region_stats(s, first_from(s, e2, 10u8) + 1, end, name),
    );
}

/// Start of slice `k` of the plan for an input of `len` bytes and `n` workers.
pub open spec fn plan_begin(len: int, n: int, k: int) -> int {
    if k == 0 {
        0
    } else {
        (len / n) * k + 1
    }
}

/// End of slice `k` of the plan for an input of `len` bytes and `n` workers.
pub open spec fn plan_end(len: int, n: int, k: int) -> int {
    if k == n - 1 {
        len - 5
    } else {
        (len / n) * (k + 1)
    }
}

/// Statistics of station `name` over the slices `k..n` of the plan.
pub open spec fn plan_stats_from(s: Seq<u8>, n: int, k: int, name: Seq<u8>) -> Stats
    decreases n - k,
{
    let len = s.len() as int;
    if k >= n - 1 {
        slice_stats(s, plan_begin(len, n, k), plan_end(len, n, k), name)
    } else {
        merge_stats(
            slice_stats(s, plan_begin(len, n, k), plan_end(len, n, k), name),
            plan_stats_from(s, n, k + 1, name),
        )
    }
}

/// The input's lines from the first whole one of slice `k` on, made of
/// newline-ended lines.
pub open spec fn plan_tail_ok(s: Seq<u8>, n: int, k: int) -> bool {
    let len = s.len() as int;
    let b = plan_begin(len, n, k);
    &&& (b > 0 ==> has_from(s, b, 10u8))
    &&& region_ok(s, line_start_from(s, b), len - 5)
    &&& newline_ended(s, line_start_from(s, b), len - 5)
}

proof fn lemma_plan_tail(s: Seq<u8>, n: int, k: int, name: Seq<u8>)
    requires
        n >= 2,
        (s.len() as int) / n >= 3,
        plan_begin(s.len() as int, n, n - 1) <= s.len() - 5,
        forall|j: int| 1 <= j < n ==> #[trigger] s[((s.len() as int) / n) * j] != 10u8,
        0 <= k <= n - 1,
        plan_tail_ok(s, n, k),
    ensures
        plan_stats_from(s, n, k, name) == region_stats(
            s,
            line_start_from(s, plan_begin(s.len() as int, n, k)),
            s.len() - 5,
            name,
        ),
    decreases n - k,
{
    let len = s.len() as int;
    let step = len / n;
    let b = plan_begin(len, n, k);
    let e = plan_end(len, n, k);
    let q = line_start_from(s, b);
    assert(step * k + 1 <= step * (k + 1)) by (nonlinear_arith)
        requires
            step >= 3,
    ;
    if k < n - 1 {
        assert(step * (k + 1) <= step * (n - 1)) by (nonlinear_arith)
            requires
                step >= 3,
                k + 1 <= n - 1,
        ;
    }
    assert(0 <= step * k) by (nonlinear_arith)
        requires
            step >= 3,
            0 <= k,
    ;
    assert(b + slice_step(b, e) > 0) by {
        if k == 0 {
            assert(b == 0);
            assert(e == step * 1);
            assert(step * 1 == step);
            assert(slice_step(b, e) == (e - b) / 3);
            assert((step - 0) / 3 >= 1);
        }
    }
    if k == n - 1 {
        lemma_slice_stats_sequential(s, b, e, name);
    } else {
        lemma_region_shrink(s, q, len - 5, e);
        lemma_slice_stats_sequential(s, b, e, name);
        if q > e {
            let f0 = first_from(s, b, 10u8);
            assert(is_first_from(s, b, 10u8, f0));
            assert(is_first_from(s, e, 10u8, q - 1));
            lemma_first_from(s, e, 10u8, q - 1);
        }
        lemma_region_split(s, q, e, len - 5, name);
        assert(s[step * (k + 1)] != 10u8);
        lemma_first_from_skip(s, e, 10u8);
        assert(plan_begin(len, n, k + 1) == e + 1);
        lemma_plan_tail(s, n, k + 1, name);
    }
}

/// The slices of the plan, scanned one by one, count every line of the
/// input once: when the input up to five bytes before its end is made of
/// newline-ended lines, and no byte at which a slice ends (but the last) is
/// a line end, the statistics of all slices together are those of every
/// line of the input.
pub proof fn lemma_plan_covers_input(s: Seq<u8>, n: int, name: Seq<u8>)
    requires
        n >= 2,
        (s.len() as int) / n >= 3,
        plan_begin(s.len() as int, n, n - 1) <= s.len() - 5,
        region_ok(s, 0, s.len() - 5),
        newline_ended(s, 0, s.len() - 5),
        forall|j: int| 1 <= j < n ==> #[trigger] s[((s.len() as int) / n) * j] != 10u8,
    ensures
        plan_stats_from(s, n, 0, name) == region_stats(s, 0, s.len() - 5, name),
{
    lemma_plan_tail(s, n, 0, name);
}

} // verus!
