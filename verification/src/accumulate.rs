use vstd::prelude::*;
use vstd::set_lib::{lemma_len_subset, lemma_set_difference_len};
use crate::record::{Record, Stats, merge_stats, add_stats, single_stats, empty_stats,
    lemma_merge_associative, lemma_merge_empty};
use crate::custom_map::{
    lemma_slots_unique, CustomMap, Entry, MAP_SIZE, entry_name, entries_in_bounds, fresh_record, masked_word, stats_upto,
    byte_probe_stops_at, word_probe_stops_at, };
use crate::capacity::{
    filled_count, words_faithful, has_byte_slot, has_word_slot, word_name, name_padded,
    lemma_filled_count_not_full, lemma_filled_count_fill, lemma_byte_absent, lemma_word_absent,
    lemma_word_match_name, lemma_masked_word_bytes, lemma_word_bytes_injective, lemma_word_name_nonzero,
};
use crate::swar::{word_bytes, load_word};
use crate::lines::{
    is_line, is_first_from, line_semicolon, line_dot, line_negative, line_int_digits, line_magnitude,
    line_value, line_name, line_next, digits_value, all_at_least_zero_digit, lemma_line_facts,
    lemma_line_digits, lemma_digits_value_prefix, region_ok, region_stats, region_names, region_values, line_values,
    region_starts, region_measure, lemma_region_step, lemma_region_past_end, lemma_region_stats_within,
    region_resume, lemma_region_split_at_line, lemma_region_shrink, lemma_region_start_line,
};
use crate::capacity::lemma_filled_count_same_shape;

use crate::line_laws::{
    newline_lines, lemma_region_starts_are_line_starts, lemma_names_hold_no_line_end, lemma_each_line_counted,
};

verus! {

/// The table's invariant together with the facts the aggregation needs.
pub open spec fn table_ready(map: CustomMap) -> bool {
    &&& map.wf()
    &&& entries_in_bounds(map.slots(), map.data())
    &&& words_faithful(map.slots(), map.filled_by_word(), map.data())
}

/// The names of `names` longer than `k` bytes.
pub open spec fn names_longer(names: Set<Seq<u8>>, k: int) -> Set<Seq<u8>> {
    names.filter(|n: Seq<u8>| n.len() > k)
}

/// The names of `names` of at most `k` bytes.
pub open spec fn names_upto(names: Set<Seq<u8>>, k: int) -> Set<Seq<u8>> {
    names.filter(|n: Seq<u8>| n.len() <= k)
}

/// The table has room for the names `by_bytes_names`, each to be found or
/// put in a slot filled by comparing bytes, and `by_word_names`, each in a
/// slot filled by comparing words: `ib` and `iw` are those of them that
/// already have a slot of that kind, and every other one can take an
/// empty slot of its own.
pub open spec fn room_for(
    slots: Seq<Option<Entry>>,
    by_raw: Seq<bool>,
    data: Seq<u8>,
    by_bytes_names: Set<Seq<u8>>,
    by_word_names: Set<Seq<u8>>,
    ib: Set<Seq<u8>>,
    iw: Set<Seq<u8>>,
) -> bool {
    &&& by_bytes_names.finite()
    &&& by_word_names.finite()
    &&& ib.subset_of(by_bytes_names)
    &&& iw.subset_of(by_word_names)
    &&& filled_count(slots, MAP_SIZE as int) + by_bytes_names.len() + by_word_names.len() <= MAP_SIZE + ib.len()
        + iw.len()
    &&& forall|n: Seq<u8>| #[trigger] ib.contains(n) ==> has_byte_slot(slots, by_raw, data, n)
    &&& forall|n: Seq<u8>| #[trigger] iw.contains(n) ==> has_word_slot(slots, by_raw, data, n)
}

/// The table has room for the names `by_bytes_names`, to be kept in slots
/// filled by comparing bytes, and `by_word_names`, in slots filled by
/// comparing words.
pub open spec fn has_room(map: CustomMap, by_bytes_names: Set<Seq<u8>>, by_word_names: Set<Seq<u8>>) -> bool {
    exists|ib: Set<Seq<u8>>, iw: Set<Seq<u8>>|
        room_for(map.slots(), map.filled_by_word(), map.data(), by_bytes_names, by_word_names, ib, iw)
}

/// Filled slots keep their content; slots filled since hold a fresh record.
pub open spec fn slots_kept(before: Seq<Option<Entry>>, after: Seq<Option<Entry>>) -> bool {
    &&& after.len() == before.len()
    &&& forall|i: int| 0 <= i < before.len() && (#[trigger] before[i]) is Some ==> after[i] == before[i]
    &&& forall|i: int|
        0 <= i < before.len() && before[i] is None && (#[trigger] after[i]) is Some ==> after[i].unwrap().3
            == fresh_record()
}

/// Slot `index` holds the station `name`.
pub open spec fn slot_holds(map: CustomMap, index: int, name: Seq<u8>) -> bool {
    &&& 0 <= index < MAP_SIZE
    &&& map.slots()[index] is Some
    &&& entry_name(map.data(), map.slots()[index].unwrap()) == name
}

/// A record that has taken at least one measurement.
pub open spec fn counted(r: Record) -> bool {
    r.count >= 1 && r.min <= r.max
}

/// Looking up the name `data[start..start + len]` stopped at slot `index`:
/// the table is as it was if that slot was filled, and otherwise only that
/// slot was filled, with that name, by the kind of comparison `by_word`.
pub open spec fn located(before: CustomMap, after: CustomMap, index: int, start: int, len: int, by_word: bool) -> bool {
    &&& 0 <= index < MAP_SIZE
    &&& before.slots()[index] is Some ==> after.slots() == before.slots() && after.filled_by_word()
        == before.filled_by_word()
    &&& before.slots()[index] is None ==> {
        &&& after.slots() == before.slots().update(index, after.slots()[index])
        &&& after.slots()[index] is Some
        &&& after.slots()[index].unwrap().0 == start
        &&& after.slots()[index].unwrap().1 == len
        &&& after.filled_by_word() == before.filled_by_word().update(index, by_word)
    }
}

/// Every filled slot stays filled, with the same name, word and kind, and
/// a record that has taken a measurement keeps having taken one.
pub open spec fn keys_kept(before: CustomMap, after: CustomMap) -> bool {
    forall|i: int|
        0 <= i < MAP_SIZE && (#[trigger] before.slots()[i]) is Some ==> {
            &&& after.slots()[i] is Some
            &&& after.slots()[i].unwrap().0 == before.slots()[i].unwrap().0
            &&& after.slots()[i].unwrap().1 == before.slots()[i].unwrap().1
            &&& after.slots()[i].unwrap().2 == before.slots()[i].unwrap().2
            &&& after.filled_by_word()[i] == before.filled_by_word()[i]
            &&& (counted(before.slots()[i].unwrap().3) ==> counted(after.slots()[i].unwrap().3))
        }
}

/// Every slot filled in `after` but not in `before` names the line that
/// starts at one of `starts`, ending just before its `;`, and is filled by
/// comparing words unless its name has at least sixteen bytes.
pub open spec fn new_slots_from(before: CustomMap, after: CustomMap, starts: Set<int>) -> bool {
    forall|i: int|
        0 <= i < MAP_SIZE && before.slots()[i] is None && (#[trigger] after.slots()[i]) is Some ==> {
            let e = after.slots()[i].unwrap();
            &&& starts.contains(e.0 as int)
            &&& e.0 + e.1 == line_semicolon(after.data(), e.0 as int)
            &&& (!after.filled_by_word()[i] ==> e.1 >= 16)
        }
}

/// Every slot filled in `after` but not in `before` has taken a measurement.
pub open spec fn new_slots_counted(before: CustomMap, after: CustomMap) -> bool {
    forall|i: int|
        0 <= i < MAP_SIZE && before.slots()[i] is None && (#[trigger] after.slots()[i]) is Some ==> counted(
            after.slots()[i].unwrap().3,
        )
}

pub(crate) proof fn lemma_keys_trans(a: CustomMap, b: CustomMap, c: CustomMap)
    requires
        keys_kept(a, b),
        keys_kept(b, c),
    ensures
        keys_kept(a, c),
{
    assert forall|i: int| 0 <= i < MAP_SIZE && (#[trigger] a.slots()[i]) is Some implies {
        &&& c.slots()[i] is Some
        &&& c.slots()[i].unwrap().0 == a.slots()[i].unwrap().0
        &&& c.slots()[i].unwrap().1 == a.slots()[i].unwrap().1
        &&& c.slots()[i].unwrap().2 == a.slots()[i].unwrap().2
        &&& c.filled_by_word()[i] == a.filled_by_word()[i]
        &&& (counted(a.slots()[i].unwrap().3) ==> counted(c.slots()[i].unwrap().3))
    } by {
        assert(b.slots()[i] is Some);
    }
}

pub(crate) proof fn lemma_new_slots_trans(
    a: CustomMap,
    b: CustomMap,
    c: CustomMap,
    s1: Set<int>,
    s2: Set<int>,
    s: Set<int>,
)
    requires
        new_slots_from(a, b, s1),
        new_slots_from(b, c, s2),
        keys_kept(b, c),
        b.data() == c.data(),
        s1.subset_of(s),
        s2.subset_of(s),
    ensures
        new_slots_from(a, c, s),
        new_slots_counted(a, b) && new_slots_counted(b, c) ==> new_slots_counted(a, c),
{
    assert forall|i: int| 0 <= i < MAP_SIZE && a.slots()[i] is None && (#[trigger] c.slots()[i]) is Some implies {
        let e = c.slots()[i].unwrap();
        &&& s.contains(e.0 as int)
        &&& e.0 + e.1 == line_semicolon(c.data(), e.0 as int)
        &&& (!c.filled_by_word()[i] ==> e.1 >= 16)
    } by {
        if b.slots()[i] is Some {
            assert(b.slots()[i] is Some);
        }
    }
    if new_slots_counted(a, b) && new_slots_counted(b, c) {
        assert forall|i: int| 0 <= i < MAP_SIZE && a.slots()[i] is None && (#[trigger] c.slots()[i]) is Some implies counted(
            c.slots()[i].unwrap().3,
        ) by {
            if b.slots()[i] is Some {
                assert(b.slots()[i] is Some);
            }
        }
    }
}

/// A lookup keeps the filled slots, and the slot it fills names its line.
pub(crate) proof fn lemma_located_keys(
    before: CustomMap,
    after: CustomMap,
    index: int,
    p: int,
    len: int,
    by_word: bool,
)
    requires
        located(before, after, index, p, len, by_word),
        before.slots().len() == MAP_SIZE,
        before.filled_by_word().len() == MAP_SIZE,
        after.data() == before.data(),
        p + len == line_semicolon(before.data(), p),
        !by_word ==> len >= 16,
    ensures
        keys_kept(before, after),
        new_slots_from(before, after, Set::empty().insert(p)),
        forall|i: int|
            0 <= i < MAP_SIZE && before.slots()[i] is None && (#[trigger] after.slots()[i]) is Some ==> i == index,
{
    assert forall|i: int| 0 <= i < MAP_SIZE && (#[trigger] before.slots()[i]) is Some implies after.slots()[i]
        == before.slots()[i] && after.filled_by_word()[i] == before.filled_by_word()[i] by {
        if before.slots()[index] is None {
            assert(i != index);
        }
    }
}

/// Adding a measurement to a filled slot keeps the filled slots, and the
/// slot it was added to has taken a measurement.
pub(crate) proof fn lemma_added_keys(before: CustomMap, after: CustomMap, index: int, v: int)
    requires
        0 <= index < MAP_SIZE,
        before.slots().len() == MAP_SIZE,
        after.slots().len() == MAP_SIZE,
        after.data() == before.data(),
        after.filled_by_word() == before.filled_by_word(),
        before.slots()[index] is Some,
        after.slots()[index] is Some,
        after.slots()[index].unwrap().0 == before.slots()[index].unwrap().0,
        after.slots()[index].unwrap().1 == before.slots()[index].unwrap().1,
        after.slots()[index].unwrap().2 == before.slots()[index].unwrap().2,
        after.slots()[index].unwrap().3@ == add_stats(before.slots()[index].unwrap().3@, v),
        forall|i: int| 0 <= i < MAP_SIZE && i != index ==> #[trigger] after.slots()[i] == before.slots()[i],
    ensures
        keys_kept(before, after),
        new_slots_from(before, after, Set::empty()),
        new_slots_counted(before, after),
        counted(after.slots()[index].unwrap().3),
{
    assert forall|i: int| 0 <= i < MAP_SIZE && (#[trigger] before.slots()[i]) is Some implies {
        &&& after.slots()[i] is Some
        &&& after.slots()[i].unwrap().0 == before.slots()[i].unwrap().0
        &&& after.slots()[i].unwrap().1 == before.slots()[i].unwrap().1
        &&& after.slots()[i].unwrap().2 == before.slots()[i].unwrap().2
        &&& after.filled_by_word()[i] == before.filled_by_word()[i]
        &&& (counted(before.slots()[i].unwrap().3) ==> counted(after.slots()[i].unwrap().3))
    } by {
        if i != index {
            assert(after.slots()[i] == before.slots()[i]);
        }
    }
    assert forall|i: int| 0 <= i < MAP_SIZE && before.slots()[i] is None && (#[trigger] after.slots()[i]) is Some implies false by {
        if i != index {
            assert(after.slots()[i] == before.slots()[i]);
        }
    }
}

proof fn lemma_room_len(names: Set<Seq<u8>>, i: Set<Seq<u8>>, sub: Set<Seq<u8>>)
    requires
        names.finite(),
        i.subset_of(names),
        sub.subset_of(names),
    ensures
        sub.finite(),
        i.intersect(sub).finite(),
        i.intersect(sub).subset_of(sub),
        sub.len() - i.intersect(sub).len() <= names.len() - i.len(),
{
    lemma_len_subset(sub, names);
    lemma_len_subset(i, names);
    lemma_set_difference_len(names, i);
    lemma_set_difference_len(sub, i);
    assert(sub.intersect(i) =~= i.intersect(sub));
    assert(names.intersect(i) =~= i);
    assert(sub.difference(i).subset_of(names.difference(i)));
    lemma_len_subset(sub.difference(i), names.difference(i));
    lemma_len_subset(i.intersect(sub), sub);
}

/// With room for `name`, probing by bytes for it finds it or an empty slot.
proof fn lemma_room_lookup_bytes(map: CustomMap, name: Seq<u8>)
    requires
        map.wf(),
        has_room(map, Set::empty().insert(name), Set::empty()),
    ensures
        exists|t: int|
            0 <= t < MAP_SIZE && ((#[trigger] map.slots()[t]) is None || entry_name(map.data(), map.slots()[t].unwrap())
                == name),
{
    let nb = Set::empty().insert(name);
    let nw = Set::<Seq<u8>>::empty();
    let (ib, iw) = choose|ib: Set<Seq<u8>>, iw: Set<Seq<u8>>|
        room_for(map.slots(), map.filled_by_word(), map.data(), nb, nw, ib, iw);
    if ib.contains(name) {
        let i = choose|i: int|
            0 <= i < map.slots().len() && (#[trigger] map.slots()[i]) is Some && !map.filled_by_word()[i]
                && entry_name(map.data(), map.slots()[i].unwrap()) == name;
        assert(map.slots()[i] is Some);
    } else {
        assert(ib =~= Set::<Seq<u8>>::empty());
        assert(iw =~= Set::<Seq<u8>>::empty());
        lemma_filled_count_not_full(map.slots(), MAP_SIZE as int);
    }
}

/// With room for `name`, probing by its word `w` finds that word or an empty slot.
proof fn lemma_room_lookup_word(map: CustomMap, name: Seq<u8>, w: i128)
    requires
        map.wf(),
        words_faithful(map.slots(), map.filled_by_word(), map.data()),
        has_room(map, Set::empty(), Set::empty().insert(name)),
        word_bytes(w as u128) == name_padded(name),
    ensures
        exists|t: int| 0 <= t < MAP_SIZE && ((#[trigger] map.slots()[t]) is None || map.slots()[t].unwrap().2 == w),
{
    let nb = Set::<Seq<u8>>::empty();
    let nw = Set::empty().insert(name);
    let (ib, iw) = choose|ib: Set<Seq<u8>>, iw: Set<Seq<u8>>|
        room_for(map.slots(), map.filled_by_word(), map.data(), nb, nw, ib, iw);
    if iw.contains(name) {
        let i = choose|i: int|
            0 <= i < map.slots().len() && (#[trigger] map.slots()[i]) is Some && map.filled_by_word()[i]
                && entry_name(map.data(), map.slots()[i].unwrap()) == name;
        assert(map.slots()[i] is Some);
        lemma_word_bytes_injective(map.slots()[i].unwrap().2, w);
    } else {
        assert(ib =~= Set::<Seq<u8>>::empty());
        assert(iw =~= Set::<Seq<u8>>::empty());
        lemma_filled_count_not_full(map.slots(), MAP_SIZE as int);
    }
}

/// Room for two sets of names is room for any of their subsets.
pub proof fn lemma_room_subset(
    map: CustomMap,
    nb: Set<Seq<u8>>,
    nw: Set<Seq<u8>>,
    sb: Set<Seq<u8>>,
    sw: Set<Seq<u8>>,
)
    requires
        has_room(map, nb, nw),
        sb.subset_of(nb),
        sw.subset_of(nw),
    ensures
        has_room(map, sb, sw),
{
    let (ib, iw) = choose|ib: Set<Seq<u8>>, iw: Set<Seq<u8>>|
        room_for(map.slots(), map.filled_by_word(), map.data(), nb, nw, ib, iw);
    lemma_room_len(nb, ib, sb);
    lemma_room_len(nw, iw, sw);
    assert(room_for(map.slots(), map.filled_by_word(), map.data(), sb, sw, ib.intersect(sb), iw.intersect(sw)));
}

/// After a probe by bytes for `name`, which filled slot `index` if it was
/// empty, the table still has room for any sets of names it had room for
/// whose first holds `name`.
proof fn lemma_room_after_bytes(
    old_map: CustomMap,
    new_map: CustomMap,
    name: Seq<u8>,
    index: int,
    nb: Set<Seq<u8>>,
    nw: Set<Seq<u8>>,
    ib: Set<Seq<u8>>,
    iw: Set<Seq<u8>>,
)
    requires
        old_map.wf(),
        room_for(old_map.slots(), old_map.filled_by_word(), old_map.data(), nb, nw, ib, iw),
        nb.contains(name),
        new_map.data() == old_map.data(),
        byte_probe_stops_at(old_map.slots(), old_map.data(), name, index),
        old_map.slots()[index] is None ==> new_map.slots() == old_map.slots().update(index, new_map.slots()[index])
            && new_map.slots()[index] is Some && entry_name(new_map.data(), new_map.slots()[index].unwrap()) == name
            && new_map.filled_by_word() == old_map.filled_by_word().update(index, false),
        old_map.slots()[index] is Some ==> new_map.slots() == old_map.slots() && new_map.filled_by_word()
            == old_map.filled_by_word(),
    ensures
        has_room(new_map, nb, nw),
{
    let old_slots = old_map.slots();
    let old_raw = old_map.filled_by_word();
    let data = old_map.data();
    let slots = new_map.slots();
    if old_slots[index] is None {
        lemma_byte_absent(old_slots, old_raw, data, name, index);
        let ib2 = ib.insert(name);
        lemma_filled_count_fill(old_slots, index, slots[index].unwrap(), MAP_SIZE as int);
        assert forall|n: Seq<u8>| #[trigger] ib2.contains(n) implies has_byte_slot(slots, new_map.filled_by_word(), data, n) by {
            if n == name {
                assert(slots[index] is Some);
            } else {
                let i = choose|i: int|
                    0 <= i < old_slots.len() && (#[trigger] old_slots[i]) is Some && !old_raw[i]
                        && entry_name(data, old_slots[i].unwrap()) == n;
                assert(slots[i] == old_slots[i]);
            }
        }
        assert forall|n: Seq<u8>| #[trigger] iw.contains(n) implies has_word_slot(slots, new_map.filled_by_word(), data, n) by {
            let i = choose|i: int|
                0 <= i < old_slots.len() && (#[trigger] old_slots[i]) is Some && old_raw[i]
                    && entry_name(data, old_slots[i].unwrap()) == n;
            assert(slots[i] == old_slots[i]);
        }
        assert(room_for(slots, new_map.filled_by_word(), data, nb, nw, ib2, iw));
    } else {
        assert(room_for(slots, new_map.filled_by_word(), data, nb, nw, ib, iw));
    }
}

/// After a probe by word `w` for `name`, which filled slot `index` if it was
/// empty, the table still has room for any sets of names it had room for
/// whose second holds `name`.
proof fn lemma_room_after_word(
    old_map: CustomMap,
    new_map: CustomMap,
    name: Seq<u8>,
    w: i128,
    index: int,
    nb: Set<Seq<u8>>,
    nw: Set<Seq<u8>>,
    ib: Set<Seq<u8>>,
    iw: Set<Seq<u8>>,
)
    requires
        old_map.wf(),
        words_faithful(old_map.slots(), old_map.filled_by_word(), old_map.data()),
        room_for(old_map.slots(), old_map.filled_by_word(), old_map.data(), nb, nw, ib, iw),
        nw.contains(name),
        word_bytes(w as u128) == name_padded(name),
        new_map.data() == old_map.data(),
        word_probe_stops_at(old_map.slots(), w, index),
        old_map.slots()[index] is None ==> new_map.slots() == old_map.slots().update(index, new_map.slots()[index])
            && new_map.slots()[index] is Some && entry_name(new_map.data(), new_map.slots()[index].unwrap()) == name
            && new_map.filled_by_word() == old_map.filled_by_word().update(index, true),
        old_map.slots()[index] is Some ==> new_map.slots() == old_map.slots() && new_map.filled_by_word()
            == old_map.filled_by_word(),
    ensures
        has_room(new_map, nb, nw),
{
    let old_slots = old_map.slots();
    let old_raw = old_map.filled_by_word();
    let data = old_map.data();
    let slots = new_map.slots();
    if old_slots[index] is None {
        lemma_word_absent(old_slots, old_raw, data, name, w, index);
        let iw2 = iw.insert(name);
        lemma_filled_count_fill(old_slots, index, slots[index].unwrap(), MAP_SIZE as int);
        assert forall|n: Seq<u8>| #[trigger] iw2.contains(n) implies has_word_slot(slots, new_map.filled_by_word(), data, n) by {
            if n == name {
                assert(slots[index] is Some);
            } else {
                let i = choose|i: int|
                    0 <= i < old_slots.len() && (#[trigger] old_slots[i]) is Some && old_raw[i]
                        && entry_name(data, old_slots[i].unwrap()) == n;
                assert(slots[i] == old_slots[i]);
            }
        }
        assert forall|n: Seq<u8>| #[trigger] ib.contains(n) implies has_byte_slot(slots, new_map.filled_by_word(), data, n) by {
            let i = choose|i: int|
                0 <= i < old_slots.len() && (#[trigger] old_slots[i]) is Some && !old_raw[i]
                    && entry_name(data, old_slots[i].unwrap()) == n;
            assert(slots[i] == old_slots[i]);
        }
        assert(room_for(slots, new_map.filled_by_word(), data, nb, nw, ib, iw2));
    } else {
        assert(room_for(slots, new_map.filled_by_word(), data, nb, nw, ib, iw));
    }
}

/// Finds or makes the slot of the name `data[start..start + len]`, comparing bytes.
pub(crate) fn locate_by_bytes(map: &mut CustomMap, start: usize, len: usize) -> (index: usize)
    requires
        table_ready(*old(map)),
        start + len <= old(map).data().len(),
        has_room(*old(map), Set::empty().insert(old(map).data().subrange(start as int, start + len)), Set::empty()),
    ensures
        table_ready(*final(map)),
        final(map).data() == old(map).data(),
        forall|nb: Set<Seq<u8>>, nw: Set<Seq<u8>>|
            nb.contains(old(map).data().subrange(start as int, start + len)) && has_room(*old(map), nb, nw)
                ==> #[trigger] has_room(*final(map), nb, nw),
        slot_holds(*final(map), index as int, old(map).data().subrange(start as int, start + len)),
        located(*old(map), *final(map), index as int, start as int, len as int, false),
        old(map).slots()[index as int] is None ==> !has_byte_slot(
            old(map).slots(),
            old(map).filled_by_word(),
            old(map).data(),
            old(map).data().subrange(start as int, start + len),
        ),
        final(map).filled_by_word()[index as int] ==> len <= 16,
        slots_kept(old(map).slots(), final(map).slots()),
        forall|n: Seq<u8>| #[trigger] final(map).station_stats(n) == old(map).station_stats(n),
{
    let ghost name = map.data().subrange(start as int, start + len);
    let ghost old_map = *map;
    proof {
        lemma_room_lookup_bytes(*map, name);
    }
    let index = map.find_index(start, len);
    proof {
        let slots = map.slots();
        if old_map.slots()[index as int] is None {
            assert(slots =~= old_map.slots().update(index as int, slots[index as int]));
            assert(words_faithful(slots, map.filled_by_word(), map.data()));
            lemma_byte_absent(old_map.slots(), old_map.filled_by_word(), old_map.data(), name, index as int);
        } else if map.filled_by_word()[index as int] {
            assert(entry_name(map.data(), slots[index as int].unwrap()) == name);
        }
        assert forall|nb: Set<Seq<u8>>, nw: Set<Seq<u8>>|
            nb.contains(name) && has_room(old_map, nb, nw) implies #[trigger] has_room(*map, nb, nw) by {
            let (ib, iw) = choose|ib: Set<Seq<u8>>, iw: Set<Seq<u8>>|
                room_for(old_map.slots(), old_map.filled_by_word(), old_map.data(), nb, nw, ib, iw);
            lemma_room_after_bytes(old_map, *map, name, index as int, nb, nw, ib, iw);
        }
    }
    index
}

/// Finds or makes the slot of the name `data[start..start + len]`, comparing
/// the masked word `raw`, whose first `len` bytes are that name.
pub(crate) fn locate_by_word(map: &mut CustomMap, start: usize, len: usize, raw: u128) -> (index: usize)
    requires
        table_ready(*old(map)),
        start + len <= old(map).data().len(),
        len <= 16,
        has_room(*old(map), Set::empty(), Set::empty().insert(old(map).data().subrange(start as int, start + len))),
        word_name(old(map).data().subrange(start as int, start + len)),
        word_bytes(raw).subrange(0, len as int) == old(map).data().subrange(start as int, start + len),
    ensures
        table_ready(*final(map)),
        final(map).data() == old(map).data(),
        forall|nb: Set<Seq<u8>>, nw: Set<Seq<u8>>|
            nw.contains(old(map).data().subrange(start as int, start + len)) && has_room(*old(map), nb, nw)
                ==> #[trigger] has_room(*final(map), nb, nw),
        slot_holds(*final(map), index as int, old(map).data().subrange(start as int, start + len)),
        located(*old(map), *final(map), index as int, start as int, len as int, true),
        old(map).slots()[index as int] is None ==> !has_word_slot(
            old(map).slots(),
            old(map).filled_by_word(),
            old(map).data(),
            old(map).data().subrange(start as int, start + len),
        ),
        final(map).filled_by_word()[index as int],
        slots_kept(old(map).slots(), final(map).slots()),
        forall|n: Seq<u8>| #[trigger] final(map).station_stats(n) == old(map).station_stats(n),
{
    let ghost name = map.data().subrange(start as int, start + len);
    let ghost old_map = *map;
    let ghost w = masked_word(raw as i128, len as int);
    proof {
        lemma_masked_word_bytes(raw, len as int);
        assert(word_bytes(w as u128) =~= name_padded(name));
        lemma_room_lookup_word(*map, name, w);
    }
    let index = map.find_index_with_raw_data(start, len, raw as i128);
    proof {
        let slots = map.slots();
        if old_map.slots()[index as int] is None {
            assert(slots =~= old_map.slots().update(index as int, slots[index as int]));
            assert(words_faithful(slots, map.filled_by_word(), map.data()));
            lemma_word_absent(old_map.slots(), old_map.filled_by_word(), old_map.data(), name, w, index as int);
        } else {
            lemma_word_match_name(old_map.slots(), old_map.filled_by_word(), old_map.data(), name, w, index as int);
            lemma_word_name_nonzero(w, name);
        }
        assert forall|nb: Set<Seq<u8>>, nw: Set<Seq<u8>>|
            nw.contains(name) && has_room(old_map, nb, nw) implies #[trigger] has_room(*map, nb, nw) by {
            let (ib, iw) = choose|ib: Set<Seq<u8>>, iw: Set<Seq<u8>>|
                room_for(old_map.slots(), old_map.filled_by_word(), old_map.data(), nb, nw, ib, iw);
            lemma_room_after_word(old_map, *map, name, w, index as int, nb, nw, ib, iw);
        }
    }
    index
}

/// Adding `vals` one by one to a sum `start` keeps every running sum
/// within an `i32`.
pub open spec fn sums_fit(start: int, vals: Seq<int>) -> bool
    decreases vals.len(),
{
    if vals.len() == 0 {
        true
    } else {
        &&& i32::MIN <= start + vals[0] <= i32::MAX
        &&& sums_fit(start + vals[0], vals.drop_first())
    }
}

/// Some slot of kind `by_word` (filled by comparing words, or bytes) holds the name `n`.
pub open spec fn has_kind_slot(map: CustomMap, n: Seq<u8>, by_word: bool) -> bool {
    if by_word {
        has_word_slot(map.slots(), map.filled_by_word(), map.data(), n)
    } else {
        has_byte_slot(map.slots(), map.filled_by_word(), map.data(), n)
    }
}

/// Every record can take, in order, the measurements `vals(n, k)` still to
/// come for its name `n` and kind `k` without its count or any running sum
/// overflowing, and so can a fresh record for a name and kind that has no
/// slot yet.
pub open spec fn records_fit(map: CustomMap, vals: spec_fn(Seq<u8>, bool) -> Seq<int>) -> bool {
    &&& forall|i: int|
        0 <= i < MAP_SIZE && (#[trigger] map.slots()[i]) is Some ==> {
            let v = vals(entry_name(map.data(), map.slots()[i].unwrap()), map.filled_by_word()[i]);
            &&& map.slots()[i].unwrap().3.count + v.len() <= u32::MAX
            &&& sums_fit(map.slots()[i].unwrap().3.sum as int, v)
        }
    &&& forall|n: Seq<u8>, k: bool|
        !has_kind_slot(map, n, k) ==> (#[trigger] vals(n, k)).len() <= u32::MAX && sums_fit(0, vals(n, k))
}

/// A fresh record can take each of `vals`.
pub open spec fn fresh_fit(vals: spec_fn(Seq<u8>, bool) -> Seq<int>) -> bool {
    forall|n: Seq<u8>, k: bool| (#[trigger] vals(n, k)).len() <= u32::MAX && sums_fit(0, vals(n, k))
}

/// No measurement to come.
pub open spec fn no_values() -> spec_fn(Seq<u8>, bool) -> Seq<int> {
    |n: Seq<u8>, k: bool| Seq::<int>::empty()
}

/// The kind of slot the byte-by-byte scan keeps a name in: by word for at
/// most sixteen bytes.
pub open spec fn slow_kind(n: Seq<u8>) -> bool {
    n.len() <= 16
}

/// The measurements of a region, for the slot each goes to in the
/// byte-by-byte scan, followed by `rest`.
pub open spec fn with_region(
    s: Seq<u8>,
    p: int,
    end: int,
    rest: spec_fn(Seq<u8>, bool) -> Seq<int>,
) -> spec_fn(Seq<u8>, bool) -> Seq<int> {
    |n: Seq<u8>, k: bool|
        if k == slow_kind(n) {
            region_values(s, p, end, n) + rest(n, k)
        } else {
            rest(n, k)
        }
}

/// The measurements of a region, for the slot each goes to in the
/// byte-by-byte scan.
pub open spec fn region_vals(s: Seq<u8>, p: int, end: int) -> spec_fn(Seq<u8>, bool) -> Seq<int> {
    |n: Seq<u8>, k: bool|
        if k == slow_kind(n) {
            region_values(s, p, end, n)
        } else {
            Seq::<int>::empty()
        }
}

/// Budgets equal at every name and kind are met alike.
pub(crate) proof fn lemma_fit_ext(
    map: CustomMap,
    vals: spec_fn(Seq<u8>, bool) -> Seq<int>,
    vals2: spec_fn(Seq<u8>, bool) -> Seq<int>,
)
    requires
        records_fit(map, vals),
        forall|n: Seq<u8>, k: bool| #[trigger] vals2(n, k) == vals(n, k),
    ensures
        records_fit(map, vals2),
{
    assert forall|i: int| 0 <= i < MAP_SIZE && (#[trigger] map.slots()[i]) is Some implies ({
        let v = vals2(entry_name(map.data(), map.slots()[i].unwrap()), map.filled_by_word()[i]);
        &&& map.slots()[i].unwrap().3.count + v.len() <= u32::MAX
        &&& sums_fit(map.slots()[i].unwrap().3.sum as int, v)
    }) by {
        assert(vals2(entry_name(map.data(), map.slots()[i].unwrap()), map.filled_by_word()[i]) == vals(
            entry_name(map.data(), map.slots()[i].unwrap()),
            map.filled_by_word()[i],
        ));
    }
    assert forall|n: Seq<u8>, k: bool| !has_kind_slot(map, n, k) implies (#[trigger] vals2(n, k)).len() <= u32::MAX
        && sums_fit(0, vals2(n, k)) by {
        assert(vals2(n, k) == vals(n, k));
    }
}

/// An empty table meets every budget a fresh record can take.
pub(crate) proof fn lemma_fit_fresh(map: CustomMap, vals: spec_fn(Seq<u8>, bool) -> Seq<int>)
    requires
        map.slots() == Seq::new(MAP_SIZE as nat, |i: int| None::<Entry>),
        fresh_fit(vals),
    ensures
        records_fit(map, vals),
{
    assert forall|n: Seq<u8>, k: bool| !has_kind_slot(map, n, k) implies (#[trigger] vals(n, k)).len() <= u32::MAX
        && sums_fit(0, vals(n, k)) by {
    }
}

/// A lookup, which keeps the filled slots and may fill an empty one with a
/// fresh record for a name without a slot of its kind, keeps every budget.
pub(crate) proof fn lemma_fit_located(
    m1: CustomMap,
    m2: CustomMap,
    index: int,
    start: int,
    len: int,
    by_word: bool,
    vals: spec_fn(Seq<u8>, bool) -> Seq<int>,
)
    requires
        m1.wf(),
        m2.data() == m1.data(),
        located(m1, m2, index, start, len, by_word),
        slots_kept(m1.slots(), m2.slots()),
        m1.slots()[index] is None ==> !has_kind_slot(m1, entry_name(m2.data(), m2.slots()[index].unwrap()), by_word),
        records_fit(m1, vals),
    ensures
        records_fit(m2, vals),
{
    assert forall|i: int| 0 <= i < MAP_SIZE && i != index implies m2.slots()[i] == m1.slots()[i]
        && m2.filled_by_word()[i] == m1.filled_by_word()[i] by {
    }
    assert forall|i: int| 0 <= i < MAP_SIZE && (#[trigger] m2.slots()[i]) is Some implies ({
        let v = vals(entry_name(m2.data(), m2.slots()[i].unwrap()), m2.filled_by_word()[i]);
        &&& m2.slots()[i].unwrap().3.count + v.len() <= u32::MAX
        &&& sums_fit(m2.slots()[i].unwrap().3.sum as int, v)
    }) by {
        if i != index || m1.slots()[index] is Some {
            assert(m1.slots()[i] is Some);
        } else {
            let n = entry_name(m2.data(), m2.slots()[i].unwrap());
            assert(vals(n, by_word).len() <= u32::MAX);
        }
    }
    assert forall|n: Seq<u8>, k: bool| !has_kind_slot(m2, n, k) implies (#[trigger] vals(n, k)).len() <= u32::MAX
        && sums_fit(0, vals(n, k)) by {
        if has_kind_slot(m1, n, k) {
            let i = choose|i: int|
                0 <= i < m1.slots().len() && (#[trigger] m1.slots()[i]) is Some && m1.filled_by_word()[i] == k
                    && entry_name(m1.data(), m1.slots()[i].unwrap()) == n;
            assert(m2.slots()[i] == m1.slots()[i]);
        }
    }
}

/// Two filled slots of the same kind hold different names.
pub(crate) proof fn lemma_kind_unique(map: CustomMap, i: int, j: int)
    requires
        table_ready(map),
        0 <= i < MAP_SIZE,
        0 <= j < MAP_SIZE,
        i != j,
        map.slots()[i] is Some,
        map.slots()[j] is Some,
        map.filled_by_word()[i] == map.filled_by_word()[j],
    ensures
        entry_name(map.data(), map.slots()[i].unwrap()) != entry_name(map.data(), map.slots()[j].unwrap()),
{
    lemma_slots_unique(map, i, j);
    if map.filled_by_word()[i] && entry_name(map.data(), map.slots()[i].unwrap()) == entry_name(
        map.data(),
        map.slots()[j].unwrap(),
    ) {
        lemma_word_bytes_injective(map.slots()[i].unwrap().2, map.slots()[j].unwrap().2);
    }
}

/// A record that meets its budget can take the next measurement of it.
pub(crate) proof fn lemma_fit_next(map: CustomMap, index: int, vals: spec_fn(Seq<u8>, bool) -> Seq<int>)
    requires
        records_fit(map, vals),
        0 <= index < MAP_SIZE,
        map.slots()[index] is Some,
        vals(entry_name(map.data(), map.slots()[index].unwrap()), map.filled_by_word()[index]).len() > 0,
    ensures
        map.slots()[index].unwrap().3.count < u32::MAX,
        i32::MIN <= map.slots()[index].unwrap().3.sum + vals(
            entry_name(map.data(), map.slots()[index].unwrap()),
            map.filled_by_word()[index],
        )[0] <= i32::MAX,
{
}

/// Adding to slot `index` the next measurement of its name and kind leaves
/// the rest of the budget.
pub(crate) proof fn lemma_fit_add(
    m1: CustomMap,
    m2: CustomMap,
    index: int,
    vals: spec_fn(Seq<u8>, bool) -> Seq<int>,
    vals2: spec_fn(Seq<u8>, bool) -> Seq<int>,
)
    requires
        table_ready(m1),
        0 <= index < MAP_SIZE,
        m2.data() == m1.data(),
        m2.filled_by_word() == m1.filled_by_word(),
        m2.slots().len() == MAP_SIZE,
        m1.slots()[index] is Some,
        m2.slots()[index] is Some,
        m2.slots()[index].unwrap().0 == m1.slots()[index].unwrap().0,
        m2.slots()[index].unwrap().1 == m1.slots()[index].unwrap().1,
        forall|i: int| 0 <= i < MAP_SIZE && i != index ==> #[trigger] m2.slots()[i] == m1.slots()[i],
        records_fit(m1, vals),
        ({
            let nm = entry_name(m1.data(), m1.slots()[index].unwrap());
            let kd = m1.filled_by_word()[index];
            &&& vals(nm, kd).len() > 0
            &&& m2.slots()[index].unwrap().3@ == add_stats(m1.slots()[index].unwrap().3@, vals(nm, kd)[0])
            &&& vals2(nm, kd) == vals(nm, kd).drop_first()
            &&& forall|n: Seq<u8>, k: bool| !(n == nm && k == kd) ==> #[trigger] vals2(n, k) == vals(n, k)
        }),
    ensures
        records_fit(m2, vals2),
{
    let nm = entry_name(m1.data(), m1.slots()[index].unwrap());
    let kd = m1.filled_by_word()[index];
    assert forall|i: int| 0 <= i < MAP_SIZE && (#[trigger] m2.slots()[i]) is Some implies ({
        let v = vals2(entry_name(m2.data(), m2.slots()[i].unwrap()), m2.filled_by_word()[i]);
        &&& m2.slots()[i].unwrap().3.count + v.len() <= u32::MAX
        &&& sums_fit(m2.slots()[i].unwrap().3.sum as int, v)
    }) by {
        if i != index {
            assert(m2.slots()[i] == m1.slots()[i]);
            if m1.filled_by_word()[i] == kd {
                lemma_kind_unique(m1, i, index);
            }
            let n = entry_name(m2.data(), m2.slots()[i].unwrap());
            assert(vals2(n, m2.filled_by_word()[i]) == vals(n, m1.filled_by_word()[i]));
        }
    }
    assert forall|n: Seq<u8>, k: bool| !has_kind_slot(m2, n, k) implies (#[trigger] vals2(n, k)).len() <= u32::MAX
        && sums_fit(0, vals2(n, k)) by {
        if has_kind_slot(m1, n, k) {
            let i = choose|i: int|
                0 <= i < m1.slots().len() && (#[trigger] m1.slots()[i]) is Some && m1.filled_by_word()[i] == k
                    && entry_name(m1.data(), m1.slots()[i].unwrap()) == n;
            assert(m2.slots()[i] is Some);
        }
        if n == nm && k == kd {
            assert(m2.slots()[index] is Some);
        }
        assert(vals2(n, k) == vals(n, k));
    }
}

/// A sum that stays within range through some measurements stays so
/// through the first of them.
pub(crate) proof fn lemma_sums_fit_prefix(start: int, a: Seq<int>, b: Seq<int>)
    requires
        sums_fit(start, a + b),
    ensures
        sums_fit(start, a),
    decreases a.len(),
{
    if a.len() > 0 {
        assert((a + b)[0] == a[0]);
        assert((a + b).drop_first() =~= a.drop_first() + b);
        lemma_sums_fit_prefix(start + a[0], a.drop_first(), b);
    }
}

/// A table that can take some measurements can take the first of them.
pub(crate) proof fn lemma_fit_prefix(
    map: CustomMap,
    vals: spec_fn(Seq<u8>, bool) -> Seq<int>,
    vals2: spec_fn(Seq<u8>, bool) -> Seq<int>,
    more: spec_fn(Seq<u8>, bool) -> Seq<int>,
)
    requires
        records_fit(map, vals),
        forall|n: Seq<u8>, k: bool| #[trigger] vals(n, k) == vals2(n, k) + more(n, k),
    ensures
        records_fit(map, vals2),
{
    assert forall|i: int| 0 <= i < MAP_SIZE && (#[trigger] map.slots()[i]) is Some implies ({
        let v = vals2(entry_name(map.data(), map.slots()[i].unwrap()), map.filled_by_word()[i]);
        &&& map.slots()[i].unwrap().3.count + v.len() <= u32::MAX
        &&& sums_fit(map.slots()[i].unwrap().3.sum as int, v)
    }) by {
        let n = entry_name(map.data(), map.slots()[i].unwrap());
        let k = map.filled_by_word()[i];
        assert(vals(n, k) == vals2(n, k) + more(n, k));
        lemma_sums_fit_prefix(map.slots()[i].unwrap().3.sum as int, vals2(n, k), more(n, k));
    }
    assert forall|n: Seq<u8>, k: bool| !has_kind_slot(map, n, k) implies (#[trigger] vals2(n, k)).len() <= u32::MAX
        && sums_fit(0, vals2(n, k)) by {
        assert(vals(n, k) == vals2(n, k) + more(n, k));
        lemma_sums_fit_prefix(0, vals2(n, k), more(n, k));
    }
}

/// Changing records leaves the shape of the table, and so its room, as it was.
pub(crate) proof fn lemma_room_after_add(
    old_map: CustomMap,
    new_map: CustomMap,
    index: int,
    nb: Set<Seq<u8>>,
    nw: Set<Seq<u8>>,
)
    requires
        has_room(old_map, nb, nw),
        new_map.data() == old_map.data(),
        new_map.filled_by_word() == old_map.filled_by_word(),
        old_map.slots().len() == MAP_SIZE,
        new_map.slots().len() == MAP_SIZE,
        0 <= index < MAP_SIZE,
        old_map.slots()[index] is Some,
        new_map.slots()[index] is Some,
        new_map.slots()[index].unwrap().0 == old_map.slots()[index].unwrap().0,
        new_map.slots()[index].unwrap().1 == old_map.slots()[index].unwrap().1,
        forall|i: int| 0 <= i < MAP_SIZE && i != index ==> #[trigger] new_map.slots()[i] == old_map.slots()[i],
    ensures
        has_room(new_map, nb, nw),
{
    let (ib, iw) = choose|ib: Set<Seq<u8>>, iw: Set<Seq<u8>>|
        room_for(old_map.slots(), old_map.filled_by_word(), old_map.data(), nb, nw, ib, iw);
    let a = old_map.slots();
    let b = new_map.slots();
    let data = old_map.data();
    let by_raw = old_map.filled_by_word();
    assert forall|i: int| 0 <= i < a.len() implies (#[trigger] a[i] is Some) == (b[i] is Some) by {
        if i != index {
            assert(b[i] == a[i]);
        }
    }
    lemma_filled_count_same_shape(a, b, MAP_SIZE as int);
    assert forall|n: Seq<u8>| #[trigger] ib.contains(n) implies has_byte_slot(b, by_raw, data, n) by {
        let i = choose|i: int|
            0 <= i < a.len() && (#[trigger] a[i]) is Some && !by_raw[i] && entry_name(data, a[i].unwrap()) == n;
        assert(b[i] is Some && entry_name(data, b[i].unwrap()) == n);
    }
    assert forall|n: Seq<u8>| #[trigger] iw.contains(n) implies has_word_slot(b, by_raw, data, n) by {
        let i = choose|i: int|
            0 <= i < a.len() && (#[trigger] a[i]) is Some && by_raw[i] && entry_name(data, a[i].unwrap()) == n;
        assert(b[i] is Some && entry_name(data, b[i].unwrap()) == n);
    }
    assert(room_for(b, by_raw, data, nb, nw, ib, iw));
}

/// Parses, digit by digit, the measurement after the `;` at `semicolon` of
/// the line at `p`; returns its value in tenths and the position of its last digit.
fn parse_measurement(data: &[u8], semicolon: usize, Ghost(p): Ghost<int>) -> (r: (i32, usize))
    requires
        is_line(data@, p),
        semicolon == line_semicolon(data@, p),
    ensures
        r.0 == line_value(data@, p),
        r.1 == line_dot(data@, p) + 1,
{
    let ghost s = data@;
    let ghost dot = line_dot(s, p);
    let ghost neg = line_negative(s, p);
    let ghost a: int = if neg { semicolon + 2 } else { semicolon + 1 };
    proof {
        lemma_line_facts(s, p);
        lemma_line_digits(s, p);
    }
    let n = data.len();
    let mut current_position = semicolon + 1;
    let mut value: i32 = 0;
    let mut sign: i32 = 1;
    let b = data[current_position];
    if b == 45u8 {
        sign = -1;
        assert(s.subrange(a, current_position + 1) =~= Seq::<u8>::empty());
        assert(digits_value(s.subrange(a, current_position + 1)) == 0);
    } else {
        value = (b - 48u8) as i32;
        assert(s.subrange(a, current_position + 1).drop_last() =~= Seq::<u8>::empty());
        assert(digits_value(Seq::<u8>::empty()) == 0);
        assert(s.subrange(a, current_position + 1).last() == b);
        assert(digits_value(s.subrange(a, current_position + 1)) == value);
    }
    current_position += 1;
    while data[current_position] != 46u8
        invariant
            s == data@,
            n == s.len(),
            is_line(s, p),
            semicolon == line_semicolon(s, p),
            dot == line_dot(s, p),
            neg == line_negative(s, p),
            a == (if neg { semicolon + 2 } else { semicolon + 1 }),
            semicolon + 2 <= current_position <= dot,
            value == digits_value(s.subrange(a, current_position as int)),
            (sign == -1) == neg,
            all_at_least_zero_digit(line_int_digits(s, p)),
            is_first_from(s, semicolon + 2, 46u8, dot),
            dot + 1 < s.len(),
            line_magnitude(s, p) <= i32::MAX,
            line_magnitude(s, p) >= 0,
        decreases dot - current_position,
    {
        proof {
            let d = line_int_digits(s, p);
            assert(d =~= s.subrange(a, dot));
            lemma_digits_value_prefix(d, current_position + 1 - a);
            assert(d.subrange(0, current_position + 1 - a) =~= s.subrange(a, current_position + 1));
            assert(s.subrange(a, current_position + 1).drop_last() =~= s.subrange(a, current_position as int));
            assert(s[current_position as int] >= 48);
        }
        value = value * 10 + (data[current_position] - 48u8) as i32;
        current_position += 1;
    }
    proof {
        assert(current_position == dot);
        assert(line_int_digits(s, p) =~= s.subrange(a, dot));
    }
    current_position += 1;
    value = value * 10 + (data[current_position] - 48u8) as i32;
    if sign == -1 {
        value = -value;
    }
    (value, current_position)
}


/// Adding the measurement of the line at `p` to the slot of its station,
/// of the kind the byte-by-byte scan uses, leaves the budget of the region
/// after that line.
pub(crate) proof fn lemma_fit_line(
    m1: CustomMap,
    m2: CustomMap,
    s: Seq<u8>,
    index: int,
    p: int,
    end: int,
    rest: spec_fn(Seq<u8>, bool) -> Seq<int>,
)
    requires
        table_ready(m1),
        m1.data() == s,
        region_ok(s, p, end),
        p <= end,
        0 <= index < MAP_SIZE,
        m2.data() == m1.data(),
        m2.filled_by_word() == m1.filled_by_word(),
        m2.slots().len() == MAP_SIZE,
        m1.slots()[index] is Some,
        m2.slots()[index] is Some,
        m2.slots()[index].unwrap().0 == m1.slots()[index].unwrap().0,
        m2.slots()[index].unwrap().1 == m1.slots()[index].unwrap().1,
        entry_name(s, m1.slots()[index].unwrap()) == line_name(s, p),
        m1.filled_by_word()[index] == slow_kind(line_name(s, p)),
        m2.slots()[index].unwrap().3@ == add_stats(m1.slots()[index].unwrap().3@, line_value(s, p)),
        forall|i: int| 0 <= i < MAP_SIZE && i != index ==> #[trigger] m2.slots()[i] == m1.slots()[i],
        records_fit(m1, with_region(s, p, end, rest)),
    ensures
        records_fit(m2, with_region(s, line_next(s, p), end, rest)),
{
    let nm = line_name(s, p);
    let kd = slow_kind(nm);
    let next = line_next(s, p);
    let vals = with_region(s, p, end, rest);
    let vals2 = with_region(s, next, end, rest);
    lemma_region_step(s, p, end, nm);
    assert(vals(nm, kd) =~= seq![line_value(s, p)] + vals2(nm, kd));
    assert(vals2(nm, kd) =~= vals(nm, kd).drop_first());
    assert forall|n: Seq<u8>, k: bool| !(n == nm && k == kd) implies #[trigger] vals2(n, k) == vals(n, k) by {
        lemma_region_step(s, p, end, n);
        if k == slow_kind(n) {
            assert(line_values(s, p, n) =~= Seq::<int>::empty());
            assert(vals(n, k) =~= vals2(n, k));
        }
    }
    lemma_fit_add(m1, m2, index, vals, vals2);
}

/// A lookup followed by the addition of a measurement to the slot it found
/// keeps the filled slots, and the slot it may have filled names the line at
/// `p` and has taken a measurement.
pub(crate) proof fn lemma_locate_then_add(
    m1: CustomMap,
    m2: CustomMap,
    m3: CustomMap,
    index: int,
    p: int,
    len: int,
    by_word: bool,
    v: int,
)
    requires
        located(m1, m2, index, p, len, by_word),
        m1.slots().len() == MAP_SIZE,
        m1.filled_by_word().len() == MAP_SIZE,
        m2.slots().len() == MAP_SIZE,
        m3.slots().len() == MAP_SIZE,
        m2.data() == m1.data(),
        m3.data() == m1.data(),
        p + len == line_semicolon(m1.data(), p),
        !by_word ==> len >= 16,
        m3.filled_by_word() == m2.filled_by_word(),
        m2.slots()[index] is Some,
        m3.slots()[index] is Some,
        m3.slots()[index].unwrap().0 == m2.slots()[index].unwrap().0,
        m3.slots()[index].unwrap().1 == m2.slots()[index].unwrap().1,
        m3.slots()[index].unwrap().2 == m2.slots()[index].unwrap().2,
        m3.slots()[index].unwrap().3@ == add_stats(m2.slots()[index].unwrap().3@, v),
        forall|i: int| 0 <= i < MAP_SIZE && i != index ==> #[trigger] m3.slots()[i] == m2.slots()[i],
    ensures
        keys_kept(m1, m3),
        new_slots_from(m1, m3, Set::empty().insert(p)),
        new_slots_counted(m1, m3),
{
    lemma_located_keys(m1, m2, index, p, len, by_word);
    lemma_added_keys(m2, m3, index, v);
    lemma_keys_trans(m1, m2, m3);
    lemma_new_slots_trans(m1, m2, m3, Set::empty().insert(p), Set::empty(), Set::empty().insert(p));
    assert forall|i: int| 0 <= i < MAP_SIZE && m1.slots()[i] is None && (#[trigger] m3.slots()[i]) is Some implies counted(
        m3.slots()[i].unwrap().3,
    ) by {
        if m2.slots()[i] is None {
            assert(m3.slots()[i] == m2.slots()[i]);
        }
    }
}

/// After the lines of a region made of lines are added to a table, the
/// station of every line of it has taken one more measurement at least,
/// and that line's measurement lies between the station's minimum and maximum.
proof fn lemma_slow_lines_counted(map0: CustomMap, map: CustomMap, s: Seq<u8>, offset0: int, end: int)
    requires
        0 <= offset0,
        map0.wf(),
        forall|m: Seq<u8>|
            #[trigger] map.station_stats(m) == merge_stats(map0.station_stats(m), region_stats(s, offset0, end, m)),
    ensures
        newline_lines(s, offset0, end) ==> forall|q: int|
            offset0 <= q <= end && (q == offset0 || s[q - 1] == 10u8) ==> {
                let st = #[trigger] map.station_stats(line_name(s, q));
                &&& st.count > map0.station_stats(line_name(s, q)).count
                &&& st.min <= line_value(s, q) <= st.max
            },
{
    if newline_lines(s, offset0, end) {
        lemma_region_starts_are_line_starts(s, offset0, end);
        assert forall|q: int| offset0 <= q <= end && (q == offset0 || s[q - 1] == 10u8) implies ({
            let st = #[trigger] map.station_stats(line_name(s, q));
            &&& st.count > map0.station_stats(line_name(s, q)).count
            &&& st.min <= line_value(s, q) <= st.max
        }) by {
            assert(region_starts(s, offset0, end).contains(q));
            lemma_each_line_counted(s, offset0, end, q);
            assert(map.station_stats(line_name(s, q)) == merge_stats(
                map0.station_stats(line_name(s, q)),
                region_stats(s, offset0, end, line_name(s, q)),
            ));
        }
    }
}

/// After the lines of a region made of lines are added to a table, every
/// slot filled since holds a name that starts a line and holds no line end,
/// and no station whose name holds a line end has changed.
proof fn lemma_slow_lines(map0: CustomMap, map: CustomMap, s: Seq<u8>, offset0: int, end: int)
    requires
        0 <= offset0,
        map0.wf(),
        map.data() == s,
        new_slots_from(map0, map, region_starts(s, offset0, end)),
        forall|m: Seq<u8>|
            #[trigger] map.station_stats(m) == merge_stats(map0.station_stats(m), region_stats(s, offset0, end, m)),
    ensures
        newline_lines(s, offset0, end) ==> forall|i: int|
            0 <= i < MAP_SIZE && map0.slots()[i] is None && (#[trigger] map.slots()[i]) is Some ==> {
                let e = map.slots()[i].unwrap();
                &&& (e.0 == offset0 || s[e.0 - 1] == 10u8)
                &&& forall|j: int| 0 <= j < e.1 ==> #[trigger] s[e.0 + j] != 10u8
            },
        newline_lines(s, offset0, end) ==> forall|n: Seq<u8>|
            (exists|j: int| 0 <= j < n.len() && #[trigger] n[j] == 10u8) ==> #[trigger] map.station_stats(n)
                == map0.station_stats(n),
{
    if newline_lines(s, offset0, end) {
        lemma_region_starts_are_line_starts(s, offset0, end);
        assert forall|i: int|
            0 <= i < MAP_SIZE && map0.slots()[i] is None && (#[trigger] map.slots()[i]) is Some implies ({
            let e = map.slots()[i].unwrap();
            &&& (e.0 == offset0 || s[e.0 - 1] == 10u8)
            &&& forall|j: int| 0 <= j < e.1 ==> #[trigger] s[e.0 + j] != 10u8
        }) by {
            let e = map.slots()[i].unwrap();
            let q = e.0 as int;
            assert(region_starts(s, offset0, end).contains(q));
            lemma_region_start_line(s, offset0, end, q);
            let nm = entry_name(s, e);
            assert(nm =~= line_name(s, q));
            lemma_names_hold_no_line_end(s, offset0, end, nm);
            assert forall|j: int| 0 <= j < e.1 implies #[trigger] s[e.0 + j] != 10u8 by {
                assert(nm[j] == s[e.0 + j]);
            }
        }
        assert forall|n: Seq<u8>|
            (exists|j: int| 0 <= j < n.len() && #[trigger] n[j] == 10u8) implies #[trigger] map.station_stats(n)
                == map0.station_stats(n) by {
            lemma_names_hold_no_line_end(s, offset0, end, n);
            crate::custom_map::lemma_table_stats_within_sentinels(map0, n);
            lemma_merge_empty(map0.station_stats(n));
        }
    }
}

/// Adds to `map`, one byte at a time, the lines of `data` from `offset` that
/// start at or before `end`. Of the table it asks that each slot can take,
/// in order and without its count or any running sum overflowing, the
/// measurements of its station that the range holds (a fresh record for a
/// station without a slot of the kind it is kept in), and that there is a
/// slot for each new station.
pub fn slow_process(data: &[u8], offset: usize, end: usize, map: &mut CustomMap)
    requires
        table_ready(*old(map)),
        old(map).data() == data@,
        data@.len() < usize::MAX,
        region_ok(data@, offset as int, end as int),
        forall|n: Seq<u8>| #[trigger] region_names(data@, offset as int, end as int).contains(n) ==> n.len() <= 16 ==> word_name(n),
        has_room(
            *old(map),
            names_longer(region_names(data@, offset as int, end as int), 16),
            names_upto(region_names(data@, offset as int, end as int), 16),
        ),
        records_fit(*old(map), region_vals(data@, offset as int, end as int)),
    ensures
        table_ready(*final(map)),
        final(map).data() == data@,
        forall|n: Seq<u8>|
            #[trigger] final(map).station_stats(n) == merge_stats(
                old(map).station_stats(n),
                region_stats(data@, offset as int, end as int, n),
            ),
        keys_kept(*old(map), *final(map)),
        new_slots_from(*old(map), *final(map), region_starts(data@, offset as int, end as int)),
        new_slots_counted(*old(map), *final(map)),
        newline_lines(data@, offset as int, end as int) ==> forall|q: int|
            offset <= q <= end && (q == offset || data@[q - 1] == 10u8) ==> {
                let st = #[trigger] final(map).station_stats(line_name(data@, q));
                &&& st.count > old(map).station_stats(line_name(data@, q)).count
                &&& st.min <= line_value(data@, q) <= st.max
            },
        newline_lines(data@, offset as int, end as int) ==> forall|i: int|
            0 <= i < MAP_SIZE && old(map).slots()[i] is None && (#[trigger] final(map).slots()[i]) is Some ==> {
                let e = final(map).slots()[i].unwrap();
                &&& (e.0 == offset || data@[e.0 - 1] == 10u8)
                &&& forall|j: int| 0 <= j < e.1 ==> #[trigger] data@[e.0 + j] != 10u8
            },
        newline_lines(data@, offset as int, end as int) ==> forall|n: Seq<u8>|
            (exists|j: int| 0 <= j < n.len() && #[trigger] n[j] == 10u8) ==> #[trigger] final(map).station_stats(n)
                == old(map).station_stats(n),
        forall|i: int|
            0 <= i < MAP_SIZE && old(map).slots()[i] is None && (#[trigger] final(map).slots()[i]) is Some
                ==> region_names(data@, offset as int, end as int).contains(
                entry_name(data@, final(map).slots()[i].unwrap()),
            ),
        forall|nb: Set<Seq<u8>>, nw: Set<Seq<u8>>|
            names_longer(region_names(data@, offset as int, end as int), 16).subset_of(nb) && names_upto(
                region_names(data@, offset as int, end as int),
                16,
            ).subset_of(nw) && has_room(*old(map), nb, nw) ==> #[trigger] has_room(*final(map), nb, nw),
        forall|rest: spec_fn(Seq<u8>, bool) -> Seq<int>|
            records_fit(*old(map), with_region(data@, offset as int, end as int, rest)) ==> #[trigger] records_fit(
                *final(map),
                rest,
            ),
{
    let ghost s = data@;
    let ghost offset0 = offset as int;
    let ghost map0 = *map;
    let ghost names0 = region_names(s, offset0, end as int);
    let ghost starts0 = region_starts(s, offset0, end as int);
    let ghost nb0 = names_longer(names0, 16);
    let ghost nw0 = names_upto(names0, 16);
    proof {
        let rv = region_vals(s, offset0, end as int);
        let wr = with_region(s, offset0, end as int, no_values());
        assert forall|m: Seq<u8>, k: bool| #[trigger] wr(m, k) == rv(m, k) by {
            assert(wr(m, k) =~= rv(m, k));
        }
        lemma_fit_ext(*map, rv, wr);
    }
    let n = data.len();
    let mut offset = offset;
    while offset <= end
        invariant
            s == data@,
            n == s.len(),
            s.len() < usize::MAX,
            table_ready(*map),
            map.data() == s,
            region_ok(s, offset as int, end as int),
            region_names(s, offset as int, end as int).subset_of(names0),
            region_starts(s, offset as int, end as int).subset_of(starts0),
            forall|m: Seq<u8>| #[trigger] names0.contains(m) ==> m.len() <= 16 ==> word_name(m),
            nb0 == names_longer(names0, 16),
            nw0 == names_upto(names0, 16),
            has_room(*map, nb0, nw0),
            forall|nb: Set<Seq<u8>>, nw: Set<Seq<u8>>|
                nb0.subset_of(nb) && nw0.subset_of(nw) && has_room(map0, nb, nw) ==> #[trigger] has_room(*map, nb, nw),
            forall|m: Seq<u8>|
                #[trigger] merge_stats(map.station_stats(m), region_stats(s, offset as int, end as int, m))
                    == merge_stats(map0.station_stats(m), region_stats(s, offset0, end as int, m)),
            keys_kept(map0, *map),
            new_slots_from(map0, *map, starts0),
            new_slots_counted(map0, *map),
            records_fit(*map, with_region(s, offset as int, end as int, no_values())),
            forall|rest: spec_fn(Seq<u8>, bool) -> Seq<int>|
                records_fit(map0, with_region(s, offset0, end as int, rest)) ==> #[trigger] records_fit(
                    *map,
                    with_region(s, offset as int, end as int, rest),
                ),
        decreases region_measure(offset as int, end as int),
    {
        let ghost p = offset as int;
        let ghost empty_name = Seq::<u8>::empty();
        proof {
            lemma_region_step(s, p, end as int, empty_name);
            lemma_line_facts(s, p);
            lemma_line_digits(s, p);
        }
        let ghost c = line_semicolon(s, p);
        let ghost name = line_name(s, p);
        let ghost next = line_next(s, p);
        let ghost v = line_value(s, p);
        let start = offset;
        let mut len: usize = 0;
        while data[offset] != 59u8
            invariant
                s == data@,
                n == s.len(),
                offset == start + len,
                start <= offset <= c,
                is_first_from(s, start as int, 59u8, c),
            decreases c - offset,
        {
            offset += 1;
            len += 1;
        }
        assert(offset == c);
        let ghost map1 = *map;
        proof {
            assert(names0.contains(name));
            assert(starts0.contains(p));
            if name.len() <= 16 {
                assert(nw0.contains(name));
                lemma_room_subset(*map, nb0, nw0, Set::empty(), Set::empty().insert(name));
            } else {
                assert(nb0.contains(name));
                lemma_room_subset(*map, nb0, nw0, Set::empty().insert(name), Set::empty());
            }
        }
        let index;
        if len <= 16 {
            let mut databuf: Vec<u8> = Vec::new();
            let mut j: usize = 0;
            while j < 16
                invariant
                    s == data@,
                    n == s.len(),
                    j <= 16,
                    len <= 16,
                    start + len <= s.len(),
                    databuf@.len() == j,
                    forall|k: int| 0 <= k < j ==> #[trigger] databuf@[k] == (if k < len { s[start + k] } else { 0u8 }),
                decreases 16 - j,
            {
                if j < len {
                    databuf.push(data[start + j]);
                } else {
                    databuf.push(0u8);
                }
                j += 1;
            }
            let raw_data_masked = load_word(databuf.as_slice(), 0);
            proof {
                assert(word_bytes(raw_data_masked).subrange(0, len as int) =~= name);
            }
            index = locate_by_word(map, start, len, raw_data_masked);
        } else {
            index = locate_by_bytes(map, start, len);
        }
        let ghost map2 = *map;
        let (value, last) = parse_measurement(data, offset, Ghost(p));
        proof {
            lemma_region_step(s, p, end as int, name);
            assert(map.filled_by_word()[index as int] == slow_kind(name));
            lemma_fit_located(map1, map2, index as int, start as int, len as int, len <= 16, with_region(s, p, end as int, no_values()));
            lemma_fit_next(map2, index as int, with_region(s, p, end as int, no_values()));
        }
        map.add_value(index, value);
        offset = last + 2;
        proof {
            let map3 = *map;
            assert(offset == next);
            lemma_locate_then_add(map1, map2, map3, index as int, p, len as int, len <= 16, v);
            lemma_keys_trans(map0, map1, map3);
            lemma_new_slots_trans(map0, map1, map3, starts0, Set::empty().insert(p), starts0);
            lemma_room_after_add(map2, map3, index as int, nb0, nw0);
            assert forall|nb: Set<Seq<u8>>, nw: Set<Seq<u8>>|
                nb0.subset_of(nb) && nw0.subset_of(nw) && has_room(map0, nb, nw) implies #[trigger] has_room(*map, nb, nw) by {
                if name.len() <= 16 {
                    assert(nw0.contains(name));
                } else {
                    assert(nb0.contains(name));
                }
                lemma_room_after_add(map2, map3, index as int, nb, nw);
            }
            assert forall|m: Seq<u8>|
                #[trigger] merge_stats(map.station_stats(m), region_stats(s, offset as int, end as int, m))
                    == merge_stats(map0.station_stats(m), region_stats(s, offset0, end as int, m)) by {
                lemma_region_step(s, p, end as int, m);
                lemma_merge_associative(map1.station_stats(m), single_stats(v), region_stats(s, next, end as int, m));
            }
            lemma_fit_line(map2, map3, s, index as int, p, end as int, no_values());
            assert forall|rest: spec_fn(Seq<u8>, bool) -> Seq<int>|
                records_fit(map0, with_region(s, offset0, end as int, rest)) implies #[trigger] records_fit(
                    *map,
                    with_region(s, offset as int, end as int, rest),
                ) by {
                assert(records_fit(map1, with_region(s, p, end as int, rest)));
                lemma_fit_located(map1, map2, index as int, start as int, len as int, len <= 16, with_region(s, p, end as int, rest));
                lemma_fit_line(map2, map3, s, index as int, p, end as int, rest);
            }
            assert(entries_in_bounds(map3.slots(), s));
            assert(words_faithful(map3.slots(), map3.filled_by_word(), s));
        }
    }
    proof {
        assert forall|i: int|
            0 <= i < MAP_SIZE && map0.slots()[i] is None && (#[trigger] map.slots()[i]) is Some implies names0.contains(
                entry_name(s, map.slots()[i].unwrap()),
            ) by {
            let q = map.slots()[i].unwrap().0 as int;
            lemma_region_start_line(s, offset0, end as int, q);
            assert(entry_name(s, map.slots()[i].unwrap()) =~= line_name(s, q));
        }
        assert forall|m: Seq<u8>|
            #[trigger] map.station_stats(m) == merge_stats(map0.station_stats(m), region_stats(s, offset0, end as int, m)) by {
            lemma_region_past_end(s, offset as int, end as int, m);
            crate::custom_map::lemma_table_stats_within_sentinels(*map, m);
            lemma_merge_empty(map.station_stats(m));
        }
        assert forall|rest: spec_fn(Seq<u8>, bool) -> Seq<int>|
            records_fit(map0, with_region(s, offset0, end as int, rest)) implies #[trigger] records_fit(*map, rest) by {
            let wr = with_region(s, offset as int, end as int, rest);
            assert(records_fit(*map, wr));
            assert forall|m: Seq<u8>, k: bool| #[trigger] rest(m, k) == wr(m, k) by {
                lemma_region_past_end(s, offset as int, end as int, m);
                assert(wr(m, k) =~= rest(m, k));
            }
            lemma_fit_ext(*map, wr, rest);
        }
        lemma_slow_lines(map0, *map, s, offset0, end as int);
        lemma_slow_lines_counted(map0, *map, s, offset0, end as int);
    }
}

/// Processing a range of lines in two calls, split at a line boundary,
/// aggregates what one call over the whole range does: the second call
/// resumes at the first line after `mid`, and every station's statistics
/// come out the same.
pub proof fn lemma_slow_process_split(t: Stats, s: Seq<u8>, offset: int, mid: int, end: int, name: Seq<u8>)
    requires
        region_ok(s, offset, end),
        mid <= end,
    ensures
        region_ok(s, offset, mid),
        region_ok(s, region_resume(s, offset, mid), end),
        merge_stats(
            merge_stats(t, region_stats(s, offset, mid, name)),
            region_stats(s, region_resume(s, offset, mid), end, name),
        ) == merge_stats(t, region_stats(s, offset, end, name)),
{
    lemma_region_split_at_line(s, offset, mid, end, name);
    lemma_region_shrink(s, offset, end, mid);
    lemma_merge_associative(t, region_stats(s, offset, mid, name), region_stats(s, region_resume(s, offset, mid), end, name));
}

/// A table that can take the measurements of a range can take those of
/// its lines up to `mid`, and then those from the next line on: what one
/// call of `slow_process` over the range asks of the table, two calls split
/// at a line boundary ask no more.
pub proof fn lemma_slow_process_split_fits(map: CustomMap, s: Seq<u8>, offset: int, mid: int, end: int)
    requires
        region_ok(s, offset, end),
        mid <= end,
        records_fit(map, region_vals(s, offset, end)),
    ensures
        records_fit(map, region_vals(s, offset, mid)),
        records_fit(map, with_region(s, offset, mid, region_vals(s, region_resume(s, offset, mid), end))),
{
    let whole = region_vals(s, offset, end);
    let first = region_vals(s, offset, mid);
    let second = region_vals(s, region_resume(s, offset, mid), end);
    let both = with_region(s, offset, mid, second);
    assert forall|n: Seq<u8>, k: bool| #[trigger] both(n, k) == whole(n, k) by {
        lemma_region_split_at_line(s, offset, mid, end, n);
        assert(both(n, k) =~= whole(n, k));
    }
    lemma_fit_ext(map, whole, both);
    assert forall|n: Seq<u8>, k: bool| #[trigger] both(n, k) == first(n, k) + second(n, k) by {
        assert(both(n, k) =~= first(n, k) + second(n, k));
    }
    lemma_fit_prefix(map, both, first, second);
}

/// Changing the record of a slot keeps the table ready.
pub(crate) proof fn lemma_ready_after_add(old_map: CustomMap, new_map: CustomMap, index: int)
    requires
        table_ready(old_map),
        new_map.wf(),
        new_map.data() == old_map.data(),
        new_map.filled_by_word() == old_map.filled_by_word(),
        0 <= index < MAP_SIZE,
        old_map.slots()[index] is Some,
        new_map.slots()[index] is Some,
        new_map.slots()[index].unwrap().0 == old_map.slots()[index].unwrap().0,
        new_map.slots()[index].unwrap().1 == old_map.slots()[index].unwrap().1,
        new_map.slots()[index].unwrap().2 == old_map.slots()[index].unwrap().2,
        forall|i: int| 0 <= i < MAP_SIZE && i != index ==> #[trigger] new_map.slots()[i] == old_map.slots()[i],
    ensures
        table_ready(new_map),
{
    let a = old_map.slots();
    let b = new_map.slots();
    assert forall|i: int| 0 <= i < b.len() && (#[trigger] b[i]) is Some implies b[i].unwrap().0 + b[i].unwrap().1 <= new_map.data().len() by {
        if i != index {
            assert(b[i] == a[i]);
        }
    }
    assert forall|i: int| 0 <= i < b.len() && (#[trigger] b[i]) is Some && new_map.filled_by_word()[i] implies {
        let n = entry_name(new_map.data(), b[i].unwrap());
        word_name(n) && word_bytes(b[i].unwrap().2 as u128) == name_padded(n)
    } by {
        if i != index {
            assert(b[i] == a[i]);
        } else {
            assert(entry_name(new_map.data(), b[i].unwrap()) == entry_name(old_map.data(), a[i].unwrap()));
        }
    }
}

proof fn lemma_empty_slots_count(slots: Seq<Option<Entry>>, k: int)
    requires
        0 <= k <= slots.len(),
        forall|i: int| 0 <= i < slots.len() ==> (#[trigger] slots[i]) is None,
    ensures
        filled_count(slots, k) == 0,
    decreases k,
{
    if k > 0 {
        lemma_empty_slots_count(slots, k - 1);
    }
}

proof fn lemma_empty_slots_stats(slots: Seq<Option<Entry>>, data: Seq<u8>, name: Seq<u8>, k: int)
    requires
        0 <= k <= slots.len(),
        forall|i: int| 0 <= i < slots.len() ==> (#[trigger] slots[i]) is None,
    ensures
        stats_upto(slots, data, name, k) == empty_stats(),
    decreases k,
{
    if k > 0 {
        lemma_empty_slots_stats(slots, data, name, k - 1);
    }
}

/// A new table is ready, holds no statistics, has room for any two sets
/// of names that together have no more names than it has slots, and can
/// take any measurements a fresh record can.
pub proof fn lemma_fresh_table(map: CustomMap, nb: Set<Seq<u8>>, nw: Set<Seq<u8>>)
    requires
        map.wf(),
        map.slots() == Seq::new(MAP_SIZE as nat, |i: int| None::<Entry>),
        nb.finite(),
        nw.finite(),
        nb.len() + nw.len() <= MAP_SIZE,
    ensures
        table_ready(map),
        has_room(map, nb, nw),
        forall|m: Seq<u8>| #[trigger] map.station_stats(m) == empty_stats(),
        forall|vals: spec_fn(Seq<u8>, bool) -> Seq<int>| fresh_fit(vals) ==> #[trigger] records_fit(map, vals),
{
    let slots = map.slots();
    assert forall|i: int| 0 <= i < slots.len() implies (#[trigger] slots[i]) is None by {
    }
    lemma_empty_slots_count(slots, MAP_SIZE as int);
    assert(room_for(slots, map.filled_by_word(), map.data(), nb, nw, Set::empty(), Set::empty()));
    assert forall|m: Seq<u8>| #[trigger] map.station_stats(m) == empty_stats() by {
        lemma_empty_slots_stats(slots, map.data(), m, MAP_SIZE as int);
    }
    assert forall|vals: spec_fn(Seq<u8>, bool) -> Seq<int>| fresh_fit(vals) implies #[trigger] records_fit(map, vals) by {
        lemma_fit_fresh(map, vals);
    }
}

} // verus!
