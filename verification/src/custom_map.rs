use vstd::prelude::*;
use crate::record::{Record, Stats, within_sentinels, empty_stats, merge_stats, add_stats};

verus! {

/// Number of slots of the table, a power of two.
pub const MAP_SIZE: usize = 65536;

/// A slot's content: where the station name starts in the input and its
/// length, the name's bytes as a masked word (zero for a slot filled by
/// comparing bytes), and the station's record.
pub type Entry = (usize, usize, i128, Record);

/// What `fxhash::hash` returns for a byte slice with these contents. That
/// hasher starts from a fixed state and has no per-process seed, so its
/// result depends on the bytes alone (and on the word width and byte order
/// of the target, fixed when the program is built).
pub uninterp spec fn fx_hash_bytes(key: Seq<u8>) -> usize;

/// What `fxhash::hash` returns for this 128-bit word: a function of the
/// word alone, as for `fx_hash_bytes` (the generic function hashes a slice
/// and a word through different `Hash` impls, hence the two names).
pub uninterp spec fn fx_hash_i128(key: i128) -> usize;

/// The station name of an entry, as bytes of the input.
pub open spec fn entry_name(data: Seq<u8>, e: Entry) -> Seq<u8> {
    data.subrange(e.0 as int, e.0 + e.1)
}

/// Slot visited `k` steps after slot `h` by linear probing.
pub open spec fn slot_index(h: int, k: int) -> int {
    (h + k) % (MAP_SIZE as int)
}

/// Steps from slot `h` to slot `i` by linear probing.
pub open spec fn probe_distance(h: int, i: int) -> int {
    (i - h) % (MAP_SIZE as int)
}

/// First slot probed for a name compared by bytes.
pub open spec fn byte_home(key: Seq<u8>) -> int {
    (fx_hash_bytes(key) % MAP_SIZE) as int
}

/// First slot probed for a name compared by its masked word.
pub open spec fn raw_home(key: i128) -> int {
    (fx_hash_i128(key) % MAP_SIZE) as int
}

/// First slot probed for the entry in slot `i`, by how it was filled.
pub open spec fn home_of(slots: Seq<Option<Entry>>, by_raw: Seq<bool>, data: Seq<u8>, i: int) -> int {
    if by_raw[i] {
        raw_home(slots[i].unwrap().2)
    } else {
        byte_home(entry_name(data, slots[i]->0))
    }
}

/// Probing for the entry of slot `i` goes past slot `x`: it is filled, with
/// another name if `i` was filled by bytes, with another word if by word.
pub open spec fn passes(slots: Seq<Option<Entry>>, by_raw: Seq<bool>, data: Seq<u8>, i: int, x: int) -> bool {
    &&& slots[x] is Some
    &&& if by_raw[i] {
        slots[x].unwrap().2 != slots[i].unwrap().2
    } else {
        entry_name(data, slots[x].unwrap()) != entry_name(data, slots[i].unwrap())
    }
}

/// Probing for the entry of slot `i` from its home goes past every slot
/// before `i`: the entry is where a probe for it stops.
pub open spec fn chain_clear(slots: Seq<Option<Entry>>, by_raw: Seq<bool>, data: Seq<u8>, i: int) -> bool {
    let h = home_of(slots, by_raw, data, i);
    forall|k: int| 0 <= k < probe_distance(h, i) ==> #[trigger] passes(slots, by_raw, data, i, slot_index(h, k))
}

/// The table's invariant.
pub open spec fn table_wf(slots: Seq<Option<Entry>>, by_raw: Seq<bool>, data: Seq<u8>) -> bool {
    &&& slots.len() == MAP_SIZE
    &&& by_raw.len() == MAP_SIZE
    &&& forall|i: int| 0 <= i < MAP_SIZE && (#[trigger] slots[i]) is Some ==> {
        &&& within_sentinels(slots[i].unwrap().3@)
        &&& (!by_raw[i] ==> slots[i].unwrap().2 == 0)
        &&& chain_clear(slots, by_raw, data, i)
    }
}

/// Every filled slot names a range of the input.
pub open spec fn entries_in_bounds(slots: Seq<Option<Entry>>, data: Seq<u8>) -> bool {
    forall|i: int| 0 <= i < slots.len() && (#[trigger] slots[i]) is Some ==> slots[i].unwrap().0
        + slots[i].unwrap().1 <= data.len()
}

/// Statistics of the station `name` over the first `k` slots: the merge of
/// the records of every slot that holds that name.
pub open spec fn stats_upto(slots: Seq<Option<Entry>>, data: Seq<u8>, name: Seq<u8>, k: int) -> Stats
    decreases k,
{
    if k <= 0 {
        empty_stats()
    } else {
        let prev = stats_upto(slots, data, name, k - 1);
        if slots[k - 1] is Some && entry_name(data, slots[k - 1].unwrap()) == name {
            merge_stats(prev, slots[k - 1].unwrap().3@)
        } else {
            prev
        }
    }
}

/// Statistics of the station `name` over the whole table.
pub open spec fn table_stats(slots: Seq<Option<Entry>>, data: Seq<u8>, name: Seq<u8>) -> Stats {
    stats_upto(slots, data, name, MAP_SIZE as int)
}

/// Every filled slot among the first `k` holds a record within the sentinels.
pub open spec fn records_within_sentinels(slots: Seq<Option<Entry>>, k: int) -> bool {
    forall|i: int| 0 <= i < k && (#[trigger] slots[i]) is Some ==> within_sentinels(slots[i].unwrap().3@)
}

proof fn lemma_stats_within_sentinels(slots: Seq<Option<Entry>>, data: Seq<u8>, name: Seq<u8>, k: int)
    requires
        records_within_sentinels(slots, k),
    ensures
        within_sentinels(stats_upto(slots, data, name, k)),
    decreases k,
{
    if k > 0 {
        lemma_stats_within_sentinels(slots, data, name, k - 1);
        assert(records_within_sentinels(slots, k - 1));
    }
}

/// Filling an empty slot with a fresh record changes no station's statistics.
proof fn lemma_stats_fill_fresh(slots: Seq<Option<Entry>>, data: Seq<u8>, i: int, e: Entry, name: Seq<u8>, k: int)
    requires
        0 <= i < slots.len(),
        slots[i] is None,
        e.3@ == empty_stats(),
        records_within_sentinels(slots, k),
        0 <= k <= slots.len(),
    ensures
        stats_upto(slots.update(i, Some(e)), data, name, k) == stats_upto(slots, data, name, k),
    decreases k,
{
    if k > 0 {
        assert(records_within_sentinels(slots, k - 1));
        lemma_stats_fill_fresh(slots, data, i, e, name, k - 1);
        if k - 1 == i {
            lemma_stats_within_sentinels(slots, data, name, k - 1);
        }
    }
}

/// Adding a measurement to the record of slot `i` adds it to the statistics
/// of that slot's station and of no other.
proof fn lemma_stats_add(slots: Seq<Option<Entry>>, data: Seq<u8>, i: int, e: Entry, v: int, name: Seq<u8>, k: int)
    requires
        0 <= i < slots.len(),
        slots[i] is Some,
        e.0 == slots[i].unwrap().0,
        e.1 == slots[i].unwrap().1,
        e.3@ == add_stats(slots[i].unwrap().3@, v),
        0 <= k <= slots.len(),
    ensures
        stats_upto(slots.update(i, Some(e)), data, name, k) == (if k > i && name == entry_name(data, e) {
            add_stats(stats_upto(slots, data, name, k), v)
        } else {
            stats_upto(slots, data, name, k)
        }),
    decreases k,
{
    if k > 0 {
        lemma_stats_add(slots, data, i, e, v, name, k - 1);
    }
}

/// A table's statistics stay within the sentinels.
pub proof fn lemma_table_stats_within_sentinels(map: CustomMap, name: Seq<u8>)
    requires
        map.wf(),
    ensures
        within_sentinels(map.station_stats(name)),
{
    assert(records_within_sentinels(map.slots(), MAP_SIZE as int));
    lemma_stats_within_sentinels(map.slots(), map.data(), name, MAP_SIZE as int);
}

/// The mask that keeps the first `len` bytes of a word.
pub open spec fn low_bytes_mask(len: int) -> u128 {
    if len >= 16 {
        0xffff_ffff_ffff_ffff_ffff_ffff_ffff_ffffu128
    } else {
        ((1u128 << ((8 * len) as u128)) - 1u128) as u128
    }
}

/// The first `len` bytes of `raw`, the others cleared.
pub open spec fn masked_word(raw: i128, len: int) -> i128 {
    ((raw as u128) & low_bytes_mask(len)) as i128
}

/// The mask that keeps the first `len` bytes of a word.
pub fn raw_data_mask(len: usize) -> (m: u128)
    requires
        len <= 16,
    ensures
        m == low_bytes_mask(len as int),
{
    if len >= 16 {
        0xffff_ffff_ffff_ffff_ffff_ffff_ffff_ffffu128
    } else {
        assert(1u128 << ((8 * len) as u128) >= 1) by (bit_vector)
            requires
                len < 16,
        ;
        (1u128 << ((8 * len) as u128)) - 1u128
    }
}

/// Open-addressing table of station records, keyed by names that are ranges
/// of the input.
pub struct CustomMap<'a> {
    element_list: Vec<Option<Entry>>,
    data: &'a [u8],
    by_raw: Ghost<Seq<bool>>,
}

impl<'a> CustomMap<'a> {
    /// The slots of the table.
    pub closed spec fn slots(&self) -> Seq<Option<Entry>> {
        self.element_list@
    }

    /// The input the names refer to.
    pub closed spec fn data(&self) -> Seq<u8> {
        self.data@
    }

    /// Which slots were filled by comparing masked words.
    pub closed spec fn filled_by_word(&self) -> Seq<bool> {
        self.by_raw@
    }

    pub open spec fn wf(&self) -> bool {
        table_wf(self.slots(), self.filled_by_word(), self.data())
    }

    /// Statistics of the station `name` held by the table.
    pub open spec fn station_stats(&self, name: Seq<u8>) -> Stats {
        table_stats(self.slots(), self.data(), name)
    }

    /// An empty table over `data`.
    pub fn new(data: &'a [u8]) -> (map: Self)
        ensures
            map.wf(),
            map.data() == data@,
            map.slots() == Seq::new(MAP_SIZE as nat, |i: int| None::<Entry>),
    {
        let mut element_list: Vec<Option<Entry>> = Vec::new();
        while element_list.len() < MAP_SIZE
            invariant
                element_list.len() <= MAP_SIZE,
                forall|i: int| 0 <= i < element_list.len() ==> element_list@[i] is None,
            decreases MAP_SIZE - element_list.len(),
        {
            element_list.push(None);
        }
        let ghost by_raw = Seq::new(MAP_SIZE as nat, |i: int| false);
        let map = CustomMap { element_list, data, by_raw: Ghost(by_raw) };
        assert(map.slots() =~= Seq::new(MAP_SIZE as nat, |i: int| None::<Entry>));
        map
    }

    /// Hash of a masked word: calls `fxhash::hash`, and claims only that the
    /// result is `fx_hash_i128` of the word, so that equal words hash alike.
    #[verifier::external_body]
    fn hash_raw(&self, key: &i128) -> (h: usize)
        ensures
            h == fx_hash_i128(*key),
    {
        fxhash::hash(key)
    }

    /// Hash of a name's bytes: calls `fxhash::hash`, and claims only that the
    /// result is `fx_hash_bytes` of the bytes, so that equal names hash alike.
    #[verifier::external_body]
    fn hash(&self, key: &[u8]) -> (h: usize)
        ensures
            h == fx_hash_bytes(key@),
    {
        fxhash::hash(key)
    }
}

/// Whether two ranges of `data` hold the same bytes.
pub fn bytes_equal(data: &[u8], a: usize, la: usize, b: usize, lb: usize) -> (r: bool)
    requires
        a + la <= data@.len(),
        b + lb <= data@.len(),
    ensures
        r == (data@.subrange(a as int, a + la) == data@.subrange(b as int, b + lb)),
{
    if la != lb {
        assert(data@.subrange(a as int, a + la).len() != data@.subrange(b as int, b + lb).len());
        return false;
    }
    let n = data.len();
    let ghost s1 = data@.subrange(a as int, a + la);
    let ghost s2 = data@.subrange(b as int, b + lb);
    let mut i: usize = 0;
    while i < la
        invariant
            i <= la,
            la == lb,
            n == data@.len(),
            a + la <= data@.len(),
            b + lb <= data@.len(),
            s1 == data@.subrange(a as int, a + la),
            s2 == data@.subrange(b as int, b + lb),
            forall|j: int| 0 <= j < i ==> #[trigger] s1[j] == s2[j],
        decreases la - i,
    {
        if data[a + i] != data[b + i] {
            assert(s1[i as int] != s2[i as int]);
            return false;
        }
        i += 1;
    }
    assert(s1 =~= s2);
    true
}

/// The empty record every new slot starts with.
pub open spec fn fresh_record() -> Record {
    Record { count: 0, min: 1000, max: -1000i32, sum: 0 }
}

/// Probing for `key` by bytes from its home stops at slot `r`: every slot
/// probed before is filled with another name, and `r` is empty or holds `key`.
pub open spec fn byte_probe_stops_at(slots: Seq<Option<Entry>>, data: Seq<u8>, key: Seq<u8>, r: int) -> bool {
    let h = byte_home(key);
    &&& 0 <= r < MAP_SIZE
    &&& (slots[r] is None || entry_name(data, slots[r]->0) == key)
    &&& forall|k: int|
        0 <= k < probe_distance(h, r) ==> (#[trigger] slots[slot_index(h, k)]) is Some
            && entry_name(data, slots[slot_index(h, k)]->0) != key
}

/// Probing for the masked word `key` from its home stops at slot `r`.
pub open spec fn word_probe_stops_at(slots: Seq<Option<Entry>>, key: i128, r: int) -> bool {
    let h = raw_home(key);
    &&& 0 <= r < MAP_SIZE
    &&& (slots[r] is None || slots[r].unwrap().2 == key)
    &&& forall|k: int|
        0 <= k < probe_distance(h, r) ==> (#[trigger] slots[slot_index(h, k)]) is Some
            && slots[slot_index(h, k)].unwrap().2 != key
}

proof fn lemma_probe_arith(h: int, k: int)
    requires
        0 <= h < MAP_SIZE,
        0 <= k < MAP_SIZE,
    ensures
        0 <= slot_index(h, k) < MAP_SIZE,
        probe_distance(h, slot_index(h, k)) == k,
        slot_index(h, k + 1) == (slot_index(h, k) + 1) % (MAP_SIZE as int),
{
}

proof fn lemma_distance_back(h: int, i: int)
    requires
        0 <= h < MAP_SIZE,
        0 <= i < MAP_SIZE,
    ensures
        0 <= probe_distance(h, i) < MAP_SIZE,
        slot_index(h, probe_distance(h, i)) == i,
{
}

impl<'a> CustomMap<'a> {
    /// Finds the slot of the name `data[start..start + len]`, comparing bytes,
    /// and fills the first empty slot on its probe sequence when it is absent.
    pub fn find_index(&mut self, start: usize, len: usize) -> (index: usize)
        requires
            old(self).wf(),
            entries_in_bounds(old(self).slots(), old(self).data()),
            start + len <= old(self).data().len(),
            exists|t: int|
                0 <= t < MAP_SIZE && (old(self).slots()[t] is None || entry_name(
                    old(self).data(),
                    old(self).slots()[t]->0,
                ) == old(self).data().subrange(start as int, start + len)),
        ensures
            final(self).wf(),
            final(self).data() == old(self).data(),
            entries_in_bounds(final(self).slots(), final(self).data()),
            byte_probe_stops_at(
                old(self).slots(),
                old(self).data(),
                old(self).data().subrange(start as int, start + len),
                index as int,
            ),
            old(self).slots()[index as int] is None ==> final(self).slots() == old(self).slots().update(
                index as int,
                Some((start, len, 0i128, fresh_record())),
            ) && final(self).filled_by_word() == old(self).filled_by_word().update(index as int, false),
            old(self).slots()[index as int] is Some ==> final(self).slots() == old(self).slots()
                && final(self).filled_by_word() == old(self).filled_by_word(),
            forall|name: Seq<u8>| #[trigger] final(self).station_stats(name) == old(self).station_stats(name),
    {
        let ghost key = self.data@.subrange(start as int, start + len);
        let n = self.data.len();
        let key_hash = self.hash(vstd::slice::slice_subrange(self.data, start, start + len));
        proof {
            lemma_mask_is_mod(key_hash);
        }
        let mut index = key_hash & (MAP_SIZE - 1);
        let ghost h = index as int;
        let ghost t = choose|t: int|
            0 <= t < MAP_SIZE && (self.slots()[t] is None || entry_name(self.data(), self.slots()[t]->0) == key);
        let ghost mut steps: int = 0;
        proof {
            lemma_distance_back(h, t);
            lemma_probe_arith(h, 0);
        }
        while self.element_list[index].is_some()
            invariant
                self.wf(),
                *self == *old(self),
                entries_in_bounds(self.slots(), self.data()),
                start + len <= self.data().len(),
                key == self.data().subrange(start as int, start + len),
                h == byte_home(key),
                0 <= t < MAP_SIZE,
                self.slots()[t] is None || entry_name(self.data(), self.slots()[t]->0) == key,
                0 <= steps <= probe_distance(h, t),
                index == slot_index(h, steps),
                forall|k: int|
                    0 <= k < steps ==> (#[trigger] self.slots()[slot_index(h, k)]) is Some
                        && entry_name(self.data(), self.slots()[slot_index(h, k)]->0) != key,
            decreases probe_distance(h, t) - steps,
        {
            proof {
                lemma_distance_back(h, t);
                lemma_probe_arith(h, steps);
            }
            let e = self.element_list[index].unwrap();
            if bytes_equal(self.data, e.0, e.1, start, len) {
                return index;
            }
            proof {
                lemma_next_slot(index);
                if steps == probe_distance(h, t) {
                    assert(index == t);
                }
            }
            index = (index + 1) & (MAP_SIZE - 1);
            proof {
                steps = steps + 1;
            }
        }
        proof {
            lemma_probe_arith(h, steps);
        }
        let ghost old_slots = self.slots();
        proof {
            assert(records_within_sentinels(old_slots, MAP_SIZE as int));
        }
        self.element_list.set(index, Some((start, len, 0i128, Record::default())));
        self.by_raw = Ghost(self.by_raw@.update(index as int, false));
        proof {
            let new_slots = self.slots();
            assert forall|name: Seq<u8>| #[trigger] self.station_stats(name) == old(self).station_stats(name) by {
                lemma_stats_fill_fresh(old_slots, self.data@, index as int, new_slots[index as int].unwrap(), name, MAP_SIZE as int);
            }
            assert forall|i: int| 0 <= i < MAP_SIZE && (#[trigger] new_slots[i]) is Some implies {
                &&& within_sentinels(new_slots[i].unwrap().3@)
                &&& (!self.by_raw@[i] ==> new_slots[i].unwrap().2 == 0)
                &&& chain_clear(new_slots, self.by_raw@, self.data@, i)
            } by {
                if i != index {
                    let hi = home_of(old_slots, old(self).by_raw@, self.data@, i);
                    assert(home_of(new_slots, self.by_raw@, self.data@, i) == hi);
                    assert(chain_clear(old_slots, old(self).by_raw@, self.data@, i));
                    assert forall|k: int| 0 <= k < probe_distance(hi, i) implies #[trigger] passes(new_slots, self.by_raw@, self.data@, i, slot_index(hi, k)) by {
                        assert(passes(old_slots, old(self).by_raw@, self.data@, i, slot_index(hi, k)));
                    }
                } else {
                    assert(entry_name(self.data@, new_slots[i]->0) == key);
                    assert forall|k: int| 0 <= k < probe_distance(h, i) implies #[trigger] passes(new_slots, self.by_raw@, self.data@, i, slot_index(h, k)) by {
                        assert(old_slots[slot_index(h, k)] is Some);
                    }
                }
            }
        }
        index
    }

    /// Adds one measurement to the record in slot `index`.
    pub fn add_value(&mut self, index: usize, value: i32)
        requires
            old(self).wf(),
            index < MAP_SIZE,
            old(self).slots()[index as int] is Some,
            old(self).slots()[index as int].unwrap().3.count < u32::MAX,
            i32::MIN <= old(self).slots()[index as int].unwrap().3.sum + value <= i32::MAX,
        ensures
            final(self).wf(),
            final(self).data() == old(self).data(),
            final(self).filled_by_word() == old(self).filled_by_word(),
            final(self).slots().len() == MAP_SIZE,
            final(self).slots()[index as int] is Some,
            final(self).slots()[index as int].unwrap().0 == old(self).slots()[index as int].unwrap().0,
            final(self).slots()[index as int].unwrap().1 == old(self).slots()[index as int].unwrap().1,
            final(self).slots()[index as int].unwrap().2 == old(self).slots()[index as int].unwrap().2,
            final(self).slots()[index as int].unwrap().3@ == add_stats(
                old(self).slots()[index as int].unwrap().3@,
                value as int,
            ),
            forall|i: int| 0 <= i < MAP_SIZE && i != index ==> #[trigger] final(self).slots()[i] == old(self).slots()[i],
            forall|name: Seq<u8>|
                #[trigger] final(self).station_stats(name) == if name == entry_name(
                    old(self).data(),
                    old(self).slots()[index as int].unwrap(),
                ) {
                    add_stats(old(self).station_stats(name), value as int)
                } else {
                    old(self).station_stats(name)
                },
    {
        let mut e = self.element_list[index].unwrap();
        e.3.add(value);
        let ghost old_slots = self.slots();
        self.element_list.set(index, Some(e));
        proof {
            let new_slots = self.slots();
            assert(new_slots == old_slots.update(index as int, Some(e)));
            assert forall|name: Seq<u8>| #[trigger] self.station_stats(name) == (if name == entry_name(
                old(self).data(),
                old_slots[index as int].unwrap(),
            ) {
                add_stats(old(self).station_stats(name), value as int)
            } else {
                old(self).station_stats(name)
            }) by {
                lemma_stats_add(old_slots, self.data@, index as int, e, value as int, name, MAP_SIZE as int);
            }
            assert forall|i: int| 0 <= i < MAP_SIZE && (#[trigger] new_slots[i]) is Some implies {
                &&& within_sentinels(new_slots[i].unwrap().3@)
                &&& (!self.by_raw@[i] ==> new_slots[i].unwrap().2 == 0)
                &&& chain_clear(new_slots, self.by_raw@, self.data@, i)
            } by {
                let hi = home_of(old_slots, self.by_raw@, self.data@, i);
                assert(home_of(new_slots, self.by_raw@, self.data@, i) == hi);
                assert(chain_clear(old_slots, self.by_raw@, self.data@, i));
                assert forall|k: int| 0 <= k < probe_distance(hi, i) implies #[trigger] passes(new_slots, self.by_raw@, self.data@, i, slot_index(hi, k)) by {
                    assert(passes(old_slots, self.by_raw@, self.data@, i, slot_index(hi, k)));
                }
            }
        }
    }

    /// Finds the slot whose masked word equals the first `len` bytes of
    /// `raw_data`, and fills the first empty slot on its probe sequence, with
    /// the name `data[start..start + len]`, when there is none.
    pub fn find_index_with_raw_data(&mut self, start: usize, len: usize, raw_data: i128) -> (index: usize)
        requires
            old(self).wf(),
            len <= 16,
            exists|t: int|
                0 <= t < MAP_SIZE && (old(self).slots()[t] is None || old(self).slots()[t].unwrap().2
                    == masked_word(raw_data, len as int)),
        ensures
            final(self).wf(),
            final(self).data() == old(self).data(),
            entries_in_bounds(old(self).slots(), old(self).data()) && start + len <= old(self).data().len()
                ==> entries_in_bounds(final(self).slots(), final(self).data()),
            word_probe_stops_at(old(self).slots(), masked_word(raw_data, len as int), index as int),
            old(self).slots()[index as int] is None ==> final(self).slots() == old(self).slots().update(
                index as int,
                Some((start, len, masked_word(raw_data, len as int), fresh_record())),
            ) && final(self).filled_by_word() == old(self).filled_by_word().update(index as int, true),
            old(self).slots()[index as int] is Some ==> final(self).slots() == old(self).slots()
                && final(self).filled_by_word() == old(self).filled_by_word(),
            forall|name: Seq<u8>| #[trigger] final(self).station_stats(name) == old(self).station_stats(name),
    {
        let raw_data_masked = ((raw_data as u128) & raw_data_mask(len)) as i128;
        let ghost key = raw_data_masked;
        let key_hash = self.hash_raw(&raw_data_masked);
        proof {
            lemma_mask_is_mod(key_hash);
        }
        let mut index = key_hash & (MAP_SIZE - 1);
        let ghost h = index as int;
        let ghost t = choose|t: int|
            0 <= t < MAP_SIZE && (self.slots()[t] is None || self.slots()[t].unwrap().2 == key);
        let ghost mut steps: int = 0;
        proof {
            lemma_distance_back(h, t);
            lemma_probe_arith(h, 0);
        }
        while self.element_list[index].is_some()
            invariant
                self.wf(),
                *self == *old(self),
                key == masked_word(raw_data, len as int),
                raw_data_masked == key,
                h == raw_home(key),
                0 <= t < MAP_SIZE,
                self.slots()[t] is None || self.slots()[t].unwrap().2 == key,
                0 <= steps <= probe_distance(h, t),
                index == slot_index(h, steps),
                forall|k: int|
                    0 <= k < steps ==> (#[trigger] self.slots()[slot_index(h, k)]) is Some
                        && self.slots()[slot_index(h, k)].unwrap().2 != key,
            decreases probe_distance(h, t) - steps,
        {
            proof {
                lemma_distance_back(h, t);
                lemma_probe_arith(h, steps);
            }
            let e = self.element_list[index].unwrap();
            if e.2 == raw_data_masked {
                return index;
            }
            proof {
                lemma_next_slot(index);
                if steps == probe_distance(h, t) {
                    assert(index == t);
                }
            }
            index = (index + 1) & (MAP_SIZE - 1);
            proof {
                steps = steps + 1;
            }
        }
        proof {
            lemma_probe_arith(h, steps);
        }
        let ghost old_slots = self.slots();
        proof {
            assert(records_within_sentinels(old_slots, MAP_SIZE as int));
        }
        self.element_list.set(index, Some((start, len, raw_data_masked, Record::default())));
        self.by_raw = Ghost(self.by_raw@.update(index as int, true));
        proof {
            let new_slots = self.slots();
            assert forall|name: Seq<u8>| #[trigger] self.station_stats(name) == old(self).station_stats(name) by {
                lemma_stats_fill_fresh(old_slots, self.data@, index as int, new_slots[index as int].unwrap(), name, MAP_SIZE as int);
            }
            assert forall|i: int| 0 <= i < MAP_SIZE && (#[trigger] new_slots[i]) is Some implies {
                &&& within_sentinels(new_slots[i].unwrap().3@)
                &&& (!self.by_raw@[i] ==> new_slots[i].unwrap().2 == 0)
                &&& chain_clear(new_slots, self.by_raw@, self.data@, i)
            } by {
                if i != index {
                    let hi = home_of(old_slots, old(self).by_raw@, self.data@, i);
                    assert(home_of(new_slots, self.by_raw@, self.data@, i) == hi);
                    assert(chain_clear(old_slots, old(self).by_raw@, self.data@, i));
                    assert forall|k: int| 0 <= k < probe_distance(hi, i) implies #[trigger] passes(new_slots, self.by_raw@, self.data@, i, slot_index(hi, k)) by {
                        assert(passes(old_slots, old(self).by_raw@, self.data@, i, slot_index(hi, k)));
                    }
                } else {
                    assert forall|k: int| 0 <= k < probe_distance(h, i) implies #[trigger] passes(new_slots, self.by_raw@, self.data@, i, slot_index(h, k)) by {
                        assert(old_slots[slot_index(h, k)] is Some);
                    }
                }
            }
        }
        index
    }

}

/// A table holds each name in at most one slot filled by comparing bytes,
/// and each word in at most one slot filled by comparing words.
pub proof fn lemma_slots_unique(map: CustomMap, i: int, j: int)
    requires
        map.wf(),
        0 <= i < MAP_SIZE,
        0 <= j < MAP_SIZE,
        i != j,
        map.slots()[i] is Some,
        map.slots()[j] is Some,
        map.filled_by_word()[i] == map.filled_by_word()[j],
    ensures
        map.filled_by_word()[i] ==> map.slots()[i].unwrap().2 != map.slots()[j].unwrap().2,
        !map.filled_by_word()[i] ==> entry_name(map.data(), map.slots()[i].unwrap()) != entry_name(
            map.data(),
            map.slots()[j].unwrap(),
        ),
{
    let slots = map.slots();
    let by_raw = map.filled_by_word();
    let data = map.data();
    let same = if by_raw[i] {
        slots[i].unwrap().2 == slots[j].unwrap().2
    } else {
        entry_name(data, slots[i].unwrap()) == entry_name(data, slots[j].unwrap())
    };
    if same {
        let h = home_of(slots, by_raw, data, i);
        assert(home_of(slots, by_raw, data, j) == h);
        assert(chain_clear(slots, by_raw, data, i));
        assert(chain_clear(slots, by_raw, data, j));
        lemma_distance_back(h, i);
        lemma_distance_back(h, j);
        if probe_distance(h, i) < probe_distance(h, j) {
            assert(passes(slots, by_raw, data, j, slot_index(h, probe_distance(h, i))));
        } else if probe_distance(h, j) < probe_distance(h, i) {
            assert(passes(slots, by_raw, data, i, slot_index(h, probe_distance(h, j))));
        }
    }
}

/// Probing by bytes for a name stops at one slot only.
pub proof fn lemma_byte_probe_unique(slots: Seq<Option<Entry>>, data: Seq<u8>, key: Seq<u8>, r1: int, r2: int)
    requires
        byte_probe_stops_at(slots, data, key, r1),
        byte_probe_stops_at(slots, data, key, r2),
    ensures
        r1 == r2,
{
    let h = byte_home(key);
    lemma_distance_back(h, r1);
    lemma_distance_back(h, r2);
    if probe_distance(h, r1) < probe_distance(h, r2) {
        assert(slots[slot_index(h, probe_distance(h, r1))] is Some);
    } else if probe_distance(h, r2) < probe_distance(h, r1) {
        assert(slots[slot_index(h, probe_distance(h, r2))] is Some);
    }
}

/// Looking a name up again finds the slot the first lookup returned: after
/// `find_index` stopped at slot `r` (filling it if it was empty), a probe
/// for the same name stops at `r` only, and `r` holds the name.
pub proof fn lemma_find_index_again(
    before: Seq<Option<Entry>>,
    after: Seq<Option<Entry>>,
    data: Seq<u8>,
    key: Seq<u8>,
    r: int,
    e: Entry,
)
    requires
        before.len() == MAP_SIZE,
        byte_probe_stops_at(before, data, key, r),
        entry_name(data, e) == key,
        before[r] is None ==> after == before.update(r, Some(e)),
        before[r] is Some ==> after == before,
    ensures
        byte_probe_stops_at(after, data, key, r),
        after[r] is Some,
        entry_name(data, after[r].unwrap()) == key,
        forall|r2: int| #[trigger] byte_probe_stops_at(after, data, key, r2) ==> r2 == r,
{
    let h = byte_home(key);
    lemma_distance_back(h, r);
    assert forall|k: int| 0 <= k < probe_distance(h, r) implies (#[trigger] after[slot_index(h, k)]) is Some
        && entry_name(data, after[slot_index(h, k)].unwrap()) != key by {
        lemma_probe_arith(h, k);
        assert(slot_index(h, k) != r);
        assert(before[slot_index(h, k)] is Some);
        assert(after[slot_index(h, k)] == before[slot_index(h, k)]);
    }
    assert forall|r2: int| #[trigger] byte_probe_stops_at(after, data, key, r2) implies r2 == r by {
        lemma_byte_probe_unique(after, data, key, r, r2);
    }
}

/// Probing by word for a word stops at one slot only.
pub proof fn lemma_word_probe_unique(slots: Seq<Option<Entry>>, key: i128, r1: int, r2: int)
    requires
        word_probe_stops_at(slots, key, r1),
        word_probe_stops_at(slots, key, r2),
    ensures
        r1 == r2,
{
    let h = raw_home(key);
    lemma_distance_back(h, r1);
    lemma_distance_back(h, r2);
    if probe_distance(h, r1) < probe_distance(h, r2) {
        assert(slots[slot_index(h, probe_distance(h, r1))] is Some);
    } else if probe_distance(h, r2) < probe_distance(h, r1) {
        assert(slots[slot_index(h, probe_distance(h, r2))] is Some);
    }
}

/// Looking a word up again finds the slot the first lookup returned: after
/// `find_index_with_raw_data` stopped at slot `r` for the masked word `key`
/// (filling it if it was empty), a probe for that word stops at `r` only,
/// and `r` holds the word.
pub proof fn lemma_find_word_again(
    before: Seq<Option<Entry>>,
    after: Seq<Option<Entry>>,
    key: i128,
    r: int,
    e: Entry,
)
    requires
        before.len() == MAP_SIZE,
        word_probe_stops_at(before, key, r),
        e.2 == key,
        before[r] is None ==> after == before.update(r, Some(e)),
        before[r] is Some ==> after == before,
    ensures
        word_probe_stops_at(after, key, r),
        after[r] is Some,
        after[r].unwrap().2 == key,
        forall|r2: int| #[trigger] word_probe_stops_at(after, key, r2) ==> r2 == r,
{
    let h = raw_home(key);
    lemma_distance_back(h, r);
    assert forall|k: int| 0 <= k < probe_distance(h, r) implies (#[trigger] after[slot_index(h, k)]) is Some
        && after[slot_index(h, k)].unwrap().2 != key by {
        lemma_probe_arith(h, k);
        assert(slot_index(h, k) != r);
        assert(before[slot_index(h, k)] is Some);
        assert(after[slot_index(h, k)] == before[slot_index(h, k)]);
    }
    assert forall|r2: int| #[trigger] word_probe_stops_at(after, key, r2) implies r2 == r by {
        lemma_word_probe_unique(after, key, r, r2);
    }
}

proof fn lemma_mask_is_mod(x: usize)
    ensures
        x & 65535usize == x % 65536,
{
    assert(x & 65535usize == x % 65536) by (bit_vector);
}

proof fn lemma_next_slot(x: usize)
    requires
        x < 65536,
    ensures
        ((x + 1) as usize) & 65535usize == (x + 1) % 65536,
{
    assert(x < 65536 ==> ((x + 1) as usize) & 65535usize == (x + 1) % 65536) by (bit_vector);
}

} // verus!

verus! {

/// Walks the filled slots of a table in slot order.
pub struct CustomMapIter<'a> {
    current_pos: usize,
    map: &'a CustomMap<'a>,
}

/// Slot `j` is the first filled slot at or after `from`.
pub open spec fn is_next_filled(slots: Seq<Option<Entry>>, from: int, j: int) -> bool {
    &&& from <= j < slots.len()
    &&& slots[j] is Some
    &&& forall|k: int| from <= k < j ==> (#[trigger] slots[k]) is None
}

impl<'a> CustomMapIter<'a> {
    /// The next slot to look at.
    pub closed spec fn pos(&self) -> int {
        self.current_pos as int
    }

    /// The table walked.
    pub closed spec fn table(&self) -> CustomMap<'a> {
        *self.map
    }

    /// A walk from the first slot of `map`.
    pub fn new(map: &'a CustomMap<'a>) -> (it: Self)
        ensures
            it.pos() == 0,
            it.table() == *map,
    {
        CustomMapIter { current_pos: 0, map }
    }

    /// The name and record of the next filled slot, if any.
    pub fn next(&mut self) -> (r: Option<(&'a [u8], Record)>)
        requires
            old(self).table().wf(),
            entries_in_bounds(old(self).table().slots(), old(self).table().data()),
            old(self).pos() <= MAP_SIZE,
        ensures
            final(self).table() == old(self).table(),
            final(self).pos() <= MAP_SIZE,
            old(self).pos() == MAP_SIZE ==> r is None,
            match r {
                Some(item) => {
                    &&& is_next_filled(old(self).table().slots(), old(self).pos(), final(self).pos() - 1)
                    &&& item.0@ == entry_name(
                        old(self).table().data(),
                        old(self).table().slots()[final(self).pos() - 1].unwrap(),
                    )
                    &&& item.1 == old(self).table().slots()[final(self).pos() - 1].unwrap().3
                },
                None => {
                    &&& final(self).pos() == MAP_SIZE
                    &&& forall|k: int|
                        old(self).pos() <= k < MAP_SIZE ==> (#[trigger] old(self).table().slots()[k]) is None
                },
            },
    {
        while self.current_pos < MAP_SIZE
            invariant
                self.map == old(self).map,
                self.map.wf(),
                entries_in_bounds(self.map.slots(), self.map.data()),
                old(self).current_pos <= self.current_pos <= MAP_SIZE,
                forall|k: int| old(self).current_pos <= k < self.current_pos ==> (#[trigger] self.map.slots()[k]) is None,
            decreases MAP_SIZE - self.current_pos,
        {
            if self.map.element_list[self.current_pos].is_some() {
                let element = self.map.element_list[self.current_pos].unwrap();
                let n = self.map.data.len();
                let name = vstd::slice::slice_subrange(self.map.data, element.0, element.0 + element.1);
                let ris = Some((name, element.3));
                self.current_pos += 1;
                return ris;
            }
            self.current_pos += 1;
        }
        None
    }
}

/// The filled slots at or after `from`, in slot order: what a walk that
/// starts there yields, one call of `next` after another.
pub open spec fn filled_slots_from(slots: Seq<Option<Entry>>, from: nat) -> Seq<int>
    decreases slots.len() - from,
{
    if from >= slots.len() {
        Seq::empty()
    } else if slots[from as int] is Some {
        seq![from as int] + filled_slots_from(slots, from + 1)
    } else {
        filled_slots_from(slots, from + 1)
    }
}

/// A call of `next` that yields slot `j` takes the first of the filled
/// slots still ahead, and leaves the rest of them ahead.
pub proof fn lemma_walk_step(slots: Seq<Option<Entry>>, from: nat, j: int)
    requires
        is_next_filled(slots, from as int, j),
    ensures
        filled_slots_from(slots, from) == seq![j] + filled_slots_from(slots, (j + 1) as nat),
    decreases j - from,
{
    if from < j {
        lemma_walk_step(slots, from + 1, j);
    }
}

/// A call of `next` that yields nothing leaves no filled slot ahead.
pub proof fn lemma_walk_end(slots: Seq<Option<Entry>>, from: nat)
    requires
        forall|k: int| from <= k < slots.len() ==> (#[trigger] slots[k]) is None,
    ensures
        filled_slots_from(slots, from) == Seq::<int>::empty(),
    decreases slots.len() - from,
{
    if from < slots.len() {
        lemma_walk_end(slots, from + 1);
    }
}

/// A walk yields every filled slot at or after its start once, in
/// increasing order, and nothing else.
pub proof fn lemma_walk_covers(slots: Seq<Option<Entry>>, from: nat)
    ensures
        forall|a: int, b: int|
            0 <= a < b < filled_slots_from(slots, from).len() ==> #[trigger] filled_slots_from(slots, from)[a]
                < #[trigger] filled_slots_from(slots, from)[b],
        forall|k: int|
            #[trigger] filled_slots_from(slots, from).contains(k) <==> from <= k < slots.len() && slots[k] is Some,
    decreases slots.len() - from,
{
    if from < slots.len() {
        lemma_walk_covers(slots, from + 1);
        let rest = filled_slots_from(slots, from + 1);
        let w = filled_slots_from(slots, from);
        assert forall|k: int| rest.contains(k) implies k > from by {
            let i = choose|i: int| 0 <= i < rest.len() && rest[i] == k;
            assert(rest.contains(rest[i]));
        }
        if slots[from as int] is Some {
            assert forall|k: int| #[trigger] w.contains(k) <==> from <= k < slots.len() && slots[k] is Some by {
                if k == from {
                    assert(w[0] == k);
                } else if rest.contains(k) {
                    let i = choose|i: int| 0 <= i < rest.len() && rest[i] == k;
                    assert(w[i + 1] == k);
                }
                if w.contains(k) && k != from {
                    let i = choose|i: int| 0 <= i < w.len() && w[i] == k;
                    assert(rest[i - 1] == k);
                }
            }
            assert forall|a: int, b: int| 0 <= a < b < w.len() implies #[trigger] w[a] < #[trigger] w[b] by {
                if a == 0 {
                    assert(rest.contains(w[b]));
                } else {
                    assert(w[a] == rest[a - 1] && w[b] == rest[b - 1]);
                }
            }
        }
    }
}

impl<'a> CustomMap<'a> {
    /// A walk over the filled slots of the table.
    pub fn iter(&'a self) -> (it: CustomMapIter<'a>)
        ensures
            it.pos() == 0,
            it.table() == *self,
    {
        CustomMapIter::new(&self)
    }
}

} // verus!
