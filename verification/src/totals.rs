use vstd::prelude::*;
use vstd::slice::slice_to_vec;
use crate::record::{
    Record, Stats, empty_stats, merge_stats, within_sentinels, lemma_merge_associative,
    lemma_within_sentinels_closed,
};
use crate::custom_map::{
    CustomMap, Entry, MAP_SIZE, entry_name, entries_in_bounds, stats_upto, table_stats, records_within_sentinels,
};

verus! {

/// `a` and `b` agree on their first `k` bytes.
pub open spec fn agree_upto(a: Seq<u8>, b: Seq<u8>, k: int) -> bool {
    &&& 0 <= k <= a.len()
    &&& k <= b.len()
    &&& forall|j: int| 0 <= j < k ==> a[j] == b[j]
}

/// `a` and `b` first differ at `k`, where `a` is smaller or has ended.
pub open spec fn lex_less_at(a: Seq<u8>, b: Seq<u8>, k: int) -> bool {
    &&& agree_upto(a, b, k)
    &&& ((k < a.len() && k < b.len() && a[k] < b[k]) || (k == a.len() && k < b.len()))
}

/// `a` comes before `b` in byte-wise lexicographic order, the order of `Vec<u8>`.
pub open spec fn lex_less(a: Seq<u8>, b: Seq<u8>) -> bool {
    exists|k: int| lex_less_at(a, b, k)
}

/// No name comes before itself.
pub proof fn lemma_lex_irreflexive(a: Seq<u8>)
    ensures
        !lex_less(a, a),
{
}

/// The order is transitive.
pub proof fn lemma_lex_transitive(a: Seq<u8>, b: Seq<u8>, c: Seq<u8>)
    requires
        lex_less(a, b),
        lex_less(b, c),
    ensures
        lex_less(a, c),
{
    let k1 = choose|k: int| lex_less_at(a, b, k);
    let k2 = choose|k: int| lex_less_at(b, c, k);
    if k1 <= k2 {
        if k1 < k2 {
            assert(b[k1] == c[k1]);
        }
        assert(lex_less_at(a, c, k1));
    } else {
        assert(a[k2] == b[k2]);
        assert(lex_less_at(a, c, k2));
    }
}

/// Of two different names, one comes before the other.
pub proof fn lemma_lex_total(a: Seq<u8>, b: Seq<u8>)
    requires
        a != b,
    ensures
        lex_less(a, b) || lex_less(b, a),
{
    if a.len() <= b.len() && (forall|j: int| 0 <= j < a.len() ==> a[j] == b[j]) {
        if a.len() == b.len() {
            assert(a =~= b);
        } else {
            assert(lex_less_at(a, b, a.len() as int));
        }
    } else if b.len() <= a.len() && (forall|j: int| 0 <= j < b.len() ==> a[j] == b[j]) {
        if a.len() == b.len() {
            assert(a =~= b);
        } else {
            assert(lex_less_at(b, a, b.len() as int));
        }
    } else {
        let k = choose|k: int| 0 <= k < a.len() && k < b.len() && a[k] != b[k];
        lemma_first_difference(a, b, k);
    }
}

proof fn lemma_first_difference(a: Seq<u8>, b: Seq<u8>, k: int)
    requires
        0 <= k < a.len(),
        k < b.len(),
        a[k] != b[k],
    ensures
        lex_less(a, b) || lex_less(b, a),
    decreases k,
{
    if exists|j: int| 0 <= j < k && a[j] != b[j] {
        let j = choose|j: int| 0 <= j < k && a[j] != b[j];
        lemma_first_difference(a, b, j);
    } else if a[k] < b[k] {
        assert(lex_less_at(a, b, k));
    } else {
        assert(lex_less_at(b, a, k));
    }
}

/// The order is asymmetric.
pub proof fn lemma_lex_asymmetric(a: Seq<u8>, b: Seq<u8>)
    requires
        lex_less(a, b),
    ensures
        !lex_less(b, a),
{
    if lex_less(b, a) {
        lemma_lex_transitive(a, b, a);
        lemma_lex_irreflexive(a);
    }
}

/// Whether `a` comes before `b` in byte-wise lexicographic order.
pub fn name_less(a: &[u8], b: &[u8]) -> (r: bool)
    ensures
        r == lex_less(a@, b@),
{
    let mut i: usize = 0;
    while i < a.len() && i < b.len()
        invariant
            agree_upto(a@, b@, i as int),
        decreases a.len() - i,
    {
        if a[i] != b[i] {
            if a[i] < b[i] {
                assert(lex_less_at(a@, b@, i as int));
            } else {
                assert(lex_less_at(b@, a@, i as int));
                proof { lemma_lex_asymmetric(b@, a@); }
            }
            return a[i] < b[i];
        }
        i += 1;
    }
    if a.len() < b.len() {
        assert(lex_less_at(a@, b@, i as int));
    } else {
        proof {
            if lex_less(a@, b@) {
                let k = choose|k: int| lex_less_at(a@, b@, k);
                assert(a@[k] == b@[k]);
            }
        }
    }
    a.len() < b.len()
}

/// The count of a station's statistics over the first `k` slots grows with `k`.
proof fn lemma_count_upto_grows(slots: Seq<Option<Entry>>, data: Seq<u8>, name: Seq<u8>, k: int, k2: int)
    requires
        0 <= k <= k2,
    ensures
        0 <= stats_upto(slots, data, name, k).count <= stats_upto(slots, data, name, k2).count,
    decreases k2,
{
    if k2 > k {
        lemma_count_upto_grows(slots, data, name, k, k2 - 1);
    } else if k > 0 {
        lemma_count_upto_grows(slots, data, name, k - 1, k - 1);
    }
}

/// Empty slots add nothing.
proof fn lemma_skip_empty_slots(slots: Seq<Option<Entry>>, data: Seq<u8>, name: Seq<u8>, from: int, to: int)
    requires
        0 <= from <= to <= slots.len(),
        forall|k: int| from <= k < to ==> (#[trigger] slots[k]) is None,
    ensures
        stats_upto(slots, data, name, to) == stats_upto(slots, data, name, from),
    decreases to - from,
{
    if from < to {
        lemma_skip_empty_slots(slots, data, name, from + 1, to);
        lemma_skip_empty_slots(slots, data, name, from, to - 1);
    }
}

/// Some filled slot of the table holds the name `n`.
pub open spec fn table_has_name(map: CustomMap, n: Seq<u8>) -> bool {
    exists|i: int|
        0 <= i < MAP_SIZE && (#[trigger] map.slots()[i]) is Some && entry_name(map.data(), map.slots()[i].unwrap()) == n
}

/// Totals of the stations, kept sorted by name: one record per name, found
/// by a scan in name order, so that the contracts can say exactly which
/// names have totals and what they are.
pub struct StationTotals {
    names: Vec<Vec<u8>>,
    records: Vec<Record>,
}

impl StationTotals {
    /// The station names, in order.
    pub closed spec fn names(&self) -> Seq<Seq<u8>> {
        self.names@.map_values(|v: Vec<u8>| v@)
    }

    /// The records, in the order of the names.
    pub closed spec fn records(&self) -> Seq<Record> {
        self.records@
    }

    /// Names strictly increasing, one record per name, every record within the sentinels.
    pub open spec fn wf(&self) -> bool {
        &&& self.names().len() == self.records().len()
        &&& forall|i: int, j: int|
            0 <= i < j < self.names().len() ==> lex_less(#[trigger] self.names()[i], #[trigger] self.names()[j])
        &&& forall|i: int| 0 <= i < self.records().len() ==> within_sentinels(#[trigger] self.records()[i]@)
    }

    /// There are totals for the station `name`.
    pub open spec fn contains(&self, name: Seq<u8>) -> bool {
        exists|i: int| 0 <= i < self.names().len() && #[trigger] self.names()[i] == name
    }

    /// The totals of the station `name`; those of no measurement for a
    /// station without totals.
    pub open spec fn stats(&self, name: Seq<u8>) -> Stats {
        if self.contains(name) {
            self.records()[choose|i: int| 0 <= i < self.names().len() && #[trigger] self.names()[i] == name]@
        } else {
            empty_stats()
        }
    }

    /// No totals.
    pub fn new() -> (t: Self)
        ensures
            t.wf(),
            t.names().len() == 0,
            forall|n: Seq<u8>| !t.contains(n),
    {
        StationTotals { names: Vec::new(), records: Vec::new() }
    }

    /// Number of stations.
    pub fn len(&self) -> (r: usize)
        requires
            self.wf(),
        ensures
            r == self.names().len(),
    {
        self.names.len()
    }

    /// Name of the `i`-th station in order.
    pub fn name(&self, i: usize) -> (r: &[u8])
        requires
            self.wf(),
            i < self.names().len(),
        ensures
            r@ == self.names()[i as int],
    {
        self.names[i].as_slice()
    }

    /// Totals of the `i`-th station in order.
    pub fn record(&self, i: usize) -> (r: Record)
        requires
            self.wf(),
            i < self.names().len(),
        ensures
            r == self.records()[i as int],
    {
        self.records[i]
    }

    /// The totals of the name at position `i` are the record at `i`.
    pub proof fn lemma_stats_at(&self, i: int)
        requires
            self.wf(),
            0 <= i < self.names().len(),
        ensures
            self.contains(self.names()[i]),
            self.stats(self.names()[i]) == self.records()[i]@,
    {
        let n = self.names()[i];
        let j = choose|j: int| 0 <= j < self.names().len() && #[trigger] self.names()[j] == n;
        if j < i {
            lemma_lex_irreflexive(n);
        }
        if i < j {
            lemma_lex_irreflexive(n);
        }
    }
}

impl StationTotals {
    /// Adds the record of one station to its totals, making them if needed.
    pub fn add_record(&mut self, name: &[u8], record: Record)
        requires
            old(self).wf(),
            within_sentinels(record@),
            old(self).stats(name@).count + record.count <= u32::MAX,
            i32::MIN <= old(self).stats(name@).sum + record.sum <= i32::MAX,
        ensures
            final(self).wf(),
            final(self).stats(name@) == merge_stats(old(self).stats(name@), record@),
            forall|m: Seq<u8>| m != name@ ==> #[trigger] final(self).stats(m) == old(self).stats(m),
            forall|m: Seq<u8>| #[trigger] final(self).contains(m) <==> old(self).contains(m) || m == name@,
    {
        let ghost old_t = *self;
        let len = self.names.len();
        let mut i: usize = 0;
        proof {
            assert(self.names@.len() == self.names().len());
        }
        while i < len && name_less(self.names[i].as_slice(), name)
            invariant
                *self == old_t,
                self.wf(),
                len == self.names().len(),
                i <= len,
                forall|k: int| 0 <= k < i ==> lex_less(#[trigger] self.names()[k], name@),
            decreases len - i,
        {
            proof {
                assert(self.names[i as int]@ == self.names()[i as int]);
            }
            i += 1;
        }
        proof {
            if i < len {
                assert(self.names[i as int]@ == self.names()[i as int]);
            }
        }
        if i < len && !name_less(name, self.names[i].as_slice()) {
            proof {
                if self.names()[i as int] != name@ {
                    lemma_lex_total(self.names()[i as int], name@);
                }
                old_t.lemma_stats_at(i as int);
            }
            let mut r = self.records[i];
            r.merge(record);
            self.records.set(i, r);
            proof {
                assert(self.names() == old_t.names());
                lemma_within_sentinels_closed(old_t.records()[i as int]@, record@, 0);
                self.lemma_stats_at(i as int);
                assert forall|m: Seq<u8>| m != name@ implies #[trigger] self.stats(m) == old_t.stats(m) by {
                    if old_t.contains(m) {
                        let j = choose|j: int| 0 <= j < old_t.names().len() && #[trigger] old_t.names()[j] == m;
                        old_t.lemma_stats_at(j);
                        self.lemma_stats_at(j);
                    }
                }
            }
        } else {
            let mut r = Record::default();
            r.merge(record);
            let key = slice_to_vec(name);
            self.names.insert(i, key);
            self.records.insert(i, r);
            proof {
                assert(self.names() =~= old_t.names().insert(i as int, name@));
                assert(!old_t.contains(name@)) by {
                    if old_t.contains(name@) {
                        let j = choose|j: int| 0 <= j < old_t.names().len() && #[trigger] old_t.names()[j] == name@;
                        if j < i {
                            lemma_lex_irreflexive(name@);
                        } else {
                            if j > i {
                                lemma_lex_transitive(name@, old_t.names()[i as int], old_t.names()[j]);
                            }
                            lemma_lex_irreflexive(name@);
                        }
                    }
                }
                assert forall|a: int, b: int|
                    0 <= a < b < self.names().len() implies lex_less(#[trigger] self.names()[a], #[trigger] self.names()[b]) by {
                    if b == i {
                    } else if a == i {
                        if b > i + 1 {
                            lemma_lex_transitive(name@, old_t.names()[i as int], old_t.names()[b - 1]);
                        }
                    }
                }
                lemma_within_sentinels_closed(crate::record::empty_stats(), record@, 0);
                self.lemma_stats_at(i as int);
                assert forall|m: Seq<u8>| m != name@ implies #[trigger] self.stats(m) == old_t.stats(m) by {
                    if old_t.contains(m) {
                        let j = choose|j: int| 0 <= j < old_t.names().len() && #[trigger] old_t.names()[j] == m;
                        old_t.lemma_stats_at(j);
                        if j < i {
                            self.lemma_stats_at(j);
                        } else {
                            self.lemma_stats_at(j + 1);
                        }
                    } else if self.contains(m) {
                        let j = choose|j: int| 0 <= j < self.names().len() && #[trigger] self.names()[j] == m;
                        if j < i {
                            assert(old_t.names()[j] == m);
                        } else {
                            assert(old_t.names()[j - 1] == m);
                        }
                    }
                }
                assert forall|m: Seq<u8>| #[trigger] self.contains(m) <==> old_t.contains(m) || m == name@ by {
                    if old_t.contains(m) {
                        let j = choose|j: int| 0 <= j < old_t.names().len() && #[trigger] old_t.names()[j] == m;
                        if j < i {
                            assert(self.names()[j] == m);
                        } else {
                            assert(self.names()[j + 1] == m);
                        }
                    }
                    if m == name@ {
                        assert(self.names()[i as int] == m);
                    }
                    if self.contains(m) && m != name@ {
                        let j = choose|j: int| 0 <= j < self.names().len() && #[trigger] self.names()[j] == m;
                        if j < i {
                            assert(old_t.names()[j] == m);
                        } else {
                            assert(old_t.names()[j - 1] == m);
                        }
                    }
                }
            }
        }
    }
}

/// Merges the records of every filled slot of `custom_map` into the totals.
pub fn merge(map: &mut StationTotals, custom_map: &CustomMap)
    requires
        old(map).wf(),
        custom_map.wf(),
        entries_in_bounds(custom_map.slots(), custom_map.data()),
        forall|n: Seq<u8>| #[trigger] old(map).stats(n).count + custom_map.station_stats(n).count <= u32::MAX,
        forall|n: Seq<u8>, k: int|
            0 <= k <= MAP_SIZE ==> i32::MIN <= old(map).stats(n).sum + (#[trigger] stats_upto(
                custom_map.slots(),
                custom_map.data(),
                n,
                k,
            )).sum <= i32::MAX,
    ensures
        final(map).wf(),
        forall|n: Seq<u8>|
            #[trigger] final(map).stats(n) == merge_stats(old(map).stats(n), custom_map.station_stats(n)),
        forall|n: Seq<u8>| #[trigger] final(map).contains(n) <==> old(map).contains(n) || table_has_name(*custom_map, n),
{
    let ghost t0 = *map;
    let ghost slots = custom_map.slots();
    let ghost data = custom_map.data();
    let mut it = custom_map.iter();
    let mut done = false;
    proof {
        assert(records_within_sentinels(slots, MAP_SIZE as int));
    }
    while !done
        invariant
            it.table() == *custom_map,
            custom_map.wf(),
            entries_in_bounds(slots, data),
            slots == custom_map.slots(),
            data == custom_map.data(),
            records_within_sentinels(slots, MAP_SIZE as int),
            0 <= it.pos() <= MAP_SIZE,
            done ==> it.pos() == MAP_SIZE,
            map.wf(),
            forall|n: Seq<u8>| #[trigger] map.stats(n) == merge_stats(t0.stats(n), stats_upto(slots, data, n, it.pos())),
            forall|n: Seq<u8>|
                #[trigger] map.contains(n) <==> t0.contains(n) || exists|i: int|
                    0 <= i < it.pos() && (#[trigger] slots[i]) is Some && entry_name(data, slots[i].unwrap()) == n,
            forall|n: Seq<u8>| #[trigger] t0.stats(n).count + table_stats(slots, data, n).count <= u32::MAX,
            forall|n: Seq<u8>, k: int|
                0 <= k <= MAP_SIZE ==> i32::MIN <= t0.stats(n).sum + (#[trigger] stats_upto(slots, data, n, k)).sum
                    <= i32::MAX,
        decreases MAP_SIZE - it.pos() + (if done { 0int } else { 1int }),
    {
        let ghost pos = it.pos();
        let ghost map_before = *map;
        match it.next() {
            Some(item) => {
                let ghost j = it.pos() - 1;
                let (name, record) = item;
                proof {
                    lemma_skip_empty_slots(slots, data, name@, pos, j);
                    lemma_count_upto_grows(slots, data, name@, j + 1, MAP_SIZE as int);
                    assert(t0.stats(name@).count + table_stats(slots, data, name@).count <= u32::MAX);
                    assert(i32::MIN <= t0.stats(name@).sum + stats_upto(slots, data, name@, j + 1).sum <= i32::MAX);
                }
                map.add_record(name, record);
                proof {
                    assert forall|n: Seq<u8>|
                        #[trigger] map.stats(n) == merge_stats(t0.stats(n), stats_upto(slots, data, n, it.pos())) by {
                        lemma_skip_empty_slots(slots, data, n, pos, j);
                        lemma_merge_associative(t0.stats(n), stats_upto(slots, data, n, j), record@);
                    }
                    assert forall|n: Seq<u8>|
                        #[trigger] map.contains(n) <==> t0.contains(n) || exists|i: int|
                            0 <= i < it.pos() && (#[trigger] slots[i]) is Some && entry_name(data, slots[i].unwrap()) == n by {
                        if n == name@ {
                            assert(slots[j] is Some && entry_name(data, slots[j].unwrap()) == n);
                        }
                        if exists|i: int|
                            0 <= i < it.pos() && (#[trigger] slots[i]) is Some && entry_name(data, slots[i].unwrap()) == n {
                            let i = choose|i: int|
                                0 <= i < it.pos() && (#[trigger] slots[i]) is Some && entry_name(data, slots[i].unwrap()) == n;
                            if i < pos {
                                assert(map_before.contains(n));
                            }
                        }
                        if map_before.contains(n) && !t0.contains(n) {
                            let i = choose|i: int|
                                0 <= i < pos && (#[trigger] slots[i]) is Some && entry_name(data, slots[i].unwrap()) == n;
                            assert(0 <= i < it.pos());
                        }
                    }
                }
            },
            None => {
                proof {
                    lemma_skip_empty_slots(slots, data, Seq::<u8>::empty(), pos, MAP_SIZE as int);
                    assert forall|n: Seq<u8>|
                        #[trigger] map.stats(n) == merge_stats(t0.stats(n), stats_upto(slots, data, n, it.pos())) by {
                        lemma_skip_empty_slots(slots, data, n, pos, MAP_SIZE as int);
                    }
                    assert forall|n: Seq<u8>|
                        #[trigger] map.contains(n) <==> t0.contains(n) || exists|i: int|
                            0 <= i < it.pos() && (#[trigger] slots[i]) is Some && entry_name(data, slots[i].unwrap()) == n by {
                        if exists|i: int|
                            0 <= i < it.pos() && (#[trigger] slots[i]) is Some && entry_name(data, slots[i].unwrap()) == n {
                            let i = choose|i: int|
                                0 <= i < it.pos() && (#[trigger] slots[i]) is Some && entry_name(data, slots[i].unwrap()) == n;
                            assert(i < pos);
                        }
                    }
                }
                done = true;
            },
        }
    }
    proof {
        assert forall|n: Seq<u8>| #[trigger] map.contains(n) <==> t0.contains(n) || table_has_name(*custom_map, n) by {
            if table_has_name(*custom_map, n) {
                let i = choose|i: int|
                    0 <= i < MAP_SIZE && (#[trigger] slots[i]) is Some && entry_name(data, slots[i].unwrap()) == n;
                assert(0 <= i < it.pos());
            }
        }
    }
}

} // verus!
