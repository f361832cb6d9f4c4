use vstd::prelude::*;

verus! {

/// Abstract statistics of a set of measurements, in tenths of a degree.
pub ghost struct Stats {
    pub count: int,
    pub min: int,
    pub max: int,
    pub sum: int,
}

/// The statistics of no measurement: the starting point of every record.
pub open spec fn empty_stats() -> Stats {
    Stats { count: 0, min: 1000, max: -1000, sum: 0 }
}

/// The statistics of a single measurement `v`.
pub open spec fn single_stats(v: int) -> Stats {
    Stats { count: 1, min: v, max: v, sum: v }
}

pub open spec fn min_int(a: int, b: int) -> int {
    if a <= b { a } else { b }
}

pub open spec fn max_int(a: int, b: int) -> int {
    if a >= b { a } else { b }
}

/// Combining the statistics of two disjoint sets of measurements.
pub open spec fn merge_stats(a: Stats, b: Stats) -> Stats {
    Stats {
        count: a.count + b.count,
        min: min_int(a.min, b.min),
        max: max_int(a.max, b.max),
        sum: a.sum + b.sum,
    }
}

/// Adding one measurement to a set of statistics.
pub open spec fn add_stats(a: Stats, v: int) -> Stats {
    merge_stats(a, single_stats(v))
}

/// Statistics whose bounds lie within the sentinels of the empty record:
/// every record built from the empty one keeps this.
pub open spec fn within_sentinels(s: Stats) -> bool {
    s.min <= 1000 && s.max >= -1000
}

/// Running statistics of one station.
#[derive(Debug, Copy, Clone)]
pub struct Record {
    pub count: u32,
    pub min: i32,
    pub max: i32,
    pub sum: i32,
}

impl View for Record {
    type V = Stats;

    open spec fn view(&self) -> Stats {
        Stats {
            count: self.count as int,
            min: self.min as int,
            max: self.max as int,
            sum: self.sum as int,
        }
    }
}

impl Record {
    /// The record of no measurement: count and sum zero, minimum and
    /// maximum at sentinels that any real measurement replaces.
    pub fn default() -> (r: Self)
        ensures
            r@ == empty_stats(),
    {
        Self { count: 0, min: 1000, max: -1000, sum: 0 }
    }

    /// Adds one measurement.
    pub fn add(&mut self, value: i32)
        requires
            old(self).count < u32::MAX,
            i32::MIN <= old(self).sum + value <= i32::MAX,
        ensures
            final(self)@ == add_stats(old(self)@, value as int),
    {
        self.count += 1;
        self.sum += value;
        if value < self.min {
            self.min = value;
        }
        if value > self.max {
            self.max = value;
        }
    }

    /// Merges the statistics of another record into this one.
    pub fn merge(&mut self, other: Record)
        requires
            old(self).count + other.count <= u32::MAX,
            i32::MIN <= old(self).sum + other.sum <= i32::MAX,
        ensures
            final(self)@ == merge_stats(old(self)@, other@),
    {
        self.count += other.count;
        self.sum += other.sum;
        if other.min < self.min {
            self.min = other.min;
        }
        if other.max > self.max {
            self.max = other.max;
        }
    }
}

/// The statistics of a sequence of measurements, added one after another
/// to the record of no measurement.
pub open spec fn stats_of(values: Seq<int>) -> Stats
    decreases values.len(),
{
    if values.len() == 0 {
        empty_stats()
    } else {
        add_stats(stats_of(values.drop_last()), values.last())
    }
}

/// Sum of a sequence of measurements.
pub open spec fn seq_sum(values: Seq<int>) -> int
    decreases values.len(),
{
    if values.len() == 0 {
        0
    } else {
        seq_sum(values.drop_last()) + values.last()
    }
}

/// The smallest of a sequence of measurements (the minimum sentinel for none).
pub open spec fn seq_min(values: Seq<int>) -> int
    decreases values.len(),
{
    if values.len() == 0 {
        1000
    } else {
        min_int(seq_min(values.drop_last()), values.last())
    }
}

/// The largest of a sequence of measurements (the maximum sentinel for none).
pub open spec fn seq_max(values: Seq<int>) -> int
    decreases values.len(),
{
    if values.len() == 0 {
        -1000
    } else {
        max_int(seq_max(values.drop_last()), values.last())
    }
}

/// After a sequence of additions to a new record, its count is the number
/// of measurements and its sum their sum; where they lie within the
/// sentinels (-100.0 to 100.0 degrees), its minimum and maximum are theirs.
pub proof fn lemma_adds_give_sequence_stats(values: Seq<int>)
    ensures
        stats_of(values).count == values.len(),
        stats_of(values).sum == seq_sum(values),
        values.len() > 0 && (forall|i: int| 0 <= i < values.len() ==> -1000 <= #[trigger] values[i] <= 1000)
            ==> stats_of(values).min == seq_min(values) && stats_of(values).max == seq_max(values)
            && (forall|i: int| 0 <= i < values.len() ==> seq_min(values) <= #[trigger] values[i] <= seq_max(values))
            && values.contains(seq_min(values)) && values.contains(seq_max(values)),
    decreases values.len(),
{
    if values.len() > 0 {
        let init = values.drop_last();
        lemma_adds_give_sequence_stats(init);
        if forall|i: int| 0 <= i < values.len() ==> -1000 <= #[trigger] values[i] <= 1000 {
            assert forall|i: int| 0 <= i < init.len() implies -1000 <= #[trigger] init[i] <= 1000 by {
                assert(init[i] == values[i]);
            }
            if init.len() == 0 {
                assert(values[0] == values.last());
                assert(values.contains(values[0]));
            } else {
                assert forall|i: int| 0 <= i < values.len() implies seq_min(values) <= #[trigger] values[i] <= seq_max(values) by {
                    if i < init.len() {
                        assert(init[i] == values[i]);
                    }
                }
                let k1 = choose|k: int| 0 <= k < init.len() && init[k] == seq_min(init);
                let k2 = choose|k: int| 0 <= k < init.len() && init[k] == seq_max(init);
                assert(values[k1] == init[k1]);
                assert(values[k2] == init[k2]);
                assert(values[values.len() - 1] == values.last());
                assert(values.contains(values[k1]));
                assert(values.contains(values[k2]));
                assert(values.contains(values[values.len() - 1]));
            }
        }
    }
}

/// Merging the records of two sequences of measurements gives the record
/// of the two sequences one after the other.
pub proof fn lemma_merge_is_concatenation(a: Seq<int>, b: Seq<int>)
    ensures
        stats_of(a + b) == merge_stats(stats_of(a), stats_of(b)),
    decreases b.len(),
{
    if b.len() == 0 {
        assert(a + b =~= a);
        lemma_stats_of_within(a);
        lemma_merge_empty(stats_of(a));
    } else {
        assert((a + b).drop_last() =~= a + b.drop_last());
        assert((a + b).last() == b.last());
        lemma_merge_is_concatenation(a, b.drop_last());
        lemma_merge_associative(stats_of(a), stats_of(b.drop_last()), single_stats(b.last()));
    }
}

proof fn lemma_stats_of_within(a: Seq<int>)
    ensures
        within_sentinels(stats_of(a)),
    decreases a.len(),
{
    if a.len() > 0 {
        lemma_stats_of_within(a.drop_last());
    }
}

/// Merging is commutative.
pub proof fn lemma_merge_commutative(a: Stats, b: Stats)
    ensures
        merge_stats(a, b) == merge_stats(b, a),
{
}

/// Merging is associative.
pub proof fn lemma_merge_associative(a: Stats, b: Stats, c: Stats)
    ensures
        merge_stats(merge_stats(a, b), c) == merge_stats(a, merge_stats(b, c)),
{
}

/// The empty record is neutral for every statistics within the sentinels.
pub proof fn lemma_merge_empty(a: Stats)
    requires
        within_sentinels(a),
    ensures
        merge_stats(a, empty_stats()) == a,
        merge_stats(empty_stats(), a) == a,
{
}

/// Adding a measurement keeps statistics within the sentinels, and so does merging.
pub proof fn lemma_within_sentinels_closed(a: Stats, b: Stats, v: int)
    requires
        within_sentinels(a),
    ensures
        within_sentinels(add_stats(a, v)),
        within_sentinels(merge_stats(a, b)),
        within_sentinels(empty_stats()),
{
}

} // verus!
