use vstd::prelude::*;
use crate::record::{Stats, empty_stats, single_stats, merge_stats, within_sentinels};
use crate::number::{short_number_at, short_number_dot, short_number_value, digit_value, number_digits_start};

verus! {

/// `j` is the first position at or after `i` where `s` holds `c`.
pub open spec fn is_first_from(s: Seq<u8>, i: int, c: u8, j: int) -> bool {
    &&& 0 <= i <= j < s.len()
    &&& s[j] == c
    &&& forall|k: int| i <= k < j ==> s[k] != c
}

/// `s` holds `c` at or after `i`.
pub open spec fn has_from(s: Seq<u8>, i: int, c: u8) -> bool {
    exists|j: int| is_first_from(s, i, c, j)
}

/// The first position at or after `i` where `s` holds `c`.
pub open spec fn first_from(s: Seq<u8>, i: int, c: u8) -> int {
    choose|j: int| is_first_from(s, i, c, j)
}

pub proof fn lemma_first_from(s: Seq<u8>, i: int, c: u8, j: int)
    requires
        is_first_from(s, i, c, j),
    ensures
        has_from(s, i, c),
        first_from(s, i, c) == j,
{
    let f = first_from(s, i, c);
    assert(is_first_from(s, i, c, f));
    if f < j {
        assert(s[f] != c);
    }
    if f > j {
        assert(s[j] != c);
    }
}

/// Value of a run of decimal digits (each byte counting as its distance from `0`).
pub open spec fn digits_value(d: Seq<u8>) -> int
    decreases d.len(),
{
    if d.len() == 0 {
        0
    } else {
        digits_value(d.drop_last()) * 10 + digit_value(d.last())
    }
}

/// Position of the `;` that ends the station name of the line at `p`.
pub open spec fn line_semicolon(s: Seq<u8>, p: int) -> int {
    first_from(s, p, 59u8)
}

/// The measurement of the line at `p` starts with `-`.
pub open spec fn line_negative(s: Seq<u8>, p: int) -> bool {
    s[line_semicolon(s, p) + 1] == 45u8
}

/// Position of the decimal point of the measurement of the line at `p`.
pub open spec fn line_dot(s: Seq<u8>, p: int) -> int {
    first_from(s, line_semicolon(s, p) + 2, 46u8)
}

/// The digits before the decimal point of the line at `p`.
pub open spec fn line_int_digits(s: Seq<u8>, p: int) -> Seq<u8> {
    let c = line_semicolon(s, p);
    s.subrange(if line_negative(s, p) { c + 2 } else { c + 1 }, line_dot(s, p))
}

/// Absolute value, in tenths, of the measurement of the line at `p`.
pub open spec fn line_magnitude(s: Seq<u8>, p: int) -> int {
    digits_value(line_int_digits(s, p)) * 10 + digit_value(s[line_dot(s, p) + 1])
}

/// The measurement of the line at `p`, in tenths.
pub open spec fn line_value(s: Seq<u8>, p: int) -> int {
    if line_negative(s, p) {
        -line_magnitude(s, p)
    } else {
        line_magnitude(s, p)
    }
}

/// The station name of the line at `p`.
pub open spec fn line_name(s: Seq<u8>, p: int) -> Seq<u8> {
    s.subrange(p, line_semicolon(s, p))
}

/// Start of the line after the line at `p`: past the digit after the
/// decimal point and the byte that ends the line.
pub open spec fn line_next(s: Seq<u8>, p: int) -> int {
    line_dot(s, p) + 3
}

/// At `p` stands a line `name;[-]digits.digit` followed by one more byte,
/// whose measurement fits an `i32`.
pub open spec fn is_line(s: Seq<u8>, p: int) -> bool {
    let c = line_semicolon(s, p);
    let d = line_dot(s, p);
    &&& 0 <= p
    &&& has_from(s, p, 59u8)
    &&& c + 2 < s.len()
    &&& (line_negative(s, p) || s[c + 1] >= 48)
    &&& has_from(s, c + 2, 46u8)
    &&& d + 1 < s.len()
    &&& (forall|k: int| c + 2 <= k < d ==> #[trigger] s[k] >= 48)
    &&& s[d + 1] >= 48
    &&& line_magnitude(s, p) <= i32::MAX
}

/// A line whose measurement has the short form: `-`, one or two digits,
/// `.`, one digit.
pub open spec fn is_short_line(s: Seq<u8>, p: int) -> bool {
    &&& is_line(s, p)
    &&& short_number_at(s, line_semicolon(s, p) + 1)
}

/// The word-at-a-time reads of the line at `p` stay within `s`: the
/// sixteen-byte blocks up to the one holding the `;`, and eight bytes after it.
pub open spec fn fast_readable(s: Seq<u8>, p: int) -> bool {
    let c = line_semicolon(s, p);
    &&& p + 16 * ((c - p) / 16 + 1) <= s.len()
    &&& c + 9 <= s.len()
}

pub proof fn lemma_line_facts(s: Seq<u8>, p: int)
    requires
        is_line(s, p),
    ensures
        is_first_from(s, p, 59u8, line_semicolon(s, p)),
        is_first_from(s, line_semicolon(s, p) + 2, 46u8, line_dot(s, p)),
        p <= line_semicolon(s, p),
        line_semicolon(s, p) + 2 <= line_dot(s, p),
        line_next(s, p) > p,
        line_next(s, p) <= s.len() + 1,
{
}

pub open spec fn region_measure(p: int, end: int) -> int {
    if p > end {
        0
    } else {
        end + 1 - p
    }
}

/// Every line that starts at or before `end`, reading from `p` on, is a line.
pub open spec fn region_ok(s: Seq<u8>, p: int, end: int) -> bool
    decreases region_measure(p, end),
{
    if p > end {
        true
    } else if !is_line(s, p) {
        false
    } else {
        proof {
            lemma_line_facts(s, p);
        }
        region_ok(s, line_next(s, p), end)
    }
}

/// As `region_ok`, and the lines that start before `safe` are short and
/// can be read word at a time.
pub open spec fn fast_region_ok(s: Seq<u8>, p: int, safe: int, end: int) -> bool
    decreases region_measure(p, end),
{
    if p > end {
        true
    } else if !is_line(s, p) {
        false
    } else {
        proof {
            lemma_line_facts(s, p);
        }
        &&& (p < safe ==> is_short_line(s, p) && fast_readable(s, p))
        &&& fast_region_ok(s, line_next(s, p), safe, end)
    }
}

/// Statistics of the station `name` over the lines from `p` that start at
/// or before `end`.
pub open spec fn region_stats(s: Seq<u8>, p: int, end: int, name: Seq<u8>) -> Stats
    decreases region_measure(p, end),
{
    if p > end || !is_line(s, p) {
        empty_stats()
    } else {
        proof {
            lemma_line_facts(s, p);
        }
        let rest = region_stats(s, line_next(s, p), end, name);
        if line_name(s, p) == name {
            merge_stats(single_stats(line_value(s, p)), rest)
        } else {
            rest
        }
    }
}

/// The station names of the lines from `p` that start at or before `end`.
pub open spec fn region_names(s: Seq<u8>, p: int, end: int) -> Set<Seq<u8>>
    decreases region_measure(p, end),
{
    if p > end || !is_line(s, p) {
        Set::empty()
    } else {
        proof {
            lemma_line_facts(s, p);
        }
        region_names(s, line_next(s, p), end).insert(line_name(s, p))
    }
}

/// The measurement of the line at `p`, if it is of station `name`.
pub open spec fn line_values(s: Seq<u8>, p: int, name: Seq<u8>) -> Seq<int> {
    if line_name(s, p) == name {
        seq![line_value(s, p)]
    } else {
        Seq::empty()
    }
}

/// The measurements of station `name` over the lines from `p` that start
/// at or before `end`, in order.
pub open spec fn region_values(s: Seq<u8>, p: int, end: int, name: Seq<u8>) -> Seq<int>
    decreases region_measure(p, end),
{
    if p > end || !is_line(s, p) {
        Seq::empty()
    } else {
        proof {
            lemma_line_facts(s, p);
        }
        line_values(s, p, name) + region_values(s, line_next(s, p), end, name)
    }
}

/// The starts of the lines from `p` that start at or before `end`.
pub open spec fn region_starts(s: Seq<u8>, p: int, end: int) -> Set<int>
    decreases region_measure(p, end),
{
    if p > end || !is_line(s, p) {
        Set::empty()
    } else {
        proof {
            lemma_line_facts(s, p);
        }
        region_starts(s, line_next(s, p), end).insert(p)
    }
}

/// Start of the first whole line at or after `begin`: the input's start, or
/// the byte after the first line end at or after `begin`.
pub open spec fn line_start_from(s: Seq<u8>, begin: int) -> int {
    if begin > 0 {
        first_from(s, begin, 10u8) + 1
    } else {
        0
    }
}

/// Every byte of `d` is at least `0`.
pub open spec fn all_at_least_zero_digit(d: Seq<u8>) -> bool {
    forall|i: int| 0 <= i < d.len() ==> #[trigger] d[i] >= 48
}

pub proof fn lemma_digits_value_nonneg(d: Seq<u8>)
    requires
        all_at_least_zero_digit(d),
    ensures
        digits_value(d) >= 0,
    decreases d.len(),
{
    if d.len() > 0 {
        lemma_digits_value_nonneg(d.drop_last());
    }
}

/// A prefix of a run of digits is worth no more than the whole run.
pub proof fn lemma_digits_value_prefix(d: Seq<u8>, k: int)
    requires
        all_at_least_zero_digit(d),
        0 <= k <= d.len(),
    ensures
        0 <= digits_value(d.subrange(0, k)) <= digits_value(d),
    decreases d.len(),
{
    if k == d.len() {
        assert(d.subrange(0, k) =~= d);
        lemma_digits_value_nonneg(d);
    } else {
        lemma_digits_value_prefix(d.drop_last(), k);
        assert(d.drop_last().subrange(0, k) =~= d.subrange(0, k));
        lemma_digits_value_nonneg(d.drop_last());
    }
}

/// The lines of a region: its first line, and the region after it.
pub proof fn lemma_region_step(s: Seq<u8>, p: int, end: int, name: Seq<u8>)
    requires
        region_ok(s, p, end),
        p <= end,
    ensures
        is_line(s, p),
        region_ok(s, line_next(s, p), end),
        region_stats(s, p, end, name) == (if line_name(s, p) == name {
            merge_stats(single_stats(line_value(s, p)), region_stats(s, line_next(s, p), end, name))
        } else {
            region_stats(s, line_next(s, p), end, name)
        }),
        region_names(s, p, end) == region_names(s, line_next(s, p), end).insert(line_name(s, p)),
        region_values(s, p, end, name) == line_values(s, p, name) + region_values(s, line_next(s, p), end, name),
        region_stats(s, p, end, name).count == region_stats(s, line_next(s, p), end, name).count + (if line_name(
            s,
            p,
        ) == name {
            1int
        } else {
            0
        }),
        region_starts(s, p, end) == region_starts(s, line_next(s, p), end).insert(p),
{
    lemma_line_facts(s, p);
    lemma_line_digits(s, p);
}

/// The digits of a line are digits, and its magnitude is not negative.
pub proof fn lemma_line_digits(s: Seq<u8>, p: int)
    requires
        is_line(s, p),
    ensures
        all_at_least_zero_digit(line_int_digits(s, p)),
        line_magnitude(s, p) >= 0,
{
    lemma_line_facts(s, p);
    let c = line_semicolon(s, p);
    let d = line_int_digits(s, p);
    let a = if line_negative(s, p) { c + 2 } else { c + 1 };
    assert forall|i: int| 0 <= i < d.len() implies #[trigger] d[i] >= 48 by {
        assert(d[i] == s[a + i]);
    }
    lemma_digits_value_nonneg(d);
}

/// Past `end` a region is empty.
pub proof fn lemma_region_past_end(s: Seq<u8>, p: int, end: int, name: Seq<u8>)
    requires
        p > end,
    ensures
        region_stats(s, p, end, name) == empty_stats(),
        region_names(s, p, end) == Set::<Seq<u8>>::empty(),
        region_values(s, p, end, name) == Seq::<int>::empty(),
        region_starts(s, p, end) == Set::<int>::empty(),
{
}

/// The measurement of a short line, read by the parser of short numbers,
/// has the same decimal point and value as read digit by digit.
pub proof fn lemma_short_line(s: Seq<u8>, p: int)
    requires
        is_short_line(s, p),
    ensures
        line_dot(s, p) == short_number_dot(s, line_semicolon(s, p) + 1),
        line_value(s, p) == short_number_value(s, line_semicolon(s, p) + 1),
{
    lemma_line_facts(s, p);
    let c = line_semicolon(s, p);
    let q = number_digits_start(s, c + 1);
    let d = line_int_digits(s, p);
    if s[q + 1] == 46u8 {
        assert(is_first_from(s, c + 2, 46u8, q + 1));
        lemma_first_from(s, c + 2, 46u8, q + 1);
        assert(d =~= seq![s[q]]);
        assert(d.drop_last() =~= Seq::<u8>::empty());
        assert(digits_value(Seq::<u8>::empty()) == 0);
        assert(digits_value(d) == digit_value(s[q]));
    } else {
        assert(is_first_from(s, c + 2, 46u8, q + 2));
        lemma_first_from(s, c + 2, 46u8, q + 2);
        assert(d =~= seq![s[q], s[q + 1]]);
        assert(d.drop_last() =~= seq![s[q]]);
        assert(d.drop_last().drop_last() =~= Seq::<u8>::empty());
        assert(digits_value(Seq::<u8>::empty()) == 0);
        assert(digits_value(d.drop_last()) == digit_value(s[q]));
        assert(digits_value(d) == 10 * digit_value(s[q]) + digit_value(s[q + 1]));
    }
}

/// A short number read through a window of eight bytes that starts at it.
pub proof fn lemma_short_number_window(s: Seq<u8>, q: int, t: Seq<u8>)
    requires
        0 <= q,
        q + 8 <= s.len(),
        t == s.subrange(q, q + 8),
        short_number_at(s, q),
    ensures
        short_number_at(t, 0),
        short_number_dot(t, 0) == short_number_dot(s, q) - q,
        short_number_value(t, 0) == short_number_value(s, q),
{
    assert(t[0] == s[q]);
    assert(t[1] == s[q + 1]);
    assert(t[2] == s[q + 2]);
    assert(t[3] == s[q + 3]);
    assert(t[4] == s[q + 4]);
}

/// A region fit for the word-at-a-time scanner is a region.
pub proof fn lemma_fast_region_is_region(s: Seq<u8>, p: int, safe: int, end: int)
    requires
        fast_region_ok(s, p, safe, end),
    ensures
        region_ok(s, p, end),
    decreases region_measure(p, end),
{
    if p <= end {
        lemma_line_facts(s, p);
        lemma_fast_region_is_region(s, line_next(s, p), safe, end);
    }
}

/// The first line of a region fit for the word-at-a-time scanner.
pub proof fn lemma_fast_region_step(s: Seq<u8>, p: int, safe: int, end: int)
    requires
        fast_region_ok(s, p, safe, end),
        p <= end,
    ensures
        is_line(s, p),
        p < safe ==> is_short_line(s, p) && fast_readable(s, p),
        fast_region_ok(s, line_next(s, p), safe, end),
{
}

/// The statistics of a region stay within the sentinels.
pub proof fn lemma_region_stats_within(s: Seq<u8>, p: int, end: int, name: Seq<u8>)
    ensures
        within_sentinels(region_stats(s, p, end, name)),
        region_stats(s, p, end, name).count >= 0,
    decreases region_measure(p, end),
{
    if p <= end && is_line(s, p) {
        lemma_line_facts(s, p);
        lemma_region_stats_within(s, line_next(s, p), end, name);
    }
}

/// The names of a region are finitely many.
pub proof fn lemma_region_names_finite(s: Seq<u8>, p: int, end: int)
    ensures
        region_names(s, p, end).finite(),
    decreases region_measure(p, end),
{
    if p <= end && is_line(s, p) {
        lemma_line_facts(s, p);
        lemma_region_names_finite(s, line_next(s, p), end);
    }
}

/// A region's names at a later line are among its names.
pub proof fn lemma_region_names_step(s: Seq<u8>, p: int, end: int)
    requires
        region_ok(s, p, end),
        p <= end,
    ensures
        region_names(s, line_next(s, p), end).subset_of(region_names(s, p, end)),
        region_names(s, p, end).contains(line_name(s, p)),
{
    lemma_line_facts(s, p);
}

/// A station named in a region has a measurement there.
pub proof fn lemma_region_names_values(s: Seq<u8>, p: int, end: int, name: Seq<u8>)
    requires
        region_names(s, p, end).contains(name),
    ensures
        region_values(s, p, end, name).len() > 0,
    decreases region_measure(p, end),
{
    lemma_line_facts(s, p);
    if line_name(s, p) != name {
        lemma_region_names_values(s, line_next(s, p), end, name);
    }
}

/// Each start of a region is that of one of its lines, whose name is one
/// of the region's names, and which starts at or after `p`.
pub proof fn lemma_region_start_line(s: Seq<u8>, p: int, end: int, q: int)
    requires
        region_starts(s, p, end).contains(q),
    ensures
        is_line(s, q),
        p <= q <= end,
        region_names(s, p, end).contains(line_name(s, q)),
    decreases region_measure(p, end),
{
    lemma_line_facts(s, p);
    if q != p {
        lemma_region_start_line(s, line_next(s, p), end, q);
    }
}

/// Where reading lines from `p` goes past `end`: the start of the first
/// line after the last one that starts at or before `end`.
pub open spec fn region_resume(s: Seq<u8>, p: int, end: int) -> int
    decreases region_measure(p, end),
{
    if p > end || !is_line(s, p) {
        p
    } else {
        proof {
            lemma_line_facts(s, p);
        }
        region_resume(s, line_next(s, p), end)
    }
}

/// Cutting a region at the line boundary after `mid`: its lines are those
/// that start at or before `mid`, then those from the next line on, and so
/// are its statistics, names and starts.
pub proof fn lemma_region_split_at_line(s: Seq<u8>, p: int, mid: int, end: int, name: Seq<u8>)
    requires
        region_ok(s, p, end),
        mid <= end,
    ensures
        region_ok(s, region_resume(s, p, mid), end),
        region_stats(s, p, end, name) == merge_stats(
            region_stats(s, p, mid, name),
            region_stats(s, region_resume(s, p, mid), end, name),
        ),
        region_names(s, p, end) == region_names(s, p, mid) + region_names(s, region_resume(s, p, mid), end),
        region_starts(s, p, end) == region_starts(s, p, mid) + region_starts(s, region_resume(s, p, mid), end),
        region_values(s, p, end, name) == region_values(s, p, mid, name) + region_values(
            s,
            region_resume(s, p, mid),
            end,
            name,
        ),
    decreases region_measure(p, mid),
{
    if p > mid {
        lemma_region_stats_within(s, p, end, name);
        crate::record::lemma_merge_empty(region_stats(s, p, end, name));
        assert(region_names(s, p, end) =~= Set::<Seq<u8>>::empty() + region_names(s, p, end));
        assert(region_starts(s, p, end) =~= Set::<int>::empty() + region_starts(s, p, end));
        assert(region_values(s, p, end, name) =~= Seq::<int>::empty() + region_values(s, p, end, name));
    } else {
        lemma_line_facts(s, p);
        let n = line_next(s, p);
        lemma_region_split_at_line(s, n, mid, end, name);
        crate::record::lemma_merge_associative(
            single_stats(line_value(s, p)),
            region_stats(s, n, mid, name),
            region_stats(s, region_resume(s, n, mid), end, name),
        );
        assert(region_names(s, p, end) =~= region_names(s, p, mid) + region_names(s, region_resume(s, p, mid), end));
        assert(region_starts(s, p, end) =~= region_starts(s, p, mid) + region_starts(s, region_resume(s, p, mid), end));
        assert(region_values(s, p, end, name) =~= region_values(s, p, mid, name) + region_values(
            s,
            region_resume(s, p, mid),
            end,
            name,
        ));
    }
}

/// Each line from `p` that starts at or before `end` ends with a line end
/// and holds no other.
pub open spec fn newline_ended(s: Seq<u8>, p: int, end: int) -> bool
    decreases region_measure(p, end),
{
    if p > end || !is_line(s, p) {
        true
    } else {
        proof {
            lemma_line_facts(s, p);
        }
        &&& line_next(s, p) - 1 < s.len()
        &&& s[line_next(s, p) - 1] == 10u8
        &&& (forall|k: int| p <= k < line_next(s, p) - 1 ==> #[trigger] s[k] != 10u8)
        &&& newline_ended(s, line_next(s, p), end)
    }
}

/// Cutting a region of newline-ended lines at `mid`: its statistics are
/// those of its lines that start at or before `mid`, merged with those of
/// the lines from the first whole line after `mid`.
pub proof fn lemma_region_split(s: Seq<u8>, p: int, mid: int, end: int, name: Seq<u8>)
    requires
        region_ok(s, p, end),
        newline_ended(s, p, end),
        mid <= end,
        0 <= p,
        p <= mid || (has_from(s, mid, 10u8) && first_from(s, mid, 10u8) == p - 1),
    ensures
        has_from(s, mid, 10u8),
        region_ok(s, first_from(s, mid, 10u8) + 1, end),
        newline_ended(s, first_from(s, mid, 10u8) + 1, end),
        region_stats(s, p, end, name) == merge_stats(
            region_stats(s, p, mid, name),
            region_stats(s, first_from(s, mid, 10u8) + 1, end, name),
        ),
    decreases region_measure(p, mid),
{
    if p > mid {
        assert(region_stats(s, p, mid, name) == empty_stats());
        lemma_region_stats_within(s, p, end, name);
        crate::record::lemma_merge_empty(region_stats(s, p, end, name));
    } else {
        lemma_line_facts(s, p);
        let n = line_next(s, p);
        lemma_region_step(s, p, end, name);
        lemma_region_shrink(s, p, end, mid);
        lemma_region_step(s, p, mid, name);
        lemma_region_stats_within(s, n, end, name);
        if n <= mid {
            lemma_region_split(s, n, mid, end, name);
            crate::record::lemma_merge_associative(
                single_stats(line_value(s, p)),
                region_stats(s, n, mid, name),
                region_stats(s, first_from(s, mid, 10u8) + 1, end, name),
            );
        } else {
            assert(is_first_from(s, mid, 10u8, n - 1));
            lemma_first_from(s, mid, 10u8, n - 1);
            assert(region_stats(s, n, mid, name) == empty_stats());
            let r = region_stats(s, n, end, name);
            crate::record::lemma_merge_empty(r);
            crate::record::lemma_merge_associative(single_stats(line_value(s, p)), empty_stats(), r);
        }
    }
}

/// A region cut short at an earlier end is still a region, of
/// newline-ended lines if the whole was.
pub proof fn lemma_region_shrink(s: Seq<u8>, p: int, end: int, end2: int)
    requires
        region_ok(s, p, end),
        end2 <= end,
    ensures
        region_ok(s, p, end2),
        newline_ended(s, p, end) ==> newline_ended(s, p, end2),
    decreases region_measure(p, end2),
{
    if p <= end2 {
        lemma_line_facts(s, p);
        lemma_region_shrink(s, line_next(s, p), end, end2);
    }
}

/// Looking for `c` from a byte that is not `c` finds what looking from the
/// next byte finds.
pub proof fn lemma_first_from_skip(s: Seq<u8>, i: int, c: u8)
    requires
        has_from(s, i, c),
        s[i] != c,
    ensures
        has_from(s, i + 1, c),
        first_from(s, i + 1, c) == first_from(s, i, c),
{
    let f = first_from(s, i, c);
    assert(is_first_from(s, i, c, f));
    assert(is_first_from(s, i + 1, c, f));
    lemma_first_from(s, i + 1, c, f);
}

} // verus!
