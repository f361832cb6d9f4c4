use vstd::prelude::*;
use crate::record::{Stats, empty_stats};
use crate::number::digit_value;
use crate::lines::{
    is_line, is_first_from, has_from, first_from, lemma_first_from, line_semicolon, line_dot, line_value,
    line_name, line_next, lemma_line_facts, region_measure, region_stats, region_names, region_starts,
    lemma_region_start_line, region_ok, newline_ended,
};

verus! {

/// The line at `q` is a line whose decimal digit is followed by a line end,
/// and which holds no other line end before it.
pub open spec fn newline_line(s: Seq<u8>, q: int) -> bool {
    &&& is_line(s, q)
    &&& line_dot(s, q) + 2 < s.len()
    &&& s[line_dot(s, q) + 2] == 10u8
    &&& forall|k: int| q <= k < line_dot(s, q) + 2 ==> #[trigger] s[k] != 10u8
}

/// If byte `k` is a line end, such a line starts right after it.
pub open spec fn line_after(s: Seq<u8>, k: int) -> bool {
    s[k] == 10u8 ==> newline_line(s, k + 1)
}

/// From `p` to `end` the input is made of such lines: the line at `p`, and
/// every line that starts right after a line end before `end`.
pub open spec fn newline_lines(s: Seq<u8>, p: int, end: int) -> bool {
    &&& p <= end ==> newline_line(s, p)
    &&& forall|k: int| p <= k < end ==> #[trigger] line_after(s, k)
}

/// A line ends at the first line end after its start, and the next line
/// starts one byte past it.
pub proof fn lemma_next_line_after_line_end(s: Seq<u8>, p: int)
    requires
        newline_line(s, p),
    ensures
        has_from(s, p, 10u8),
        line_next(s, p) == first_from(s, p, 10u8) + 1,
        s[line_next(s, p) - 1] == 10u8,
        forall|k: int| p <= k < line_next(s, p) - 1 ==> #[trigger] s[k] != 10u8,
{
    lemma_line_facts(s, p);
    let d = line_dot(s, p);
    assert(is_first_from(s, p, 10u8, d + 2));
    lemma_first_from(s, p, 10u8, d + 2);
}

/// The rest of input made of lines, from the next line on, is made of lines.
pub proof fn lemma_newline_lines_step(s: Seq<u8>, p: int, end: int)
    requires
        newline_lines(s, p, end),
        p <= end,
    ensures
        newline_lines(s, line_next(s, p), end),
        line_next(s, p) > p,
{
    lemma_next_line_after_line_end(s, p);
    lemma_line_facts(s, p);
    let n = line_next(s, p);
    if n <= end {
        assert(s[n - 1] == 10u8);
        assert(line_after(s, n - 1));
    }
}

/// Input made of lines is read as lines, each ending with its own line end:
/// the hypotheses of the laws on regions hold of it.
pub proof fn lemma_newline_lines_are_region(s: Seq<u8>, p: int, end: int)
    requires
        newline_lines(s, p, end),
    ensures
        region_ok(s, p, end),
        newline_ended(s, p, end),
    decreases region_measure(p, end),
{
    if p <= end {
        lemma_next_line_after_line_end(s, p);
        lemma_newline_lines_step(s, p, end);
        lemma_newline_lines_are_region(s, line_next(s, p), end);
    }
}

/// In input made of lines, the lines read from `p` start exactly at `p`
/// and right after each line end before `end`.
pub proof fn lemma_region_starts_are_line_starts(s: Seq<u8>, p: int, end: int)
    requires
        0 <= p,
        newline_lines(s, p, end),
    ensures
        forall|q: int|
            #[trigger] region_starts(s, p, end).contains(q) <==> (q == p && p <= end) || (p < q <= end && s[q - 1]
                == 10u8),
    decreases region_measure(p, end),
{
    if p <= end {
        lemma_next_line_after_line_end(s, p);
        let n = line_next(s, p);
        assert(region_starts(s, p, end) == region_starts(s, n, end).insert(p));
        assert(newline_lines(s, n, end)) by {
            if n <= end {
                assert(s[n - 1] == 10u8);
                assert(line_after(s, n - 1));
            }
        }
        lemma_region_starts_are_line_starts(s, n, end);
        assert forall|q: int|
            #[trigger] region_starts(s, p, end).contains(q) <==> (q == p && p <= end) || (p < q <= end && s[q - 1]
                == 10u8) by {
            if p < q < n {
                assert(s[q - 1] != 10u8);
            }
        }
    }
}

/// In input made of lines, no station name read contains a line end, and a
/// name that contains one has no measurement.
pub proof fn lemma_names_hold_no_line_end(s: Seq<u8>, p: int, end: int, name: Seq<u8>)
    requires
        0 <= p,
        newline_lines(s, p, end),
    ensures
        region_names(s, p, end).contains(name) ==> forall|i: int| 0 <= i < name.len() ==> #[trigger] name[i] != 10u8,
        (exists|i: int| 0 <= i < name.len() && #[trigger] name[i] == 10u8) ==> region_stats(s, p, end, name)
            == empty_stats(),
    decreases region_measure(p, end),
{
    if p <= end {
        lemma_next_line_after_line_end(s, p);
        lemma_line_facts(s, p);
        let n = line_next(s, p);
        let nm = line_name(s, p);
        assert forall|i: int| 0 <= i < nm.len() implies #[trigger] nm[i] != 10u8 by {
            assert(nm[i] == s[p + i]);
        }
        assert(newline_lines(s, n, end)) by {
            if n <= end {
                assert(s[n - 1] == 10u8);
                assert(line_after(s, n - 1));
            }
        }
        lemma_names_hold_no_line_end(s, n, end, name);
        if exists|i: int| 0 <= i < name.len() && #[trigger] name[i] == 10u8 {
            let i = choose|i: int| 0 <= i < name.len() && #[trigger] name[i] == 10u8;
            assert(nm != name) by {
                if nm == name {
                    assert(nm[i] != 10u8);
                }
            }
        }
    }
}

/// Every line read in a region counts for its own station: its measurement
/// lies between that station's minimum and maximum, and the station has at
/// least one measurement.
pub proof fn lemma_each_line_counted(s: Seq<u8>, p: int, end: int, q: int)
    requires
        region_starts(s, p, end).contains(q),
    ensures
        region_stats(s, p, end, line_name(s, q)).count >= 1,
        region_stats(s, p, end, line_name(s, q)).min <= line_value(s, q) <= region_stats(
            s,
            p,
            end,
            line_name(s, q),
        ).max,
    decreases region_measure(p, end),
{
    lemma_line_facts(s, p);
    lemma_region_start_line(s, p, end, q);
    let n = line_next(s, p);
    if q != p {
        assert(region_starts(s, n, end).contains(q));
        lemma_region_start_line(s, n, end, q);
        lemma_each_line_counted(s, n, end, q);
        crate::lines::lemma_region_stats_within(s, n, end, line_name(s, q));
    } else {
        crate::lines::lemma_region_stats_within(s, n, end, line_name(s, q));
    }
}

/// The measurement of a line, read from its bytes: after the `;` an
/// optional `-`, then one or two digits, a `.` and one digit, in tenths.
pub proof fn lemma_line_value_from_bytes(s: Seq<u8>, p: int)
    requires
        is_line(s, p),
    ensures
        ({
            let c = line_semicolon(s, p);
            let neg = s[c + 1] == 45u8;
            let a = if neg { c + 2 } else { c + 1 };
            let one = digit_value(s[a]) * 10 + digit_value(s[a + 2]);
            let two = digit_value(s[a]) * 100 + digit_value(s[a + 1]) * 10 + digit_value(s[a + 3]);
            &&& (a + 2 < s.len() && 48 <= s[a] && s[a + 1] == 46u8) ==> line_value(s, p) == if neg {
                -one
            } else {
                one
            }
            &&& (a + 3 < s.len() && 48 <= s[a] && 48 <= s[a + 1] && s[a + 2] == 46u8) ==> line_value(s, p) == if neg {
                -two
            } else {
                two
            }
        }),
{
    lemma_line_facts(s, p);
    let c = line_semicolon(s, p);
    let neg = s[c + 1] == 45u8;
    let a = if neg { c + 2 } else { c + 1 };
    let d = crate::lines::line_int_digits(s, p);
    if a + 2 < s.len() && 48 <= s[a] && s[a + 1] == 46u8 {
        assert(is_first_from(s, c + 2, 46u8, a + 1));
        lemma_first_from(s, c + 2, 46u8, a + 1);
        assert(d =~= seq![s[a]]);
        assert(d.drop_last() =~= Seq::<u8>::empty());
        assert(crate::lines::digits_value(Seq::<u8>::empty()) == 0);
        assert(crate::lines::digits_value(d) == digit_value(s[a]));
    }
    if a + 3 < s.len() && 48 <= s[a] && 48 <= s[a + 1] && s[a + 2] == 46u8 {
        assert(is_first_from(s, c + 2, 46u8, a + 2));
        lemma_first_from(s, c + 2, 46u8, a + 2);
        assert(d =~= seq![s[a], s[a + 1]]);
        assert(d.drop_last() =~= seq![s[a]]);
        assert(d.drop_last().drop_last() =~= Seq::<u8>::empty());
        assert(crate::lines::digits_value(Seq::<u8>::empty()) == 0);
        assert(crate::lines::digits_value(d.drop_last()) == digit_value(s[a]));
        assert(crate::lines::digits_value(d) == 10 * digit_value(s[a]) + digit_value(s[a + 1]));
        assert(line_dot(s, p) == a + 2);
        assert(crate::lines::line_magnitude(s, p) == (10 * digit_value(s[a]) + digit_value(s[a + 1])) * 10
            + digit_value(s[a + 3]));
        assert(crate::lines::line_magnitude(s, p) == digit_value(s[a]) * 100 + digit_value(s[a + 1]) * 10
            + digit_value(s[a + 3]));
    }
}

} // verus!
