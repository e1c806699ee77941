//! The freshness ranges puzzle: inclusive `u64` ranges, a count of the
//! numbers that fall inside some range, and the total amount of numbers
//! covered by a union of ranges.

use vstd::prelude::*;

verus! {

use vstd::set_lib::{set_int_range, lemma_int_range, lemma_len_subset};
use crate::parsing::{all_digits, digits_val, chars_of, split_lines, split_chars, spec_split,
    spec_lines, parse_u64};

/// An inclusive range of numbers.
#[derive(Debug, Clone, Copy)]
pub struct Range {
    pub start: u64,
    pub end: u64,
}

/// Some range of `list` holds `x`.
pub open spec fn covered(list: Seq<Range>, x: int) -> bool {
    exists|i: int| 0 <= i < list.len() && (#[trigger] list[i]).start <= x <= list[i].end
}

/// All numbers held by some range of `list`.
pub open spec fn covered_set(list: Seq<Range>) -> Set<int> {
    Set::new(|x: int| covered(list, x))
}

/// Starts never decrease along the list.
pub open spec fn sorted_by_start(list: Seq<Range>) -> bool {
    forall|i: int, j: int| 0 <= i < j < list.len() ==> (#[trigger] list[i]).start <= (
    #[trigger] list[j]).start
}

/// Every range runs forward.
pub open spec fn ranges_valid(list: Seq<Range>) -> bool {
    forall|i: int| 0 <= i < list.len() ==> (#[trigger] list[i]).start <= list[i].end
}

impl Range {
    /// A range from its two bounds.
    pub fn new(start: u64, end: u64) -> (r: Range)
        ensures
            r.start == start,
            r.end == end,
    {
        Range { start, end }
    }

    /// Joins two ranges that share at least one number; `None` exactly
    /// when they are disjoint.
    pub fn merge(&self, other: &Range) -> (r: Option<Range>)
        ensures
            r is Some <==> !(self.end < other.start || other.end < self.start),
            r is Some ==> r->Some_0.start == if self.start <= other.start {
                self.start
            } else {
                other.start
            },
            r is Some ==> r->Some_0.end == if self.end >= other.end {
                self.end
            } else {
                other.end
            },
    {
        if self.end < other.start || other.end < self.start {
            None
        } else {
            Some(
                Range::new(
                    if self.start <= other.start {
                        self.start
                    } else {
                        other.start
                    },
                    if self.end >= other.end {
                        self.end
                    } else {
                        other.end
                    },
                ),
            )
        }
    }

    /// Orders ranges by their start.
    pub fn cmp(&self, other: &Range) -> (r: core::cmp::Ordering)
        ensures
            r is Less <==> self.start < other.start,
            r is Equal <==> self.start == other.start,
            r is Greater <==> self.start > other.start,
    {
        if self.start < other.start {
            core::cmp::Ordering::Less
        } else if self.start == other.start {
            core::cmp::Ordering::Equal
        } else {
            core::cmp::Ordering::Greater
        }
    }
}

/// `number` falls inside one of the listed inclusive pairs.
pub fn is_fresh(number: u64, list: &Vec<(u64, u64)>) -> (r: bool)
    ensures
        r == exists|i: int|
            0 <= i < list@.len() && (#[trigger] list@[i]).0 <= number && number <= list@[i].1,
{
    let mut i: usize = 0;
    while i < list.len()
        invariant
            i <= list@.len(),
            forall|k: int| 0 <= k < i ==> !((#[trigger] list@[k]).0 <= number && number <= list@[k].1),
        decreases list@.len() - i,
    {
        if number >= list[i].0 && number <= list[i].1 {
            return true;
        }
        i = i + 1;
    }
    false
}

/// How many of `fruits` fall inside some pair of `list`.
pub open spec fn count_fresh(fruits: Seq<u64>, list: Seq<(u64, u64)>) -> int
    decreases fruits.len(),
{
    if fruits.len() == 0 {
        0
    } else {
        count_fresh(fruits.drop_last(), list) + (if exists|i: int|
            0 <= i < list.len() && (#[trigger] list[i]).0 <= fruits.last() <= list[i].1 {
            1int
        } else {
            0int
        })
    }
}

proof fn lemma_count_fresh_bounds(fruits: Seq<u64>, list: Seq<(u64, u64)>)
    ensures
        0 <= count_fresh(fruits, list) <= fruits.len(),
    decreases fruits.len(),
{
    if fruits.len() > 0 {
        lemma_count_fresh_bounds(fruits.drop_last(), list);
    }
}

/// Counts the fruits that fall inside some listed pair.
pub fn number_fresh(fruits: Vec<u64>, list: &Vec<(u64, u64)>) -> (r: u64)
    ensures
        r == count_fresh(fruits@, list@),
{
    let mut count: u64 = 0;
    let mut i: usize = 0;
    while i < fruits.len()
        invariant
            i <= fruits@.len(),
            count == count_fresh(fruits@.take(i as int), list@),
            count <= i,
        decreases fruits@.len() - i,
    {
        proof {
            assert(fruits@.take(i + 1).drop_last() =~= fruits@.take(i as int));
            lemma_count_fresh_bounds(fruits@.take(i + 1), list@);
        }
        if is_fresh(fruits[i], list) {
            count = count + 1;
        }
        i = i + 1;
    }
    proof {
        assert(fruits@.take(fruits@.len() as int) =~= fruits@);
    }
    count
}

/// The numbers covered by disjoint, forward ranges in chained order form
/// a finite set as large as the ranges' sizes added up.
proof fn lemma_chained_card(list: Seq<Range>)
    requires
        ranges_valid(list),
        forall|j: int, k: int| 0 <= j < k < list.len() ==> (#[trigger] list[j]).end < (
        #[trigger] list[k]).start,
    ensures
        covered_set(list).finite(),
        covered_set(list).len() == sum_sizes(list),
    decreases list.len(),
{
    if list.len() == 0 {
        assert(covered_set(list) =~= Set::<int>::empty());
    } else {
        let head = list.drop_last();
        let last = list.last();
        lemma_chained_card(head);
        let piece = set_int_range(last.start as int, last.end + 1);
        lemma_int_range(last.start as int, last.end + 1);
        assert(covered_set(list) =~= covered_set(head) + piece) by {
            assert forall|x: int| covered(list, x) implies covered_set(head).contains(x)
                || piece.contains(x) by {
                let i = choose|i: int| 0 <= i < list.len() && (#[trigger] list[i]).start <= x
                    <= list[i].end;
                if i < list.len() - 1 {
                    assert(head[i] == list[i]);
                    assert(head[i].start <= x <= head[i].end);
                    assert(covered(head, x));
                }
            }
            assert forall|x: int| covered(head, x) implies covered(list, x) by {
                let i = choose|i: int| 0 <= i < head.len() && (#[trigger] head[i]).start <= x
                    <= head[i].end;
                assert(list[i].start <= x <= list[i].end);
            }
            assert forall|x: int| piece.contains(x) implies covered(list, x) by {
                assert(list[list.len() - 1].start <= x <= list[list.len() - 1].end);
            }
        }
        assert(covered_set(head).disjoint(piece)) by {
            assert forall|x: int| covered_set(head).contains(x) implies !piece.contains(x) by {
                let i = choose|i: int| 0 <= i < head.len() && (#[trigger] head[i]).start <= x
                    <= head[i].end;
                assert(list[i].end < last.start);
            }
        }
        vstd::set_lib::lemma_set_disjoint_lens(covered_set(head), piece);
    }
}

/// Sizes of the ranges added up, each counted inclusively.
pub open spec fn sum_sizes(list: Seq<Range>) -> int
    decreases list.len(),
{
    if list.len() == 0 {
        0
    } else {
        sum_sizes(list.drop_last()) + (list.last().end - list.last().start + 1)
    }
}

/// Amount of numbers covered by the union of the ranges, which must come
/// sorted by start; overlapping ranges are merged along the sweep.
pub fn number_range_sorted(list: Vec<Range>) -> (r: u64)
    requires
        list@.len() >= 1,
        sorted_by_start(list@),
        ranges_valid(list@),
        covered_set(list@).len() <= u64::MAX,
    ensures
        covered_set(list@).finite(),
        r == covered_set(list@).len(),
{
    let ghost whole = list@;
    let mut merged: Vec<Range> = Vec::new();
    merged.push(list[0]);
    let mut i: usize = 1;
    proof {
        assert forall|x: int| covered(merged@, x) implies covered(whole.take(1), x) by {
            assert(whole.take(1)[0] == merged@[0]);
        }
        assert forall|x: int| covered(whole.take(1), x) implies covered(merged@, x) by {
            assert(merged@[0] == whole.take(1)[0]);
        }
    }
    while i < list.len()
        invariant
            1 <= i <= whole.len(),
            list@ == whole,
            sorted_by_start(whole),
            ranges_valid(whole),
            merged@.len() >= 1,
            ranges_valid(merged@),
            forall|j: int, k: int| 0 <= j < k < merged@.len() ==> (#[trigger] merged@[j]).end < (
            #[trigger] merged@[k]).start,
            exists|j: int| 0 <= j < i && merged@.last().start == (#[trigger] whole[j]).start,
            forall|x: int| covered(merged@, x) == covered(whole.take(i as int), x),
        decreases whole.len() - i,
    {
        let ghost old_merged = merged@;
        let date = list[i];
        let last = merged[merged.len() - 1];
        proof {
            let j = choose|j: int| 0 <= j < i && old_merged.last().start == (
            #[trigger] whole[j]).start;
            assert(last.start <= date.start);
        }
        match last.merge(&date) {
            None => {
                proof {
                    assert(last.end < date.start);
                }
                merged.push(date);
                proof {
                    assert forall|x: int| covered(merged@, x) implies covered(
                        whole.take(i + 1),
                        x,
                    ) by {
                        let k = choose|k: int|
                            0 <= k < merged@.len() && (#[trigger] merged@[k]).start <= x
                                <= merged@[k].end;
                        if k < merged@.len() - 1 {
                            assert(covered(old_merged, x));
                            let k2 = choose|k2: int|
                                0 <= k2 < old_merged.len() && (#[trigger] old_merged[k2]).start
                                    <= x <= old_merged[k2].end;
                            assert(covered(whole.take(i as int), x));
                            let j2 = choose|j2: int|
                                0 <= j2 < i && (#[trigger] whole[j2]).start <= x <= whole[j2].end;
                            assert(whole.take(i + 1)[j2] == whole[j2]);
                        } else {
                            assert(whole.take(i + 1)[i as int] == date);
                        }
                    }
                    assert forall|x: int| covered(whole.take(i + 1), x) implies covered(
                        merged@,
                        x,
                    ) by {
                        let j2 = choose|j2: int|
                            0 <= j2 < i + 1 && (#[trigger] whole.take(i + 1)[j2]).start <= x
                                <= whole.take(i + 1)[j2].end;
                        if j2 < i {
                            assert(whole.take(i as int)[j2] == whole.take(i + 1)[j2]);
                            assert(covered(whole.take(i as int), x));
                            assert(covered(old_merged, x));
                            let k2 = choose|k2: int|
                                0 <= k2 < old_merged.len() && (#[trigger] old_merged[k2]).start
                                    <= x <= old_merged[k2].end;
                            assert(merged@[k2] == old_merged[k2]);
                            assert(merged@[k2].start <= x <= merged@[k2].end);
                        } else {
                            assert(merged@[merged@.len() - 1].start <= x <= merged@[merged@.len()
                                - 1].end);
                        }
                    }
                }
            },
            Some(m) => {
                merged.pop();
                merged.push(m);
                proof {
                    assert(merged@.len() == old_merged.len());
                    assert forall|x: int| covered(merged@, x) implies covered(
                        whole.take(i + 1),
                        x,
                    ) by {
                        let k = choose|k: int|
                            0 <= k < merged@.len() && (#[trigger] merged@[k]).start <= x
                                <= merged@[k].end;
                        if k < merged@.len() - 1 {
                            assert(old_merged[k].start <= x <= old_merged[k].end);
                            assert(covered(old_merged, x));
                            assert(covered(whole.take(i as int), x));
                            let j2 = choose|j2: int|
                                0 <= j2 < i && (#[trigger] whole[j2]).start <= x <= whole[j2].end;
                            assert(whole.take(i + 1)[j2] == whole[j2]);
                        } else {
                            // inside the merged interval: on the old last
                            // range's side or on the new range's side
                            if x <= last.end && x >= last.start {
                                assert(covered(old_merged, x)) by {
                                    assert(old_merged[old_merged.len() - 1].start <= x
                                        <= old_merged[old_merged.len() - 1].end);
                                }
                                assert(covered(whole.take(i as int), x));
                                let j2 = choose|j2: int|
                                    0 <= j2 < i && (#[trigger] whole[j2]).start <= x
                                        <= whole[j2].end;
                                assert(whole.take(i + 1)[j2] == whole[j2]);
                            } else {
                                assert(date.start <= x <= date.end);
                                assert(whole.take(i + 1)[i as int] == date);
                            }
                        }
                    }
                    assert forall|x: int| covered(whole.take(i + 1), x) implies covered(
                        merged@,
                        x,
                    ) by {
                        let j2 = choose|j2: int|
                            0 <= j2 < i + 1 && (#[trigger] whole.take(i + 1)[j2]).start <= x
                                <= whole.take(i + 1)[j2].end;
                        if j2 < i {
                            assert(whole.take(i as int)[j2] == whole.take(i + 1)[j2]);
                            assert(covered(whole.take(i as int), x));
                            assert(covered(old_merged, x));
                            let k2 = choose|k2: int|
                                0 <= k2 < old_merged.len() && (#[trigger] old_merged[k2]).start
                                    <= x <= old_merged[k2].end;
                            if k2 < old_merged.len() - 1 {
                                assert(merged@[k2].start <= x <= merged@[k2].end);
                            } else {
                                assert(merged@[merged@.len() - 1].start <= x <= merged@[
                                merged@.len() - 1].end);
                            }
                        } else {
                            assert(whole.take(i + 1)[j2] == date);
                            assert(merged@[merged@.len() - 1].start <= x <= merged@[merged@.len()
                                - 1].end);
                        }
                    }
                }
            },
        }
        i = i + 1;
    }
    proof {
        assert(whole.take(whole.len() as int) =~= whole);
        assert(covered_set(merged@) =~= covered_set(whole));
        lemma_chained_card(merged@);
    }

    let ghost final_merged = merged@;
    let mut acc: u64 = 0;
    let mut k: usize = 0;
    while k < merged.len()
        invariant
            k <= final_merged.len(),
            merged@ == final_merged,
            ranges_valid(final_merged),
            forall|j2: int, k2: int| 0 <= j2 < k2 < final_merged.len() ==> (
            #[trigger] final_merged[j2]).end < (#[trigger] final_merged[k2]).start,
            covered_set(final_merged).len() <= u64::MAX,
            covered_set(final_merged).finite(),
            acc == sum_sizes(final_merged.take(k as int)),
        decreases final_merged.len() - k,
    {
        proof {
            assert(final_merged.take(k + 1).drop_last() =~= final_merged.take(k as int));
            lemma_chained_card(final_merged.take(k + 1));
            lemma_chained_card(final_merged);
            assert(covered_set(final_merged.take(k + 1)) <= covered_set(final_merged)) by {
                assert forall|x: int| covered(final_merged.take(k + 1), x) implies covered(
                    final_merged,
                    x,
                ) by {
                    let j2 = choose|j2: int|
                        0 <= j2 < k + 1 && (#[trigger] final_merged.take(k + 1)[j2]).start <= x
                            <= final_merged.take(k + 1)[j2].end;
                    assert(final_merged[j2].start <= x <= final_merged[j2].end);
                }
            }
            lemma_len_subset(covered_set(final_merged.take(k + 1)), covered_set(final_merged));
        }
        let d = merged[k];
        acc = acc + (d.end - d.start + 1);
        k = k + 1;
    }
    proof {
        assert(final_merged.take(final_merged.len() as int) =~= final_merged);
    }
    acc
}

/// Lists with the same ranges cover the same numbers.
proof fn lemma_multiset_covered(a: Seq<Range>, b: Seq<Range>)
    requires
        a.to_multiset() == b.to_multiset(),
    ensures
        forall|x: int| covered(a, x) == covered(b, x),
{
    broadcast use vstd::seq_lib::group_to_multiset_ensures;

    assert forall|x: int| covered(a, x) implies covered(b, x) by {
        let i = choose|i: int| 0 <= i < a.len() && (#[trigger] a[i]).start <= x <= a[i].end;
        assert(a.contains(a[i]));
        assert(b.to_multiset().count(a[i]) > 0);
        assert(b.contains(a[i]));
        let j = choose|j: int| 0 <= j < b.len() && b[j] == a[i];
        assert(b[j].start <= x <= b[j].end);
    }
    assert forall|x: int| covered(b, x) implies covered(a, x) by {
        let i = choose|i: int| 0 <= i < b.len() && (#[trigger] b[i]).start <= x <= b[i].end;
        assert(b.contains(b[i]));
        assert(a.to_multiset().count(b[i]) > 0);
        assert(a.contains(b[i]));
        let j = choose|j: int| 0 <= j < a.len() && a[j] == b[i];
        assert(a[j].start <= x <= a[j].end);
    }
}

/// The same ranges, ordered by start.
pub fn sort_ranges(list: &Vec<Range>) -> (r: Vec<Range>)
    ensures
        sorted_by_start(r@),
        r@.to_multiset() == list@.to_multiset(),
        r@.len() == list@.len(),
        forall|x: int| covered(r@, x) == covered(list@, x),
        ranges_valid(list@) ==> ranges_valid(r@),
{
    broadcast use vstd::seq_lib::group_to_multiset_ensures;

    let mut out: Vec<Range> = Vec::new();
    let mut i: usize = 0;
    proof {
        assert(list@.take(0) =~= Seq::<Range>::empty());
    }
    while i < list.len()
        invariant
            i <= list@.len(),
            sorted_by_start(out@),
            out@.len() == i,
            out@.to_multiset() == list@.take(i as int).to_multiset(),
        decreases list@.len() - i,
    {
        let x = list[i];
        let mut p: usize = 0;
        while p < out.len() && out[p].start <= x.start
            invariant
                p <= out@.len(),
                forall|k: int| 0 <= k < p ==> (#[trigger] out@[k]).start <= x.start,
            decreases out@.len() - p,
        {
            p = p + 1;
        }
        let ghost old_out = out@;
        out.insert(p, x);
        proof {
            broadcast use vstd::seq_lib::group_to_multiset_ensures;

            assert(out@ == old_out.insert(p as int, x));
            assert(old_out.insert(p as int, x).to_multiset() == old_out.to_multiset().insert(x));
            assert(list@.take(i + 1) =~= list@.take(i as int).push(x));
            assert(list@.take(i as int).push(x).to_multiset() =~= list@.take(
                i as int,
            ).to_multiset().insert(x));
            assert forall|a: int, b: int| 0 <= a < b < out@.len() implies (
            #[trigger] out@[a]).start <= (#[trigger] out@[b]).start by {
                if b < p {
                    assert(out@[a] == old_out[a] && out@[b] == old_out[b]);
                } else if a > p {
                    assert(out@[a] == old_out[a - 1] && out@[b] == old_out[b - 1]);
                } else if a < p && b == p {
                    assert(out@[a] == old_out[a]);
                } else if a == p && b > p {
                    assert(out@[b] == old_out[b - 1]);
                    assert(old_out[p as int].start > x.start || p == old_out.len());
                    if (b - 1) > p {
                        assert(old_out[p as int].start <= old_out[b - 1].start);
                    }
                } else if a < p && b > p {
                    assert(out@[a] == old_out[a] && out@[b] == old_out[b - 1]);
                }
            }
        }
        i = i + 1;
    }
    proof {
        assert(list@.take(list@.len() as int) =~= list@);
        lemma_multiset_covered(out@, list@);
        if ranges_valid(list@) {
            assert forall|k: int| 0 <= k < out@.len() implies (#[trigger] out@[k]).start
                <= out@[k].end by {
                assert(out@.contains(out@[k]));
                assert(list@.to_multiset().count(out@[k]) > 0);
                assert(list@.contains(out@[k]));
                let j = choose|j: int| 0 <= j < list@.len() && list@[j] == out@[k];
            }
        }
    }
    out
}

/// A range line such as `3-5`: two numbers split by a dash; anything
/// after a second dash is ignored.
pub open spec fn wf_range_line(line: Seq<char>) -> bool {
    let parts = spec_split(line, '-');
    &&& parts.len() >= 2
    &&& parts[0].len() > 0 && all_digits(parts[0]) && digits_val(parts[0]) <= u64::MAX
    &&& parts[1].len() > 0 && all_digits(parts[1]) && digits_val(parts[1]) <= u64::MAX
}

/// The range a well-formed line describes.
pub open spec fn spec_range_line(line: Seq<char>) -> Range {
    let parts = spec_split(line, '-');
    Range { start: digits_val(parts[0]) as u64, end: digits_val(parts[1]) as u64 }
}

/// The ranges of a whole input, one per line.
pub open spec fn spec_ranges(s: Seq<char>) -> Seq<Range> {
    spec_lines(s).map_values(|line: Seq<char>| spec_range_line(line))
}

/// Reads one range line; fails exactly on lines the grammar refuses.
pub(crate) fn parse_range_line(line: &Vec<char>) -> (r: Option<Range>)
    ensures
        r is Some <==> wf_range_line(line@),
        r is Some ==> r->Some_0 == spec_range_line(line@),
{
    let parts = split_chars(line, '-');
    proof {
        assert forall|k: int| 0 <= k < parts@.len() implies (#[trigger] parts@[k])@ == spec_split(
            line@,
            '-',
        )[k] by {
            assert(parts@.map_values(|p: Vec<char>| p@)[k] == spec_split(line@, '-')[k]);
        }
    }
    if parts.len() < 2 {
        return None;
    }
    let start = match parse_u64(&parts[0]) {
        None => {
            return None;
        },
        Some(v) => v,
    };
    let end = match parse_u64(&parts[1]) {
        None => {
            return None;
        },
        Some(v) => v,
    };
    Some(Range { start, end })
}

/// Total amount of numbers covered by the ranges of the input, one range
/// per line. Fails exactly when some line is not a range line; the input
/// must describe at least one forward range whose union fits a count.
pub fn number_range_string(string: String) -> (r: Option<u64>)
    requires
        (forall|li: int|
            0 <= li < spec_lines(string@).len() ==> wf_range_line(
                #[trigger] spec_lines(string@)[li],
            )) ==> {
            &&& spec_lines(string@).len() >= 1
            &&& ranges_valid(spec_ranges(string@))
            &&& covered_set(spec_ranges(string@)).len() <= u64::MAX
        },
    ensures
        r is Some <==> (forall|li: int|
            0 <= li < spec_lines(string@).len() ==> wf_range_line(
                #[trigger] spec_lines(string@)[li],
            )),
        r is Some ==> r->Some_0 == covered_set(spec_ranges(string@)).len(),
{
    let cs = chars_of(string.as_str());
    let lines = split_lines(&cs);
    let ghost lns = spec_lines(string@);
    proof {
        assert forall|k: int| 0 <= k < lines@.len() implies (#[trigger] lines@[k])@ == lns[k] by {
            assert(lines@.map_values(|p: Vec<char>| p@)[k] == lns[k]);
        }
    }
    let mut dates: Vec<Range> = Vec::new();
    let mut li: usize = 0;
    while li < lines.len()
        invariant
            li <= lines@.len() == lns.len(),
            lns == spec_lines(string@),
            forall|k: int| 0 <= k < lines@.len() ==> (#[trigger] lines@[k])@ == lns[k],
            dates@.len() == li,
            forall|k: int| 0 <= k < li ==> wf_range_line(#[trigger] lns[k]),
            forall|k: int| 0 <= k < li ==> #[trigger] dates@[k] == spec_range_line(lns[k]),
        decreases lines@.len() - li,
    {
        match parse_range_line(&lines[li]) {
            None => {
                proof {
                    assert(!wf_range_line(lns[li as int]));
                }
                return None;
            },
            Some(rg) => {
                dates.push(rg);
            },
        }
        li = li + 1;
    }
    proof {
        assert(dates@ =~= spec_ranges(string@));
        assert forall|k: int| 0 <= k < lns.len() implies wf_range_line(#[trigger] lns[k]) by {
            assert(dates@[k] == spec_range_line(lns[k]));
        }
    }
    let sorted = sort_ranges(&dates);
    proof {
        assert(covered_set(sorted@) =~= covered_set(dates@));
    }
    let total = number_range_sorted(sorted);
    proof {
        assert(covered_set(sorted@) =~= covered_set(spec_ranges(string@)));
    }
    Some(total)
}

/// A blank line in carriage-return form starts at `i`.
pub open spec fn has_sep_at(s: Seq<char>, i: int) -> bool {
    &&& i + 4 <= s.len()
    &&& s[i] == '\r'
    &&& s[i + 1] == '\n'
    &&& s[i + 2] == '\r'
    &&& s[i + 3] == '\n'
}

/// Position of the first blank line at or after `i`, or `-1`.
pub open spec fn first_sep_from(s: Seq<char>, i: int) -> int
    decreases s.len() - i,
{
    if i < 0 || i + 4 > s.len() {
        -1
    } else if has_sep_at(s, i) {
        i
    } else {
        first_sep_from(s, i + 1)
    }
}

/// The pair a well-formed range line describes.
pub open spec fn spec_pair_line(line: Seq<char>) -> (u64, u64) {
    (spec_range_line(line).start, spec_range_line(line).end)
}

/// The date pairs of the first file section.
pub open spec fn spec_date_pairs(sec: Seq<char>) -> Seq<(u64, u64)> {
    spec_lines(sec).map_values(|line: Seq<char>| spec_pair_line(line))
}

/// A line holding one number that fits a `u64`.
pub open spec fn wf_num_line(line: Seq<char>) -> bool {
    line.len() > 0 && all_digits(line) && digits_val(line) <= u64::MAX
}

/// The fruit numbers of the second file section.
pub open spec fn spec_fruits(sec: Seq<char>) -> Seq<u64> {
    spec_lines(sec).map_values(|line: Seq<char>| digits_val(line) as u64)
}

/// The two sections of the file: date ranges, a blank line, fruits.
pub open spec fn wf_fresh_file(s: Seq<char>) -> bool {
    let sep = first_sep_from(s, 0);
    &&& sep >= 0
    &&& forall|k: int|
        0 <= k < spec_lines(s.take(sep)).len() ==> wf_range_line(
            #[trigger] spec_lines(s.take(sep))[k],
        )
    &&& forall|k: int|
        0 <= k < spec_lines(s.skip(sep + 4)).len() ==> wf_num_line(
            #[trigger] spec_lines(s.skip(sep + 4))[k],
        )
}

/// Counts the fruits of the second section that fall inside some date
/// range of the first. Fails exactly when the blank line is missing or a
/// line of either section does not parse.
pub fn check_file(contents: &str) -> (r: Option<u64>)
    ensures
        r is Some <==> wf_fresh_file(contents@),
        r is Some ==> r->Some_0 == count_fresh(
            spec_fruits(contents@.skip(first_sep_from(contents@, 0) + 4)),
            spec_date_pairs(contents@.take(first_sep_from(contents@, 0))),
        ),
{
    let cs = chars_of(contents);
    let n = cs.len();
    let mut i: usize = 0;
    let mut found = false;
    while !found && i < n && n - i >= 4
        invariant
            0 <= i <= n == cs@.len(),
            cs@ == contents@,
            !found ==> first_sep_from(cs@, 0) == first_sep_from(cs@, i as int),
            found ==> first_sep_from(cs@, 0) == i && has_sep_at(cs@, i as int),
        decreases n - i + (if found {
            0int
        } else {
            1int
        }),
    {
        if cs[i] == '\r' && cs[i + 1] == '\n' && cs[i + 2] == '\r' && cs[i + 3] == '\n' {
            found = true;
        } else {
            i = i + 1;
        }
    }
    if !found {
        proof {
            assert(first_sep_from(cs@, i as int) == -1);
        }
        return None;
    }
    let ghost sep = first_sep_from(contents@, 0);
    assert(sep == i);

    let mut dates_cs: Vec<char> = Vec::new();
    let mut k: usize = 0;
    while k < i
        invariant
            k <= i <= cs@.len(),
            cs@ == contents@,
            dates_cs@ =~= cs@.take(i as int).take(k as int),
        decreases i - k,
    {
        dates_cs.push(cs[k]);
        proof {
            assert(dates_cs@ =~= cs@.take(i as int).take(k + 1));
        }
        k = k + 1;
    }
    proof {
        assert(dates_cs@ =~= cs@.take(i as int));
    }
    let mut fruits_cs: Vec<char> = Vec::new();
    let mut k2: usize = i + 4;
    while k2 < n
        invariant
            i + 4 <= k2 <= n == cs@.len(),
            cs@ == contents@,
            fruits_cs@ =~= cs@.skip(i + 4).take(k2 - i - 4),
        decreases n - k2,
    {
        fruits_cs.push(cs[k2]);
        proof {
            assert(fruits_cs@ =~= cs@.skip(i + 4).take(k2 + 1 - i - 4));
        }
        k2 = k2 + 1;
    }
    proof {
        assert(fruits_cs@ =~= cs@.skip(i + 4));
    }

    let date_lines = split_lines(&dates_cs);
    let ghost dlns = spec_lines(contents@.take(sep));
    proof {
        assert forall|k3: int| 0 <= k3 < date_lines@.len() implies (#[trigger] date_lines@[k3])@
            == dlns[k3] by {
            assert(date_lines@.map_values(|p: Vec<char>| p@)[k3] == dlns[k3]);
        }
    }
    let mut pairs: Vec<(u64, u64)> = Vec::new();
    let mut li: usize = 0;
    while li < date_lines.len()
        invariant
            li <= date_lines@.len() == dlns.len(),
            dlns == spec_lines(contents@.take(sep)),
            sep == first_sep_from(contents@, 0),
            forall|k3: int| 0 <= k3 < date_lines@.len() ==> (#[trigger] date_lines@[k3])@
                == dlns[k3],
            pairs@.len() == li,
            forall|k3: int| 0 <= k3 < li ==> wf_range_line(#[trigger] dlns[k3]),
            forall|k3: int| 0 <= k3 < li ==> #[trigger] pairs@[k3] == spec_pair_line(dlns[k3]),
        decreases date_lines@.len() - li,
    {
        match parse_range_line(&date_lines[li]) {
            None => {
                proof {
                    assert(!wf_range_line(dlns[li as int]));
                }
                return None;
            },
            Some(rg) => {
                pairs.push((rg.start, rg.end));
            },
        }
        li = li + 1;
    }
    proof {
        assert(pairs@ =~= spec_date_pairs(contents@.take(sep)));
    }

    let fruit_lines = split_lines(&fruits_cs);
    let ghost flns = spec_lines(contents@.skip(sep + 4));
    proof {
        assert forall|k3: int| 0 <= k3 < fruit_lines@.len() implies (
        #[trigger] fruit_lines@[k3])@ == flns[k3] by {
            assert(fruit_lines@.map_values(|p: Vec<char>| p@)[k3] == flns[k3]);
        }
    }
    let mut fruits: Vec<u64> = Vec::new();
    let mut fi: usize = 0;
    while fi < fruit_lines.len()
        invariant
            fi <= fruit_lines@.len() == flns.len(),
            flns == spec_lines(contents@.skip(sep + 4)),
            sep == first_sep_from(contents@, 0),
            forall|k3: int| 0 <= k3 < fruit_lines@.len() ==> (#[trigger] fruit_lines@[k3])@
                == flns[k3],
            fruits@.len() == fi,
            forall|k3: int| 0 <= k3 < fi ==> wf_num_line(#[trigger] flns[k3]),
            forall|k3: int|
                0 <= k3 < fi ==> #[trigger] fruits@[k3] == digits_val(flns[k3]) as u64,
        decreases fruit_lines@.len() - fi,
    {
        match parse_u64(&fruit_lines[fi]) {
            None => {
                proof {
                    assert(!wf_num_line(flns[fi as int]));
                }
                return None;
            },
            Some(v) => {
                fruits.push(v);
            },
        }
        fi = fi + 1;
    }
    proof {
        assert(fruits@ =~= spec_fruits(contents@.skip(sep + 4)));
        assert(wf_fresh_file(contents@));
    }
    Some(number_fresh(fruits, &pairs))
}

} // verus!
