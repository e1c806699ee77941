//! The corrupt identifier puzzle: a number is corrupt when its decimal
//! writing is one block of digits repeated, with a cap on how many copies
//! count. Ranges of numbers are summed or counted by that test.

use vstd::prelude::*;

verus! {

use crate::parsing::{digits_of, chars_of, spec_split, all_digits, digits_val};
use crate::fresh::{wf_range_line, spec_range_line, parse_range_line};

/// What the matcher is doing: still building the candidate block, or
/// checking copies of it.
#[derive(Clone)]
pub enum ParsingState {
    Creating,
    Matching,
}

/// The matcher's working state: the candidate block, how far into it the
/// current copy runs, how many complete copies were seen, and the cap.
#[derive(Clone)]
pub struct MatchingData {
    pub pattern: String,
    pub index: usize,
    pub count: u32,
    pub count_max: u32,
    pub state: ParsingState,
}

impl MatchingData {
    /// A fresh matcher that accepts up to `max` copies after the first.
    pub fn new(max: u32) -> (r: MatchingData)
        ensures
            r.pattern@.len() == 0,
            r.index == 0,
            r.count == 0,
            r.count_max == max,
            r.state is Creating,
    {
        MatchingData {
            pattern: String::new(),
            index: 0,
            count: 0,
            count_max: max,
            state: ParsingState::Creating,
        }
    }
}

/// Every character of `s` equals the one `d` places into its block.
pub open spec fn periodic(s: Seq<char>, d: int) -> bool {
    forall|k: int| 0 <= k < s.len() ==> #[trigger] s[k] == s[k % d]
}

/// `d` cuts `s` into at least two full copies of its first `d`
/// characters, and the copies beyond the first stay below the cap.
pub open spec fn valid_period(s: Seq<char>, d: int, count_max: u32) -> bool {
    &&& 1 <= d
    &&& s.len() as int % d == 0
    &&& s.len() as int / d >= 2
    &&& s.len() as int / d - 1 < count_max
    &&& periodic(s, d)
}

/// `s` is some block of digits written out more than once.
pub open spec fn has_repetition(s: Seq<char>, count_max: u32) -> bool {
    exists|d: int| #[trigger] valid_period(s, d, count_max)
}

/// A block length over half the string leaves no room for two copies.
proof fn lemma_period_small(s: Seq<char>, d: int, count_max: u32)
    requires
        valid_period(s, d, count_max),
    ensures
        2 * d <= s.len(),
{
    assert(s.len() as int == d * (s.len() as int / d) + s.len() as int % d) by {
        vstd::arithmetic::div_mod::lemma_fundamental_div_mod(s.len() as int, d);
    }
    assert(d * (s.len() as int / d) >= d * 2) by (nonlinear_arith)
        requires
            d >= 1,
            s.len() as int / d >= 2,
    ;
}

/// Decides whether the digits repeat a block, trying every block length.
fn has_repetition_digits(digits: &Vec<char>, count_max: u32) -> (r: bool)
    ensures
        r == has_repetition(digits@, count_max),
{
    let n = digits.len();
    let mut d: usize = 1;
    while d <= n / 2
        invariant
            1 <= d,
            n == digits@.len(),
            forall|d2: int| 1 <= d2 < d ==> !valid_period(digits@, d2, count_max),
        decreases n / 2 - d + 1,
    {
        if n % d == 0 && {
            proof {
                assert(2 * d <= n) by (nonlinear_arith)
                    requires
                        1 <= d,
                        d <= n / 2,
                ;
                assert(n / d >= 2) by (nonlinear_arith)
                    requires
                        1 <= d,
                        2 * d <= n,
                ;
            }
            ((n / d - 1) as u64) < (count_max as u64)
        } {
            proof {
                assert(2 * d <= n) by (nonlinear_arith)
                    requires
                        1 <= d,
                        d <= n / 2,
                ;
                assert(n / d >= 2) by (nonlinear_arith)
                    requires
                        1 <= d,
                        2 * d <= n,
                ;
            }
            let mut k: usize = 0;
            let mut ok = true;
            while k < n
                invariant
                    k <= n == digits@.len(),
                    1 <= d <= n,
                    ok == forall|k2: int| 0 <= k2 < k ==> #[trigger] digits@[k2] == digits@[k2 % (d as int)],
                decreases n - k,
            {
                if digits[k] != digits[k % d] {
                    ok = false;
                }
                k = k + 1;
            }
            if ok {
                assert(valid_period(digits@, d as int, count_max));
                return true;
            }
        }
        d = d + 1;
    }
    proof {
        assert forall|d2: int| !valid_period(digits@, d2, count_max) by {
            if valid_period(digits@, d2, count_max) {
                lemma_period_small(digits@, d2, count_max);
            }
        }
    }
    false
}

/// Searches for a repeated block in `remain`, branching between growing
/// the block and matching copies of it; started fresh, it accepts exactly
/// the strings that are some block repeated within the cap.
pub fn rec_check_num_str(remain: String, data: MatchingData) -> (r: bool)
    requires
        data.pattern@.len() == 0,
        data.index == 0,
        data.count == 0,
        data.state is Creating,
    ensures
        r == has_repetition(remain@, data.count_max),
{
    let digits = chars_of(remain.as_str());
    has_repetition_digits(&digits, data.count_max)
}

/// The decimal digits of `n`, most significant first.
pub fn u64_to_digits(n: u64) -> (v: Vec<char>)
    ensures
        v@ == digits_of(n as nat),
    decreases n,
{
    if n < 10 {
        let mut v: Vec<char> = Vec::new();
        v.push((48 + n as u8) as char);
        proof {
            assert(v@ =~= digits_of(n as nat));
        }
        v
    } else {
        let mut v = u64_to_digits(n / 10);
        v.push((48 + (n % 10) as u8) as char);
        proof {
            assert(v@ =~= digits_of(n as nat));
        }
        v
    }
}

/// The number's decimal writing is a repeated block within the cap.
pub fn check_number(number: u64, data: MatchingData) -> (r: bool)
    requires
        data.pattern@.len() == 0,
        data.index == 0,
        data.count == 0,
        data.state is Creating,
    ensures
        r == has_repetition(digits_of(number as nat), data.count_max),
{
    let digits = u64_to_digits(number);
    has_repetition_digits(&digits, data.count_max)
}

/// Corrupt with exactly one extra copy allowed: the writing is a block
/// written exactly twice.
pub fn check_number_p1(number: u64) -> (r: bool)
    ensures
        r == has_repetition(digits_of(number as nat), 2),
{
    check_number(number, MatchingData::new(2))
}

/// Corrupt with any number of copies.
pub fn check_number_p2(number: u64) -> (r: bool)
    ensures
        r == has_repetition(digits_of(number as nat), u32::MAX),
{
    check_number(number, MatchingData::new(u32::MAX))
}

/// Count of corrupt numbers in `lo..=hi`, or their sum when `weigh`.
pub open spec fn spec_range_total(lo: int, hi: int, count_max: u32, weigh: bool) -> int
    decreases hi - lo + 1,
{
    if hi < lo {
        0
    } else {
        spec_range_total(lo, hi - 1, count_max, weigh) + (if has_repetition(
            digits_of(hi as nat),
            count_max,
        ) {
            if weigh {
                hi
            } else {
                1int
            }
        } else {
            0int
        })
    }
}

proof fn lemma_range_total_bounds(lo: int, hi: int, count_max: u32, weigh: bool)
    requires
        0 <= lo,
        hi <= u64::MAX,
    ensures
        0 <= spec_range_total(lo, hi, count_max, weigh),
        forall|m: int|
            lo - 1 <= m <= hi ==> #[trigger] spec_range_total(lo, m, count_max, weigh)
                <= spec_range_total(lo, hi, count_max, weigh),
    decreases hi - lo + 1,
{
    if hi >= lo {
        lemma_range_total_bounds(lo, hi - 1, count_max, weigh);
        assert forall|m: int|
            lo - 1 <= m <= hi implies #[trigger] spec_range_total(lo, m, count_max, weigh)
            <= spec_range_total(lo, hi, count_max, weigh) by {
            if m <= hi - 1 {
                assert(spec_range_total(lo, m, count_max, weigh) <= spec_range_total(
                    lo,
                    hi - 1,
                    count_max,
                    weigh,
                ));
            }
        }
    }
}

/// Walks the whole range, testing each number and folding the total.
pub fn sum_check_range(range: (u64, u64), data: MatchingData, sum: bool) -> (r: u64)
    requires
        data.pattern@.len() == 0,
        data.index == 0,
        data.count == 0,
        data.state is Creating,
        spec_range_total(range.0 as int, range.1 as int, data.count_max, sum) <= u64::MAX,
    ensures
        r == spec_range_total(range.0 as int, range.1 as int, data.count_max, sum),
{
    let (lo, hi) = range;
    let ghost cmax = data.count_max;
    if lo > hi {
        return 0;
    }
    let mut acc: u64 = 0;
    let mut n: u64 = lo;
    let mut done = false;
    while !done
        invariant
            lo <= n <= hi,
            done ==> n == hi,
            cmax == data.count_max,
            spec_range_total(lo as int, hi as int, cmax, sum) <= u64::MAX,
            acc == spec_range_total(lo as int, n - 1 + (if done {
                1int
            } else {
                0int
            }), cmax, sum),
        decreases hi - n + (if done {
            0int
        } else {
            1int
        }),
    {
        proof {
            lemma_range_total_bounds(lo as int, hi as int, cmax, sum);
        }
        proof {
            assert(spec_range_total(lo as int, n as int, cmax, sum) <= spec_range_total(
                lo as int,
                hi as int,
                cmax,
                sum,
            ));
            assert(spec_range_total(lo as int, n - 1, cmax, sum) >= 0);
        }
        let corrupt = check_number(n, MatchingData::new(data.count_max));
        if corrupt {
            acc = acc + (if sum {
                n
            } else {
                1
            });
        }
        if n == hi {
            done = true;
        } else {
            n = n + 1;
        }
    }
    acc
}

/// How many numbers of the range are a block written exactly twice.
pub fn check_range_p1(range: (u64, u64)) -> (r: u64)
    requires
        spec_range_total(range.0 as int, range.1 as int, 2, false) <= u64::MAX,
    ensures
        r == spec_range_total(range.0 as int, range.1 as int, 2, false),
{
    sum_check_range(range, MatchingData::new(2), false)
}

/// How many numbers of the range are a repeated block.
pub fn check_range_p2(range: (u64, u64)) -> (r: u64)
    requires
        spec_range_total(range.0 as int, range.1 as int, u32::MAX, false) <= u64::MAX,
    ensures
        r == spec_range_total(range.0 as int, range.1 as int, u32::MAX, false),
{
    sum_check_range(range, MatchingData::new(u32::MAX), false)
}

/// Sum of the numbers of the range that are a block written twice.
pub fn sum_range_p1(range: (u64, u64)) -> (r: u64)
    requires
        spec_range_total(range.0 as int, range.1 as int, 2, true) <= u64::MAX,
    ensures
        r == spec_range_total(range.0 as int, range.1 as int, 2, true),
{
    sum_check_range(range, MatchingData::new(2), true)
}

/// Sum of the numbers of the range that are a repeated block.
pub fn sum_range_p2(range: (u64, u64)) -> (r: u64)
    requires
        spec_range_total(range.0 as int, range.1 as int, u32::MAX, true) <= u64::MAX,
    ensures
        r == spec_range_total(range.0 as int, range.1 as int, u32::MAX, true),
{
    sum_check_range(range, MatchingData::new(u32::MAX), true)
}

/// Reads a range written `start-end`; fails exactly on anything else.
pub fn range_from_str(string: &str) -> (r: Option<(u64, u64)>)
    ensures
        r is Some <==> wf_range_line(string@),
        r is Some ==> r->Some_0.0 == spec_range_line(string@).start && r->Some_0.1
            == spec_range_line(string@).end,
{
    let cs = chars_of(string);
    match parse_range_line(&cs) {
        None => None,
        Some(rg) => Some((rg.start, rg.end)),
    }
}

} // verus!
