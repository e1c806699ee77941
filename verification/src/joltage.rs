//! The joltage digits puzzle: from a string of digits, keep a fixed
//! number of them in order so that the number they spell is largest; the
//! winning strategy picks, at each step, the leftmost largest digit that
//! still leaves room for the rest.

use vstd::prelude::*;

verus! {

use vstd::arithmetic::mul::lemma_mul_is_associative;
use crate::parsing::{all_digits, digit_val, is_digit, chars_of, spec_lines, split_lines};

/// Ten to the `k`.
pub open spec fn pow10(k: nat) -> nat
    decreases k,
{
    if k == 0 {
        1
    } else {
        10 * pow10((k - 1) as nat)
    }
}

pub proof fn lemma_pow10_increases(a: nat, b: nat)
    requires
        a <= b,
    ensures
        pow10(a) <= pow10(b),
    decreases b,
{
    if a < b {
        lemma_pow10_increases(a, (b - 1) as nat);
    }
}

/// Index of the leftmost largest digit in `[lo, hi)`.
pub open spec fn argmax_from(s: Seq<char>, lo: int, hi: int) -> int
    decreases hi - lo,
{
    if lo + 1 >= hi {
        lo
    } else {
        let rest = argmax_from(s, lo + 1, hi);
        if digit_val(s[lo]) >= digit_val(s[rest]) {
            lo
        } else {
            rest
        }
    }
}

/// The chosen index lies in the window, no digit beats it, and digits
/// before it are strictly smaller.
pub proof fn lemma_argmax_props(s: Seq<char>, lo: int, hi: int)
    requires
        0 <= lo < hi <= s.len(),
    ensures
        lo <= argmax_from(s, lo, hi) < hi,
        forall|k: int|
            lo <= k < hi ==> digit_val(#[trigger] s[k]) <= digit_val(s[argmax_from(s, lo, hi)]),
        forall|k: int|
            lo <= k < argmax_from(s, lo, hi) ==> digit_val(#[trigger] s[k]) < digit_val(
                s[argmax_from(s, lo, hi)],
            ),
    decreases hi - lo,
{
    if lo + 1 < hi {
        lemma_argmax_props(s, lo + 1, hi);
    }
}

/// Value of the number spelled by greedily keeping `nb` digits starting
/// no earlier than `lo`.
pub open spec fn greedy_value(s: Seq<char>, lo: int, nb: nat) -> int
    decreases nb,
{
    if nb == 0 {
        0
    } else {
        let i = argmax_from(s, lo, s.len() - nb + 1);
        digit_val(s[i]) * pow10((nb - 1) as nat) + greedy_value(s, i + 1, (nb - 1) as nat)
    }
}

/// The greedy number needs only `nb` digits to write.
pub proof fn lemma_greedy_bound(s: Seq<char>, lo: int, nb: nat)
    requires
        all_digits(s),
        0 <= lo,
        lo + nb <= s.len(),
    ensures
        0 <= greedy_value(s, lo, nb) < pow10(nb),
    decreases nb,
{
    if nb > 0 {
        lemma_argmax_props(s, lo, s.len() - nb + 1);
        let i = argmax_from(s, lo, s.len() - nb + 1);
        assert(is_digit(s[i]));
        lemma_greedy_bound(s, i + 1, (nb - 1) as nat);
        assert(digit_val(s[i]) * pow10((nb - 1) as nat) <= 9 * pow10((nb - 1) as nat)) by (
        nonlinear_arith)
            requires
                digit_val(s[i]) <= 9,
                pow10((nb - 1) as nat) >= 0,
        ;
    }
}

/// The largest `nb`-digit number readable from `s` by deleting digits,
/// found by the leftmost-largest-digit strategy.
pub fn find_max_in_string_p2(s: &str, nb: usize) -> (r: u64)
    requires
        all_digits(s@),
        1 <= nb <= s@.len(),
        nb <= 19,
    ensures
        r == greedy_value(s@, 0, nb as nat),
        r == best_value(s@, 0, nb as nat),
{
    let digits = chars_of(s);
    proof {
        lemma_greedy_is_best(s@, 0, nb as nat);
    }
    find_max_digits(&digits, nb)
}

/// The same search, on the digits as characters.
pub fn find_max_digits(digits: &Vec<char>, nb: usize) -> (r: u64)
    requires
        all_digits(digits@),
        1 <= nb <= digits@.len(),
        nb <= 19,
    ensures
        r == greedy_value(digits@, 0, nb as nat),
{
    let ghost s = digits@;
    let n = digits.len();
    let mut last_index: usize = 0;
    let mut remaining: usize = nb;
    let mut res: u64 = 0;
    proof {
        lemma_pow10_19();
    }
    while remaining > 0
        invariant
            all_digits(s),
            digits@ == s,
            n == s.len(),
            remaining <= nb <= 19,
            nb <= n,
            last_index + remaining <= n,
            res < pow10((nb - remaining) as nat),
            pow10(19) == 10_000_000_000_000_000_000,
            res * pow10(remaining as nat) + greedy_value(s, last_index as int, remaining as nat)
                == greedy_value(s, 0, nb as nat),
        decreases remaining,
    {
        let hi = n - remaining + 1;
        let ghost glo = last_index as int;
        proof {
            lemma_argmax_props(s, glo, hi as int);
        }
        let mut best: usize = last_index;
        let mut k: usize = last_index + 1;
        while k < hi
            invariant
                all_digits(s),
                digits@ == s,
                n == s.len(),
                last_index < hi <= n,
                last_index <= best < k <= hi,
                forall|k2: int|
                    last_index <= k2 < k ==> digit_val(#[trigger] s[k2]) <= digit_val(
                        s[best as int],
                    ),
                forall|k2: int|
                    last_index <= k2 < best ==> digit_val(#[trigger] s[k2]) < digit_val(
                        s[best as int],
                    ),
            decreases hi - k,
        {
            if digits[k] as u32 > digits[best] as u32 {
                assert(digit_val(s[k as int]) > digit_val(s[best as int]));
                best = k;
            } else {
                assert(digit_val(s[k as int]) <= digit_val(s[best as int]));
            }
            k = k + 1;
        }
        proof {
            let am = argmax_from(s, glo, hi as int);
            if best < am {
                assert(digit_val(s[best as int]) < digit_val(s[am]));
                assert(digit_val(s[am]) <= digit_val(s[best as int]));
            } else if am < best {
                assert(digit_val(s[am]) < digit_val(s[best as int]));
                assert(digit_val(s[best as int]) <= digit_val(s[am]));
            }
            assert(best == am);
        }
        let d = (digits[best] as u32 - 48) as u64;
        proof {
            assert(is_digit(s[best as int]));
            lemma_pow10_increases((nb - remaining + 1) as nat, 19);
            lemma_greedy_bound(s, best + 1, (remaining - 1) as nat);
            assert(res * pow10(remaining as nat) == (res * 10) * pow10((remaining - 1) as nat))
                by {
                lemma_mul_is_associative(res as int, 10, pow10((remaining - 1) as nat) as int);
            }
            assert((res * 10 + d) < pow10((nb - remaining + 1) as nat)) by (nonlinear_arith)
                requires
                    res < pow10((nb - remaining) as nat),
                    d <= 9,
                    pow10((nb - remaining + 1) as nat) == 10 * pow10((nb - remaining) as nat),
            ;
            assert(d == digit_val(s[best as int]));
            assert(greedy_value(s, glo, remaining as nat) == digit_val(s[best as int]) * pow10(
                (remaining - 1) as nat,
            ) + greedy_value(s, best + 1, (remaining - 1) as nat));
            assert(((res * 10 + d) as int) * pow10((remaining - 1) as nat) == (res as int) * pow10(
                remaining as nat,
            ) + (d as int) * pow10((remaining - 1) as nat)) by (nonlinear_arith)
                requires
                    pow10(remaining as nat) == 10 * pow10((remaining - 1) as nat),
            ;
        }
        res = res * 10 + d;
        last_index = best + 1;
        remaining = remaining - 1;
    }
    proof {
        assert(res * pow10(0) == res) by (nonlinear_arith)
            requires
                pow10(0) == 1,
        ;
    }
    res
}

/// `pow10` at the width of a `u64`.
proof fn lemma_pow10_19()
    ensures
        pow10(19) == 10_000_000_000_000_000_000,
{
    reveal_with_fuel(pow10, 20);
}

/// The two-digit variant.
pub fn find_max_in_string_p1(s: &str) -> (r: u64)
    requires
        all_digits(s@),
        2 <= s@.len(),
    ensures
        r == greedy_value(s@, 0, 2),
        r == best_value(s@, 0, 2),
{
    find_max_in_string_p2(s, 2)
}


/// The largest value any in-order choice of `nb` digits from position
/// `lo` on can spell: take the front digit or skip it.
pub open spec fn best_value(s: Seq<char>, lo: int, nb: nat) -> int
    decreases s.len() - lo,
{
    if nb == 0 {
        0
    } else if lo + nb > s.len() || lo < 0 {
        0
    } else if lo + nb == s.len() {
        digit_val(s[lo]) * pow10((nb - 1) as nat) + best_value(s, lo + 1, (nb - 1) as nat)
    } else {
        let taken = digit_val(s[lo]) * pow10((nb - 1) as nat) + best_value(
            s,
            lo + 1,
            (nb - 1) as nat,
        );
        let skipped = best_value(s, lo + 1, nb);
        if taken >= skipped {
            taken
        } else {
            skipped
        }
    }
}

/// The best value also needs only `nb` digits to write.
proof fn lemma_best_bound(s: Seq<char>, lo: int, nb: nat)
    requires
        all_digits(s),
        0 <= lo,
        lo + nb <= s.len(),
    ensures
        0 <= best_value(s, lo, nb) < pow10(nb),
    decreases s.len() - lo,
{
    if nb > 0 {
        assert(is_digit(s[lo]));
        lemma_best_bound(s, lo + 1, (nb - 1) as nat);
        assert(digit_val(s[lo]) * pow10((nb - 1) as nat) <= 9 * pow10((nb - 1) as nat)) by (
        nonlinear_arith)
            requires
                digit_val(s[lo]) <= 9,
                pow10((nb - 1) as nat) >= 0,
        ;
        if lo + nb < s.len() {
            lemma_best_bound(s, lo + 1, nb);
        }
    }
}

/// Starting earlier never hurts the best value.
proof fn lemma_best_mono(s: Seq<char>, a: int, b: int, nb: nat)
    requires
        all_digits(s),
        0 <= a <= b,
        b + nb <= s.len(),
    ensures
        best_value(s, a, nb) >= best_value(s, b, nb),
    decreases b - a,
{
    if a < b && nb > 0 {
        lemma_best_mono(s, a + 1, b, nb);
        assert(best_value(s, a, nb) >= best_value(s, a + 1, nb));
    }
}

/// The best value covers every particular first pick.
proof fn lemma_best_ge_pick(s: Seq<char>, lo: int, i: int, nb: nat)
    requires
        all_digits(s),
        nb >= 1,
        0 <= lo <= i,
        i + nb <= s.len(),
    ensures
        best_value(s, lo, nb) >= digit_val(s[i]) * pow10((nb - 1) as nat) + best_value(
            s,
            i + 1,
            (nb - 1) as nat,
        ),
{
    lemma_best_mono(s, lo, i, nb);
    assert(best_value(s, i, nb) >= digit_val(s[i]) * pow10((nb - 1) as nat) + best_value(
        s,
        i + 1,
        (nb - 1) as nat,
    ));
}

/// Starting earlier never hurts the greedy value either.
proof fn lemma_greedy_mono(s: Seq<char>, a: int, b: int, nb: nat)
    requires
        all_digits(s),
        0 <= a <= b,
        b + nb <= s.len(),
    ensures
        greedy_value(s, a, nb) >= greedy_value(s, b, nb),
    decreases nb, b - a,
{
    if a < b && nb > 0 {
        lemma_greedy_mono(s, a + 1, b, nb);
        // one step: the wider window holds a digit at least as large,
        // found at least as early
        let hi_a = s.len() - nb + 1;
        lemma_argmax_props(s, a, hi_a as int);
        lemma_argmax_props(s, a + 1, hi_a as int);
        let ma = argmax_from(s, a, hi_a as int);
        let mb = argmax_from(s, a + 1, hi_a as int);
        lemma_greedy_bound(s, ma + 1, (nb - 1) as nat);
        lemma_greedy_bound(s, mb + 1, (nb - 1) as nat);
        if digit_val(s[mb]) < digit_val(s[ma]) {
            assert(digit_val(s[mb]) * pow10((nb - 1) as nat) + pow10((nb - 1) as nat)
                <= digit_val(s[ma]) * pow10((nb - 1) as nat)) by (nonlinear_arith)
                requires
                    digit_val(s[mb]) + 1 <= digit_val(s[ma]),
                    pow10((nb - 1) as nat) >= 0,
            ;
        } else {
            assert(digit_val(s[mb]) <= digit_val(s[ma]));
            assert(digit_val(s[ma]) <= digit_val(s[mb]));
            assert(ma <= mb) by {
                if mb < ma {
                    assert(digit_val(s[mb]) < digit_val(s[ma]));
                }
            }
            lemma_greedy_mono(s, ma + 1, mb + 1, (nb - 1) as nat);
        }
    }
}

/// The leftmost-largest-digit strategy is optimal: it spells exactly the
/// largest number any in-order digit choice can spell.
pub proof fn lemma_greedy_is_best(s: Seq<char>, lo: int, nb: nat)
    requires
        all_digits(s),
        0 <= lo,
        lo + nb <= s.len(),
    ensures
        greedy_value(s, lo, nb) == best_value(s, lo, nb),
    decreases nb, s.len() - lo,
{
    if nb == 0 {
        return ;
    }
    let hi = s.len() - nb + 1;
    lemma_argmax_props(s, lo, hi as int);
    let am = argmax_from(s, lo, hi as int);
    // the greedy choice is one of the choices the best ranges over
    lemma_greedy_is_best(s, am + 1, (nb - 1) as nat);
    lemma_best_ge_pick(s, lo, am, nb);
    assert(best_value(s, lo, nb) >= greedy_value(s, lo, nb));
    // and no choice beats it
    lemma_greedy_is_best(s, lo + 1, (nb - 1) as nat);
    lemma_greedy_bound(s, am + 1, (nb - 1) as nat);
    lemma_best_bound(s, lo + 1, (nb - 1) as nat);
    // taking the front digit
    assert(digit_val(s[lo]) * pow10((nb - 1) as nat) + best_value(s, lo + 1, (nb - 1) as nat)
        <= greedy_value(s, lo, nb)) by {
        if digit_val(s[lo]) < digit_val(s[am]) {
            assert(digit_val(s[lo]) * pow10((nb - 1) as nat) + pow10((nb - 1) as nat)
                <= digit_val(s[am]) * pow10((nb - 1) as nat)) by (nonlinear_arith)
                requires
                    digit_val(s[lo]) + 1 <= digit_val(s[am]),
                    pow10((nb - 1) as nat) >= 0,
            ;
        } else {
            assert(am == lo) by {
                if lo < am {
                    assert(digit_val(s[lo]) < digit_val(s[am]));
                }
            }
            lemma_greedy_mono(s, lo + 1, lo + 1, (nb - 1) as nat);
        }
    }
    // skipping it
    if lo + nb < s.len() {
        lemma_greedy_is_best(s, lo + 1, nb);
        assert(best_value(s, lo + 1, nb) <= greedy_value(s, lo, nb)) by {
            let hi2 = s.len() - nb + 1;
            lemma_argmax_props(s, lo + 1, hi2 as int);
            let am2 = argmax_from(s, lo + 1, hi2 as int);
            lemma_greedy_bound(s, am2 + 1, (nb - 1) as nat);
            if digit_val(s[am2]) < digit_val(s[am]) {
                assert(digit_val(s[am2]) * pow10((nb - 1) as nat) + pow10((nb - 1) as nat)
                    <= digit_val(s[am]) * pow10((nb - 1) as nat)) by (nonlinear_arith)
                    requires
                        digit_val(s[am2]) + 1 <= digit_val(s[am]),
                        pow10((nb - 1) as nat) >= 0,
                ;
            } else {
                assert(digit_val(s[am2]) <= digit_val(s[am]));
                assert(am <= am2) by {
                    if am2 < am {
                        assert(digit_val(s[am2]) < digit_val(s[am]));
                    }
                }
                lemma_greedy_mono(s, am + 1, am2 + 1, (nb - 1) as nat);
            }
        }
    }
}

/// Sum of the greedy numbers of every line.
pub open spec fn spec_joltage_sum(lines: Seq<Seq<char>>, nb: nat) -> int
    decreases lines.len(),
{
    if lines.len() == 0 {
        0
    } else {
        spec_joltage_sum(lines.drop_last(), nb) + greedy_value(lines.last(), 0, nb)
    }
}

proof fn lemma_joltage_sum_bounds(lines: Seq<Seq<char>>, nb: nat)
    requires
        forall|k: int| 0 <= k < lines.len() ==> all_digits(#[trigger] lines[k]) && nb <= lines[k].len(),
    ensures
        0 <= spec_joltage_sum(lines, nb),
    decreases lines.len(),
{
    if lines.len() > 0 {
        lemma_joltage_sum_bounds(lines.drop_last(), nb);
        lemma_greedy_bound(lines.last(), 0, nb);
    }
}

/// Sums the two-digit maxima over the lines of the input.
pub fn get_joltage_file_p1(contents: &str) -> (r: u64)
    requires
        forall|k: int|
            0 <= k < spec_lines(contents@).len() ==> all_digits(#[trigger] spec_lines(contents@)[k])
                && 2 <= spec_lines(contents@)[k].len(),
        spec_joltage_sum(spec_lines(contents@), 2) <= u64::MAX,
    ensures
        r == spec_joltage_sum(spec_lines(contents@), 2),
{
    sum_lines(contents, 2)
}

/// Sums the twelve-digit maxima over the lines of the input.
pub fn get_joltage_file_p2(contents: &str) -> (r: u64)
    requires
        forall|k: int|
            0 <= k < spec_lines(contents@).len() ==> all_digits(#[trigger] spec_lines(contents@)[k])
                && 12 <= spec_lines(contents@)[k].len(),
        spec_joltage_sum(spec_lines(contents@), 12) <= u64::MAX,
    ensures
        r == spec_joltage_sum(spec_lines(contents@), 12),
{
    sum_lines(contents, 12)
}

/// Folds the greedy number of each line into one sum.
fn sum_lines(contents: &str, nb: usize) -> (r: u64)
    requires
        1 <= nb <= 19,
        forall|k: int|
            0 <= k < spec_lines(contents@).len() ==> all_digits(#[trigger] spec_lines(contents@)[k])
                && nb <= spec_lines(contents@)[k].len(),
        spec_joltage_sum(spec_lines(contents@), nb as nat) <= u64::MAX,
    ensures
        r == spec_joltage_sum(spec_lines(contents@), nb as nat),
{
    let cs = chars_of(contents);
    let lines = split_lines(&cs);
    let ghost lns = spec_lines(contents@);
    proof {
        assert forall|k: int| 0 <= k < lines@.len() implies (#[trigger] lines@[k])@ == lns[k] by {
            assert(lines@.map_values(|p: Vec<char>| p@)[k] == lns[k]);
        }
    }
    let mut acc: u64 = 0;
    let mut li: usize = 0;
    while li < lines.len()
        invariant
            li <= lines@.len() == lns.len(),
            lns == spec_lines(contents@),
            1 <= nb <= 19,
            forall|k: int| 0 <= k < lines@.len() ==> (#[trigger] lines@[k])@ == lns[k],
            forall|k: int|
                0 <= k < lns.len() ==> all_digits(#[trigger] lns[k]) && nb <= lns[k].len(),
            spec_joltage_sum(lns, nb as nat) <= u64::MAX,
            acc == spec_joltage_sum(lns.take(li as int), nb as nat),
        decreases lines@.len() - li,
    {
        proof {
            assert(lns.take(li + 1).drop_last() =~= lns.take(li as int));
            assert(lns.take(li + 1).last() == lns[li as int]);
            lemma_prefix_sum_le(lns, li + 1, nb as nat);
            assert forall|k: int| 0 <= k < lns.take(li + 1).len() implies all_digits(
                #[trigger] lns.take(li + 1)[k],
            ) && nb <= lns.take(li + 1)[k].len() by {
                assert(lns.take(li + 1)[k] == lns[k]);
            }
            lemma_joltage_sum_bounds(lns.take(li + 1), nb as nat);
        }
        let s_line = find_max_digits(&lines[li], nb);
        acc = acc + s_line;
        li = li + 1;
    }
    proof {
        assert(lns.take(lns.len() as int) =~= lns);
    }
    acc
}

/// A whole-list sum dominates any prefix sum when every line adds a
/// non-negative amount.
proof fn lemma_prefix_sum_le(lines: Seq<Seq<char>>, i: int, nb: nat)
    requires
        0 <= i <= lines.len(),
        forall|k: int| 0 <= k < lines.len() ==> all_digits(#[trigger] lines[k]) && nb <= lines[k].len(),
    ensures
        spec_joltage_sum(lines.take(i), nb) <= spec_joltage_sum(lines, nb),
    decreases lines.len() - i,
{
    if i < lines.len() {
        lemma_prefix_sum_le(lines, i + 1, nb);
        assert(lines.take(i + 1).drop_last() =~= lines.take(i));
        lemma_greedy_bound(lines[i], 0, nb);
        assert(lines.take(i + 1).last() == lines[i]);
    } else {
        assert(lines.take(i) =~= lines);
    }
}

} // verus!
