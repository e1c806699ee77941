//! The button machine puzzle: each machine has a row of lights, a list of
//! buttons and a vector of joltage counters. Pressing a button toggles a
//! fixed set of lights and decrements a fixed set of counters. The solvers
//! find the least number of presses that reaches the light target, and the
//! least number of presses that drives every counter to zero.
//!
//! Light rows and button masks travel as unsigned integers, most
//! significant bit first; a subset of buttons travels the same way, bit `i`
//! standing for button `i`.

use vstd::prelude::*;

verus! {

use vstd::arithmetic::power2::{
    pow2,
    lemma_pow2_unfold,
    lemma_pow2_strictly_increases,
    lemma_pow2_pos,
    lemma2_to64,
};
use vstd::arithmetic::div_mod::lemma_div_denominator;
use crate::math::{pop_count, sum_u32, pow2_u64, popcount_u32, lemma_pop_count_bound};
use crate::parsing::{spec_split, spec_lines, digits_val, all_digits, split_chars};

/// The number read by folding the bits of `s`, most significant first.
pub open spec fn compress_spec(s: Seq<bool>) -> nat
    decreases s.len(),
{
    if s.len() == 0 {
        0
    } else {
        2 * compress_spec(s.drop_last()) + (if s.last() {
            1nat
        } else {
            0nat
        })
    }
}

/// Bit `k` of `n`, counting from the least significant.
pub open spec fn bit_of(n: nat, k: nat) -> bool {
    n / pow2(k) % 2 == 1
}

/// The `len` low bits of `n`, most significant first.
pub open spec fn uncompress_spec(n: nat, len: nat) -> Seq<bool> {
    Seq::new(len, |j: int| bit_of(n, (len - 1 - j) as nat))
}

/// A compressed value is bounded by two to the number of bits.
pub proof fn lemma_compress_bound(s: Seq<bool>)
    ensures
        compress_spec(s) < pow2(s.len()),
    decreases s.len(),
{
    if s.len() == 0 {
        lemma2_to64();
    } else {
        lemma_compress_bound(s.drop_last());
        lemma_pow2_unfold(s.len());
    }
}

/// Bit `k` of the compressed value of `s` is the bit `s` holds at distance
/// `k` from its end, and bits above the width are zero.
pub proof fn lemma_compress_bit(s: Seq<bool>, k: nat)
    ensures
        bit_of(compress_spec(s), k) == if k < s.len() {
            s[s.len() - 1 - k]
        } else {
            false
        },
    decreases s.len(),
{
    let n = compress_spec(s);
    let b: nat = if s.len() > 0 && s.last() {
        1
    } else {
        0
    };
    if s.len() == 0 {
        lemma_pow2_pos(k);
        assert(0nat / pow2(k) == 0) by {
            vstd::arithmetic::div_mod::lemma_div_basics_1(pow2(k) as int);
        }
    } else {
        let c = compress_spec(s.drop_last());
        assert(n == 2 * c + b);
        if k == 0 {
            lemma2_to64();
            assert(pow2(0) == 1);
            assert(n / 1 == n) by {
                vstd::arithmetic::div_mod::lemma_div_basics_2(n as int);
            }
            assert((2 * c + b) % 2 == b) by (nonlinear_arith)
                requires
                    0 <= c,
                    0 <= b < 2,
            ;
        } else {
            lemma_compress_bit(s.drop_last(), (k - 1) as nat);
            lemma_pow2_unfold(k);
            lemma_pow2_pos((k - 1) as nat);
            assert(n / 2 == c) by (nonlinear_arith)
                requires
                    n == 2 * c + b,
                    0 <= c,
                    0 <= b < 2,
            ;
            lemma_div_denominator(n as int, 2, pow2((k - 1) as nat) as int);
            assert(n / pow2(k) == c / pow2((k - 1) as nat)) by {
                assert(pow2(k) == 2 * pow2((k - 1) as nat));
                assert((n as int / 2) / (pow2((k - 1) as nat) as int) == n as int / (2 * pow2(
                    (k - 1) as nat,
                ) as int));
            }
        }
    }
}

/// Expanding a compressed bit row gives the row back.
pub proof fn lemma_uncompress_compress(s: Seq<bool>)
    ensures
        uncompress_spec(compress_spec(s), s.len()) =~= s,
{
    assert forall|j: int| 0 <= j < s.len() implies uncompress_spec(compress_spec(s), s.len())[j]
        == s[j] by {
        lemma_compress_bit(s, (s.len() - 1 - j) as nat);
    }
}

/// Folds a row of bits into a number, most significant bit first.
pub fn compress(vec: &Vec<bool>) -> (r: u32)
    requires
        vec@.len() <= 32,
    ensures
        r == compress_spec(vec@),
{
    proof {
        lemma2_to64();
    }
    let mut r: u32 = 0;
    let mut i: usize = 0;
    while i < vec.len()
        invariant
            i <= vec@.len() <= 32,
            r == compress_spec(vec@.take(i as int)),
        decreases vec@.len() - i,
    {
        proof {
            assert(vec@.take(i + 1).drop_last() =~= vec@.take(i as int));
            lemma_compress_bound(vec@.take(i + 1));
            if i + 1 < 32 {
                lemma_pow2_strictly_increases((i + 1) as nat, 32);
            }
            lemma2_to64();
        }
        r = r * 2 + (if vec[i] {
            1
        } else {
            0
        });
        i = i + 1;
    }
    proof {
        assert(vec@.take(vec@.len() as int) =~= vec@);
    }
    r
}

/// Expands the `n` low bits of `bits` into a row, most significant first.
pub fn uncompress(bits: u32, n: usize) -> (v: Vec<bool>)
    requires
        n <= 32,
    ensures
        v@ == uncompress_spec(bits as nat, n as nat),
{
    let mut v: Vec<bool> = Vec::new();
    let mut j: usize = 0;
    while j < n
        invariant
            j <= n <= 32,
            v@ =~= uncompress_spec(bits as nat, n as nat).take(j as int),
        decreases n - j,
    {
        let digit = (n - 1 - j) as u64;
        let p = pow2_u64(digit);
        proof {
            lemma_pow2_pos(digit as nat);
        }
        let b = (bits as u64) / p % 2 == 1;
        v.push(b);
        proof {
            assert(uncompress_spec(bits as nat, n as nat).take(j + 1) =~= uncompress_spec(
                bits as nat,
                n as nat,
            ).take(j as int).push(uncompress_spec(bits as nat, n as nat)[j as int]));
        }
        j = j + 1;
    }
    proof {
        assert(uncompress_spec(bits as nat, n as nat).take(n as int) =~= uncompress_spec(
            bits as nat,
            n as nat,
        ));
    }
    v
}

/// A machine as the solvers use it: the light target and each button's
/// toggle row compressed to one integer, plus the joltage target vector.
pub struct Machine {
    pub buttons: Vec<Vec<u32>>,
    pub buttons_encoded: Vec<u32>,
    pub joltages: Vec<u32>,
    pub lights: u32,
}

impl Machine {
    /// Shape every solver relies on: a button row per encoded mask, and
    /// counts bounded by the width of the integers that carry bit rows.
    pub open spec fn wf(self) -> bool {
        &&& self.buttons@.len() == self.buttons_encoded@.len()
        &&& self.buttons_encoded@.len() <= 32
        &&& self.joltages@.len() <= 32
    }
}

/// Lights reached from all-off by pressing the buttons selected by `index`,
/// folding the masks in button order over the accumulator `acc`.
pub open spec fn press_fold(masks: Seq<u32>, index: nat, i: nat, acc: u32) -> u32
    decreases masks.len() - i,
{
    if i >= masks.len() {
        acc
    } else {
        press_fold(
            masks,
            index,
            i + 1,
            if bit_of(index, i) {
                acc ^ masks[i as int]
            } else {
                acc
            },
        )
    }
}

/// Lights toggled by pressing the subset of buttons selected by `index`.
pub open spec fn press_spec(masks: Seq<u32>, index: nat) -> u32 {
    press_fold(masks, index, 0, 0)
}

/// Pressing no button leaves every light off.
pub proof fn lemma_press_empty(masks: Seq<u32>)
    ensures
        press_spec(masks, 0) == 0u32,
{
    lemma_press_fold_zero(masks, 0, 0);
}

proof fn lemma_press_fold_zero(masks: Seq<u32>, i: nat, acc: u32)
    ensures
        press_fold(masks, 0, i, acc) == acc,
    decreases masks.len() - i,
{
    if i < masks.len() {
        assert(!bit_of(0, i)) by {
            lemma_pow2_pos(i);
            vstd::arithmetic::div_mod::lemma_div_basics_1(pow2(i) as int);
        }
        lemma_press_fold_zero(masks, i + 1, acc);
    }
}

/// Button `i`'s mask decrements counter `j`, when the mask is read as a
/// row of `nc` decrement flags.
pub open spec fn touches(mask: u32, nc: nat, j: int) -> bool {
    bit_of(mask as nat, (nc - 1 - j) as nat)
}

/// How many of the first `i` buttons selected by `index` decrement
/// counter `j`.
pub open spec fn touch_count_prefix(enc: Seq<u32>, index: nat, nc: nat, j: int, i: nat) -> nat
    decreases i,
{
    if i == 0 {
        0
    } else {
        touch_count_prefix(enc, index, nc, j, (i - 1) as nat) + (if bit_of(index, (i - 1) as nat)
            && touches(enc[i - 1], nc, j) {
            1nat
        } else {
            0nat
        })
    }
}

/// Total decrement applied to counter `j` by the subset `index`.
pub open spec fn touch_count(enc: Seq<u32>, index: nat, nc: nat, j: int) -> nat {
    touch_count_prefix(enc, index, nc, j, enc.len())
}

pub proof fn lemma_touch_prefix_mono(enc: Seq<u32>, index: nat, nc: nat, j: int, i1: nat, i2: nat)
    requires
        i1 <= i2,
    ensures
        touch_count_prefix(enc, index, nc, j, i1) <= touch_count_prefix(enc, index, nc, j, i2),
    decreases i2 - i1,
{
    if i1 < i2 {
        lemma_touch_prefix_mono(enc, index, nc, j, i1, (i2 - 1) as nat);
    }
}

impl Machine {
    /// New light state (relative to all-off) after pressing the subset of
    /// buttons selected by `index`.
    pub fn press(&self, index: u32) -> (r: u32)
        requires
            self.buttons_encoded@.len() <= 32,
        ensures
            r == press_spec(self.buttons_encoded@, index as nat),
    {
        let ghost enc = self.buttons_encoded@;
        let mut res: u32 = 0;
        let mut i: usize = 0;
        while i < self.buttons_encoded.len()
            invariant
                i <= enc.len() <= 32,
                enc == self.buttons_encoded@,
                press_spec(enc, index as nat) == press_fold(enc, index as nat, i as nat, res),
            decreases enc.len() - i,
        {
            let p = pow2_u64(i as u64);
            proof {
                lemma_pow2_pos(i as nat);
            }
            if (index as u64) / p % 2 == 1 {
                assert(bit_of(index as nat, i as nat));
                res = res ^ self.buttons_encoded[i];
            } else {
                assert(!bit_of(index as nat, i as nat));
            }
            i = i + 1;
        }
        res
    }

    /// Joltage counters left after pressing the subset `index`, or `None`
    /// exactly when some counter would be driven below zero.
    pub fn press_joltages(&self, index: u32) -> (r: Option<Vec<u32>>)
        requires
            self.wf(),
        ensures
            r is Some <==> forall|j: int|
                0 <= j < self.joltages@.len() ==> touch_count(
                    self.buttons_encoded@,
                    index as nat,
                    self.joltages@.len(),
                    j,
                ) <= self.joltages@[j],
            r is Some ==> r->Some_0@.len() == self.joltages@.len(),
            r is Some ==> forall|j: int|
                0 <= j < self.joltages@.len() ==> r->Some_0@[j] == self.joltages@[j] - touch_count(
                    self.buttons_encoded@,
                    index as nat,
                    self.joltages@.len(),
                    j,
                ),
    {
        let ghost enc = self.buttons_encoded@;
        let ghost jolt = self.joltages@;
        let ghost nc = self.joltages@.len();
        let nb = self.buttons_encoded.len();
        let mut res: Vec<u32> = Vec::new();
        let mut j0: usize = 0;
        while j0 < self.joltages.len()
            invariant
                j0 <= jolt.len(),
                jolt == self.joltages@,
                res@ == jolt.take(j0 as int),
            decreases jolt.len() - j0,
        {
            res.push(self.joltages[j0]);
            proof {
                assert(jolt.take(j0 + 1) =~= jolt.take(j0 as int).push(jolt[j0 as int]));
            }
            j0 = j0 + 1;
        }
        proof {
            assert(jolt.take(jolt.len() as int) =~= jolt);
        }
        let mut i: usize = 0;
        while i < nb
            invariant
                i <= nb == enc.len(),
                self.wf(),
                enc == self.buttons_encoded@,
                jolt == self.joltages@,
                nc == jolt.len(),
                res@.len() == nc,
                forall|j: int|
                    0 <= j < nc ==> touch_count_prefix(enc, index as nat, nc, j, i as nat)
                        <= jolt[j],
                forall|j: int|
                    0 <= j < nc ==> res@[j] == jolt[j] - touch_count_prefix(
                        enc,
                        index as nat,
                        nc,
                        j,
                        i as nat,
                    ),
            decreases nb - i,
        {
            let p = pow2_u64(i as u64);
            proof {
                lemma_pow2_pos(i as nat);
            }
            if (index as u64) / p % 2 == 1 {
                assert(bit_of(index as nat, i as nat));
                let decompressed = uncompress(self.buttons_encoded[i], res.len());
                let mut j: usize = 0;
                while j < res.len()
                    invariant
                        j <= nc,
                        self.wf(),
                        enc == self.buttons_encoded@,
                        jolt == self.joltages@,
                        nc == jolt.len(),
                        res@.len() == nc,
                        i < enc.len(),
                        bit_of(index as nat, i as nat),
                        decompressed@ == uncompress_spec(enc[i as int] as nat, nc),
                        forall|j2: int|
                            j <= j2 < nc ==> touch_count_prefix(enc, index as nat, nc, j2, i as nat)
                                <= jolt[j2],
                        forall|j2: int|
                            0 <= j2 < j ==> touch_count_prefix(
                                enc,
                                index as nat,
                                nc,
                                j2,
                                (i + 1) as nat,
                            ) <= jolt[j2],
                        forall|j2: int|
                            j <= j2 < nc ==> res@[j2] == jolt[j2] - touch_count_prefix(
                                enc,
                                index as nat,
                                nc,
                                j2,
                                i as nat,
                            ),
                        forall|j2: int|
                            0 <= j2 < j ==> res@[j2] == jolt[j2] - touch_count_prefix(
                                enc,
                                index as nat,
                                nc,
                                j2,
                                (i + 1) as nat,
                            ),
                    decreases nc - j,
                {
                    assert(decompressed@[j as int] == touches(enc[i as int], nc, j as int));
                    if res[j] == 0 && decompressed[j] {
                        proof {
                            lemma_touch_prefix_mono(
                                enc,
                                index as nat,
                                nc,
                                j as int,
                                (i + 1) as nat,
                                enc.len(),
                            );
                        }
                        return None;
                    }
                    if decompressed[j] {
                        let old_val = res[j];
                        res.set(j, old_val - 1);
                    }
                    j = j + 1;
                }
            } else {
                assert(!bit_of(index as nat, i as nat));
            }
            i = i + 1;
        }
        proof {
            lemma_touch_prefix_mono(enc, index as nat, nc, 0, 0, 0);
        }
        Some(res)
    }
}

/// The smaller of `b` and what `a` already holds.
pub open spec fn opt_min(a: Option<nat>, b: nat) -> Option<nat> {
    match a {
        None => Some(b),
        Some(x) => if b < x {
            Some(b)
        } else {
            Some(x)
        },
    }
}

/// Least press count among subsets below `n` whose press reaches `lights`,
/// or `None` when no such subset exists.
pub open spec fn min_press_upto(enc: Seq<u32>, lights: u32, n: nat) -> Option<nat>
    decreases n,
{
    if n == 0 {
        None
    } else {
        let prev = min_press_upto(enc, lights, (n - 1) as nat);
        if press_spec(enc, (n - 1) as nat) == lights {
            opt_min(prev, pop_count((n - 1) as nat))
        } else {
            prev
        }
    }
}

/// Least number of button presses that turns this machine's lights from
/// all-off to its target, each button pressed at most once.
pub open spec fn spec_min_press(m: Machine) -> Option<nat> {
    min_press_upto(m.buttons_encoded@, m.lights, pow2(m.buttons_encoded@.len()))
}

/// What the minimum means: a returned cost is the press count of some
/// subset that reaches the target, and no cheaper subset reaches it;
/// `None` means no subset below `n` reaches it at all.
pub proof fn lemma_min_press_upto_optimal(enc: Seq<u32>, lights: u32, n: nat)
    ensures
        match min_press_upto(enc, lights, n) {
            Some(c) => (exists|s: nat|
                s < n && #[trigger] press_spec(enc, s) == lights && pop_count(s) == c) && (forall|
                s: nat,
            |
                s < n && #[trigger] press_spec(enc, s) == lights ==> pop_count(s) >= c),
            None => forall|s: nat| s < n ==> #[trigger] press_spec(enc, s) != lights,
        },
    decreases n,
{
    if n > 0 {
        lemma_min_press_upto_optimal(enc, lights, (n - 1) as nat);
        let prev = min_press_upto(enc, lights, (n - 1) as nat);
        if press_spec(enc, (n - 1) as nat) == lights {
            match prev {
                None => {
                    assert(press_spec(enc, (n - 1) as nat) == lights && pop_count((n - 1) as nat)
                        == pop_count((n - 1) as nat));
                },
                Some(p) => {
                    if pop_count((n - 1) as nat) < p {
                        assert(press_spec(enc, (n - 1) as nat) == lights);
                    }
                },
            }
        }
    }
}

impl Machine {
    /// Least press count reaching the light target, trying every subset of
    /// buttons, or `None` when no subset reaches it.
    pub fn find_min_nb_press(&self) -> (r: Option<u32>)
        requires
            self.wf(),
        ensures
            r is Some <==> spec_min_press(*self) is Some,
            r is Some ==> Some(r->Some_0 as nat) == spec_min_press(*self),
    {
        let ghost enc = self.buttons_encoded@;
        let nb = self.buttons_encoded.len();
        let total: u64 = pow2_u64(nb as u64);
        let mut best: Option<u32> = None;
        let mut i: u64 = 0;
        proof {
            if nb < 32 {
                lemma_pow2_strictly_increases(nb as nat, 32);
            }
            lemma2_to64();
        }
        while i < total
            invariant
                self.wf(),
                enc == self.buttons_encoded@,
                nb == enc.len(),
                total == pow2(nb as nat),
                total <= 0x1_0000_0000u64,
                i <= total,
                match best {
                    None => min_press_upto(enc, self.lights, i as nat) is None,
                    Some(b) => Some(b as nat) == min_press_upto(enc, self.lights, i as nat),
                },
            decreases total - i,
        {
            let pressed = self.press(i as u32);
            if pressed == self.lights {
                let ones = popcount_u32(i as u32);
                best = match best {
                    None => Some(ones),
                    Some(b) => if ones < b {
                        Some(ones)
                    } else {
                        Some(b)
                    },
                };
            }
            i = i + 1;
        }
        best
    }
}

/// Sum of the light minima of `ms`, or `None` when a machine is infeasible.
pub open spec fn spec_p1_sum(ms: Seq<Machine>) -> Option<nat>
    decreases ms.len(),
{
    if ms.len() == 0 {
        Some(0)
    } else {
        match (spec_p1_sum(ms.drop_last()), spec_min_press(ms.last())) {
            (Some(a), Some(b)) => Some(a + b),
            _ => None,
        }
    }
}

/// A feasible light minimum is at most the number of buttons.
pub proof fn lemma_min_press_bound(m: Machine)
    requires
        m.wf(),
        spec_min_press(m) is Some,
    ensures
        spec_min_press(m)->Some_0 <= 32,
{
    let enc = m.buttons_encoded@;
    lemma_min_press_upto_optimal(enc, m.lights, pow2(enc.len()));
    let c = spec_min_press(m)->Some_0;
    let s = choose|s: nat|
        s < pow2(enc.len()) && #[trigger] press_spec(enc, s) == m.lights && pop_count(s) == c;
    if enc.len() < 32 {
        lemma_pow2_strictly_increases(enc.len(), 32);
    }
    lemma_pop_count_bound(s, 32);
}

/// Sums the light minima over all machines; `None` when any machine
/// cannot reach its light target.
pub fn solve_p1(machines: &Vec<Machine>) -> (r: Option<u32>)
    requires
        forall|k: int| 0 <= k < machines@.len() ==> (#[trigger] machines@[k]).wf(),
        machines@.len() * 32 <= u32::MAX,
    ensures
        r is Some <==> spec_p1_sum(machines@) is Some,
        r is Some ==> Some(r->Some_0 as nat) == spec_p1_sum(machines@),
{
    let mut acc: u32 = 0;
    let mut k: usize = 0;
    while k < machines.len()
        invariant
            k <= machines@.len(),
            forall|k2: int| 0 <= k2 < machines@.len() ==> (#[trigger] machines@[k2]).wf(),
            machines@.len() * 32 <= u32::MAX,
            Some(acc as nat) == spec_p1_sum(machines@.take(k as int)),
            acc <= k * 32,
        decreases machines@.len() - k,
    {
        proof {
            assert(machines@.take(k + 1).drop_last() =~= machines@.take(k as int));
            assert(machines@.take(k + 1).last() == machines@[k as int]);
        }
        match machines[k].find_min_nb_press() {
            None => {
                proof {
                    lemma_p1_sum_none(machines@, k as int);
                }
                return None;
            },
            Some(c) => {
                proof {
                    lemma_min_press_bound(machines@[k as int]);
                    vstd::arithmetic::mul::lemma_mul_inequality(
                        (k + 1) as int,
                        machines@.len() as int,
                        32,
                    );
                }
                acc = acc + c;
            },
        }
        k = k + 1;
    }
    proof {
        assert(machines@.take(machines@.len() as int) =~= machines@);
    }
    Some(acc)
}

/// One infeasible machine makes the whole sum infeasible.
proof fn lemma_p1_sum_none(ms: Seq<Machine>, k: int)
    requires
        0 <= k < ms.len(),
        spec_min_press(ms[k]) is None,
    ensures
        spec_p1_sum(ms) is None,
    decreases ms.len(),
{
    if k == ms.len() - 1 {
    } else {
        lemma_p1_sum_none(ms.drop_last(), k);
    }
}

/// Every counter is already zero.
pub open spec fn all_zero(jolt: Seq<u32>) -> bool {
    forall|j: int| 0 <= j < jolt.len() ==> jolt[j] == 0
}

/// The compressed row that marks which counters are odd.
pub open spec fn parity_val(jolt: Seq<u32>) -> nat {
    compress_spec(Seq::new(jolt.len(), |j: int| jolt[j] % 2 == 1))
}

/// The subset `index` can be pressed without driving a counter below zero.
pub open spec fn press_feasible(enc: Seq<u32>, jolt: Seq<u32>, index: nat) -> bool {
    forall|j: int| 0 <= j < jolt.len() ==> touch_count(enc, index, jolt.len(), j) <= jolt[j]
}

/// The counters after pressing `index` once and halving every entry.
pub open spec fn halved(enc: Seq<u32>, jolt: Seq<u32>, index: nat) -> Seq<u32> {
    Seq::new(jolt.len(), |j: int| ((jolt[j] - touch_count(enc, index, jolt.len(), j)) / 2) as u32)
}

/// Pressing a feasible subset and halving strictly shrinks a non-zero
/// counter vector.
pub proof fn lemma_halved_sum_lt(enc: Seq<u32>, jolt: Seq<u32>, index: nat)
    requires
        press_feasible(enc, jolt, index),
        !all_zero(jolt),
    ensures
        0 <= sum_u32(halved(enc, jolt, index)) <= sum_u32(jolt),
        sum_u32(halved(enc, jolt, index)) < sum_u32(jolt),
{
    let h = halved(enc, jolt, index);
    let j0 = choose|j: int| 0 <= j < jolt.len() && jolt[j] != 0;
    assert forall|j: int| 0 <= j < jolt.len() implies h[j] <= jolt[j] by {}
    assert(h[j0] < jolt[j0]);
    crate::math::lemma_sum_u32_pointwise_lt(h, jolt, j0);
    crate::math::lemma_sum_u32_nonneg(h);
}

/// Least total press count that drives every counter to zero, pressing at
/// each halving level one subset whose light pattern matches the counters'
/// parities; `None` when no schedule of presses reaches all-zero.
pub open spec fn solve_spec(enc: Seq<u32>, jolt: Seq<u32>) -> Option<nat>
    decreases sum_u32(jolt), pow2(enc.len()) + 1,
{
    if all_zero(jolt) {
        Some(0)
    } else {
        proof {
            crate::math::lemma_sum_u32_nonneg(jolt);
        }
        solve_cands(enc, jolt, 0)
    }
}

/// Least cost over candidate first subsets `s` and above: a candidate must
/// match the parity row and stay feasible; its cost is twice the cost of
/// the halved remainder plus its own press count.
pub open spec fn solve_cands(enc: Seq<u32>, jolt: Seq<u32>, s: nat) -> Option<nat>
    decreases sum_u32(jolt), pow2(enc.len()) - s,
{
    if all_zero(jolt) || s >= pow2(enc.len()) {
        None
    } else if press_spec(enc, s) as nat == parity_val(jolt) && press_feasible(enc, jolt, s) {
        proof {
            lemma_halved_sum_lt(enc, jolt, s);
        }
        let deeper = solve_spec(enc, halved(enc, jolt, s));
        let rest = solve_cands(enc, jolt, s + 1);
        match deeper {
            None => rest,
            Some(d) => opt_min(rest, 2 * d + pop_count(s)),
        }
    } else {
        proof {
            crate::math::lemma_sum_u32_nonneg(jolt);
        }
        solve_cands(enc, jolt, s + 1)
    }
}

/// A machine whose counters already sit at zero needs no press at all.
pub proof fn lemma_solve_zero(enc: Seq<u32>, jolt: Seq<u32>)
    requires
        all_zero(jolt),
    ensures
        solve_spec(enc, jolt) == Some(0nat),
{
}

/// Candidate ranges without a matching feasible subset contribute nothing.
pub proof fn lemma_cands_skip(enc: Seq<u32>, jolt: Seq<u32>, s1: nat, s2: nat)
    requires
        s1 <= s2 <= pow2(enc.len()),
        forall|s: nat|
            s1 <= s < s2 ==> !(press_spec(enc, s) as nat == parity_val(jolt) && press_feasible(
                enc,
                jolt,
                s,
            )),
    ensures
        solve_cands(enc, jolt, s1) == solve_cands(enc, jolt, s2),
    decreases s2 - s1,
{
    if s1 < s2 {
        assert(!(press_spec(enc, s1) as nat == parity_val(jolt) && press_feasible(
            enc,
            jolt,
            s1,
        )));
        lemma_cands_skip(enc, jolt, s1 + 1, s2);
    }
}

/// A cost the solver returns is bounded by the number of buttons times
/// the counters' bit width: each halving level presses at most every
/// button once.
pub proof fn lemma_solve_spec_bound(enc: Seq<u32>, jolt: Seq<u32>, k: nat)
    requires
        enc.len() <= 32,
        forall|j: int| 0 <= j < jolt.len() ==> (jolt[j] as nat) < pow2(k),
    ensures
        solve_spec(enc, jolt) is Some ==> solve_spec(enc, jolt)->Some_0 <= 32 * (pow2(k + 1) - 1),
    decreases sum_u32(jolt), pow2(enc.len()) + 1,
{
    lemma_pow2_pos(k + 1);
    if !all_zero(jolt) {
        crate::math::lemma_sum_u32_nonneg(jolt);
        lemma_cands_bound(enc, jolt, 0, k);
    }
}

proof fn lemma_cands_bound(enc: Seq<u32>, jolt: Seq<u32>, s: nat, k: nat)
    requires
        enc.len() <= 32,
        forall|j: int| 0 <= j < jolt.len() ==> (jolt[j] as nat) < pow2(k),
    ensures
        solve_cands(enc, jolt, s) is Some ==> solve_cands(enc, jolt, s)->Some_0 <= 32 * (pow2(
            k + 1,
        ) - 1),
    decreases sum_u32(jolt), pow2(enc.len()) - s,
{
    lemma_pow2_pos(k + 1);
    if all_zero(jolt) || s >= pow2(enc.len()) {
    } else if press_spec(enc, s) as nat == parity_val(jolt) && press_feasible(enc, jolt, s) {
        lemma_halved_sum_lt(enc, jolt, s);
        let h = halved(enc, jolt, s);
        assert(k >= 1) by {
            let j0 = choose|j: int| 0 <= j < jolt.len() && jolt[j] != 0;
            if k == 0 {
                lemma2_to64();
                assert((jolt[j0] as nat) < pow2(0));
            }
        }
        assert forall|j: int| 0 <= j < h.len() implies (h[j] as nat) < pow2((k - 1) as nat) by {
            lemma_pow2_unfold(k);
            assert(h[j] <= jolt[j] / 2);
        }
        lemma_solve_spec_bound(enc, h, (k - 1) as nat);
        lemma_cands_bound(enc, jolt, s + 1, k);
        if enc.len() < 32 {
            lemma_pow2_strictly_increases(enc.len(), 32);
        }
        lemma_pop_count_bound(s, 32);
        lemma_pow2_unfold(k + 1);
        lemma_pow2_pos(k);
    } else {
        crate::math::lemma_sum_u32_nonneg(jolt);
        lemma_cands_bound(enc, jolt, s + 1, k);
    }
}

/// The smaller of two optional costs, `None` standing for no solution.
pub open spec fn opt_merge(a: Option<nat>, b: Option<nat>) -> Option<nat> {
    match (a, b) {
        (Option::None, _) => b,
        (_, Option::None) => a,
        (Option::Some(x), Option::Some(y)) => if x <= y {
            a
        } else {
            b
        },
    }
}

/// An exec cost read as a mathematical one.
pub open spec fn cost_nat(a: Option<u64>) -> Option<nat> {
    match a {
        Option::None => Option::None,
        Option::Some(x) => Option::Some(x as nat),
    }
}

/// Some group of the index holds the subset `s`, under its press pattern
/// as the key.
pub open spec fn covers(enc: Seq<u32>, entries: Seq<(u32, Vec<u32>)>, s: nat) -> bool {
    exists|e: int|
        0 <= e < entries.len() && entries[e].0 == press_spec(enc, s) && entries[e].1@.contains(
            s as u32,
        )
}

/// The press index handed to the joint solver: subsets grouped by the
/// light pattern they produce, every subset present exactly once, each
/// group in increasing order, keys distinct.
pub open spec fn wf_possible(enc: Seq<u32>, entries: Seq<(u32, Vec<u32>)>) -> bool {
    &&& forall|e: int, x: int|
        0 <= e < entries.len() && 0 <= x < entries[e].1@.len() ==> {
            &&& (#[trigger] entries[e].1@[x] as nat) < pow2(enc.len())
            &&& press_spec(enc, entries[e].1@[x] as nat) == entries[e].0
        }
    &&& forall|e: int, x1: int, x2: int|
        0 <= e < entries.len() && 0 <= x1 < x2 < entries[e].1@.len() ==> #[trigger] entries[e].1@[x1]
            < #[trigger] entries[e].1@[x2]
    &&& forall|s: nat| s < pow2(enc.len()) ==> #[trigger] covers(enc, entries, s)
    &&& forall|e1: int, e2: int|
        0 <= e1 < e2 < entries.len() ==> (#[trigger] entries[e1]).0 != (#[trigger] entries[e2]).0
}

/// In a range that avoids every member of the matching group, no subset
/// presses the parity pattern at all.
proof fn lemma_no_candidate_between(
    enc: Seq<u32>,
    entries: Seq<(u32, Vec<u32>)>,
    e: int,
    jolt: Seq<u32>,
    lo: nat,
    hi: nat,
)
    requires
        wf_possible(enc, entries),
        enc.len() <= 32,
        0 <= e < entries.len(),
        entries[e].0 as nat == parity_val(jolt),
        hi <= pow2(enc.len()),
        forall|x: int| 0 <= x < entries[e].1@.len() ==> !(lo <= #[trigger] entries[e].1@[x] < hi),
    ensures
        forall|s: nat| lo <= s < hi ==> #[trigger] press_spec(enc, s) as nat != parity_val(jolt),
{
    assert forall|s: nat| lo <= s < hi implies #[trigger] press_spec(enc, s) as nat != parity_val(
        jolt,
    ) by {
        if enc.len() < 32 {
            lemma_pow2_strictly_increases(enc.len(), 32);
        }
        lemma2_to64();
        if press_spec(enc, s) as nat == parity_val(jolt) {
            assert(covers(enc, entries, s));
            let e2 = choose|e2: int|
                0 <= e2 < entries.len() && entries[e2].0 == press_spec(enc, s)
                    && entries[e2].1@.contains(s as u32);
            assert(e2 == e);
            let x = choose|x: int| 0 <= x < entries[e].1@.len() && entries[e].1@[x] == s as u32;
            assert(!(lo <= entries[e].1@[x] < hi));
        }
    }
}

impl Machine {
    /// The same machine with its counters replaced.
    pub fn reduce(&self, new_joltages: &Vec<u32>) -> (r: Machine)
        ensures
            r.lights == self.lights,
            r.buttons_encoded@ == self.buttons_encoded@,
            r.buttons@.len() == self.buttons@.len(),
            r.joltages@ == new_joltages@,
    {
        Machine {
            lights: self.lights,
            joltages: copy_u32s(new_joltages),
            buttons: copy_rows(&self.buttons),
            buttons_encoded: copy_u32s(&self.buttons_encoded),
        }
    }

    /// Least total press count that zeroes every counter, recursing on the
    /// halved remainder after pressing one parity-matching subset; `None`
    /// exactly when no press schedule reaches zero.
    pub fn solve_reduce(&self, possible: &Vec<(u32, Vec<u32>)>) -> (r: Option<u64>)
        requires
            self.wf(),
            wf_possible(self.buttons_encoded@, possible@),
        ensures
            cost_nat(r) == solve_spec(self.buttons_encoded@, self.joltages@),
        decreases sum_u32(self.joltages@),
    {
        let ghost enc = self.buttons_encoded@;
        let ghost jolt = self.joltages@;
        let nc = self.joltages.len();

        let mut all0 = true;
        let mut j: usize = 0;
        while j < nc
            invariant
                j <= nc == jolt.len(),
                jolt == self.joltages@,
                all0 == forall|j2: int| 0 <= j2 < j ==> jolt[j2] == 0,
            decreases nc - j,
        {
            if self.joltages[j] != 0 {
                all0 = false;
            }
            j = j + 1;
        }
        if all0 {
            return Some(0);
        }
        assert(!all_zero(jolt));

        let mut par: Vec<bool> = Vec::new();
        let mut j2: usize = 0;
        while j2 < nc
            invariant
                j2 <= nc == jolt.len(),
                jolt == self.joltages@,
                par@ =~= Seq::new(j2 as nat, |j3: int| jolt[j3] % 2 == 1),
            decreases nc - j2,
        {
            par.push(self.joltages[j2] % 2 == 1);
            proof {
                assert(par@ =~= Seq::new((j2 + 1) as nat, |j3: int| jolt[j3] % 2 == 1));
            }
            j2 = j2 + 1;
        }
        let parity = compress(&par);
        assert(parity as nat == parity_val(jolt)) by {
            assert(par@ =~= Seq::new(jolt.len(), |j3: int| jolt[j3] % 2 == 1));
        }

        let mut found: Option<usize> = None;
        let mut e: usize = 0;
        while e < possible.len()
            invariant
                e <= possible@.len(),
                match found {
                    Option::None => forall|e2: int| 0 <= e2 < e ==> possible@[e2].0 != parity,
                    Option::Some(ei) => ei < possible@.len() && possible@[ei as int].0 == parity,
                },
            decreases possible@.len() - e,
        {
            if possible[e].0 == parity {
                found = Some(e);
            }
            e = e + 1;
        }

        match found {
            None => {
                proof {
                    assert forall|s: nat| s < pow2(enc.len()) implies !(#[trigger] press_spec(
                        enc,
                        s,
                    ) as nat == parity_val(jolt) && press_feasible(enc, jolt, s)) by {
                        if press_spec(enc, s) as nat == parity_val(jolt) {
                            assert(covers(enc, possible@, s));
                            let e2 = choose|e2: int|
                                0 <= e2 < possible@.len() && possible@[e2].0 == press_spec(enc, s)
                                    && possible@[e2].1@.contains(s as u32);
                            assert(possible@[e2].0 != parity);
                        }
                    }
                    lemma_cands_skip(enc, jolt, 0, pow2(enc.len()));
                }
                None
            },
            Some(ei) => {
                let ev = &possible[ei].1;
                let ghost evs = ev@;
                let ghost total = pow2(enc.len());
                let mut best: Option<u64> = None;
                let mut x: usize = 0;
                proof {
                    if evs.len() > 0 {
                        assert forall|x2: int| 0 <= x2 < evs.len() implies !(0 <= #[trigger] evs[x2]
                            < evs[0] as nat) by {
                            if x2 > 0 {
                                assert(evs[0] < evs[x2]);
                            }
                        }
                        lemma_no_candidate_between(
                            enc,
                            possible@,
                            ei as int,
                            jolt,
                            0,
                            evs[0] as nat,
                        );
                        lemma_cands_skip(enc, jolt, 0, evs[0] as nat);
                    } else {
                        lemma_no_candidate_between(enc, possible@, ei as int, jolt, 0, total);
                        lemma_cands_skip(enc, jolt, 0, total);
                    }
                }
                while x < ev.len()
                    invariant
                        x <= evs.len(),
                        self.wf(),
                        enc == self.buttons_encoded@,
                        jolt == self.joltages@,
                        !all_zero(jolt),
                        wf_possible(enc, possible@),
                        ei < possible@.len(),
                        possible@[ei as int].0 == parity,
                        parity as nat == parity_val(jolt),
                        evs == possible@[ei as int].1@,
                        ev@ == evs,
                        total == pow2(enc.len()),
                        opt_merge(
                            cost_nat(best),
                            solve_cands(
                                enc,
                                jolt,
                                if x < evs.len() {
                                    evs[x as int] as nat
                                } else {
                                    total
                                },
                            ),
                        ) == solve_cands(enc, jolt, 0),
                        match best {
                            Option::None => true,
                            Option::Some(b) => b <= 64 * (pow2(33) - 1) + 32,
                        },
                    decreases evs.len() - x,
                {
                    let s = ev[x];
                    let ghost snat = s as nat;
                    let ghost next: nat = if x + 1 < evs.len() {
                        evs[x + 1] as nat
                    } else {
                        total
                    };
                    proof {
                        assert(press_spec(enc, snat) == parity);
                        assert(snat < total);
                        // between this member and the next there is no
                        // parity-matching subset
                        assert forall|x2: int| 0 <= x2 < evs.len() implies !(snat + 1 <= #[trigger] evs[x2]
                            < next) by {
                            if x2 <= x {
                                assert(evs[x2] <= evs[x as int]);
                            } else if x + 1 < evs.len() {
                                assert(evs[x + 1] <= evs[x2]);
                            }
                        }
                        lemma_no_candidate_between(
                            enc,
                            possible@,
                            ei as int,
                            jolt,
                            snat + 1,
                            next,
                        );
                        lemma_cands_skip(enc, jolt, snat + 1, next);
                    }
                    match self.press_joltages(s) {
                        None => {
                            proof {
                                assert(!press_feasible(enc, jolt, snat));
                                assert(solve_cands(enc, jolt, snat) == solve_cands(
                                    enc,
                                    jolt,
                                    snat + 1,
                                ));
                            }
                        },
                        Some(pressed) => {
                            assert(press_feasible(enc, jolt, snat));
                            let mut hv: Vec<u32> = Vec::new();
                            let mut hj: usize = 0;
                            while hj < pressed.len()
                                invariant
                                    hj <= pressed@.len() == jolt.len(),
                                    forall|j3: int|
                                        0 <= j3 < jolt.len() ==> pressed@[j3] == jolt[j3]
                                            - touch_count(enc, snat, jolt.len(), j3),
                                    hv@ =~= halved(enc, jolt, snat).take(hj as int),
                                decreases pressed@.len() - hj,
                            {
                                hv.push(pressed[hj] / 2);
                                proof {
                                    assert(hv@ =~= halved(enc, jolt, snat).take(hj + 1));
                                }
                                hj = hj + 1;
                            }
                            proof {
                                assert(hv@ =~= halved(enc, jolt, snat));
                                lemma_halved_sum_lt(enc, jolt, snat);
                            }
                            let m2 = self.reduce(&hv);
                            let deeper = m2.solve_reduce(possible);
                            proof {
                                lemma2_to64();
                                vstd::arithmetic::power2::lemma2_to64_rest();
                                assert forall|j3: int| 0 <= j3 < hv@.len() implies (#[trigger] hv@[j3] as nat)
                                    < pow2(32) by {}
                                lemma_solve_spec_bound(enc, hv@, 32);
                            }
                            match deeper {
                                None => {
                                    proof {
                                        assert(solve_cands(enc, jolt, snat) == solve_cands(
                                            enc,
                                            jolt,
                                            snat + 1,
                                        ));
                                    }
                                },
                                Some(d) => {
                                    assert(d <= 32 * (pow2(33) - 1));
                                    let ones = popcount_u32(s);
                                    let cand: u64 = 2 * d + ones as u64;
                                    assert(cand as nat == 2 * (d as nat) + pop_count(snat));
                                    best = match best {
                                        None => Some(cand),
                                        Some(b) => if cand < b {
                                            Some(cand)
                                        } else {
                                            Some(b)
                                        },
                                    };
                                },
                            }
                        },
                    }
                    x = x + 1;
                }
                proof {
                    assert(solve_cands(enc, jolt, total) is None);
                }
                best
            },
        }
    }
}

impl Machine {
    /// Joint solver entry point: groups every subset by the light pattern
    /// it presses, then runs the halving search over that index. Returns
    /// the least total press count that zeroes every counter, or `None`
    /// when the counters cannot be zeroed.
    pub fn i_have_cheated_p2(&self) -> (r: Option<u64>)
        requires
            self.wf(),
        ensures
            cost_nat(r) == solve_spec(self.buttons_encoded@, self.joltages@),
    {
        let ghost enc = self.buttons_encoded@;
        let nb = self.buttons_encoded.len();
        let total: u64 = pow2_u64(nb as u64);
        proof {
            if nb < 32 {
                lemma_pow2_strictly_increases(nb as nat, 32);
            }
            lemma2_to64();
        }

        let mut keys: Vec<u32> = Vec::new();
        let mut groups: Vec<Vec<u32>> = Vec::new();
        let mut s: u64 = 0;
        while s < total
            invariant
                s <= total == pow2(nb as nat),
                total <= 0x1_0000_0000u64,
                nb == enc.len(),
                enc == self.buttons_encoded@,
                self.wf(),
                keys@.len() == groups@.len(),
                forall|e1: int, e2: int|
                    0 <= e1 < e2 < keys@.len() ==> keys@[e1] != keys@[e2],
                forall|e: int, x: int|
                    0 <= e < groups@.len() && 0 <= x < groups@[e]@.len() ==> {
                        &&& (#[trigger] groups@[e]@[x] as nat) < s
                        &&& press_spec(enc, groups@[e]@[x] as nat) == keys@[e]
                    },
                forall|e: int, x1: int, x2: int|
                    0 <= e < groups@.len() && 0 <= x1 < x2 < groups@[e]@.len()
                        ==> groups@[e]@[x1] < groups@[e]@[x2],
                forall|s2: nat|
                    s2 < s ==> exists|e: int|
                        0 <= e < keys@.len() && keys@[e] == #[trigger] press_spec(enc, s2)
                            && groups@[e]@.contains(s2 as u32),
            decreases total - s,
        {
            let key = self.press(s as u32);
            let mut found: Option<usize> = None;
            let mut e: usize = 0;
            while e < keys.len()
                invariant
                    e <= keys@.len(),
                    match found {
                        Option::None => forall|e2: int| 0 <= e2 < e ==> keys@[e2] != key,
                        Option::Some(ei) => ei < keys@.len() && keys@[ei as int] == key,
                    },
                decreases keys@.len() - e,
            {
                if keys[e] == key {
                    found = Some(e);
                }
                e = e + 1;
            }
            let ghost old_groups = groups@;
            let ghost old_keys = keys@;
            match found {
                Some(ei) => {
                    let g = &mut groups[ei];
                    g.push(s as u32);
                    proof {
                        assert(groups@[ei as int]@ =~= old_groups[ei as int]@.push(s as u32));
                        assert forall|s2: nat| s2 < s + 1 implies exists|e2: int|
                            0 <= e2 < keys@.len() && keys@[e2] == #[trigger] press_spec(enc, s2)
                                && groups@[e2]@.contains(s2 as u32) by {
                            if s2 == s as nat {
                                assert(keys@[ei as int] == press_spec(enc, s2));
                                assert(groups@[ei as int]@[old_groups[ei as int]@.len() as int]
                                    == s2 as u32);
                                assert(groups@[ei as int]@.contains(s2 as u32));
                            } else {
                                let e2 = choose|e2: int|
                                    0 <= e2 < old_keys.len() && old_keys[e2] == press_spec(
                                        enc,
                                        s2,
                                    ) && old_groups[e2]@.contains(s2 as u32);
                                let x = choose|x: int|
                                    0 <= x < old_groups[e2]@.len() && old_groups[e2]@[x]
                                        == s2 as u32;
                                assert(groups@[e2]@[x] == s2 as u32);
                                assert(groups@[e2]@.contains(s2 as u32));
                            }
                        }
                    }
                },
                None => {
                    keys.push(key);
                    let mut g: Vec<u32> = Vec::new();
                    g.push(s as u32);
                    groups.push(g);
                    proof {
                        assert forall|s2: nat| s2 < s + 1 implies exists|e2: int|
                            0 <= e2 < keys@.len() && keys@[e2] == #[trigger] press_spec(enc, s2)
                                && groups@[e2]@.contains(s2 as u32) by {
                            if s2 == s as nat {
                                let e2 = old_keys.len() as int;
                                assert(keys@[e2] == press_spec(enc, s2));
                                assert(groups@[e2]@[0] == s2 as u32);
                                assert(groups@[e2]@.contains(s2 as u32));
                            } else {
                                let e2 = choose|e2: int|
                                    0 <= e2 < old_keys.len() && old_keys[e2] == press_spec(
                                        enc,
                                        s2,
                                    ) && old_groups[e2]@.contains(s2 as u32);
                                assert(keys@[e2] == press_spec(enc, s2));
                                assert(groups@[e2]@.contains(s2 as u32));
                            }
                        }
                    }
                },
            }
            s = s + 1;
        }

        let ghost gkeys = keys@;
        let ghost ggroups = groups@;
        let mut possible: Vec<(u32, Vec<u32>)> = Vec::new();
        let mut k: usize = 0;
        while k < keys.len()
            invariant
                k <= gkeys.len() == keys@.len(),
                keys@ == gkeys,
                ggroups.len() == gkeys.len(),
                groups@.len() == gkeys.len() - k,
                forall|e: int| 0 <= e < groups@.len() ==> groups@[e] == ggroups[e + k],
                possible@.len() == k,
                forall|e: int|
                    0 <= e < k ==> (#[trigger] possible@[e]).0 == gkeys[e] && possible@[e].1
                        == ggroups[e],
            decreases gkeys.len() - k,
        {
            let kv = keys[k];
            let gv = groups.remove(0);
            possible.push((kv, gv));
            proof {
                assert forall|e: int| 0 <= e < groups@.len() implies groups@[e] == ggroups[e + k
                    + 1] by {}
            }
            k = k + 1;
        }
        proof {
            assert forall|e: int, x: int|
                0 <= e < possible@.len() && 0 <= x < possible@[e].1@.len() implies {
                &&& (#[trigger] possible@[e].1@[x] as nat) < pow2(enc.len())
                &&& press_spec(enc, possible@[e].1@[x] as nat) == possible@[e].0
            } by {
                assert(possible@[e].1 == ggroups[e]);
                assert((ggroups[e]@[x] as nat) < pow2(enc.len()) && press_spec(
                    enc,
                    ggroups[e]@[x] as nat,
                ) == gkeys[e]);
            }
            assert forall|e: int, x1: int, x2: int|
                0 <= e < possible@.len() && 0 <= x1 < x2 < possible@[e].1@.len()
                implies #[trigger] possible@[e].1@[x1] < #[trigger] possible@[e].1@[x2] by {
                assert(possible@[e].1 == ggroups[e]);
                assert(ggroups[e]@[x1] < ggroups[e]@[x2]);
            }
            assert forall|e1: int, e2: int|
                0 <= e1 < e2 < possible@.len() implies (#[trigger] possible@[e1]).0 != (
            #[trigger] possible@[e2]).0 by {
                assert(gkeys[e1] != gkeys[e2]);
            }
            assert forall|s2: nat| s2 < pow2(enc.len()) implies #[trigger] covers(
                enc,
                possible@,
                s2,
            ) by {
                let e2 = choose|e2: int|
                    0 <= e2 < gkeys.len() && gkeys[e2] == press_spec(enc, s2)
                        && ggroups[e2]@.contains(s2 as u32);
                assert(possible@[e2].0 == press_spec(enc, s2));
                assert(possible@[e2].1@.contains(s2 as u32));
            }
            assert(wf_possible(enc, possible@));
        }
        self.solve_reduce(&possible)
    }
}

/// A machine as parsed from its input line: lights and buttons as rows of
/// booleans, counters as numbers.
pub struct MachineParsed {
    pub lights: Vec<bool>,
    pub buttons: Vec<Vec<bool>>,
    pub joltage: Vec<u32>,
}

impl MachineParsed {
    /// Bounds that let every row compress into one machine word, with all
    /// button rows as wide as the light row.
    pub open spec fn wf(self) -> bool {
        &&& self.lights@.len() <= 32
        &&& self.joltage@.len() <= 32
        &&& self.buttons@.len() <= 32
        &&& forall|i: int|
            0 <= i < self.buttons@.len() ==> (#[trigger] self.buttons@[i])@.len()
                == self.lights@.len()
    }
}

/// `m` is the compressed form of the parsed machine `p`.
pub open spec fn machine_matches(m: Machine, p: MachineParsed) -> bool {
    &&& m.lights == compress_spec(p.lights@)
    &&& m.joltages@ == p.joltage@
    &&& m.buttons@.len() == p.buttons@.len()
    &&& m.buttons_encoded@.len() == p.buttons@.len()
    &&& forall|i: int|
        0 <= i < p.buttons@.len() ==> (#[trigger] m.buttons@[i])@ == p.buttons@[i]@.map_values(
            |b: bool| if b {
                1u32
            } else {
                0u32
            },
        )
    &&& forall|i: int|
        0 <= i < p.buttons@.len() ==> #[trigger] m.buttons_encoded@[i] == compress_spec(
            p.buttons@[i]@,
        )
}

impl Machine {
    /// Compresses a parsed machine into solver form.
    pub fn from_mp(parsed: &MachineParsed) -> (m: Machine)
        requires
            parsed.wf(),
        ensures
            machine_matches(m, *parsed),
            m.wf(),
    {
        let lights = compress(&parsed.lights);
        let joltages = copy_u32s(&parsed.joltage);
        let mut buttons: Vec<Vec<u32>> = Vec::new();
        let mut buttons_encoded: Vec<u32> = Vec::new();
        let mut i: usize = 0;
        while i < parsed.buttons.len()
            invariant
                i <= parsed.buttons@.len(),
                parsed.wf(),
                buttons@.len() == i,
                buttons_encoded@.len() == i,
                forall|k: int|
                    0 <= k < i ==> (#[trigger] buttons@[k])@ == parsed.buttons@[k]@.map_values(
                        |b: bool| if b {
                            1u32
                        } else {
                            0u32
                        },
                    ),
                forall|k: int|
                    0 <= k < i ==> #[trigger] buttons_encoded@[k] == compress_spec(
                        parsed.buttons@[k]@,
                    ),
            decreases parsed.buttons@.len() - i,
        {
            let row = &parsed.buttons[i];
            let mut num_row: Vec<u32> = Vec::new();
            let mut k: usize = 0;
            while k < row.len()
                invariant
                    k <= row@.len(),
                    num_row@ =~= row@.map_values(
                        |b: bool| if b {
                            1u32
                        } else {
                            0u32
                        },
                    ).take(k as int),
                decreases row@.len() - k,
            {
                num_row.push(if row[k] {
                    1
                } else {
                    0
                });
                proof {
                    assert(num_row@ =~= row@.map_values(
                        |b: bool| if b {
                            1u32
                        } else {
                            0u32
                        },
                    ).take(k + 1));
                }
                k = k + 1;
            }
            proof {
                assert(num_row@ =~= row@.map_values(
                    |b: bool| if b {
                        1u32
                    } else {
                        0u32
                    },
                ));
            }
            buttons.push(num_row);
            buttons_encoded.push(compress(row));
            i = i + 1;
        }
        Machine { lights, joltages, buttons, buttons_encoded }
    }

    /// Compresses a whole list of parsed machines.
    pub fn from_mps(parsed: &Vec<MachineParsed>) -> (ms: Vec<Machine>)
        requires
            forall|k: int| 0 <= k < parsed@.len() ==> (#[trigger] parsed@[k]).wf(),
        ensures
            ms@.len() == parsed@.len(),
            forall|k: int|
                0 <= k < parsed@.len() ==> machine_matches(#[trigger] ms@[k], parsed@[k])
                    && ms@[k].wf(),
    {
        let mut ms: Vec<Machine> = Vec::new();
        let mut k: usize = 0;
        while k < parsed.len()
            invariant
                k <= parsed@.len(),
                ms@.len() == k,
                forall|k2: int| 0 <= k2 < parsed@.len() ==> (#[trigger] parsed@[k2]).wf(),
                forall|k2: int|
                    0 <= k2 < k ==> machine_matches(#[trigger] ms@[k2], parsed@[k2])
                        && ms@[k2].wf(),
            decreases parsed@.len() - k,
        {
            ms.push(Self::from_mp(&parsed[k]));
            k = k + 1;
        }
        ms
    }

    /// The same machine with every counter scaled down to `percent` of its
    /// value, rounding down.
    pub fn get_simpler(&self, percent: u32) -> (r: Machine)
        requires
            forall|j: int|
                0 <= j < self.joltages@.len() ==> (#[trigger] self.joltages@[j]) * percent
                    <= u32::MAX,
        ensures
            r.lights == self.lights,
            r.buttons_encoded@ == self.buttons_encoded@,
            r.buttons@.len() == self.buttons@.len(),
            r.joltages@.len() == self.joltages@.len(),
            forall|j: int|
                0 <= j < self.joltages@.len() ==> #[trigger] r.joltages@[j] == self.joltages@[j]
                    * percent / 100,
    {
        let mut scaled: Vec<u32> = Vec::new();
        let mut j: usize = 0;
        while j < self.joltages.len()
            invariant
                j <= self.joltages@.len(),
                forall|j2: int|
                    0 <= j2 < self.joltages@.len() ==> (#[trigger] self.joltages@[j2]) * percent
                        <= u32::MAX,
                scaled@.len() == j,
                forall|j2: int|
                    0 <= j2 < j ==> #[trigger] scaled@[j2] == self.joltages@[j2] * percent / 100,
            decreases self.joltages@.len() - j,
        {
            scaled.push(self.joltages[j] * percent / 100);
            j = j + 1;
        }
        Machine {
            lights: self.lights,
            buttons_encoded: copy_u32s(&self.buttons_encoded),
            buttons: copy_rows(&self.buttons),
            joltages: scaled,
        }
    }
}

/// Distance between two numbers, regardless of order.
pub open spec fn abs_diff_spec(a: u32, b: u32) -> int {
    if a >= b {
        a - b
    } else {
        b - a
    }
}

/// Index of the first entry where `a` and `b` differ the most; `0` when
/// the vectors are empty or nowhere differ.
pub fn diff_argmax(a: &Vec<u32>, b: &Vec<u32>) -> (r: usize)
    requires
        a@.len() == b@.len(),
    ensures
        a@.len() > 0 ==> r < a@.len(),
        a@.len() == 0 ==> r == 0,
        forall|i: int| 0 <= i < a@.len() ==> abs_diff_spec(a@[i], b@[i]) <= abs_diff_spec(a@[r as int], b@[r as int]) || abs_diff_spec(a@[r as int], b@[r as int]) == 0 && r == 0,
        forall|i: int|
            0 <= i < a@.len() && abs_diff_spec(a@[i], b@[i]) > 0 ==> abs_diff_spec(a@[i], b@[i])
                <= abs_diff_spec(a@[r as int], b@[r as int]),
        forall|i: int|
            0 <= i < r ==> abs_diff_spec(a@[i], b@[i]) < abs_diff_spec(a@[r as int], b@[r as int]),
{
    let mut best_i: usize = 0;
    let mut best_v: u32 = 0;
    let mut i: usize = 0;
    while i < a.len()
        invariant
            i <= a@.len() == b@.len(),
            best_v > 0 ==> best_i < i && abs_diff_spec(a@[best_i as int], b@[best_i as int])
                == best_v,
            best_v == 0 ==> best_i == 0,
            forall|k: int| 0 <= k < i ==> abs_diff_spec(a@[k], b@[k]) <= best_v,
            forall|k: int| 0 <= k < best_i ==> abs_diff_spec(a@[k], b@[k]) < best_v,
        decreases a@.len() - i,
    {
        let av = a[i];
        let bv = b[i];
        let d = if av >= bv {
            av - bv
        } else {
            bv - av
        };
        if d > best_v {
            best_i = i;
            best_v = d;
        }
        i = i + 1;
    }
    if a.len() > 0 && best_v == 0 {
        assert(abs_diff_spec(a@[0], b@[0]) == 0);
    }
    best_i
}

/// The bracket characters the parser strips before reading a line.
pub open spec fn is_bracket(c: char) -> bool {
    c == '[' || c == ']' || c == '(' || c == ')' || c == '{' || c == '}'
}

/// The input with every bracket character removed.
pub open spec fn strip_brackets(s: Seq<char>) -> Seq<char> {
    s.filter(|c: char| !is_bracket(c))
}

/// Stripping brackets from one more character keeps or appends it.
pub proof fn lemma_strip_brackets_step(s: Seq<char>, i: int)
    requires
        0 <= i < s.len(),
    ensures
        strip_brackets(s.take(i + 1)) == if !is_bracket(s[i]) {
            strip_brackets(s.take(i)).push(s[i])
        } else {
            strip_brackets(s.take(i))
        },
{
    reveal(Seq::filter);
    assert(s.take(i + 1).drop_last() =~= s.take(i));
    assert(s.take(i + 1).last() == s[i]);
}

/// The space-separated fields of a machine line.
pub open spec fn line_parts(line: Seq<char>) -> Seq<Seq<char>> {
    spec_split(line, ' ')
}

/// The light row read from the first field: `#` is lit.
pub open spec fn spec_lights(line: Seq<char>) -> Seq<bool> {
    line_parts(line)[0].map_values(|c: char| c == '#')
}

/// The comma-separated tokens of button `i` (fields between the first and
/// the last).
pub open spec fn button_tokens(line: Seq<char>, i: int) -> Seq<Seq<char>> {
    spec_split(line_parts(line)[i + 1], ',')
}

/// The toggle row of button `i`: light `k` is toggled exactly when some
/// token of the field names index `k`.
pub open spec fn spec_button(line: Seq<char>, i: int) -> Seq<bool> {
    Seq::new(
        spec_lights(line).len(),
        |k: int|
            exists|t: int|
                0 <= t < button_tokens(line, i).len() && digits_val(
                    #[trigger] button_tokens(line, i)[t],
                ) == k,
    )
}

/// The comma-separated tokens of the last field.
pub open spec fn joltage_tokens(line: Seq<char>) -> Seq<Seq<char>> {
    spec_split(line_parts(line).last(), ',')
}

/// The counter targets read from the last field.
pub open spec fn spec_joltage(line: Seq<char>) -> Seq<u32> {
    joltage_tokens(line).map_values(|tok: Seq<char>| digits_val(tok) as u32)
}

/// A machine line the parser accepts: a light field and a counter field
/// with buttons between them, every token a number, button tokens naming
/// existing lights, and counts within the machine word width.
pub open spec fn wf_machine_line(line: Seq<char>) -> bool {
    let parts = line_parts(line);
    &&& parts.len() >= 2
    &&& parts[0].len() <= 32
    &&& parts.len() - 2 <= 32
    &&& joltage_tokens(line).len() <= 32
    &&& forall|t: int|
        0 <= t < joltage_tokens(line).len() ==> {
            let tok = #[trigger] joltage_tokens(line)[t];
            tok.len() > 0 && all_digits(tok) && digits_val(tok) <= u32::MAX
        }
    &&& forall|i: int, t: int|
        0 <= i < parts.len() - 2 && 0 <= t < button_tokens(line, i).len() ==> {
            let tok = #[trigger] button_tokens(line, i)[t];
            tok.len() > 0 && all_digits(tok) && digits_val(tok) < parts[0].len()
        }
}

/// `p` is what a well-formed machine line describes.
pub open spec fn parsed_matches(p: MachineParsed, line: Seq<char>) -> bool {
    &&& p.lights@ == spec_lights(line)
    &&& p.buttons@.len() == line_parts(line).len() - 2
    &&& forall|i: int|
        0 <= i < p.buttons@.len() ==> (#[trigger] p.buttons@[i])@ == spec_button(line, i)
    &&& p.joltage@ == spec_joltage(line)
}

/// Reads one machine line; fails exactly on lines the grammar refuses.
fn parse_machine_line(line: &Vec<char>) -> (r: Option<MachineParsed>)
    ensures
        r is Some <==> wf_machine_line(line@),
        r is Some ==> parsed_matches(r->Some_0, line@) && r->Some_0.wf(),
{
    let ghost lparts = line_parts(line@);
    let parts = split_chars(line, ' ');
    proof {
        assert(parts@.len() == lparts.len());
        assert forall|k: int| 0 <= k < parts@.len() implies (#[trigger] parts@[k])@
            == lparts[k] by {
            assert(parts@.map_values(|p: Vec<char>| p@)[k] == lparts[k]);
        }
    }
    if parts.len() < 2 {
        return None;
    }
    let nl = parts[0].len();
    if nl > 32 {
        return None;
    }
    if parts.len() - 2 > 32 {
        return None;
    }

    let mut lights: Vec<bool> = Vec::new();
    let first = &parts[0];
    let mut c: usize = 0;
    while c < first.len()
        invariant
            c <= first@.len(),
            lights@ =~= first@.map_values(|ch: char| ch == '#').take(c as int),
        decreases first@.len() - c,
    {
        lights.push(first[c] == '#');
        proof {
            assert(lights@ =~= first@.map_values(|ch: char| ch == '#').take(c + 1));
        }
        c = c + 1;
    }
    proof {
        assert(lights@ =~= spec_lights(line@));
    }

    let mut buttons: Vec<Vec<bool>> = Vec::new();
    let mut i: usize = 1;
    while i < parts.len() - 1
        invariant
            1 <= i <= parts@.len() - 1,
            parts@.len() == lparts.len(),
            parts@.len() >= 2,
            nl == lparts[0].len() <= 32,
            forall|k: int| 0 <= k < parts@.len() ==> (#[trigger] parts@[k])@ == lparts[k],
            lparts == line_parts(line@),
            buttons@.len() == i - 1,
            forall|bi: int|
                0 <= bi < i - 1 ==> (#[trigger] buttons@[bi])@ == spec_button(line@, bi),
            forall|bi: int, t: int|
                0 <= bi < i - 1 && 0 <= t < button_tokens(line@, bi).len() ==> {
                    let tok = #[trigger] button_tokens(line@, bi)[t];
                    tok.len() > 0 && all_digits(tok) && digits_val(tok) < lparts[0].len()
                },
        decreases parts@.len() - 1 - i,
    {
        let ghost bi = i - 1;
        let ghost btoks = button_tokens(line@, bi as int);
        let toks = split_chars(&parts[i], ',');
        proof {
            assert(toks@.len() == btoks.len());
            assert forall|k: int| 0 <= k < toks@.len() implies (#[trigger] toks@[k])@
                == btoks[k] by {
                assert(toks@.map_values(|p: Vec<char>| p@)[k] == btoks[k]);
            }
        }
        let mut button: Vec<bool> = Vec::new();
        let mut z: usize = 0;
        while z < nl
            invariant
                z <= nl,
                button@.len() == z,
                forall|k: int| 0 <= k < z ==> !(#[trigger] button@[k]),
            decreases nl - z,
        {
            button.push(false);
            z = z + 1;
        }
        let mut t: usize = 0;
        while t < toks.len()
            invariant
                t <= btoks.len() == toks@.len(),
                forall|k: int| 0 <= k < toks@.len() ==> (#[trigger] toks@[k])@ == btoks[k],
                button@.len() == nl == lparts[0].len(),
                nl <= 32,
                lparts == line_parts(line@),
                lparts.len() >= 2,
                0 <= bi,
                bi == i - 1,
                bi < lparts.len() - 2,
                btoks == button_tokens(line@, bi as int),
                forall|t2: int|
                    0 <= t2 < t ==> {
                        let tok = #[trigger] btoks[t2];
                        tok.len() > 0 && all_digits(tok) && digits_val(tok) < lparts[0].len()
                    },
                forall|k: int|
                    0 <= k < nl ==> #[trigger] button@[k] == exists|t2: int|
                        0 <= t2 < t && digits_val(#[trigger] btoks[t2]) == k,
            decreases toks@.len() - t,
        {
            match crate::parsing::parse_usize(&toks[t]) {
                None => {
                    proof {
                        assert(!{
                            let tok = button_tokens(line@, bi as int)[t as int];
                            tok.len() > 0 && all_digits(tok) && digits_val(tok)
                                < lparts[0].len()
                        });
                        assert(!wf_machine_line(line@));
                    }
                    return None;
                },
                Some(idx) => {
                    if idx >= nl {
                        proof {
                            assert(!{
                                let tok = button_tokens(line@, bi as int)[t as int];
                                tok.len() > 0 && all_digits(tok) && digits_val(tok)
                                    < lparts[0].len()
                            });
                            assert(!wf_machine_line(line@));
                        }
                        return None;
                    }
                    let ghost old_button = button@;
                    button.set(idx, true);
                    proof {
                        assert forall|k: int| 0 <= k < nl implies #[trigger] button@[k]
                            == exists|t2: int|
                            0 <= t2 < t + 1 && digits_val(#[trigger] btoks[t2]) == k by {
                            if k == idx as int {
                                assert(digits_val(btoks[t as int]) == k);
                            } else {
                                assert(button@[k] == old_button[k]);
                                if button@[k] {
                                    let t2 = choose|t2: int|
                                        0 <= t2 < t && digits_val(#[trigger] btoks[t2]) == k;
                                    assert(digits_val(btoks[t2]) == k);
                                }
                            }
                        }
                    }
                },
            }
            t = t + 1;
        }
        proof {
            assert(button@ =~= spec_button(line@, bi as int));
        }
        buttons.push(button);
        i = i + 1;
    }

    let ghost jtoks = joltage_tokens(line@);
    let last = &parts[parts.len() - 1];
    let jtokens = split_chars(last, ',');
    proof {
        assert(lparts.last() == parts@[parts@.len() - 1]@);
        assert(jtokens@.len() == jtoks.len());
        assert forall|k: int| 0 <= k < jtokens@.len() implies (#[trigger] jtokens@[k])@
            == jtoks[k] by {
            assert(jtokens@.map_values(|p: Vec<char>| p@)[k] == jtoks[k]);
        }
    }
    if jtokens.len() > 32 {
        return None;
    }
    let mut joltage: Vec<u32> = Vec::new();
    let mut t: usize = 0;
    while t < jtokens.len()
        invariant
            t <= jtoks.len() == jtokens@.len(),
            forall|k: int| 0 <= k < jtokens@.len() ==> (#[trigger] jtokens@[k])@ == jtoks[k],
            jtoks == joltage_tokens(line@),
            lparts == line_parts(line@),
            lparts.len() >= 2,
            joltage@ =~= spec_joltage(line@).take(t as int),
            forall|t2: int|
                0 <= t2 < t ==> {
                    let tok = #[trigger] jtoks[t2];
                    tok.len() > 0 && all_digits(tok) && digits_val(tok) <= u32::MAX
                },
        decreases jtokens@.len() - t,
    {
        match crate::parsing::parse_u32(&jtokens[t]) {
            None => {
                proof {
                    assert(!{
                        let tok = joltage_tokens(line@)[t as int];
                        tok.len() > 0 && all_digits(tok) && digits_val(tok) <= u32::MAX
                    });
                    assert(!wf_machine_line(line@));
                }
                return None;
            },
            Some(v) => {
                joltage.push(v);
                proof {
                    assert(joltage@ =~= spec_joltage(line@).take(t + 1));
                }
            },
        }
        t = t + 1;
    }
    proof {
        assert(joltage@ =~= spec_joltage(line@));
        assert(wf_machine_line(line@));
    }
    Some(MachineParsed { lights, buttons, joltage })
}

impl MachineParsed {
    /// Reads the whole input: brackets stripped, one machine per line.
    /// Fails exactly when some line breaks the machine grammar.
    pub fn from_string(string: String) -> (r: Option<Vec<MachineParsed>>)
        ensures
            ({
                let lns = spec_lines(strip_brackets(string@));
                &&& r is Some <==> (forall|li: int|
                    0 <= li < lns.len() ==> wf_machine_line(#[trigger] lns[li]))
                &&& r is Some ==> r->Some_0@.len() == lns.len()
                &&& r is Some ==> forall|li: int|
                    0 <= li < lns.len() ==> parsed_matches(
                        #[trigger] r->Some_0@[li],
                        lns[li],
                    ) && r->Some_0@[li].wf()
            }),
    {
        let cs = crate::parsing::chars_of(string.as_str());
        let mut filtered: Vec<char> = Vec::new();
        let mut i: usize = 0;
        proof {
            reveal(Seq::filter);
            assert(cs@.take(0) =~= Seq::<char>::empty());
            assert(strip_brackets(Seq::<char>::empty()) =~= Seq::<char>::empty());
        }
        while i < cs.len()
            invariant
                i <= cs@.len(),
                cs@ == string@,
                filtered@ == strip_brackets(cs@.take(i as int)),
            decreases cs@.len() - i,
        {
            let ch = cs[i];
            proof {
                lemma_strip_brackets_step(cs@, i as int);
            }
            if !(ch == '[' || ch == ']' || ch == '(' || ch == ')' || ch == '{' || ch == '}') {
                filtered.push(ch);
            }
            i = i + 1;
        }
        proof {
            assert(cs@.take(cs@.len() as int) =~= cs@);
        }
        let lines = crate::parsing::split_lines(&filtered);
        let ghost lns = spec_lines(strip_brackets(string@));
        proof {
            assert(lines@.map_values(|p: Vec<char>| p@) == lns);
        }
        let mut machines: Vec<MachineParsed> = Vec::new();
        let mut li: usize = 0;
        while li < lines.len()
            invariant
                li <= lines@.len() == lns.len(),
                lns == spec_lines(strip_brackets(string@)),
                forall|k: int| 0 <= k < lines@.len() ==> (#[trigger] lines@[k])@ == lns[k],
                machines@.len() == li,
                forall|k: int|
                    0 <= k < li ==> parsed_matches(#[trigger] machines@[k], lns[k])
                        && machines@[k].wf() && wf_machine_line(lns[k]),
            decreases lines@.len() - li,
        {
            proof {
                assert((lines@[li as int])@ == lns[li as int]);
            }
            match parse_machine_line(&lines[li]) {
                None => {
                    proof {
                        assert(!wf_machine_line(lns[li as int]));
                    }
                    return None;
                },
                Some(mp) => {
                    machines.push(mp);
                    proof {
                        assert(machines@[li as int] == mp);
                    }
                },
            }
            li = li + 1;
        }
        proof {
            assert forall|k: int| 0 <= k < lns.len() implies wf_machine_line(
                #[trigger] lns[k],
            ) by {
                assert(parsed_matches(machines@[k], lns[k]));
            }
        }
        Some(machines)
    }
}

/// A fresh vector with the same numbers.
fn copy_u32s(v: &Vec<u32>) -> (r: Vec<u32>)
    ensures
        r@ == v@,
{
    let mut r: Vec<u32> = Vec::new();
    let mut i: usize = 0;
    while i < v.len()
        invariant
            i <= v@.len(),
            r@ =~= v@.take(i as int),
        decreases v@.len() - i,
    {
        r.push(v[i]);
        proof {
            assert(r@ =~= v@.take(i + 1));
        }
        i = i + 1;
    }
    proof {
        assert(r@ =~= v@);
    }
    r
}

/// A fresh table with the same rows.
fn copy_rows(v: &Vec<Vec<u32>>) -> (r: Vec<Vec<u32>>)
    ensures
        r@.len() == v@.len(),
        forall|i: int| 0 <= i < v@.len() ==> r@[i]@ == v@[i]@,
{
    let mut r: Vec<Vec<u32>> = Vec::new();
    let mut i: usize = 0;
    while i < v.len()
        invariant
            i <= v@.len(),
            r@.len() == i,
            forall|k: int| 0 <= k < i ==> r@[k]@ == v@[k]@,
        decreases v@.len() - i,
    {
        r.push(copy_u32s(&v[i]));
        i = i + 1;
    }
    r
}

} // verus!
