//! The worksheet puzzle: columns of numbers under a row of operators.
//! The plain reading takes each column of tokens as one problem; the
//! second reading takes the digits vertically, one problem per group of
//! character columns between operators.

use vstd::prelude::*;

verus! {

use crate::parsing::{all_digits, digits_val, chars_of, split_chars, split_lines, spec_split,
    spec_lines, parse_u64};

/// What a problem does with its numbers.
pub enum Operation {
    Add,
    Multiply,
}

/// One problem: its numbers and its operator.
pub struct Problem {
    pub params: Vec<u64>,
    pub operation: Operation,
}

/// The numbers added up.
pub open spec fn sum_params(s: Seq<u64>) -> int
    decreases s.len(),
{
    if s.len() == 0 {
        0
    } else {
        sum_params(s.drop_last()) + s.last()
    }
}

/// The numbers multiplied out.
pub open spec fn prod_params(s: Seq<u64>) -> int
    decreases s.len(),
{
    if s.len() == 0 {
        1
    } else {
        prod_params(s.drop_last()) * s.last()
    }
}

proof fn lemma_sum_params_nonneg(s: Seq<u64>)
    ensures
        0 <= sum_params(s),
    decreases s.len(),
{
    if s.len() > 0 {
        lemma_sum_params_nonneg(s.drop_last());
    }
}

proof fn lemma_sum_params_prefix(s: Seq<u64>, i: int)
    requires
        0 <= i <= s.len(),
    ensures
        0 <= sum_params(s.take(i)) <= sum_params(s),
    decreases s.len() - i,
{
    lemma_sum_params_nonneg(s.take(i));
    if i < s.len() {
        lemma_sum_params_prefix(s, i + 1);
        assert(s.take(i + 1).drop_last() =~= s.take(i));
    } else {
        assert(s.take(i) =~= s);
    }
}

proof fn lemma_prod_params_nonneg(s: Seq<u64>)
    ensures
        0 <= prod_params(s),
    decreases s.len(),
{
    if s.len() > 0 {
        lemma_prod_params_nonneg(s.drop_last());
        assert(prod_params(s.drop_last()) * s.last() >= 0) by (nonlinear_arith)
            requires
                prod_params(s.drop_last()) >= 0,
                s.last() >= 0,
        ;
    }
}

/// What one problem computes.
pub open spec fn problem_value(p: Problem) -> int {
    match p.operation {
        Operation::Add => sum_params(p.params@),
        Operation::Multiply => prod_params(p.params@),
    }
}

/// The machine can carry the fold: every running value stays in range.
pub open spec fn problem_fits(p: Problem) -> bool {
    match p.operation {
        Operation::Add => sum_params(p.params@) <= u64::MAX,
        Operation::Multiply => forall|i: int|
            0 <= i <= p.params@.len() ==> prod_params(#[trigger] p.params@.take(i)) <= u64::MAX,
    }
}

impl Problem {
    /// Adds or multiplies the numbers out.
    pub fn solve(self) -> (r: u64)
        requires
            problem_fits(self),
        ensures
            r == problem_value(self),
    {
        match self.operation {
            Operation::Add => {
                let mut acc: u64 = 0;
                let mut i: usize = 0;
                while i < self.params.len()
                    invariant
                        i <= self.params@.len(),
                        sum_params(self.params@) <= u64::MAX,
                        acc == sum_params(self.params@.take(i as int)),
                    decreases self.params@.len() - i,
                {
                    proof {
                        assert(self.params@.take(i + 1).drop_last() =~= self.params@.take(
                            i as int,
                        ));
                        lemma_sum_params_prefix(self.params@, i + 1);
                    }
                    acc = acc + self.params[i];
                    i = i + 1;
                }
                proof {
                    assert(self.params@.take(self.params@.len() as int) =~= self.params@);
                }
                acc
            },
            Operation::Multiply => {
                let mut acc: u64 = 1;
                let mut i: usize = 0;
                while i < self.params.len()
                    invariant
                        i <= self.params@.len(),
                        forall|i2: int|
                            0 <= i2 <= self.params@.len() ==> prod_params(
                                #[trigger] self.params@.take(i2),
                            ) <= u64::MAX,
                        acc == prod_params(self.params@.take(i as int)),
                    decreases self.params@.len() - i,
                {
                    proof {
                        assert(self.params@.take(i + 1).drop_last() =~= self.params@.take(
                            i as int,
                        ));
                        assert(prod_params(self.params@.take(i + 1)) <= u64::MAX);
                        lemma_prod_params_nonneg(self.params@.take(i as int));
                    }
                    acc = acc * self.params[i];
                    i = i + 1;
                }
                proof {
                    assert(self.params@.take(self.params@.len() as int) =~= self.params@);
                }
                acc
            },
        }
    }
}

/// The problems' values added up.
pub open spec fn problems_total(ps: Seq<Problem>) -> int
    decreases ps.len(),
{
    if ps.len() == 0 {
        0
    } else {
        problems_total(ps.drop_last()) + problem_value(ps.last())
    }
}

proof fn lemma_problems_total_nonneg(ps: Seq<Problem>, whole: Seq<Problem>)
    requires
        forall|k: int| 0 <= k < whole.len() ==> problem_value(#[trigger] whole[k]) >= 0,
        ps =~= whole.take(ps.len() as int),
        ps.len() <= whole.len(),
    ensures
        0 <= problems_total(ps),
    decreases ps.len(),
{
    if ps.len() > 0 {
        lemma_problems_total_nonneg(ps.drop_last(), whole);
        assert(ps.last() == whole[ps.len() - 1]);
    }
}

proof fn lemma_problems_total_prefix(ps: Seq<Problem>, i: int)
    requires
        0 <= i <= ps.len(),
        forall|k: int| 0 <= k < ps.len() ==> problem_value(#[trigger] ps[k]) >= 0,
    ensures
        0 <= problems_total(ps.take(i)) <= problems_total(ps),
    decreases ps.len() - i,
{
    assert(ps.take(i) =~= ps.take(ps.take(i).len() as int));
    lemma_problems_total_nonneg(ps.take(i), ps);
    if i < ps.len() {
        lemma_problems_total_prefix(ps, i + 1);
        assert(ps.take(i + 1).drop_last() =~= ps.take(i));
        assert(ps.take(i + 1).last() == ps[i]);
    } else {
        assert(ps.take(i) =~= ps);
    }
}

/// Solves every problem and adds the answers up.
pub fn solve_problems(problems: Vec<Problem>) -> (r: u64)
    requires
        forall|k: int| 0 <= k < problems@.len() ==> problem_fits(#[trigger] problems@[k]),
        problems_total(problems@) <= u64::MAX,
    ensures
        r == problems_total(problems@),
{
    proof {
        assert forall|k: int| 0 <= k < problems@.len() implies problem_value(
            #[trigger] problems@[k],
        ) >= 0 by {
            match problems@[k].operation {
                Operation::Add => {
                    lemma_sum_params_prefix(problems@[k].params@, 0);
                },
                Operation::Multiply => {
                    lemma_prod_params_nonneg(problems@[k].params@);
                },
            }
        }
    }
    let ghost ps = problems@;
    let mut res: u64 = 0;
    let mut k: usize = 0;
    let mut rest = problems;
    // take problems from the front, as the fold consumes them
    let n = rest.len();
    while k < n
        invariant
            k <= n == ps.len(),
            rest@ =~= ps.skip(k as int),
            forall|k2: int| 0 <= k2 < ps.len() ==> problem_fits(#[trigger] ps[k2]),
            forall|k2: int| 0 <= k2 < ps.len() ==> problem_value(#[trigger] ps[k2]) >= 0,
            problems_total(ps) <= u64::MAX,
            res == problems_total(ps.take(k as int)),
        decreases n - k,
    {
        let p = rest.remove(0);
        proof {
            assert(p == ps[k as int]);
            assert(rest@ =~= ps.skip(k + 1));
            assert(ps.take(k + 1).drop_last() =~= ps.take(k as int));
            assert(ps.take(k + 1).last() == ps[k as int]);
            lemma_problems_total_prefix(ps, k + 1);
        }
        let v = p.solve();
        res = res + v;
        k = k + 1;
    }
    proof {
        assert(ps.take(ps.len() as int) =~= ps);
    }
    res
}

/// The space-separated tokens of a line, empty ones dropped; collapsing
/// doubled spaces first changes nothing.
pub open spec fn ws_tokens(line: Seq<char>) -> Seq<Seq<char>> {
    spec_split(line, ' ').filter(|t: Seq<char>| t.len() > 0)
}

/// Keeping one more raw piece keeps or appends it.
proof fn lemma_ws_filter_step(toks: Seq<Seq<char>>, i: int)
    requires
        0 <= i < toks.len(),
    ensures
        toks.take(i + 1).filter(|t: Seq<char>| t.len() > 0) == if toks[i].len() > 0 {
            toks.take(i).filter(|t: Seq<char>| t.len() > 0).push(toks[i])
        } else {
            toks.take(i).filter(|t: Seq<char>| t.len() > 0)
        },
{
    reveal(Seq::filter);
    assert(toks.take(i + 1).drop_last() =~= toks.take(i));
    assert(toks.take(i + 1).last() == toks[i]);
}

/// Splits one line into its non-empty tokens.
fn ws_tokens_exec(line: &Vec<char>) -> (toks: Vec<Vec<char>>)
    ensures
        toks@.map_values(|p: Vec<char>| p@) == ws_tokens(line@),
{
    let raw = split_chars(line, ' ');
    let ghost rawv = spec_split(line@, ' ');
    proof {
        assert forall|k: int| 0 <= k < raw@.len() implies (#[trigger] raw@[k])@ == rawv[k] by {
            assert(raw@.map_values(|p: Vec<char>| p@)[k] == rawv[k]);
        }
        reveal(Seq::filter);
        assert(rawv.take(0) =~= Seq::<Seq<char>>::empty());
        assert(rawv.take(0).filter(|t: Seq<char>| t.len() > 0) =~= Seq::<Seq<char>>::empty());
    }
    let mut toks: Vec<Vec<char>> = Vec::new();
    let mut t: usize = 0;
    while t < raw.len()
        invariant
            t <= raw@.len() == rawv.len(),
            rawv == spec_split(line@, ' '),
            forall|k: int| 0 <= k < raw@.len() ==> (#[trigger] raw@[k])@ == rawv[k],
            toks@.map_values(|p: Vec<char>| p@) =~= rawv.take(t as int).filter(
                |tk: Seq<char>| tk.len() > 0,
            ),
        decreases raw@.len() - t,
    {
        proof {
            lemma_ws_filter_step(rawv, t as int);
        }
        if raw[t].len() > 0 {
            toks.push(copy_token(&raw[t]));
            proof {
                assert(toks@.map_values(|p: Vec<char>| p@) =~= rawv.take(t + 1).filter(
                    |tk: Seq<char>| tk.len() > 0,
                ));
            }
        }
        t = t + 1;
    }
    proof {
        assert(rawv.take(rawv.len() as int) =~= rawv);
    }
    toks
}

/// A fresh copy of one token.
fn copy_token(v: &Vec<char>) -> (r: Vec<char>)
    ensures
        r@ == v@,
{
    let mut r: Vec<char> = Vec::new();
    let mut j: usize = 0;
    while j < v.len()
        invariant
            j <= v@.len(),
            r@ =~= v@.take(j as int),
        decreases v@.len() - j,
    {
        r.push(v[j]);
        proof {
            assert(r@ =~= v@.take(j + 1));
        }
        j = j + 1;
    }
    proof {
        assert(r@ =~= v@);
    }
    r
}

/// A plain worksheet: a last line of operators, each earlier line wide
/// enough in tokens, the needed tokens all numbers.
pub open spec fn wf_p1(s: Seq<char>) -> bool {
    let lns = spec_lines(s);
    let ops = ws_tokens(lns.last());
    &&& lns.len() >= 1
    &&& forall|i: int|
        0 <= i < ops.len() ==> (#[trigger] ops[i]) == seq!['+'] || ops[i] == seq!['*']
    &&& forall|j: int|
        0 <= j < lns.len() - 1 ==> ws_tokens(#[trigger] lns[j]).len() >= ops.len()
    &&& forall|j: int, i: int|
        0 <= j < lns.len() - 1 && 0 <= i < ops.len() ==> {
            let tok = #[trigger] ws_tokens(lns[j])[i];
            all_digits(tok) && digits_val(tok) <= u64::MAX
        }
}

/// `ps` is what the plain worksheet describes: one problem per operator
/// column.
pub open spec fn p1_matches(ps: Seq<Problem>, s: Seq<char>) -> bool {
    let lns = spec_lines(s);
    let ops = ws_tokens(lns.last());
    &&& ps.len() == ops.len()
    &&& forall|i: int|
        0 <= i < ops.len() ==> ((#[trigger] ps[i]).operation is Add <==> ops[i] == seq!['+'])
    &&& forall|i: int| 0 <= i < ops.len() ==> (#[trigger] ps[i]).params@.len() == lns.len() - 1
    &&& forall|i: int, j: int|
        0 <= i < ops.len() && 0 <= j < lns.len() - 1 ==> (#[trigger] ps[i].params@[j])
            == digits_val(ws_tokens(lns[j])[i])
}

/// Reads the plain worksheet; fails exactly on sheets the grammar
/// refuses.
pub fn process_data_p1(data: String) -> (r: Option<Vec<Problem>>)
    ensures
        r is Some <==> wf_p1(data@),
        r is Some ==> p1_matches(r->Some_0@, data@),
{
    let cs = chars_of(data.as_str());
    let lines = split_lines(&cs);
    let ghost lns = spec_lines(data@);
    proof {
        assert forall|k: int| 0 <= k < lines@.len() implies (#[trigger] lines@[k])@ == lns[k] by {
            assert(lines@.map_values(|p: Vec<char>| p@)[k] == lns[k]);
        }
    }
    if lines.len() == 0 {
        return None;
    }
    let ops = ws_tokens_exec(&lines[lines.len() - 1]);
    let ghost opsv = ws_tokens(lns.last());
    proof {
        assert forall|k: int| 0 <= k < ops@.len() implies (#[trigger] ops@[k])@ == opsv[k] by {
            assert(ops@.map_values(|p: Vec<char>| p@)[k] == opsv[k]);
        }
    }
    let mut rows: Vec<Vec<Vec<char>>> = Vec::new();
    let mut j: usize = 0;
    let n_lines = lines.len();
    while j < n_lines - 1
        invariant
            j <= lns.len() - 1,
            n_lines == lns.len(),
            lines@.len() == lns.len() >= 1,
            lns == spec_lines(data@),
            forall|k: int| 0 <= k < lines@.len() ==> (#[trigger] lines@[k])@ == lns[k],
            rows@.len() == j,
            forall|j2: int, t: int|
                0 <= j2 < j && 0 <= t < ws_tokens(lns[j2]).len() ==> (#[trigger] rows@[j2]@[t])@
                    == ws_tokens(lns[j2])[t],
            forall|j2: int| 0 <= j2 < j ==> (#[trigger] rows@[j2])@.len() == ws_tokens(
                lns[j2],
            ).len(),
        decreases lines@.len() - 1 - j,
    {
        let toks = ws_tokens_exec(&lines[j]);
        proof {
            assert forall|t: int| 0 <= t < toks@.len() implies (#[trigger] toks@[t])@ == ws_tokens(
                lns[j as int],
            )[t] by {
                assert(toks@.map_values(|p: Vec<char>| p@)[t] == ws_tokens(lns[j as int])[t]);
            }
        }
        rows.push(toks);
        j = j + 1;
    }
    let mut problems: Vec<Problem> = Vec::new();
    let mut i: usize = 0;
    while i < ops.len()
        invariant
            i <= ops@.len() == opsv.len(),
            opsv == ws_tokens(lns.last()),
            lns == spec_lines(data@),
            lns.len() >= 1,
            forall|k: int| 0 <= k < ops@.len() ==> (#[trigger] ops@[k])@ == opsv[k],
            rows@.len() == lns.len() - 1,
            forall|j2: int, t: int|
                0 <= j2 < rows@.len() && 0 <= t < ws_tokens(lns[j2]).len() ==> (
                #[trigger] rows@[j2]@[t])@ == ws_tokens(lns[j2])[t],
            forall|j2: int| 0 <= j2 < rows@.len() ==> (#[trigger] rows@[j2])@.len() == ws_tokens(
                lns[j2],
            ).len(),
            problems@.len() == i,
            forall|i2: int|
                0 <= i2 < i ==> (#[trigger] opsv[i2]) == seq!['+'] || opsv[i2] == seq!['*'],
            forall|i2: int|
                0 <= i2 < i ==> ((#[trigger] problems@[i2]).operation is Add <==> opsv[i2]
                    == seq!['+']),
            forall|i2: int|
                0 <= i2 < i ==> (#[trigger] problems@[i2]).params@.len() == lns.len() - 1,
            forall|i2: int, j2: int|
                0 <= i2 < i && 0 <= j2 < lns.len() - 1 ==> (
                #[trigger] problems@[i2].params@[j2]) == digits_val(ws_tokens(lns[j2])[i2]),
            forall|j2: int|
                0 <= j2 < lns.len() - 1 ==> ws_tokens(#[trigger] lns[j2]).len() >= i,
            forall|j2: int, i2: int|
                0 <= j2 < lns.len() - 1 && 0 <= i2 < i ==> {
                    let tok = #[trigger] ws_tokens(lns[j2])[i2];
                    all_digits(tok) && digits_val(tok) <= u64::MAX
                },
        decreases ops@.len() - i,
    {
        let op_tok = &ops[i];
        let operation = if op_tok.len() == 1 && op_tok[0] == '+' {
            proof {
                assert(opsv[i as int] =~= seq!['+']);
            }
            Operation::Add
        } else if op_tok.len() == 1 && op_tok[0] == '*' {
            proof {
                assert(opsv[i as int] =~= seq!['*']);
                assert(opsv[i as int] != seq!['+']);
            }
            Operation::Multiply
        } else {
            proof {
                assert(opsv[i as int] != seq!['+'] && opsv[i as int] != seq!['*']) by {
                    if opsv[i as int] == seq!['+'] || opsv[i as int] == seq!['*'] {
                        assert(opsv[i as int].len() == 1);
                    }
                }
                assert(!wf_p1(data@));
            }
            return None;
        };
        let mut params: Vec<u64> = Vec::new();
        let mut j2: usize = 0;
        while j2 < rows.len()
            invariant
                j2 <= rows@.len() == lns.len() - 1,
                i < opsv.len(),
                lns == spec_lines(data@),
                lns.len() >= 1,
                opsv == ws_tokens(lns.last()),
                forall|j3: int, t: int|
                    0 <= j3 < rows@.len() && 0 <= t < ws_tokens(lns[j3]).len() ==> (
                    #[trigger] rows@[j3]@[t])@ == ws_tokens(lns[j3])[t],
                forall|j3: int| 0 <= j3 < rows@.len() ==> (#[trigger] rows@[j3])@.len()
                    == ws_tokens(lns[j3]).len(),
                params@.len() == j2,
                forall|j3: int|
                    0 <= j3 < j2 ==> (#[trigger] params@[j3]) == digits_val(
                        ws_tokens(lns[j3])[i as int],
                    ),
                forall|j3: int|
                    0 <= j3 < j2 ==> ws_tokens(#[trigger] lns[j3]).len() > i,
                forall|j3: int|
                    0 <= j3 < j2 ==> {
                        let tok = ws_tokens(#[trigger] lns[j3])[i as int];
                        all_digits(tok) && digits_val(tok) <= u64::MAX
                    },
            decreases rows@.len() - j2,
        {
            if rows[j2].len() <= i {
                proof {
                    assert(ws_tokens(lns[j2 as int]).len() < opsv.len());
                    assert(!wf_p1(data@));
                }
                return None;
            }
            match parse_u64(&rows[j2][i]) {
                None => {
                    proof {
                        assert(!{
                            let tok = ws_tokens(lns[j2 as int])[i as int];
                            all_digits(tok) && digits_val(tok) <= u64::MAX
                        });
                        assert(!wf_p1(data@));
                    }
                    return None;
                },
                Some(v) => {
                    params.push(v);
                },
            }
            j2 = j2 + 1;
        }
        problems.push(Problem { params, operation });
        i = i + 1;
    }
    proof {
        assert forall|j2: int| 0 <= j2 < lns.len() - 1 implies ws_tokens(
            #[trigger] lns[j2],
        ).len() >= opsv.len() by {}
        assert(wf_p1(data@));
        assert(p1_matches(problems@, data@));
    }
    Some(problems)
}

/// The columns of the operator row that hold an operator.
pub open spec fn op_cols(o: Seq<char>) -> Seq<int>
    decreases o.len(),
{
    if o.len() == 0 {
        Seq::empty()
    } else if o.last() == '+' || o.last() == '*' {
        op_cols(o.drop_last()).push(o.len() - 1)
    } else {
        op_cols(o.drop_last())
    }
}

/// Where problem `i`'s digit columns stop: at the next operator, or one
/// past the row's end for the last problem.
pub open spec fn seg_end(o: Seq<char>, i: int) -> int {
    if i + 1 < op_cols(o).len() {
        op_cols(o)[i + 1]
    } else {
        o.len() as int + 1
    }
}

/// The characters of column `c`, read downward.
pub open spec fn col_str(rows: Seq<Seq<char>>, c: int) -> Seq<char> {
    Seq::new(rows.len(), |j: int| rows[j][c])
}

/// The string with its leading spaces dropped.
pub open spec fn trim_front(s: Seq<char>) -> Seq<char>
    decreases s.len(),
{
    if s.len() > 0 && s[0] == ' ' {
        trim_front(s.skip(1))
    } else {
        s
    }
}

/// The string with its trailing spaces dropped.
pub open spec fn trim_back(s: Seq<char>) -> Seq<char>
    decreases s.len(),
{
    if s.len() > 0 && s.last() == ' ' {
        trim_back(s.drop_last())
    } else {
        s
    }
}

/// The string with spaces dropped at both ends.
pub open spec fn trim_spaces(s: Seq<char>) -> Seq<char> {
    trim_back(trim_front(s))
}

/// Drops spaces at both ends.
fn trim_exec(s: &Vec<char>) -> (r: Vec<char>)
    ensures
        r@ == trim_spaces(s@),
{
    let mut a: usize = 0;
    proof {
        assert(s@.skip(0) =~= s@);
    }
    while a < s.len() && s[a] == ' '
        invariant
            a <= s@.len(),
            trim_front(s@) == trim_front(s@.skip(a as int)),
        decreases s@.len() - a,
    {
        proof {
            assert(s@.skip(a as int)[0] == s@[a as int]);
            assert(s@.skip(a as int).skip(1) =~= s@.skip(a + 1));
        }
        a = a + 1;
    }
    proof {
        assert(trim_front(s@) == s@.skip(a as int));
    }
    let mut b: usize = s.len();
    proof {
        assert(s@.skip(a as int).take(b - a) =~= s@.skip(a as int));
    }
    while b > a && s[b - 1] == ' '
        invariant
            a <= b <= s@.len(),
            trim_front(s@) == s@.skip(a as int),
            trim_back(s@.skip(a as int)) == trim_back(s@.skip(a as int).take(b - a)),
        decreases b,
    {
        proof {
            let cur = s@.skip(a as int).take(b - a);
            assert(cur.last() == s@[b - 1]);
            assert(cur.drop_last() =~= s@.skip(a as int).take(b - 1 - a));
        }
        b = b - 1;
    }
    proof {
        let cur = s@.skip(a as int).take(b - a);
        if b > a {
            assert(cur.last() == s@[b - 1]);
        }
        assert(trim_back(cur) == cur);
        assert(trim_spaces(s@) == s@.skip(a as int).take(b - a));
    }
    let mut r: Vec<char> = Vec::new();
    let mut k: usize = a;
    while k < b
        invariant
            a <= k <= b <= s@.len(),
            r@ =~= s@.skip(a as int).take(k - a),
        decreases b - k,
    {
        r.push(s[k]);
        proof {
            assert(r@ =~= s@.skip(a as int).take(k + 1 - a));
        }
        k = k + 1;
    }
    proof {
        assert(r@ =~= trim_spaces(s@));
    }
    r
}

/// A vertical worksheet the reader accepts: an operator row that starts
/// with an operator, rows wide enough, and a number in every digit
/// column group, read downward and trimmed.
pub open spec fn wf_p2(s: Seq<char>) -> bool {
    let lns = spec_lines(s);
    let o = lns.last();
    let ops = op_cols(o);
    &&& lns.len() >= 2
    &&& ops.len() >= 1
    &&& ops[0] == 0
    &&& forall|j: int| 0 <= j < lns.len() - 1 ==> (#[trigger] lns[j]).len() >= o.len()
    &&& forall|i: int, t: int|
        0 <= i < ops.len() && 0 <= t < seg_end(o, i) - ops[i] - 1 ==> {
            let tok = #[trigger] trim_spaces(col_str(lns.take(lns.len() - 1), op_cols(o)[i] + t));
            tok.len() > 0 && all_digits(tok) && digits_val(tok) <= u64::MAX
        }
}

/// `ps` is what the vertical worksheet describes: one problem per
/// operator, its numbers read down the columns that follow it.
pub open spec fn p2_matches(ps: Seq<Problem>, s: Seq<char>) -> bool {
    let lns = spec_lines(s);
    let o = lns.last();
    let ops = op_cols(o);
    &&& ps.len() == ops.len()
    &&& forall|i: int|
        0 <= i < ops.len() ==> ((#[trigger] ps[i]).operation is Add <==> o[op_cols(o)[i]] == '+')
    &&& forall|i: int|
        0 <= i < ops.len() ==> (#[trigger] ps[i]).params@.len() == seg_end(o, i) - ops[i] - 1
    &&& forall|i: int, t: int|
        0 <= i < ops.len() && 0 <= t < seg_end(o, i) - ops[i] - 1 ==> (
        #[trigger] ps[i].params@[t]) == digits_val(
            trim_spaces(col_str(lns.take(lns.len() - 1), op_cols(o)[i] + t)),
        )
}

/// Reads the vertical worksheet. The sheet must be well-formed: the
/// reader walks straight into the columns the operator row lays out.
pub fn process_data_p2(data: String) -> (r: Vec<Problem>)
    requires
        wf_p2(data@),
    ensures
        p2_matches(r@, data@),
{
    let cs = chars_of(data.as_str());
    let lines = split_lines(&cs);
    let ghost lns = spec_lines(data@);
    proof {
        assert forall|k: int| 0 <= k < lines@.len() implies (#[trigger] lines@[k])@ == lns[k] by {
            assert(lines@.map_values(|p: Vec<char>| p@)[k] == lns[k]);
        }
    }
    let ghost o = lns.last();
    let ghost ops = op_cols(o);
    let o_line = &lines[lines.len() - 1];
    let mut positions: Vec<usize> = Vec::new();
    let mut c: usize = 0;
    while c < o_line.len()
        invariant
            c <= o_line@.len(),
            o_line@ == o,
            positions@.map_values(|u: usize| u as int) =~= op_cols(o.take(c as int)),
        decreases o_line@.len() - c,
    {
        proof {
            assert(o.take(c + 1).drop_last() =~= o.take(c as int));
            assert(o.take(c + 1).last() == o[c as int]);
        }
        if o_line[c] == '+' || o_line[c] == '*' {
            positions.push(c);
        }
        proof {
            assert(positions@.map_values(|u: usize| u as int) =~= op_cols(o.take(c + 1)));
        }
        c = c + 1;
    }
    proof {
        assert(o.take(o.len() as int) =~= o);
        assert(positions@.map_values(|u: usize| u as int) == ops);
    }

    let n_lines = lines.len();
    let n_ops = positions.len();
    let mut problems: Vec<Problem> = Vec::new();
    let mut i: usize = 0;
    while i < n_ops
        invariant
            i <= n_ops == ops.len(),
            wf_p2(data@),
            lns == spec_lines(data@),
            o == lns.last(),
            ops == op_cols(o),
            n_lines == lines@.len() == lns.len(),
            lns.len() >= 2,
            o_line@ == o,
            forall|k: int| 0 <= k < lines@.len() ==> (#[trigger] lines@[k])@ == lns[k],
            positions@.map_values(|u: usize| u as int) == ops,
            positions@.len() == n_ops,
            problems@.len() == i,
            forall|i2: int|
                0 <= i2 < i ==> ((#[trigger] problems@[i2]).operation is Add <==> o[op_cols(o)[i2]]
                    == '+'),
            forall|i2: int|
                0 <= i2 < i ==> (#[trigger] problems@[i2]).params@.len() == seg_end(o, i2)
                    - ops[i2] - 1,
            forall|i2: int, t: int|
                0 <= i2 < i && 0 <= t < seg_end(o, i2) - ops[i2] - 1 ==> (
                #[trigger] problems@[i2].params@[t]) == digits_val(
                    trim_spaces(col_str(lns.take(lns.len() - 1), op_cols(o)[i2] + t)),
                ),
        decreases n_ops - i,
    {
        let pos = positions[i];
        proof {
            assert(positions@.map_values(|u: usize| u as int)[i as int] == ops[i as int]);
            assert(pos == ops[i as int]);
            lemma_op_cols_are_ops(o, i as int);
        }
        let nb = if i + 1 < n_ops {
            let nx = positions[i + 1];
            proof {
                assert(positions@.map_values(|u: usize| u as int)[i + 1] == ops[i + 1]);
                assert(ops[i as int] < ops[i + 1]);
                lemma_op_cols_are_ops(o, i + 1);
            }
            nx - pos - 1
        } else {
            o_line.len() - pos
        };
        proof {
            assert(nb == seg_end(o, i as int) - ops[i as int] - 1);
            assert(pos + nb <= o.len());
        }
        let operation = if o_line[pos] == '+' {
            Operation::Add
        } else {
            Operation::Multiply
        };
        let mut params: Vec<u64> = Vec::new();
        let mut t: usize = 0;
        while t < nb
            invariant
                t <= nb,
                nb == seg_end(o, i as int) - ops[i as int] - 1,
                pos == ops[i as int],
                pos + nb <= o.len(),
                o_line@ == o,
                i < ops.len(),
                wf_p2(data@),
                lns == spec_lines(data@),
                o == lns.last(),
                ops == op_cols(o),
                n_lines == lines@.len() == lns.len(),
                lns.len() >= 2,
                forall|k: int| 0 <= k < lines@.len() ==> (#[trigger] lines@[k])@ == lns[k],
                params@.len() == t,
                forall|t2: int|
                    0 <= t2 < t ==> (#[trigger] params@[t2]) == digits_val(
                        trim_spaces(col_str(lns.take(lns.len() - 1), op_cols(o)[i as int] + t2)),
                    ),
            decreases nb - t,
        {
            let ghost colspec = col_str(lns.take(lns.len() - 1), ops[i as int] + t);
            let o_width = o_line.len();
            proof {
                assert(pos + t < o.len());
                assert(pos + t < o_width);
            }
            let mut column: Vec<char> = Vec::new();
            let mut j: usize = 0;
            while j < n_lines - 1
                invariant
                    j <= n_lines - 1,
                    n_lines == lines@.len() == lns.len(),
                    lns.len() >= 2,
                    wf_p2(data@),
                    lns == spec_lines(data@),
                    o == lns.last(),
                    pos + t < o.len(),
                    pos + t <= usize::MAX,
                    colspec == col_str(lns.take(lns.len() - 1), pos + t),
                    forall|k: int| 0 <= k < lines@.len() ==> (#[trigger] lines@[k])@ == lns[k],
                    column@ =~= colspec.take(j as int),
                decreases n_lines - 1 - j,
            {
                proof {
                    assert(lns[j as int].len() >= o.len());
                    assert(lns.take(lns.len() - 1)[j as int] == lns[j as int]);
                }
                column.push(lines[j][pos + t]);
                proof {
                    assert(column@ =~= colspec.take(j + 1));
                }
                j = j + 1;
            }
            proof {
                assert(column@ =~= colspec);
            }
            let trimmed = trim_exec(&column);
            proof {
                assert(trimmed@ == trim_spaces(col_str(lns.take(lns.len() - 1), op_cols(o)[
                i as int] + t)));
            }
            match parse_u64(&trimmed) {
                None => {
                    proof {
                        assert(false);
                    }
                    return problems;
                },
                Some(v) => {
                    params.push(v);
                },
            }
            t = t + 1;
        }
        problems.push(Problem { params, operation });
        i = i + 1;
    }
    proof {
        assert(p2_matches(problems@, data@));
    }
    problems
}

/// Every recorded operator column holds an operator within the row.
proof fn lemma_op_cols_are_ops(o: Seq<char>, i: int)
    requires
        0 <= i < op_cols(o).len(),
    ensures
        0 <= op_cols(o)[i] < o.len(),
        o[op_cols(o)[i]] == '+' || o[op_cols(o)[i]] == '*',
        forall|i2: int, j2: int|
            0 <= i2 < j2 < op_cols(o).len() ==> #[trigger] op_cols(o)[i2] < #[trigger] op_cols(
                o,
            )[j2],
    decreases o.len(),
{
    if o.len() > 0 {
        if op_cols(o.drop_last()).len() > 0 {
            lemma_op_cols_are_ops(o.drop_last(), 0);
        }
        if i < op_cols(o.drop_last()).len() {
            lemma_op_cols_are_ops(o.drop_last(), i);
        }
        assert forall|i2: int, j2: int|
            0 <= i2 < j2 < op_cols(o).len() implies #[trigger] op_cols(o)[i2] < #[trigger] op_cols(
            o,
        )[j2] by {
            if j2 < op_cols(o.drop_last()).len() {
                lemma_op_cols_are_ops(o.drop_last(), i2);
            } else {
                if i2 < op_cols(o.drop_last()).len() {
                    lemma_op_cols_are_ops(o.drop_last(), i2);
                }
            }
        }
    }
}

} // verus!
