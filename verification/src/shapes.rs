//! The shapes puzzle: each shape is a three-by-three stamp of cells, each
//! grid names its size and how many of each shape it must hold. The naive
//! test accepts a grid when the stamped cells fit its area.

use vstd::prelude::*;

verus! {

use vstd::arithmetic::power2::{pow2, lemma_pow2_unfold, lemma_pow2_strictly_increases, lemma2_to64};
use crate::math::{pop_count, popcount_u32};
use crate::parsing::{all_digits, digits_val, chars_of, split_chars, split_lines, spec_split,
    spec_lines, parse_u32};

/// One shape, its cells packed into bits, first row first, left to right.
pub struct Shape {
    pub shape: u32,
}

/// One grid: its width, its height, and how many of each shape it holds.
pub struct Grid {
    pub x: u32,
    pub y: u32,
    pub shapes_nb: Vec<u32>,
}

/// The bits read off a run of cells: `#` is a full cell.
pub open spec fn shape_fold(s: Seq<char>) -> nat
    decreases s.len(),
{
    if s.len() == 0 {
        0
    } else {
        2 * shape_fold(s.drop_last()) + (if s.last() == '#' {
            1nat
        } else {
            0nat
        })
    }
}

proof fn lemma_shape_fold_bound(s: Seq<char>)
    ensures
        shape_fold(s) < pow2(s.len()),
    decreases s.len(),
{
    if s.len() == 0 {
        lemma2_to64();
    } else {
        lemma_shape_fold_bound(s.drop_last());
        lemma_pow2_unfold(s.len());
    }
}

impl Shape {
    /// Packs the three rows of a shape into its bits.
    pub fn from_string(strings: &[&str]) -> (r: Shape)
        requires
            strings@.len() >= 3,
            strings@[0]@.len() + strings@[1]@.len() + strings@[2]@.len() <= 32,
        ensures
            r.shape == shape_fold(strings@[0]@ + strings@[1]@ + strings@[2]@),
    {
        let ghost whole = strings@[0]@ + strings@[1]@ + strings@[2]@;
        let mut combined: Vec<char> = Vec::new();
        let mut row: usize = 0;
        while row < 3
            invariant
                row <= 3,
                strings@.len() >= 3,
                whole == strings@[0]@ + strings@[1]@ + strings@[2]@,
                combined@ =~= (if row == 0 {
                    Seq::<char>::empty()
                } else if row == 1 {
                    strings@[0]@
                } else if row == 2 {
                    strings@[0]@ + strings@[1]@
                } else {
                    whole
                }),
            decreases 3 - row,
        {
            let mut cs = chars_of(strings[row]);
            combined.append(&mut cs);
            row = row + 1;
        }
        proof {
            assert(combined@ =~= whole);
            lemma_shape_fold_bound(whole);
            if whole.len() < 32 {
                lemma_pow2_strictly_increases(whole.len(), 32);
            }
            lemma2_to64();
        }
        let mut acc: u32 = 0;
        let mut i: usize = 0;
        while i < combined.len()
            invariant
                i <= combined@.len(),
                combined@ == whole,
                whole.len() <= 32,
                acc == shape_fold(whole.take(i as int)),
                shape_fold(whole) < pow2(whole.len()),
                pow2(whole.len()) <= 0x1_0000_0000u64,
            decreases combined@.len() - i,
        {
            proof {
                assert(whole.take(i + 1).drop_last() =~= whole.take(i as int));
                lemma_shape_fold_bound(whole.take(i + 1));
                if i + 1 < whole.len() {
                    lemma_pow2_strictly_increases((i + 1) as nat, whole.len());
                }
            }
            acc = acc * 2 + (if combined[i] == '#' {
                1
            } else {
                0
            });
            i = i + 1;
        }
        proof {
            assert(whole.take(whole.len() as int) =~= whole);
        }
        Shape { shape: acc }
    }

    /// Cells the shape stamps: its one bits.
    pub fn get_area(&self) -> (r: u32)
        ensures
            r == pop_count(self.shape as nat),
    {
        popcount_u32(self.shape)
    }
}

/// Stamped cells of all shapes, each weighted by its required count.
pub open spec fn weight_sum(shapes: Seq<Shape>, nbs: Seq<u32>) -> int
    decreases shapes.len(),
{
    if shapes.len() == 0 {
        0
    } else {
        weight_sum(shapes.drop_last(), nbs) + pop_count(shapes.last().shape as nat) * nbs[shapes.len()
            - 1]
    }
}


impl Grid {
    /// The grid's own cell count.
    pub fn get_area(&self) -> (r: u32)
        requires
            self.x * self.y <= u32::MAX,
        ensures
            r == self.x * self.y,
    {
        self.x * self.y
    }

    /// The required stamps fit the area, ignoring their arrangement.
    pub fn does_fit_naive(&self, shapes: &Vec<Shape>) -> (r: bool)
        requires
            shapes@.len() <= self.shapes_nb@.len(),
            self.x * self.y <= u32::MAX,
            weight_sum(shapes@, self.shapes_nb@) <= u32::MAX,
        ensures
            r == (weight_sum(shapes@, self.shapes_nb@) <= self.x * self.y),
    {
        let mut total: u32 = 0;
        let mut i: usize = 0;
        while i < shapes.len()
            invariant
                i <= shapes@.len() <= self.shapes_nb@.len(),
                weight_sum(shapes@, self.shapes_nb@) <= u32::MAX,
                total == weight_sum(shapes@.take(i as int), self.shapes_nb@),
            decreases shapes@.len() - i,
        {
            proof {
                assert(shapes@.take(i + 1).drop_last() =~= shapes@.take(i as int));
                assert(shapes@.take(i + 1).last() == shapes@[i as int]);
                lemma_weight_prefix_le(shapes@, self.shapes_nb@, i + 1);
                lemma2_to64();
                crate::math::lemma_pop_count_bound(shapes@[i as int].shape as nat, 32);
                assert(pop_count(shapes@[i as int].shape as nat) * self.shapes_nb@[i as int]
                    >= 0) by (nonlinear_arith);
            }
            let area = shapes[i].get_area();
            let nb = self.shapes_nb[i];
            proof {
                assert((area as int) * (nb as int) == pop_count(shapes@[i as int].shape as nat)
                    * self.shapes_nb@[i as int]);
            }
            let prod = (area as u64) * (nb as u64);
            total = total + (prod as u32);
            i = i + 1;
        }
        proof {
            assert(shapes@.take(shapes@.len() as int) =~= shapes@);
        }
        total <= self.x * self.y
    }
}

/// A prefix never weighs more than the whole list.
proof fn lemma_weight_prefix_le(shapes: Seq<Shape>, nbs: Seq<u32>, i: int)
    requires
        0 <= i <= shapes.len() <= nbs.len(),
    ensures
        weight_sum(shapes.take(i), nbs) <= weight_sum(shapes, nbs),
    decreases shapes.len() - i,
{
    if i < shapes.len() {
        lemma_weight_prefix_le(shapes, nbs, i + 1);
        assert(shapes.take(i + 1).drop_last() =~= shapes.take(i));
        assert(shapes.take(i + 1).last() == shapes[i]);
        assert(pop_count(shapes[i].shape as nat) * nbs[i] >= 0) by (nonlinear_arith);
    } else {
        assert(shapes.take(i) =~= shapes);
    }
}

/// How many grids pass the naive fit test.
pub open spec fn count_fit(shapes: Seq<Shape>, grids: Seq<Grid>) -> int
    decreases grids.len(),
{
    if grids.len() == 0 {
        0
    } else {
        count_fit(shapes, grids.drop_last()) + (if weight_sum(shapes, grids.last().shapes_nb@)
            <= grids.last().x * grids.last().y {
            1int
        } else {
            0int
        })
    }
}

proof fn lemma_count_fit_bounds(shapes: Seq<Shape>, grids: Seq<Grid>)
    ensures
        0 <= count_fit(shapes, grids) <= grids.len(),
    decreases grids.len(),
{
    if grids.len() > 0 {
        lemma_count_fit_bounds(shapes, grids.drop_last());
    }
}

/// Counts the grids whose required stamps fit their area.
pub fn get_p1_naive(shapes: &Vec<Shape>, grids: &Vec<Grid>) -> (r: u32)
    requires
        forall|k: int|
            0 <= k < grids@.len() ==> {
                let g = #[trigger] grids@[k];
                &&& shapes@.len() <= g.shapes_nb@.len()
                &&& g.x * g.y <= u32::MAX
                &&& weight_sum(shapes@, g.shapes_nb@) <= u32::MAX
            },
        grids@.len() <= u32::MAX,
    ensures
        r == count_fit(shapes@, grids@),
{
    let mut res: u32 = 0;
    let mut k: usize = 0;
    while k < grids.len()
        invariant
            k <= grids@.len() <= u32::MAX,
            forall|k2: int|
                0 <= k2 < grids@.len() ==> {
                    let g = #[trigger] grids@[k2];
                    &&& shapes@.len() <= g.shapes_nb@.len()
                    &&& g.x * g.y <= u32::MAX
                    &&& weight_sum(shapes@, g.shapes_nb@) <= u32::MAX
                },
            res == count_fit(shapes@, grids@.take(k as int)),
            res <= k,
        decreases grids@.len() - k,
    {
        proof {
            assert(grids@.take(k + 1).drop_last() =~= grids@.take(k as int));
            assert(grids@.take(k + 1).last() == grids@[k as int]);
            lemma_count_fit_bounds(shapes@, grids@.take(k + 1));
        }
        if grids[k].does_fit_naive(shapes) {
            res = res + 1;
        }
        k = k + 1;
    }
    proof {
        assert(grids@.take(grids@.len() as int) =~= grids@);
    }
    res
}

/// A grid line such as `4x4: 0 0 2`: a size, a colon, and counts split
/// by spaces, empty tokens ignored.
pub open spec fn wf_grid_line(line: Seq<char>) -> bool {
    let parts = spec_split(line, ':');
    let xy = spec_split(parts[0], 'x');
    &&& parts.len() >= 2
    &&& xy.len() >= 2
    &&& xy[0].len() > 0 && all_digits(xy[0]) && digits_val(xy[0]) <= u32::MAX
    &&& xy[1].len() > 0 && all_digits(xy[1]) && digits_val(xy[1]) <= u32::MAX
    &&& forall|t: int|
        0 <= t < spec_split(parts[1], ' ').len() ==> {
            let tok = #[trigger] spec_split(parts[1], ' ')[t];
            tok.len() > 0 ==> all_digits(tok) && digits_val(tok) <= u32::MAX
        }
}

/// The counts named after the colon, in order, empty tokens dropped.
pub open spec fn spec_grid_nbs(line: Seq<char>) -> Seq<u32> {
    spec_split(spec_split(line, ':')[1], ' ').filter(|t: Seq<char>| t.len() > 0).map_values(
        |t: Seq<char>| digits_val(t) as u32,
    )
}

/// Keeping one more token keeps or appends it, by whether it is empty.
proof fn lemma_tokens_filter_step(toks: Seq<Seq<char>>, i: int)
    requires
        0 <= i < toks.len(),
    ensures
        toks.take(i + 1).filter(|t: Seq<char>| t.len() > 0) == if toks[i].len() > 0 {
            toks.take(i).filter(|t: Seq<char>| t.len() > 0).push(toks[i])
        } else {
            toks.take(i).filter(|t: Seq<char>| t.len() > 0)
        },
{
    reveal(Seq::filter);
    assert(toks.take(i + 1).drop_last() =~= toks.take(i));
    assert(toks.take(i + 1).last() == toks[i]);
}

impl Grid {
    /// Reads one grid line; fails exactly on lines the grammar refuses.
    pub fn from_string(string: &str) -> (r: Option<Grid>)
        ensures
            r is Some <==> wf_grid_line(string@),
            r is Some ==> {
                let parts = spec_split(string@, ':');
                let xy = spec_split(parts[0], 'x');
                &&& r->Some_0.x == digits_val(xy[0])
                &&& r->Some_0.y == digits_val(xy[1])
                &&& r->Some_0.shapes_nb@ == spec_grid_nbs(string@)
            },
    {
        let cs = chars_of(string);
        Grid::from_chars(&cs)
    }

    /// The same reading, on the line as characters.
    pub fn from_chars(line: &Vec<char>) -> (r: Option<Grid>)
        ensures
            r is Some <==> wf_grid_line(line@),
            r is Some ==> {
                let parts = spec_split(line@, ':');
                let xy = spec_split(parts[0], 'x');
                &&& r->Some_0.x == digits_val(xy[0])
                &&& r->Some_0.y == digits_val(xy[1])
                &&& r->Some_0.shapes_nb@ == spec_grid_nbs(line@)
            },
    {
        let cs = line;
        let parts = split_chars(cs, ':');
        let ghost lparts = spec_split(line@, ':');
        proof {
            assert forall|k: int| 0 <= k < parts@.len() implies (#[trigger] parts@[k])@
                == lparts[k] by {
                assert(parts@.map_values(|p: Vec<char>| p@)[k] == lparts[k]);
            }
        }
        if parts.len() < 2 {
            return None;
        }
        let xy = split_chars(&parts[0], 'x');
        let ghost lxy = spec_split(lparts[0], 'x');
        proof {
            assert forall|k: int| 0 <= k < xy@.len() implies (#[trigger] xy@[k])@ == lxy[k] by {
                assert(xy@.map_values(|p: Vec<char>| p@)[k] == lxy[k]);
            }
        }
        if xy.len() < 2 {
            return None;
        }
        let gx = match parse_u32(&xy[0]) {
            None => {
                return None;
            },
            Some(v) => v,
        };
        let gy = match parse_u32(&xy[1]) {
            None => {
                return None;
            },
            Some(v) => v,
        };
        let toks = split_chars(&parts[1], ' ');
        let ghost ltoks = spec_split(lparts[1], ' ');
        proof {
            assert forall|k: int| 0 <= k < toks@.len() implies (#[trigger] toks@[k])@
                == ltoks[k] by {
                assert(toks@.map_values(|p: Vec<char>| p@)[k] == ltoks[k]);
            }
            reveal(Seq::filter);
            assert(ltoks.take(0) =~= Seq::<Seq<char>>::empty());
            assert(ltoks.take(0).filter(|t: Seq<char>| t.len() > 0) =~= Seq::<Seq<char>>::empty());
        }
        let mut nbs: Vec<u32> = Vec::new();
        let mut t: usize = 0;
        while t < toks.len()
            invariant
                t <= toks@.len() == ltoks.len(),
                ltoks == spec_split(lparts[1], ' '),
                lparts == spec_split(line@, ':'),
                lparts.len() >= 2,
                forall|k: int| 0 <= k < toks@.len() ==> (#[trigger] toks@[k])@ == ltoks[k],
                forall|t2: int|
                    0 <= t2 < t ==> {
                        let tok = #[trigger] ltoks[t2];
                        tok.len() > 0 ==> all_digits(tok) && digits_val(tok) <= u32::MAX
                    },
                nbs@ =~= ltoks.take(t as int).filter(|tk: Seq<char>| tk.len() > 0).map_values(
                    |tk: Seq<char>| digits_val(tk) as u32,
                ),
            decreases toks@.len() - t,
        {
            proof {
                lemma_tokens_filter_step(ltoks, t as int);
            }
            if toks[t].len() > 0 {
                match parse_u32(&toks[t]) {
                    None => {
                        proof {
                            assert(!{
                                let tok = spec_split(lparts[1], ' ')[t as int];
                                tok.len() > 0 ==> all_digits(tok) && digits_val(tok) <= u32::MAX
                            });
                            assert(!wf_grid_line(line@));
                        }
                        return None;
                    },
                    Some(v) => {
                        nbs.push(v);
                    },
                }
            }
            t = t + 1;
        }
        proof {
            assert(ltoks.take(ltoks.len() as int) =~= ltoks);
            assert(wf_grid_line(line@));
            assert(nbs@ =~= spec_grid_nbs(line@));
        }
        Some(Grid { x: gx, y: gy, shapes_nb: nbs })
    }
}

/// `g` is what the grid line `line` describes.
pub open spec fn grid_matches(g: Grid, line: Seq<char>) -> bool {
    let parts = spec_split(line, ':');
    let xy = spec_split(parts[0], 'x');
    &&& wf_grid_line(line)
    &&& g.x == digits_val(xy[0])
    &&& g.y == digits_val(xy[1])
    &&& g.shapes_nb@ == spec_grid_nbs(line)
}

/// The line names a shape or separates two: it is empty or holds a colon.
pub open spec fn contains_colon(l: Seq<char>) -> bool {
    exists|k: int| 0 <= k < l.len() && #[trigger] l[k] == ':'
}

/// The shape rows of the input: cell rows among the first thirty lines.
pub open spec fn shape_rows(s: Seq<char>) -> Seq<Seq<char>> {
    let lns = spec_lines(s);
    let head = if lns.len() <= 30 {
        lns
    } else {
        lns.take(30)
    };
    head.filter(|l: Seq<char>| l.len() > 0 && !contains_colon(l))
}

/// The grid lines of the input: everything after the first thirty lines.
pub open spec fn grid_rows(s: Seq<char>) -> Seq<Seq<char>> {
    let lns = spec_lines(s);
    if lns.len() <= 30 {
        Seq::empty()
    } else {
        lns.skip(30)
    }
}

/// The shape rows come in threes narrow enough to pack, and every grid
/// line parses.
pub open spec fn wf_shapes_input(s: Seq<char>) -> bool {
    &&& shape_rows(s).len() % 3 == 0
    &&& forall|c: int|
        0 <= c < shape_rows(s).len() / 3 ==> (#[trigger] shape_rows(s)[3 * c]).len() + shape_rows(
            s,
        )[3 * c + 1].len() + shape_rows(s)[3 * c + 2].len() <= 32
    &&& forall|k: int| 0 <= k < grid_rows(s).len() ==> wf_grid_line(#[trigger] grid_rows(s)[k])
}

/// Keeping one more line keeps or appends it, by the shape-row test.
proof fn lemma_rows_filter_step(lns: Seq<Seq<char>>, i: int)
    requires
        0 <= i < lns.len(),
    ensures
        lns.take(i + 1).filter(|l: Seq<char>| l.len() > 0 && !contains_colon(l)) == if lns[i].len()
            > 0 && !contains_colon(lns[i]) {
            lns.take(i).filter(|l: Seq<char>| l.len() > 0 && !contains_colon(l)).push(lns[i])
        } else {
            lns.take(i).filter(|l: Seq<char>| l.len() > 0 && !contains_colon(l))
        },
{
    reveal(Seq::filter);
    assert(lns.take(i + 1).drop_last() =~= lns.take(i));
    assert(lns.take(i + 1).last() == lns[i]);
}

/// Packs three rows of cells into one shape.
fn shape_from_rows(r0: &Vec<char>, r1: &Vec<char>, r2: &Vec<char>) -> (r: Shape)
    requires
        r0@.len() + r1@.len() + r2@.len() <= 32,
    ensures
        r.shape == shape_fold(r0@ + r1@ + r2@),
{
    let ghost whole = r0@ + r1@ + r2@;
    let mut combined: Vec<char> = Vec::new();
    let mut c0 = copy_chars(r0);
    let mut c1 = copy_chars(r1);
    let mut c2 = copy_chars(r2);
    combined.append(&mut c0);
    combined.append(&mut c1);
    combined.append(&mut c2);
    proof {
        assert(combined@ =~= whole);
        lemma_shape_fold_bound(whole);
        if whole.len() < 32 {
            lemma_pow2_strictly_increases(whole.len(), 32);
        }
        lemma2_to64();
    }
    let mut acc: u32 = 0;
    let mut i: usize = 0;
    while i < combined.len()
        invariant
            i <= combined@.len(),
            combined@ == whole,
            whole.len() <= 32,
            acc == shape_fold(whole.take(i as int)),
            shape_fold(whole) < pow2(whole.len()),
            pow2(whole.len()) <= 0x1_0000_0000u64,
        decreases combined@.len() - i,
    {
        proof {
            assert(whole.take(i + 1).drop_last() =~= whole.take(i as int));
            lemma_shape_fold_bound(whole.take(i + 1));
            if i + 1 < whole.len() {
                lemma_pow2_strictly_increases((i + 1) as nat, whole.len());
            }
        }
        acc = acc * 2 + (if combined[i] == '#' {
            1
        } else {
            0
        });
        i = i + 1;
    }
    proof {
        assert(whole.take(whole.len() as int) =~= whole);
    }
    Shape { shape: acc }
}

/// A fresh vector with the same characters.
fn copy_chars(v: &Vec<char>) -> (r: Vec<char>)
    ensures
        r@ == v@,
{
    let mut r: Vec<char> = Vec::new();
    let mut i: usize = 0;
    while i < v.len()
        invariant
            i <= v@.len(),
            r@ =~= v@.take(i as int),
        decreases v@.len() - i,
    {
        r.push(v[i]);
        proof {
            assert(r@ =~= v@.take(i + 1));
        }
        i = i + 1;
    }
    proof {
        assert(r@ =~= v@);
    }
    r
}

/// Reads the whole input: shapes from the first thirty lines, grids from
/// the rest. Fails exactly when the shape rows do not come in packable
/// threes or a grid line does not parse.
pub fn vec_from_string(string: String) -> (r: Option<(Vec<Shape>, Vec<Grid>)>)
    ensures
        r is Some <==> wf_shapes_input(string@),
        r is Some ==> {
            let shapes = r->Some_0.0@;
            let grids = r->Some_0.1@;
            &&& shapes.len() == shape_rows(string@).len() / 3
            &&& forall|c: int|
                0 <= c < shapes.len() ==> (#[trigger] shapes[c]).shape == shape_fold(
                    shape_rows(string@)[3 * c] + shape_rows(string@)[3 * c + 1] + shape_rows(
                        string@,
                    )[3 * c + 2],
                )
            &&& grids.len() == grid_rows(string@).len()
            &&& forall|k: int|
                0 <= k < grids.len() ==> #[trigger] grid_matches(grids[k], grid_rows(string@)[k])
        },
{
    let cs = chars_of(string.as_str());
    let lines = split_lines(&cs);
    let ghost lns = spec_lines(string@);
    proof {
        assert forall|k: int| 0 <= k < lines@.len() implies (#[trigger] lines@[k])@ == lns[k] by {
            assert(lines@.map_values(|p: Vec<char>| p@)[k] == lns[k]);
        }
    }
    let head_n = if lines.len() <= 30 {
        lines.len()
    } else {
        30
    };
    let ghost head = if lns.len() <= 30 {
        lns
    } else {
        lns.take(30)
    };
    proof {
        reveal(Seq::filter);
        assert(head.take(0) =~= Seq::<Seq<char>>::empty());
        assert(head.take(0).filter(|l: Seq<char>| l.len() > 0 && !contains_colon(l))
            =~= Seq::<Seq<char>>::empty());
    }
    let mut kept: Vec<Vec<char>> = Vec::new();
    let mut li: usize = 0;
    while li < head_n
        invariant
            li <= head_n <= lines@.len() == lns.len(),
            head_n == (if lns.len() <= 30 {
                lns.len() as int
            } else {
                30int
            }),
            head == (if lns.len() <= 30 {
                lns
            } else {
                lns.take(30)
            }),
            lns == spec_lines(string@),
            forall|k: int| 0 <= k < lines@.len() ==> (#[trigger] lines@[k])@ == lns[k],
            kept@.map_values(|p: Vec<char>| p@) =~= head.take(li as int).filter(
                |l: Seq<char>| l.len() > 0 && !contains_colon(l),
            ),
        decreases head_n - li,
    {
        proof {
            lemma_rows_filter_step(head, li as int);
            assert(head[li as int] == lns[li as int]);
        }
        let line = &lines[li];
        let mut has_colon = false;
        let mut k: usize = 0;
        while k < line.len()
            invariant
                k <= line@.len(),
                line@ == lns[li as int],
                li < lns.len(),
                has_colon == exists|k2: int| 0 <= k2 < k && #[trigger] line@[k2] == ':',
            decreases line@.len() - k,
        {
            if line[k] == ':' {
                has_colon = true;
            }
            k = k + 1;
        }
        proof {
            assert(has_colon == contains_colon(lns[li as int]));
        }
        if line.len() > 0 && !has_colon {
            kept.push(copy_chars(line));
            proof {
                assert(kept@.map_values(|p: Vec<char>| p@) =~= head.take(li + 1).filter(
                    |l: Seq<char>| l.len() > 0 && !contains_colon(l),
                ));
            }
        }
        li = li + 1;
    }
    proof {
        assert(head.take(head_n as int) =~= head);
        assert(kept@.map_values(|p: Vec<char>| p@) == shape_rows(string@));
    }

    if kept.len() % 3 != 0 {
        return None;
    }
    let ghost srows = shape_rows(string@);
    let mut shapes: Vec<Shape> = Vec::new();
    let mut c: usize = 0;
    while c < kept.len() / 3
        invariant
            c <= kept@.len() / 3,
            kept@.len() % 3 == 0,
            kept@.map_values(|p: Vec<char>| p@) == srows,
            srows == shape_rows(string@),
            shapes@.len() == c,
            forall|c2: int|
                0 <= c2 < c ==> {
                    &&& (#[trigger] srows[3 * c2]).len() + srows[3 * c2 + 1].len() + srows[3 * c2
                        + 2].len() <= 32
                    &&& shapes@[c2].shape == shape_fold(
                        srows[3 * c2] + srows[3 * c2 + 1] + srows[3 * c2 + 2],
                    )
                },
        decreases kept@.len() / 3 - c,
    {
        proof {
            assert(kept@[3 * c].view() == srows[3 * c]);
            assert(kept@[3 * c + 1].view() == srows[3 * c + 1]);
            assert(kept@[3 * c + 2].view() == srows[3 * c + 2]);
        }
        if kept[3 * c].len() > 32 || kept[3 * c + 1].len() > 32 || kept[3 * c + 2].len() > 32
            || kept[3 * c].len() + kept[3 * c + 1].len() + kept[3 * c + 2].len() > 32 {
            proof {
                assert(!wf_shapes_input(string@));
            }
            return None;
        }
        let sh = shape_from_rows(&kept[3 * c], &kept[3 * c + 1], &kept[3 * c + 2]);
        shapes.push(sh);
        c = c + 1;
    }

    let ghost grows = grid_rows(string@);
    let mut grids: Vec<Grid> = Vec::new();
    let mut gi: usize = if lines.len() <= 30 {
        lines.len()
    } else {
        30
    };
    proof {
        if lns.len() > 30 {
            assert forall|k: int| 0 <= k < grows.len() implies grows[k] == lns[k + 30] by {}
        }
    }
    while gi < lines.len()
        invariant
            30 <= gi || gi == lines@.len(),
            gi <= lines@.len() == lns.len(),
            lns == spec_lines(string@),
            grows == grid_rows(string@),
            forall|k: int| 0 <= k < lines@.len() ==> (#[trigger] lines@[k])@ == lns[k],
            lns.len() > 30 ==> grows.len() == lns.len() - 30 && (forall|k: int|
                0 <= k < grows.len() ==> grows[k] == lns[k + 30]),
            lns.len() <= 30 ==> grows.len() == 0,
            grids@.len() == (if gi <= 30 {
                0int
            } else {
                gi - 30
            }),
            forall|k: int|
                0 <= k < grids@.len() ==> #[trigger] grid_matches(grids@[k], grows[k]),
        decreases lines@.len() - gi,
    {
        match Grid::from_chars(&lines[gi]) {
            None => {
                proof {
                    assert(!wf_grid_line(grows[gi - 30]));
                    assert(!wf_shapes_input(string@));
                }
                return None;
            },
            Some(g) => {
                let ghost old_grids = grids@;
                proof {
                    assert(grows[gi - 30] == lns[gi as int]);
                }
                grids.push(g);
                proof {
                    assert(grid_matches(g, grows[gi - 30]));
                    assert forall|k: int| 0 <= k < grids@.len() implies #[trigger] grid_matches(
                        grids@[k],
                        grows[k],
                    ) by {
                        if k < old_grids.len() {
                            assert(grids@[k] == old_grids[k]);
                            assert(grid_matches(old_grids[k], grows[k]));
                        } else {
                            assert(grids@[k] == g);
                        }
                    }
                }
            },
        }
        gi = gi + 1;
    }
    proof {
        assert(wf_shapes_input(string@)) by {
            assert forall|k: int| 0 <= k < grows.len() implies wf_grid_line(
                #[trigger] grows[k],
            ) by {
                assert(grid_matches(grids@[k], grows[k]));
            }
            assert forall|c2: int| 0 <= c2 < srows.len() / 3 implies (
            #[trigger] srows[3 * c2]).len() + srows[3 * c2 + 1].len() + srows[3 * c2 + 2].len()
                <= 32 by {
                assert(shapes@[c2].shape == shape_fold(
                    srows[3 * c2] + srows[3 * c2 + 1] + srows[3 * c2 + 2],
                ));
            }
        }
    }
    Some((shapes, grids))
}

} // verus!
