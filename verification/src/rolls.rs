//! The bread rolls puzzle: rolls sit on a grid; a roll with fewer than
//! four neighbouring rolls can be taken. Rounds of taking repeat until
//! nothing changes, and the answers count the takeable rolls now and the
//! rolls that can ever be taken.

use vstd::prelude::*;

verus! {

use crate::parsing::chars_of;

/// The grid a list of text rows describes.
pub open spec fn grid_of(lines: Seq<String>) -> Seq<Seq<char>> {
    lines.map_values(|s: String| s@)
}

/// Every row is as wide as the first.
pub open spec fn uniform(g: Seq<Seq<char>>) -> bool {
    forall|y: int| 0 <= y < g.len() ==> (#[trigger] g[y]).len() == g[0].len()
}

/// A roll sits at `(x, y)`.
pub open spec fn is_roll(g: Seq<Seq<char>>, x: int, y: int) -> bool {
    &&& 0 <= y < g.len()
    &&& 0 <= x < g[y].len()
    &&& g[y][x] == '@'
}

/// How many of the eight surrounding cells hold a roll.
pub open spec fn neighbors(g: Seq<Seq<char>>, x: int, y: int) -> int {
    (if is_roll(g, x - 1, y - 1) {
        1int
    } else {
        0int
    }) + (if is_roll(g, x, y - 1) {
        1int
    } else {
        0int
    }) + (if is_roll(g, x + 1, y - 1) {
        1int
    } else {
        0int
    }) + (if is_roll(g, x - 1, y) {
        1int
    } else {
        0int
    }) + (if is_roll(g, x + 1, y) {
        1int
    } else {
        0int
    }) + (if is_roll(g, x - 1, y + 1) {
        1int
    } else {
        0int
    }) + (if is_roll(g, x, y + 1) {
        1int
    } else {
        0int
    }) + (if is_roll(g, x + 1, y + 1) {
        1int
    } else {
        0int
    })
}

/// A roll with room around it: fewer than four neighbouring rolls.
pub open spec fn accessible(g: Seq<Seq<char>>, x: int, y: int) -> bool {
    is_roll(g, x, y) && neighbors(g, x, y) < 4
}

/// The cell test used by the takeable count.
pub open spec fn acc_fn() -> spec_fn(Seq<Seq<char>>, int, int) -> bool {
    |gg: Seq<Seq<char>>, x: int, y: int| accessible(gg, x, y)
}

/// The cell test used by the roll count.
pub open spec fn roll_fn() -> spec_fn(Seq<Seq<char>>, int, int) -> bool {
    |gg: Seq<Seq<char>>, x: int, y: int| is_roll(gg, x, y)
}

/// Cells of column `x` in rows below `y` that satisfy `pred`.
pub open spec fn count_col(
    g: Seq<Seq<char>>,
    pred: spec_fn(Seq<Seq<char>>, int, int) -> bool,
    x: int,
    y: int,
) -> int
    decreases y,
{
    if y <= 0 {
        0
    } else {
        count_col(g, pred, x, y - 1) + (if pred(g, x, y - 1) {
            1int
        } else {
            0int
        })
    }
}

/// Cells in columns below `x` that satisfy `pred`, over all rows.
pub open spec fn count_upto(
    g: Seq<Seq<char>>,
    pred: spec_fn(Seq<Seq<char>>, int, int) -> bool,
    x: int,
) -> int
    decreases x,
{
    if x <= 0 {
        0
    } else {
        count_upto(g, pred, x - 1) + count_col(g, pred, x - 1, g.len() as int)
    }
}

/// Cells of the whole grid that satisfy `pred`.
pub open spec fn count_cells(
    g: Seq<Seq<char>>,
    pred: spec_fn(Seq<Seq<char>>, int, int) -> bool,
) -> int {
    count_upto(
        g,
        pred,
        if g.len() == 0 {
            0
        } else {
            g[0].len() as int
        },
    )
}

/// Takeable rolls of the grid.
pub open spec fn count_accessible_spec(g: Seq<Seq<char>>) -> int {
    count_cells(g, acc_fn())
}

/// Rolls of the grid.
pub open spec fn count_roll_spec(g: Seq<Seq<char>>) -> int {
    count_cells(g, roll_fn())
}

/// A pointwise stronger test never counts more, and counts are bounded
/// by the area walked.
proof fn lemma_count_col_le(
    g1: Seq<Seq<char>>,
    g2: Seq<Seq<char>>,
    p1: spec_fn(Seq<Seq<char>>, int, int) -> bool,
    p2: spec_fn(Seq<Seq<char>>, int, int) -> bool,
    x: int,
    y: int,
)
    requires
        forall|a: int, b: int| #[trigger] p1(g1, a, b) ==> p2(g2, a, b),
    ensures
        0 <= count_col(g1, p1, x, y),
        count_col(g1, p1, x, y) <= count_col(g2, p2, x, y),
        count_col(g2, p2, x, y) <= if y >= 0 {
            y
        } else {
            0
        },
    decreases y,
{
    if y > 0 {
        lemma_count_col_le(g1, g2, p1, p2, x, y - 1);
    }
}

proof fn lemma_count_upto_le(
    g1: Seq<Seq<char>>,
    g2: Seq<Seq<char>>,
    p1: spec_fn(Seq<Seq<char>>, int, int) -> bool,
    p2: spec_fn(Seq<Seq<char>>, int, int) -> bool,
    x: int,
)
    requires
        forall|a: int, b: int| #[trigger] p1(g1, a, b) ==> p2(g2, a, b),
        g1.len() == g2.len(),
    ensures
        0 <= count_upto(g1, p1, x),
        count_upto(g1, p1, x) <= count_upto(g2, p2, x),
        count_upto(g2, p2, x) <= (if x >= 0 {
            x
        } else {
            0
        }) * g2.len(),
    decreases x,
{
    if x > 0 {
        lemma_count_upto_le(g1, g2, p1, p2, x - 1);
        lemma_count_col_le(g1, g2, p1, p2, x - 1, g1.len() as int);
        lemma_count_col_le(g2, g2, p2, p2, x - 1, g2.len() as int);
        assert((x - 1) * g2.len() + g2.len() == x * g2.len()) by (nonlinear_arith);
    }
}

/// The rows as plain character grids.
fn to_grid(lines: &Vec<String>) -> (g: Vec<Vec<char>>)
    ensures
        g@.map_values(|v: Vec<char>| v@) == grid_of(lines@),
{
    let mut g: Vec<Vec<char>> = Vec::new();
    let mut y: usize = 0;
    while y < lines.len()
        invariant
            y <= lines@.len(),
            g@.len() == y,
            forall|k: int| 0 <= k < y ==> (#[trigger] g@[k])@ == lines@[k]@,
        decreases lines@.len() - y,
    {
        g.push(chars_of(lines[y].as_str()));
        y = y + 1;
    }
    proof {
        assert(g@.map_values(|v: Vec<char>| v@) =~= grid_of(lines@));
    }
    g
}

/// The neighbour count at one cell: the eight surrounding cells, each
/// tested when it lies on the grid.
fn count_neighbors(g: &Vec<Vec<char>>, x: usize, y: usize) -> (r: u32)
    requires
        uniform(g@.map_values(|v: Vec<char>| v@)),
        y < g@.len(),
        x < g@[0]@.len(),
    ensures
        r == neighbors(g@.map_values(|v: Vec<char>| v@), x as int, y as int),
{
    let ghost gs = g@.map_values(|v: Vec<char>| v@);
    proof {
        assert forall|k: int| 0 <= k < g@.len() implies (#[trigger] g@[k])@ == gs[k] by {
            assert(gs[k] == g@.map_values(|v: Vec<char>| v@)[k]);
        }
    }
    let nx = g[0].len();
    let ny = g.len();
    let mut found: u32 = 0;
    if x > 0 && y > 0 && g[y - 1][x - 1] == '@' {
        found = found + 1;
    }
    if y > 0 && g[y - 1][x] == '@' {
        found = found + 1;
    }
    if x + 1 < nx && y > 0 && g[y - 1][x + 1] == '@' {
        found = found + 1;
    }
    if x > 0 && g[y][x - 1] == '@' {
        found = found + 1;
    }
    if x + 1 < nx && g[y][x + 1] == '@' {
        found = found + 1;
    }
    if x > 0 && y + 1 < ny && g[y + 1][x - 1] == '@' {
        found = found + 1;
    }
    if y + 1 < ny && g[y + 1][x] == '@' {
        found = found + 1;
    }
    if x + 1 < nx && y + 1 < ny && g[y + 1][x + 1] == '@' {
        found = found + 1;
    }
    proof {
        assert(found == neighbors(gs, x as int, y as int));
    }
    found
}

/// Counts the rolls that can be taken right now.
pub fn count_accessible(lines: Vec<String>) -> (r: u32)
    requires
        lines@.len() >= 1,
        uniform(grid_of(lines@)),
        grid_of(lines@)[0].len() * grid_of(lines@).len() <= u32::MAX,
    ensures
        r == count_accessible_spec(grid_of(lines@)),
{
    let g = to_grid(&lines);
    count_grid_accessible(&g)
}

/// The takeable count over a character grid.
fn count_grid_accessible(g: &Vec<Vec<char>>) -> (r: u32)
    requires
        g@.len() >= 1,
        uniform(g@.map_values(|v: Vec<char>| v@)),
        g@[0]@.len() * g@.len() <= u32::MAX,
    ensures
        r == count_accessible_spec(g@.map_values(|v: Vec<char>| v@)),
{
    let ghost gs = g@.map_values(|v: Vec<char>| v@);
    proof {
        assert forall|k: int| 0 <= k < g@.len() implies (#[trigger] g@[k])@ == gs[k] by {
            assert(gs[k] == g@.map_values(|v: Vec<char>| v@)[k]);
        }
    }
    let nx = g[0].len();
    let ny = g.len();
    let mut res: u32 = 0;
    let mut x: usize = 0;
    while x < nx
        invariant
            x <= nx == gs[0].len(),
            ny == gs.len() >= 1,
            gs == g@.map_values(|v: Vec<char>| v@),
            uniform(gs),
            forall|k: int| 0 <= k < g@.len() ==> (#[trigger] g@[k])@ == gs[k],
            nx * ny <= u32::MAX,
            res == count_upto(gs, acc_fn(), x as int),
            res <= x * ny,
        decreases nx - x,
    {
        let mut y: usize = 0;
        while y < ny
            invariant
                x < nx == gs[0].len(),
                y <= ny == gs.len(),
                gs == g@.map_values(|v: Vec<char>| v@),
                uniform(gs),
                forall|k: int| 0 <= k < g@.len() ==> (#[trigger] g@[k])@ == gs[k],
                nx * ny <= u32::MAX,
                res == count_upto(gs, acc_fn(), x as int) + count_col(
                    gs,
                    acc_fn(),
                    x as int,
                    y as int,
                ),
                res <= x * ny + y,
            decreases ny - y,
        {
            proof {
                lemma_count_col_le(gs, gs, acc_fn(), acc_fn(), x as int, y as int);
                lemma_count_upto_le(gs, gs, acc_fn(), acc_fn(), x as int);
                assert(x * ny + ny <= nx * ny) by (nonlinear_arith)
                    requires
                        x < nx,
                        0 <= ny,
                ;
            }
            if g[y][x] == '@' {
                let nb = count_neighbors(g, x, y);
                if nb < 4 {
                    res = res + 1;
                }
            }
            proof {
                assert(acc_fn()(gs, x as int, y as int) == accessible(gs, x as int, y as int));
            }
            y = y + 1;
        }
        proof {
            assert(x * ny + ny == (x + 1) * ny) by (nonlinear_arith);
        }
        x = x + 1;
    }
    proof {
        assert(res == count_cells(gs, acc_fn()));
    }
    res
}

/// The grid after one round of taking: every takeable roll and every
/// non-roll cell becomes empty.
pub open spec fn erode(g: Seq<Seq<char>>) -> Seq<Seq<char>> {
    Seq::new(
        g.len(),
        |y: int|
            Seq::new(
                g[0].len(),
                |x: int|
                    if is_roll(g, x, y) && !accessible(g, x, y) {
                        '@'
                    } else {
                        '.'
                    },
            ),
    )
}

/// One round of taking: rolls stay only where they cannot be taken.
pub fn remove_accessible(lines: Vec<String>) -> (r: Vec<String>)
    requires
        lines@.len() >= 1,
        uniform(grid_of(lines@)),
        grid_of(lines@)[0].len() * grid_of(lines@).len() <= u32::MAX,
    ensures
        grid_of(r@) == erode(grid_of(lines@)),
{
    let g = to_grid(&lines);
    let ghost gs = grid_of(lines@);
    proof {
        assert forall|k: int| 0 <= k < g@.len() implies (#[trigger] g@[k])@ == gs[k] by {
            assert(gs[k] == g@.map_values(|v: Vec<char>| v@)[k]);
        }
    }
    let nx = g[0].len();
    let ny = g.len();
    let mut out: Vec<String> = Vec::new();
    let mut y: usize = 0;
    while y < ny
        invariant
            y <= ny == gs.len(),
            1 <= ny,
            nx == gs[0].len(),
            gs == g@.map_values(|v: Vec<char>| v@),
            gs == grid_of(lines@),
            uniform(gs),
            forall|k: int| 0 <= k < g@.len() ==> (#[trigger] g@[k])@ == gs[k],
            out@.len() == y,
            forall|k: int| 0 <= k < y ==> (#[trigger] out@[k])@ == erode(gs)[k],
        decreases ny - y,
    {
        let mut row = String::new();
        let mut x: usize = 0;
        while x < nx
            invariant
                x <= nx == gs[0].len(),
                y < ny == gs.len(),
                gs == g@.map_values(|v: Vec<char>| v@),
                uniform(gs),
                forall|k: int| 0 <= k < g@.len() ==> (#[trigger] g@[k])@ == gs[k],
                row@ =~= erode(gs)[y as int].take(x as int),
            decreases nx - x,
        {
            let keep = if g[y][x] == '@' {
                let nb = count_neighbors(&g, x, y);
                nb >= 4
            } else {
                false
            };
            proof {
                reveal_strlit("@");
                reveal_strlit(".");
            }
            if keep {
                row.append("@");
            } else {
                row.append(".");
            }
            proof {
                assert(row@ =~= erode(gs)[y as int].take(x + 1));
            }
            x = x + 1;
        }
        proof {
            assert(row@ =~= erode(gs)[y as int]);
        }
        out.push(row);
        y = y + 1;
    }
    proof {
        assert(grid_of(out@) =~= erode(gs));
    }
    out
}

/// Counts the rolls on the grid.
pub fn count_roll(lines: &Vec<String>) -> (r: u32)
    requires
        lines@.len() >= 1,
        uniform(grid_of(lines@)),
        grid_of(lines@)[0].len() * grid_of(lines@).len() <= u32::MAX,
    ensures
        r == count_roll_spec(grid_of(lines@)),
{
    let g = to_grid(lines);
    let ghost gs = grid_of(lines@);
    proof {
        assert forall|k: int| 0 <= k < g@.len() implies (#[trigger] g@[k])@ == gs[k] by {
            assert(gs[k] == g@.map_values(|v: Vec<char>| v@)[k]);
        }
    }
    let nx = g[0].len();
    let ny = g.len();
    let mut res: u32 = 0;
    let mut x: usize = 0;
    while x < nx
        invariant
            x <= nx == gs[0].len(),
            ny == gs.len() >= 1,
            gs == g@.map_values(|v: Vec<char>| v@),
            uniform(gs),
            forall|k: int| 0 <= k < g@.len() ==> (#[trigger] g@[k])@ == gs[k],
            nx * ny <= u32::MAX,
            res == count_upto(gs, roll_fn(), x as int),
            res <= x * ny,
        decreases nx - x,
    {
        let mut y: usize = 0;
        while y < ny
            invariant
                x < nx == gs[0].len(),
                y <= ny == gs.len(),
                gs == g@.map_values(|v: Vec<char>| v@),
                uniform(gs),
                forall|k: int| 0 <= k < g@.len() ==> (#[trigger] g@[k])@ == gs[k],
                nx * ny <= u32::MAX,
                res == count_upto(gs, roll_fn(), x as int) + count_col(
                    gs,
                    roll_fn(),
                    x as int,
                    y as int,
                ),
                res <= x * ny + y,
            decreases ny - y,
        {
            proof {
                lemma_count_col_le(gs, gs, roll_fn(), roll_fn(), x as int, y as int);
                lemma_count_upto_le(gs, gs, roll_fn(), roll_fn(), x as int);
                assert(x * ny + ny <= nx * ny) by (nonlinear_arith)
                    requires
                        x < nx,
                        0 <= ny,
                ;
            }
            if g[y][x] == '@' {
                res = res + 1;
            }
            proof {
                assert(roll_fn()(gs, x as int, y as int) == is_roll(gs, x as int, y as int));
            }
            y = y + 1;
        }
        proof {
            assert(x * ny + ny == (x + 1) * ny) by (nonlinear_arith);
        }
        x = x + 1;
    }
    proof {
        assert(res == count_cells(gs, roll_fn()));
    }
    res
}

/// Eroding never adds a roll.
pub proof fn lemma_erode_le(g: Seq<Seq<char>>)
    ensures
        0 <= count_roll_spec(erode(g)) <= count_roll_spec(g),
        erode(g).len() == g.len(),
        g.len() > 0 ==> erode(g)[0].len() == g[0].len(),
{
    assert forall|a: int, b: int| #[trigger] roll_fn()(erode(g), a, b) implies roll_fn()(
        g,
        a,
        b,
    ) by {
        assert(is_roll(erode(g), a, b) ==> is_roll(g, a, b));
    }
    lemma_count_upto_le(
        erode(g),
        g,
        roll_fn(),
        roll_fn(),
        if g.len() == 0 {
            0
        } else {
            g[0].len() as int
        },
    );
    lemma_count_upto_le(
        g,
        g,
        roll_fn(),
        roll_fn(),
        if g.len() == 0 {
            0
        } else {
            g[0].len() as int
        },
    );
    if g.len() > 0 && erode(g)[0].len() != g[0].len() {
        assert(erode(g)[0] == Seq::new(
            g[0].len(),
            |x: int|
                if is_roll(g, x, 0) && !accessible(g, x, 0) {
                    '@'
                } else {
                    '.'
                },
        ));
    }
    if g.len() > 0 {
        assert(count_cells(erode(g), roll_fn()) == count_upto(
            erode(g),
            roll_fn(),
            g[0].len() as int,
        ));
    }
}

/// Roll count once the rounds of taking stop changing the grid.
pub open spec fn final_count(g: Seq<Seq<char>>) -> int
    decreases count_roll_spec(g),
{
    if count_roll_spec(g) < 0 {
        0
    } else if count_roll_spec(erode(g)) == count_roll_spec(g) {
        count_roll_spec(erode(g))
    } else {
        proof {
            lemma_erode_le(g);
        }
        final_count(erode(g))
    }
}

/// How many rolls can ever be taken: the starting count less the count
/// that survives every round.
pub fn count_isolated(lines: Vec<String>) -> (r: u32)
    requires
        lines@.len() >= 1,
        uniform(grid_of(lines@)),
        grid_of(lines@)[0].len() * grid_of(lines@).len() <= u32::MAX,
    ensures
        r == count_roll_spec(grid_of(lines@)) - final_count(grid_of(lines@)),
{
    let ghost g0 = grid_of(lines@);
    let first_nb = count_roll(&lines);
    let mut last_nb = first_nb;
    let mut current_lines = lines;
    let mut done = false;
    proof {
        lemma_final_le(g0);
    }
    while !done
        invariant
            current_lines@.len() >= 1,
            uniform(grid_of(current_lines@)),
            grid_of(current_lines@).len() == g0.len(),
            grid_of(current_lines@)[0].len() == g0[0].len(),
            g0.len() >= 1,
            g0[0].len() * g0.len() <= u32::MAX,
            last_nb == count_roll_spec(grid_of(current_lines@)),
            !done ==> final_count(grid_of(current_lines@)) == final_count(g0),
            first_nb == count_roll_spec(g0),
            0 <= final_count(g0) <= last_nb <= first_nb,
            done ==> last_nb == final_count(g0),
        decreases (if done {
            0int
        } else {
            last_nb + 1
        }),
    {
        let ghost cur_g = grid_of(current_lines@);
        proof {
            lemma_erode_le(cur_g);
        }
        current_lines = remove_accessible(current_lines);
        let current_nb = count_roll(&current_lines);
        proof {
            assert(grid_of(current_lines@) == erode(cur_g));
            lemma_final_le(erode(cur_g));
        }
        if current_nb == last_nb {
            done = true;
            proof {
                assert(final_count(cur_g) == count_roll_spec(erode(cur_g)));
            }
        } else {
            proof {
                assert(final_count(cur_g) == final_count(erode(cur_g)));
            }
        }
        last_nb = current_nb;
    }
    first_nb - last_nb
}

/// The surviving count never exceeds the current count.
pub proof fn lemma_final_le(g: Seq<Seq<char>>)
    ensures
        0 <= final_count(g) <= count_roll_spec(g) || count_roll_spec(g) < 0,
    decreases count_roll_spec(g),
{
    lemma_erode_le(g);
    if count_roll_spec(g) >= 0 && count_roll_spec(erode(g)) != count_roll_spec(g) {
        lemma_final_le(erode(g));
    }
}

} // verus!