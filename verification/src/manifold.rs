//! The manifold puzzle: a ray falls through a grid of splitters. A ray
//! that meets a splitter becomes two rays, one step left and one step
//! right. The answers count the splitters that are ever hit and the
//! timelines (leaves of the splitting tree) that reach the bottom.

use vstd::prelude::*;

verus! {

use crate::parsing::{chars_of, split_lines, spec_lines};

/// The grid: the entry column, the width, the height, and for each row
/// the columns that hold a splitter.
pub struct Manifold {
    pub x_start: usize,
    pub x: usize,
    pub y: usize,
    pub splitters: Vec<Vec<usize>>,
}

impl Manifold {
    /// Row `y` holds a splitter in column `x`.
    pub open spec fn splits(self, x: int, y: int) -> bool {
        &&& 0 <= y < self.splitters@.len()
        &&& exists|k: int|
            0 <= k < self.splitters@[y]@.len() && (#[trigger] self.splitters@[y]@[k]) == x
    }

    /// Every splitter of a counted row keeps one column away from both
    /// edges, so split rays stay on the grid.
    pub open spec fn splitters_inside(self) -> bool {
        forall|x: int, y: int| self.splits(x, y) ==> 1 <= x && x + 2 <= self.x
    }

    /// Timelines reaching the bottom from a ray that enters row `y` in
    /// column `x`.
    pub open spec fn timelines(self, x: int, y: int) -> int
        decreases self.y - y,
    {
        if y >= self.y {
            1
        } else if self.splits(x, y) {
            self.timelines(x - 1, y + 1) + self.timelines(x + 1, y + 1)
        } else {
            self.timelines(x, y + 1)
        }
    }

    /// Which columns hold a ray when entering row `y`: a split sends the
    /// ray one column each way, anything else lets it fall straight.
    pub open spec fn reach_row(self, y: int) -> Seq<bool>
        decreases y,
    {
        if y <= 0 {
            Seq::new(self.x as nat, |x: int| x == self.x_start)
        } else {
            let prev = self.reach_row(y - 1);
            Seq::new(
                self.x as nat,
                |x: int|
                    (x >= 1 && prev[x - 1] && self.splits(x - 1, y - 1)) || (x + 1 < self.x
                        && prev[x + 1] && self.splits(x + 1, y - 1)) || (prev[x] && !self.splits(
                        x,
                        y - 1,
                    )),
            )
        }
    }

    /// A ray occupies column `x` when entering row `y`.
    pub open spec fn reaches(self, x: int, y: int) -> bool {
        0 <= x < self.x && self.reach_row(y)[x]
    }

    /// Splitters of row `y` hit by a ray, among columns below `x`.
    pub open spec fn hits_row(self, y: int, x: int) -> int
        decreases x,
    {
        if x <= 0 {
            0
        } else {
            self.hits_row(y, x - 1) + (if self.reaches(x - 1, y) && self.splits(x - 1, y) {
                1int
            } else {
                0int
            })
        }
    }

    /// Splitters hit by any ray in rows below `y`.
    pub open spec fn hits_total(self, y: int) -> int
        decreases y,
    {
        if y <= 0 {
            0
        } else {
            self.hits_total(y - 1) + self.hits_row(y - 1, self.x as int)
        }
    }
}

proof fn lemma_hits_row_bounds(m: Manifold, y: int, x: int)
    ensures
        0 <= m.hits_row(y, x) <= (if x >= 0 {
            x
        } else {
            0
        }),
    decreases x,
{
    if x > 0 {
        lemma_hits_row_bounds(m, y, x - 1);
    }
}

proof fn lemma_hits_total_bounds(m: Manifold, y: int)
    ensures
        0 <= m.hits_total(y) <= (if y >= 0 {
            y
        } else {
            0
        }) * m.x,
    decreases y,
{
    if y > 0 {
        lemma_hits_total_bounds(m, y - 1);
        lemma_hits_row_bounds(m, y - 1, m.x as int);
        assert((y - 1) * m.x + m.x == y * m.x) by (nonlinear_arith);
    }
}

impl Manifold {
    /// Tests whether row `y` holds a splitter in column `x`.
    fn has_splitter(&self, x: usize, y: usize) -> (r: bool)
        requires
            y < self.splitters@.len(),
        ensures
            r == self.splits(x as int, y as int),
    {
        let row = &self.splitters[y];
        let mut k: usize = 0;
        while k < row.len()
            invariant
                k <= row@.len(),
                row@ == self.splitters@[y as int]@,
                y < self.splitters@.len(),
                forall|k2: int| 0 <= k2 < k ==> (#[trigger] row@[k2]) != x,
            decreases row@.len() - k,
        {
            if row[k] == x {
                return true;
            }
            k = k + 1;
        }
        false
    }

    /// Counts the splitters that some ray hits, row by row.
    pub fn count_split(&self) -> (res: u32)
        requires
            self.splitters_inside(),
            self.x_start < self.x,
            self.y <= self.splitters@.len(),
            self.x * self.y <= u32::MAX,
        ensures
            res == self.hits_total(self.y as int),
    {
        let nx = self.x;
        let ny = self.y;
        let mut present: Vec<bool> = Vec::new();
        let mut z: usize = 0;
        while z < nx
            invariant
                z <= nx,
                present@.len() == z,
                forall|k: int| 0 <= k < z ==> (#[trigger] present@[k]) == (k == self.x_start),
            decreases nx - z,
        {
            present.push(z == self.x_start);
            z = z + 1;
        }
        let mut res: u32 = 0;
        let mut y: usize = 0;
        while y < ny
            invariant
                y <= ny == self.y,
                nx == self.x,
                self.x_start < nx,
                self.splitters_inside(),
                ny <= self.splitters@.len(),
                nx * ny <= u32::MAX,
                present@.len() == nx,
                forall|k: int| 0 <= k < nx ==> (#[trigger] present@[k]) == self.reaches(k, y as int),
                res == self.hits_total(y as int),
                res <= y * nx,
            decreases ny - y,
        {
            proof {
                lemma_hits_row_bounds(*self, y as int, nx as int);
                lemma_hits_total_bounds(*self, y as int);
                assert(y * nx + nx == (y + 1) * nx) by (nonlinear_arith);
                assert(y * nx + nx <= nx * ny) by (nonlinear_arith)
                    requires
                        y < ny,
                        0 <= nx,
                ;
            }
            let mut x: usize = 0;
            while x < nx
                invariant
                    x <= nx == self.x,
                    y < ny == self.y,
                    ny <= self.splitters@.len(),
                    nx * ny <= u32::MAX,
                    y * nx + nx <= nx * ny,
                    present@.len() == nx,
                    forall|k: int|
                        0 <= k < nx ==> (#[trigger] present@[k]) == self.reaches(k, y as int),
                    res == self.hits_total(y as int) + self.hits_row(y as int, x as int),
                    res <= y * nx + x,
                decreases nx - x,
            {
                proof {
                    lemma_hits_row_bounds(*self, y as int, x as int);
                    lemma_hits_total_bounds(*self, y as int);
                }
                if present[x] {
                    if self.has_splitter(x, y) {
                        res = res + 1;
                    }
                }
                x = x + 1;
            }
            let ghost old_present = present@;
            let mut fresh: Vec<bool> = Vec::new();
            let mut z2: usize = 0;
            while z2 < nx
                invariant
                    z2 <= nx,
                    fresh@.len() == z2,
                    forall|k: int| 0 <= k < z2 ==> !(#[trigger] fresh@[k]),
                decreases nx - z2,
            {
                fresh.push(false);
                z2 = z2 + 1;
            }
            let mut x2: usize = 0;
            while x2 < nx
                invariant
                    x2 <= nx == self.x,
                    y < ny == self.y,
                    ny <= self.splitters@.len(),
                    self.splitters_inside(),
                    self.x_start < nx,
                    present@ == old_present,
                    present@.len() == nx,
                    fresh@.len() == nx,
                    forall|k: int|
                        0 <= k < nx ==> (#[trigger] present@[k]) == self.reaches(k, y as int),
                    forall|k: int|
                        0 <= k < nx ==> ((#[trigger] fresh@[k]) <==> ((k >= 1 && k - 1 < x2
                            && present@[k - 1] && self.splits(k - 1, y as int)) || (k + 1 < nx && k
                            + 1 < x2 && present@[k + 1] && self.splits(k + 1, y as int)) || (k < x2
                            && present@[k] && !self.splits(k, y as int)))),
                decreases nx - x2,
            {
                if present[x2] {
                    if self.has_splitter(x2, y) {
                        proof {
                            assert(1 <= x2 && x2 + 2 <= nx);
                        }
                        fresh.set(x2 - 1, true);
                        fresh.set(x2 + 1, true);
                    } else {
                        fresh.set(x2, true);
                    }
                }
                x2 = x2 + 1;
            }
            present = fresh;
            proof {
                let prev = self.reach_row(y as int);
                let next = self.reach_row(y + 1);
                assert forall|k: int| 0 <= k < nx implies (#[trigger] present@[k]) == self.reaches(
                    k,
                    y + 1,
                ) by {
                    assert(next[k] == ((k >= 1 && prev[k - 1] && self.splits(k - 1, y as int)) || (
                    k + 1 < self.x && prev[k + 1] && self.splits(k + 1, y as int)) || (prev[k]
                        && !self.splits(k, y as int))));
                }
            }
            y = y + 1;
        }
        res
    }

    /// Timelines reaching the bottom, one ray followed at a time.
    pub fn count_timelines_naive(&self) -> (r: u64)
        requires
            self.splitters_inside(),
            self.x_start < self.x,
            self.y <= self.splitters@.len(),
            forall|x: int, y: int|
                0 <= x < self.x && 1 <= y <= self.y ==> #[trigger] self.timelines(x, y)
                    <= u64::MAX,
        ensures
            r == self.timelines(self.x_start as int, 1),
    {
        self.count_from(self.x_start, 1)
    }

    /// Follows one ray from `(x, y)` and counts its timelines.
    fn count_from(&self, x: usize, y: usize) -> (r: u64)
        requires
            self.splitters_inside(),
            x < self.x,
            1 <= y,
            self.y <= self.splitters@.len(),
            forall|x2: int, y2: int|
                0 <= x2 < self.x && 1 <= y2 <= self.y ==> #[trigger] self.timelines(x2, y2)
                    <= u64::MAX,
        ensures
            r == self.timelines(x as int, y as int),
        decreases self.y - y,
    {
        if y >= self.y {
            return 1;
        }
        if self.has_splitter(x, y) {
            proof {
                assert(1 <= x && x + 2 <= self.x);
                lemma_timelines_nonneg(*self, x - 1, y + 1);
                lemma_timelines_nonneg(*self, x + 1, y + 1);
                assert(self.timelines(x as int, y as int) <= u64::MAX);
            }
            let left = self.count_from(x - 1, y + 1);
            let right = self.count_from(x + 1, y + 1);
            left + right
        } else {
            self.count_from(x, y + 1)
        }
    }

    /// Timelines reaching the bottom, whole rows at a time: each row of
    /// counts is rebuilt from the row below it.
    pub fn count_timelines(&self) -> (r: u64)
        requires
            self.splitters_inside(),
            self.x_start < self.x,
            self.y <= self.splitters@.len(),
            forall|x: int, y: int|
                0 <= x < self.x && 1 <= y <= self.y ==> #[trigger] self.timelines(x, y)
                    <= u64::MAX,
        ensures
            r == self.timelines(self.x_start as int, 1),
    {
        let nx = self.x;
        let mut row: Vec<u64> = Vec::new();
        let mut z: usize = 0;
        while z < nx
            invariant
                z <= nx,
                row@.len() == z,
                forall|k: int| 0 <= k < z ==> (#[trigger] row@[k]) == 1,
            decreases nx - z,
        {
            row.push(1);
            z = z + 1;
        }
        if self.y <= 1 {
            proof {
                assert(self.timelines(self.x_start as int, 1) == 1);
            }
            return row[self.x_start];
        }
        let mut cy: usize = self.y;
        while cy > 1
            invariant
                1 <= cy <= self.y,
                nx == self.x,
                self.x_start < nx,
                self.splitters_inside(),
                self.y <= self.splitters@.len(),
                forall|x2: int, y2: int|
                    0 <= x2 < self.x && 1 <= y2 <= self.y ==> #[trigger] self.timelines(x2, y2)
                        <= u64::MAX,
                row@.len() == nx,
                forall|k: int|
                    0 <= k < nx ==> (#[trigger] row@[k]) == self.timelines(k, cy as int),
            decreases cy,
        {
            let ny2 = cy - 1;
            let mut fresh: Vec<u64> = Vec::new();
            let mut x: usize = 0;
            while x < nx
                invariant
                    x <= nx == self.x,
                    1 <= ny2,
                    ny2 + 1 == cy <= self.y,
                    self.splitters_inside(),
                    self.y <= self.splitters@.len(),
                    forall|x2: int, y2: int|
                        0 <= x2 < self.x && 1 <= y2 <= self.y ==> #[trigger] self.timelines(
                            x2,
                            y2,
                        ) <= u64::MAX,
                    row@.len() == nx,
                    forall|k: int|
                        0 <= k < nx ==> (#[trigger] row@[k]) == self.timelines(k, cy as int),
                    fresh@.len() == x,
                    forall|k: int|
                        0 <= k < x ==> (#[trigger] fresh@[k]) == self.timelines(k, ny2 as int),
                decreases nx - x,
            {
                proof {
                    lemma_timelines_nonneg(*self, x as int, cy as int);
                }
                if self.has_splitter(x, ny2) {
                    proof {
                        assert(1 <= x && x + 2 <= nx);
                        lemma_timelines_nonneg(*self, x - 1, cy as int);
                        lemma_timelines_nonneg(*self, x + 1, cy as int);
                        assert(self.timelines(x as int, ny2 as int) <= u64::MAX);
                    }
                    fresh.push(row[x - 1] + row[x + 1]);
                } else {
                    fresh.push(row[x]);
                }
                x = x + 1;
            }
            row = fresh;
            cy = ny2;
        }
        row[self.x_start]
    }
}

/// Every ray yields at least one timeline.
pub proof fn lemma_timelines_nonneg(m: Manifold, x: int, y: int)
    ensures
        m.timelines(x, y) >= 1,
    decreases m.y - y,
{
    if y < m.y {
        if m.splits(x, y) {
            lemma_timelines_nonneg(m, x - 1, y + 1);
            lemma_timelines_nonneg(m, x + 1, y + 1);
        } else {
            lemma_timelines_nonneg(m, x, y + 1);
        }
    }
}

/// Position of the first `c` in `s`, or `-1`.
pub open spec fn find_first(s: Seq<char>, c: char) -> int
    decreases s.len(),
{
    if s.len() == 0 {
        -1
    } else if s[0] == c {
        0
    } else if find_first(s.skip(1), c) == -1 {
        -1
    } else {
        1 + find_first(s.skip(1), c)
    }
}

/// A search result is the first hit or the miss marker.
pub proof fn lemma_find_first_range(s: Seq<char>, c: char)
    ensures
        find_first(s, c) == -1 || (0 <= find_first(s, c) < s.len() && s[find_first(s, c)] == c),
    decreases s.len(),
{
    if s.len() > 0 && s[0] != c {
        lemma_find_first_range(s.skip(1), c);
    }
}

/// The columns of `s` that hold `c`, in order.
pub open spec fn idxs_of(s: Seq<char>, c: char) -> Seq<int>
    decreases s.len(),
{
    if s.len() == 0 {
        Seq::empty()
    } else if s.last() == c {
        idxs_of(s.drop_last(), c).push(s.len() - 1)
    } else {
        idxs_of(s.drop_last(), c)
    }
}

impl Manifold {
    /// Reads the grid: the entry column is the `S` of the first line and
    /// each row lists its `^` columns. Fails exactly when there is no
    /// line or no `S` in the first one.
    pub fn from_string(string: String) -> (r: Option<Manifold>)
        ensures
            ({
                let lns = spec_lines(string@);
                &&& r is Some <==> (lns.len() > 0 && find_first(lns[0], 'S') >= 0)
                &&& r is Some ==> {
                    let m = r->Some_0;
                    &&& m.x_start == find_first(lns[0], 'S')
                    &&& m.x == lns[0].len()
                    &&& m.y == lns.len()
                    &&& m.splitters@.len() == lns.len()
                    &&& forall|yy: int|
                        0 <= yy < lns.len() ==> (#[trigger] m.splitters@[yy])@.map_values(
                            |u: usize| u as int,
                        ) == idxs_of(lns[yy], '^')
                }
            }),
    {
        let cs = chars_of(string.as_str());
        let lines = split_lines(&cs);
        let ghost lns = spec_lines(string@);
        proof {
            assert forall|k: int| 0 <= k < lines@.len() implies (#[trigger] lines@[k])@
                == lns[k] by {
                assert(lines@.map_values(|p: Vec<char>| p@)[k] == lns[k]);
            }
        }
        if lines.len() == 0 {
            return None;
        }
        let first = &lines[0];
        let mut start: usize = 0;
        let mut found = false;
        let mut i: usize = 0;
        proof {
            assert(lns[0].skip(0) =~= lns[0]);
        }
        while i < first.len() && !found
            invariant
                i <= first@.len(),
                first@ == lns[0],
                !found ==> find_first(lns[0], 'S') == if find_first(lns[0].skip(i as int), 'S')
                    == -1 {
                    -1int
                } else {
                    i + find_first(lns[0].skip(i as int), 'S')
                },
                found ==> start < first@.len() && find_first(lns[0], 'S') == start,
            decreases first@.len() - i + (if found {
                0int
            } else {
                1int
            }),
        {
            proof {
                assert(lns[0].skip(i as int).len() > 0);
                assert(lns[0].skip(i as int)[0] == lns[0][i as int]);
                assert(lns[0].skip(i as int).skip(1) =~= lns[0].skip(i + 1));
            }
            if first[i] == 'S' {
                start = i;
                found = true;
            } else {
                proof {
                    lemma_find_first_range(lns[0].skip(i + 1), 'S');
                    assert(find_first(lns[0].skip(i as int), 'S') == (if find_first(
                        lns[0].skip(i + 1),
                        'S',
                    ) == -1 {
                        -1int
                    } else {
                        1 + find_first(lns[0].skip(i + 1), 'S')
                    }));
                }
                i = i + 1;
            }
        }
        if !found {
            proof {
                assert(lns[0].skip(i as int).len() == 0);
                assert(find_first(lns[0], 'S') == -1);
            }
            return None;
        }

        let mut splitters: Vec<Vec<usize>> = Vec::new();
        let mut y: usize = 0;
        while y < lines.len()
            invariant
                y <= lines@.len() == lns.len(),
                forall|k: int| 0 <= k < lines@.len() ==> (#[trigger] lines@[k])@ == lns[k],
                splitters@.len() == y,
                forall|k: int|
                    0 <= k < y ==> (#[trigger] splitters@[k])@.map_values(|u: usize| u as int)
                        == idxs_of(lns[k], '^'),
            decreases lines@.len() - y,
        {
            let line = &lines[y];
            let mut row: Vec<usize> = Vec::new();
            let mut j: usize = 0;
            while j < line.len()
                invariant
                    j <= line@.len(),
                    line@ == lns[y as int],
                    y < lns.len(),
                    row@.map_values(|u: usize| u as int) =~= idxs_of(
                        lns[y as int].take(j as int),
                        '^',
                    ),
                decreases line@.len() - j,
            {
                proof {
                    assert(lns[y as int].take(j + 1).drop_last() =~= lns[y as int].take(j as int));
                    assert(lns[y as int].take(j + 1).last() == lns[y as int][j as int]);
                }
                if line[j] == '^' {
                    row.push(j);
                }
                proof {
                    assert(row@.map_values(|u: usize| u as int) =~= idxs_of(
                        lns[y as int].take(j + 1),
                        '^',
                    ));
                }
                j = j + 1;
            }
            proof {
                assert(lns[y as int].take(lns[y as int].len() as int) =~= lns[y as int]);
            }
            splitters.push(row);
            y = y + 1;
        }
        Some(
            Manifold {
                x_start: start,
                x: lines[0].len(),
                y: lines.len(),
                splitters,
            },
        )
    }
}

} // verus!
