//! The red tape puzzle: corners of a rectilinear polygon, candidate
//! rectangles spanned by corner pairs, and a point-in-polygon test by
//! counting edge crossings.

use vstd::prelude::*;

verus! {

use crate::parsing::{all_digits, digits_val, chars_of, split_chars, split_lines, spec_split,
    spec_lines, parse_u64};

/// One corner of the polygon.
pub struct Corner {
    pub x: u64,
    pub y: u64,
}

/// Cells of the rectangle spanned by two corners, counted inclusively.
pub open spec fn rect_area(a: Corner, b: Corner) -> int {
    (if a.x >= b.x {
        a.x - b.x
    } else {
        b.x - a.x
    } + 1) * (if a.y >= b.y {
        a.y - b.y
    } else {
        b.y - a.y
    } + 1)
}

impl Corner {
    /// The inclusive area of the rectangle this corner spans with the
    /// other.
    pub fn get_area(&self, other: &Corner) -> (r: u64)
        requires
            rect_area(*self, *other) <= u64::MAX,
        ensures
            r == rect_area(*self, *other),
    {
        let dx = if self.x >= other.x {
            self.x - other.x
        } else {
            other.x - self.x
        };
        let dy = if self.y >= other.y {
            self.y - other.y
        } else {
            other.y - self.y
        };
        proof {
            assert((dx + 1) * (dy + 1) == rect_area(*self, *other));
            assert((dx + 1) <= (dx + 1) * (dy + 1) && (dy + 1) <= (dx + 1) * (dy + 1)) by (
            nonlinear_arith)
                requires
                    dx >= 0,
                    dy >= 0,
            ;
        }
        (dx + 1) * (dy + 1)
    }
}

/// A corner line such as `7,1`: two numbers split by a comma; anything
/// after a second comma is ignored.
pub open spec fn wf_corner_line(line: Seq<char>) -> bool {
    let parts = spec_split(line, ',');
    &&& parts.len() >= 2
    &&& parts[0].len() > 0 && all_digits(parts[0]) && digits_val(parts[0]) <= u64::MAX
    &&& parts[1].len() > 0 && all_digits(parts[1]) && digits_val(parts[1]) <= u64::MAX
}

/// The corner a well-formed line describes.
pub open spec fn spec_corner_line(line: Seq<char>) -> Corner {
    let parts = spec_split(line, ',');
    Corner { x: digits_val(parts[0]) as u64, y: digits_val(parts[1]) as u64 }
}

impl Corner {
    /// Reads the corner list, one corner per line. Fails exactly when
    /// some line is not a corner line.
    pub fn from_string(string: &String) -> (r: Option<Vec<Corner>>)
        ensures
            r is Some <==> (forall|k: int|
                0 <= k < spec_lines(string@).len() ==> wf_corner_line(
                    #[trigger] spec_lines(string@)[k],
                )),
            r is Some ==> r->Some_0@.len() == spec_lines(string@).len(),
            r is Some ==> forall|k: int|
                0 <= k < spec_lines(string@).len() ==> #[trigger] r->Some_0@[k] == spec_corner_line(
                    spec_lines(string@)[k],
                ),
    {
        let cs = chars_of(string.as_str());
        let lines = split_lines(&cs);
        let ghost lns = spec_lines(string@);
        proof {
            assert forall|k: int| 0 <= k < lines@.len() implies (#[trigger] lines@[k])@
                == lns[k] by {
                assert(lines@.map_values(|p: Vec<char>| p@)[k] == lns[k]);
            }
        }
        let mut corners: Vec<Corner> = Vec::new();
        let mut li: usize = 0;
        while li < lines.len()
            invariant
                li <= lines@.len() == lns.len(),
                lns == spec_lines(string@),
                forall|k: int| 0 <= k < lines@.len() ==> (#[trigger] lines@[k])@ == lns[k],
                corners@.len() == li,
                forall|k: int| 0 <= k < li ==> wf_corner_line(#[trigger] lns[k]),
                forall|k: int|
                    0 <= k < li ==> #[trigger] corners@[k] == spec_corner_line(lns[k]),
            decreases lines@.len() - li,
        {
            let ghost lparts = spec_split(lns[li as int], ',');
            let parts = split_chars(&lines[li], ',');
            proof {
                assert forall|k: int| 0 <= k < parts@.len() implies (#[trigger] parts@[k])@
                    == lparts[k] by {
                    assert(parts@.map_values(|p: Vec<char>| p@)[k] == lparts[k]);
                }
            }
            if parts.len() < 2 {
                return None;
            }
            let x = match parse_u64(&parts[0]) {
                None => {
                    return None;
                },
                Some(v) => v,
            };
            let y = match parse_u64(&parts[1]) {
                None => {
                    return None;
                },
                Some(v) => v,
            };
            corners.push(Corner { x, y });
            li = li + 1;
        }
        Some(corners)
    }
}

/// A vertical edge from `a` to `b` lies on or left of the ray cast right
/// and half a step down from `c`, and spans that half step.
pub open spec fn edge_crosses(a: Corner, b: Corner, c: Corner) -> bool {
    &&& a.x == b.x
    &&& a.x <= c.x
    &&& (if a.y <= b.y {
        a.y
    } else {
        b.y
    }) <= c.y
    &&& (if a.y >= b.y {
        a.y
    } else {
        b.y
    }) > c.y
}

/// Tests whether the edge crosses the half-step ray from the corner.
pub fn does_intersect_point(s1: (&Corner, &Corner), corner: &Corner) -> (r: bool)
    ensures
        r == edge_crosses(*s1.0, *s1.1, *corner),
{
    if s1.0.x != s1.1.x {
        false
    } else {
        let miny = if s1.0.y <= s1.1.y {
            s1.0.y
        } else {
            s1.1.y
        };
        let maxy = if s1.0.y >= s1.1.y {
            s1.0.y
        } else {
            s1.1.y
        };
        s1.0.x <= corner.x && miny <= corner.y && maxy > corner.y
    }
}

/// The point sits inside the bounding box of edge `i` of the polygon.
pub open spec fn on_edge_box(cs: Seq<Corner>, c: Corner, i: int) -> bool {
    let a = cs[i];
    let b = cs[if i + 1 == cs.len() {
        0int
    } else {
        i + 1
    }];
    &&& (if a.x <= b.x {
        a.x
    } else {
        b.x
    }) <= c.x
    &&& c.x <= (if a.x >= b.x {
        a.x
    } else {
        b.x
    })
    &&& (if a.y <= b.y {
        a.y
    } else {
        b.y
    }) <= c.y
    &&& c.y <= (if a.y >= b.y {
        a.y
    } else {
        b.y
    })
}

/// Crossings of the half-step ray among the first `i` edges.
pub open spec fn crossings_upto(cs: Seq<Corner>, c: Corner, i: int) -> int
    decreases i,
{
    if i <= 0 {
        0
    } else {
        crossings_upto(cs, c, i - 1) + (if edge_crosses(
            cs[i - 1],
            cs[if i == cs.len() {
                0int
            } else {
                i
            }],
            c,
        ) {
            1int
        } else {
            0int
        })
    }
}

/// The corner lies inside the polygon: on some edge's box, or with an
/// odd number of edges crossing its half-step ray.
pub open spec fn inside(cs: Seq<Corner>, c: Corner) -> bool {
    (exists|i: int| 0 <= i < cs.len() && #[trigger] on_edge_box(cs, c, i)) || crossings_upto(
        cs,
        c,
        cs.len() as int,
    ) % 2 == 1
}

proof fn lemma_crossings_bound(cs: Seq<Corner>, c: Corner, i: int)
    ensures
        0 <= crossings_upto(cs, c, i) <= (if i >= 0 {
            i
        } else {
            0
        }),
    decreases i,
{
    if i > 0 {
        lemma_crossings_bound(cs, c, i - 1);
    }
}

/// Decides whether the corner lies inside the polygon.
pub fn check_corner_inside(corner: Corner, corners: &Vec<Corner>) -> (r: bool)
    ensures
        r == inside(corners@, corner),
{
    let n = corners.len();
    let mut i: usize = 0;
    while i < n
        invariant
            i <= n == corners@.len(),
            forall|k: int| 0 <= k < i ==> !on_edge_box(corners@, corner, k),
        decreases n - i,
    {
        proof {
            if i + 1 < n {
                vstd::arithmetic::div_mod::lemma_small_mod((i + 1) as nat, n as nat);
            } else {
                vstd::arithmetic::div_mod::lemma_mod_self_0(n as int);
            }
        }
        let a = &corners[i];
        let b = &corners[(i + 1) % n];
        let minx = if a.x <= b.x {
            a.x
        } else {
            b.x
        };
        let maxx = if a.x >= b.x {
            a.x
        } else {
            b.x
        };
        let miny = if a.y <= b.y {
            a.y
        } else {
            b.y
        };
        let maxy = if a.y >= b.y {
            a.y
        } else {
            b.y
        };
        if corner.x >= minx && corner.x <= maxx && corner.y >= miny && corner.y <= maxy {
            proof {
                assert(on_edge_box(corners@, corner, i as int));
            }
            return true;
        }
        proof {
            assert(!on_edge_box(corners@, corner, i as int));
        }
        i = i + 1;
    }
    let mut nb_hit: u64 = 0;
    let mut k: usize = 0;
    while k < n
        invariant
            k <= n == corners@.len(),
            nb_hit == crossings_upto(corners@, corner, k as int),
            nb_hit <= k,
        decreases n - k,
    {
        proof {
            lemma_crossings_bound(corners@, corner, k + 1);
            if k + 1 < n {
                vstd::arithmetic::div_mod::lemma_small_mod((k + 1) as nat, n as nat);
            } else {
                vstd::arithmetic::div_mod::lemma_mod_self_0(n as int);
            }
        }
        if does_intersect_point((&corners[k], &corners[(k + 1) % n]), &corner) {
            nb_hit = nb_hit + 1;
        }
        k = k + 1;
    }
    nb_hit % 2 == 1
}

/// The list holds, somewhere, the pair `(i, j)` with its area.
pub open spec fn pair_listed(cs: Seq<Corner>, r: Seq<(u64, usize, usize)>, i: int, j: int) -> bool {
    exists|e: int|
        0 <= e < r.len() && (#[trigger] r[e]).1 == i && r[e].2 == j && r[e].0 == rect_area(
            cs[i],
            cs[j],
        )
}

/// An entry of the rectangle list: the area spanned by two corner
/// positions of the list.
pub open spec fn valid_rect(cs: Seq<Corner>, e: (u64, usize, usize)) -> bool {
    &&& e.1 < e.2 < cs.len()
    &&& e.0 == rect_area(cs[e.1 as int], cs[e.2 as int])
}

/// All corner pairs with their areas, largest area first. Every pair of
/// positions appears, and every entry is such a pair.
pub fn get_sorted_rectangles(corners: &Vec<Corner>) -> (r: Vec<(u64, usize, usize)>)
    requires
        forall|i: int, j: int|
            0 <= i < j < corners@.len() ==> rect_area(
                #[trigger] corners@[i],
                #[trigger] corners@[j],
            ) <= u64::MAX,
    ensures
        forall|e: int, f: int| 0 <= e < f < r@.len() ==> (#[trigger] r@[e]).0 >= (#[trigger] r@[f]).0,
        forall|e: int| 0 <= e < r@.len() ==> valid_rect(corners@, #[trigger] r@[e]),
        forall|i: int, j: int|
            0 <= i < j < corners@.len() ==> #[trigger] pair_listed(corners@, r@, i, j),
{
    broadcast use vstd::seq_lib::group_to_multiset_ensures;

    let n = corners.len();
    let mut flat: Vec<(u64, usize, usize)> = Vec::new();
    let mut i: usize = 0;
    while i < n
        invariant
            i <= n == corners@.len(),
            forall|i2: int, j2: int|
                0 <= i2 < j2 < corners@.len() ==> rect_area(
                    #[trigger] corners@[i2],
                    #[trigger] corners@[j2],
                ) <= u64::MAX,
            forall|e: int| 0 <= e < flat@.len() ==> valid_rect(corners@, #[trigger] flat@[e]),
            forall|i2: int, j2: int|
                0 <= i2 < j2 < corners@.len() && i2 < i ==> #[trigger] pair_listed(
                    corners@,
                    flat@,
                    i2,
                    j2,
                ),
        decreases n - i,
    {
        let mut j: usize = i + 1;
        while j < n
            invariant
                i < j <= n == corners@.len(),
                forall|i2: int, j2: int|
                    0 <= i2 < j2 < corners@.len() ==> rect_area(
                        #[trigger] corners@[i2],
                        #[trigger] corners@[j2],
                    ) <= u64::MAX,
                forall|e: int| 0 <= e < flat@.len() ==> valid_rect(corners@, #[trigger] flat@[e]),
                forall|i2: int, j2: int|
                    0 <= i2 < j2 < corners@.len() && (i2 < i || (i2 == i && j2 < j))
                        ==> #[trigger] pair_listed(corners@, flat@, i2, j2),
            decreases n - j,
        {
            let ghost before = flat@;
            let area = corners[i].get_area(&corners[j]);
            flat.push((area, i, j));
            proof {
                assert forall|i2: int, j2: int|
                    0 <= i2 < j2 < corners@.len() && (i2 < i || (i2 == i && j2 < j + 1)) implies
                    #[trigger] pair_listed(corners@, flat@, i2, j2) by {
                    if i2 < i as int || (i2 == i as int && j2 < j as int) {
                        assert(pair_listed(corners@, before, i2, j2));
                        let e = choose|e: int|
                            0 <= e < before.len() && (#[trigger] before[e]).1 == i2 && before[e].2
                                == j2 && before[e].0 == rect_area(corners@[i2], corners@[j2]);
                        assert(flat@[e].1 == i2 && flat@[e].2 == j2 && flat@[e].0 == rect_area(
                            corners@[i2],
                            corners@[j2],
                        ));
                    } else {
                        assert(flat@[flat@.len() - 1].1 == i2 && flat@[flat@.len() - 1].2 == j2
                            && flat@[flat@.len() - 1].0 == rect_area(corners@[i2], corners@[j2]));
                    }
                }
            }
            j = j + 1;
        }
        i = i + 1;
    }
    let ghost generated = flat@;

    let mut out: Vec<(u64, usize, usize)> = Vec::new();
    let mut k: usize = 0;
    proof {
        assert(generated.take(0) =~= Seq::<(u64, usize, usize)>::empty());
    }
    while k < flat.len()
        invariant
            k <= generated.len() == flat@.len(),
            flat@ == generated,
            forall|e: int| 0 <= e < generated.len() ==> valid_rect(corners@, #[trigger] generated[e]),
            out@.to_multiset() == generated.take(k as int).to_multiset(),
            forall|e: int, f: int|
                0 <= e < f < out@.len() ==> (#[trigger] out@[e]).0 >= (#[trigger] out@[f]).0,
        decreases generated.len() - k,
    {
        broadcast use vstd::seq_lib::group_to_multiset_ensures;

        let x = flat[k];
        let mut p: usize = 0;
        while p < out.len() && out[p].0 >= x.0
            invariant
                p <= out@.len(),
                forall|e: int| 0 <= e < p ==> (#[trigger] out@[e]).0 >= x.0,
            decreases out@.len() - p,
        {
            p = p + 1;
        }
        let ghost old_out = out@;
        out.insert(p, x);
        proof {
            assert(out@ == old_out.insert(p as int, x));
            assert(old_out.insert(p as int, x).to_multiset() == old_out.to_multiset().insert(x));
            assert(generated.take(k + 1) =~= generated.take(k as int).push(x));
            assert(generated.take(k as int).push(x).to_multiset() =~= generated.take(
                k as int,
            ).to_multiset().insert(x));
            assert forall|e: int, f: int|
                0 <= e < f < out@.len() implies (#[trigger] out@[e]).0 >= (
            #[trigger] out@[f]).0 by {
                if f < p {
                    assert(out@[e] == old_out[e] && out@[f] == old_out[f]);
                } else if e > p {
                    assert(out@[e] == old_out[e - 1] && out@[f] == old_out[f - 1]);
                } else if e < p && f == p {
                    assert(out@[e] == old_out[e]);
                } else if e == p && f > p {
                    assert(out@[f] == old_out[f - 1]);
                    assert(old_out[p as int].0 < x.0 || p == old_out.len());
                    if (f - 1) > p {
                        assert(old_out[p as int].0 >= old_out[f - 1].0);
                    }
                } else if e < p && f > p {
                    assert(out@[e] == old_out[e] && out@[f] == old_out[f - 1]);
                }
            }
        }
        k = k + 1;
    }
    proof {
        broadcast use vstd::seq_lib::group_to_multiset_ensures;

        assert(generated.take(generated.len() as int) =~= generated);
        assert forall|e: int| 0 <= e < out@.len() implies valid_rect(
            corners@,
            #[trigger] out@[e],
        ) by {
            assert(out@.contains(out@[e]));
            assert(generated.to_multiset().count(out@[e]) > 0);
            assert(generated.contains(out@[e]));
            let g = choose|g: int| 0 <= g < generated.len() && generated[g] == out@[e];
        }
        assert forall|i2: int, j2: int| 0 <= i2 < j2 < corners@.len() implies #[trigger] pair_listed(
            corners@,
            out@,
            i2,
            j2,
        ) by {
            assert(pair_listed(corners@, generated, i2, j2));
            let g = choose|g: int|
                0 <= g < generated.len() && (#[trigger] generated[g]).1 == i2 && generated[g].2
                    == j2 && generated[g].0 == rect_area(corners@[i2], corners@[j2]);
            assert(generated.contains(generated[g]));
            assert(out@.to_multiset().count(generated[g]) > 0);
            assert(out@.contains(generated[g]));
            let e = choose|e: int| 0 <= e < out@.len() && out@[e] == generated[g];
            assert(out@[e].1 == i2 && out@[e].2 == j2 && out@[e].0 == generated[g].0);
        }
    }
    out
}

/// The area of the largest candidate rectangle: the first of the sorted
/// list.
pub fn get_max_area_rectangle_p1(sorted: &Vec<(u64, usize, usize)>) -> (r: u64)
    requires
        sorted@.len() >= 1,
    ensures
        r == sorted@[0].0,
{
    sorted[0].0
}

/// Both cells of column `x2` on the rectangle's two horizontal sides lie
/// inside the polygon.
pub open spec fn column_ok(cs: Seq<Corner>, y1: u64, y2: u64, x2: u64) -> bool {
    inside(cs, Corner { x: x2, y: y1 }) && inside(cs, Corner { x: x2, y: y2 })
}

/// Both cells of row `y2` on the rectangle's two vertical sides lie
/// inside the polygon.
pub open spec fn row_ok(cs: Seq<Corner>, x1: u64, x2: u64, y2: u64) -> bool {
    inside(cs, Corner { x: x1, y: y2 }) && inside(cs, Corner { x: x2, y: y2 })
}

/// Every cell of the rectangle's perimeter lies inside the polygon.
pub open spec fn perimeter_inside_spec(cs: Seq<Corner>, c1: Corner, c2: Corner) -> bool {
    let minx = if c1.x <= c2.x {
        c1.x
    } else {
        c2.x
    };
    let maxx = if c1.x >= c2.x {
        c1.x
    } else {
        c2.x
    };
    let miny = if c1.y <= c2.y {
        c1.y
    } else {
        c2.y
    };
    let maxy = if c1.y >= c2.y {
        c1.y
    } else {
        c2.y
    };
    &&& forall|x2: u64| minx <= x2 <= maxx ==> #[trigger] column_ok(cs, c1.y, c2.y, x2)
    &&& forall|y2: u64| miny <= y2 <= maxy ==> #[trigger] row_ok(cs, c1.x, c2.x, y2)
}

/// Walks the perimeter and tests every cell.
pub fn perimeter_inside(corners: &Vec<Corner>, c1: &Corner, c2: &Corner) -> (r: bool)
    ensures
        r == perimeter_inside_spec(corners@, *c1, *c2),
{
    let minx = if c1.x <= c2.x {
        c1.x
    } else {
        c2.x
    };
    let maxx = if c1.x >= c2.x {
        c1.x
    } else {
        c2.x
    };
    let miny = if c1.y <= c2.y {
        c1.y
    } else {
        c2.y
    };
    let maxy = if c1.y >= c2.y {
        c1.y
    } else {
        c2.y
    };
    let mut x = minx;
    let mut done = false;
    while !done
        invariant
            minx <= x <= maxx,
            done ==> x == maxx,
            minx == (if c1.x <= c2.x {
                c1.x
            } else {
                c2.x
            }),
            maxx == (if c1.x >= c2.x {
                c1.x
            } else {
                c2.x
            }),
            forall|x2: u64|
                minx <= x2 < x + (if done {
                    1int
                } else {
                    0int
                }) ==> #[trigger] column_ok(corners@, c1.y, c2.y, x2),
        decreases maxx - x + (if done {
            0int
        } else {
            1int
        }),
    {
        let ok1 = check_corner_inside(Corner { x, y: c1.y }, corners);
        let ok2 = check_corner_inside(Corner { x, y: c2.y }, corners);
        if !ok1 || !ok2 {
            proof {
                assert(!column_ok(corners@, c1.y, c2.y, x));
            }
            return false;
        }
        proof {
            assert(column_ok(corners@, c1.y, c2.y, x));
        }
        if x == maxx {
            done = true;
        } else {
            x = x + 1;
        }
    }
    let mut y = miny;
    let mut done2 = false;
    while !done2
        invariant
            miny <= y <= maxy,
            done2 ==> y == maxy,
            miny == (if c1.y <= c2.y {
                c1.y
            } else {
                c2.y
            }),
            maxy == (if c1.y >= c2.y {
                c1.y
            } else {
                c2.y
            }),
            forall|y2: u64|
                miny <= y2 < y + (if done2 {
                    1int
                } else {
                    0int
                }) ==> #[trigger] row_ok(corners@, c1.x, c2.x, y2),
        decreases maxy - y + (if done2 {
            0int
        } else {
            1int
        }),
    {
        let ok1 = check_corner_inside(Corner { x: c1.x, y }, corners);
        let ok2 = check_corner_inside(Corner { x: c2.x, y }, corners);
        if !ok1 || !ok2 {
            proof {
                assert(!row_ok(corners@, c1.x, c2.x, y));
            }
            return false;
        }
        proof {
            assert(row_ok(corners@, c1.x, c2.x, y));
        }
        if y == maxy {
            done2 = true;
        } else {
            y = y + 1;
        }
    }
    true
}

/// The entry accepted by the perimeter test.
pub open spec fn rect_ok(cs: Seq<Corner>, e: (u64, usize, usize)) -> bool {
    perimeter_inside_spec(cs, cs[e.1 as int], cs[e.2 as int])
}

/// Area of the first candidate from `start` on whose whole perimeter
/// lies inside the polygon, or zero when none does; with the candidates
/// sorted, that is the largest such area.
pub fn get_max_area_rectangle_p2(
    sorted: &Vec<(u64, usize, usize)>,
    corners: &Vec<Corner>,
    start: usize,
) -> (r: u64)
    requires
        forall|e: int| 0 <= e < sorted@.len() ==> valid_rect(corners@, #[trigger] sorted@[e]),
    ensures
        (exists|e: int|
            start <= e < sorted@.len() && rect_ok(corners@, #[trigger] sorted@[e]) && r
                == sorted@[e].0 && (forall|f: int|
                start <= f < e ==> !rect_ok(corners@, #[trigger] sorted@[f]))) || (r == 0 && forall|
            e: int,
        |
            start <= e < sorted@.len() ==> !rect_ok(corners@, #[trigger] sorted@[e])),
{
    let mut e: usize = start;
    while e < sorted.len()
        invariant
            start <= e,
            forall|e2: int| 0 <= e2 < sorted@.len() ==> valid_rect(corners@, #[trigger] sorted@[e2]),
            forall|f: int| start <= f < e ==> !rect_ok(corners@, #[trigger] sorted@[f]),
        decreases sorted@.len() - e,
    {
        let (area, i1, i2) = sorted[e];
        if perimeter_inside(corners, &corners[i1], &corners[i2]) {
            proof {
                assert(rect_ok(corners@, sorted@[e as int]));
            }
            return area;
        }
        e = e + 1;
    }
    0
}

} // verus!
