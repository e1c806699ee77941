//! The junction boxes puzzle: boxes in space, joined pair by pair from
//! the closest pair outward, growing circuits. The answers multiply the
//! three largest circuit sizes and mark the join that first completes a
//! circuit of every box.

use vstd::prelude::*;

verus! {

use crate::parsing::{all_digits, digits_val, chars_of, split_chars, split_lines, spec_split,
    spec_lines, parse_u32};

/// One junction box, by its coordinates.
pub struct JBox {
    pub coords: Vec<u32>,
}

/// Squared distance between two boxes, over their first three
/// coordinates; square roots do not change the closeness order.
pub open spec fn dist2(a: Seq<u32>, b: Seq<u32>) -> int {
    (a[0] - b[0]) * (a[0] - b[0]) + (a[1] - b[1]) * (a[1] - b[1]) + (a[2] - b[2]) * (a[2] - b[2])
}

/// A box line: comma-separated numbers, three or more.
pub open spec fn wf_box_line(line: Seq<char>) -> bool {
    let parts = spec_split(line, ',');
    &&& parts.len() >= 3
    &&& forall|t: int|
        0 <= t < parts.len() ==> {
            let tok = #[trigger] parts[t];
            tok.len() > 0 && all_digits(tok) && digits_val(tok) <= u32::MAX
        }
}

/// The coordinates a well-formed box line describes.
pub open spec fn spec_box_line(line: Seq<char>) -> Seq<u32> {
    spec_split(line, ',').map_values(|tok: Seq<char>| digits_val(tok) as u32)
}

impl JBox {
    /// Reads the box list, one box per line. Fails exactly when some
    /// line is not a box line.
    pub fn from_string(string: String) -> (r: Option<Vec<JBox>>)
        ensures
            r is Some <==> (forall|k: int|
                0 <= k < spec_lines(string@).len() ==> wf_box_line(
                    #[trigger] spec_lines(string@)[k],
                )),
            r is Some ==> r->Some_0@.len() == spec_lines(string@).len(),
            r is Some ==> forall|k: int|
                0 <= k < spec_lines(string@).len() ==> (#[trigger] r->Some_0@[k]).coords@
                    == spec_box_line(spec_lines(string@)[k]),
    {
        let cs = chars_of(string.as_str());
        let lines = split_lines(&cs);
        let ghost lns = spec_lines(string@);
        proof {
            assert forall|k: int| 0 <= k < lines@.len() implies (#[trigger] lines@[k])@
                == lns[k] by {
                assert(lines@.map_values(|p: Vec<char>| p@)[k] == lns[k]);
            }
        }
        let mut boxes: Vec<JBox> = Vec::new();
        let mut li: usize = 0;
        while li < lines.len()
            invariant
                li <= lines@.len() == lns.len(),
                lns == spec_lines(string@),
                forall|k: int| 0 <= k < lines@.len() ==> (#[trigger] lines@[k])@ == lns[k],
                boxes@.len() == li,
                forall|k: int| 0 <= k < li ==> wf_box_line(#[trigger] lns[k]),
                forall|k: int|
                    0 <= k < li ==> (#[trigger] boxes@[k]).coords@ == spec_box_line(lns[k]),
            decreases lines@.len() - li,
        {
            let ghost lparts = spec_split(lns[li as int], ',');
            let parts = split_chars(&lines[li], ',');
            proof {
                assert forall|k: int| 0 <= k < parts@.len() implies (#[trigger] parts@[k])@
                    == lparts[k] by {
                    assert(parts@.map_values(|p: Vec<char>| p@)[k] == lparts[k]);
                }
            }
            if parts.len() < 3 {
                proof {
                    assert(!wf_box_line(lns[li as int]));
                }
                return None;
            }
            let mut coords: Vec<u32> = Vec::new();
            let mut t: usize = 0;
            while t < parts.len()
                invariant
                    t <= parts@.len() == lparts.len(),
                    lparts == spec_split(lns[li as int], ','),
                    li < lns.len(),
                    lns == spec_lines(string@),
                    forall|k: int| 0 <= k < parts@.len() ==> (#[trigger] parts@[k])@ == lparts[k],
                    coords@ =~= spec_box_line(lns[li as int]).take(t as int),
                    forall|t2: int|
                        0 <= t2 < t ==> {
                            let tok = #[trigger] lparts[t2];
                            tok.len() > 0 && all_digits(tok) && digits_val(tok) <= u32::MAX
                        },
                decreases parts@.len() - t,
            {
                match parse_u32(&parts[t]) {
                    None => {
                        proof {
                            assert(!{
                                let tok = spec_split(lns[li as int], ',')[t as int];
                                tok.len() > 0 && all_digits(tok) && digits_val(tok) <= u32::MAX
                            });
                            assert(!wf_box_line(lns[li as int]));
                        }
                        return None;
                    },
                    Some(v) => {
                        coords.push(v);
                        proof {
                            assert(coords@ =~= spec_box_line(lns[li as int]).take(t + 1));
                        }
                    },
                }
                t = t + 1;
            }
            proof {
                assert(coords@ =~= spec_box_line(lns[li as int]));
                assert(wf_box_line(lns[li as int]));
            }
            boxes.push(JBox { coords });
            li = li + 1;
        }
        Some(boxes)
    }
}

/// The list holds, somewhere, the pair `(i, j)`.
pub open spec fn pair_present(r: Seq<(usize, usize)>, i: int, j: int) -> bool {
    exists|e: int| 0 <= e < r.len() && (#[trigger] r[e]).0 == i && r[e].1 == j
}

/// The keyed list holds, somewhere, the pair `(i, j)`.
pub open spec fn pair_present3(r: Seq<(u128, usize, usize)>, i: int, j: int) -> bool {
    exists|e: int| 0 <= e < r.len() && (#[trigger] r[e]).1 == i && r[e].2 == j
}

/// All box pairs, closest first: every pair of positions appears, every
/// entry is such a pair, and squared distances never decrease.
pub fn get_sorted_pair(list: &Vec<JBox>) -> (r: Vec<(usize, usize)>)
    requires
        forall|k: int| 0 <= k < list@.len() ==> (#[trigger] list@[k]).coords@.len() >= 3,
    ensures
        forall|e: int|
            0 <= e < r@.len() ==> (#[trigger] r@[e]).0 < r@[e].1 < list@.len(),
        forall|e: int, f: int|
            0 <= e < f < r@.len() ==> dist2(
                list@[(#[trigger] r@[e]).0 as int].coords@,
                list@[r@[e].1 as int].coords@,
            ) <= dist2(list@[(#[trigger] r@[f]).0 as int].coords@, list@[r@[f].1 as int].coords@),
        forall|i: int, j: int|
            0 <= i < j < list@.len() ==> #[trigger] pair_present(r@, i, j),
{
    broadcast use vstd::seq_lib::group_to_multiset_ensures;

    let n = list.len();
    let mut flat: Vec<(u128, usize, usize)> = Vec::new();
    let mut i: usize = 0;
    while i < n
        invariant
            i <= n == list@.len(),
            forall|k: int| 0 <= k < list@.len() ==> (#[trigger] list@[k]).coords@.len() >= 3,
            forall|e: int|
                0 <= e < flat@.len() ==> {
                    let p = #[trigger] flat@[e];
                    &&& p.1 < p.2 < list@.len()
                    &&& p.0 == dist2(list@[p.1 as int].coords@, list@[p.2 as int].coords@)
                },
            forall|i2: int, j2: int|
                0 <= i2 < j2 < list@.len() && i2 < i ==> #[trigger] pair_present3(flat@, i2, j2),
        decreases n - i,
    {
        let mut j: usize = i + 1;
        while j < n
            invariant
                i < j <= n == list@.len(),
                forall|k: int| 0 <= k < list@.len() ==> (#[trigger] list@[k]).coords@.len() >= 3,
                forall|e: int|
                    0 <= e < flat@.len() ==> {
                        let p = #[trigger] flat@[e];
                        &&& p.1 < p.2 < list@.len()
                        &&& p.0 == dist2(list@[p.1 as int].coords@, list@[p.2 as int].coords@)
                    },
                forall|i2: int, j2: int|
                    0 <= i2 < j2 < list@.len() && (i2 < i || (i2 == i && j2 < j))
                        ==> #[trigger] pair_present3(flat@, i2, j2),
            decreases n - j,
        {
            let ghost before = flat@;
            let a = &list[i].coords;
            let b = &list[j].coords;
            let dx = if a[0] >= b[0] {
                a[0] - b[0]
            } else {
                b[0] - a[0]
            };
            let dy = if a[1] >= b[1] {
                a[1] - b[1]
            } else {
                b[1] - a[1]
            };
            let dz = if a[2] >= b[2] {
                a[2] - b[2]
            } else {
                b[2] - a[2]
            };
            proof {
                assert((dx as int) * (dx as int) <= 0xFFFF_FFFE_0000_0001int && (dy as int) * (
                dy as int) <= 0xFFFF_FFFE_0000_0001int && (dz as int) * (dz as int)
                    <= 0xFFFF_FFFE_0000_0001int) by (nonlinear_arith)
                    requires
                        0 <= dx < 0x1_0000_0000,
                        0 <= dy < 0x1_0000_0000,
                        0 <= dz < 0x1_0000_0000,
                ;
            }
            let d = (dx as u128) * (dx as u128) + (dy as u128) * (dy as u128) + (dz as u128) * (
            dz as u128);
            proof {
                assert(d == dist2(list@[i as int].coords@, list@[j as int].coords@)) by (
                nonlinear_arith)
                    requires
                        dx == (if a@[0] >= b@[0] {
                            a@[0] - b@[0]
                        } else {
                            b@[0] - a@[0]
                        }),
                        dy == (if a@[1] >= b@[1] {
                            a@[1] - b@[1]
                        } else {
                            b@[1] - a@[1]
                        }),
                        dz == (if a@[2] >= b@[2] {
                            a@[2] - b@[2]
                        } else {
                            b@[2] - a@[2]
                        }),
                        d == (dx as int) * (dx as int) + (dy as int) * (dy as int) + (dz as int) * (
                        dz as int),
                        a@ == list@[i as int].coords@,
                        b@ == list@[j as int].coords@,
                        dist2(a@, b@) == (a@[0] - b@[0]) * (a@[0] - b@[0]) + (a@[1] - b@[1]) * (
                        a@[1] - b@[1]) + (a@[2] - b@[2]) * (a@[2] - b@[2]),
                ;
            }
            flat.push((d, i, j));
            proof {
                assert forall|i2: int, j2: int|
                    0 <= i2 < j2 < list@.len() && (i2 < i || (i2 == i && j2 < j + 1)) implies
                    #[trigger] pair_present3(flat@, i2, j2) by {
                    if i2 < i as int || (i2 == i as int && j2 < j as int) {
                        assert(pair_present3(before, i2, j2));
                        let e = choose|e: int|
                            0 <= e < before.len() && (#[trigger] before[e]).1 == i2 && before[e].2
                                == j2;
                        assert((flat@[e]).1 == i2 && flat@[e].2 == j2);
                    } else {
                        assert((flat@[flat@.len() - 1]).1 == i2 && flat@[flat@.len() - 1].2 == j2);
                    }
                }
            }
            j = j + 1;
        }
        i = i + 1;
    }
    let ghost generated = flat@;

    let mut out: Vec<(u128, usize, usize)> = Vec::new();
    let mut k: usize = 0;
    proof {
        assert(generated.take(0) =~= Seq::<(u128, usize, usize)>::empty());
    }
    while k < flat.len()
        invariant
            k <= generated.len() == flat@.len(),
            flat@ == generated,
            forall|e: int|
                0 <= e < generated.len() ==> {
                    let p = #[trigger] generated[e];
                    &&& p.1 < p.2 < list@.len()
                    &&& p.0 == dist2(list@[p.1 as int].coords@, list@[p.2 as int].coords@)
                },
            out@.to_multiset() == generated.take(k as int).to_multiset(),
            forall|e: int, f: int|
                0 <= e < f < out@.len() ==> (#[trigger] out@[e]).0 <= (#[trigger] out@[f]).0,
        decreases generated.len() - k,
    {
        broadcast use vstd::seq_lib::group_to_multiset_ensures;

        let x = flat[k];
        let mut p: usize = 0;
        while p < out.len() && out[p].0 <= x.0
            invariant
                p <= out@.len(),
                forall|e: int| 0 <= e < p ==> (#[trigger] out@[e]).0 <= x.0,
            decreases out@.len() - p,
        {
            p = p + 1;
        }
        let ghost old_out = out@;
        out.insert(p, x);
        proof {
            assert(out@ == old_out.insert(p as int, x));
            assert(old_out.insert(p as int, x).to_multiset() == old_out.to_multiset().insert(x));
            assert(generated.take(k + 1) =~= generated.take(k as int).push(x));
            assert(generated.take(k as int).push(x).to_multiset() =~= generated.take(
                k as int,
            ).to_multiset().insert(x));
            assert forall|e: int, f: int|
                0 <= e < f < out@.len() implies (#[trigger] out@[e]).0 <= (
            #[trigger] out@[f]).0 by {
                if f < p {
                    assert(out@[e] == old_out[e] && out@[f] == old_out[f]);
                } else if e > p {
                    assert(out@[e] == old_out[e - 1] && out@[f] == old_out[f - 1]);
                } else if e < p && f == p {
                    assert(out@[e] == old_out[e]);
                } else if e == p && f > p {
                    assert(out@[f] == old_out[f - 1]);
                    assert(old_out[p as int].0 > x.0 || p == old_out.len());
                    if (f - 1) > p {
                        assert(old_out[p as int].0 <= old_out[f - 1].0);
                    }
                } else if e < p && f > p {
                    assert(out@[e] == old_out[e] && out@[f] == old_out[f - 1]);
                }
            }
        }
        k = k + 1;
    }
    proof {
        broadcast use vstd::seq_lib::group_to_multiset_ensures;

        assert(generated.take(generated.len() as int) =~= generated);
        assert forall|e: int| 0 <= e < out@.len() implies {
            let p = #[trigger] out@[e];
            &&& p.1 < p.2 < list@.len()
            &&& p.0 == dist2(list@[p.1 as int].coords@, list@[p.2 as int].coords@)
        } by {
            assert(out@.contains(out@[e]));
            assert(generated.to_multiset().count(out@[e]) > 0);
            assert(generated.contains(out@[e]));
            let g = choose|g: int| 0 <= g < generated.len() && generated[g] == out@[e];
        }
    }

    let mut stripped: Vec<(usize, usize)> = Vec::new();
    let mut s: usize = 0;
    while s < out.len()
        invariant
            s <= out@.len(),
            forall|e: int|
                0 <= e < out@.len() ==> {
                    let p = #[trigger] out@[e];
                    &&& p.1 < p.2 < list@.len()
                    &&& p.0 == dist2(list@[p.1 as int].coords@, list@[p.2 as int].coords@)
                },
            forall|e: int, f: int|
                0 <= e < f < out@.len() ==> (#[trigger] out@[e]).0 <= (#[trigger] out@[f]).0,
            stripped@.len() == s,
            forall|e: int|
                0 <= e < s ==> (#[trigger] stripped@[e]).0 == out@[e].1 && stripped@[e].1
                    == out@[e].2,
        decreases out@.len() - s,
    {
        stripped.push((out[s].1, out[s].2));
        s = s + 1;
    }
    proof {
        assert forall|i2: int, j2: int| 0 <= i2 < j2 < list@.len() implies #[trigger] pair_present(
            stripped@,
            i2,
            j2,
        ) by {
            assert(pair_present3(generated, i2, j2));
            let e = choose|e: int|
                0 <= e < generated.len() && (#[trigger] generated[e]).1 == i2 && generated[e].2
                    == j2;
            assert(generated.contains(generated[e]));
            assert(out@.to_multiset().count(generated[e]) > 0);
            assert(out@.contains(generated[e]));
            let f = choose|f: int| 0 <= f < out@.len() && out@[f] == generated[e];
            assert((stripped@[f]).0 == i2 && stripped@[f].1 == j2);
        }
    }
    stripped
}

/// The circuit holds box `v`.
pub open spec fn class_has(c: Seq<usize>, v: int) -> bool {
    exists|t: int| 0 <= t < c.len() && (#[trigger] c[t]) == v
}

/// Index of the first circuit holding `v`, or `-1`.
pub open spec fn find_class(st: Seq<Seq<usize>>, v: int) -> int
    decreases st.len(),
{
    if st.len() == 0 {
        -1
    } else if class_has(st[0], v) {
        0
    } else if find_class(st.skip(1), v) == -1 {
        -1
    } else {
        1 + find_class(st.skip(1), v)
    }
}

pub proof fn lemma_find_class_range(st: Seq<Seq<usize>>, v: int)
    ensures
        find_class(st, v) == -1 || (0 <= find_class(st, v) < st.len() && class_has(
            st[find_class(st, v)],
            v,
        )),
    decreases st.len(),
{
    if st.len() > 0 && !class_has(st[0], v) {
        lemma_find_class_range(st.skip(1), v);
    }
}

/// The circuits after joining boxes `a` and `b`: a new circuit, a grown
/// circuit, or two circuits merged into the earlier one.
pub open spec fn step_class(st: Seq<Seq<usize>>, a: int, b: int) -> Seq<Seq<usize>> {
    let ia = find_class(st, a);
    let ib = find_class(st, b);
    if ia == -1 && ib == -1 {
        st.push(seq![a as usize, b as usize])
    } else if ia >= 0 && ib >= 0 {
        if ia == ib {
            st
        } else {
            st.update(ia, st[ia] + st[ib]).remove(ib)
        }
    } else if ia >= 0 {
        st.update(ia, st[ia].push(b as usize))
    } else {
        st.update(ib, st[ib].push(a as usize))
    }
}

/// The circuits grown by the first `k` joins.
pub open spec fn run_pairs(pairs: Seq<(usize, usize)>, k: int) -> Seq<Seq<usize>>
    decreases k,
{
    if k <= 0 {
        Seq::empty()
    } else {
        step_class(run_pairs(pairs, k - 1), pairs[k - 1].0 as int, pairs[k - 1].1 as int)
    }
}

/// The circuits' sizes, in order.
pub open spec fn class_sizes(st: Seq<Seq<usize>>) -> Seq<int> {
    Seq::new(st.len(), |e: int| st[e].len() as int)
}

/// Boxes held by all circuits together.
pub open spec fn total_elems(st: Seq<Seq<usize>>) -> int
    decreases st.len(),
{
    if st.len() == 0 {
        0
    } else {
        total_elems(st.drop_last()) + st.last().len()
    }
}

proof fn lemma_class_le_total(st: Seq<Seq<usize>>, e: int)
    requires
        0 <= e < st.len(),
    ensures
        st[e].len() <= total_elems(st),
        0 <= total_elems(st),
    decreases st.len(),
{
    if e == st.len() - 1 {
        lemma_total_nonneg(st.drop_last());
    } else {
        lemma_class_le_total(st.drop_last(), e);
    }
}

proof fn lemma_total_nonneg(st: Seq<Seq<usize>>)
    ensures
        0 <= total_elems(st),
    decreases st.len(),
{
    if st.len() > 0 {
        lemma_total_nonneg(st.drop_last());
    }
}

/// Removing or growing circuits moves whole counts around: each join adds
/// at most two boxes in all.
proof fn lemma_total_update(st: Seq<Seq<usize>>, e: int, c: Seq<usize>)
    requires
        0 <= e < st.len(),
    ensures
        total_elems(st.update(e, c)) == total_elems(st) - st[e].len() + c.len(),
    decreases st.len(),
{
    if e == st.len() - 1 {
        assert(st.update(e, c).drop_last() =~= st.drop_last());
        assert(st.update(e, c).last() == c);
    } else {
        lemma_total_update(st.drop_last(), e, c);
        assert(st.update(e, c).drop_last() =~= st.drop_last().update(e, c));
        assert(st.update(e, c).last() == st.last());
    }
}

proof fn lemma_total_remove(st: Seq<Seq<usize>>, e: int)
    requires
        0 <= e < st.len(),
    ensures
        total_elems(st.remove(e)) == total_elems(st) - st[e].len(),
    decreases st.len(),
{
    if e == st.len() - 1 {
        assert(st.remove(e) =~= st.drop_last());
    } else {
        lemma_total_remove(st.drop_last(), e);
        assert(st.remove(e).drop_last() =~= st.drop_last().remove(e));
        assert(st.remove(e).last() == st.last());
    }
}

proof fn lemma_total_push(st: Seq<Seq<usize>>, c: Seq<usize>)
    ensures
        total_elems(st.push(c)) == total_elems(st) + c.len(),
{
    assert(st.push(c).drop_last() =~= st);
}

/// After `k` joins the circuits hold at most two boxes per join.
pub proof fn lemma_run_total(pairs: Seq<(usize, usize)>, k: int)
    ensures
        total_elems(run_pairs(pairs, k)) <= 2 * k || k < 0,
        0 <= total_elems(run_pairs(pairs, k)),
    decreases k,
{
    lemma_total_nonneg(run_pairs(pairs, k));
    if k > 0 {
        lemma_run_total(pairs, k - 1);
        let st = run_pairs(pairs, k - 1);
        let a = pairs[k - 1].0 as int;
        let b = pairs[k - 1].1 as int;
        let ia = find_class(st, a);
        let ib = find_class(st, b);
        lemma_find_class_range(st, a);
        lemma_find_class_range(st, b);
        if ia == -1 && ib == -1 {
            lemma_total_push(st, seq![a as usize, b as usize]);
        } else if ia >= 0 && ib >= 0 {
            if ia != ib {
                lemma_class_le_total(st, ia);
                lemma_class_le_total(st, ib);
                lemma_total_update(st, ia, st[ia] + st[ib]);
                let st2 = st.update(ia, st[ia] + st[ib]);
                lemma_total_remove(st2, ib);
                assert(st2[ib] == st[ib]);
            }
        } else if ia >= 0 {
            lemma_class_le_total(st, ia);
            lemma_total_update(st, ia, st[ia].push(b as usize));
        } else {
            lemma_class_le_total(st, ib);
            lemma_total_update(st, ib, st[ib].push(a as usize));
        }
    }
}

/// Looks a box up among the circuits built so far.
fn find_class_exec(circuits: &Vec<Vec<usize>>, st: Ghost<Seq<Seq<usize>>>, v: usize) -> (r: Option<
    usize,
>)
    requires
        circuits@.len() == st@.len(),
        forall|e: int| 0 <= e < st@.len() ==> (#[trigger] circuits@[e])@ == st@[e],
    ensures
        r is Some <==> find_class(st@, v as int) >= 0,
        r is Some ==> r->Some_0 == find_class(st@, v as int),
{
    let mut e: usize = 0;
    proof {
        assert(st@.skip(0) =~= st@);
    }
    while e < circuits.len()
        invariant
            e <= st@.len() == circuits@.len(),
            forall|e2: int| 0 <= e2 < st@.len() ==> (#[trigger] circuits@[e2])@ == st@[e2],
            find_class(st@, v as int) == (if find_class(st@.skip(e as int), v as int) == -1 {
                -1int
            } else {
                e + find_class(st@.skip(e as int), v as int)
            }),
        decreases circuits@.len() - e,
    {
        proof {
            assert(st@.skip(e as int).len() > 0);
            assert(st@.skip(e as int)[0] == st@[e as int]);
            assert(st@.skip(e as int).skip(1) =~= st@.skip(e + 1));
            lemma_find_class_range(st@.skip(e + 1), v as int);
        }
        let row = &circuits[e];
        let mut t: usize = 0;
        let mut found = false;
        while t < row.len()
            invariant
                t <= row@.len(),
                row@ == circuits@[e as int]@,
                e < circuits@.len(),
                found == exists|t2: int| 0 <= t2 < t && (#[trigger] row@[t2]) == v,
            decreases row@.len() - t,
        {
            if row[t] == v {
                found = true;
            }
            t = t + 1;
        }
        proof {
            assert(found == class_has(st@[e as int], v as int));
        }
        if found {
            return Some(e);
        }
        e = e + 1;
    }
    proof {
        assert(st@.skip(st@.len() as int).len() == 0);
    }
    None
}

/// Applies one join to the circuits, exactly as the step rule says.
fn apply_join(
    circuits: &mut Vec<Vec<usize>>,
    st: Ghost<Seq<Seq<usize>>>,
    a: usize,
    b: usize,
)
    requires
        old(circuits)@.len() == st@.len(),
        forall|e: int| 0 <= e < st@.len() ==> (#[trigger] old(circuits)@[e])@ == st@[e],
    ensures
        final(circuits)@.len() == step_class(st@, a as int, b as int).len(),
        forall|e: int|
            0 <= e < final(circuits)@.len() ==> (#[trigger] final(circuits)@[e])@ == step_class(
                st@,
                a as int,
                b as int,
            )[e],
{
    let ghost st = st@;
    let fa = find_class_exec(circuits, Ghost(st), a);
    let fb = find_class_exec(circuits, Ghost(st), b);
        match (fa, fb) {
            (None, None) => {
                proof {
                    lemma_find_class_range(st, a as int);
                    lemma_find_class_range(st, b as int);
                }
                let mut fresh: Vec<usize> = Vec::new();
                fresh.push(a);
                fresh.push(b);
                circuits.push(fresh);
                proof {
                    assert(fresh@ =~= seq![a, b]);
                    assert(step_class(st, a as int, b as int) == st.push(seq![a, b]));
                }
            },
            (Some(i0), Some(i1)) => {
                if i0 != i1 {
                    proof {
                        lemma_find_class_range(st, a as int);
                        lemma_find_class_range(st, b as int);
                    }
                    let mut merged: Vec<usize> = Vec::new();
                    let ca = &circuits[i0];
                    let mut t: usize = 0;
                    while t < ca.len()
                        invariant
                            t <= ca@.len(),
                            ca@ == circuits@[i0 as int]@,
                            i0 < circuits@.len(),
                            merged@ =~= circuits@[i0 as int]@.take(t as int),
                        decreases ca@.len() - t,
                    {
                        merged.push(ca[t]);
                        proof {
                            assert(merged@ =~= circuits@[i0 as int]@.take(t + 1));
                        }
                        t = t + 1;
                    }
                    let cb = &circuits[i1];
                    let mut t2: usize = 0;
                    while t2 < cb.len()
                        invariant
                            t2 <= cb@.len(),
                            cb@ == circuits@[i1 as int]@,
                            i0 < circuits@.len(),
                            i1 < circuits@.len(),
                            merged@ =~= circuits@[i0 as int]@ + circuits@[i1 as int]@.take(
                                t2 as int,
                            ),
                        decreases cb@.len() - t2,
                    {
                        merged.push(cb[t2]);
                        proof {
                            assert(merged@ =~= circuits@[i0 as int]@ + circuits@[i1 as int]@.take(
                                t2 + 1,
                            ));
                        }
                        t2 = t2 + 1;
                    }
                    proof {
                        assert(merged@ =~= st[i0 as int] + st[i1 as int]);
                    }
                    circuits.set(i0, merged);
                    circuits.remove(i1);
                    proof {
                        let next = st.update(i0 as int, st[i0 as int] + st[i1 as int]).remove(
                            i1 as int,
                        );
                        assert(step_class(st, a as int, b as int) == next);
                        assert forall|e: int| 0 <= e < circuits@.len() implies (
                        #[trigger] circuits@[e])@ == next[e] by {
                            if e < i1 as int {
                            } else {
                            }
                        }
                    }
                }
            },
            (Some(i0), None) => {
                proof {
                    lemma_find_class_range(st, a as int);
                }
                let row = &mut circuits[i0];
                row.push(b);
                proof {
                    assert(circuits@[i0 as int]@ =~= st[i0 as int].push(b));
                    assert(step_class(st, a as int, b as int) == st.update(i0 as int, st[i0 as int].push(b)));
                }
            },
            (None, Some(i1)) => {
                proof {
                    lemma_find_class_range(st, b as int);
                }
                let row = &mut circuits[i1];
                row.push(a);
                proof {
                    assert(circuits@[i1 as int]@ =~= st[i1 as int].push(a));
                    assert(step_class(st, a as int, b as int) == st.update(i1 as int, st[i1 as int].push(a)));
                }
            },
        }
}

/// Runs the first `n_pair` joins and returns the grown circuits.
fn build_circuits(pairs: &Vec<(usize, usize)>, n_pair: usize) -> (circuits: Vec<Vec<usize>>)
    requires
        n_pair <= pairs@.len(),
    ensures
        circuits@.len() == run_pairs(pairs@, n_pair as int).len(),
        forall|e: int|
            0 <= e < circuits@.len() ==> (#[trigger] circuits@[e])@ == run_pairs(
                pairs@,
                n_pair as int,
            )[e],
{
    let mut circuits: Vec<Vec<usize>> = Vec::new();
    let mut i: usize = 0;
    while i < n_pair
        invariant
            i <= n_pair <= pairs@.len(),
            circuits@.len() == run_pairs(pairs@, i as int).len(),
            forall|e: int|
                0 <= e < circuits@.len() ==> (#[trigger] circuits@[e])@ == run_pairs(
                    pairs@,
                    i as int,
                )[e],
        decreases n_pair - i,
    {
        let ghost st = run_pairs(pairs@, i as int);
        let (a, b) = pairs[i];
        apply_join(&mut circuits, Ghost(st), a, b);
        proof {
            assert(run_pairs(pairs@, i + 1) == step_class(st, a as int, b as int));
        }
        i = i + 1;
    }
    circuits
}

/// Index of the largest entry not yet chosen; the scan keeps the first
/// of equals.
fn pick_max(sizes: &Vec<u64>, skip1: usize, skip2: usize) -> (r: usize)
    requires
        exists|k: int|
            0 <= k < sizes@.len() && k != skip1 && k != skip2 && (#[trigger] sizes@[k]) >= 0,
    ensures
        r < sizes@.len(),
        r != skip1 && r != skip2,
        forall|k: int|
            0 <= k < sizes@.len() && k != skip1 && k != skip2 ==> (#[trigger] sizes@[k])
                <= sizes@[r as int],
{
    let mut best: usize = 0;
    let mut have = false;
    let mut k: usize = 0;
    while k < sizes.len()
        invariant
            k <= sizes@.len(),
            have ==> best < sizes@.len() && best < k && best != skip1 && best != skip2,
            !have ==> forall|k2: int|
                0 <= k2 < k && (#[trigger] sizes@[k2]) >= 0 ==> k2 == skip1 || k2 == skip2,
            forall|k2: int|
                0 <= k2 < k && k2 != skip1 && k2 != skip2 && have ==> (#[trigger] sizes@[k2])
                    <= sizes@[best as int],
        decreases sizes@.len() - k,
    {
        if k != skip1 && k != skip2 {
            if !have || sizes[k] > sizes[best] {
                best = k;
                have = true;
            }
        }
        k = k + 1;
    }
    proof {
        if !have {
            let w = choose|w: int|
                0 <= w < sizes@.len() && w != skip1 && w != skip2 && (#[trigger] sizes@[w]) >= 0;
            assert(false);
        }
    }
    best
}

/// The circuit sizes after the first `k` joins.
pub open spec fn sizes_after(pairs: Seq<(usize, usize)>, k: int) -> Seq<int> {
    class_sizes(run_pairs(pairs, k))
}

/// `r` multiplies three distinct entries of `s` that no other entry of
/// `s` exceeds: the product of the three largest.
pub open spec fn top3_product(s: Seq<int>, r: int) -> bool {
    exists|a: int, b: int, c: int|
        {
            &&& 0 <= a < s.len() && 0 <= b < s.len() && 0 <= c < s.len()
            &&& a != b && b != c && a != c
            &&& r == s[a] * s[b] * s[c]
            &&& forall|k: int|
                0 <= k < s.len() && k != a && k != b && k != c ==> (#[trigger] s[k]) <= s[a] && s[k]
                    <= s[b] && s[k] <= s[c]
        }
}

/// Bounded factors give a bounded product.
proof fn lemma_prod3_bound(x: int, y: int, z: int, n: int)
    by (nonlinear_arith)
    requires
        0 <= x <= 2 * n,
        0 <= y <= 2 * n,
        0 <= z <= 2 * n,
        0 <= n,
    ensures
        x * y <= 4 * n * n,
        x * y * z <= 8 * n * n * n,
        4 * n * n <= 8 * n * n * n || n == 0,
        2 * n <= 8 * n * n * n || n == 0,
{
}

/// Three indices with the witness properties make a top-three product.
proof fn lemma_top3_intro(s: Seq<int>, a: int, b: int, c: int, r: int)
    requires
        0 <= a < s.len() && 0 <= b < s.len() && 0 <= c < s.len(),
        a != b && b != c && a != c,
        r == s[a] * s[b] * s[c],
        forall|k: int|
            0 <= k < s.len() && k != a && k != b && k != c ==> (#[trigger] s[k]) <= s[a] && s[k]
                <= s[b] && s[k] <= s[c],
    ensures
        top3_product(s, r),
{
}

/// The circuits' sizes, bounded by the boxes joined so far.
fn sizes_of_circuits(
    circuits: &Vec<Vec<usize>>,
    st: Ghost<Seq<Seq<usize>>>,
    bound: Ghost<int>,
) -> (sizes: Vec<u64>)
    requires
        circuits@.len() == st@.len(),
        forall|e: int| 0 <= e < st@.len() ==> (#[trigger] circuits@[e])@ == st@[e],
        total_elems(st@) <= bound@,
        bound@ <= u64::MAX,
    ensures
        sizes@.len() == st@.len(),
        forall|e: int| 0 <= e < st@.len() ==> (#[trigger] sizes@[e]) == class_sizes(st@)[e],
        forall|e: int| 0 <= e < st@.len() ==> (#[trigger] sizes@[e]) <= bound@,
{
    let mut sizes: Vec<u64> = Vec::new();
    let mut e: usize = 0;
    while e < circuits.len()
        invariant
            e <= circuits@.len() == st@.len(),
            forall|e2: int| 0 <= e2 < st@.len() ==> (#[trigger] circuits@[e2])@ == st@[e2],
            total_elems(st@) <= bound@ <= u64::MAX,
            sizes@.len() == e,
            forall|e2: int| 0 <= e2 < e ==> (#[trigger] sizes@[e2]) == class_sizes(st@)[e2],
            forall|e2: int| 0 <= e2 < e ==> (#[trigger] sizes@[e2]) <= bound@,
        decreases circuits@.len() - e,
    {
        proof {
            lemma_class_le_total(st@, e as int);
        }
        sizes.push(circuits[e].len() as u64);
        e = e + 1;
    }
    sizes
}

/// Multiplies the three largest circuit sizes after the first `n_pair`
/// joins.
pub fn get_p1(pairs: &Vec<(usize, usize)>, n_pair: usize) -> (r: u64)
    requires
        n_pair <= pairs@.len(),
        run_pairs(pairs@, n_pair as int).len() >= 3,
        8 * (n_pair as int) * (n_pair as int) * (n_pair as int) <= u64::MAX,
    ensures
        top3_product(sizes_after(pairs@, n_pair as int), r as int),
{
    let ghost st = run_pairs(pairs@, n_pair as int);
    let circuits = build_circuits(pairs, n_pair);
    proof {
        lemma_run_total(pairs@, n_pair as int);
        lemma_prod3_bound(0, 0, 0, n_pair as int);
    }
    let sizes = sizes_of_circuits(&circuits, Ghost(st), Ghost(2 * n_pair as int));
    proof {
        assert(sizes@[0] >= 0 && sizes@[1] >= 0 && sizes@[2] >= 0);
    }
    let b1 = pick_max(&sizes, usize::MAX, usize::MAX);
    let b2 = pick_max(&sizes, b1, usize::MAX);
    let b3 = pick_max(&sizes, b1, b2);
    proof {
        lemma_prod3_bound(
            sizes@[b1 as int] as int,
            sizes@[b2 as int] as int,
            sizes@[b3 as int] as int,
            n_pair as int,
        );
    }
    let r = sizes[b1] * sizes[b2] * sizes[b3];
    proof {
        let ss = sizes_after(pairs@, n_pair as int);
        assert(ss == class_sizes(st));
        assert forall|k: int|
            0 <= k < ss.len() && k != b1 && k != b2 && k != b3 implies (#[trigger] ss[k]) <= ss[
        b1 as int] && ss[k] <= ss[b2 as int] && ss[k] <= ss[b3 as int] by {
            assert(sizes@[k] <= sizes@[b1 as int]);
            assert(sizes@[k] <= sizes@[b2 as int]);
            assert(sizes@[k] <= sizes@[b3 as int]);
        }
        lemma_top3_intro(ss, b1 as int, b2 as int, b3 as int, r as int);
    }
    r
}

/// Some circuit holds exactly `n_box` boxes.
pub open spec fn has_full(st: Seq<Seq<usize>>, n_box: int) -> bool {
    exists|e: int| 0 <= e < st.len() && (#[trigger] st[e]).len() == n_box
}

/// The first join after which some circuit holds `n_box` boxes, or `-1`.
pub open spec fn first_full(pairs: Seq<(usize, usize)>, k: int, n_box: int) -> int
    decreases pairs.len() - k,
{
    if k < 0 || k >= pairs.len() {
        -1
    } else if has_full(run_pairs(pairs, k + 1), n_box) {
        k
    } else {
        first_full(pairs, k + 1, n_box)
    }
}

/// Joins pairs from the closest outward until some circuit holds every
/// box, and multiplies the first coordinates of the join that did it.
pub fn get_p2(pairs: &Vec<(usize, usize)>, list: &Vec<JBox>, n_box: usize) -> (r: u64)
    requires
        forall|e: int| 0 <= e < pairs@.len() ==> (#[trigger] pairs@[e]).0 < list@.len()
            && pairs@[e].1 < list@.len(),
        forall|k: int| 0 <= k < list@.len() ==> (#[trigger] list@[k]).coords@.len() >= 1,
        first_full(pairs@, 0, n_box as int) >= 0,
    ensures
        r == list@[pairs@[first_full(pairs@, 0, n_box as int)].0 as int].coords@[0] * list@[
        pairs@[first_full(pairs@, 0, n_box as int)].1 as int].coords@[0],
{
    let mut circuits: Vec<Vec<usize>> = Vec::new();
    let mut i: usize = 0;
    while i < pairs.len()
        invariant
            i <= pairs@.len(),
            forall|e: int| 0 <= e < pairs@.len() ==> (#[trigger] pairs@[e]).0 < list@.len()
                && pairs@[e].1 < list@.len(),
            forall|k: int| 0 <= k < list@.len() ==> (#[trigger] list@[k]).coords@.len() >= 1,
            circuits@.len() == run_pairs(pairs@, i as int).len(),
            forall|e: int|
                0 <= e < circuits@.len() ==> (#[trigger] circuits@[e])@ == run_pairs(
                    pairs@,
                    i as int,
                )[e],
            first_full(pairs@, 0, n_box as int) >= 0,
            first_full(pairs@, 0, n_box as int) == first_full(pairs@, i as int, n_box as int),
        decreases pairs@.len() - i,
    {
        let ghost st = run_pairs(pairs@, i as int);
        let (a, b) = pairs[i];
        apply_join(&mut circuits, Ghost(st), a, b);
        proof {
            assert(run_pairs(pairs@, i + 1) == step_class(st, a as int, b as int));
        }
        let mut full = false;
        let mut e: usize = 0;
        while e < circuits.len()
            invariant
                e <= circuits@.len(),
                forall|e2: int|
                    0 <= e2 < circuits@.len() ==> (#[trigger] circuits@[e2])@ == run_pairs(
                        pairs@,
                        i + 1,
                    )[e2],
                circuits@.len() == run_pairs(pairs@, i + 1).len(),
                full == exists|e2: int|
                    0 <= e2 < e && (#[trigger] run_pairs(pairs@, i + 1)[e2]).len() == n_box,
            decreases circuits@.len() - e,
        {
            if circuits[e].len() == n_box {
                full = true;
            }
            e = e + 1;
        }
        proof {
            assert(full == has_full(run_pairs(pairs@, i + 1), n_box as int));
        }
        if full {
            proof {
                assert(first_full(pairs@, i as int, n_box as int) == i);
            }
            let pa = pairs[i].0;
            let pb = pairs[i].1;
            let va = list[pa].coords[0];
            let vb = list[pb].coords[0];
            proof {
                assert((va as int) * (vb as int) <= 0xFFFF_FFFE_0000_0001int) by (nonlinear_arith)
                    requires
                        0 <= va < 0x1_0000_0000,
                        0 <= vb < 0x1_0000_0000,
                ;
            }
            return (va as u64) * (vb as u64);
        }
        proof {
            assert(first_full(pairs@, i as int, n_box as int) == first_full(
                pairs@,
                i + 1,
                n_box as int,
            ));
        }
        i = i + 1;
    }
    proof {
        assert(first_full(pairs@, pairs@.len() as int, n_box as int) == -1);
        assert(false);
    }
    0
}

} // verus!
