//! The devices puzzle: named devices feed other devices, and the answers
//! count the distinct feeding paths between two names. On the acyclic
//! networks the puzzle feeds in, no path revisits a device, so path
//! length is bounded by the device count; the counts here take that
//! bound as their search depth. Names travel as character vectors.

use vstd::prelude::*;

verus! {

use crate::parsing::{chars_of, split_chars, split_lines, spec_split, spec_lines};

/// One device: the names it feeds, in input order.
pub struct Device {
    pub outs: Vec<Vec<char>>,
}

/// A device together with a path-count weight.
pub struct WeigtedDevice {
    pub outs: Vec<Vec<char>>,
    pub done: bool,
    pub weight: u64,
}

/// Index of `name` among the keys, or `-1`.
pub open spec fn key_index(list: Seq<(Vec<char>, Device)>, name: Seq<char>) -> int
    decreases list.len(),
{
    if list.len() == 0 {
        -1
    } else if list[0].0@ == name {
        0
    } else if key_index(list.skip(1), name) == -1 {
        -1
    } else {
        1 + key_index(list.skip(1), name)
    }
}

pub proof fn lemma_key_index_range(list: Seq<(Vec<char>, Device)>, name: Seq<char>)
    ensures
        key_index(list, name) == -1 || (0 <= key_index(list, name) < list.len() && list[key_index(
            list,
            name,
        )].0@ == name),
    decreases list.len(),
{
    if list.len() > 0 && list[0].0@ != name {
        lemma_key_index_range(list.skip(1), name);
    }
}

/// No two entries share a name.
pub open spec fn unique_keys(list: Seq<(Vec<char>, Device)>) -> bool {
    forall|i: int, j: int| 0 <= i < j < list.len() ==> (#[trigger] list[i]).0@ != (
    #[trigger] list[j]).0@
}

/// With distinct names, every entry is found at its own place.
pub proof fn lemma_key_index_self(list: Seq<(Vec<char>, Device)>, k: int)
    requires
        unique_keys(list),
        0 <= k < list.len(),
    ensures
        key_index(list, list[k].0@) == k,
    decreases k,
{
    if k == 0 {
    } else {
        assert(list[0].0@ != list[k].0@);
        assert(unique_keys(list.skip(1))) by {
            assert forall|i: int, j: int|
                0 <= i < j < list.skip(1).len() implies (#[trigger] list.skip(1)[i]).0@ != (
            #[trigger] list.skip(1)[j]).0@ by {
                assert(list.skip(1)[i] == list[i + 1]);
                assert(list.skip(1)[j] == list[j + 1]);
            }
        }
        lemma_key_index_self(list.skip(1), k - 1);
        assert(list.skip(1)[k - 1] == list[k]);
    }
}

/// Paths from the device called `name` to the one called `end` that use
/// at most `fuel` hops: one when the names meet, otherwise the paths of
/// everything `name` feeds, added up. Unknown names feed nothing.
pub open spec fn n_paths(
    list: Seq<(Vec<char>, Device)>,
    name: Seq<char>,
    end: Seq<char>,
    fuel: nat,
) -> int
    decreases fuel, 0nat,
{
    if name == end {
        1
    } else if fuel == 0 {
        0
    } else {
        let ki = key_index(list, name);
        if ki == -1 {
            0
        } else {
            n_paths_list(
                list,
                list[ki].1.outs@,
                end,
                (fuel - 1) as nat,
                list[ki].1.outs@.len() as int,
            )
        }
    }
}

/// Paths of the first `upto` fed names, added up.
pub open spec fn n_paths_list(
    list: Seq<(Vec<char>, Device)>,
    outs: Seq<Vec<char>>,
    end: Seq<char>,
    fuel: nat,
    upto: int,
) -> int
    decreases fuel, 1nat, upto,
{
    if upto <= 0 {
        0
    } else {
        n_paths_list(list, outs, end, fuel, upto - 1) + n_paths(list, outs[upto - 1]@, end, fuel)
    }
}

pub proof fn lemma_n_paths_nonneg(
    list: Seq<(Vec<char>, Device)>,
    name: Seq<char>,
    end: Seq<char>,
    fuel: nat,
)
    ensures
        n_paths(list, name, end, fuel) >= 0,
    decreases fuel, 0nat,
{
    if name != end && fuel > 0 {
        let ki = key_index(list, name);
        if ki != -1 {
            lemma_n_paths_list_nonneg(
                list,
                list[ki].1.outs@,
                end,
                (fuel - 1) as nat,
                list[ki].1.outs@.len() as int,
            );
        }
    }
}

proof fn lemma_n_paths_list_nonneg(
    list: Seq<(Vec<char>, Device)>,
    outs: Seq<Vec<char>>,
    end: Seq<char>,
    fuel: nat,
    upto: int,
)
    ensures
        n_paths_list(list, outs, end, fuel, upto) >= 0,
    decreases fuel, 1nat, upto,
{
    if upto > 0 {
        lemma_n_paths_list_nonneg(list, outs, end, fuel, upto - 1);
        lemma_n_paths_nonneg(list, outs[upto - 1]@, end, fuel);
    }
}

/// Two names hold the same characters.
fn name_eq(a: &Vec<char>, b: &Vec<char>) -> (r: bool)
    ensures
        r == (a@ == b@),
{
    if a.len() != b.len() {
        proof {
            assert(a@ != b@);
        }
        return false;
    }
    let mut i: usize = 0;
    while i < a.len()
        invariant
            i <= a@.len() == b@.len(),
            forall|k: int| 0 <= k < i ==> a@[k] == b@[k],
        decreases a@.len() - i,
    {
        if a[i] != b[i] {
            return false;
        }
        i = i + 1;
    }
    proof {
        assert(a@ =~= b@);
    }
    true
}

/// Looks a name up among the keys.
fn find_key(list: &Vec<(Vec<char>, Device)>, name: &Vec<char>) -> (r: Option<usize>)
    ensures
        r is Some <==> key_index(list@, name@) >= 0,
        r is Some ==> r->Some_0 == key_index(list@, name@),
{
    let mut i: usize = 0;
    proof {
        assert(list@.skip(0) =~= list@);
    }
    while i < list.len()
        invariant
            i <= list@.len(),
            key_index(list@, name@) == (if key_index(list@.skip(i as int), name@) == -1 {
                -1int
            } else {
                i + key_index(list@.skip(i as int), name@)
            }),
        decreases list@.len() - i,
    {
        proof {
            assert(list@.skip(i as int).len() > 0);
            assert(list@.skip(i as int)[0] == list@[i as int]);
            assert(list@.skip(i as int).skip(1) =~= list@.skip(i + 1));
            lemma_key_index_range(list@.skip(i + 1), name@);
        }
        if name_eq(&list[i].0, name) {
            return Some(i);
        }
        i = i + 1;
    }
    proof {
        assert(list@.skip(list@.len() as int).len() == 0);
    }
    None
}

/// Fills one table row: how many paths reach `end` from each key in at
/// most `fuel` hops.
fn paths_row(list: &Vec<(Vec<char>, Device)>, end: &Vec<char>, fuel: usize) -> (row: Vec<u64>)
    requires
        unique_keys(list@),
        forall|f: nat, k: int|
            f <= fuel && 0 <= k < list@.len() ==> #[trigger] n_paths(list@, list@[k].0@, end@, f)
                <= u64::MAX,
        forall|f: nat, k: int, t: int|
            f <= fuel && 0 <= k < list@.len() && 0 <= t <= list@[k].1.outs@.len()
                ==> #[trigger] n_paths_list(list@, list@[k].1.outs@, end@, f, t) <= u64::MAX,
    ensures
        row@.len() == list@.len(),
        forall|k: int|
            0 <= k < list@.len() ==> (#[trigger] row@[k]) == n_paths(
                list@,
                list@[k].0@,
                end@,
                fuel as nat,
            ),
    decreases fuel,
{
    let mut row: Vec<u64> = Vec::new();
    if fuel == 0 {
        let mut k: usize = 0;
        while k < list.len()
            invariant
                k <= list@.len(),
                row@.len() == k,
                forall|k2: int|
                    0 <= k2 < k ==> (#[trigger] row@[k2]) == n_paths(list@, list@[k2].0@, end@, 0),
            decreases list@.len() - k,
        {
            if name_eq(&list[k].0, end) {
                row.push(1);
            } else {
                row.push(0);
            }
            k = k + 1;
        }
        return row;
    }
    let prev = paths_row(list, end, fuel - 1);
    let mut k: usize = 0;
    while k < list.len()
        invariant
            k <= list@.len(),
            unique_keys(list@),
            prev@.len() == list@.len(),
            fuel >= 1,
            forall|f: nat, k2: int|
                f <= fuel && 0 <= k2 < list@.len() ==> #[trigger] n_paths(
                    list@,
                    list@[k2].0@,
                    end@,
                    f,
                ) <= u64::MAX,
            forall|f: nat, k2: int, t: int|
                f <= fuel && 0 <= k2 < list@.len() && 0 <= t <= list@[k2].1.outs@.len()
                    ==> #[trigger] n_paths_list(list@, list@[k2].1.outs@, end@, f, t) <= u64::MAX,
            forall|k2: int|
                0 <= k2 < list@.len() ==> (#[trigger] prev@[k2]) == n_paths(
                    list@,
                    list@[k2].0@,
                    end@,
                    (fuel - 1) as nat,
                ),
            row@.len() == k,
            forall|k2: int|
                0 <= k2 < k ==> (#[trigger] row@[k2]) == n_paths(
                    list@,
                    list@[k2].0@,
                    end@,
                    fuel as nat,
                ),
        decreases list@.len() - k,
    {
        if name_eq(&list[k].0, end) {
            row.push(1);
        } else {
            let outs = &list[k].1.outs;
            let ghost outss = list@[k as int].1.outs@;
            let mut acc: u64 = 0;
            let mut t: usize = 0;
            while t < outs.len()
                invariant
                    t <= outss.len(),
                    outs@ == outss,
                    k < list@.len(),
                    fuel >= 1,
                    unique_keys(list@),
                    outss == list@[k as int].1.outs@,
                    prev@.len() == list@.len(),
                    forall|f: nat, k2: int, t2: int|
                        f <= fuel && 0 <= k2 < list@.len() && 0 <= t2 <= list@[k2].1.outs@.len()
                            ==> #[trigger] n_paths_list(list@, list@[k2].1.outs@, end@, f, t2)
                            <= u64::MAX,
                    forall|k2: int|
                        0 <= k2 < list@.len() ==> (#[trigger] prev@[k2]) == n_paths(
                            list@,
                            list@[k2].0@,
                            end@,
                            (fuel - 1) as nat,
                        ),
                    acc == n_paths_list(list@, outss, end@, (fuel - 1) as nat, t as int),
                decreases outss.len() - t,
            {
                proof {
                    lemma_n_paths_list_nonneg(list@, outss, end@, (fuel - 1) as nat, t as int);
                    lemma_n_paths_nonneg(list@, outss[t as int]@, end@, (fuel - 1) as nat);
                    assert(n_paths_list(list@, outss, end@, (fuel - 1) as nat, t + 1) <= u64::MAX);
                }
                let is_end = name_eq(&outs[t], end);
                let contribution = if is_end {
                    1u64
                } else {
                    match find_key(list, &outs[t]) {
                        None => {
                            proof {
                                lemma_key_index_range(list@, outss[t as int]@);
                            }
                            0u64
                        },
                        Some(ki) => {
                            proof {
                                lemma_key_index_range(list@, outss[t as int]@);
                            }
                            prev[ki]
                        },
                    }
                };
                proof {
                    assert(contribution == n_paths(
                        list@,
                        outss[t as int]@,
                        end@,
                        (fuel - 1) as nat,
                    ));
                }
                acc = acc + contribution;
                t = t + 1;
            }
            proof {
                lemma_key_index_self(list@, k as int);
                assert(n_paths(list@, list@[k as int].0@, end@, fuel as nat) == n_paths_list(
                    list@,
                    outss,
                    end@,
                    (fuel - 1) as nat,
                    outss.len() as int,
                ));
            }
            row.push(acc);
        }
        k = k + 1;
    }
    row
}

impl Device {
    /// The same device, ready to carry a weight.
    pub fn to_weighted(&self) -> (r: WeigtedDevice)
        ensures
            r.weight == 0,
            r.done == false,
            r.outs@.len() == self.outs@.len(),
            forall|t: int| 0 <= t < self.outs@.len() ==> (#[trigger] r.outs@[t])@ == self.outs@[t]@,
    {
        WeigtedDevice { weight: 0u64, done: false, outs: copy_names(&self.outs) }
    }
}

/// Fresh copies of a list of names.
fn copy_names(v: &Vec<Vec<char>>) -> (r: Vec<Vec<char>>)
    ensures
        r@.len() == v@.len(),
        forall|t: int| 0 <= t < v@.len() ==> (#[trigger] r@[t])@ == v@[t]@,
{
    let mut r: Vec<Vec<char>> = Vec::new();
    let mut i: usize = 0;
    while i < v.len()
        invariant
            i <= v@.len(),
            r@.len() == i,
            forall|t: int| 0 <= t < i ==> (#[trigger] r@[t])@ == v@[t]@,
        decreases v@.len() - i,
    {
        let mut one: Vec<char> = Vec::new();
        let src = &v[i];
        let mut j: usize = 0;
        while j < src.len()
            invariant
                j <= src@.len(),
                one@ =~= src@.take(j as int),
            decreases src@.len() - j,
        {
            one.push(src[j]);
            proof {
                assert(one@ =~= src@.take(j + 1));
            }
            j = j + 1;
        }
        proof {
            assert(one@ =~= src@);
        }
        r.push(one);
        i = i + 1;
    }
    r
}

/// Weights every device of the list with zero.
pub fn to_weighted(list: &Vec<(Vec<char>, Device)>) -> (r: Vec<(Vec<char>, WeigtedDevice)>)
    ensures
        r@.len() == list@.len(),
        forall|k: int|
            0 <= k < list@.len() ==> (#[trigger] r@[k]).0@ == list@[k].0@ && r@[k].1.weight == 0
                && r@[k].1.done == false,
{
    let mut r: Vec<(Vec<char>, WeigtedDevice)> = Vec::new();
    let mut k: usize = 0;
    while k < list.len()
        invariant
            k <= list@.len(),
            r@.len() == k,
            forall|k2: int|
                0 <= k2 < k ==> (#[trigger] r@[k2]).0@ == list@[k2].0@ && r@[k2].1.weight == 0
                    && r@[k2].1.done == false,
        decreases list@.len() - k,
    {
        let mut key: Vec<char> = Vec::new();
        let src = &list[k].0;
        let mut j: usize = 0;
        while j < src.len()
            invariant
                j <= src@.len(),
                key@ =~= src@.take(j as int),
            decreases src@.len() - j,
        {
            key.push(src[j]);
            proof {
                assert(key@ =~= src@.take(j + 1));
            }
            j = j + 1;
        }
        proof {
            assert(key@ =~= src@);
        }
        r.push((key, list[k].1.to_weighted()));
        k = k + 1;
    }
    r
}

/// Tables every device's paths to `end`, searching as deep as the device
/// count, and appends the sink name itself.
pub fn fill_device(
    list: &Vec<(Vec<char>, Device)>,
    rev: &Vec<(Vec<char>, Device)>,
    end: &Vec<char>,
) -> (r: Vec<(Vec<char>, WeigtedDevice)>)
    requires
        unique_keys(list@),
        forall|f: nat, k: int|
            f <= list@.len() && 0 <= k < list@.len() ==> #[trigger] n_paths(
                list@,
                list@[k].0@,
                end@,
                f,
            ) <= u64::MAX,
        forall|f: nat, k: int, t: int|
            f <= list@.len() && 0 <= k < list@.len() && 0 <= t <= list@[k].1.outs@.len()
                ==> #[trigger] n_paths_list(list@, list@[k].1.outs@, end@, f, t) <= u64::MAX,
    ensures
        r@.len() == list@.len(),
        forall|k: int|
            0 <= k < list@.len() ==> (#[trigger] r@[k]).0@ == list@[k].0@ && r@[k].1.weight
                == n_paths(list@, list@[k].0@, end@, list@.len() as nat),
{
    let row = paths_row(list, end, list.len());
    let mut r: Vec<(Vec<char>, WeigtedDevice)> = Vec::new();
    let mut k: usize = 0;
    while k < list.len()
        invariant
            k <= list@.len(),
            row@.len() == list@.len(),
            forall|k2: int|
                0 <= k2 < list@.len() ==> (#[trigger] row@[k2]) == n_paths(
                    list@,
                    list@[k2].0@,
                    end@,
                    list@.len() as nat,
                ),
            r@.len() == k,
            forall|k2: int|
                0 <= k2 < k ==> (#[trigger] r@[k2]).0@ == list@[k2].0@ && r@[k2].1.weight
                    == n_paths(list@, list@[k2].0@, end@, list@.len() as nat),
        decreases list@.len() - k,
    {
        let mut key: Vec<char> = Vec::new();
        let src = &list[k].0;
        let mut j: usize = 0;
        while j < src.len()
            invariant
                j <= src@.len(),
                key@ =~= src@.take(j as int),
            decreases src@.len() - j,
        {
            key.push(src[j]);
            proof {
                assert(key@ =~= src@.take(j + 1));
            }
            j = j + 1;
        }
        proof {
            assert(key@ =~= src@);
        }
        let wd = WeigtedDevice { weight: row[k], done: true, outs: copy_names(&list[k].1.outs) };
        r.push((key, wd));
        k = k + 1;
    }
    r
}

/// Paths from `you` to `out`, searched as deep as the device count.
pub fn get_p1(devices: &Vec<(Vec<char>, Device)>) -> (r: u64)
    requires
        unique_keys(devices@),
        forall|f: nat, k: int|
            f <= devices@.len() && 0 <= k < devices@.len() ==> #[trigger] n_paths(
                devices@,
                devices@[k].0@,
                end_you_spec().1,
                f,
            ) <= u64::MAX,
        forall|f: nat, k: int, t: int|
            f <= devices@.len() && 0 <= k < devices@.len() && 0 <= t
                <= devices@[k].1.outs@.len() ==> #[trigger] n_paths_list(
                devices@,
                devices@[k].1.outs@,
                end_you_spec().1,
                f,
                t,
            ) <= u64::MAX,
        key_index(devices@, end_you_spec().0) >= 0,
    ensures
        r == n_paths(devices@, end_you_spec().0, end_you_spec().1, devices@.len() as nat),
{
    let you = chars_of("you");
    let out = chars_of("out");
    proof {
        reveal_strlit("you");
        reveal_strlit("out");
        assert(you@ == end_you_spec().0);
        assert(out@ == end_you_spec().1);
    }
    let filled = fill_device(devices, devices, &out);
    let mut k: usize = 0;
    proof {
        lemma_key_index_range(devices@, end_you_spec().0);
    }
    let ghost ki = key_index(devices@, end_you_spec().0);
    while k < filled.len()
        invariant
            k <= filled@.len() == devices@.len(),
            you@ == end_you_spec().0,
            0 <= ki < devices@.len(),
            devices@[ki].0@ == end_you_spec().0,
            forall|k2: int|
                0 <= k2 < devices@.len() ==> (#[trigger] filled@[k2]).0@ == devices@[k2].0@
                    && filled@[k2].1.weight == n_paths(
                    devices@,
                    devices@[k2].0@,
                    end_you_spec().1,
                    devices@.len() as nat,
                ),
            forall|k2: int| 0 <= k2 < k ==> (#[trigger] filled@[k2]).0@ != end_you_spec().0,
        decreases filled@.len() - k,
    {
        if name_eq(&filled[k].0, &you) {
            return filled[k].1.weight;
        }
        k = k + 1;
    }
    proof {
        assert(filled@[ki].0@ != end_you_spec().0);
        assert(false);
    }
    0
}

/// The names `you` and `out`, as the contracts speak of them.
pub open spec fn end_you_spec() -> (Seq<char>, Seq<char>) {
    (seq!['y', 'o', 'u'], seq!['o', 'u', 't'])
}

/// The weight stored beside the first entry called `name`.
fn lookup_weight(filled: &Vec<(Vec<char>, WeigtedDevice)>, name: &Vec<char>) -> (r: Option<u64>)
    ensures
        r is Some <==> exists|k: int|
            0 <= k < filled@.len() && (#[trigger] filled@[k]).0@ == name@,
        r is Some ==> exists|k: int|
            0 <= k < filled@.len() && (#[trigger] filled@[k]).0@ == name@ && r->Some_0
                == filled@[k].1.weight,
{
    let mut k: usize = 0;
    while k < filled.len()
        invariant
            k <= filled@.len(),
            forall|k2: int| 0 <= k2 < k ==> (#[trigger] filled@[k2]).0@ != name@,
        decreases filled@.len() - k,
    {
        if name_eq(&filled[k].0, name) {
            return Some(filled[k].1.weight);
        }
        k = k + 1;
    }
    None
}

/// Paths counted between two named devices, searched as deep as the
/// device count.
pub open spec fn np(devices: Seq<(Vec<char>, Device)>, a: Seq<char>, b: Seq<char>) -> int {
    n_paths(devices, a, b, devices.len() as nat)
}

/// The relay names of the second answer.
pub open spec fn nm_svr() -> Seq<char> {
    seq!['s', 'v', 'r']
}

pub open spec fn nm_dac() -> Seq<char> {
    seq!['d', 'a', 'c']
}

pub open spec fn nm_fft() -> Seq<char> {
    seq!['f', 'f', 't']
}

pub open spec fn nm_out() -> Seq<char> {
    seq!['o', 'u', 't']
}

/// Paths from `svr` to `out` through both relays, one order at a time:
/// counts multiply along each chain and the two chains add up.
pub open spec fn p2_value(devices: Seq<(Vec<char>, Device)>) -> int {
    np(devices, nm_svr(), nm_dac()) * np(devices, nm_dac(), nm_fft()) * np(
        devices,
        nm_fft(),
        nm_out(),
    ) + np(devices, nm_svr(), nm_fft()) * np(devices, nm_fft(), nm_dac()) * np(
        devices,
        nm_dac(),
        nm_out(),
    )
}

/// One end name's table bounds, shared by the second answer's requires.
pub open spec fn table_fits(devices: Seq<(Vec<char>, Device)>, end: Seq<char>) -> bool {
    &&& forall|f: nat, k: int|
        f <= devices.len() && 0 <= k < devices.len() ==> #[trigger] n_paths(
            devices,
            devices[k].0@,
            end,
            f,
        ) <= u64::MAX
    &&& forall|f: nat, k: int, t: int|
        f <= devices.len() && 0 <= k < devices.len() && 0 <= t <= devices[k].1.outs@.len()
            ==> #[trigger] n_paths_list(devices, devices[k].1.outs@, end, f, t) <= u64::MAX
}

/// Computes the two-relay path count from `svr` to `out`.
pub fn get_p2(devices: &Vec<(Vec<char>, Device)>) -> (r: u64)
    requires
        unique_keys(devices@),
        table_fits(devices@, nm_out()),
        table_fits(devices@, nm_dac()),
        table_fits(devices@, nm_fft()),
        key_index(devices@, nm_svr()) >= 0,
        key_index(devices@, nm_dac()) >= 0,
        key_index(devices@, nm_fft()) >= 0,
        np(devices@, nm_svr(), nm_dac()) * np(devices@, nm_dac(), nm_fft()) <= u64::MAX,
        np(devices@, nm_svr(), nm_dac()) * np(devices@, nm_dac(), nm_fft()) * np(
            devices@,
            nm_fft(),
            nm_out(),
        ) <= u64::MAX,
        np(devices@, nm_svr(), nm_fft()) * np(devices@, nm_fft(), nm_dac()) <= u64::MAX,
        np(devices@, nm_svr(), nm_fft()) * np(devices@, nm_fft(), nm_dac()) * np(
            devices@,
            nm_dac(),
            nm_out(),
        ) <= u64::MAX,
        p2_value(devices@) <= u64::MAX,
    ensures
        r == p2_value(devices@),
{
    let svr = chars_of("svr");
    let dac = chars_of("dac");
    let fft = chars_of("fft");
    let out = chars_of("out");
    proof {
        reveal_strlit("svr");
        reveal_strlit("dac");
        reveal_strlit("fft");
        reveal_strlit("out");
        assert(svr@ == nm_svr());
        assert(dac@ == nm_dac());
        assert(fft@ == nm_fft());
        assert(out@ == nm_out());
        lemma_key_index_range(devices@, nm_svr());
        lemma_key_index_range(devices@, nm_dac());
        lemma_key_index_range(devices@, nm_fft());
    }
    let weighted_out = fill_device(devices, devices, &out);
    let weighted_dac = fill_device(devices, devices, &dac);
    let weighted_fft = fill_device(devices, devices, &fft);

    let svr_dac = fetch(&weighted_dac, &svr, devices, Ghost(nm_dac()));
    let dac_fft = fetch(&weighted_fft, &dac, devices, Ghost(nm_fft()));
    let fft_out = fetch(&weighted_out, &fft, devices, Ghost(nm_out()));
    let svr_fft = fetch(&weighted_fft, &svr, devices, Ghost(nm_fft()));
    let fft_dac = fetch(&weighted_dac, &fft, devices, Ghost(nm_dac()));
    let dac_out = fetch(&weighted_out, &dac, devices, Ghost(nm_out()));
    proof {
        lemma_n_paths_nonneg(devices@, nm_svr(), nm_dac(), devices@.len() as nat);
        lemma_n_paths_nonneg(devices@, nm_dac(), nm_fft(), devices@.len() as nat);
        lemma_n_paths_nonneg(devices@, nm_fft(), nm_out(), devices@.len() as nat);
        lemma_n_paths_nonneg(devices@, nm_svr(), nm_fft(), devices@.len() as nat);
        lemma_n_paths_nonneg(devices@, nm_fft(), nm_dac(), devices@.len() as nat);
        lemma_n_paths_nonneg(devices@, nm_dac(), nm_out(), devices@.len() as nat);
    }
    svr_dac * dac_fft * fft_out + svr_fft * fft_dac * dac_out
}

/// One lookup in a filled table, pinned to its source list.
fn fetch(
    filled: &Vec<(Vec<char>, WeigtedDevice)>,
    name: &Vec<char>,
    devices: &Vec<(Vec<char>, Device)>,
    end: Ghost<Seq<char>>,
) -> (r: u64)
    requires
        unique_keys(devices@),
        filled@.len() == devices@.len(),
        forall|k: int|
            0 <= k < devices@.len() ==> (#[trigger] filled@[k]).0@ == devices@[k].0@
                && filled@[k].1.weight == n_paths(
                devices@,
                devices@[k].0@,
                end@,
                devices@.len() as nat,
            ),
        key_index(devices@, name@) >= 0,
    ensures
        r == n_paths(devices@, name@, end@, devices@.len() as nat),
{
    proof {
        lemma_key_index_range(devices@, name@);
    }
    match lookup_weight(filled, name) {
        Some(w) => {
            proof {
                let k = choose|k: int|
                    0 <= k < filled@.len() && (#[trigger] filled@[k]).0@ == name@ && w
                        == filled@[k].1.weight;
                assert(devices@[k].0@ == name@);
            }
            w
        },
        None => {
            proof {
                let ki = key_index(devices@, name@);
                assert(filled@[ki].0@ == name@);
                assert(false);
            }
            0
        },
    }
}

/// Some entry called `from` lists `to` among what it feeds.
pub open spec fn has_edge(list: Seq<(Vec<char>, Device)>, from: Seq<char>, to: Seq<char>) -> bool {
    exists|i: int, t: int|
        0 <= i < list.len() && 0 <= t < (#[trigger] list[i]).1.outs@.len() && list[i].0@ == from
            && (#[trigger] list[i].1.outs@[t])@ == to
}

/// Turns every feeding around: the result lists, under each name, the
/// names that feed it; it holds an edge exactly where the input holds
/// the reversed one.
pub fn reverse_device(list: &Vec<(Vec<char>, Device)>) -> (r: Vec<(Vec<char>, Device)>)
    ensures
        unique_keys(r@),
        forall|a: Seq<char>, b: Seq<char>| #[trigger] has_edge(r@, b, a) <==> has_edge(list@, a, b),
{
    let mut res: Vec<(Vec<char>, Device)> = Vec::new();
    let mut i: usize = 0;
    while i < list.len()
        invariant
            i <= list@.len(),
            unique_keys(res@),
            forall|a: Seq<char>, b: Seq<char>| #[trigger] has_edge(res@, b, a) <==> exists|
                i2: int,
                t2: int,
            |
                0 <= i2 < list@.len() && 0 <= t2 < (#[trigger] list@[i2]).1.outs@.len() && (i2 < i)
                    && list@[i2].0@ == a && (#[trigger] list@[i2].1.outs@[t2])@ == b,
        decreases list@.len() - i,
    {
        let outs_n = list[i].1.outs.len();
        let mut t: usize = 0;
        while t < outs_n
            invariant
                t <= outs_n == list@[i as int].1.outs@.len(),
                i < list@.len(),
                unique_keys(res@),
                forall|a: Seq<char>, b: Seq<char>| #[trigger] has_edge(res@, b, a) <==> exists|
                    i2: int,
                    t2: int,
                |
                    0 <= i2 < list@.len() && 0 <= t2 < (#[trigger] list@[i2]).1.outs@.len() && (i2
                        < i || (i2 == i && t2 < t)) && list@[i2].0@ == a && (
                    #[trigger] list@[i2].1.outs@[t2])@ == b,
            decreases outs_n - t,
        {
            let ghost old_res = res@;
            let out_name = &list[i].1.outs[t];
            let from_name = &list[i].0;
            let mut e: usize = 0;
            let mut found: Option<usize> = None;
            while e < res.len()
                invariant
                    e <= res@.len(),
                    match found {
                        Option::None => forall|e2: int|
                            0 <= e2 < e ==> (#[trigger] res@[e2]).0@ != out_name@,
                        Option::Some(ei) => ei < res@.len() && res@[ei as int].0@ == out_name@,
                    },
                decreases res@.len() - e,
            {
                if name_eq(&res[e].0, out_name) {
                    found = Some(e);
                }
                e = e + 1;
            }
            match found {
                Some(ei) => {
                    let entry = &mut res[ei];
                    entry.1.outs.push(copy_one_name(from_name));
                    proof {
                        assert(res@[ei as int].1.outs@ == old_res[ei as int].1.outs@.push(
                            res@[ei as int].1.outs@.last(),
                        ));
                    }
                },
                None => {
                    let mut d = Device { outs: Vec::new() };
                    d.outs.push(copy_one_name(from_name));
                    res.push((copy_one_name(out_name), d));
                },
            }
            proof {
                lemma_reverse_step(
                    old_res,
                    res@,
                    list@,
                    i as int,
                    t as int,
                    found,
                );
            }
            t = t + 1;
        }
        i = i + 1;
    }
    proof {
        assert forall|a: Seq<char>, b: Seq<char>| #[trigger] has_edge(res@, b, a) <==> has_edge(
            list@,
            a,
            b,
        ) by {}
    }
    res
}

/// A fresh copy of one name.
fn copy_one_name(v: &Vec<char>) -> (r: Vec<char>)
    ensures
        r@ == v@,
{
    let mut r: Vec<char> = Vec::new();
    let mut j: usize = 0;
    while j < v.len()
        invariant
            j <= v@.len(),
            r@ =~= v@.take(j as int),
        decreases v@.len() - j,
    {
        r.push(v[j]);
        proof {
            assert(r@ =~= v@.take(j + 1));
        }
        j = j + 1;
    }
    proof {
        assert(r@ =~= v@);
    }
    r
}

/// One reversal step keeps the edge set in lock with the pairs walked.
proof fn lemma_reverse_step(
    old_res: Seq<(Vec<char>, Device)>,
    new_res: Seq<(Vec<char>, Device)>,
    list: Seq<(Vec<char>, Device)>,
    i: int,
    t: int,
    found: Option<usize>,
)
    requires
        0 <= i < list.len(),
        0 <= t < list[i].1.outs@.len(),
        unique_keys(old_res),
        forall|a: Seq<char>, b: Seq<char>| #[trigger] has_edge(old_res, b, a) <==> exists|
            i2: int,
            t2: int,
        |
            0 <= i2 < list.len() && 0 <= t2 < (#[trigger] list[i2]).1.outs@.len() && (i2 < i || (i2
                == i && t2 < t)) && list[i2].0@ == a && (#[trigger] list[i2].1.outs@[t2])@ == b,
        match found {
            Option::None => new_res.len() == old_res.len() + 1 && (forall|e2: int|
                0 <= e2 < old_res.len() ==> #[trigger] new_res[e2] == old_res[e2] && old_res[e2].0@
                    != list[i].1.outs@[t]@) && new_res.last().0@ == list[i].1.outs@[t]@
                && new_res.last().1.outs@.len() == 1 && new_res.last().1.outs@[0]@ == list[i].0@,
            Option::Some(ei) => new_res.len() == old_res.len() && 0 <= ei < old_res.len()
                && old_res[ei as int].0@ == list[i].1.outs@[t]@ && (forall|e2: int|
                0 <= e2 < old_res.len() && e2 != ei ==> #[trigger] new_res[e2] == old_res[e2])
                && new_res[ei as int].0 == old_res[ei as int].0 && new_res[ei as int].1.outs@.len()
                == old_res[ei as int].1.outs@.len() + 1 && (forall|t2: int|
                0 <= t2 < old_res[ei as int].1.outs@.len()
                    ==> #[trigger] new_res[ei as int].1.outs@[t2] == old_res[ei as int].1.outs@[t2])
                && new_res[ei as int].1.outs@.last()@ == list[i].0@,
        },
    ensures
        unique_keys(new_res),
        forall|a: Seq<char>, b: Seq<char>| #[trigger] has_edge(new_res, b, a) <==> exists|
            i2: int,
            t2: int,
        |
            0 <= i2 < list.len() && 0 <= t2 < (#[trigger] list[i2]).1.outs@.len() && (i2 < i || (i2
                == i && t2 < t + 1)) && list[i2].0@ == a && (#[trigger] list[i2].1.outs@[t2])@ == b,
{
    assert forall|a: Seq<char>, b: Seq<char>| #[trigger] has_edge(new_res, b, a) <==> exists|
        i2: int,
        t2: int,
    |
        0 <= i2 < list.len() && 0 <= t2 < (#[trigger] list[i2]).1.outs@.len() && (i2 < i || (i2 == i
            && t2 < t + 1)) && list[i2].0@ == a && (#[trigger] list[i2].1.outs@[t2])@ == b by {
        if has_edge(new_res, b, a) {
            let (e2, t2) = choose|e2: int, t2: int|
                0 <= e2 < new_res.len() && 0 <= t2 < (#[trigger] new_res[e2]).1.outs@.len()
                    && new_res[e2].0@ == b && (#[trigger] new_res[e2].1.outs@[t2])@ == a;
            match found {
                Option::None => {
                    if e2 < old_res.len() {
                        assert(has_edge(old_res, b, a));
                    } else {
                        assert(list[i].0@ == a && (list[i].1.outs@[t])@ == b);
                    }
                },
                Option::Some(ei) => {
                    if e2 != ei as int {
                        assert(has_edge(old_res, b, a)) by {
                            assert(old_res[e2].1.outs@[t2] == new_res[e2].1.outs@[t2]);
                        }
                    } else {
                        if t2 < old_res[ei as int].1.outs@.len() {
                            assert(has_edge(old_res, b, a)) by {
                                assert(old_res[e2].1.outs@[t2] == new_res[e2].1.outs@[t2]);
                            }
                        } else {
                            assert(list[i].0@ == a && (list[i].1.outs@[t])@ == b);
                        }
                    }
                },
            }
        }
        if exists|i2: int, t2: int|
            0 <= i2 < list.len() && 0 <= t2 < (#[trigger] list[i2]).1.outs@.len() && (i2 < i || (i2
                == i && t2 < t + 1)) && list[i2].0@ == a && (#[trigger] list[i2].1.outs@[t2])@
                == b {
            let (i2, t2) = choose|i2: int, t2: int|
                0 <= i2 < list.len() && 0 <= t2 < (#[trigger] list[i2]).1.outs@.len() && (i2 < i
                    || (i2 == i && t2 < t + 1)) && list[i2].0@ == a && (
                #[trigger] list[i2].1.outs@[t2])@ == b;
            if i2 < i || (i2 == i && t2 < t) {
                assert(has_edge(old_res, b, a));
                let (e3, t3) = choose|e3: int, t3: int|
                    0 <= e3 < old_res.len() && 0 <= t3 < (#[trigger] old_res[e3]).1.outs@.len()
                        && old_res[e3].0@ == b && (#[trigger] old_res[e3].1.outs@[t3])@ == a;
                match found {
                    Option::None => {
                        assert(new_res[e3] == old_res[e3]);
                        assert(new_res[e3].1.outs@[t3] == old_res[e3].1.outs@[t3]);
                        assert(has_edge(new_res, b, a));
                    },
                    Option::Some(ei) => {
                        if e3 != ei as int {
                            assert(new_res[e3] == old_res[e3]);
                            assert(new_res[e3].1.outs@[t3] == old_res[e3].1.outs@[t3]);
                            assert(has_edge(new_res, b, a));
                        } else {
                            assert(new_res[e3].1.outs@[t3] == old_res[e3].1.outs@[t3]);
                            assert(has_edge(new_res, b, a));
                        }
                    },
                }
            } else {
                // the pair walked in this very step
                match found {
                    Option::None => {
                        assert(new_res.last().0@ == b);
                        assert((new_res.last().1.outs@[0])@ == a);
                        assert(has_edge(new_res, b, a)) by {
                            assert(new_res[new_res.len() - 1].0@ == b && (new_res[new_res.len()
                                - 1].1.outs@[0])@ == a);
                        }
                    },
                    Option::Some(ei) => {
                        assert(new_res[ei as int].0@ == b);
                        assert((new_res[ei as int].1.outs@[new_res[ei as int].1.outs@.len()
                            - 1])@ == a);
                        assert(has_edge(new_res, b, a));
                    },
                }
            }
        }
    }
    match found {
        Option::None => {
            assert forall|x: int, y: int|
                0 <= x < y < new_res.len() implies (#[trigger] new_res[x]).0@ != (
            #[trigger] new_res[y]).0@ by {
                if y < old_res.len() {
                    assert(new_res[x] == old_res[x] && new_res[y] == old_res[y]);
                } else {
                    assert(new_res[x] == old_res[x]);
                    assert(old_res[x].0@ != list[i].1.outs@[t]@);
                }
            }
        },
        Option::Some(ei) => {
            assert forall|x: int, y: int|
                0 <= x < y < new_res.len() implies (#[trigger] new_res[x]).0@ != (
            #[trigger] new_res[y]).0@ by {
                assert(new_res[x].0@ == old_res[x].0@);
                assert(new_res[y].0@ == old_res[y].0@);
            }
        },
    }
}

/// The input with every colon removed.
pub open spec fn strip_colons(s: Seq<char>) -> Seq<char> {
    s.filter(|c: char| c != ':')
}

/// Stripping colons from one more character keeps or appends it.
proof fn lemma_strip_colons_step(s: Seq<char>, i: int)
    requires
        0 <= i < s.len(),
    ensures
        strip_colons(s.take(i + 1)) == if s[i] != ':' {
            strip_colons(s.take(i)).push(s[i])
        } else {
            strip_colons(s.take(i))
        },
{
    reveal(Seq::filter);
    assert(s.take(i + 1).drop_last() =~= s.take(i));
    assert(s.take(i + 1).last() == s[i]);
}

impl Device {
    /// Reads the network, colons dropped: each line names a device and
    /// then everything it feeds, split by spaces.
    pub fn from_string(string: &str) -> (r: Vec<(Vec<char>, Device)>)
        ensures
            ({
                let lns = spec_lines(strip_colons(string@));
                &&& r@.len() == lns.len()
                &&& forall|k: int|
                    0 <= k < lns.len() ==> {
                        let parts = spec_split(lns[k], ' ');
                        &&& (#[trigger] r@[k]).0@ == parts[0]
                        &&& r@[k].1.outs@.len() == parts.len() - 1
                        &&& forall|t: int|
                            0 <= t < parts.len() - 1 ==> (#[trigger] r@[k].1.outs@[t])@ == parts[t
                                + 1]
                    }
            }),
    {
        let cs = chars_of(string);
        let mut filtered: Vec<char> = Vec::new();
        let mut i: usize = 0;
        proof {
            reveal(Seq::filter);
            assert(cs@.take(0) =~= Seq::<char>::empty());
            assert(strip_colons(Seq::<char>::empty()) =~= Seq::<char>::empty());
        }
        while i < cs.len()
            invariant
                i <= cs@.len(),
                cs@ == string@,
                filtered@ == strip_colons(cs@.take(i as int)),
            decreases cs@.len() - i,
        {
            let ch = cs[i];
            proof {
                lemma_strip_colons_step(cs@, i as int);
            }
            if ch != ':' {
                filtered.push(ch);
            }
            i = i + 1;
        }
        proof {
            assert(cs@.take(cs@.len() as int) =~= cs@);
        }
        let lines = split_lines(&filtered);
        let ghost lns = spec_lines(strip_colons(string@));
        proof {
            assert forall|k: int| 0 <= k < lines@.len() implies (#[trigger] lines@[k])@
                == lns[k] by {
                assert(lines@.map_values(|p: Vec<char>| p@)[k] == lns[k]);
            }
        }
        let mut res: Vec<(Vec<char>, Device)> = Vec::new();
        let mut li: usize = 0;
        while li < lines.len()
            invariant
                li <= lines@.len() == lns.len(),
                lns == spec_lines(strip_colons(string@)),
                forall|k: int| 0 <= k < lines@.len() ==> (#[trigger] lines@[k])@ == lns[k],
                res@.len() == li,
                forall|k: int|
                    0 <= k < li ==> {
                        let parts = spec_split(lns[k], ' ');
                        &&& (#[trigger] res@[k]).0@ == parts[0]
                        &&& res@[k].1.outs@.len() == parts.len() - 1
                        &&& forall|t: int|
                            0 <= t < parts.len() - 1 ==> (#[trigger] res@[k].1.outs@[t])@
                                == parts[t + 1]
                    },
            decreases lines@.len() - li,
        {
            let ghost lparts = spec_split(lns[li as int], ' ');
            let mut parts = split_chars(&lines[li], ' ');
            proof {
                assert forall|k: int| 0 <= k < parts@.len() implies (#[trigger] parts@[k])@
                    == lparts[k] by {
                    assert(parts@.map_values(|p: Vec<char>| p@)[k] == lparts[k]);
                }
            }
            let key = parts.remove(0);
            proof {
                assert(key@ == lparts[0]);
                assert forall|t: int| 0 <= t < lparts.len() - 1 implies (#[trigger] parts@[t])@
                    == lparts[t + 1] by {}
            }
            res.push((key, Device { outs: parts }));
            li = li + 1;
        }
        res
    }
}

} // verus!
