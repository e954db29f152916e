//! Grouping of kernel events by kernel name, then by rank, in chronological order.
use vstd::prelude::*;
use crate::ranks::{KernelEvent, strictly_increasing, insert_rank};
use crate::order::{name_lt, names_in_order, lists, insert_name};

verus! {

/// The events of one rank under one kernel name, as positions in the event list.
pub struct RankGroup {
    pub rank: i64,
    pub positions: Vec<usize>,
}

/// The events under one kernel name, one group per rank that launched it, by rank.
pub struct NameGroup {
    pub name: String,
    pub per_rank: Vec<RankGroup>,
}

/// Event `i` of `ks` is a launch of kernel `name` by rank `r`.
pub open spec fn is_member(ks: Seq<KernelEvent>, name: Seq<char>, r: i64, i: int) -> bool {
    0 <= i < ks.len() && ks[i].short_name@ == name && ks[i].global_pid == r
}

/// Some event of `ks` is a launch of kernel `name`.
pub open spec fn has_name(ks: Seq<KernelEvent>, name: Seq<char>) -> bool {
    exists|i: int| 0 <= i < ks.len() && ks[i].short_name@ == name
}

/// Rank `r` launched kernel `name` at least once.
pub open spec fn launched_by(ks: Seq<KernelEvent>, name: Seq<char>, r: i64) -> bool {
    exists|i: int| is_member(ks, name, r, i)
}

/// Event `a` comes before event `b` in a stable sort by start time: it starts
/// earlier, or at the same time and stood earlier in the input.
pub open spec fn launches_before(ks: Seq<KernelEvent>, a: usize, b: usize) -> bool {
    ks[a as int].start < ks[b as int].start || (ks[a as int].start == ks[b as int].start && a < b)
}

/// `ps` is in the order of a stable sort by start time.
pub open spec fn chronological(ks: Seq<KernelEvent>, ps: Seq<usize>) -> bool {
    forall|a: int, b: int| 0 <= a < b < ps.len() ==> launches_before(ks, ps[a], ps[b])
}

/// `g` holds exactly the launches of `name` by its rank, stably sorted by start.
pub open spec fn rank_group_ok(ks: Seq<KernelEvent>, name: Seq<char>, g: RankGroup) -> bool {
    &&& chronological(ks, g.positions@)
    &&& forall|i: usize| g.positions@.contains(i) <==> is_member(ks, name, g.rank, i as int)
}

/// `g` has one group for each rank that launched its kernel, by increasing rank.
pub open spec fn name_group_ok(ks: Seq<KernelEvent>, g: NameGroup) -> bool {
    &&& forall|a: int, b: int|
        0 <= a < b < g.per_rank@.len() ==> g.per_rank@[a].rank < g.per_rank@[b].rank
    &&& forall|a: int| 0 <= a < g.per_rank@.len() ==> rank_group_ok(ks, g.name@, #[trigger] g.per_rank@[a])
    &&& forall|r: i64|
        (exists|a: int| 0 <= a < g.per_rank@.len() && g.per_rank@[a].rank == r)
            <==> launched_by(ks, g.name@, r)
}

/// Some group of `gs` is for kernel `name`.
pub open spec fn has_group(gs: Seq<NameGroup>, name: Seq<char>) -> bool {
    exists|a: int| 0 <= a < gs.len() && gs[a].name@ == name
}

/// One of the first `n` events of `ks` is a launch of kernel `name`.
pub open spec fn named_before(ks: Seq<KernelEvent>, n: int, name: Seq<char>) -> bool {
    exists|j: int| 0 <= j < n && ks[j].short_name@ == name
}

/// `gs` has one group for each kernel name of `ks`, in byte order of the names.
pub open spec fn grouping_ok(ks: Seq<KernelEvent>, gs: Seq<NameGroup>) -> bool {
    &&& forall|a: int, b: int| 0 <= a < b < gs.len() ==> gs[a].name@ != gs[b].name@
    &&& forall|a: int, b: int| 0 <= a < b < gs.len() ==> !name_lt(gs[b].name@, gs[a].name@)
    &&& forall|a: int| 0 <= a < gs.len() ==> name_group_ok(ks, #[trigger] gs[a])
    &&& forall|name: Seq<char>| #[trigger] has_group(gs, name) <==> has_name(ks, name)
}

/// Within each rank's group, launches are in non-decreasing order of start time, and
/// launches that start at the same time keep the order they had in the input.
pub proof fn lemma_rank_group_sorted_and_stable(ks: Seq<KernelEvent>, g: NameGroup, k: int)
    requires
        name_group_ok(ks, g),
        0 <= k < g.per_rank@.len(),
    ensures
        forall|a: int, b: int|
            #![trigger g.per_rank@[k].positions@[a], g.per_rank@[k].positions@[b]]
            0 <= a < b < g.per_rank@[k].positions@.len() ==> {
                let pa = g.per_rank@[k].positions@[a];
                let pb = g.per_rank@[k].positions@[b];
                &&& ks[pa as int].start <= ks[pb as int].start
                &&& ks[pa as int].start == ks[pb as int].start ==> pa < pb
            },
{
    let ps = g.per_rank@[k].positions@;
    assert(rank_group_ok(ks, g.name@, g.per_rank@[k]));
    assert forall|a: int, b: int| 0 <= a < b < ps.len() implies {
        &&& ks[ps[a] as int].start <= ks[ps[b] as int].start
        &&& ks[ps[a] as int].start == ks[ps[b] as int].start ==> ps[a] < ps[b]
    } by {
        assert(launches_before(ks, ps[a], ps[b]));
    }
}

/// The launches of kernel `name` by rank `r`, as a set of positions.
pub open spec fn launches_of(ks: Seq<KernelEvent>, name: Seq<char>, r: i64) -> Set<usize> {
    Set::new(|i: usize| is_member(ks, name, r, i as int))
}

/// A rank's group holds as many launches as the rank made of its kernel.
pub proof fn lemma_rank_group_count(ks: Seq<KernelEvent>, name: Seq<char>, g: RankGroup)
    requires
        rank_group_ok(ks, name, g),
    ensures
        launches_of(ks, name, g.rank).finite(),
        g.positions@.len() == launches_of(ks, name, g.rank).len(),
{
    let ps = g.positions@;
    assert forall|a: int, b: int| 0 <= a < ps.len() && 0 <= b < ps.len() && a != b implies ps[a]
        != ps[b] by {
        if a < b {
            assert(launches_before(ks, ps[a], ps[b]));
        } else {
            assert(launches_before(ks, ps[b], ps[a]));
        }
    }
    assert(ps.no_duplicates());
    assert(ps.to_set() =~= launches_of(ks, name, g.rank));
    ps.unique_seq_to_set();
}

/// The positions of the launches of `name` by rank `r`, stably sorted by start.
pub fn collect_positions(kernels: &Vec<KernelEvent>, name: &String, r: i64) -> (ps: Vec<usize>)
    ensures
        chronological(kernels@, ps@),
        forall|i: usize| ps@.contains(i) <==> is_member(kernels@, name@, r, i as int),
{
    let ghost ks = kernels@;
    let mut ps: Vec<usize> = Vec::new();
    let mut i: usize = 0;
    while i < kernels.len()
        invariant
            i <= kernels.len(),
            ks == kernels@,
            chronological(ks, ps@),
            forall|a: int| 0 <= a < ps@.len() ==> ps@[a] < i,
            forall|j: usize| ps@.contains(j) <==> (j < i && is_member(ks, name@, r, j as int)),
        decreases kernels.len() - i,
    {
        let ghost seen = ps@;
        let member = kernels[i].global_pid == r && kernels[i].short_name == *name;
        assert(member == is_member(ks, name@, r, i as int));
        if member {
            let s = kernels[i].start;
            let mut k: usize = ps.len();
            while k > 0 && kernels[ps[k - 1]].start > s
                invariant
                    k <= ps.len(),
                    i < kernels.len(),
                    ks == kernels@,
                    s == ks[i as int].start,
                    forall|a: int| 0 <= a < ps@.len() ==> ps@[a] < i,
                    forall|b: int| k <= b < ps@.len() ==> ks[ps@[b] as int].start > s,
                decreases k,
            {
                k = k - 1;
            }
            let ghost before = ps@;
            assert(before == seen);
            ps.insert(k, i);
            assert forall|a: int, b: int| 0 <= a < b < ps@.len() implies launches_before(
                ks,
                ps@[a],
                ps@[b],
            ) by {
                if b < k {
                    assert(launches_before(ks, before[a], before[b]));
                } else if b == k {
                    if a < k - 1 {
                        assert(launches_before(ks, before[a], before[k - 1]));
                    }
                } else if a < k {
                    assert(ks[before[b - 1] as int].start > s);
                    if a < k - 1 {
                        assert(launches_before(ks, before[a], before[k - 1]));
                    }
                } else if a == k {
                    assert(ks[before[b - 1] as int].start > s);
                } else {
                    assert(launches_before(ks, before[a - 1], before[b - 1]));
                }
            }
            assert forall|j: usize| ps@.contains(j) <==> (before.contains(j) || j == i) by {
                if ps@.contains(j) {
                    let x = choose|x: int| 0 <= x < ps@.len() && ps@[x] == j;
                    if x < k {
                        assert(before[x] == j);
                    } else if x > k {
                        assert(before[x - 1] == j);
                    }
                }
                if before.contains(j) {
                    let x = choose|x: int| 0 <= x < before.len() && before[x] == j;
                    if x < k {
                        assert(ps@[x] == j);
                    } else {
                        assert(ps@[x + 1] == j);
                    }
                }
                if j == i {
                    assert(ps@[k as int] == j);
                }
            }
        }
        assert forall|j: usize| ps@.contains(j) <==> (j < i + 1 && is_member(ks, name@, r, j as int)) by {
            assert(seen.contains(j) <==> (j < i && is_member(ks, name@, r, j as int)));
            if member {
                assert(ps@.contains(j) <==> (seen.contains(j) || j == i));
            } else {
                assert(ps@ == seen);
            }
        }
        i = i + 1;
    }
    ps
}

/// The distinct ranks that launched kernel `name`, smallest first.
pub fn name_ranks(kernels: &Vec<KernelEvent>, name: &String) -> (rs: Vec<i64>)
    ensures
        strictly_increasing(rs@),
        forall|r: i64| rs@.contains(r) <==> launched_by(kernels@, name@, r),
{
    let ghost ks = kernels@;
    let mut out: Vec<i64> = Vec::new();
    let mut i: usize = 0;
    while i < kernels.len()
        invariant
            i <= kernels.len(),
            ks == kernels@,
            strictly_increasing(out@),
            forall|r: i64|
                out@.contains(r) <==> exists|j: int| 0 <= j < i && is_member(ks, name@, r, j),
        decreases kernels.len() - i,
    {
        let ghost seen = out@;
        let p = kernels[i].global_pid;
        let member = kernels[i].short_name == *name;
        if member {
            insert_rank(&mut out, p);
        }
        assert forall|r: i64|
            out@.contains(r) <==> exists|j: int| 0 <= j < i + 1 && is_member(ks, name@, r, j) by {
            if member && r == p {
                assert(is_member(ks, name@, r, i as int));
            }
            if exists|j: int| 0 <= j < i + 1 && is_member(ks, name@, r, j) {
                let j = choose|j: int| 0 <= j < i + 1 && is_member(ks, name@, r, j);
                if j < i {
                    assert(seen.contains(r));
                }
            }
            if seen.contains(r) {
                let j = choose|j: int| 0 <= j < i && is_member(ks, name@, r, j);
                assert(0 <= j < i + 1 && is_member(ks, name@, r, j));
            }
        }
        i = i + 1;
    }
    out
}

/// The events of kernel `name`, grouped by rank.
pub fn build_name_group(kernels: &Vec<KernelEvent>, name: &String) -> (g: NameGroup)
    ensures
        g.name@ == name@,
        name_group_ok(kernels@, g),
{
    let rs = name_ranks(kernels, name);
    let mut per_rank: Vec<RankGroup> = Vec::new();
    let mut k: usize = 0;
    while k < rs.len()
        invariant
            k <= rs.len(),
            per_rank@.len() == k,
            forall|a: int| 0 <= a < k ==> (#[trigger] per_rank@[a]).rank == rs@[a],
            forall|a: int| 0 <= a < k ==> rank_group_ok(kernels@, name@, #[trigger] per_rank@[a]),
        decreases rs.len() - k,
    {
        let positions = collect_positions(kernels, name, rs[k]);
        per_rank.push(RankGroup { rank: rs[k], positions });
        k = k + 1;
    }
    let g = NameGroup { name: name.clone(), per_rank };
    assert forall|r: i64|
        (exists|a: int| 0 <= a < g.per_rank@.len() && g.per_rank@[a].rank == r)
            <==> launched_by(kernels@, g.name@, r) by {
        if rs@.contains(r) {
            let a = choose|a: int| 0 <= a < rs@.len() && rs@[a] == r;
            assert(g.per_rank@[a].rank == r);
        }
        if exists|a: int| 0 <= a < g.per_rank@.len() && g.per_rank@[a].rank == r {
            let a = choose|a: int| 0 <= a < g.per_rank@.len() && g.per_rank@[a].rank == r;
            assert(rs@[a] == r);
        }
    }
    g
}

/// The distinct kernel names of the events, in byte order.
pub fn distinct_names(kernels: &Vec<KernelEvent>) -> (ns: Vec<String>)
    ensures
        names_in_order(ns@),
        forall|nm: Seq<char>| #[trigger] lists(ns@, nm) <==> has_name(kernels@, nm),
{
    let ghost ks = kernels@;
    let mut out: Vec<String> = Vec::new();
    let mut i: usize = 0;
    while i < kernels.len()
        invariant
            i <= kernels.len(),
            ks == kernels@,
            names_in_order(out@),
            forall|nm: Seq<char>| #[trigger] lists(out@, nm) <==> named_before(ks, i as int, nm),
        decreases kernels.len() - i,
    {
        let ghost seen = out@;
        insert_name(&mut out, &kernels[i].short_name);
        assert forall|nm: Seq<char>| #[trigger] lists(out@, nm) <==> named_before(ks, i + 1, nm) by {
            assert(lists(seen, nm) <==> named_before(ks, i as int, nm));
            if nm == ks[i as int].short_name@ {
                assert(named_before(ks, i + 1, nm));
            }
            if named_before(ks, i + 1, nm) {
                let j = choose|j: int| 0 <= j < i + 1 && ks[j].short_name@ == nm;
                if j < i {
                    assert(named_before(ks, i as int, nm));
                }
            }
            if named_before(ks, i as int, nm) {
                let j = choose|j: int| 0 <= j < i && ks[j].short_name@ == nm;
                assert(0 <= j < i + 1 && ks[j].short_name@ == nm);
            }
        }
        i = i + 1;
    }
    assert forall|nm: Seq<char>| #[trigger] lists(out@, nm) <==> has_name(ks, nm) by {
        assert(lists(out@, nm) <==> named_before(ks, ks.len() as int, nm));
    }
    out
}

/// Groups the events by kernel name, then by rank, each rank's launches stably sorted
/// by start time. Names come in byte order; ranks in increasing order.
pub fn group_by_name_and_rank(kernels: &Vec<KernelEvent>) -> (gs: Vec<NameGroup>)
    ensures
        grouping_ok(kernels@, gs@),
{
    let ghost ks = kernels@;
    let names = distinct_names(kernels);
    let mut gs: Vec<NameGroup> = Vec::new();
    let mut a: usize = 0;
    while a < names.len()
        invariant
            a <= names@.len(),
            ks == kernels@,
            gs@.len() == a,
            forall|x: int| 0 <= x < a ==> (#[trigger] gs@[x]).name@ == names@[x]@,
            forall|x: int| 0 <= x < a ==> name_group_ok(ks, #[trigger] gs@[x]),
        decreases names.len() - a,
    {
        let g = build_name_group(kernels, &names[a]);
        gs.push(g);
        a = a + 1;
    }
    assert forall|nm: Seq<char>| #[trigger] has_group(gs@, nm) <==> has_name(ks, nm) by {
        assert(lists(names@, nm) <==> has_name(ks, nm));
        if has_group(gs@, nm) {
            let x = choose|x: int| 0 <= x < gs@.len() && gs@[x].name@ == nm;
            assert(names@[x]@ == nm);
        }
        if lists(names@, nm) {
            let x = choose|x: int| 0 <= x < names@.len() && names@[x]@ == nm;
            assert(gs@[x].name@ == nm);
        }
    }
    assert forall|x: int, y: int| 0 <= x < y < gs@.len() implies !name_lt(gs@[y].name@, gs@[x].name@)
        && gs@[x].name@ != gs@[y].name@ by {
        assert(gs@[x].name@ == names@[x]@ && gs@[y].name@ == names@[y]@);
    }
    gs
}

} // verus!
