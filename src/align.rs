//! Positional alignment of kernel launches across ranks, and skew statistics.
use vstd::prelude::*;
use crate::ranks::{KernelEvent, is_rank_order, distinct_ranks};
use crate::order::name_lt;
use crate::group::{
    NameGroup, name_group_ok, grouping_ok, launches_of, lemma_rank_group_count, launched_by, rank_group_ok, has_name, has_group,
    group_by_name_and_rank,
};

verus! {

/// The launch of one rank within an occurrence.
pub struct RankLaunch {
    pub rank: i64,
    /// Position of the event in the event list.
    pub position: usize,
    pub start: i64,
    pub end: i64,
    /// How much later than the earliest rank this rank started, in nanoseconds.
    pub offset: u64,
    /// `end - start`, in nanoseconds.
    pub duration: i128,
}

/// The `index`-th launch of one kernel on every rank, one entry per rank in rank order.
pub struct Occurrence {
    pub index: usize,
    pub earliest: i64,
    pub latest: i64,
    /// `latest - earliest`, in nanoseconds.
    pub skew: u64,
    /// The skew reaches the reporting threshold.
    pub slow: bool,
    pub launches: Vec<RankLaunch>,
}

/// The aligned occurrences of one kernel name and their aggregate statistics.
pub struct KernelReport {
    pub name: String,
    pub total_launches: usize,
    pub slow_launches: usize,
    pub total_skew: u128,
    pub total_slow_skew: u128,
    pub occurrences: Vec<Occurrence>,
}

/// The chronological launches of rank `r` in group `g`.
pub open spec fn rank_positions(g: NameGroup, r: i64) -> Seq<usize> {
    let a = choose|a: int| 0 <= a < g.per_rank@.len() && g.per_rank@[a].rank == r;
    g.per_rank@[a].positions@
}

/// Every rank of `ranks` launched kernel `name` at least once.
pub open spec fn on_every_rank(ks: Seq<KernelEvent>, name: Seq<char>, ranks: Seq<i64>) -> bool {
    forall|j: int| 0 <= j < ranks.len() ==> launched_by(ks, name, #[trigger] ranks[j])
}

/// A skew of `skew` nanoseconds reaches a threshold of `threshold_us` microseconds.
pub open spec fn reaches(skew: int, threshold_us: int) -> bool {
    skew >= threshold_us * 1000
}

/// `o` pairs the `idx`-th launch of group `g` on each rank of `ranks`.
pub open spec fn occurrence_ok(
    ks: Seq<KernelEvent>,
    g: NameGroup,
    ranks: Seq<i64>,
    threshold_us: int,
    idx: int,
    o: Occurrence,
) -> bool {
    &&& o.index == idx
    &&& o.launches@.len() == ranks.len()
    &&& forall|j: int|
        0 <= j < ranks.len() ==> {
            let l = #[trigger] o.launches@[j];
            &&& l.rank == ranks[j]
            &&& l.position == rank_positions(g, ranks[j])[idx]
            &&& l.start == ks[l.position as int].start
            &&& l.end == ks[l.position as int].end
            &&& o.earliest <= l.start <= o.latest
            &&& l.offset == l.start - o.earliest
            &&& l.duration == l.end - l.start
        }
    &&& exists|j: int| 0 <= j < ranks.len() && o.launches@[j].start == o.earliest
    &&& exists|j: int| 0 <= j < ranks.len() && o.launches@[j].start == o.latest
    &&& o.skew == o.latest - o.earliest
    &&& o.slow == reaches(o.skew as int, threshold_us)
}

/// Sum of the skews of `os`.
pub open spec fn skew_sum(os: Seq<Occurrence>) -> int
    decreases os.len(),
{
    if os.len() == 0 {
        0
    } else {
        skew_sum(os.drop_last()) + os.last().skew
    }
}

/// Sum of the skews of the slow occurrences of `os`.
pub open spec fn slow_skew_sum(os: Seq<Occurrence>) -> int
    decreases os.len(),
{
    if os.len() == 0 {
        0
    } else {
        slow_skew_sum(os.drop_last()) + if os.last().slow {
            os.last().skew as int
        } else {
            0
        }
    }
}

/// Number of slow occurrences of `os`.
pub open spec fn slow_count(os: Seq<Occurrence>) -> int
    decreases os.len(),
{
    if os.len() == 0 {
        0
    } else {
        slow_count(os.drop_last()) + if os.last().slow {
            1int
        } else {
            0
        }
    }
}

/// `n` is the least number of launches of group `g` over the ranks of `ranks`.
pub open spec fn is_min_launches(g: NameGroup, ranks: Seq<i64>, n: int) -> bool {
    &&& forall|j: int| 0 <= j < ranks.len() ==> n <= rank_positions(g, #[trigger] ranks[j]).len()
    &&& exists|j: int| 0 <= j < ranks.len() && n == rank_positions(g, ranks[j]).len()
}

/// `rep` aligns group `g` over `ranks`: one occurrence per index below the least
/// launch count, with the totals of their skews.
pub open spec fn report_ok(
    ks: Seq<KernelEvent>,
    g: NameGroup,
    ranks: Seq<i64>,
    threshold_us: int,
    rep: KernelReport,
) -> bool {
    let os = rep.occurrences@;
    &&& ranks.len() > 0
    &&& on_every_rank(ks, g.name@, ranks)
    &&& rep.name@ == g.name@
    &&& is_min_launches(g, ranks, rep.total_launches as int)
    &&& os.len() == rep.total_launches
    &&& forall|i: int| 0 <= i < os.len() ==> occurrence_ok(ks, g, ranks, threshold_us, i, #[trigger] os[i])
    &&& rep.slow_launches == slow_count(os)
    &&& rep.total_skew == skew_sum(os)
    &&& rep.total_slow_skew == slow_skew_sum(os)
}

/// Within a group whose ranks increase, a rank's launches are those of its own entry.
pub proof fn lemma_rank_positions(g: NameGroup, a: int)
    requires
        0 <= a < g.per_rank@.len(),
        forall|x: int, y: int|
            0 <= x < y < g.per_rank@.len() ==> g.per_rank@[x].rank < g.per_rank@[y].rank,
    ensures
        rank_positions(g, g.per_rank@[a].rank) == g.per_rank@[a].positions@,
{
    let r = g.per_rank@[a].rank;
    let b = choose|b: int| 0 <= b < g.per_rank@.len() && g.per_rank@[b].rank == r;
    assert(b == a);
}

/// Pairs the `idx`-th launch of every rank; `cols[j]` is the entry of rank `ranks[j]`.
fn make_occurrence(
    kernels: &Vec<KernelEvent>,
    g: &NameGroup,
    ranks: &Vec<i64>,
    cols: &Vec<usize>,
    idx: usize,
    threshold_us: i64,
) -> (o: Occurrence)
    requires
        name_group_ok(kernels@, *g),
        ranks@.len() > 0,
        cols@.len() == ranks@.len(),
        forall|j: int| 0 <= j < cols@.len() ==> {
            &&& (#[trigger] cols@[j]) < g.per_rank@.len()
            &&& g.per_rank@[cols@[j] as int].rank == ranks@[j]
            &&& idx < g.per_rank@[cols@[j] as int].positions@.len()
        },
    ensures
        occurrence_ok(kernels@, *g, ranks@, threshold_us as int, idx as int, o),
{
    let ghost ks = kernels@;
    assert forall|j: int| 0 <= j < cols@.len() implies
        rank_positions(*g, ranks@[j]) == g.per_rank@[cols@[j] as int].positions@
        && (#[trigger] g.per_rank@[cols@[j] as int].positions@[idx as int]) < ks.len() by {
        lemma_rank_positions(*g, cols@[j] as int);
        let rg = g.per_rank@[cols@[j] as int];
        assert(rank_group_ok(ks, g.name@, rg));
        assert(rg.positions@.contains(rg.positions@[idx as int]));
    }
    let p0 = g.per_rank[cols[0]].positions[idx];
    let mut earliest: i64 = kernels[p0].start;
    let mut latest: i64 = earliest;
    let mut j: usize = 1;
    while j < ranks.len()
        invariant
            1 <= j <= ranks@.len(),
            ks == kernels@,
            cols@.len() == ranks@.len(),
            forall|x: int| 0 <= x < cols@.len() ==> {
                &&& (#[trigger] cols@[x]) < g.per_rank@.len()
                &&& idx < g.per_rank@[cols@[x] as int].positions@.len()
                &&& g.per_rank@[cols@[x] as int].positions@[idx as int] < ks.len()
            },
            forall|x: int| 0 <= x < j ==> {
                let s = ks[g.per_rank@[(#[trigger] cols@[x]) as int].positions@[idx as int] as int].start;
                earliest <= s <= latest
            },
            exists|x: int| 0 <= x < j && ks[g.per_rank@[cols@[x] as int].positions@[idx as int] as int].start == earliest,
            exists|x: int| 0 <= x < j && ks[g.per_rank@[cols@[x] as int].positions@[idx as int] as int].start == latest,
        decreases ranks.len() - j,
    {
        let p = g.per_rank[cols[j]].positions[idx];
        let s = kernels[p].start;
        if s < earliest {
            earliest = s;
        }
        if s > latest {
            latest = s;
        }
        j = j + 1;
    }
    let mut launches: Vec<RankLaunch> = Vec::new();
    let mut j: usize = 0;
    while j < ranks.len()
        invariant
            j <= ranks@.len(),
            ks == kernels@,
            cols@.len() == ranks@.len(),
            launches@.len() == j,
            forall|x: int| 0 <= x < cols@.len() ==> {
                &&& (#[trigger] cols@[x]) < g.per_rank@.len()
                &&& idx < g.per_rank@[cols@[x] as int].positions@.len()
                &&& g.per_rank@[cols@[x] as int].positions@[idx as int] < ks.len()
            },
            forall|x: int| 0 <= x < cols@.len() ==> {
                let s = ks[g.per_rank@[(#[trigger] cols@[x]) as int].positions@[idx as int] as int].start;
                earliest <= s <= latest
            },
            forall|x: int| 0 <= x < j ==> {
                let l = #[trigger] launches@[x];
                &&& l.rank == ranks@[x]
                &&& l.position == g.per_rank@[cols@[x] as int].positions@[idx as int]
                &&& l.start == ks[l.position as int].start
                &&& l.end == ks[l.position as int].end
                &&& l.offset == l.start - earliest
                &&& l.duration == l.end - l.start
            },
        decreases ranks.len() - j,
    {
        let p = g.per_rank[cols[j]].positions[idx];
        let start = kernels[p].start;
        let end = kernels[p].end;
        let offset = (start as i128 - earliest as i128) as u64;
        let duration = end as i128 - start as i128;
        launches.push(RankLaunch { rank: ranks[j], position: p, start, end, offset, duration });
        j = j + 1;
    }
    let skew = (latest as i128 - earliest as i128) as u64;
    let slow = (skew as i128) >= (threshold_us as i128) * 1000;
    let o = Occurrence { index: idx, earliest, latest, skew, slow, launches };
    assert forall|j: int| 0 <= j < ranks@.len() implies
        o.earliest <= (#[trigger] o.launches@[j]).start <= o.latest by {
        assert(cols@[j] < g.per_rank@.len());
    }
    let ghost x = choose|x: int| 0 <= x < cols@.len() && ks[g.per_rank@[cols@[x] as int].positions@[idx as int] as int].start == earliest;
    assert(o.launches@[x].start == o.earliest);
    let ghost y = choose|y: int| 0 <= y < cols@.len() && ks[g.per_rank@[cols@[y] as int].positions@[idx as int] as int].start == latest;
    assert(o.launches@[y].start == o.latest);
    o
}

/// Aligns the launches of one kernel name across `ranks`. Gives `None` when some rank
/// never launched it (or there are no ranks); otherwise the occurrences up to the least
/// launch count over the ranks, with skew totals against `threshold_us` microseconds.
pub fn align_kernel(
    kernels: &Vec<KernelEvent>,
    g: &NameGroup,
    ranks: &Vec<i64>,
    threshold_us: i64,
) -> (r: Option<KernelReport>)
    requires
        name_group_ok(kernels@, *g),
        is_rank_order(kernels@, ranks@),
    ensures
        r is Some <==> (ranks@.len() > 0 && on_every_rank(kernels@, g.name@, ranks@)),
        r matches Some(rep) ==> report_ok(kernels@, *g, ranks@, threshold_us as int, rep),
{
    let ghost ks = kernels@;
    if ranks.len() == 0 {
        return None;
    }
    let mut cols: Vec<usize> = Vec::new();
    let mut j: usize = 0;
    while j < ranks.len()
        invariant
            j <= ranks@.len(),
            cols@.len() == j,
            ks == kernels@,
            name_group_ok(ks, *g),
            forall|x: int| 0 <= x < j ==> {
                &&& (#[trigger] cols@[x]) < g.per_rank@.len()
                &&& g.per_rank@[cols@[x] as int].rank == ranks@[x]
            },
            forall|x: int| 0 <= x < j ==> launched_by(ks, g.name@, #[trigger] ranks@[x]),
        decreases ranks.len() - j,
    {
        let r = ranks[j];
        let mut a: usize = 0;
        while a < g.per_rank.len() && g.per_rank[a].rank != r
            invariant
                a <= g.per_rank@.len(),
                forall|b: int| 0 <= b < a ==> g.per_rank@[b].rank != r,
            decreases g.per_rank.len() - a,
        {
            a = a + 1;
        }
        if a == g.per_rank.len() {
            assert(!launched_by(ks, g.name@, ranks@[j as int]));
            return None;
        }
        cols.push(a);
        j = j + 1;
    }
    assert(on_every_rank(ks, g.name@, ranks@));
    assert forall|x: int| 0 <= x < cols@.len() implies
        rank_positions(*g, ranks@[x]) == g.per_rank@[(#[trigger] cols@[x]) as int].positions@ by {
        lemma_rank_positions(*g, cols@[x] as int);
    }
    let mut min_len: usize = g.per_rank[cols[0]].positions.len();
    let ghost mut at: int = 0;
    let mut j: usize = 1;
    while j < cols.len()
        invariant
            1 <= j <= cols@.len(),
            cols@.len() == ranks@.len(),
            forall|x: int| 0 <= x < cols@.len() ==> (#[trigger] cols@[x]) < g.per_rank@.len(),
            forall|x: int| 0 <= x < j ==>
                min_len <= g.per_rank@[(#[trigger] cols@[x]) as int].positions@.len(),
            0 <= at < j,
            min_len == g.per_rank@[cols@[at] as int].positions@.len(),
        decreases cols.len() - j,
    {
        let n = g.per_rank[cols[j]].positions.len();
        if n < min_len {
            min_len = n;
            proof {
                at = j as int;
            }
        }
        j = j + 1;
    }
    let mut occurrences: Vec<Occurrence> = Vec::new();
    let mut slow_launches: usize = 0;
    let mut total_skew: u128 = 0;
    let mut total_slow_skew: u128 = 0;
    let mut idx: usize = 0;
    while idx < min_len
        invariant
            idx <= min_len,
            ks == kernels@,
            name_group_ok(ks, *g),
            ranks@.len() > 0,
            cols@.len() == ranks@.len(),
            forall|x: int| 0 <= x < cols@.len() ==> {
                &&& (#[trigger] cols@[x]) < g.per_rank@.len()
                &&& g.per_rank@[cols@[x] as int].rank == ranks@[x]
                &&& min_len <= g.per_rank@[cols@[x] as int].positions@.len()
            },
            occurrences@.len() == idx,
            forall|i: int| 0 <= i < idx ==>
                occurrence_ok(ks, *g, ranks@, threshold_us as int, i, #[trigger] occurrences@[i]),
            slow_launches == slow_count(occurrences@),
            total_skew == skew_sum(occurrences@),
            total_slow_skew == slow_skew_sum(occurrences@),
            slow_launches <= idx,
            total_slow_skew <= total_skew,
            total_skew <= idx * 0xffff_ffff_ffff_ffffu128,
        decreases min_len - idx,
    {
        let o = make_occurrence(kernels, g, ranks, &cols, idx, threshold_us);
        let skew = o.skew;
        let slow = o.slow;
        proof {
            let m: int = 0xffff_ffff_ffff_ffff;
            assert(total_skew + skew <= (idx + 1) * m) by (nonlinear_arith)
                requires
                    total_skew <= idx * m,
                    skew <= m,
            ;
            assert((idx + 1) * m <= 0xffff_ffff_ffff_ffff_ffff_ffff_ffff_ffffu128) by (nonlinear_arith)
                requires
                    idx + 1 <= 0x1_0000_0000_0000_0000int,
                    m == 0xffff_ffff_ffff_ffff,
            ;
        }
        let ghost before = occurrences@;
        occurrences.push(o);
        assert(occurrences@.drop_last() =~= before);
        total_skew = total_skew + skew as u128;
        if slow {
            slow_launches = slow_launches + 1;
            total_slow_skew = total_slow_skew + skew as u128;
        }
        idx = idx + 1;
    }
    let rep = KernelReport {
        name: g.name.clone(),
        total_launches: min_len,
        slow_launches,
        total_skew,
        total_slow_skew,
        occurrences,
    };
    assert(is_min_launches(*g, ranks@, min_len as int)) by {
        assert(rank_positions(*g, ranks@[at]) == g.per_rank@[cols@[at] as int].positions@);
        assert forall|x: int| 0 <= x < ranks@.len() implies min_len <= rank_positions(
            *g,
            #[trigger] ranks@[x],
        ).len() by {
            assert(rank_positions(*g, ranks@[x]) == g.per_rank@[cols@[x] as int].positions@);
        }
    }
    Some(rep)
}

/// The launch count of rank `r` in group `g` is the number of its launches of the kernel.
proof fn lemma_rank_positions_count(ks: Seq<KernelEvent>, g: NameGroup, r: i64)
    requires
        name_group_ok(ks, g),
        launched_by(ks, g.name@, r),
    ensures
        launches_of(ks, g.name@, r).finite(),
        rank_positions(g, r).len() == launches_of(ks, g.name@, r).len(),
{
    let a = choose|a: int| 0 <= a < g.per_rank@.len() && g.per_rank@[a].rank == r;
    lemma_rank_positions(g, a);
    assert(rank_group_ok(ks, g.name@, g.per_rank@[a]));
    lemma_rank_group_count(ks, g.name@, g.per_rank@[a]);
}

/// A kernel's number of aligned launches is the least, over the ranks, of the number
/// of launches of that kernel by the rank; launches beyond it on other ranks are left out.
pub proof fn lemma_total_launches_is_least_count(
    ks: Seq<KernelEvent>,
    g: NameGroup,
    ranks: Seq<i64>,
    threshold_us: int,
    rep: KernelReport,
)
    requires
        name_group_ok(ks, g),
        report_ok(ks, g, ranks, threshold_us, rep),
    ensures
        forall|j: int| 0 <= j < ranks.len() ==>
            rep.total_launches <= (#[trigger] launches_of(ks, g.name@, ranks[j])).len(),
        exists|j: int| 0 <= j < ranks.len() && rep.total_launches == launches_of(ks, g.name@, ranks[j]).len(),
{
    assert forall|j: int| 0 <= j < ranks.len() implies
        rep.total_launches <= (#[trigger] launches_of(ks, g.name@, ranks[j])).len() by {
        assert(launched_by(ks, g.name@, ranks[j]));
        lemma_rank_positions_count(ks, g, ranks[j]);
    }
    let j = choose|j: int| 0 <= j < ranks.len() && rep.total_launches == rank_positions(g, ranks[j]).len();
    assert(launched_by(ks, g.name@, ranks[j]));
    lemma_rank_positions_count(ks, g, ranks[j]);
}

/// The skew of an occurrence is never negative, and a rank that started earliest has
/// offset zero: exactly those ranks have it.
pub proof fn lemma_skew_nonnegative_earliest_offset_zero(
    ks: Seq<KernelEvent>,
    g: NameGroup,
    ranks: Seq<i64>,
    threshold_us: int,
    idx: int,
    o: Occurrence,
)
    requires
        occurrence_ok(ks, g, ranks, threshold_us, idx, o),
    ensures
        o.skew == o.latest - o.earliest >= 0,
        exists|j: int| 0 <= j < o.launches@.len() && o.launches@[j].offset == 0,
        forall|j: int| 0 <= j < o.launches@.len() ==>
            (#[trigger] o.launches@[j].offset == 0 <==> o.launches@[j].start == o.earliest),
{
    let j = choose|j: int| 0 <= j < ranks.len() && o.launches@[j].start == o.earliest;
    assert(o.launches@[j].offset == 0);
}

/// Every occurrence counts as slow when all do.
proof fn lemma_slow_count_all(os: Seq<Occurrence>)
    requires
        forall|i: int| 0 <= i < os.len() ==> (#[trigger] os[i]).slow,
    ensures
        slow_count(os) == os.len(),
        slow_skew_sum(os) == skew_sum(os),
    decreases os.len(),
{
    if os.len() > 0 {
        let d = os.drop_last();
        assert forall|i: int| 0 <= i < d.len() implies (#[trigger] d[i]).slow by {
            assert(d[i] == os[i]);
        }
        lemma_slow_count_all(d);
        assert(os.last() == os[os.len() - 1]);
    }
}

/// An occurrence is slow exactly when its skew in nanoseconds reaches the threshold
/// times 1000; with a threshold of zero every occurrence is slow, so the slow count and
/// slow skew equal the totals.
pub proof fn lemma_slow_threshold(ks: Seq<KernelEvent>, g: NameGroup, ranks: Seq<i64>, rep: KernelReport, threshold_us: int)
    requires
        report_ok(ks, g, ranks, threshold_us, rep),
    ensures
        forall|i: int| 0 <= i < rep.occurrences@.len() ==>
            ((#[trigger] rep.occurrences@[i]).slow <==> rep.occurrences@[i].skew >= threshold_us * 1000),
        threshold_us == 0 ==> rep.slow_launches == rep.total_launches,
        threshold_us == 0 ==> rep.total_slow_skew == rep.total_skew,
{
    let os = rep.occurrences@;
    assert forall|i: int| 0 <= i < os.len() implies
        ((#[trigger] os[i]).slow <==> os[i].skew >= threshold_us * 1000) by {
        assert(occurrence_ok(ks, g, ranks, threshold_us, i, os[i]));
    }
    if threshold_us == 0 {
        assert forall|i: int| 0 <= i < os.len() implies (#[trigger] os[i]).slow by {
            assert(occurrence_ok(ks, g, ranks, threshold_us, i, os[i]));
        }
        lemma_slow_count_all(os);
    }
}

/// The share of slow occurrences, in hundredths of a percent, halves rounded up.
pub fn slow_percentage(slow_launches: usize, total_launches: usize) -> (r: u128)
    requires
        total_launches > 0,
    ensures
        r == (slow_launches * 10000 + total_launches / 2) / total_launches as int,
{
    ((slow_launches as u128) * 10000 + (total_launches as u128) / 2) / (total_launches as u128)
}

/// The result of one analysis: the ranks in report order, and the report of each
/// kernel name that every rank launched.
pub struct Analysis {
    pub ranks: Vec<i64>,
    pub kernels: Vec<KernelReport>,
}

/// `rep` is the alignment of some grouping of the launches of its kernel name.
pub open spec fn aligned(ks: Seq<KernelEvent>, ranks: Seq<i64>, threshold_us: int, rep: KernelReport) -> bool {
    exists|g: NameGroup|
        name_group_ok(ks, g) && report_ok(ks, g, ranks, threshold_us, rep)
}

/// Some report of `reps` is for kernel `name`.
pub open spec fn reported(reps: Seq<KernelReport>, name: Seq<char>) -> bool {
    exists|k: int| 0 <= k < reps.len() && reps[k].name@ == name
}

/// Runs the whole alignment: resolves the ranks, groups the launches, and reports each
/// kernel name that every rank launched, in byte order of the names.
pub fn analyze(kernels: &Vec<KernelEvent>, threshold_us: i64) -> (a: Analysis)
    ensures
        is_rank_order(kernels@, a.ranks@),
        forall|name: Seq<char>| #[trigger]
            reported(a.kernels@, name) <==> (has_name(kernels@, name) && on_every_rank(
                kernels@,
                name,
                a.ranks@,
            )),
        forall|k: int| 0 <= k < a.kernels@.len() ==>
            aligned(kernels@, a.ranks@, threshold_us as int, #[trigger] a.kernels@[k]),
        forall|x: int, y: int| #![trigger a.kernels@[x], a.kernels@[y]] 0 <= x < y < a.kernels@.len() ==>
            !name_lt(a.kernels@[y].name@, a.kernels@[x].name@)
            && a.kernels@[x].name@ != a.kernels@[y].name@,
{
    let ghost ks = kernels@;
    let ranks = distinct_ranks(kernels);
    let groups = group_by_name_and_rank(kernels);
    let mut reps: Vec<KernelReport> = Vec::new();
    let mut a: usize = 0;
    while a < groups.len()
        invariant
            a <= groups@.len(),
            ks == kernels@,
            is_rank_order(ks, ranks@),
            grouping_ok(ks, groups@),
            forall|k: int| 0 <= k < reps@.len() ==>
                aligned(ks, ranks@, threshold_us as int, #[trigger] reps@[k]),
            forall|x: int, y: int| #![trigger reps@[x], reps@[y]] 0 <= x < y < reps@.len() ==>
                !name_lt(reps@[y].name@, reps@[x].name@)
                && reps@[x].name@ != reps@[y].name@,
            forall|name: Seq<char>| #[trigger]
                reported(reps@, name) <==> (has_group(groups@.subrange(0, a as int), name)
                    && ranks@.len() > 0 && on_every_rank(ks, name, ranks@)),
        decreases groups.len() - a,
    {
        let ghost before = reps@;
        let g = &groups[a];
        assert(name_group_ok(ks, *g));
        let r = align_kernel(kernels, g, &ranks, threshold_us);
        match r {
            Some(rep) => {
                reps.push(rep);
                assert forall|x: int, y: int| #![trigger reps@[x], reps@[y]] 0 <= x < y < reps@.len() implies
                    !name_lt(reps@[y].name@, reps@[x].name@)
                    && reps@[x].name@ != reps@[y].name@ by {
                    if y == before.len() {
                        let nm = before[x].name@;
                        assert(reported(before, nm));
                        let s0 = groups@.subrange(0, a as int);
                        let b = choose|b: int| 0 <= b < s0.len() && s0[b].name@ == nm;
                        assert(groups@[b].name@ == nm);
                        assert(reps@[y].name@ == groups@[a as int].name@);
                        assert(groups@[b].name@ != groups@[a as int].name@);
                        assert(!name_lt(groups@[a as int].name@, groups@[b].name@));
                    } else {
                        assert(reps@[x] == before[x] && reps@[y] == before[y]);
                        assert(before[x].name@ != before[y].name@);
                    }
                }
            },
            None => {},
        }
        assert forall|name: Seq<char>| #[trigger]
            reported(reps@, name) <==> (has_group(groups@.subrange(0, a + 1), name)
                && ranks@.len() > 0 && on_every_rank(ks, name, ranks@)) by {
            let s1 = groups@.subrange(0, a + 1);
            let s0 = groups@.subrange(0, a as int);
            if has_group(s1, name) {
                let b = choose|b: int| 0 <= b < s1.len() && s1[b].name@ == name;
                if b < a {
                    assert(s0[b].name@ == name);
                }
            }
            if has_group(s0, name) {
                let b = choose|b: int| 0 <= b < s0.len() && s0[b].name@ == name;
                assert(s1[b].name@ == name);
            }
            if reported(reps@, name) {
                let k = choose|k: int| 0 <= k < reps@.len() && reps@[k].name@ == name;
                if k < before.len() {
                    assert(reported(before, name));
                }
            }
            if reported(before, name) {
                let k = choose|k: int| 0 <= k < before.len() && before[k].name@ == name;
                assert(reps@[k].name@ == name);
            }
            if r is Some && name == g.name@ {
                assert(reps@[before.len() as int].name@ == name);
            }
            if name == g.name@ {
                assert(s1[a as int].name@ == name);
            }
            assert(reported(before, name) <==> (has_group(s0, name) && ranks@.len() > 0
                && on_every_rank(ks, name, ranks@)));
            if r is None {
                assert(reps@ == before);
            }
        }
        a = a + 1;
    }
    assert(groups@.subrange(0, groups@.len() as int) =~= groups@);
    assert forall|name: Seq<char>| #[trigger]
        reported(reps@, name) <==> (has_name(ks, name) && on_every_rank(ks, name, ranks@)) by {
        assert(has_group(groups@, name) <==> has_name(ks, name));
        if has_name(ks, name) {
            let i = choose|i: int| 0 <= i < ks.len() && ks[i].short_name@ == name;
            assert(ranks@.contains(ks[i].global_pid));
        }
    }
    Analysis { ranks, kernels: reps }
}

} // verus!
