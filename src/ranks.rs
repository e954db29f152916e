//! Kernel events, the set of ranks that launched them, and rank labels.
use vstd::prelude::*;
use vstd::string::*;
use crate::text::{signed_decimal, signed_text};

verus! {

/// One recorded execution of a device kernel.
pub struct KernelEvent {
    /// Start time in nanoseconds.
    pub start: i64,
    /// End time in nanoseconds.
    pub end: i64,
    /// The rank (global process id) that launched the kernel.
    pub global_pid: i64,
    /// The unqualified kernel name, the key events are aligned by.
    pub short_name: String,
    /// The fully resolved symbol name.
    pub demangled_name: String,
}

/// One row of process metadata: a rank, and its OS pid and process name where known.
pub struct ProcessRow {
    pub global_pid: i64,
    pub pid: Option<i64>,
    pub name: Option<String>,
}

/// Some event of `ks` was launched by rank `r`.
pub open spec fn has_rank(ks: Seq<KernelEvent>, r: i64) -> bool {
    exists|i: int| 0 <= i < ks.len() && ks[i].global_pid == r
}

/// `rs` is strictly increasing.
pub open spec fn strictly_increasing(rs: Seq<i64>) -> bool {
    forall|a: int, b: int| 0 <= a < b < rs.len() ==> rs[a] < rs[b]
}

/// `rs` lists, in increasing order, each rank that launched an event of `ks`.
pub open spec fn is_rank_order(ks: Seq<KernelEvent>, rs: Seq<i64>) -> bool {
    &&& strictly_increasing(rs)
    &&& forall|r: i64| rs.contains(r) <==> has_rank(ks, r)
}

/// Inserts `p` into a strictly increasing vector unless it is already there.
pub fn insert_rank(out: &mut Vec<i64>, p: i64)
    requires
        strictly_increasing(old(out)@),
    ensures
        strictly_increasing(final(out)@),
        forall|r: i64| final(out)@.contains(r) <==> (old(out)@.contains(r) || r == p),
{
    let mut k: usize = 0;
    while k < out.len() && out[k] < p
        invariant
            k <= out.len(),
            out@ == old(out)@,
            forall|a: int| 0 <= a < k ==> out@[a] < p,
        decreases out.len() - k,
    {
        k = k + 1;
    }
    if k < out.len() && out[k] == p {
        assert(out@.contains(p));
        assert forall|r: i64| out@.contains(r) <==> (old(out)@.contains(r) || r == p) by {}
    } else {
        let ghost before = out@;
        out.insert(k, p);
        assert forall|r: i64| out@.contains(r) <==> (before.contains(r) || r == p) by {
            if out@.contains(r) {
                let x = choose|x: int| 0 <= x < out@.len() && out@[x] == r;
                if x < k {
                    assert(before[x] == r);
                } else if x > k {
                    assert(before[x - 1] == r);
                }
            }
            if before.contains(r) {
                let x = choose|x: int| 0 <= x < before.len() && before[x] == r;
                if x < k {
                    assert(out@[x] == r);
                } else {
                    assert(out@[x + 1] == r);
                }
            }
            if r == p {
                assert(out@[k as int] == r);
            }
        }
    }
}

/// The distinct ranks of the events, smallest first: the rank order of the report.
pub fn distinct_ranks(kernels: &Vec<KernelEvent>) -> (r: Vec<i64>)
    ensures
        is_rank_order(kernels@, r@),
{
    let mut out: Vec<i64> = Vec::new();
    let mut i: usize = 0;
    while i < kernels.len()
        invariant
            i <= kernels.len(),
            strictly_increasing(out@),
            forall|r: i64|
                out@.contains(r) <==> exists|j: int| 0 <= j < i && kernels@[j].global_pid == r,
        decreases kernels.len() - i,
    {
        let p = kernels[i].global_pid;
        let ghost seen = out@;
        insert_rank(&mut out, p);
        assert forall|r: i64|
            out@.contains(r) <==> exists|j: int| 0 <= j < i + 1 && kernels@[j].global_pid == r by {
            if r == p {
                assert(kernels@[i as int].global_pid == r);
            }
            if exists|j: int| 0 <= j < i + 1 && kernels@[j].global_pid == r {
                let j = choose|j: int| 0 <= j < i + 1 && kernels@[j].global_pid == r;
                if j < i {
                    assert(seen.contains(r));
                }
            }
            if seen.contains(r) {
                let j = choose|j: int| 0 <= j < i && kernels@[j].global_pid == r;
                assert(0 <= j < i + 1 && kernels@[j].global_pid == r);
            }
        }
        i = i + 1;
    }
    out
}

/// The label of a rank with no process metadata: `rank <id>`.
pub open spec fn synthetic_label(r: i64) -> Seq<char> {
    seq!['r', 'a', 'n', 'k', ' '] + signed_decimal(r as int)
}

/// The label a metadata row gives its rank: `pid P (name)`, `pid P`, `name`, or the
/// synthetic label when neither is known.
pub open spec fn row_label(row: ProcessRow) -> Seq<char> {
    match (row.pid, row.name) {
        (Some(p), Some(n)) => seq!['p', 'i', 'd', ' '] + signed_decimal(p as int) + seq![' ', '(']
            + n@ + seq![')'],
        (Some(p), None) => seq!['p', 'i', 'd', ' '] + signed_decimal(p as int),
        (None, Some(n)) => n@,
        (None, None) => synthetic_label(row.global_pid),
    }
}

/// The label of rank `r`: that of the last metadata row for it, else the synthetic one.
pub open spec fn label_of(rows: Seq<ProcessRow>, r: i64) -> Seq<char>
    decreases rows.len(),
{
    if rows.len() == 0 {
        synthetic_label(r)
    } else if rows.last().global_pid == r {
        row_label(rows.last())
    } else {
        label_of(rows.drop_last(), r)
    }
}

/// Renders the synthetic label of a rank.
pub fn synthetic_label_text(r: i64) -> (s: String)
    ensures
        s@ == synthetic_label(r),
{
    proof {
        reveal_strlit("rank ");
    }
    let mut s = String::from_str("rank ");
    let d = signed_text(r as i128);
    s.append(d.as_str());
    s
}

/// Renders the label that one metadata row gives its rank.
pub fn row_label_text(row: &ProcessRow) -> (s: String)
    ensures
        s@ == row_label(*row),
{
    proof {
        reveal_strlit("pid ");
        reveal_strlit(" (");
        reveal_strlit(")");
    }
    match (row.pid, &row.name) {
        (Some(p), Some(n)) => {
            let mut s = String::from_str("pid ");
            let d = signed_text(p as i128);
            s.append(d.as_str());
            s.append(" (");
            s.append(n.as_str());
            s.append(")");
            s
        },
        (Some(p), None) => {
            let mut s = String::from_str("pid ");
            let d = signed_text(p as i128);
            s.append(d.as_str());
            s
        },
        (None, Some(n)) => n.clone(),
        (None, None) => synthetic_label_text(row.global_pid),
    }
}

/// Resolves the display label of a rank from the process metadata rows; a later row
/// for the same rank overrides an earlier one.
pub fn rank_label(rows: &Vec<ProcessRow>, rank: i64) -> (s: String)
    ensures
        s@ == label_of(rows@, rank),
{
    let mut k: usize = rows.len();
    assert(rows@.subrange(0, k as int) =~= rows@);
    while k > 0
        invariant
            k <= rows.len(),
            label_of(rows@, rank) == label_of(rows@.subrange(0, k as int), rank),
        decreases k,
    {
        let ghost pre = rows@.subrange(0, k as int);
        assert(pre.drop_last() =~= rows@.subrange(0, k - 1));
        if rows[k - 1].global_pid == rank {
            return row_label_text(&rows[k - 1]);
        }
        k = k - 1;
    }
    assert(rows@.subrange(0, 0) =~= Seq::<ProcessRow>::empty());
    synthetic_label_text(rank)
}

} // verus!
