//! The forest does not depend on the order in which a snapshot lists its
//! processes: reordering the snapshot only renames the nodes.
use crate::application::forest;
use crate::application::process::{
    index_of, lemma_reported_links_valid, pid_seq, reported_parent, reported_parents, tree_parents,
};
use crate::application::process::{build_outcome, lemma_depth_unique, lists_exactly, reaches};
use crate::application::sort_order::{lemma_precedes_order, pids_distinct, precedes, sorted_by};
use crate::domain::process::{ProcessId, ProcessInfo, ProcessSort, ProcessTree};
use vstd::prelude::*;

verus! {

/// Some position of `perm` holds `y`.
pub open spec fn covers(perm: Seq<int>, y: int) -> bool {
    exists|i: int| 0 <= i < perm.len() && #[trigger] perm[i] == y
}

/// `perm` is a bijection of `0..n`.
pub open spec fn is_permutation(perm: Seq<int>, n: int) -> bool {
    &&& perm.len() == n
    &&& forall|i: int| 0 <= i < n ==> 0 <= #[trigger] perm[i] < n
    &&& forall|i: int, j: int| 0 <= i < n && 0 <= j < n && i != j ==> perm[i] != perm[j]
    &&& forall|y: int| 0 <= y < n ==> #[trigger] covers(perm, y)
}

/// Renaming node `i` of `p2` to `perm[i]` gives `p1`.
pub open spec fn relabels(p2: Seq<Option<usize>>, p1: Seq<Option<usize>>, perm: Seq<int>) -> bool {
    &&& p2.len() == p1.len()
    &&& forall|i: int|
        0 <= i < p2.len() ==> p1[#[trigger] perm[i]] == match p2[i] {
            Some(a) => Some(perm[a as int] as usize),
            None => None,
        }
}

/// Chains follow the renaming.
pub proof fn lemma_follow_relabeled(p2: Seq<Option<usize>>, p1: Seq<Option<usize>>, perm: Seq<int>, i: int, k: nat)
    requires
        is_permutation(perm, p2.len() as int),
        p2.len() <= usize::MAX,
        relabels(p2, p1, perm),
        forest::links_valid(p2),
        0 <= i < p2.len(),
    ensures
        forest::follow(p1, perm[i], k) == match forest::follow(p2, i, k) {
            Some(a) => Some(perm[a]),
            None => None,
        },
    decreases k,
{
    if k > 0 {
        match p2[i] {
            Some(a) => {
                assert(p1[perm[i]] == Some(perm[a as int] as usize));
                lemma_follow_relabeled(p2, p1, perm, a as int, (k - 1) as nat);
            },
            None => {
                assert(p1[perm[i]] is None);
            },
        }
    } else {
        assert(forest::follow(p2, i, 0) == Some(i));
    }
}

/// Cycles, and the node at which each is cut, follow the renaming when the
/// identifiers do.
pub proof fn lemma_broken_relabeled(
    p2: Seq<Option<usize>>,
    p1: Seq<Option<usize>>,
    perm: Seq<int>,
    ids2: Seq<u32>,
    ids1: Seq<u32>,
)
    requires
        is_permutation(perm, p2.len() as int),
        p2.len() <= usize::MAX,
        relabels(p2, p1, perm),
        forest::links_valid(p2),
        ids2.len() == p2.len(),
        ids1.len() == p2.len(),
        forall|i: int| 0 <= i < p2.len() ==> ids2[i] == ids1[#[trigger] perm[i]],
    ensures
        relabels(forest::broken(p2, ids2), forest::broken(p1, ids1), perm),
{
    let b2 = forest::broken(p2, ids2);
    let b1 = forest::broken(p1, ids1);
    assert forall|i: int| 0 <= i < b2.len() implies b1[#[trigger] perm[i]] == match b2[i] {
        Some(a) => Some(perm[a as int] as usize),
        None => None,
    } by {
        let y = perm[i];
        assert(0 <= y < p2.len());
        // on_cycle follows the renaming
        if forest::on_cycle(p2, i) {
            let m = choose|m: nat| m >= 1 && #[trigger] forest::follow(p2, i, m) == Some(i);
            lemma_follow_relabeled(p2, p1, perm, i, m);
            assert(forest::follow(p1, y, m) == Some(y));
        }
        if forest::on_cycle(p1, y) {
            let m = choose|m: nat| m >= 1 && #[trigger] forest::follow(p1, y, m) == Some(y);
            lemma_follow_relabeled(p2, p1, perm, i, m);
            forest::lemma_follow_in_range(p2, i, m);
            assert(forest::follow(p2, i, m) is Some);
            let u = forest::follow(p2, i, m)->0;
            assert(perm[u] == perm[i]);
            assert(u == i);
        }
        // so does the smallest identifier along the chains
        if forest::cycle_min(p2, ids2, i) {
            assert forall|k: nat| (#[trigger] forest::follow(p1, y, k)) is Some implies ids1[forest::follow(p1, y, k)->0] >= ids1[y] by {
                lemma_follow_relabeled(p2, p1, perm, i, k);
                forest::lemma_follow_in_range(p2, i, k);
                let u = forest::follow(p2, i, k)->0;
                assert(forest::follow(p2, i, k) matches Some(uu) ==> ids2[uu] >= ids2[i]);
                assert(ids2[u] == ids1[perm[u]]);
            }
        }
        if forest::cycle_min(p1, ids1, y) {
            assert forall|k: nat| (#[trigger] forest::follow(p2, i, k)) is Some implies ids2[forest::follow(p2, i, k)->0] >= ids2[i] by {
                lemma_follow_relabeled(p2, p1, perm, i, k);
                forest::lemma_follow_in_range(p2, i, k);
                let u = forest::follow(p2, i, k)->0;
                assert(forest::follow(p1, y, k) == Some(perm[u]));
                assert(ids2[u] == ids1[perm[u]]);
            }
        }
    }
}

/// `qs` lists the processes of `procs` in another order: its `i`-th
/// process is `procs[perm[i]]`.
pub open spec fn reorders(qs: Seq<ProcessInfo>, procs: Seq<ProcessInfo>, perm: Seq<int>) -> bool {
    &&& qs.len() == procs.len()
    &&& is_permutation(perm, procs.len() as int)
    &&& forall|i: int| 0 <= i < qs.len() ==> qs[i] == procs[#[trigger] perm[i]]
}

/// With distinct PIDs, the lookup finds the one process with the PID.
proof fn lemma_index_of_unique(procs: Seq<ProcessInfo>, pid: u32, j: int)
    requires
        pids_distinct(procs),
        0 <= j < procs.len(),
        procs[j].pid.0 == pid,
    ensures
        index_of(procs, pid) == Some(j),
{
    let k = choose|k: int| 0 <= k < procs.len() && procs[k].pid.0 == pid;
    if k != j {
        assert(procs[k].pid != procs[j].pid);
    }
}

/// Reordering keeps PIDs distinct, and the reported links follow the
/// renaming.
proof fn lemma_reported_relabeled(qs: Seq<ProcessInfo>, procs: Seq<ProcessInfo>, perm: Seq<int>)
    requires
        reorders(qs, procs, perm),
        pids_distinct(procs),
        procs.len() <= usize::MAX,
    ensures
        pids_distinct(qs),
        relabels(reported_parents(qs), reported_parents(procs), perm),
{
    let n = procs.len() as int;
    assert forall|i: int, j: int| 0 <= i < qs.len() && 0 <= j < qs.len() && i != j implies qs[i].pid != qs[j].pid by {
        assert(perm[i] != perm[j]);
        assert(qs[i] == procs[perm[i]] && qs[j] == procs[perm[j]]);
    }
    let rq = reported_parents(qs);
    let rp = reported_parents(procs);
    assert forall|i: int| 0 <= i < rq.len() implies rp[#[trigger] perm[i]] == match rq[i] {
        Some(a) => Some(perm[a as int] as usize),
        None => None,
    } by {
        let y = perm[i];
        assert(qs[i] == procs[y]);
        assert(rq[i] == reported_parent(qs, i));
        assert(rp[y] == reported_parent(procs, y));
        if let Some(pp) = qs[i].parent_pid {
            if index_of(qs, pp.0) is Some {
                let j = choose|j: int| 0 <= j < qs.len() && qs[j].pid.0 == pp.0;
                lemma_index_of_unique(qs, pp.0, j);
                assert(qs[j] == procs[perm[j]]);
                lemma_index_of_unique(procs, pp.0, perm[j]);
                assert(j != i <==> perm[j] != perm[i]);
                assert(j as usize as int == j);
            } else {
                if exists|z: int| 0 <= z < procs.len() && procs[z].pid.0 == pp.0 {
                    let z = choose|z: int| 0 <= z < procs.len() && procs[z].pid.0 == pp.0;
                    assert(covers(perm, z));
                    let j = choose|j: int| 0 <= j < perm.len() && #[trigger] perm[j] == z;
                    assert(qs[j] == procs[z]);
                    assert(exists|jj: int| 0 <= jj < qs.len() && qs[jj].pid.0 == pp.0);
                }
            }
        }
    }
}

/// The tree's parent links follow the renaming.
pub proof fn lemma_tree_parents_relabeled(qs: Seq<ProcessInfo>, procs: Seq<ProcessInfo>, perm: Seq<int>)
    requires
        reorders(qs, procs, perm),
        pids_distinct(procs),
        procs.len() <= usize::MAX,
    ensures
        pids_distinct(qs),
        relabels(tree_parents(qs), tree_parents(procs), perm),
{
    lemma_reported_relabeled(qs, procs, perm);
    lemma_reported_links_valid(qs);
    assert forall|i: int| 0 <= i < qs.len() implies pid_seq(qs)[i] == pid_seq(procs)[#[trigger] perm[i]] by {
        assert(qs[i] == procs[perm[i]]);
    }
    lemma_broken_relabeled(reported_parents(qs), reported_parents(procs), perm, pid_seq(qs), pid_seq(procs));
}

/// Two sorted lists of the same indices are the same list.
proof fn lemma_sorted_unique(a: Seq<usize>, b: Seq<usize>, procs: Seq<ProcessInfo>, sort: ProcessSort)
    requires
        sorted_by(a, procs, sort),
        sorted_by(b, procs, sort),
        forall|i: int| 0 <= i < a.len() ==> (#[trigger] a[i]) < procs.len(),
        forall|i: int| 0 <= i < b.len() ==> (#[trigger] b[i]) < procs.len(),
        pids_distinct(procs),
        forall|x: usize| a.contains(x) <==> b.contains(x),
    ensures
        a == b,
    decreases a.len(),
{
    if a.len() == 0 {
        if b.len() > 0 {
            assert(b.contains(b[0]));
        }
        assert(a =~= b);
    } else {
        assert(a.contains(a[0]));
        assert(b.len() > 0);
        assert(b.contains(b[0]));
        let pa = procs[a[0] as int];
        let pb = procs[b[0] as int];
        lemma_precedes_order(pa, pb, pb, sort);
        if a[0] != b[0] {
            let q = choose|q: int| 0 <= q < b.len() && b[q] == a[0];
            let p = choose|p: int| 0 <= p < a.len() && a[p] == b[0];
            assert(q > 0 && p > 0);
            assert(precedes(procs[b[0] as int], procs[b[q] as int], sort));
            assert(precedes(procs[a[0] as int], procs[a[p] as int], sort));
        }
        let ta = a.drop_first();
        let tb = b.drop_first();
        assert forall|x: usize| ta.contains(x) <==> tb.contains(x) by {
            if ta.contains(x) {
                let k = choose|k: int| 0 <= k < ta.len() && ta[k] == x;
                assert(a[k + 1] == x);
                lemma_precedes_order(procs[a[0] as int], procs[a[0] as int], procs[a[0] as int], sort);
                assert(precedes(procs[a[0] as int], procs[a[k + 1] as int], sort));
                assert(x != a[0]);
                assert(b.contains(x));
                let m = choose|m: int| 0 <= m < b.len() && b[m] == x;
                assert(m != 0);
                assert(tb[m - 1] == x);
            }
            if tb.contains(x) {
                let k = choose|k: int| 0 <= k < tb.len() && tb[k] == x;
                assert(b[k + 1] == x);
                lemma_precedes_order(procs[b[0] as int], procs[b[0] as int], procs[b[0] as int], sort);
                assert(precedes(procs[b[0] as int], procs[b[k + 1] as int], sort));
                assert(x != b[0]);
                assert(a.contains(x));
                let m = choose|m: int| 0 <= m < a.len() && a[m] == x;
                assert(m != 0);
                assert(ta[m - 1] == x);
            }
        }
        assert forall|i: int, j: int| 0 <= i < j < ta.len() implies precedes(
            procs[#[trigger] ta[i] as int],
            procs[#[trigger] ta[j] as int],
            sort,
        ) by {
            assert(ta[i] == a[i + 1] && ta[j] == a[j + 1]);
        }
        assert forall|i: int, j: int| 0 <= i < j < tb.len() implies precedes(
            procs[#[trigger] tb[i] as int],
            procs[#[trigger] tb[j] as int],
            sort,
        ) by {
            assert(tb[i] == b[i + 1] && tb[j] == b[j + 1]);
        }
        assert forall|i: int| 0 <= i < ta.len() implies (#[trigger] ta[i]) < procs.len() by {
            assert(ta[i] == a[i + 1]);
        }
        assert forall|i: int| 0 <= i < tb.len() implies (#[trigger] tb[i]) < procs.len() by {
            assert(tb[i] == b[i + 1]);
        }
        lemma_sorted_unique(ta, tb, procs, sort);
        assert(a =~= seq![a[0]] + ta);
        assert(b =~= seq![b[0]] + tb);
    }
}

/// Each index renamed by `perm`.
pub open spec fn renamed(s: Seq<usize>, perm: Seq<int>) -> Seq<usize> {
    s.map_values(|x: usize| perm[x as int] as usize)
}

/// The PIDs of the processes at the indices of `list`.
pub open spec fn pids_at(list: Seq<usize>, procs: Seq<ProcessInfo>) -> Seq<u32> {
    list.map_values(|x: usize| procs[x as int].pid.0)
}

/// A sibling list of the reordered snapshot, renamed, is the sibling list
/// of the original snapshot that picks the renamed indices.
proof fn lemma_renamed_list(
    qs: Seq<ProcessInfo>,
    procs: Seq<ProcessInfo>,
    perm: Seq<int>,
    sort: ProcessSort,
    l2: Seq<usize>,
    l1: Seq<usize>,
    w2: spec_fn(usize) -> bool,
    w1: spec_fn(usize) -> bool,
)
    requires
        reorders(qs, procs, perm),
        pids_distinct(procs),
        procs.len() <= usize::MAX,
        lists_exactly(l2, qs, sort, w2),
        lists_exactly(l1, procs, sort, w1),
        forall|x: usize| x < procs.len() ==> (w2(x) <==> w1(#[trigger] perm[x as int] as usize)),
    ensures
        l1 == renamed(l2, perm),
{
    let n = procs.len();
    let r = renamed(l2, perm);
    assert forall|i: int| 0 <= i < l2.len() implies (#[trigger] l2[i]) < n by {
        assert(l2.contains(l2[i]));
    }
    assert forall|i: int| 0 <= i < l1.len() implies (#[trigger] l1[i]) < n by {
        assert(l1.contains(l1[i]));
    }
    assert forall|i: int| 0 <= i < r.len() implies (#[trigger] r[i]) < n && r[i] as int == perm[l2[i] as int] by {
        assert(0 <= perm[l2[i] as int] < n);
    }
    assert forall|i: int, j: int| 0 <= i < j < r.len() implies precedes(
        procs[#[trigger] r[i] as int],
        procs[#[trigger] r[j] as int],
        sort,
    ) by {
        assert(precedes(qs[l2[i] as int], qs[l2[j] as int], sort));
        assert(qs[l2[i] as int] == procs[perm[l2[i] as int]]);
        assert(qs[l2[j] as int] == procs[perm[l2[j] as int]]);
    }
    assert forall|y: usize| r.contains(y) <==> l1.contains(y) by {
        if r.contains(y) {
            let k = choose|k: int| 0 <= k < r.len() && r[k] == y;
            let x = l2[k];
            assert(l2.contains(x));
            assert(w2(x));
            assert(perm[x as int] as usize == y);
            assert(w1(y));
        }
        if l1.contains(y) {
            assert(y < n && w1(y));
            assert(covers(perm, y as int));
            let j = choose|j: int| 0 <= j < perm.len() && #[trigger] perm[j] == y as int;
            let x = j as usize;
            assert(x as int == j);
            assert(w1(perm[x as int] as usize));
            assert(w2(x));
            assert(l2.contains(x));
            let k = choose|k: int| 0 <= k < l2.len() && l2[k] == x;
            assert(r[k] == y);
        }
    }
    lemma_sorted_unique(r, l1, procs, sort);
}

/// The forest does not depend on the input order: built from a reordering
/// of the same processes, node `i` holds the process of node `perm[i]`,
/// with the same children (renamed), the same depth, and the same roots
/// (renamed); named by PID, roots and children lists are equal.
pub proof fn lemma_input_order_independent(
    procs: Seq<ProcessInfo>,
    qs: Seq<ProcessInfo>,
    perm: Seq<int>,
    root: Option<ProcessId>,
    sort: ProcessSort,
    t1: ProcessTree,
    t2: ProcessTree,
)
    requires
        reorders(qs, procs, perm),
        build_outcome(Ok(t1), procs, root, sort),
        build_outcome(Ok(t2), qs, root, sort),
    ensures
        t1.roots@ == renamed(t2.roots@, perm),
        pids_at(t2.roots@, qs) == pids_at(t1.roots@, procs),
        forall|i: int|
            0 <= i < qs.len() ==> {
                &&& (#[trigger] t2.nodes@[i]).process == t1.nodes@[perm[i]].process
                &&& t1.nodes@[perm[i]].children@ == renamed(t2.nodes@[i].children@, perm)
                &&& pids_at(t2.nodes@[i].children@, qs) == pids_at(t1.nodes@[perm[i]].children@, procs)
                &&& t2.nodes@[i].depth == t1.nodes@[perm[i]].depth
            },
{
    let n = procs.len();
    assert(t1.nodes@.len() == t1.nodes.len());
    assert(n <= usize::MAX);
    lemma_tree_parents_relabeled(qs, procs, perm);
    let par1 = tree_parents(procs);
    let par2 = tree_parents(qs);
    crate::application::process::lemma_tree_is_forest(qs);
    crate::application::process::lemma_tree_is_forest(procs);
    // renaming preserves the PID of every index
    assert forall|l: Seq<usize>| (forall|k: int| 0 <= k < l.len() ==> (#[trigger] l[k]) < n) implies #[trigger] pids_at(
        renamed(l, perm),
        procs,
    ) == pids_at(l, qs) by {
        assert forall|k: int| 0 <= k < l.len() implies pids_at(renamed(l, perm), procs)[k] == pids_at(l, qs)[k] by {
            assert(qs[l[k] as int] == procs[perm[l[k] as int]]);
            assert(0 <= perm[l[k] as int] < n);
        }
        assert(pids_at(renamed(l, perm), procs) =~= pids_at(l, qs));
    }
    // roots
    match root {
        None => {
            assert forall|x: usize| x < n implies ((par2[x as int] is None) <==> (par1[#[trigger] perm[x as int] as usize as int] is None)) by {
                assert(0 <= perm[x as int] < n);
                assert(perm[x as int] as usize as int == perm[x as int]);
            }
            lemma_renamed_list(
                qs,
                procs,
                perm,
                sort,
                t2.roots@,
                t1.roots@,
                |x: usize| par2[x as int] is None,
                |y: usize| par1[y as int] is None,
            );
        },
        Some(r) => {
            let j = index_of(qs, r.0)->0;
            assert(0 <= j < n) by {
                assert(exists|k: int| 0 <= k < qs.len() && qs[k].pid.0 == r.0);
            }
            assert(qs[j].pid.0 == r.0) by {
                assert(exists|k: int| 0 <= k < qs.len() && qs[k].pid.0 == r.0);
            }
            assert(qs[j] == procs[perm[j]]);
            lemma_index_of_unique(procs, r.0, perm[j]);
            assert(t1.roots@ =~= renamed(t2.roots@, perm));
        },
    }
    assert(forall|k: int| 0 <= k < t2.roots@.len() ==> (#[trigger] t2.roots@[k]) < n) by {
        assert forall|k: int| 0 <= k < t2.roots@.len() implies (#[trigger] t2.roots@[k]) < n by {
            crate::infrastructure::tree_layout::lemma_built_tree_is_shaped(qs, root, sort, t2);
        }
    }
    assert(pids_at(renamed(t2.roots@, perm), procs) == pids_at(t2.roots@, qs));
    // nodes
    assert forall|i: int| 0 <= i < qs.len() implies {
        &&& (#[trigger] t2.nodes@[i]).process == t1.nodes@[perm[i]].process
        &&& t1.nodes@[perm[i]].children@ == renamed(t2.nodes@[i].children@, perm)
        &&& pids_at(t2.nodes@[i].children@, qs) == pids_at(t1.nodes@[perm[i]].children@, procs)
        &&& t2.nodes@[i].depth == t1.nodes@[perm[i]].depth
    } by {
        let v = perm[i];
        assert(0 <= v < n);
        assert(t2.nodes@[i].process == qs[i]);
        assert(t1.nodes@[v].process == procs[v]);
        let c2 = t2.nodes@[i].children@;
        let c1 = t1.nodes@[v].children@;
        assert(lists_exactly(c2, qs, sort, |x: usize| par2[x as int] == Some(i as usize)));
        assert(lists_exactly(c1, procs, sort, |y: usize| par1[y as int] == Some(v as usize)));
        assert forall|x: usize| x < n implies ((par2[x as int] == Some(i as usize)) <==> (par1[#[trigger] perm[x as int] as usize as int] == Some(v as usize))) by {
            assert(0 <= perm[x as int] < n);
            assert(perm[x as int] as usize as int == perm[x as int]);
            if let Some(a) = par2[x as int] {
                assert(a < n);
                assert(0 <= perm[a as int] < n);
                if perm[a as int] == v {
                    assert(a as int == i);
                }
            }
        }
        lemma_renamed_list(
            qs,
            procs,
            perm,
            sort,
            c2,
            c1,
            |x: usize| par2[x as int] == Some(i as usize),
            |y: usize| par1[y as int] == Some(v as usize),
        );
        assert forall|k: int| 0 <= k < c2.len() implies (#[trigger] c2[k]) < n by {
            assert(c2.contains(c2[k]));
        }
        assert(pids_at(renamed(c2, perm), procs) == pids_at(c2, qs));
        // depth
        let d2 = t2.nodes@[i].depth;
        let d1 = t1.nodes@[v].depth;
        assert forall|k: nat| reaches(par2, t2.roots@, i, k) <==> #[trigger] reaches(par1, t1.roots@, v, k) by {
            lemma_follow_relabeled(par2, par1, perm, i, k);
            forest::lemma_follow_in_range(par2, i, k);
            if reaches(par2, t2.roots@, i, k) {
                let j = choose|j: int| 0 <= j < t2.roots@.len() && forest::follow(par2, i, k) == Some(#[trigger] t2.roots@[j] as int);
                assert(t1.roots@[j] as int == perm[t2.roots@[j] as int]);
                assert(forest::follow(par1, v, k) == Some(t1.roots@[j] as int));
            }
            if reaches(par1, t1.roots@, v, k) {
                let j = choose|j: int| 0 <= j < t1.roots@.len() && forest::follow(par1, v, k) == Some(#[trigger] t1.roots@[j] as int);
                assert(t1.roots@[j] as int == perm[t2.roots@[j] as int]);
                assert(t2.roots@[j] < n);
                let u = forest::follow(par2, i, k)->0;
                assert(perm[u] == perm[t2.roots@[j] as int]);
                assert(u == t2.roots@[j] as int);
                assert(forest::follow(par2, i, k) == Some(t2.roots@[j] as int));
            }
        }
        let dm2 = Seq::new(qs.len(), |x: int| t2.nodes@[x].depth);
        let dm1 = Seq::new(procs.len(), |x: int| t1.nodes@[x].depth);
        assert(dm2[i] == d2);
        assert(dm1[v] == d1);
        if exists|k: nat| reaches(par2, t2.roots@, i, k) {
            assert(reaches(par2, t2.roots@, i, d2 as nat));
            assert(reaches(par1, t1.roots@, v, d2 as nat));
            lemma_depth_unique(procs, root, sort, t1, v, d2 as nat);
        } else {
            assert(d2 == 0);
            if exists|k: nat| reaches(par1, t1.roots@, v, k) {
                let k = choose|k: nat| reaches(par1, t1.roots@, v, k);
                assert(reaches(par1, t1.roots@, v, k));
                assert(reaches(par2, t2.roots@, i, k));
            }
            assert(d1 == 0);
        }
    }
}

} // verus!
