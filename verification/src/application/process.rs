//! Builds the process forest: an index by PID, parent links with cycles cut
//! at their smallest PID, sorted children and roots, and depths.
use crate::application::forest;
use crate::application::sort_order;
use std::collections::HashMap;
use crate::domain::process::{
    ProcessError, ProcessId, ProcessInfo, ProcessNode, ProcessRepository, ProcessSort, ProcessTree,
};
use vstd::prelude::*;

verus! {

/// The PIDs of a snapshot, in input order.
pub open spec fn pid_seq(procs: Seq<ProcessInfo>) -> Seq<u32> {
    Seq::new(procs.len(), |i: int| procs[i].pid.0)
}

/// Each vertex enters and leaves the path once, including vertices in cycles.
pub fn break_cycles(parents: &mut Vec<Option<usize>>, processes: &Vec<ProcessInfo>)
    requires
        old(parents)@.len() == processes@.len(),
        forest::links_valid(old(parents)@),
        forest::distinct_ids(pid_seq(processes@)),
    ensures
        final(parents)@ == forest::broken(old(parents)@, pid_seq(processes@)),
{
    let ghost p0 = parents@;
    let ghost ids = pid_seq(processes@);
    let ghost b = forest::broken(p0, ids);
    let n = parents.len();
    let mut state: Vec<u8> = Vec::new();
    let mut z: usize = 0;
    while z < n
        invariant
            z <= n,
            state@.len() == z,
            forall|v: int| 0 <= v < z ==> state@[v] == 0,
        decreases n - z,
    {
        state.push(0);
        z += 1;
    }
    let mut path: Vec<usize> = Vec::new();
    for start in 0..n
        invariant
            n == p0.len(),
            ids == pid_seq(processes@),
            ids.len() == n,
            forest::distinct_ids(ids),
            forest::links_valid(p0),
            b == forest::broken(p0, ids),
            parents@.len() == n,
            state@.len() == n,
            path@.len() == 0,
            forall|v: int| 0 <= v < n ==> (#[trigger] state@[v] == 0 || state@[v] == 2),
            forall|v: int| 0 <= v < n && #[trigger] state@[v] == 2 ==> parents@[v] == b[v],
            forall|v: int| 0 <= v < n && #[trigger] state@[v] == 0 ==> parents@[v] == p0[v],
            forest::done_closed(p0, state@),
            forall|v: int| 0 <= v < start ==> #[trigger] state@[v] == 2,
    {
        let mut current: Option<usize> = Some(start);
        loop
            invariant_except_break
                forall|v: int| 0 <= v < n && #[trigger] state@[v] == 1 ==> parents@[v] == p0[v],
            invariant
                n == p0.len(),
                ids == pid_seq(processes@),
                ids.len() == n,
                forest::distinct_ids(ids),
                forest::links_valid(p0),
                b == forest::broken(p0, ids),
                parents@.len() == n,
                state@.len() == n,
                0 <= start < n,
                forest::walk_of(p0, start as int, path@),
                path@.no_duplicates(),
                forall|j: int| 0 <= j < path@.len() ==> (#[trigger] path@[j]) < n,
                forest::follow(p0, start as int, path@.len()) == match current {
                    Some(c) => Some(c as int),
                    None => None,
                },
                forall|v: int| 0 <= v < n ==> (#[trigger] state@[v] == 1 <==> path@.contains(v as usize)),
                forall|v: int| 0 <= v < n ==> (#[trigger] state@[v] == 0 || state@[v] == 1 || state@[v] == 2),
                forall|v: int| 0 <= v < n && #[trigger] state@[v] == 2 ==> parents@[v] == b[v],
                forall|v: int| 0 <= v < n && #[trigger] state@[v] == 0 ==> parents@[v] == p0[v],
                forest::done_closed(p0, state@),
                forall|v: int| 0 <= v < start ==> #[trigger] state@[v] == 2,
            ensures
                n == p0.len(),
                parents@.len() == n,
                state@.len() == n,
                path@.no_duplicates(),
                forall|j: int| 0 <= j < path@.len() ==> (#[trigger] path@[j]) < n,
                forall|v: int| 0 <= v < n ==> (#[trigger] state@[v] == 1 <==> path@.contains(v as usize)),
                forall|v: int| 0 <= v < n ==> (#[trigger] state@[v] == 0 || state@[v] == 1 || state@[v] == 2),
                forall|v: int| 0 <= v < n && #[trigger] state@[v] != 0 ==> parents@[v] == b[v],
                forall|v: int| 0 <= v < n && #[trigger] state@[v] == 0 ==> parents@[v] == p0[v],
                forall|v: int|
                    0 <= v < n && #[trigger] state@[v] != 0 && p0[v] is Some ==> state@[p0[v]->0 as int] != 0,
                forall|v: int| 0 <= v < start ==> #[trigger] state@[v] == 2,
                state@[start as int] != 0,
            decreases n - path@.len(),
        {
            let i = match current {
                Some(i) => i,
                None => {
                    proof {
                        assert forall|j: int| 0 <= j < path@.len() implies !forest::on_cycle(p0, #[trigger] path@[j] as int) by {
                            forest::lemma_walk_off_cycle(p0, state@, start as int, path@, j);
                        }
                        lemma_walk_exit(p0, state@, start as int, path@);
                    }
                    break;
                },
            };
            proof {
                forest::lemma_follow_in_range(p0, start as int, path@.len());
            }
            if state[i] != 0 {
                if state[i] == 1 {
                    proof {
                        assert forall|j: int| 0 <= j < path@.len() implies parents@[#[trigger] path@[j] as int]
                            == p0[path@[j] as int] by {
                            assert(path@.contains(path@[j]));
                            assert(state@[path@[j] as int] == 1);
                        }
                        assert(path@.contains(i)) by {
                            assert(state@[i as int] == 1);
                        }
                    }
                    cut_cycle(parents, processes, &path, i, Ghost(start as int), Ghost(p0));
                } else {
                    proof {
                        assert forall|j: int| 0 <= j < path@.len() implies !forest::on_cycle(p0, #[trigger] path@[j] as int) by {
                            forest::lemma_walk_off_cycle(p0, state@, start as int, path@, j);
                        }
                    }
                }
                proof {
                    lemma_walk_exit(p0, state@, start as int, path@);
                }
                break;
            }
            let ghost old_path = path@;
            proof {
                assert(!path@.contains(i));
            }
            state.set(i, 1);
            path.push(i);
            current = parents[i];
            proof {
                forest::lemma_follow_succ(p0, start as int, (path@.len() - 1) as nat);
                assert(forest::walk_of(p0, start as int, path@));
                assert forall|v: int| 0 <= v < n implies (#[trigger] state@[v] == 1 <==> path@.contains(v as usize)) by {
                    if old_path.contains(v as usize) {
                        let j = choose|j: int| 0 <= j < old_path.len() && old_path[j] == v as usize;
                        assert(path@[j] == v as usize);
                    }
                    if path@.contains(v as usize) {
                        let j = choose|j: int| 0 <= j < path@.len() && path@[j] == v as usize;
                        if j < old_path.len() {
                            assert(old_path[j] == v as usize);
                        }
                    }
                    if v == i as int {
                        assert(path@[old_path.len() as int] == v as usize);
                    }
                }
                forest::lemma_distinct_bounded(path@, n as int);
            }
        }
        let ghost s1 = state@;
        let mut t: usize = 0;
        while t < path.len()
            invariant
                0 <= t <= path@.len(),
                state@.len() == n,
                s1.len() == n,
                forall|j: int| 0 <= j < path@.len() ==> (#[trigger] path@[j]) < n,
                forall|v: int|
                    0 <= v < n ==> #[trigger] state@[v] == (if exists|j: int| 0 <= j < t && #[trigger] path@[j] == v as usize {
                        2u8
                    } else {
                        s1[v]
                    }),
            decreases path@.len() - t,
        {
            state.set(path[t], 2);
            t += 1;
        }
        proof {
            assert forall|v: int| 0 <= v < n && #[trigger] state@[v] == 2 implies parents@[v] == b[v] by {
                assert(s1[v] != 0);
            }
            assert forall|v: int|
                0 <= v < n && #[trigger] state@[v] == 2 && p0[v] is Some implies state@[p0[v]->0 as int] == 2 by {
                let u = p0[v]->0 as int;
                assert(s1[v] != 0);
                assert(0 <= u < n);
                assert(s1[u] != 0);
                if path@.contains(u as usize) {
                    let j = choose|j: int| 0 <= j < path@.len() && path@[j] == u as usize;
                    assert(state@[u] == 2);
                } else {
                    assert(s1[u] != 1);
                    assert(s1[u] == 2);
                    assert(state@[u] == s1[u]);
                }
            }
        }
        path.clear();
    }
    proof {
        assert forall|v: int| 0 <= v < n implies parents@[v] == b[v] by {
            assert(state@[v] == 2);
        }
        assert(parents@ =~= b);
    }
}

/// When a walk stops, every node it marked leads to a marked or finished node.
proof fn lemma_walk_exit(p0: Seq<Option<usize>>, state: Seq<u8>, start: int, path: Seq<usize>)
    requires
        forest::links_valid(p0),
        p0.len() <= usize::MAX,
        forall|j: int| 0 <= j < path.len() ==> (#[trigger] path[j]) < p0.len(),
        forall|v: int| 0 <= v < p0.len() ==> (#[trigger] state[v] == 0 || state[v] == 1 || state[v] == 2),
        state.len() == p0.len(),
        0 <= start < p0.len(),
        forest::walk_of(p0, start, path),
        forall|v: int| 0 <= v < p0.len() ==> (#[trigger] state[v] == 1 <==> path.contains(v as usize)),
        forest::done_closed(p0, state),
        match forest::follow(p0, start, path.len()) {
            Some(x) => state[x] != 0,
            None => true,
        },
    ensures
        forall|v: int|
            0 <= v < p0.len() && #[trigger] state[v] != 0 && p0[v] is Some ==> state[p0[v]->0 as int] != 0,
        state[start] != 0,
{
    assert forall|v: int|
        0 <= v < p0.len() && #[trigger] state[v] != 0 && p0[v] is Some implies state[p0[v]->0 as int] != 0 by {
        if state[v] == 1 {
            assert(path.contains(v as usize));
            let j = choose|j: int| 0 <= j < path.len() && path[j] == v as usize;
            assert(path[j] as int == v);
            forest::lemma_walk_link(p0, start, path, j);
            let u = p0[v]->0 as int;
            assert(forest::follow(p0, start, (j + 1) as nat) == Some(u));
            if j + 1 < path.len() {
                assert(forest::follow(p0, start, (j + 1) as nat) == Some(path[j + 1] as int));
                assert(path.contains(path[j + 1]));
                assert(path[j + 1] as int == u);
                assert(state[u] == 1);
            } else {
                assert(j + 1 == path.len());
            }
        } else {
            assert(state[v] == 2);
        }
    }
    if path.len() == 0 {
        assert(forest::follow(p0, start, 0) == Some(start));
    } else {
        assert(forest::follow(p0, start, 0) == Some(path[0] as int));
        assert(path.contains(path[0]));
    }
}


/// Cuts the cycle the walk has just closed: the link out of its node with the
/// smallest PID is removed, the other links of the walk are left as they are.
fn cut_cycle(
    parents: &mut Vec<Option<usize>>,
    processes: &Vec<ProcessInfo>,
    path: &Vec<usize>,
    i: usize,
    Ghost(start): Ghost<int>,
    Ghost(p0): Ghost<Seq<Option<usize>>>,
)
    requires
        p0.len() == processes@.len(),
        old(parents)@.len() == p0.len(),
        forest::links_valid(p0),
        forest::distinct_ids(pid_seq(processes@)),
        0 <= start < p0.len(),
        forest::walk_of(p0, start, path@),
        path@.no_duplicates(),
        forall|j: int| 0 <= j < path@.len() ==> (#[trigger] path@[j]) < p0.len(),
        forall|j: int| 0 <= j < path@.len() ==> old(parents)@[#[trigger] path@[j] as int] == p0[path@[j] as int],
        forest::follow(p0, start, path@.len()) == Some(i as int),
        path@.contains(i),
    ensures
        final(parents)@.len() == old(parents)@.len(),
        forall|v: int|
            0 <= v < p0.len() && !path@.contains(v as usize) ==> #[trigger] final(parents)@[v] == old(parents)@[v],
        forall|j: int|
            0 <= j < path@.len() ==> final(parents)@[#[trigger] path@[j] as int] == forest::broken(
                p0,
                pid_seq(processes@),
            )[path@[j] as int],
{
    let ghost ids = pid_seq(processes@);
    let ghost k = choose|k: int| 0 <= k < path@.len() && path@[k] == i;
    let ghost m: nat = (path@.len() - k) as nat;
    proof {
        forest::lemma_walk_into_itself(p0, start, path@, k);
    }
    let mut smallest = i;
    let mut next = parents[i];
    let ghost mut t: nat = 1;
    let ghost mut s: nat = 0;
    proof {
        forest::lemma_follow_succ(p0, i as int, 0);
        assert(forest::follow(p0, i as int, 0) == Some(i as int));
    }
    loop
        invariant
            p0.len() == processes@.len(),
            parents@ == old(parents)@,
            parents@.len() == p0.len(),
            forest::links_valid(p0),
            ids == pid_seq(processes@),
            0 <= k < path@.len(),
            path@[k] == i,
            m == path@.len() - k,
            forall|j: int| 0 <= j < path@.len() ==> (#[trigger] path@[j]) < p0.len(),
            forall|j: int| 0 <= j < path@.len() ==> parents@[#[trigger] path@[j] as int] == p0[path@[j] as int],
            path@.no_duplicates(),
            forest::follow(p0, i as int, m) == Some(i as int),
            forall|tt: nat| tt < m ==> #[trigger] forest::follow(p0, i as int, tt) == Some(path@[k + tt] as int),
            1 <= t <= m,
            s < t,
            forest::follow(p0, i as int, t) == match next {
                Some(x) => Some(x as int),
                None => None,
            },
            forest::follow(p0, i as int, s) == Some(smallest as int),
            forall|r: nat| r < t ==> ids[(#[trigger] forest::follow(p0, i as int, r))->0] >= ids[forest::follow(p0, i as int, s)->0],
        ensures
            t == m,
            s < m,
            forest::follow(p0, i as int, s) == Some(smallest as int),
            forall|r: nat| r < m ==> ids[(#[trigger] forest::follow(p0, i as int, r))->0] >= ids[forest::follow(p0, i as int, s)->0],
        decreases m - t,
    {
        let j = match next {
            Some(j) => j,
            None => {
                proof {
                    if t < m {
                        assert(forest::follow(p0, i as int, t) == Some(path@[k + t] as int));
                    }
                }
                break;
            },
        };
        if j == i {
            proof {
                if t < m {
                    assert(forest::follow(p0, i as int, t) == Some(path@[k + t] as int));
                    assert(path@[k + t] == path@[k]);
                }
            }
            break;
        }
        proof {
            assert(t < m);
            assert(j == path@[k + t]);
        }
        if processes[j].pid.0 < processes[smallest].pid.0 {
            smallest = j;
            proof {
                s = t;
            }
        }
        next = parents[j];
        proof {
            forest::lemma_follow_succ(p0, i as int, t);
            t = t + 1;
        }
    }
    parents.set(smallest, None);
    proof {
        assert forall|j: int| 0 <= j < path@.len() implies parents@[#[trigger] path@[j] as int] == forest::broken(
            p0,
            ids,
        )[path@[j] as int] by {
            if j < k {
                assert(!forest::on_cycle(p0, path@[j] as int));
            } else {
                let tt = (j - k) as nat;
                assert(forest::follow(p0, i as int, tt) == Some(path@[k + tt] as int));
                forest::lemma_cycle_min_unique(p0, ids, i as int, m, s, tt);
            }
        }
    }
}


/// Following `k` links from `v` lands on one of `roots`.
pub open spec fn reaches(par: Seq<Option<usize>>, roots: Seq<usize>, v: int, k: nat) -> bool {
    exists|j: int| 0 <= j < roots.len() && forest::follow(par, v, k) == Some(#[trigger] roots[j] as int)
}

/// No root lies below another root (or below itself).
pub open spec fn roots_independent(par: Seq<Option<usize>>, roots: Seq<usize>) -> bool {
    forall|a: int, k: nat|
        0 <= a < roots.len() && k >= 1 ==> !#[trigger] reaches(par, roots, roots[a] as int, k)
}

/// The children lists hold exactly the nodes whose link points to them.
pub open spec fn children_match(children: Seq<Vec<usize>>, par: Seq<Option<usize>>) -> bool {
    &&& children.len() == par.len()
    &&& forall|v: int| 0 <= v < children.len() ==> (#[trigger] children[v])@.no_duplicates()
    &&& forall|v: int, x: usize|
        0 <= v < children.len() ==> (#[trigger] children[v]@.contains(x) <==> (x < par.len() && par[x as int]
            == Some(v as usize)))
}

/// `depth[v]` is the number of links from `v` to the root it hangs below, or
/// 0 when it hangs below none of `roots`.
pub open spec fn depths_match(depth: Seq<usize>, par: Seq<Option<usize>>, roots: Seq<usize>) -> bool {
    &&& depth.len() == par.len()
    &&& forall|v: int|
        0 <= v < depth.len() ==> if exists|k: nat| reaches(par, roots, v, k) {
            reaches(par, roots, v, #[trigger] depth[v] as nat)
        } else {
            depth[v] == 0
        }
}

/// Node `x` waits on the traversal stack.
pub open spec fn on_stack(stack: Seq<(usize, usize)>, x: int) -> bool {
    exists|a: int| 0 <= a < stack.len() && (#[trigger] stack[a]).0 == x
}

/// Everything below a root is reached from it when the popped nodes are
/// exactly the roots and the children of popped nodes.
proof fn lemma_all_reached(par: Seq<Option<usize>>, roots: Seq<usize>, popped: Set<int>, v: int, k: nat)
    requires
        forest::links_valid(par),
        0 <= v < par.len(),
        forall|x: int|
            0 <= x < par.len() ==> (#[trigger] popped.contains(x) <==> (roots.contains(x as usize) || (
            par[x] is Some && popped.contains(par[x]->0 as int)))),
        reaches(par, roots, v, k),
    ensures
        popped.contains(v),
    decreases k,
{
    if k == 0 {
        let j = choose|j: int| 0 <= j < roots.len() && forest::follow(par, v, k) == Some(#[trigger] roots[j] as int);
        assert(roots[j] as int == v);
        assert(roots.contains(v as usize));
    } else {
        let u = par[v]->0 as int;
        let j = choose|j: int| 0 <= j < roots.len() && forest::follow(par, v, k) == Some(#[trigger] roots[j] as int);
        assert(forest::follow(par, u, (k - 1) as nat) == Some(roots[j] as int));
        assert(reaches(par, roots, u, (k - 1) as nat));
        lemma_all_reached(par, roots, popped, u, (k - 1) as nat);
    }
}

/// Depth-first traversal from the roots: each node below a root gets its distance to it.
fn depths_of(children: &Vec<Vec<usize>>, roots: &Vec<usize>, Ghost(par): Ghost<Seq<Option<usize>>>) -> (depth: Vec<usize>)
    requires
        forest::links_valid(par),
        children_match(children@, par),
        roots@.no_duplicates(),
        forall|j: int| 0 <= j < roots@.len() ==> (#[trigger] roots@[j]) < par.len(),
        roots_independent(par, roots@),
    ensures
        depths_match(depth@, par, roots@),
{
    let n = children.len();
    let mut depth: Vec<usize> = Vec::new();
    let mut z: usize = 0;
    while z < n
        invariant
            z <= n,
            depth@.len() == z,
            forall|v: int| 0 <= v < z ==> depth@[v] == 0,
        decreases n - z,
    {
        depth.push(0);
        z += 1;
    }
    let mut stack: Vec<(usize, usize)> = Vec::new();
    let mut r: usize = 0;
    while r < roots.len()
        invariant
            r <= roots@.len(),
            roots@.no_duplicates(),
            stack@.len() == r,
            forall|a: int| 0 <= a < r ==> #[trigger] stack@[a] == (roots@[a], 0usize),
        decreases roots@.len() - r,
    {
        stack.push((roots[r], 0));
        r += 1;
    }
    let ghost mut popped: Set<int> = Set::empty();
    proof {
        vstd::set_lib::lemma_int_range(0, n as int);
        assert forall|x: int| 0 <= x < n implies (on_stack(stack@, x) <==> roots@.contains(x as usize)) by {
            if on_stack(stack@, x) {
                let a = choose|a: int| 0 <= a < stack@.len() && (#[trigger] stack@[a]).0 == x;
                assert(stack@[a] == (roots@[a], 0usize));
            }
            if roots@.contains(x as usize) {
                let a = choose|a: int| 0 <= a < roots@.len() && roots@[a] == x as usize;
                assert(stack@[a] == (roots@[a], 0usize));
            }
        }
        assert forall|a: int| 0 <= a < stack@.len() implies {
            let (x, d) = #[trigger] stack@[a];
            reaches(par, roots@, x as int, d as nat)
        } by {
            assert(stack@[a] == (roots@[a], 0usize));
            assert(forest::follow(par, roots@[a] as int, 0) == Some(roots@[a] as int));
        }
    }
    while stack.len() > 0
        invariant
            n == par.len(),
            n == children@.len(),
            depth@.len() == n,
            forest::links_valid(par),
            children_match(children@, par),
            roots@.no_duplicates(),
            forall|j: int| 0 <= j < roots@.len() ==> (#[trigger] roots@[j]) < n,
            roots_independent(par, roots@),
            popped.subset_of(vstd::set_lib::set_int_range(0, n as int)),
            vstd::set_lib::set_int_range(0, n as int).finite(),
            vstd::set_lib::set_int_range(0, n as int).len() == n,
            forall|a: int, b: int|
                0 <= a < b < stack@.len() ==> (#[trigger] stack@[a]).0 != (#[trigger] stack@[b]).0,
            forall|a: int|
                0 <= a < stack@.len() ==> {
                    let (x, d) = #[trigger] stack@[a];
                    &&& x < n
                    &&& !popped.contains(x as int)
                    &&& reaches(par, roots@, x as int, d as nat)
                    &&& d <= popped.len()
                },
            forall|x: int|
                #![trigger popped.contains(x)]
                #![trigger on_stack(stack@, x)]
                0 <= x < n ==> ((popped.contains(x) || on_stack(stack@, x)) <==> (roots@.contains(x as usize) || (
                par[x] is Some && popped.contains(par[x]->0 as int)))),
            forall|x: int|
                0 <= x < n ==> if popped.contains(x) {
                    reaches(par, roots@, x, #[trigger] depth@[x] as nat)
                } else {
                    depth@[x] == 0
                },
        decreases n - popped.len(),
    {
        let ghost old_stack = stack@;
        let ghost old_popped = popped;
        let (i, d) = stack.pop().unwrap();
        proof {
            vstd::set_lib::lemma_len_subset(popped, vstd::set_lib::set_int_range(0, n as int));
            assert(old_stack[old_stack.len() - 1] == (i, d));
            assert forall|a: int| 0 <= a < stack@.len() implies #[trigger] stack@[a] == old_stack[a] by {}
            popped = popped.insert(i as int);
            vstd::set_lib::lemma_len_subset(popped, vstd::set_lib::set_int_range(0, n as int));
        }
        depth.set(i, d);
        let kids = &children[i];
        let mut c: usize = 0;
        while c < kids.len()
            invariant
                n == par.len(),
                n == children@.len(),
                depth@.len() == n,
                forest::links_valid(par),
                children_match(children@, par),
                kids@ == children@[i as int]@,
                i < n,
                0 <= c <= kids@.len(),
                popped == old_popped.insert(i as int),
                !old_popped.contains(i as int),
                reaches(par, roots@, i as int, d as nat),
                d + 1 <= popped.len() <= n,
                roots_independent(par, roots@),
                old_stack.len() >= 1,
                stack@.len() >= old_stack.len() - 1,
                forall|a: int| 0 <= a < old_stack.len() - 1 ==> #[trigger] stack@[a] == old_stack[a],
                forall|a: int|
                    old_stack.len() - 1 <= a < stack@.len() ==> #[trigger] stack@[a] == (kids@[a - (old_stack.len() - 1)], (d + 1) as usize),
                stack@.len() == old_stack.len() - 1 + c,
            decreases kids@.len() - c,
        {
            let ghost prev = stack@;
            stack.push((kids[c], d + 1));
            proof {
                assert forall|a: int|
                    old_stack.len() - 1 <= a < stack@.len() implies #[trigger] stack@[a] == (kids@[a - (old_stack.len() - 1)], (d + 1) as usize) by {
                    if a < stack@.len() - 1 {
                        assert(stack@[a] == prev[a]);
                    }
                }
            }
            c += 1;
        }
        proof {
            let base = old_stack.len() - 1;
            assert forall|q: int| 0 <= q < kids@.len() implies {
                &&& !old_popped.contains(#[trigger] kids@[q] as int)
                &&& forall|a: int| 0 <= a < old_stack.len() ==> old_stack[a].0 != kids@[q]
                &&& par[kids@[q] as int] == Some(i)
                &&& kids@[q] < n
                &&& reaches(par, roots@, kids@[q] as int, (d + 1) as nat)
            } by {
                let x = kids@[q];
                assert(children@[i as int]@.contains(x));
                let j = choose|j: int| 0 <= j < roots@.len() && forest::follow(par, i as int, d as nat) == Some(#[trigger] roots@[j] as int);
                assert(forest::follow(par, x as int, (d + 1) as nat) == Some(roots@[j] as int));
                assert(reaches(par, roots@, x as int, (d + 1) as nat));
                if roots@.contains(x) {
                    let a = choose|a: int| 0 <= a < roots@.len() && roots@[a] == x;
                    assert(!reaches(par, roots@, roots@[a] as int, (d + 1) as nat));
                }
                assert forall|a: int| 0 <= a < old_stack.len() implies old_stack[a].0 != x by {
                    if old_stack[a].0 == x {
                        if a < base {
                            assert(stack@[a] == old_stack[a]);
                        }
                    }
                }
            }
            assert forall|a: int, b: int|
                0 <= a < b < stack@.len() implies (#[trigger] stack@[a]).0 != (#[trigger] stack@[b]).0 by {
                if b < base {
                    assert(stack@[a] == old_stack[a] && stack@[b] == old_stack[b]);
                } else if a < base {
                    assert(stack@[a] == old_stack[a]);
                    assert(stack@[b].0 == kids@[b - base]);
                } else {
                    assert(stack@[a].0 == kids@[a - base] && stack@[b].0 == kids@[b - base]);
                }
            }
            assert forall|a: int|
                0 <= a < stack@.len() implies {
                    let (x, dd) = #[trigger] stack@[a];
                    &&& x < n
                    &&& !popped.contains(x as int)
                    &&& reaches(par, roots@, x as int, dd as nat)
                    &&& dd <= popped.len()
                } by {
                if a < base {
                    assert(stack@[a] == old_stack[a]);
                    assert(old_stack[a].0 != old_stack[base].0);
                } else {
                    assert(stack@[a] == (kids@[a - base], (d + 1) as usize));
                    assert(old_stack[base].0 == i);
                }
            }
            assert forall|x: int| 0 <= x < n implies ((popped.contains(x) || on_stack(stack@, x)) <==> (roots@.contains(
                x as usize) || (par[x] is Some && popped.contains(par[x]->0 as int)))) by {
                // what held before this step
                assert((old_popped.contains(x) || on_stack(old_stack, x)) <==> (roots@.contains(x as usize) || (
                par[x] is Some && old_popped.contains(par[x]->0 as int))));
                assert(on_stack(old_stack, i as int)) by {
                    assert(old_stack[base].0 == i);
                }
                assert((old_popped.contains(i as int) || on_stack(old_stack, i as int)) <==> (roots@.contains(i)
                    || (par[i as int] is Some && old_popped.contains(par[i as int]->0 as int))));
                if on_stack(old_stack, x) && x != i as int {
                    let a = choose|a: int| 0 <= a < old_stack.len() && (#[trigger] old_stack[a]).0 == x;
                    assert(a != base);
                    assert(stack@[a] == old_stack[a]);
                    assert(on_stack(stack@, x));
                }
                if on_stack(stack@, x) {
                    let a = choose|a: int| 0 <= a < stack@.len() && (#[trigger] stack@[a]).0 == x;
                    if a < base {
                        assert(stack@[a] == old_stack[a]);
                        assert(on_stack(old_stack, x));
                    } else {
                        assert(kids@[a - base] == x as usize);
                        assert(children@[i as int]@.contains(x as usize));
                    }
                }
                if par[x] is Some && par[x]->0 == i {
                    assert(children@[i as int]@.contains(x as usize));
                    let q = choose|q: int| 0 <= q < kids@.len() && kids@[q] == x as usize;
                    assert(stack@[base + q].0 == x);
                    assert(on_stack(stack@, x));
                }
            }
        }
    }
    proof {
        assert forall|v: int| 0 <= v < n implies (if exists|k: nat| reaches(par, roots@, v, k) {
            reaches(par, roots@, v, #[trigger] depth@[v] as nat)
        } else {
            depth@[v] == 0
        }) by {
            if exists|k: nat| reaches(par, roots@, v, k) {
                let k = choose|k: nat| reaches(par, roots@, v, k);
                lemma_all_reached(par, roots@, popped, v, k);
            } else if popped.contains(v) {
                assert(reaches(par, roots@, v, depth@[v] as nat));
            }
        }
    }
    depth
}


/// An earlier process of the snapshot has the same PID as process `i`.
pub open spec fn has_earlier_duplicate(procs: Seq<ProcessInfo>, i: int) -> bool {
    exists|j: int| 0 <= j < i && procs[j].pid == #[trigger] procs[i].pid
}

/// Process `i` is the first one whose PID repeats an earlier PID.
pub open spec fn first_duplicate(procs: Seq<ProcessInfo>, i: int) -> bool {
    &&& 0 <= i < procs.len()
    &&& has_earlier_duplicate(procs, i)
    &&& forall|k: int| 0 <= k < i ==> !has_earlier_duplicate(procs, k)
}

/// The index of the process with PID `pid`, if the snapshot has one.
pub open spec fn index_of(procs: Seq<ProcessInfo>, pid: u32) -> Option<int> {
    if exists|j: int| 0 <= j < procs.len() && procs[j].pid.0 == pid {
        Some(choose|j: int| 0 <= j < procs.len() && procs[j].pid.0 == pid)
    } else {
        None
    }
}

/// The parent link of process `i` as reported: the index of its parent PID
/// when that PID is in the snapshot and is not its own.
pub open spec fn reported_parent(procs: Seq<ProcessInfo>, i: int) -> Option<usize> {
    match procs[i].parent_pid {
        Some(pp) => match index_of(procs, pp.0) {
            Some(j) => if j != i {
                Some(j as usize)
            } else {
                None
            },
            None => None,
        },
        None => None,
    }
}

pub open spec fn reported_parents(procs: Seq<ProcessInfo>) -> Seq<Option<usize>> {
    Seq::new(procs.len(), |i: int| reported_parent(procs, i))
}

/// The parent links of the tree: the reported links with every cycle cut
/// at its smallest PID.
pub open spec fn tree_parents(procs: Seq<ProcessInfo>) -> Seq<Option<usize>> {
    forest::broken(reported_parents(procs), pid_seq(procs))
}

/// `list` holds, in sibling order, exactly the indices `x` with `wanted(x)`.
pub open spec fn lists_exactly(
    list: Seq<usize>,
    procs: Seq<ProcessInfo>,
    sort: ProcessSort,
    wanted: spec_fn(usize) -> bool,
) -> bool {
    &&& sort_order::sorted_by(list, procs, sort)
    &&& forall|x: usize| #[trigger] list.contains(x) <==> (x < procs.len() && wanted(x))
}

/// The tree built from `procs`: nodes in input order holding the processes,
/// children and roots as `tree_parents` says in sibling order (or the
/// selected root alone), and depths counted from the roots.
pub open spec fn tree_matches(
    tree: ProcessTree,
    procs: Seq<ProcessInfo>,
    root: Option<ProcessId>,
    sort: ProcessSort,
) -> bool {
    let par = tree_parents(procs);
    &&& tree.nodes@.len() == procs.len()
    &&& forall|v: int| 0 <= v < procs.len() ==> (#[trigger] tree.nodes@[v]).process == procs[v]
    &&& forall|v: int|
        0 <= v < procs.len() ==> lists_exactly(
            (#[trigger] tree.nodes@[v]).children@,
            procs,
            sort,
            |x: usize| par[x as int] == Some(v as usize),
        )
    &&& match root {
        None => lists_exactly(tree.roots@, procs, sort, |x: usize| par[x as int] is None),
        Some(r) => tree.roots@ == seq![index_of(procs, r.0)->0 as usize],
    }
    &&& depths_match(Seq::new(procs.len(), |v: int| tree.nodes@[v].depth), par, tree.roots@)
}

/// The index from PID to position, or the PID that first repeats.
fn index_pids(processes: &Vec<ProcessInfo>) -> (r: Result<HashMap<u32, usize>, u32>)
    ensures
        match r {
            Ok(m) => {
                &&& sort_order::pids_distinct(processes@)
                &&& forall|p: u32| #[trigger] m@.contains_key(p) <==> index_of(processes@, p) is Some
                &&& forall|p: u32| m@.contains_key(p) ==> index_of(processes@, p) == Some(#[trigger] m@[p] as int)
            },
            Err(p) => exists|i: int| first_duplicate(processes@, i) && p == processes@[i].pid.0,
        },
{
    broadcast use vstd::std_specs::hash::group_hash_axioms;

    let n = processes.len();
    let mut index: HashMap<u32, usize> = HashMap::with_capacity(n);
    let mut i: usize = 0;
    while i < n
        invariant
            n == processes@.len(),
            i <= n,
            forall|k: int| 0 <= k < i ==> !has_earlier_duplicate(processes@, k),
            forall|p: u32| #[trigger] index@.contains_key(p) <==> exists|j: int| 0 <= j < i && processes@[j].pid.0 == p,
            forall|j: int| 0 <= j < i ==> index@[#[trigger] processes@[j].pid.0] == j as usize,
        decreases n - i,
    {
        let pid = processes[i].pid.0;
        let ghost before = index@;
        if index.insert(pid, i).is_some() {
            proof {
                let j = choose|j: int| 0 <= j < i && processes@[j].pid.0 == pid;
                assert(processes@[j].pid == processes@[i as int].pid);
                assert(has_earlier_duplicate(processes@, i as int));
                assert(first_duplicate(processes@, i as int));
            }
            return Err(pid);
        }
        proof {
            assert forall|j: int| 0 <= j < i + 1 implies index@[#[trigger] processes@[j].pid.0] == j as usize by {
                if j < i {
                    assert(before.contains_key(processes@[j].pid.0));
                }
            }
            assert(!has_earlier_duplicate(processes@, i as int)) by {
                if has_earlier_duplicate(processes@, i as int) {
                    let j = choose|j: int| 0 <= j < i && processes@[j].pid == #[trigger] processes@[i as int].pid;
                    assert(before.contains_key(processes@[j].pid.0));
                }
            }
            assert forall|p: u32| #[trigger] index@.contains_key(p) <==> exists|j: int| 0 <= j < i + 1 && processes@[j].pid.0 == p by {
                if index@.contains_key(p) && p != pid {
                    assert(before.contains_key(p));
                }
                if exists|j: int| 0 <= j < i + 1 && processes@[j].pid.0 == p {
                    let j = choose|j: int| 0 <= j < i + 1 && processes@[j].pid.0 == p;
                    if j < i {
                        assert(before.contains_key(p));
                    }
                }
            }
        }
        i += 1;
    }
    proof {
        assert forall|a: int, b: int|
            0 <= a < n && 0 <= b < n && a != b implies processes@[a].pid != processes@[b].pid by {
            if a < b {
                if processes@[a].pid == processes@[b].pid {
                    assert(has_earlier_duplicate(processes@, b));
                }
            } else {
                if processes@[a].pid == processes@[b].pid {
                    assert(has_earlier_duplicate(processes@, a));
                }
            }
        }
        assert forall|p: u32| index@.contains_key(p) implies index_of(processes@, p) == Some(#[trigger] index@[p] as int) by {
            let j = choose|j: int| 0 <= j < n && processes@[j].pid.0 == p;
            let c = choose|c: int| 0 <= c < processes@.len() && processes@[c].pid.0 == p;
            assert(processes@[j].pid == processes@[c].pid);
        }
    }
    Ok(index)
}


/// The reported parent link of every process, through the PID index.
fn reported_parent_links(processes: &Vec<ProcessInfo>, index: &HashMap<u32, usize>) -> (parents: Vec<
    Option<usize>,
>)
    requires
        forall|p: u32| #[trigger] index@.contains_key(p) <==> index_of(processes@, p) is Some,
        forall|p: u32| index@.contains_key(p) ==> index_of(processes@, p) == Some(#[trigger] index@[p] as int),
    ensures
        parents@ == reported_parents(processes@),
        forest::links_valid(parents@),
{
    broadcast use vstd::std_specs::hash::group_hash_axioms;

    let n = processes.len();
    let mut parents: Vec<Option<usize>> = Vec::new();
    let mut i: usize = 0;
    while i < n
        invariant
            n == processes@.len(),
            i <= n,
            forall|p: u32| #[trigger] index@.contains_key(p) <==> index_of(processes@, p) is Some,
            forall|p: u32| index@.contains_key(p) ==> index_of(processes@, p) == Some(#[trigger] index@[p] as int),
            parents@.len() == i,
            forall|j: int| 0 <= j < i ==> #[trigger] parents@[j] == reported_parent(processes@, j),
        decreases n - i,
    {
        let link = match processes[i].parent_pid {
            Some(pp) => match index.get(&pp.0) {
                Some(j) => if *j != i {
                    Some(*j)
                } else {
                    None
                },
                None => None,
            },
            None => None,
        };
        proof {
            if let Some(pp) = processes@[i as int].parent_pid {
                if index_of(processes@, pp.0) is Some {
                    let c = choose|j: int| 0 <= j < processes@.len() && processes@[j].pid.0 == pp.0;
                    assert(index@.contains_key(pp.0));
                }
            }
        }
        parents.push(link);
        i += 1;
    }
    proof {
        assert(parents@ =~= reported_parents(processes@));
        assert forall|v: int| 0 <= v < parents@.len() implies match #[trigger] parents@[v] {
            Some(u) => u < parents@.len(),
            None => true,
        } by {
            if let Some(pp) = processes@[v].parent_pid {
                if index_of(processes@, pp.0) is Some {
                    let c = choose|j: int| 0 <= j < processes@.len() && processes@[j].pid.0 == pp.0;
                }
            }
        }
    }
    parents
}

/// Children lists in index order, and the parentless nodes in index order.
fn group_children(parents: &Vec<Option<usize>>) -> (r: (Vec<Vec<usize>>, Vec<usize>))
    requires
        forest::links_valid(parents@),
    ensures
        children_match(r.0@, parents@),
        r.1@.no_duplicates(),
        forall|x: usize| #[trigger] r.1@.contains(x) <==> (x < parents@.len() && parents@[x as int] is None),
{
    let n = parents.len();
    let mut children: Vec<Vec<usize>> = Vec::new();
    let mut z: usize = 0;
    while z < n
        invariant
            z <= n,
            children@.len() == z,
            forall|v: int| 0 <= v < z ==> (#[trigger] children@[v])@.len() == 0,
        decreases n - z,
    {
        children.push(Vec::new());
        z += 1;
    }
    let mut roots: Vec<usize> = Vec::new();
    let mut i: usize = 0;
    while i < n
        invariant
            n == parents@.len(),
            forest::links_valid(parents@),
            i <= n,
            children@.len() == n,
            forall|v: int| 0 <= v < n ==> (#[trigger] children@[v])@.no_duplicates(),
            forall|v: int, x: usize|
                0 <= v < n ==> (#[trigger] children@[v]@.contains(x) <==> (x < i && parents@[x as int] == Some(
                    v as usize,
                ))),
            roots@.no_duplicates(),
            forall|x: usize| #[trigger] roots@.contains(x) <==> (x < i && parents@[x as int] is None),
        decreases n - i,
    {
        match parents[i] {
            Some(p) => {
                let ghost before = children@;
                proof {
                    assert(p < n);
                    assert(!children@[p as int]@.contains(i));
                }
                children[p].push(i);
                proof {
                    assert forall|v: int, x: usize|
                        0 <= v < n implies (#[trigger] children@[v]@.contains(x) <==> (x < i + 1 && parents@[x as int]
                            == Some(v as usize))) by {
                        if v == p as int {
                            vstd::seq_lib::lemma_seq_contains_after_push(before[v]@, i, x);
                        } else {
                            assert(children@[v] == before[v]);
                        }
                    }
                    assert forall|v: int| 0 <= v < n implies (#[trigger] children@[v])@.no_duplicates() by {
                        if v != p as int {
                            assert(children@[v] == before[v]);
                        }
                    }
                }
            },
            None => {
                proof {
                    assert(!roots@.contains(i));
                }
                let ghost before = roots@;
                roots.push(i);
                proof {
                    assert forall|x: usize| #[trigger] roots@.contains(x) <==> (x < i + 1 && parents@[x as int] is None) by {
                        vstd::seq_lib::lemma_seq_contains_after_push(before, i, x);
                    }
                }
            },
        }
        i += 1;
    }
    (children, roots)
}

/// The names of the processes as characters.
fn names_of(processes: &Vec<ProcessInfo>) -> (names: Vec<Vec<char>>)
    ensures
        names@.len() == processes@.len(),
        forall|i: int| 0 <= i < processes@.len() ==> (#[trigger] names@[i])@ == processes@[i].name@,
{
    let mut names: Vec<Vec<char>> = Vec::new();
    let mut i: usize = 0;
    while i < processes.len()
        invariant
            i <= processes@.len(),
            names@.len() == i,
            forall|j: int| 0 <= j < i ==> (#[trigger] names@[j])@ == processes@[j].name@,
        decreases processes@.len() - i,
    {
        names.push(sort_order::chars_of(&processes[i].name));
        i += 1;
    }
    names
}

/// A list sorted by `precedes` repeats no index.
pub(crate) proof fn lemma_sorted_no_duplicates(list: Seq<usize>, procs: Seq<ProcessInfo>, sort: ProcessSort)
    requires
        sort_order::sorted_by(list, procs, sort),
    ensures
        list.no_duplicates(),
{
    assert forall|i: int, j: int| 0 <= i < list.len() && 0 <= j < list.len() && i != j implies list[i] != list[j] by {
        let a = procs[list[i] as int];
        sort_order::lemma_precedes_order(a, a, a, sort);
        if i < j {
            assert(sort_order::precedes(procs[list[i] as int], procs[list[j] as int], sort));
        } else {
            assert(sort_order::precedes(procs[list[j] as int], procs[list[i] as int], sort));
        }
    }
}

/// Every children list in sibling order.
fn sort_children(
    children: &mut Vec<Vec<usize>>,
    processes: &Vec<ProcessInfo>,
    names: &Vec<Vec<char>>,
    sort: ProcessSort,
    Ghost(par): Ghost<Seq<Option<usize>>>,
)
    requires
        children_match(old(children)@, par),
        par.len() == processes@.len(),
        sort_order::pids_distinct(processes@),
        names@.len() == processes@.len(),
        forall|i: int| 0 <= i < processes@.len() ==> (#[trigger] names@[i])@ == processes@[i].name@,
    ensures
        children_match(final(children)@, par),
        forall|v: int| 0 <= v < par.len() ==> sort_order::sorted_by((#[trigger] final(children)@[v])@, processes@, sort),
{
    let n = children.len();
    let mut v: usize = 0;
    while v < n
        invariant
            n == par.len(),
            par.len() == processes@.len(),
            v <= n,
            children_match(children@, par),
            sort_order::pids_distinct(processes@),
            names@.len() == processes@.len(),
            forall|i: int| 0 <= i < processes@.len() ==> (#[trigger] names@[i])@ == processes@[i].name@,
            forall|u: int| 0 <= u < v ==> sort_order::sorted_by((#[trigger] children@[u])@, processes@, sort),
        decreases n - v,
    {
        proof {
            assert forall|i: int| 0 <= i < children@[v as int]@.len() implies (#[trigger] children@[v as int]@[i]) < processes@.len() by {
                assert(children@[v as int]@.contains(children@[v as int]@[i]));
            }
        }
        let sorted = sort_order::sort_indices(&children[v], processes, names, sort);
        let ghost before = children@;
        proof {
            lemma_sorted_no_duplicates(sorted@, processes@, sort);
        }
        children.set(v, sorted);
        proof {
            assert forall|u: int| 0 <= u < n implies (#[trigger] children@[u])@.no_duplicates() by {
                if u != v as int {
                    assert(children@[u] == before[u]);
                }
            }
            assert forall|u: int, x: usize|
                0 <= u < n implies (#[trigger] children@[u]@.contains(x) <==> (x < par.len() && par[x as int] == Some(
                    u as usize,
                ))) by {
                if u != v as int {
                    assert(children@[u] == before[u]);
                } else {
                    assert(before[u]@.contains(x) <==> (x < par.len() && par[x as int] == Some(u as usize)));
                }
            }
        }
        v += 1;
    }
}

pub open spec fn node_of(process: ProcessInfo, children: Vec<usize>, depth: usize) -> ProcessNode {
    ProcessNode { process, children, depth }
}

/// Moves the processes and their children lists into nodes, with their depths.
fn assemble(processes: Vec<ProcessInfo>, children: Vec<Vec<usize>>, depth: &Vec<usize>) -> (nodes: Vec<ProcessNode>)
    requires
        children@.len() == processes@.len(),
        depth@.len() == processes@.len(),
    ensures
        nodes@.len() == processes@.len(),
        forall|v: int|
            0 <= v < processes@.len() ==> #[trigger] nodes@[v] == node_of(processes@[v], children@[v], depth@[v]),
{
    let n = processes.len();
    let ghost all_procs = processes@;
    let ghost all_kids = children@;
    let mut procs = processes;
    let mut kids = children;
    let mut reversed: Vec<ProcessNode> = Vec::new();
    let mut k: usize = n;
    while k > 0
        invariant
            n == all_procs.len(),
            all_kids.len() == n,
            depth@.len() == n,
            k <= n,
            procs@ == all_procs.take(k as int),
            kids@ == all_kids.take(k as int),
            reversed@.len() == n - k,
            forall|j: int|
                0 <= j < n - k ==> #[trigger] reversed@[j] == node_of(all_procs[n - 1 - j], all_kids[n - 1 - j], depth@[n - 1 - j]),
        decreases k,
    {
        let process = procs.pop().unwrap();
        let kids_of = kids.pop().unwrap();
        k -= 1;
        proof {
            assert(procs@ =~= all_procs.take(k as int));
            assert(kids@ =~= all_kids.take(k as int));
        }
        reversed.push(ProcessNode { process, children: kids_of, depth: depth[k] });
    }
    let mut nodes: Vec<ProcessNode> = Vec::new();
    while reversed.len() > 0
        invariant
            n == all_procs.len(),
            all_kids.len() == n,
            depth@.len() == n,
            nodes@.len() + reversed@.len() == n,
            forall|j: int|
                0 <= j < reversed@.len() ==> #[trigger] reversed@[j] == node_of(all_procs[n - 1 - j], all_kids[n - 1 - j], depth@[n - 1 - j]),
            forall|v: int|
                0 <= v < nodes@.len() ==> #[trigger] nodes@[v] == node_of(all_procs[v], all_kids[v], depth@[v]),
        decreases reversed@.len(),
    {
        let node = reversed.pop().unwrap();
        nodes.push(node);
    }
    nodes
}


/// The outcome `build_tree` owes for `procs`, `root` and `sort`: the first
/// repeated PID, else the missing selected PID, else the tree.
pub open spec fn build_outcome(
    result: Result<ProcessTree, ProcessError>,
    procs: Seq<ProcessInfo>,
    root: Option<ProcessId>,
    sort: ProcessSort,
) -> bool {
    match result {
        Err(ProcessError::DuplicatePid(p)) => exists|i: int| first_duplicate(procs, i) && p == procs[i].pid.0,
        Err(ProcessError::NotFound(p)) => {
            &&& sort_order::pids_distinct(procs)
            &&& root == Some(ProcessId(p))
            &&& index_of(procs, p) is None
        },
        Err(ProcessError::Unavailable(_)) => false,
        Ok(tree) => {
            &&& sort_order::pids_distinct(procs)
            &&& (root matches Some(r) ==> index_of(procs, r.0) is Some)
            &&& tree_matches(tree, procs, root, sort)
        },
    }
}

/// Builds the process forest of a snapshot.
///
/// Duplicate PIDs are rejected (the first repeat is reported); a selected
/// root must be present. Missing parents and self-parent references become
/// roots; every cycle is cut at its lowest PID without changing the reported
/// parent PIDs. Children and roots come in sibling order; with a selected
/// root only that branch is a root, and depths count from it.
pub fn build_tree(processes: Vec<ProcessInfo>, root: Option<ProcessId>, sort: ProcessSort) -> (result: Result<
    ProcessTree,
    ProcessError,
>)
    ensures
        build_outcome(result, processes@, root, sort),
{
    broadcast use vstd::std_specs::hash::group_hash_axioms;

    let ghost procs = processes@;
    let index = match index_pids(&processes) {
        Ok(m) => m,
        Err(p) => {
            return Err(ProcessError::DuplicatePid(p));
        },
    };
    let selected = match root {
        Some(pid) => match index.get(&pid.0) {
            Some(i) => Some(*i),
            None => {
                return Err(ProcessError::NotFound(pid.0));
            },
        },
        None => None,
    };
    let mut parents = reported_parent_links(&processes, &index);
    let ghost ids = pid_seq(procs);
    let ghost par = tree_parents(procs);
    proof {
        assert forall|i: int, j: int| 0 <= i < ids.len() && 0 <= j < ids.len() && i != j implies ids[i] != ids[j] by {
            assert(procs[i].pid != procs[j].pid);
        }
        forest::lemma_broken_acyclic(reported_parents(procs), ids);
    }
    break_cycles(&mut parents, &processes);
    let (mut children, all_roots) = group_children(&parents);
    let names = names_of(&processes);
    proof {
        assert forall|i: int| 0 <= i < all_roots@.len() implies (#[trigger] all_roots@[i]) < procs.len() by {
            assert(all_roots@.contains(all_roots@[i]));
        }
    }
    let sorted_roots = sort_order::sort_indices(&all_roots, &processes, &names, sort);
    sort_children(&mut children, &processes, &names, sort, Ghost(par));
    let roots = match selected {
        Some(s) => {
            let mut only: Vec<usize> = Vec::new();
            only.push(s);
            only
        },
        None => sorted_roots,
    };
    proof {
        if let Some(s) = selected {
            let r = root->0;
            assert(index@.contains_key(r.0));
            assert(roots@ =~= seq![s]);
            assert forall|a: int, k: nat| 0 <= a < roots@.len() && k >= 1 implies !#[trigger] reaches(
                par,
                roots@,
                roots@[a] as int,
                k,
            ) by {
                assert(forest::follow(par, s as int, k) != Some(s as int));
            }
            assert(roots@.no_duplicates());
        } else {
            lemma_sorted_no_duplicates(roots@, procs, sort);
            assert forall|j: int| 0 <= j < roots@.len() implies (#[trigger] roots@[j]) < par.len() by {
                assert(roots@.contains(roots@[j]));
            }
            assert forall|a: int, k: nat| 0 <= a < roots@.len() && k >= 1 implies !#[trigger] reaches(
                par,
                roots@,
                roots@[a] as int,
                k,
            ) by {
                assert(roots@.contains(roots@[a]));
                assert(par[roots@[a] as int] is None);
            }
        }
    }
    let depth = depths_of(&children, &roots, Ghost(par));
    let ghost kids = children@;
    let nodes = assemble(processes, children, &depth);
    let tree = ProcessTree { nodes, roots };
    proof {
        assert(Seq::new(procs.len(), |v: int| tree.nodes@[v].depth) =~= depth@);
        assert forall|v: int| 0 <= v < procs.len() implies lists_exactly(
            (#[trigger] tree.nodes@[v]).children@,
            procs,
            sort,
            |x: usize| par[x as int] == Some(v as usize),
        ) by {
            assert(tree.nodes@[v].children == kids[v]);
            assert forall|x: usize| #[trigger] kids[v]@.contains(x) <==> (x < procs.len() && par[x as int] == Some(v as usize)) by {}
        }
        if root is None {
            assert forall|x: usize| #[trigger] tree.roots@.contains(x) <==> (x < procs.len() && par[x as int] is None) by {
                assert(all_roots@.contains(x) <==> (x < procs.len() && par[x as int] is None));
            }
        }
    }
    Ok(tree)
}

/// A snapshot as a repository hands it over: the processes, or its error.
pub open spec fn snapshot_view(snapshot: Result<Vec<ProcessInfo>, ProcessError>) -> Result<Seq<ProcessInfo>, ProcessError> {
    match snapshot {
        Ok(processes) => Ok(processes@),
        Err(e) => Err(e),
    }
}

/// What the tree use case owes for a snapshot: the outcome of `build_tree`
/// on its processes, or the repository's error as it came.
pub open spec fn snapshot_outcome(
    result: Result<ProcessTree, ProcessError>,
    snapshot: Result<Seq<ProcessInfo>, ProcessError>,
    root: Option<ProcessId>,
    sort: ProcessSort,
) -> bool {
    match snapshot {
        Ok(procs) => build_outcome(result, procs, root, sort),
        Err(e) => result == Err::<ProcessTree, ProcessError>(e),
    }
}

/// Builds the forest of a repository's snapshot, or passes its error on.
pub fn tree_from_snapshot(
    snapshot: Result<Vec<ProcessInfo>, ProcessError>,
    root: Option<ProcessId>,
    sort: ProcessSort,
) -> (result: Result<ProcessTree, ProcessError>)
    ensures
        snapshot_outcome(result, snapshot_view(snapshot), root, sort),
{
    match snapshot {
        Ok(processes) => build_tree(processes, root, sort),
        Err(error) => Err(error),
    }
}

pub struct GetProcessTree;

impl GetProcessTree {
    /// Reads a snapshot from the repository and builds its forest; a
    /// repository error is passed on as it came.
    pub fn execute<R: ProcessRepository>(repository: &mut R, root: Option<ProcessId>, sort: ProcessSort) -> (result:
        Result<ProcessTree, ProcessError>)
        ensures
            exists|snapshot: Result<Seq<ProcessInfo>, ProcessError>| snapshot_outcome(result, snapshot, root, sort),
    {
        let snapshot = repository.processes();
        let ghost seen = snapshot_view(snapshot);
        let result = tree_from_snapshot(snapshot, root, sort);
        proof {
            assert(snapshot_outcome(result, seen, root, sort));
        }
        result
    }
}


/// The reported parent links point into the snapshot.
pub(crate) proof fn lemma_reported_links_valid(procs: Seq<ProcessInfo>)
    ensures
        forest::links_valid(reported_parents(procs)),
{
    let par = reported_parents(procs);
    assert forall|v: int| 0 <= v < par.len() implies match #[trigger] par[v] {
        Some(u) => u < par.len(),
        None => true,
    } by {
        if let Some(pp) = procs[v].parent_pid {
            if index_of(procs, pp.0) is Some {
                let c = choose|j: int| 0 <= j < procs.len() && procs[j].pid.0 == pp.0;
            }
        }
    }
}

/// The tree's parent links form a forest: no process is its own ancestor.
pub proof fn lemma_tree_is_forest(procs: Seq<ProcessInfo>)
    ensures
        forest::links_valid(tree_parents(procs)),
        forest::acyclic(tree_parents(procs)),
{
    lemma_reported_links_valid(procs);
    forest::lemma_broken_acyclic(reported_parents(procs), pid_seq(procs));
}

/// A process on a reported parent cycle becomes a root exactly when it has
/// the lowest PID of its cycle; the others keep their reported parent.
pub proof fn lemma_cycle_cut_at_lowest_pid(procs: Seq<ProcessInfo>, v: int)
    requires
        0 <= v < procs.len(),
        forest::on_cycle(reported_parents(procs), v),
    ensures
        tree_parents(procs)[v] is None <==> forest::cycle_min(reported_parents(procs), pid_seq(procs), v),
        !forest::cycle_min(reported_parents(procs), pid_seq(procs), v) ==> tree_parents(procs)[v]
            == reported_parents(procs)[v],
{
    let par = reported_parents(procs);
    let m = choose|m: nat| m >= 1 && #[trigger] forest::follow(par, v, m) == Some(v);
    assert(par[v] is Some);
}

/// Without a selected root, no process is lost: every process hangs below
/// one of the parentless processes.
pub proof fn lemma_every_process_has_a_root(procs: Seq<ProcessInfo>, v: int)
    requires
        0 <= v < procs.len(),
        procs.len() <= usize::MAX,
    ensures
        exists|k: nat|
            (#[trigger] forest::follow(tree_parents(procs), v, k)) matches Some(r) && tree_parents(procs)[r] is None,
{
    let par = tree_parents(procs);
    let n = procs.len();
    lemma_tree_is_forest(procs);
    if forall|k: nat| k <= n ==> (#[trigger] forest::follow(par, v, k)) is Some {
        assert(forest::follow(par, v, n) is Some);
        forest::lemma_chain_shorter(par, v, n);
    } else {
        let k0 = choose|k: nat| k <= n && !((#[trigger] forest::follow(par, v, k)) is Some);
        let k = lemma_last_link(par, v, k0);
        forest::lemma_follow_succ(par, v, k);
        forest::lemma_follow_in_range(par, v, k);
    }
}

/// A chain that has ended has a last node.
proof fn lemma_last_link(par: Seq<Option<usize>>, v: int, k: nat) -> (last: nat)
    requires
        forest::links_valid(par),
        0 <= v < par.len(),
        forest::follow(par, v, k) is None,
    ensures
        forest::follow(par, v, last) is Some,
        forest::follow(par, v, last + 1) is None,
    decreases k,
{
    if k == 0 {
        assert(false);
        0
    } else if forest::follow(par, v, (k - 1) as nat) is Some {
        assert((k - 1) as nat + 1 == k);
        (k - 1) as nat
    } else {
        lemma_last_link(par, v, (k - 1) as nat)
    }
}

/// In a built tree, the depth of a process is the only distance at which it
/// meets a root.
pub proof fn lemma_depth_unique(
    procs: Seq<ProcessInfo>,
    root: Option<ProcessId>,
    sort: ProcessSort,
    tree: ProcessTree,
    v: int,
    k: nat,
)
    requires
        build_outcome(Ok(tree), procs, root, sort),
        0 <= v < procs.len(),
        reaches(tree_parents(procs), tree.roots@, v, k),
    ensures
        k == tree.nodes@[v].depth,
{
    let par = tree_parents(procs);
    let roots = tree.roots@;
    let depth = Seq::new(procs.len(), |x: int| tree.nodes@[x].depth);
    lemma_tree_is_forest(procs);
    assert(depth[v] == tree.nodes@[v].depth);
    let d = depth[v] as nat;
    assert(reaches(par, roots, v, d));
    if k != d {
        let (a, b) = if k < d { (k, d) } else { (d, k) };
        let ja = choose|j: int| 0 <= j < roots.len() && forest::follow(par, v, a) == Some(#[trigger] roots[j] as int);
        let jb = choose|j: int| 0 <= j < roots.len() && forest::follow(par, v, b) == Some(#[trigger] roots[j] as int);
        let ra = roots[ja] as int;
        forest::lemma_follow_add(par, v, a, (b - a) as nat);
        assert(a + (b - a) as nat == b);
        assert(forest::follow(par, ra, (b - a) as nat) == Some(roots[jb] as int));
        match root {
            None => {
                assert(roots.contains(roots[ja]));
                assert(par[ra] is None);
            },
            Some(r) => {
                assert(roots.len() == 1);
                assert(ra == roots[jb] as int);
            },
        }
    }
}

/// Without a selected root, every process appears exactly once: as a root
/// when it has no parent, otherwise among the children of its parent only.
pub proof fn lemma_each_process_listed_once(
    procs: Seq<ProcessInfo>,
    sort: ProcessSort,
    tree: ProcessTree,
    x: usize,
)
    requires
        build_outcome(Ok(tree), procs, None, sort),
        x < procs.len(),
    ensures
        tree.roots@.contains(x) <==> tree_parents(procs)[x as int] is None,
        forall|v: int|
            0 <= v < procs.len() ==> ((#[trigger] tree.nodes@[v]).children@.contains(x) <==> tree_parents(
                procs,
            )[x as int] == Some(v as usize)),
{
    assert forall|v: int|
        0 <= v < procs.len() implies ((#[trigger] tree.nodes@[v]).children@.contains(x) <==> tree_parents(
            procs,
        )[x as int] == Some(v as usize)) by {
        assert(lists_exactly(
            tree.nodes@[v].children@,
            procs,
            sort,
            |y: usize| tree_parents(procs)[y as int] == Some(v as usize),
        ));
    }
}

/// Depths of a selected branch start at zero: the selected process itself
/// has depth 0.
pub proof fn lemma_selected_root_depth_zero(procs: Seq<ProcessInfo>, pid: ProcessId, sort: ProcessSort, tree: ProcessTree)
    requires
        build_outcome(Ok(tree), procs, Some(pid), sort),
    ensures
        tree.nodes@[index_of(procs, pid.0)->0].depth == 0,
{
    let sel = index_of(procs, pid.0)->0;
    assert(0 <= sel < procs.len()) by {
        assert(exists|k: int| 0 <= k < procs.len() && procs[k].pid.0 == pid.0);
    }
    assert(tree.nodes@.len() == tree.nodes.len());
    assert(tree.roots@[0] as int == sel);
    assert(forest::follow(tree_parents(procs), sel, 0) == Some(tree.roots@[0] as int));
    assert(reaches(tree_parents(procs), tree.roots@, sel, 0));
    lemma_depth_unique(procs, Some(pid), sort, tree, sel, 0);
}

/// Without a selected root, a process is a root exactly when its reported
/// parent link is absent (no parent PID, a PID missing from the snapshot, or
/// its own PID) or it carries the lowest PID of a reported cycle.
pub proof fn lemma_roots_are_parentless_or_cut(procs: Seq<ProcessInfo>, sort: ProcessSort, tree: ProcessTree, i: int)
    requires
        build_outcome(Ok(tree), procs, None, sort),
        0 <= i < procs.len(),
    ensures
        tree.roots@.contains(i as usize) <==> (reported_parents(procs)[i] is None || forest::cycle_min(
            reported_parents(procs),
            pid_seq(procs),
            i,
        )),
{
    assert(tree.nodes@.len() == tree.nodes.len());
    assert(i as usize as int == i);
    lemma_each_process_listed_once(procs, sort, tree, i as usize);
}

/// Every reported cycle is cut exactly once: among the nodes of a cycle of
/// length `m` through `v`, exactly one carries the cycle's lowest PID: the
/// one `s` links from `v`.
pub proof fn lemma_one_cut_per_cycle(procs: Seq<ProcessInfo>, v: int, m: nat) -> (s: nat)
    requires
        sort_order::pids_distinct(procs),
        0 <= v < procs.len(),
        m >= 1,
        forest::follow(reported_parents(procs), v, m) == Some(v),
    ensures
        s < m,
        forall|t: nat|
            t < m ==> (forest::cycle_min(
                reported_parents(procs),
                pid_seq(procs),
                (#[trigger] forest::follow(reported_parents(procs), v, t))->0,
            ) <==> forest::follow(reported_parents(procs), v, t) == forest::follow(reported_parents(procs), v, s)),
{
    let par = reported_parents(procs);
    let ids = pid_seq(procs);
    lemma_reported_links_valid(procs);
    assert forall|a: int, b: int| 0 <= a < ids.len() && 0 <= b < ids.len() && a != b implies ids[a] != ids[b] by {
        assert(procs[a].pid != procs[b].pid);
    }
    let s = forest::lemma_cycle_has_min(par, ids, v, m, m);
    assert forall|t: nat| t < m implies (forest::cycle_min(par, ids, (#[trigger] forest::follow(par, v, t))->0)
        <==> forest::follow(par, v, t) == forest::follow(par, v, s)) by {
        forest::lemma_cycle_min_unique(par, ids, v, m, s, t);
    }
    s
}

/// How many of the children lists of nodes `0..v` hold `x`.
pub open spec fn lists_holding(tree: ProcessTree, x: usize, v: int) -> nat
    decreases v,
{
    if v <= 0 {
        0
    } else {
        lists_holding(tree, x, v - 1) + if tree.nodes@[v - 1].children@.contains(x) {
            1nat
        } else {
            0nat
        }
    }
}

/// Without a selected root, the roots and the children lists together hold
/// every process exactly once: no list repeats an index, and each index is
/// in exactly one list.
pub proof fn lemma_roots_and_children_partition(procs: Seq<ProcessInfo>, sort: ProcessSort, tree: ProcessTree, x: usize)
    requires
        build_outcome(Ok(tree), procs, None, sort),
        x < procs.len(),
    ensures
        tree.roots@.no_duplicates(),
        forall|v: int| 0 <= v < procs.len() ==> (#[trigger] tree.nodes@[v]).children@.no_duplicates(),
        (if tree.roots@.contains(x) {
            1nat
        } else {
            0nat
        }) + lists_holding(tree, x, procs.len() as int) == 1,
{
    let par = tree_parents(procs);
    lemma_sorted_no_duplicates(tree.roots@, procs, sort);
    assert forall|v: int| 0 <= v < procs.len() implies (#[trigger] tree.nodes@[v]).children@.no_duplicates() by {
        assert(lists_exactly(tree.nodes@[v].children@, procs, sort, |y: usize| par[y as int] == Some(v as usize)));
        lemma_sorted_no_duplicates(tree.nodes@[v].children@, procs, sort);
    }
    lemma_each_process_listed_once(procs, sort, tree, x);
    lemma_tree_is_forest(procs);
    assert(tree.nodes@.len() == tree.nodes.len());
    lemma_lists_holding(procs, sort, tree, x, procs.len() as int);
    if let Some(u) = par[x as int] {
        assert(u < procs.len());
    }
}

proof fn lemma_lists_holding(procs: Seq<ProcessInfo>, sort: ProcessSort, tree: ProcessTree, x: usize, v: int)
    requires
        build_outcome(Ok(tree), procs, None, sort),
        x < procs.len(),
        0 <= v <= procs.len(),
        procs.len() <= usize::MAX,
    ensures
        lists_holding(tree, x, v) == match tree_parents(procs)[x as int] {
            Some(u) => if (u as int) < v {
                1nat
            } else {
                0nat
            },
            None => 0nat,
        },
    decreases v,
{
    if v > 0 {
        lemma_lists_holding(procs, sort, tree, x, v - 1);
        lemma_each_process_listed_once(procs, sort, tree, x);
        assert((v - 1) as usize as int == v - 1);
    }
}

/// Children and roots of a built tree come in the sort's order: by PID
/// ascending, or by CPU usage or memory descending with ties by PID.
pub proof fn lemma_siblings_ordered(
    procs: Seq<ProcessInfo>,
    root: Option<ProcessId>,
    sort: ProcessSort,
    tree: ProcessTree,
    v: int,
    i: int,
    j: int,
)
    requires
        build_outcome(Ok(tree), procs, root, sort),
        0 <= v < procs.len(),
        0 <= i < j < tree.nodes@[v].children@.len(),
    ensures
        ({
            let a = procs[tree.nodes@[v].children@[i] as int];
            let b = procs[tree.nodes@[v].children@[j] as int];
            &&& sort == ProcessSort::Pid ==> a.pid.0 < b.pid.0
            &&& sort == ProcessSort::Memory ==> b.memory_bytes <= a.memory_bytes && (a.memory_bytes == b.memory_bytes
                ==> a.pid.0 < b.pid.0)
            &&& sort == ProcessSort::Cpu && a.cpu_usage_bits < 0x8000_0000 && b.cpu_usage_bits < 0x8000_0000 ==> b.cpu_usage_bits
                <= a.cpu_usage_bits && (a.cpu_usage_bits == b.cpu_usage_bits ==> a.pid.0 < b.pid.0)
        }),
{
    let par = tree_parents(procs);
    assert(lists_exactly(tree.nodes@[v].children@, procs, sort, |x: usize| par[x as int] == Some(v as usize)));
    sort_order::lemma_sorted_measures(tree.nodes@[v].children@, procs, sort, i, j);
}

} // verus!
