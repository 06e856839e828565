//! Parent links over an arena of nodes: chains, cycles, and the rule that
//! breaks every cycle at its node with the smallest identifier.
use vstd::prelude::*;

verus! {

/// Every parent link points into the arena.
pub open spec fn links_valid(par: Seq<Option<usize>>) -> bool {
    forall|v: int|
        0 <= v < par.len() ==> match #[trigger] par[v] {
            Some(u) => u < par.len(),
            None => true,
        }
}

/// The node reached from `v` by following `k` parent links, if the chain is that long.
pub open spec fn follow(par: Seq<Option<usize>>, v: int, k: nat) -> Option<int>
    decreases k,
{
    if k == 0 {
        Some(v)
    } else {
        match par[v] {
            Some(u) => follow(par, u as int, (k - 1) as nat),
            None => None,
        }
    }
}

/// `v` is its own ancestor.
pub open spec fn on_cycle(par: Seq<Option<usize>>, v: int) -> bool {
    exists|m: nat| m >= 1 && #[trigger] follow(par, v, m) == Some(v)
}

/// `v` lies on a cycle and no node reachable from it (that is, no node of
/// its cycle) has a smaller identifier.
pub open spec fn cycle_min(par: Seq<Option<usize>>, ids: Seq<u32>, v: int) -> bool {
    &&& on_cycle(par, v)
    &&& forall|k: nat|
        #[trigger] follow(par, v, k) matches Some(u) ==> ids[u] >= ids[v]
}

/// The parent links once every cycle has been cut at its smallest identifier.
pub open spec fn broken(par: Seq<Option<usize>>, ids: Seq<u32>) -> Seq<Option<usize>> {
    Seq::new(par.len(), |v: int| if cycle_min(par, ids, v) { None } else { par[v] })
}

/// Following parent links from `v` leads to `a` (after zero or more links).
pub open spec fn descends_from(par: Seq<Option<usize>>, v: int, a: int) -> bool {
    exists|k: nat| #[trigger] follow(par, v, k) == Some(a)
}

/// No node is its own ancestor.
pub open spec fn acyclic(par: Seq<Option<usize>>) -> bool {
    forall|v: int, m: nat| 0 <= v < par.len() && m >= 1 ==> #[trigger] follow(par, v, m) != Some(v)
}

pub proof fn lemma_follow_in_range(par: Seq<Option<usize>>, v: int, k: nat)
    requires
        links_valid(par),
        0 <= v < par.len(),
    ensures
        follow(par, v, k) matches Some(u) ==> 0 <= u < par.len(),
    decreases k,
{
    if k > 0 {
        if let Some(u) = par[v] {
            lemma_follow_in_range(par, u as int, (k - 1) as nat);
        }
    }
}

/// Following `a + b` links is following `a`, then `b`.
pub proof fn lemma_follow_add(par: Seq<Option<usize>>, v: int, a: nat, b: nat)
    requires
        links_valid(par),
        0 <= v < par.len(),
    ensures
        follow(par, v, a + b) == match follow(par, v, a) {
            Some(u) => follow(par, u, b),
            None => None,
        },
    decreases a,
{
    if a > 0 {
        if let Some(u) = par[v] {
            lemma_follow_add(par, u as int, (a - 1) as nat, b);
            assert((a + b - 1) as nat == (a - 1) as nat + b);
        }
    }
}

/// One more link is one more step from where `k` links led.
pub proof fn lemma_follow_succ(par: Seq<Option<usize>>, v: int, k: nat)
    requires
        links_valid(par),
        0 <= v < par.len(),
    ensures
        follow(par, v, k + 1) == match follow(par, v, k) {
            Some(u) => match par[u] {
                Some(w) => Some(w as int),
                None => None,
            },
            None => None,
        },
{
    lemma_follow_add(par, v, k, 1);
    if let Some(u) = follow(par, v, k) {
        assert(follow(par, u, 1) == match par[u] {
            Some(w) => follow(par, w as int, 0),
            None => None,
        });
    }
}

/// A chain that has ended stays ended.
pub proof fn lemma_follow_none_stays(par: Seq<Option<usize>>, v: int, a: nat, b: nat)
    requires
        links_valid(par),
        0 <= v < par.len(),
        follow(par, v, a) is None,
        a <= b,
    ensures
        follow(par, v, b) is None,
{
    lemma_follow_add(par, v, a, (b - a) as nat);
    assert(a + (b - a) as nat == b);
}

/// On a cycle of length `m`, chains are periodic and never end.
pub proof fn lemma_cycle_periodic(par: Seq<Option<usize>>, v: int, m: nat, k: nat)
    requires
        links_valid(par),
        0 <= v < par.len(),
        m >= 1,
        follow(par, v, m) == Some(v),
    ensures
        follow(par, v, k) == follow(par, v, k % m),
        follow(par, v, k) is Some,
    decreases k,
{
    if k < m {
        assert(k % m == k) by (nonlinear_arith)
            requires
                k < m,
        ;
        if follow(par, v, k) is None {
            lemma_follow_none_stays(par, v, k, m);
        }
    } else {
        let r = (k - m) as nat;
        lemma_cycle_periodic(par, v, m, r);
        lemma_follow_add(par, v, m, r);
        assert(m + r == k);
        assert(k % m == r % m) by (nonlinear_arith)
            requires
                k == m + r,
                m >= 1,
        ;
    }
}

/// Every node met on a cycle is itself on that cycle, of the same length.
pub proof fn lemma_cycle_member(par: Seq<Option<usize>>, v: int, m: nat, j: nat)
    requires
        links_valid(par),
        0 <= v < par.len(),
        m >= 1,
        follow(par, v, m) == Some(v),
    ensures
        follow(par, v, j) matches Some(w) && follow(par, w, m) == Some(w) && on_cycle(par, w),
{
    lemma_cycle_periodic(par, v, m, j);
    let w = follow(par, v, j)->0;
    lemma_follow_add(par, v, j, m);
    lemma_follow_add(par, v, m, j);
    assert(j + m == m + j);
    lemma_follow_in_range(par, v, j);
}

/// From a node of a cycle, the chain only meets nodes of the same cycle.
pub proof fn lemma_cycle_closed(par: Seq<Option<usize>>, v: int, m: nat, j: nat, k: nat)
    requires
        links_valid(par),
        0 <= v < par.len(),
        m >= 1,
        follow(par, v, m) == Some(v),
    ensures
        follow(par, v, j) matches Some(w) && follow(par, w, k) == follow(par, v, (j + k) % m),
{
    lemma_cycle_periodic(par, v, m, j);
    lemma_cycle_periodic(par, v, m, j + k);
    lemma_follow_add(par, v, j, k);
}

/// Some node of a cycle of length `m` carries the smallest identifier of the cycle.
pub proof fn lemma_cycle_has_min(par: Seq<Option<usize>>, ids: Seq<u32>, v: int, m: nat, bound: nat) -> (j: nat)
    requires
        links_valid(par),
        ids.len() == par.len(),
        0 <= v < par.len(),
        m >= 1,
        follow(par, v, m) == Some(v),
        1 <= bound <= m,
    ensures
        j < bound,
        forall|i: nat| i < bound ==> ids[(#[trigger] follow(par, v, i))->0] >= ids[follow(par, v, j)->0],
    decreases bound,
{
    if bound == 1 {
        assert forall|i: nat| i < bound implies ids[(#[trigger] follow(par, v, i))->0] >= ids[follow(par, v, 0)->0] by {
            assert(i == 0);
        }
        0
    } else {
        let j0 = lemma_cycle_has_min(par, ids, v, m, (bound - 1) as nat);
        let last = (bound - 1) as nat;
        if ids[follow(par, v, last)->0] < ids[follow(par, v, j0)->0] {
            last
        } else {
            j0
        }
    }
}

/// Removing the link out of the smallest node of every cycle leaves no cycle.
pub proof fn lemma_broken_acyclic(par: Seq<Option<usize>>, ids: Seq<u32>)
    requires
        links_valid(par),
        ids.len() == par.len(),
    ensures
        links_valid(broken(par, ids)),
        acyclic(broken(par, ids)),
{
    let b = broken(par, ids);
    assert forall|v: int, m: nat| 0 <= v < b.len() && m >= 1 implies #[trigger] follow(b, v, m) != Some(v) by {
        if follow(b, v, m) == Some(v) {
            lemma_broken_agrees(par, ids, v, m);
            let j = lemma_cycle_has_min(par, ids, v, m, m);
            lemma_cycle_member(par, v, m, j);
            let w = follow(par, v, j)->0;
            lemma_follow_in_range(par, v, j);
            assert forall|k: nat| (#[trigger] follow(par, w, k)) is Some implies ids[follow(par, w, k)->0] >= ids[w] by {
                lemma_cycle_closed(par, v, m, j, k);
                let i = (j + k) % m;
                assert(i < m) by (nonlinear_arith)
                    requires
                        m >= 1,
                        i == (j + k) % m,
                ;
            }
            assert(cycle_min(par, ids, w));
            assert(b[w] is None);
            lemma_broken_prefix(par, ids, v, m, j);
            lemma_follow_succ(b, v, j);
            lemma_follow_none_stays(b, v, j + 1, m);
        }
    }
}

/// Where the cut links still lead somewhere, they agree with the original links.
proof fn lemma_broken_agrees(par: Seq<Option<usize>>, ids: Seq<u32>, v: int, m: nat)
    requires
        links_valid(par),
        ids.len() == par.len(),
        0 <= v < par.len(),
        follow(broken(par, ids), v, m) is Some,
    ensures
        follow(par, v, m) == follow(broken(par, ids), v, m),
    decreases m,
{
    let b = broken(par, ids);
    if m > 0 {
        let u = b[v]->0;
        assert(par[v] == b[v]);
        lemma_broken_agrees(par, ids, u as int, (m - 1) as nat);
    }
}

/// Any prefix of a cut chain that reaches its end also follows the original links.
proof fn lemma_broken_prefix(par: Seq<Option<usize>>, ids: Seq<u32>, v: int, m: nat, j: nat)
    requires
        links_valid(par),
        ids.len() == par.len(),
        0 <= v < par.len(),
        follow(broken(par, ids), v, m) is Some,
        j <= m,
    ensures
        follow(broken(par, ids), v, j) == follow(par, v, j),
        follow(par, v, j) is Some,
{
    let b = broken(par, ids);
    assert(links_valid(b)) by {
        assert forall|x: int| 0 <= x < b.len() implies match #[trigger] b[x] {
            Some(u) => u < b.len(),
            None => true,
        } by {
            assert(par[x] == par[x]);
        }
    }
    if follow(b, v, j) is None {
        lemma_follow_none_stays(b, v, j, m);
    }
    lemma_broken_agrees(par, ids, v, j);
}


/// All identifiers differ.
pub open spec fn distinct_ids(ids: Seq<u32>) -> bool {
    forall|i: int, j: int| 0 <= i < ids.len() && 0 <= j < ids.len() && i != j ==> ids[i] != ids[j]
}

/// The walk `path` lists the chain from `start`, one node per link.
pub open spec fn walk_of(par: Seq<Option<usize>>, start: int, path: Seq<usize>) -> bool {
    forall|j: int| 0 <= j < path.len() ==> follow(par, start, j as nat) == Some(#[trigger] path[j] as int)
}

/// Finished nodes (state 2) only lead to finished nodes.
pub open spec fn done_closed(par: Seq<Option<usize>>, state: Seq<u8>) -> bool {
    forall|v: int|
        0 <= v < par.len() && #[trigger] state[v] == 2 && par[v] is Some ==> state[par[v]->0 as int] == 2
}

pub proof fn lemma_done_reach(par: Seq<Option<usize>>, state: Seq<u8>, i: int, k: nat)
    requires
        links_valid(par),
        state.len() == par.len(),
        done_closed(par, state),
        0 <= i < par.len(),
        state[i] == 2,
    ensures
        follow(par, i, k) matches Some(u) ==> state[u] == 2,
    decreases k,
{
    if k > 0 {
        if let Some(u) = par[i] {
            lemma_done_reach(par, state, u as int, (k - 1) as nat);
        }
    }
}

/// A chain that ends, or that runs into finished nodes, meets no cycle on the way.
pub proof fn lemma_walk_off_cycle(
    par: Seq<Option<usize>>,
    state: Seq<u8>,
    start: int,
    path: Seq<usize>,
    j: int,
)
    requires
        links_valid(par),
        state.len() == par.len(),
        done_closed(par, state),
        0 <= start < par.len(),
        walk_of(par, start, path),
        0 <= j < path.len(),
        forall|q: int| 0 <= q < path.len() ==> state[#[trigger] path[q] as int] == 1,
        match follow(par, start, path.len()) {
            None => true,
            Some(i) => state[i] == 2,
        },
    ensures
        !on_cycle(par, path[j] as int),
{
    let v = path[j] as int;
    let len = path.len();
    lemma_follow_in_range(par, start, j as nat);
    if on_cycle(par, v) {
        let m = choose|m: nat| m >= 1 && #[trigger] follow(par, v, m) == Some(v);
        let d = (len - j) as nat;
        lemma_follow_add(par, start, j as nat, d);
        assert(j as nat + d == len);
        lemma_cycle_periodic(par, v, m, d);
        let i = follow(par, start, len)->0;
        let a = d % m;
        assert(a < m) by (nonlinear_arith)
            requires
                m >= 1,
                a == d % m,
        ;
        lemma_follow_add(par, v, a, (m - a) as nat);
        assert(a + (m - a) as nat == m);
        lemma_follow_in_range(par, start, len);
        lemma_done_reach(par, state, i, (m - a) as nat);
    }
}

/// The walk closed on itself at position `k`: the nodes from `k` on form a
/// cycle, and the nodes before `k` lie on none.
pub proof fn lemma_walk_into_itself(par: Seq<Option<usize>>, start: int, path: Seq<usize>, k: int)
    requires
        links_valid(par),
        0 <= start < par.len(),
        walk_of(par, start, path),
        path.no_duplicates(),
        0 <= k < path.len(),
        follow(par, start, path.len()) == Some(path[k] as int),
    ensures
        follow(par, path[k] as int, (path.len() - k) as nat) == Some(path[k] as int),
        forall|t: nat| t < path.len() - k ==> #[trigger] follow(par, path[k] as int, t) == Some(path[k + t] as int),
        forall|j: int| 0 <= j < k ==> !on_cycle(par, #[trigger] path[j] as int),
{
    let len = path.len();
    let i = path[k] as int;
    let m = (len - k) as nat;
    lemma_follow_in_range(par, start, k as nat);
    lemma_follow_add(par, start, k as nat, m);
    assert(k as nat + m == len);
    assert forall|t: nat| t < path.len() - k implies #[trigger] follow(par, i, t) == Some(path[k + t] as int) by {
        lemma_follow_add(par, start, k as nat, t);
        assert(follow(par, start, (k + t) as nat) == Some(path[k + t] as int));
        assert((k + t) as nat == k as nat + t);
    }
    assert forall|j: int| 0 <= j < k implies !on_cycle(par, #[trigger] path[j] as int) by {
        let v = path[j] as int;
        lemma_follow_in_range(par, start, j as nat);
        if on_cycle(par, v) {
            let mv = choose|mv: nat| mv >= 1 && #[trigger] follow(par, v, mv) == Some(v);
            let d = (k - j) as nat;
            lemma_follow_add(par, start, j as nat, d);
            assert(j as nat + d == k as nat);
            lemma_cycle_periodic(par, v, mv, d);
            let a = d % mv;
            assert(a < mv) by (nonlinear_arith)
                requires
                    mv >= 1,
                    a == d % mv,
            ;
            lemma_follow_add(par, v, a, (mv - a) as nat);
            assert(a + (mv - a) as nat == mv);
            // v is reachable from i, and everything reachable from i lies on i's cycle
            let back = (mv - a) as nat;
            assert(follow(par, i, back) == Some(v));
            lemma_cycle_periodic(par, i, m, back);
            let r = back % m;
            assert(r < m) by (nonlinear_arith)
                requires
                    m >= 1,
                    r == back % m,
            ;
            assert(follow(par, i, r) == Some(path[k + r] as int));
            assert(path[j] == path[k + r]);
        }
    }
}

/// The node with the smallest identifier of a cycle is its only `cycle_min`.
pub proof fn lemma_cycle_min_unique(
    par: Seq<Option<usize>>,
    ids: Seq<u32>,
    i: int,
    m: nat,
    s: nat,
    t: nat,
)
    requires
        links_valid(par),
        ids.len() == par.len(),
        distinct_ids(ids),
        0 <= i < par.len(),
        m >= 1,
        follow(par, i, m) == Some(i),
        s < m,
        t < m,
        forall|r: nat| r < m ==> ids[(#[trigger] follow(par, i, r))->0] >= ids[follow(par, i, s)->0],
    ensures
        cycle_min(par, ids, follow(par, i, t)->0) <==> follow(par, i, t) == follow(par, i, s),
        cycle_min(par, ids, follow(par, i, s)->0),
{
    lemma_cycle_member(par, i, m, s);
    lemma_cycle_member(par, i, m, t);
    lemma_follow_in_range(par, i, s);
    lemma_follow_in_range(par, i, t);
    let w = follow(par, i, s)->0;
    let x = follow(par, i, t)->0;
    assert forall|k: nat| (#[trigger] follow(par, w, k)) is Some implies ids[follow(par, w, k)->0] >= ids[w] by {
        lemma_cycle_closed(par, i, m, s, k);
        let r = (s + k) % m;
        assert(r < m) by (nonlinear_arith)
            requires
                m >= 1,
                r == (s + k) % m,
        ;
    }
    assert(s % m == s && t % m == t) by (nonlinear_arith)
        requires
            s < m,
            t < m,
    ;
    if follow(par, i, t) != follow(par, i, s) {
        // from x the chain reaches w, whose identifier is smaller
        let kk = (s + m - t) as nat;
        lemma_cycle_closed(par, i, m, t, kk);
        assert((t + kk) % m == s) by (nonlinear_arith)
            requires
                t + kk == s + m,
                s < m,
        ;
        assert(follow(par, x, kk) == Some(w));
        assert(ids[x] != ids[w]);
        assert(ids[x] >= ids[w]);
        assert(!cycle_min(par, ids, x));
    }
}


/// Distinct indices below `n` number at most `n`.
pub proof fn lemma_distinct_bounded(s: Seq<usize>, n: int)
    requires
        s.no_duplicates(),
        0 <= n,
        forall|j: int| 0 <= j < s.len() ==> (#[trigger] s[j]) < n,
    ensures
        s.len() <= n,
{
    let t = Seq::new(s.len(), |j: int| s[j] as int);
    assert(t.no_duplicates());
    t.unique_seq_to_set();
    vstd::set_lib::lemma_int_range(0, n);
    assert(t.to_set().subset_of(vstd::set_lib::set_int_range(0, n))) by {
        assert forall|x: int| t.to_set().contains(x) implies vstd::set_lib::set_int_range(0, n).contains(x) by {
            let j = choose|j: int| 0 <= j < t.len() && t[j] == x;
            assert(s[j] < n);
        }
    }
    vstd::set_lib::lemma_len_subset(t.to_set(), vstd::set_lib::set_int_range(0, n));
}


/// Without cycles, a chain of `k` links from one node visits `k + 1`
/// distinct nodes, so `k` stays below the number of nodes.
pub proof fn lemma_chain_shorter(par: Seq<Option<usize>>, v: int, k: nat)
    requires
        links_valid(par),
        acyclic(par),
        0 <= v < par.len(),
        follow(par, v, k) is Some,
    ensures
        k < par.len(),
{
    let n = par.len() as int;
    let chain = Seq::new(k + 1, |i: int| follow(par, v, i as nat)->0);
    assert forall|i: int| 0 <= i < chain.len() implies (#[trigger] follow(par, v, i as nat)) is Some by {
        if follow(par, v, i as nat) is None {
            lemma_follow_none_stays(par, v, i as nat, k);
        }
    }
    assert(chain.no_duplicates()) by {
        assert forall|i: int, j: int| 0 <= i < chain.len() && 0 <= j < chain.len() && i != j implies chain[i]
            != chain[j] by {
            let (a, b) = if i < j { (i, j) } else { (j, i) };
            assert(follow(par, v, a as nat) is Some);
            assert(follow(par, v, b as nat) is Some);
            lemma_follow_in_range(par, v, a as nat);
            let w = follow(par, v, a as nat)->0;
            lemma_follow_add(par, v, a as nat, (b - a) as nat);
            assert(a as nat + (b - a) as nat == b as nat);
            if chain[a] == chain[b] {
                assert(follow(par, w, (b - a) as nat) == Some(w));
            }
        }
    }
    chain.unique_seq_to_set();
    vstd::set_lib::lemma_int_range(0, n);
    assert(chain.to_set().subset_of(vstd::set_lib::set_int_range(0, n))) by {
        assert forall|x: int| chain.to_set().contains(x) implies vstd::set_lib::set_int_range(0, n).contains(x) by {
            let j = choose|j: int| 0 <= j < chain.len() && chain[j] == x;
            assert(follow(par, v, j as nat) is Some);
            lemma_follow_in_range(par, v, j as nat);
        }
    }
    vstd::set_lib::lemma_len_subset(chain.to_set(), vstd::set_lib::set_int_range(0, n));
}

/// The link out of the `j`-th node of a walk leads to its next node.
pub proof fn lemma_walk_link(par: Seq<Option<usize>>, start: int, path: Seq<usize>, j: int)
    requires
        links_valid(par),
        0 <= start < par.len(),
        walk_of(par, start, path),
        0 <= j < path.len(),
    ensures
        match par[path[j] as int] {
            Some(u) => Some(u as int),
            None => None,
        } == follow(par, start, (j + 1) as nat),
{
    lemma_follow_succ(par, start, j as nat);
}

/// Cutting cycles only removes links: a link stays or becomes absent, and
/// it changes exactly at a node with the smallest identifier on its cycle.
pub proof fn lemma_broken_cuts_only_cycle_mins(par: Seq<Option<usize>>, ids: Seq<u32>, i: int)
    requires
        links_valid(par),
        0 <= i < par.len(),
    ensures
        broken(par, ids)[i] == par[i] || broken(par, ids)[i] is None,
        broken(par, ids)[i] != par[i] <==> cycle_min(par, ids, i),
{
    if cycle_min(par, ids, i) {
        let m = choose|m: nat| m >= 1 && #[trigger] follow(par, i, m) == Some(i);
        assert(par[i] is Some);
    }
}

} // verus!
