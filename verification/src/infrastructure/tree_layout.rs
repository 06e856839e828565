//! The lines of the process-tree view: which process each line shows, in
//! depth-first order, and the guide characters before its name.
use crate::application::forest;
use crate::application::process::{
    build_outcome, index_of, lemma_every_process_has_a_root, lemma_sorted_no_duplicates, lemma_tree_is_forest,
    lists_exactly, tree_parents,
};
use crate::domain::process::{ProcessId, ProcessInfo, ProcessNode, ProcessSort, ProcessTree};
use vstd::prelude::*;

verus! {

/// One line of the tree view: the node it shows and the text before its name.
#[derive(Debug)]
pub struct TreeLine {
    pub node: usize,
    pub prefix: String,
}

/// The guide under an ancestor: a bar while that ancestor has siblings still to come.
pub open spec fn branch(continues: bool) -> Seq<char> {
    if continues {
        "│   "@
    } else {
        "    "@
    }
}

/// The guides for the ancestors at depths `1..anc.len()` (the root's own
/// column holds none); `anc[k]` says whether the ancestor at depth `k` has
/// siblings still to come.
pub open spec fn guides(anc: Seq<bool>) -> Seq<char>
    decreases anc.len(),
{
    if anc.len() <= 1 {
        Seq::empty()
    } else {
        guides(anc.drop_last()) + branch(anc.last())
    }
}

/// The connector of a non-root line: a corner for the last child, a tee otherwise.
pub open spec fn connector(depth: nat, last: bool) -> Seq<char> {
    if depth == 0 {
        Seq::empty()
    } else if last {
        "└── "@
    } else {
        "├── "@
    }
}

/// The text before a name: the guides of its ancestors, then its connector.
pub open spec fn line_prefix(anc: Seq<bool>, last: bool) -> Seq<char> {
    guides(anc) + connector(anc.len(), last)
}

/// The lines of the subtree of node `i` below ancestors `anc`, depth first.
pub open spec fn subtree_lines(
    nodes: Seq<ProcessNode>,
    i: int,
    last: bool,
    anc: Seq<bool>,
    fuel: nat,
) -> Seq<(usize, Seq<char>)>
    decreases fuel, 0int,
{
    if fuel == 0 || !(0 <= i < nodes.len()) {
        Seq::empty()
    } else {
        seq![(i as usize, line_prefix(anc, last))] + children_lines(
            nodes,
            nodes[i].children@,
            0,
            anc.push(!last),
            (fuel - 1) as nat,
        )
    }
}

/// The lines of the subtrees of `kids[k..]`, one after the other.
pub open spec fn children_lines(
    nodes: Seq<ProcessNode>,
    kids: Seq<usize>,
    k: int,
    anc: Seq<bool>,
    fuel: nat,
) -> Seq<(usize, Seq<char>)>
    decreases fuel, kids.len() - k + 1,
{
    if k < 0 || k >= kids.len() {
        Seq::empty()
    } else {
        subtree_lines(nodes, kids[k] as int, k + 1 == kids.len(), anc, fuel) + children_lines(
            nodes,
            kids,
            k + 1,
            anc,
            fuel,
        )
    }
}

/// The lines of the whole view: each root, then its descendants. Depth is
/// bounded by the number of nodes, which a tree without cycles never reaches.
pub open spec fn forest_lines(nodes: Seq<ProcessNode>, roots: Seq<usize>, k: int) -> Seq<(usize, Seq<char>)>
    decreases roots.len() - k,
{
    if k < 0 || k >= roots.len() {
        Seq::empty()
    } else {
        subtree_lines(nodes, roots[k] as int, true, Seq::empty(), nodes.len()) + forest_lines(
            nodes,
            roots,
            k + 1,
        )
    }
}

/// The tree is shaped by parent links `par` without cycles: every child
/// lists its parent, every index is in the arena.
pub open spec fn shaped_by(tree: ProcessTree, par: Seq<Option<usize>>) -> bool {
    &&& par.len() == tree.nodes@.len()
    &&& forest::links_valid(par)
    &&& forest::acyclic(par)
    &&& forall|j: int| 0 <= j < tree.roots@.len() ==> (#[trigger] tree.roots@[j]) < par.len()
    &&& forall|v: int, j: int|
        0 <= v < par.len() && 0 <= j < tree.nodes@[v].children@.len() ==> {
            let c = #[trigger] tree.nodes@[v].children@[j];
            &&& c < par.len()
            &&& par[c as int] == Some(v as usize)
        }
}

/// Each line as the node it shows and its prefix.
pub open spec fn line_view(lines: Seq<TreeLine>) -> Seq<(usize, Seq<char>)> {
    Seq::new(lines.len(), |i: int| (lines[i].node, lines[i].prefix@))
}

/// The lines still owed for the traversal stack (top last): entry
/// `(i, d, last)` is the subtree of node `i` at depth `d`, below the
/// ancestors whose continuation flags are `cont[..d]`.
spec fn pending(nodes: Seq<ProcessNode>, stack: Seq<(usize, usize, bool)>, cont: Seq<bool>) -> Seq<
    (usize, Seq<char>),
>
    decreases stack.len(),
{
    if stack.len() == 0 {
        Seq::empty()
    } else {
        let top = stack.last();
        subtree_lines(nodes, top.0 as int, top.2, cont.take(top.1 as int), (nodes.len() - top.1) as nat)
            + pending(nodes, stack.drop_last(), cont)
    }
}

/// Entries no deeper than `d` see only the flags below `d`.
proof fn lemma_pending_frame(
    nodes: Seq<ProcessNode>,
    stack: Seq<(usize, usize, bool)>,
    cont: Seq<bool>,
    other: Seq<bool>,
    d: int,
)
    requires
        forall|k: int| 0 <= k < stack.len() ==> (#[trigger] stack[k]).1 <= d,
        0 <= d <= cont.len(),
        d <= other.len(),
        cont.take(d) == other.take(d),
    ensures
        pending(nodes, stack, cont) == pending(nodes, stack, other),
    decreases stack.len(),
{
    if stack.len() > 0 {
        let e = stack.last().1 as int;
        assert(stack[stack.len() - 1].1 <= d);
        assert(e <= d);
        assert(cont.take(e) =~= other.take(e)) by {
            assert forall|x: int| 0 <= x < e implies cont.take(e)[x] == other.take(e)[x] by {
                assert(cont.take(d)[x] == other.take(d)[x]);
                assert(cont.take(d)[x] == cont[x]);
                assert(other.take(d)[x] == other[x]);
            }
        }
        let rest = stack.drop_last();
        assert forall|k: int| 0 <= k < rest.len() implies (#[trigger] rest[k]).1 <= d by {
            assert(rest[k] == stack[k]);
        }
        lemma_pending_frame(nodes, rest, cont, other, d);
    }
}

/// The lines of the process-tree view, in the order the view shows them:
/// depth first, roots and children in the tree's order, each with its
/// guides and connector.
pub fn tree_lines(tree: &ProcessTree) -> (lines: Vec<TreeLine>)
    requires
        exists|par: Seq<Option<usize>>| shaped_by(*tree, par),
    ensures
        line_view(lines@) == forest_lines(tree.nodes@, tree.roots@, 0),
{
    let ghost par = choose|par: Seq<Option<usize>>| shaped_by(*tree, par);
    let ghost nodes = tree.nodes@;
    let n = tree.nodes.len();
    let mut stack: Vec<(usize, usize, bool)> = Vec::new();
    let mut p = tree.roots.len();
    while p > 0
        invariant
            shaped_by(*tree, par),
            nodes == tree.nodes@,
            n == nodes.len(),
            p <= tree.roots.len(),
            pending(nodes, stack@, Seq::empty()) == forest_lines(nodes, tree.roots@, p as int),
            forall|k: int|
                0 <= k < stack.len() ==> {
                    let e = #[trigger] stack@[k];
                    &&& e.0 < n
                    &&& e.1 == 0
                },
        decreases p,
    {
        p -= 1;
        let r = tree.roots[p];
        proof {
            assert(tree.roots@[p as int] < par.len());
            let e = (r, 0usize, true);
            assert(stack@.push(e).drop_last() =~= stack@);
            assert(Seq::<bool>::empty().take(0) =~= Seq::<bool>::empty());
        }
        stack.push((r, 0, true));
    }
    let mut cont: Vec<bool> = Vec::new();
    let mut lines: Vec<TreeLine> = Vec::new();
    let ghost total = forest_lines(nodes, tree.roots@, 0);
    proof {
        assert(line_view(lines@) =~= Seq::empty());
        assert(cont@ =~= Seq::<bool>::empty());
        assert(line_view(lines@) + pending(nodes, stack@, cont@) =~= total);
        assert forall|k: int| 0 <= k < stack.len() implies forest::follow(par, (#[trigger] stack@[k]).0 as int, stack@[k].1 as nat) is Some by {
            assert(stack@[k].1 == 0);
        }
    }
    while stack.len() > 0
        invariant
            shaped_by(*tree, par),
            nodes == tree.nodes@,
            n == nodes.len(),
            line_view(lines@) + pending(nodes, stack@, cont@) == total,
            forall|k: int|
                0 <= k < stack.len() ==> {
                    let e = #[trigger] stack@[k];
                    &&& e.0 < n
                    &&& e.1 <= cont.len()
                    &&& forest::follow(par, e.0 as int, e.1 as nat) is Some
                },
            forall|a: int, b: int| 0 <= a <= b < stack.len() ==> (#[trigger] stack@[a]).1 <= (#[trigger] stack@[b]).1,
        decreases total.len() - lines.len(),
    {
        let ghost before = stack@;
        let ghost cont0 = cont@;
        let ghost lines0 = line_view(lines@);
        let (i, d, last) = stack.pop().unwrap();
        let ghost rest = stack@;
        proof {
            assert(before[before.len() - 1] == (i, d, last));
            assert(before.drop_last() == rest);
            forest::lemma_chain_shorter(par, i as int, d as nat);
            assert forall|k: int| 0 <= k < rest.len() implies (#[trigger] rest[k]).1 <= d by {
                assert(rest[k] == before[k]);
                assert(before[k].1 <= before[before.len() - 1].1);
            }
        }
        cont.truncate(d);
        let ghost anc = cont@;
        let mut label = String::new();
        if d > 1 {
            let mut j: usize = 1;
            while j < d
                invariant
                    1 <= j <= d,
                    anc == cont@,
                    anc.len() == d,
                    label@ == guides(anc.take(j as int)),
                decreases d - j,
            {
                proof {
                    assert(anc.take(j as int + 1).drop_last() =~= anc.take(j as int));
                }
                if cont[j] {
                    label.append("│   ");
                } else {
                    label.append("    ");
                }
                j += 1;
            }
            proof {
                assert(anc.take(d as int) =~= anc);
            }
        }
        if d > 0 {
            if last {
                label.append("└── ");
            } else {
                label.append("├── ");
            }
        }
        proof {
            assert(label@ == line_prefix(anc, last));
        }
        cont.push(!last);
        let ghost prefix = label@;
        lines.push(TreeLine { node: i, prefix: label });
        proof {
            assert(line_view(lines@) =~= lines0.push((i, prefix)));
            assert(cont@.take(d as int) =~= cont0.take(d as int));
            lemma_pending_frame(nodes, rest, cont0, cont@, d as int);
        }
        let kids = &tree.nodes[i].children;
        let ghost fuel = (n - d - 1) as nat;
        let mut q = kids.len();
        while q > 0
            invariant
                shaped_by(*tree, par),
                nodes == tree.nodes@,
                n == nodes.len(),
                i < n,
                d < n,
                kids@ == nodes[i as int].children@,
                forest::follow(par, i as int, d as nat) is Some,
                fuel == n - d - 1,
                q <= kids.len(),
                cont@.len() == d + 1,
                pending(nodes, stack@, cont@) == children_lines(nodes, kids@, q as int, cont@, fuel) + pending(
                    nodes,
                    rest,
                    cont@,
                ),
                forall|k: int|
                    0 <= k < stack.len() ==> {
                        let e = #[trigger] stack@[k];
                        &&& e.0 < n
                        &&& e.1 <= cont.len()
                        &&& forest::follow(par, e.0 as int, e.1 as nat) is Some
                    },
                forall|a: int, b: int| 0 <= a <= b < stack.len() ==> (#[trigger] stack@[a]).1 <= (#[trigger] stack@[b]).1,
                forall|k: int| 0 <= k < stack.len() ==> (#[trigger] stack@[k]).1 <= d + 1,
            decreases q,
        {
            q -= 1;
            let c = kids[q];
            let e = (c, d + 1, q + 1 == kids.len());
            proof {
                let cs = tree.nodes@[i as int].children@[q as int];
                assert(cs == c);
                assert(c < par.len() && par[c as int] == Some(i));
                assert(forest::follow(par, c as int, (d + 1) as nat) == forest::follow(par, i as int, d as nat));
                assert(stack@.push(e).drop_last() =~= stack@);
                assert(cont@.take((d + 1) as int) =~= cont@);
                assert((n - (d + 1)) as nat == fuel);
            }
            stack.push(e);
        }
        proof {
            assert(nodes[i as int].children@ == kids@);
            assert(line_view(lines@) + pending(nodes, stack@, cont@) =~= total);
        }
    }
    proof {
        assert(line_view(lines@) =~= total);
    }
    lines
}

/// A tree that `build_tree` returned is shaped by its parent links, so
/// `tree_lines` can lay it out.
pub proof fn lemma_built_tree_is_shaped(
    procs: Seq<ProcessInfo>,
    root: Option<ProcessId>,
    sort: ProcessSort,
    tree: ProcessTree,
)
    requires
        build_outcome(Ok(tree), procs, root, sort),
    ensures
        shaped_by(tree, tree_parents(procs)),
{
    let par = tree_parents(procs);
    lemma_tree_is_forest(procs);
    assert forall|j: int| 0 <= j < tree.roots@.len() implies (#[trigger] tree.roots@[j]) < par.len() by {
        match root {
            None => {
                assert(lists_exactly(tree.roots@, procs, sort, |x: usize| par[x as int] is None));
                assert(tree.roots@.contains(tree.roots@[j]));
            },
            Some(r) => {
                let pid = r.0;
                assert(exists|k: int| 0 <= k < procs.len() && procs[k].pid.0 == pid);
                assert(index_of(procs, pid) is Some);
            },
        }
    }
    assert forall|v: int, j: int|
        0 <= v < par.len() && 0 <= j < tree.nodes@[v].children@.len() implies {
            let c = #[trigger] tree.nodes@[v].children@[j];
            &&& c < par.len()
            &&& par[c as int] == Some(v as usize)
        } by {
        let c = tree.nodes@[v].children@[j];
        assert(lists_exactly(
            tree.nodes@[v].children@,
            procs,
            sort,
            |x: usize| par[x as int] == Some(v as usize),
        ));
        assert(tree.nodes@[v].children@.contains(c));
    }
}

/// How many lines show node `x`.
pub open spec fn occurrences(lines: Seq<(usize, Seq<char>)>, x: usize) -> nat
    decreases lines.len(),
{
    if lines.len() == 0 {
        0
    } else {
        occurrences(lines.drop_last(), x) + if lines.last().0 == x {
            1nat
        } else {
            0nat
        }
    }
}

proof fn lemma_occurrences_concat(a: Seq<(usize, Seq<char>)>, b: Seq<(usize, Seq<char>)>, x: usize)
    ensures
        occurrences(a + b, x) == occurrences(a, x) + occurrences(b, x),
    decreases b.len(),
{
    if b.len() == 0 {
        assert(a + b =~= a);
    } else {
        assert((a + b).drop_last() =~= a + b.drop_last());
        lemma_occurrences_concat(a, b.drop_last(), x);
    }
}

/// The children lists hold every node whose link points to their owner, once.
pub open spec fn children_complete(tree: ProcessTree, par: Seq<Option<usize>>) -> bool {
    &&& forall|v: int, x: usize|
        0 <= v < par.len() && x < par.len() && par[x as int] == Some(v as usize)
            ==> #[trigger] tree.nodes@[v].children@.contains(x)
    &&& forall|v: int| 0 <= v < par.len() ==> (#[trigger] tree.nodes@[v]).children@.no_duplicates()
}

/// Two siblings have no descendant in common.
proof fn lemma_siblings_disjoint(par: Seq<Option<usize>>, p: int, c1: int, c2: int, x: int)
    requires
        forest::links_valid(par),
        forest::acyclic(par),
        par.len() <= usize::MAX,
        0 <= p < par.len(),
        0 <= c1 < par.len(),
        0 <= c2 < par.len(),
        0 <= x < par.len(),
        par[c1] == Some(p as usize),
        par[c2] == Some(p as usize),
        c1 != c2,
        forest::descends_from(par, x, c1),
    ensures
        !forest::descends_from(par, x, c2),
{
    if forest::descends_from(par, x, c2) {
        let k1 = choose|k: nat| #[trigger] forest::follow(par, x, k) == Some(c1);
        let k2 = choose|k: nat| #[trigger] forest::follow(par, x, k) == Some(c2);
        let (a, b, ka, kb) = if k1 <= k2 { (c1, c2, k1, k2) } else { (c2, c1, k2, k1) };
        let d = (kb - ka) as nat;
        forest::lemma_follow_add(par, x, ka, d);
        assert(ka + d == kb);
        assert(forest::follow(par, a, d) == Some(b));
        assert(d >= 1);
        assert(forest::follow(par, p, 0) == Some(p));
        assert(forest::follow(par, b, 1) == Some(p));
        assert(forest::follow(par, a, 1) == Some(p));
        forest::lemma_follow_add(par, a, d, 1);
        forest::lemma_follow_add(par, a, 1, d);
        assert(d + 1 == 1 + d);
        assert(forest::follow(par, p, d) == Some(p));
    }
}

/// A node is not below its own child.
proof fn lemma_not_below_child(par: Seq<Option<usize>>, p: int, c: int)
    requires
        forest::links_valid(par),
        forest::acyclic(par),
        par.len() <= usize::MAX,
        0 <= p < par.len(),
        0 <= c < par.len(),
        par[c] == Some(p as usize),
    ensures
        !forest::descends_from(par, p, c),
{
    if forest::descends_from(par, p, c) {
        let k = choose|k: nat| #[trigger] forest::follow(par, p, k) == Some(c);
        assert(forest::follow(par, p, 0) == Some(p));
        assert(forest::follow(par, c, 1) == Some(p));
        forest::lemma_follow_add(par, p, k, 1);
        assert(forest::follow(par, p, k + 1) == Some(p));
    }
}

/// Below `p` and not `p` itself means below one of `p`'s children, and below
/// a child means below `p`.
proof fn lemma_below_children(tree: ProcessTree, par: Seq<Option<usize>>, p: int, x: int)
    requires
        shaped_by(tree, par),
        children_complete(tree, par),
        0 <= p < par.len(),
        0 <= x < par.len(),
    ensures
        (x != p && forest::descends_from(par, x, p)) <==> exists|q: int|
            0 <= q < tree.nodes@[p].children@.len() && forest::descends_from(
                par,
                x,
                #[trigger] tree.nodes@[p].children@[q] as int,
            ),
{
    let kids = tree.nodes@[p].children@;
    assert(tree.nodes@.len() == tree.nodes.len());
    assert(par.len() <= usize::MAX);
    if x != p && forest::descends_from(par, x, p) {
        let k = choose|k: nat| #[trigger] forest::follow(par, x, k) == Some(p);
        assert(k >= 1);
        let km = (k - 1) as nat;
        if forest::follow(par, x, km) is None {
            forest::lemma_follow_none_stays(par, x, km, k);
        }
        let c = forest::follow(par, x, km)->0;
        forest::lemma_follow_in_range(par, x, km);
        forest::lemma_follow_add(par, x, km, 1);
        assert(km + 1 == k);
        assert(forest::follow(par, c, 1) == Some(p));
        assert(par[c] is Some);
        let u = par[c]->0;
        assert(forest::follow(par, u as int, 0) == Some(u as int));
        assert(u as int == p);
        assert(par[c] == Some(p as usize));
        assert(kids.contains(c as usize));
        let q = choose|q: int| 0 <= q < kids.len() && kids[q] == c as usize;
        assert(forest::descends_from(par, x, kids[q] as int));
    }
    if exists|q: int| 0 <= q < kids.len() && forest::descends_from(par, x, #[trigger] kids[q] as int) {
        let q = choose|q: int| 0 <= q < kids.len() && forest::descends_from(par, x, #[trigger] kids[q] as int);
        let c = kids[q] as int;
        assert(c < par.len() && par[c] == Some(p as usize));
        let k = choose|k: nat| #[trigger] forest::follow(par, x, k) == Some(c);
        assert(forest::follow(par, p, 0) == Some(p));
        assert(forest::follow(par, c, 1) == Some(p));
        forest::lemma_follow_add(par, x, k, 1);
        assert(forest::follow(par, x, k + 1) == Some(p));
        lemma_not_below_child(par, p, c);
        if x == p {
            assert(forest::descends_from(par, p, c));
        }
    }
}

/// Each node below `i`, `i` included, is shown once among the lines of
/// `i`'s subtree, and no other node is, when the fuel outlasts every chain
/// that leads to `i`.
proof fn lemma_subtree_counts(
    tree: ProcessTree,
    par: Seq<Option<usize>>,
    i: int,
    last: bool,
    anc: Seq<bool>,
    fuel: nat,
    x: usize,
)
    requires
        shaped_by(tree, par),
        children_complete(tree, par),
        0 <= i < par.len(),
        forall|v: int, k: nat| 0 <= v < par.len() && #[trigger] forest::follow(par, v, k) == Some(i) ==> k < fuel,
    ensures
        occurrences(subtree_lines(tree.nodes@, i, last, anc, fuel), x) == if x < par.len()
            && forest::descends_from(par, x as int, i) {
            1nat
        } else {
            0nat
        },
    decreases fuel, 0int,
{
    let nodes = tree.nodes@;
    let kids = nodes[i].children@;
    assert(nodes.len() == tree.nodes.len());
    assert(forest::follow(par, i, 0) == Some(i));
    let head = seq![(i as usize, line_prefix(anc, last))];
    let below = children_lines(nodes, kids, 0, anc.push(!last), (fuel - 1) as nat);
    assert(subtree_lines(nodes, i, last, anc, fuel) == head + below);
    lemma_occurrences_concat(head, below, x);
    assert(head.drop_last() =~= Seq::<(usize, Seq<char>)>::empty());
    lemma_children_counts(tree, par, i, 0, anc.push(!last), (fuel - 1) as nat, x);
    assert(occurrences(head.drop_last(), x) == 0);
    assert(head.last().0 == i as usize);
    assert(occurrences(head, x) == if i as usize == x { 1nat } else { 0nat });
    assert((i as usize == x) == (x as int == i));
    if x < par.len() {
        lemma_below_children(tree, par, i, x as int);
        if x as int == i {
            assert(forest::descends_from(par, i, i));
            assert forall|q: int| 0 <= q < kids.len() implies !forest::descends_from(par, x as int, #[trigger] kids[q] as int) by {
                assert(kids[q] < par.len() && par[kids[q] as int] == Some(i as usize));
                lemma_not_below_child(par, i, kids[q] as int);
            }
        }
    }
}

/// Each node below the children `kids[k0..]` of `p` is shown once among
/// their lines, and no other node is.
proof fn lemma_children_counts(
    tree: ProcessTree,
    par: Seq<Option<usize>>,
    p: int,
    k0: int,
    anc: Seq<bool>,
    fuel: nat,
    x: usize,
)
    requires
        shaped_by(tree, par),
        children_complete(tree, par),
        0 <= p < par.len(),
        0 <= k0,
        forall|v: int, k: nat| 0 <= v < par.len() && #[trigger] forest::follow(par, v, k) == Some(p) ==> k < fuel + 1,
    ensures
        occurrences(children_lines(tree.nodes@, tree.nodes@[p].children@, k0, anc, fuel), x) == if x < par.len()
            && exists|q: int|
            k0 <= q < tree.nodes@[p].children@.len() && forest::descends_from(
                par,
                x as int,
                #[trigger] tree.nodes@[p].children@[q] as int,
            ) {
            1nat
        } else {
            0nat
        },
    decreases fuel, tree.nodes@[p].children@.len() - k0 + 1,
{
    let nodes = tree.nodes@;
    let kids = nodes[p].children@;
    assert(nodes.len() == tree.nodes.len());
    if k0 >= kids.len() {
        assert(children_lines(nodes, kids, k0, anc, fuel) == Seq::<(usize, Seq<char>)>::empty());
    } else {
        let c = kids[k0] as int;
        assert(c < par.len() && par[c] == Some(p as usize));
        assert forall|v: int, k: nat| 0 <= v < par.len() && #[trigger] forest::follow(par, v, k) == Some(c) implies k < fuel by {
            assert(forest::follow(par, p, 0) == Some(p));
            assert(forest::follow(par, c, 1) == Some(p));
            forest::lemma_follow_add(par, v, k, 1);
            assert(forest::follow(par, v, k + 1) == Some(p));
        }
        let first = subtree_lines(nodes, c, k0 + 1 == kids.len(), anc, fuel);
        let rest = children_lines(nodes, kids, k0 + 1, anc, fuel);
        assert(children_lines(nodes, kids, k0, anc, fuel) == first + rest);
        lemma_occurrences_concat(first, rest, x);
        lemma_subtree_counts(tree, par, c, k0 + 1 == kids.len(), anc, fuel, x);
        lemma_children_counts(tree, par, p, k0 + 1, anc, fuel, x);
        if x < par.len() && forest::descends_from(par, x as int, c) {
            assert forall|q: int| k0 + 1 <= q < kids.len() implies !forest::descends_from(par, x as int, #[trigger] kids[q] as int) by {
                assert(kids[q] != kids[k0]);
                assert(kids[q] < par.len() && par[kids[q] as int] == Some(p as usize));
                lemma_siblings_disjoint(par, p, c, kids[q] as int, x as int);
            }
        }
        if x < par.len() && exists|q: int| k0 <= q < kids.len() && forest::descends_from(par, x as int, #[trigger] kids[q] as int) {
            let q = choose|q: int| k0 <= q < kids.len() && forest::descends_from(par, x as int, #[trigger] kids[q] as int);
            if q > k0 {
                assert(k0 + 1 <= q);
            }
        }
    }
}

/// Two roots without parents have no descendant in common.
proof fn lemma_roots_disjoint(par: Seq<Option<usize>>, r1: int, r2: int, x: int)
    requires
        forest::links_valid(par),
        0 <= r1 < par.len(),
        0 <= r2 < par.len(),
        0 <= x < par.len(),
        par[r1] is None,
        par[r2] is None,
        r1 != r2,
        forest::descends_from(par, x, r1),
    ensures
        !forest::descends_from(par, x, r2),
{
    if forest::descends_from(par, x, r2) {
        let k1 = choose|k: nat| #[trigger] forest::follow(par, x, k) == Some(r1);
        let k2 = choose|k: nat| #[trigger] forest::follow(par, x, k) == Some(r2);
        let (a, b, ka, kb) = if k1 <= k2 { (r1, r2, k1, k2) } else { (r2, r1, k2, k1) };
        let d = (kb - ka) as nat;
        forest::lemma_follow_add(par, x, ka, d);
        assert(ka + d == kb);
        assert(forest::follow(par, a, d) == Some(b));
        assert(d >= 1);
    }
}

/// Each node below one of `roots[k0..]` is shown once among their lines,
/// and no other node is, when the roots have no parent and differ.
proof fn lemma_forest_counts(tree: ProcessTree, par: Seq<Option<usize>>, k0: int, x: usize)
    requires
        shaped_by(tree, par),
        children_complete(tree, par),
        0 <= k0,
        tree.roots@.no_duplicates(),
        forall|j: int| 0 <= j < tree.roots@.len() ==> par[#[trigger] tree.roots@[j] as int] is None,
    ensures
        occurrences(forest_lines(tree.nodes@, tree.roots@, k0), x) == if x < par.len() && exists|j: int|
            k0 <= j < tree.roots@.len() && forest::descends_from(par, x as int, #[trigger] tree.roots@[j] as int) {
            1nat
        } else {
            0nat
        },
    decreases tree.roots@.len() - k0,
{
    let nodes = tree.nodes@;
    let roots = tree.roots@;
    assert(nodes.len() == tree.nodes.len());
    if k0 >= roots.len() {
        assert(forest_lines(nodes, roots, k0) == Seq::<(usize, Seq<char>)>::empty());
    } else {
        let r = roots[k0] as int;
        assert(roots[k0] < par.len());
        assert forall|v: int, k: nat| 0 <= v < par.len() && #[trigger] forest::follow(par, v, k) == Some(r) implies k < nodes.len() by {
            forest::lemma_chain_shorter(par, v, k);
        }
        let first = subtree_lines(nodes, r, true, Seq::empty(), nodes.len());
        let rest = forest_lines(nodes, roots, k0 + 1);
        assert(forest_lines(nodes, roots, k0) == first + rest);
        lemma_occurrences_concat(first, rest, x);
        lemma_subtree_counts(tree, par, r, true, Seq::empty(), nodes.len(), x);
        lemma_forest_counts(tree, par, k0 + 1, x);
        if x < par.len() && forest::descends_from(par, x as int, r) {
            assert forall|j: int| k0 + 1 <= j < roots.len() implies !forest::descends_from(par, x as int, #[trigger] roots[j] as int) by {
                assert(roots[j] != roots[k0]);
                assert(roots[j] < par.len());
                lemma_roots_disjoint(par, r, roots[j] as int, x as int);
            }
        }
        if x < par.len() && exists|j: int| k0 <= j < roots.len() && forest::descends_from(par, x as int, #[trigger] roots[j] as int) {
            let j = choose|j: int| k0 <= j < roots.len() && forest::descends_from(par, x as int, #[trigger] roots[j] as int);
            if j > k0 {
                assert(k0 + 1 <= j);
            }
        }
    }
}

/// A built tree lists every child of every process, once.
proof fn lemma_built_tree_is_complete(
    procs: Seq<ProcessInfo>,
    root: Option<ProcessId>,
    sort: ProcessSort,
    tree: ProcessTree,
)
    requires
        build_outcome(Ok(tree), procs, root, sort),
    ensures
        children_complete(tree, tree_parents(procs)),
{
    let par = tree_parents(procs);
    assert forall|v: int| 0 <= v < par.len() implies (#[trigger] tree.nodes@[v]).children@.no_duplicates() by {
        assert(lists_exactly(tree.nodes@[v].children@, procs, sort, |y: usize| par[y as int] == Some(v as usize)));
        lemma_sorted_no_duplicates(tree.nodes@[v].children@, procs, sort);
    }
    assert forall|v: int, x: usize|
        0 <= v < par.len() && x < par.len() && par[x as int] == Some(v as usize) implies #[trigger] tree.nodes@[v].children@.contains(x) by {
        assert(lists_exactly(tree.nodes@[v].children@, procs, sort, |y: usize| par[y as int] == Some(v as usize)));
    }
}

/// Without a selected root, the tree view draws every process of the
/// snapshot exactly once, and nothing else.
pub proof fn lemma_each_process_drawn_once(procs: Seq<ProcessInfo>, sort: ProcessSort, tree: ProcessTree)
    requires
        build_outcome(Ok(tree), procs, None, sort),
    ensures
        forall|x: usize|
            #[trigger] occurrences(forest_lines(tree.nodes@, tree.roots@, 0), x) == if (x as int) < procs.len() {
                1nat
            } else {
                0nat
            },
{
    let par = tree_parents(procs);
    let roots = tree.roots@;
    lemma_built_tree_is_shaped(procs, None, sort, tree);
    lemma_built_tree_is_complete(procs, None, sort, tree);
    lemma_tree_is_forest(procs);
    assert(tree.nodes@.len() == tree.nodes.len());
    assert(lists_exactly(roots, procs, sort, |y: usize| par[y as int] is None));
    lemma_sorted_no_duplicates(roots, procs, sort);
    assert forall|j: int| 0 <= j < roots.len() implies par[#[trigger] roots[j] as int] is None by {
        assert(roots.contains(roots[j]));
    }
    assert forall|x: usize|
        #[trigger] occurrences(forest_lines(tree.nodes@, roots, 0), x) == if (x as int) < procs.len() {
            1nat
        } else {
            0nat
        } by {
        lemma_forest_counts(tree, par, 0, x);
        if (x as int) < procs.len() {
            lemma_every_process_has_a_root(procs, x as int);
            let k = choose|k: nat|
                (#[trigger] forest::follow(par, x as int, k)) matches Some(r) && par[r] is None;
            let r = forest::follow(par, x as int, k)->0;
            forest::lemma_follow_in_range(par, x as int, k);
            assert(roots.contains(r as usize));
            let j = choose|j: int| 0 <= j < roots.len() && roots[j] == r as usize;
            assert(forest::descends_from(par, x as int, roots[j] as int));
        }
    }
}

/// With a selected root, the tree view draws exactly the selected process
/// and the processes below it, each once.
pub proof fn lemma_selected_branch_drawn_once(
    procs: Seq<ProcessInfo>,
    pid: ProcessId,
    sort: ProcessSort,
    tree: ProcessTree,
)
    requires
        build_outcome(Ok(tree), procs, Some(pid), sort),
    ensures
        forall|x: usize|
            #[trigger] occurrences(forest_lines(tree.nodes@, tree.roots@, 0), x) == if (x as int) < procs.len()
                && forest::descends_from(tree_parents(procs), x as int, index_of(procs, pid.0)->0) {
                1nat
            } else {
                0nat
            },
{
    let par = tree_parents(procs);
    let nodes = tree.nodes@;
    let roots = tree.roots@;
    lemma_built_tree_is_shaped(procs, Some(pid), sort, tree);
    lemma_built_tree_is_complete(procs, Some(pid), sort, tree);
    lemma_tree_is_forest(procs);
    let sel = index_of(procs, pid.0)->0;
    assert(sel < procs.len()) by {
        assert(exists|k: int| 0 <= k < procs.len() && procs[k].pid.0 == pid.0);
    }
    assert(nodes.len() == tree.nodes.len());
    assert(roots == seq![sel as usize]);
    assert(roots[0] as int == sel);
    assert forall|v: int, k: nat| 0 <= v < par.len() && #[trigger] forest::follow(par, v, k) == Some(sel) implies k < nodes.len() by {
        forest::lemma_chain_shorter(par, v, k);
    }
    let first = subtree_lines(nodes, sel, true, Seq::empty(), nodes.len());
    assert(forest_lines(nodes, roots, 1) == Seq::<(usize, Seq<char>)>::empty());
    assert(forest_lines(nodes, roots, 0) == first + forest_lines(nodes, roots, 1));
    assert(forest_lines(nodes, roots, 0) =~= first);
    assert forall|x: usize|
        #[trigger] occurrences(forest_lines(nodes, roots, 0), x) == if (x as int) < procs.len()
            && forest::descends_from(par, x as int, sel) {
            1nat
        } else {
            0nat
        } by {
        lemma_subtree_counts(tree, par, sel, true, Seq::empty(), nodes.len(), x);
    }
}

} // verus!
