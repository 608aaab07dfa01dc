//! The dependency graph of a project: group elimination, the calculation window
//! and structural issues.
use vstd::prelude::*;
use crate::issue::{IssueCode, PlanningIssue};
use petgraph::algo::{toposort, tred};
use petgraph::graph::DiGraph;
use petgraph::visit::{EdgeRef, IntoEdgeReferences};

verus! {

/// A node of the dependency graph, with the id of its task.
#[derive(Clone, Copy, Debug, PartialEq, Eq, Structural)]
pub enum Node {
    Task(i32),
    Requirement(i32),
    Milestone(i32),
    Group(i32),
}

/// A directed edge, from predecessor to successor, by node position.
pub type Edge = (usize, usize);

/// All edges join nodes of the graph.
pub open spec fn edges_in(n: int, edges: Seq<Edge>) -> bool {
    forall|i: int| 0 <= i < edges.len() ==> (#[trigger] edges[i]).0 < n && edges[i].1 < n
}

/// The edges after removing node `g`, each of its predecessors joined to each of
/// its successors.
pub open spec fn eliminated(edges: Seq<Edge>, g: usize, e: Edge) -> bool {
    e.0 != g && e.1 != g && (edges.contains(e) || (edges.contains((e.0, g)) && edges.contains((g, e.1))))
}

/// Removes node `g`: every edge into `g` is joined with every edge out of it.
pub fn eliminate_group(edges: &Vec<Edge>, g: usize) -> (r: Vec<Edge>)
    ensures
        forall|e: Edge| #[trigger] r@.contains(e) <==> eliminated(edges@, g, e),
{
    let mut r: Vec<Edge> = Vec::new();
    let n = edges.len();
    let mut i: usize = 0;
    while i < n
        invariant
            i <= n,
            n == edges@.len(),
            forall|e: Edge| #[trigger] r@.contains(e) <==> e.0 != g && e.1 != g && exists|j: int| 0 <= j < i && edges@[j] == e,
        decreases n - i,
    {
        let e = edges[i];
        let ghost before = r@;
        if e.0 != g && e.1 != g {
            r.push(e);
        }
        proof {
            assert forall|x: Edge| #[trigger] r@.contains(x) <==> x.0 != g && x.1 != g && exists|j: int| 0 <= j < i + 1 && edges@[j] == x by {
                if r@.contains(x) && !before.contains(x) {
                    assert(r@.last() == x) by {
                        let k = choose|k: int| 0 <= k < r@.len() && r@[k] == x;
                        if k < before.len() {
                            assert(r@[k] == before[k]);
                        }
                    }
                    assert(edges@[i as int] == x);
                }
                if before.contains(x) {
                    let k = choose|k: int| 0 <= k < before.len() && before[k] == x;
                    assert(r@[k] == x);
                }
                if x.0 != g && x.1 != g && (exists|j: int| 0 <= j < i + 1 && edges@[j] == x) {
                    let j = choose|j: int| 0 <= j < i + 1 && edges@[j] == x;
                    if j == i {
                        assert(r@[r@.len() - 1] == x);
                    } else {
                        assert(before.contains(x));
                        let k = choose|k: int| 0 <= k < before.len() && before[k] == x;
                        assert(r@[k] == x);
                    }
                }
            }
        }
        i += 1;
    }
    let mut a: usize = 0;
    while a < n
        invariant
            a <= n,
            n == edges@.len(),
            forall|e: Edge| #[trigger] r@.contains(e) <==> e.0 != g && e.1 != g && (edges@.contains(e)
                || exists|x: int, y: int| 0 <= x < a && 0 <= y < n && edges@[x] == (e.0, g) && edges@[y] == (g, e.1)),
        decreases n - a,
    {
        let ea = edges[a];
        let mut b: usize = 0;
        while b < n
            invariant
                a < n,
                b <= n,
                n == edges@.len(),
                ea == edges@[a as int],
                forall|e: Edge| #[trigger] r@.contains(e) <==> e.0 != g && e.1 != g && (edges@.contains(e)
                    || exists|x: int, y: int| 0 <= x < a && 0 <= y < n && edges@[x] == (e.0, g) && edges@[y] == (g, e.1)
                    || exists|y: int| 0 <= y < b && ea == (e.0, g) && edges@[y] == (g, e.1)),
            decreases n - b,
        {
            let eb = edges[b];
            let ghost before = r@;
            if ea.1 == g && eb.0 == g && ea.0 != g && eb.1 != g {
                r.push((ea.0, eb.1));
            }
            proof {
                assert forall|e: Edge| #[trigger] r@.contains(e) <==> e.0 != g && e.1 != g && (edges@.contains(e)
                    || exists|x: int, y: int| 0 <= x < a && 0 <= y < n && edges@[x] == (e.0, g) && edges@[y] == (g, e.1)
                    || exists|y: int| 0 <= y < b + 1 && ea == (e.0, g) && edges@[y] == (g, e.1)) by {
                    if r@.contains(e) && !before.contains(e) {
                        let k = choose|k: int| 0 <= k < r@.len() && r@[k] == e;
                        if k < before.len() {
                            assert(r@[k] == before[k]);
                        }
                        assert(e == (ea.0, eb.1));
                        assert(edges@[b as int] == (g, e.1));
                    }
                    if before.contains(e) {
                        let k = choose|k: int| 0 <= k < before.len() && before[k] == e;
                        assert(r@[k] == e);
                    }
                    if e.0 != g && e.1 != g && (exists|y: int| 0 <= y < b + 1 && ea == (e.0, g) && edges@[y] == (g, e.1))
                        && !(exists|y: int| 0 <= y < b && ea == (e.0, g) && edges@[y] == (g, e.1)) {
                        assert(edges@[b as int] == (g, e.1));
                        assert(r@[r@.len() - 1] == e);
                    }
                }
            }
            b += 1;
        }
        proof {
            assert forall|e: Edge| #[trigger] r@.contains(e) <==> e.0 != g && e.1 != g && (edges@.contains(e)
                || exists|x: int, y: int| 0 <= x < a + 1 && 0 <= y < n && edges@[x] == (e.0, g) && edges@[y] == (g, e.1)) by {
                if exists|x: int, y: int| 0 <= x < a + 1 && 0 <= y < n && edges@[x] == (e.0, g) && edges@[y] == (g, e.1) {
                    let (x, y) = choose|x: int, y: int| 0 <= x < a + 1 && 0 <= y < n && edges@[x] == (e.0, g) && edges@[y] == (g, e.1);
                    if x == a {
                        assert(exists|y2: int| 0 <= y2 < n && ea == (e.0, g) && edges@[y2] == (g, e.1));
                    }
                }
            }
        }
        a += 1;
    }
    proof {
        assert forall|e: Edge| #[trigger] r@.contains(e) <==> eliminated(edges@, g, e) by {
            if edges@.contains((e.0, g)) && edges@.contains((g, e.1)) {
                let x = choose|x: int| 0 <= x < n && edges@[x] == (e.0, g);
                let y = choose|y: int| 0 <= y < n && edges@[y] == (g, e.1);
                assert(exists|x: int, y: int| 0 <= x < n && 0 <= y < n && edges@[x] == (e.0, g) && edges@[y] == (g, e.1));
            }
        }
    }
    r
}

/// Eliminating a group joins each node with an edge into it to each node with an
/// edge out of it, and keeps every edge that does not touch it.
pub proof fn lemma_elimination_connects(edges: Seq<Edge>, g: usize, after: Seq<Edge>, u: usize, w: usize)
    requires
        forall|e: Edge| #[trigger] after.contains(e) <==> eliminated(edges, g, e),
        u != g,
        w != g,
    ensures
        edges.contains((u, g)) && edges.contains((g, w)) ==> after.contains((u, w)),
        edges.contains((u, w)) ==> after.contains((u, w)),
        !after.contains((g, w)) && !after.contains((u, g)),
{
    assert(after.contains((u, w)) <==> eliminated(edges, g, (u, w)));
    assert(after.contains((g, w)) <==> eliminated(edges, g, (g, w)));
    assert(after.contains((u, g)) <==> eliminated(edges, g, (u, g)));
}

/// Node `x` is a group among the first `lim` nodes.
pub open spec fn inner_ok(nodes: Seq<Node>, lim: int, x: usize) -> bool {
    x < lim && x < nodes.len() && nodes[x as int] is Group
}

/// A walk of exactly `k` edges from `u` to `w` whose inner nodes are groups
/// among the first `lim` nodes.
pub open spec fn gwalk(nodes: Seq<Node>, edges: Seq<Edge>, lim: int, u: usize, w: usize, k: nat) -> bool
    decreases k,
{
    if k == 0 {
        false
    } else if k == 1 {
        edges.contains((u, w))
    } else {
        exists|x: usize| inner_ok(nodes, lim, x) && #[trigger] edges.contains((u, x)) && gwalk(nodes, edges, lim, x, w, (k - 1) as nat)
    }
}

/// Some walk leads from `u` to `w` through groups among the first `lim` nodes only.
pub open spec fn group_linked(nodes: Seq<Node>, edges: Seq<Edge>, lim: int, u: usize, w: usize) -> bool {
    exists|k: nat| k >= 1 && #[trigger] gwalk(nodes, edges, lim, u, w, k)
}

proof fn lemma_gwalk_concat(nodes: Seq<Node>, edges: Seq<Edge>, lim: int, u: usize, x: usize, w: usize, k1: nat, k2: nat)
    requires
        gwalk(nodes, edges, lim, u, x, k1),
        inner_ok(nodes, lim, x),
        gwalk(nodes, edges, lim, x, w, k2),
    ensures
        gwalk(nodes, edges, lim, u, w, k1 + k2),
    decreases k1,
{
    if k1 == 1 {
        assert(k2 >= 1);
        assert(edges.contains((u, x)));
    } else {
        let y = choose|y: usize| inner_ok(nodes, lim, y) && #[trigger] edges.contains((u, y)) && gwalk(nodes, edges, lim, y, x, (k1 - 1) as nat);
        lemma_gwalk_concat(nodes, edges, lim, y, x, w, (k1 - 1) as nat, k2);
        assert(gwalk(nodes, edges, lim, y, w, (k1 - 1 + k2) as nat));
        assert((k1 + k2 - 1) as nat == (k1 - 1 + k2) as nat);
    }
}

proof fn lemma_gwalk_mono(nodes: Seq<Node>, edges: Seq<Edge>, lim: int, lim2: int, u: usize, w: usize, k: nat)
    requires
        gwalk(nodes, edges, lim, u, w, k),
        lim <= lim2,
    ensures
        gwalk(nodes, edges, lim2, u, w, k),
    decreases k,
{
    if k > 1 {
        let y = choose|y: usize| inner_ok(nodes, lim, y) && #[trigger] edges.contains((u, y)) && gwalk(nodes, edges, lim, y, w, (k - 1) as nat);
        lemma_gwalk_mono(nodes, edges, lim, lim2, y, w, (k - 1) as nat);
        assert(inner_ok(nodes, lim2, y));
    }
}

/// Allowing one more node that is no group adds no walk.
proof fn lemma_gwalk_nongroup(nodes: Seq<Node>, edges: Seq<Edge>, g: int, u: usize, w: usize, k: nat)
    requires
        gwalk(nodes, edges, g + 1, u, w, k),
        0 <= g < nodes.len(),
        !(nodes[g] is Group),
    ensures
        gwalk(nodes, edges, g, u, w, k),
    decreases k,
{
    if k > 1 {
        let y = choose|y: usize| inner_ok(nodes, g + 1, y) && #[trigger] edges.contains((u, y)) && gwalk(nodes, edges, g + 1, y, w, (k - 1) as nat);
        lemma_gwalk_nongroup(nodes, edges, g, y, w, (k - 1) as nat);
        assert(inner_ok(nodes, g, y));
    }
}

/// A walk that may pass group `g` either avoids it or passes it: it then splits
/// into a walk to `g` and a walk from `g`, neither passing `g` inside.
proof fn lemma_gwalk_split(nodes: Seq<Node>, edges: Seq<Edge>, g: usize, u: usize, w: usize, k: nat)
    requires
        gwalk(nodes, edges, g + 1, u, w, k),
        g < nodes.len(),
    ensures
        group_linked(nodes, edges, g as int, u, w) || (group_linked(nodes, edges, g as int, u, g) && group_linked(
            nodes,
            edges,
            g as int,
            g,
            w,
        )),
    decreases k,
{
    if k == 1 {
        assert(gwalk(nodes, edges, g as int, u, w, 1));
    } else {
        let x = choose|x: usize| inner_ok(nodes, g + 1, x) && #[trigger] edges.contains((u, x)) && gwalk(nodes, edges, g + 1, x, w, (k - 1) as nat);
        lemma_gwalk_split(nodes, edges, g, x, w, (k - 1) as nat);
        if x == g {
            assert(gwalk(nodes, edges, g as int, u, g, 1));
            if group_linked(nodes, edges, g as int, g, w) {
            } else {
                assert(group_linked(nodes, edges, g as int, g, w));
            }
        } else {
            assert(inner_ok(nodes, g as int, x));
            if group_linked(nodes, edges, g as int, x, w) {
                let k1 = choose|k1: nat| k1 >= 1 && #[trigger] gwalk(nodes, edges, g as int, x, w, k1);
                assert(gwalk(nodes, edges, g as int, u, x, 1));
                lemma_gwalk_concat(nodes, edges, g as int, u, x, w, 1, k1);
                assert(gwalk(nodes, edges, g as int, u, w, 1 + k1));
            } else {
                let k1 = choose|k1: nat| k1 >= 1 && #[trigger] gwalk(nodes, edges, g as int, x, g, k1);
                assert(gwalk(nodes, edges, g as int, u, x, 1));
                lemma_gwalk_concat(nodes, edges, g as int, u, x, g, 1, k1);
                assert(gwalk(nodes, edges, g as int, u, g, 1 + k1));
            }
        }
    }
}

/// Removes every group node, joining its predecessors to its successors: no edge
/// touches a group afterwards, and every edge between two other nodes stays.
pub fn remove_groups(nodes: &Vec<Node>, edges: &Vec<Edge>) -> (r: Vec<Edge>)
    requires
        edges_in(nodes@.len() as int, edges@),
    ensures
        edges_in(nodes@.len() as int, r@),
        forall|i: int| 0 <= i < r@.len() ==> !(nodes@[(#[trigger] r@[i]).0 as int] is Group) && !(nodes@[r@[i].1 as int] is Group),
        forall|e: Edge|
            #[trigger] edges@.contains(e) && !(nodes@[e.0 as int] is Group) && !(nodes@[e.1 as int] is Group) ==> r@.contains(e),
        forall|u: usize, w: usize|
            u < nodes@.len() && w < nodes@.len() && !(nodes@[u as int] is Group) && !(nodes@[w as int] is Group) ==> (
            r@.contains((u, w)) <==> #[trigger] group_linked(nodes@, edges@, nodes@.len() as int, u, w)),
{
    let n = nodes.len();
    let mut cur: Vec<Edge> = Vec::new();
    let mut i: usize = 0;
    while i < edges.len()
        invariant
            i <= edges@.len(),
            cur@ == edges@.subrange(0, i as int),
        decreases edges.len() - i,
    {
        cur.push(edges[i]);
        i += 1;
    }
    assert(cur@ =~= edges@);
    proof {
        assert forall|u: usize, w: usize| u < n && w < n implies (cur@.contains((u, w)) <==> #[trigger] group_linked(
            nodes@, edges@, 0, u, w)) by {
            if group_linked(nodes@, edges@, 0, u, w) {
                let k = choose|k: nat| k >= 1 && #[trigger] gwalk(nodes@, edges@, 0, u, w, k);
                if k > 1 {
                    let x = choose|x: usize| inner_ok(nodes@, 0, x) && #[trigger] edges@.contains((u, x)) && gwalk(nodes@, edges@, 0, x, w, (k - 1) as nat);
                }
            }
            if cur@.contains((u, w)) {
                assert(gwalk(nodes@, edges@, 0, u, w, 1));
            }
        }
    }
    let mut g: usize = 0;
    while g < n
        invariant
            g <= n,
            n == nodes@.len(),
            edges_in(n as int, edges@),
            edges_in(n as int, cur@),
            forall|j: int| 0 <= j < cur@.len() ==> !((#[trigger] cur@[j]).0 < g && nodes@[cur@[j].0 as int] is Group)
                && !(cur@[j].1 < g && nodes@[cur@[j].1 as int] is Group),
            forall|e: Edge|
                #[trigger] edges@.contains(e) && !(nodes@[e.0 as int] is Group) && !(nodes@[e.1 as int] is Group) ==> cur@.contains(e),
            forall|u: usize, w: usize|
                u < n && w < n && !(u < g && nodes@[u as int] is Group) && !(w < g && nodes@[w as int] is Group) ==> (
                cur@.contains((u, w)) <==> #[trigger] group_linked(nodes@, edges@, g as int, u, w)),
        decreases n - g,
    {
        let is_group = match nodes[g] {
            Node::Group(_) => true,
            _ => false,
        };
        if is_group {
            let ghost before = cur@;
            let next = eliminate_group(&cur, g);
            proof {
                assert forall|j: int| 0 <= j < next@.len() implies (#[trigger] next@[j]).0 < n && next@[j].1 < n
                    && !(next@[j].0 < g + 1 && nodes@[next@[j].0 as int] is Group)
                    && !(next@[j].1 < g + 1 && nodes@[next@[j].1 as int] is Group) by {
                    let e = next@[j];
                    assert(next@.contains(e));
                    assert(eliminated(before, g, e));
                    if before.contains(e) {
                        let k = choose|k: int| 0 <= k < before.len() && before[k] == e;
                        assert(before[k] == e);
                    } else {
                        let k1 = choose|k: int| 0 <= k < before.len() && before[k] == (e.0, g);
                        let k2 = choose|k: int| 0 <= k < before.len() && before[k] == (g, e.1);
                        assert(before[k1] == (e.0, g));
                        assert(before[k2] == (g, e.1));
                    }
                }
                assert forall|e: Edge|
                    #[trigger] edges@.contains(e) && !(nodes@[e.0 as int] is Group) && !(nodes@[e.1 as int] is Group) implies next@.contains(e) by {
                    assert(before.contains(e));
                    assert(eliminated(before, g, e));
                }
                assert forall|u: usize, w: usize|
                    u < n && w < n && !(u < g + 1 && nodes@[u as int] is Group) && !(w < g + 1 && nodes@[w as int] is Group) implies (
                    next@.contains((u, w)) <==> #[trigger] group_linked(nodes@, edges@, g + 1, u, w)) by {
                    assert(u != g && w != g);
                    assert(next@.contains((u, w)) <==> eliminated(before, g, (u, w)));
                    assert(before.contains((u, w)) <==> group_linked(nodes@, edges@, g as int, u, w));
                    assert(before.contains((u, g)) <==> group_linked(nodes@, edges@, g as int, u, g));
                    assert(before.contains((g, w)) <==> group_linked(nodes@, edges@, g as int, g, w));
                    if group_linked(nodes@, edges@, g + 1, u, w) {
                        let k = choose|k: nat| k >= 1 && #[trigger] gwalk(nodes@, edges@, g + 1, u, w, k);
                        lemma_gwalk_split(nodes@, edges@, g, u, w, k);
                    }
                    if group_linked(nodes@, edges@, g as int, u, w) {
                        let k = choose|k: nat| k >= 1 && #[trigger] gwalk(nodes@, edges@, g as int, u, w, k);
                        lemma_gwalk_mono(nodes@, edges@, g as int, g + 1, u, w, k);
                    }
                    if group_linked(nodes@, edges@, g as int, u, g) && group_linked(nodes@, edges@, g as int, g, w) {
                        let k1 = choose|k: nat| k >= 1 && #[trigger] gwalk(nodes@, edges@, g as int, u, g, k);
                        let k2 = choose|k: nat| k >= 1 && #[trigger] gwalk(nodes@, edges@, g as int, g, w, k);
                        lemma_gwalk_mono(nodes@, edges@, g as int, g + 1, u, g, k1);
                        lemma_gwalk_mono(nodes@, edges@, g as int, g + 1, g, w, k2);
                        assert(inner_ok(nodes@, g + 1, g));
                        lemma_gwalk_concat(nodes@, edges@, g + 1, u, g, w, k1, k2);
                        assert(gwalk(nodes@, edges@, g + 1, u, w, k1 + k2));
                    }
                }
            }
            cur = next;
        } else {
            proof {
                assert forall|j: int| 0 <= j < cur@.len() implies !((#[trigger] cur@[j]).0 < g + 1 && nodes@[cur@[j].0 as int] is Group)
                    && !(cur@[j].1 < g + 1 && nodes@[cur@[j].1 as int] is Group) by {
                    assert(cur@[j].0 < n && cur@[j].1 < n);
                }
                assert forall|u: usize, w: usize|
                    u < n && w < n && !(u < g + 1 && nodes@[u as int] is Group) && !(w < g + 1 && nodes@[w as int] is Group) implies (
                    cur@.contains((u, w)) <==> #[trigger] group_linked(nodes@, edges@, g + 1, u, w)) by {
                    assert(cur@.contains((u, w)) <==> group_linked(nodes@, edges@, g as int, u, w));
                    if group_linked(nodes@, edges@, g + 1, u, w) {
                        let k = choose|k: nat| k >= 1 && #[trigger] gwalk(nodes@, edges@, g + 1, u, w, k);
                        lemma_gwalk_nongroup(nodes@, edges@, g as int, u, w, k);
                    }
                    if group_linked(nodes@, edges@, g as int, u, w) {
                        let k = choose|k: nat| k >= 1 && #[trigger] gwalk(nodes@, edges@, g as int, u, w, k);
                        lemma_gwalk_mono(nodes@, edges@, g as int, g + 1, u, w, k);
                    }
                }
            }
        }
        g += 1;
    }
    cur
}

/// The node an edge leaves, walking forwards (`fwd`) or backwards.
pub open spec fn edge_from(e: Edge, fwd: bool) -> usize {
    if fwd { e.0 } else { e.1 }
}

/// The node an edge reaches, walking forwards (`fwd`) or backwards.
pub open spec fn edge_to(e: Edge, fwd: bool) -> usize {
    if fwd { e.1 } else { e.0 }
}

/// Task `v` is reached in at most `k` steps from a seed node, walking through
/// tasks only.
pub open spec fn reached(nodes: Seq<Node>, edges: Seq<Edge>, seed: Seq<bool>, fwd: bool, v: int, k: nat) -> bool
    decreases k,
{
    k > 0 && 0 <= v < nodes.len() && nodes[v] is Task && exists|i: int|
        0 <= i < edges.len() && edge_to(#[trigger] edges[i], fwd) == v && (seed[edge_from(edges[i], fwd) as int]
            || reached(nodes, edges, seed, fwd, edge_from(edges[i], fwd) as int, (k - 1) as nat))
}

/// Marks the tasks reached from a seed node through tasks, in at most as many
/// steps as there are nodes.
fn reach_flags(nodes: &Vec<Node>, edges: &Vec<Edge>, seed: &Vec<bool>, fwd: bool) -> (r: Vec<bool>)
    requires
        edges_in(nodes@.len() as int, edges@),
        seed@.len() == nodes@.len(),
    ensures
        r@.len() == nodes@.len(),
        forall|v: int| 0 <= v < nodes@.len() ==> #[trigger] r@[v] == reached(nodes@, edges@, seed@, fwd, v, nodes@.len() as nat),
{
    let n = nodes.len();
    let mut flags: Vec<bool> = Vec::new();
    let mut v: usize = 0;
    while v < n
        invariant
            v <= n,
            n == nodes@.len(),
            flags@.len() == v,
            forall|x: int| 0 <= x < v ==> #[trigger] flags@[x] == false,
        decreases n - v,
    {
        flags.push(false);
        v += 1;
    }
    let mut round: usize = 0;
    while round < n
        invariant
            round <= n,
            n == nodes@.len(),
            seed@.len() == n,
            edges_in(n as int, edges@),
            flags@.len() == n,
            forall|x: int| 0 <= x < n ==> #[trigger] flags@[x] == reached(nodes@, edges@, seed@, fwd, x, round as nat),
        decreases n - round,
    {
        let mut next: Vec<bool> = Vec::new();
        let mut v: usize = 0;
        while v < n
            invariant
                v <= n,
                n == nodes@.len(),
                seed@.len() == n,
                edges_in(n as int, edges@),
                flags@.len() == n,
                forall|x: int| 0 <= x < n ==> #[trigger] flags@[x] == reached(nodes@, edges@, seed@, fwd, x, round as nat),
                next@.len() == v,
                forall|x: int| 0 <= x < v ==> #[trigger] next@[x] == reached(nodes@, edges@, seed@, fwd, x, (round + 1) as nat),
            decreases n - v,
        {
            let is_task = match nodes[v] {
                Node::Task(_) => true,
                _ => false,
            };
            let mut found = false;
            if is_task {
                let mut i: usize = 0;
                while i < edges.len()
                    invariant
                        i <= edges@.len(),
                        v < n,
                        n == nodes@.len(),
                        seed@.len() == n,
                        flags@.len() == n,
                        edges_in(n as int, edges@),
                        forall|x: int| 0 <= x < n ==> #[trigger] flags@[x] == reached(nodes@, edges@, seed@, fwd, x, round as nat),
                        found == exists|j: int| 0 <= j < i && edge_to(#[trigger] edges@[j], fwd) == v && (seed@[edge_from(edges@[j], fwd) as int]
                            || reached(nodes@, edges@, seed@, fwd, edge_from(edges@[j], fwd) as int, round as nat)),
                    decreases edges.len() - i,
                {
                    let e = edges[i];
                    let (from, to) = if fwd {
                        (e.0, e.1)
                    } else {
                        (e.1, e.0)
                    };
                    assert(edges@[i as int] == e);
                    if to == v && (seed[from] || flags[from]) {
                        found = true;
                    }
                    i += 1;
                }
            }
            proof {
                assert(found == reached(nodes@, edges@, seed@, fwd, v as int, (round + 1) as nat));
            }
            next.push(found);
            v += 1;
        }
        flags = next;
        round += 1;
    }
    flags
}

/// What a task needs for structural checks: its id and whether it has (own or
/// inherited) resource constraints.
#[derive(Clone, Copy, Debug)]
pub struct TaskCheck {
    pub id: i32,
    pub has_constraints: bool,
}

/// Some task node with id `id` is flagged.
pub open spec fn id_flagged(nodes: Seq<Node>, flags: Seq<bool>, id: i32) -> bool {
    exists|i: int| 0 <= i < nodes.len() && nodes[i] == Node::Task(id) && #[trigger] flags[i]
}

/// Requirements without a predecessor start the forward walk.
pub open spec fn source_requirements(nodes: Seq<Node>, edges: Seq<Edge>) -> Seq<bool> {
    Seq::new(nodes.len(), |u: int| nodes[u] is Requirement && !(exists|i: int| 0 <= i < edges.len() && (#[trigger] edges[i]).1 == u))
}

/// Milestones without a successor start the backward walk.
pub open spec fn sink_milestones(nodes: Seq<Node>, edges: Seq<Edge>) -> Seq<bool> {
    Seq::new(nodes.len(), |u: int| nodes[u] is Milestone && !(exists|i: int| 0 <= i < edges.len() && (#[trigger] edges[i]).0 == u))
}

/// The issues of one task, as (code, task id).
pub open spec fn task_issues(nodes: Seq<Node>, edges: Seq<Edge>, t: TaskCheck) -> Seq<(IssueCode, Option<i32>)> {
    let n = nodes.len() as nat;
    let fwd = Seq::new(nodes.len(), |v: int| reached(nodes, edges, source_requirements(nodes, edges), true, v, n));
    let bwd = Seq::new(nodes.len(), |v: int| reached(nodes, edges, sink_milestones(nodes, edges), false, v, n));
    (if id_flagged(nodes, fwd, t.id) { seq![] } else { seq![(IssueCode::RequirementMissing, Some(t.id))] })
        + (if id_flagged(nodes, bwd, t.id) { seq![] } else { seq![(IssueCode::MilestoneMissing, Some(t.id))] })
        + (if t.has_constraints { seq![] } else { seq![(IssueCode::ResourceMissing, Some(t.id))] })
}

/// The issues of the tasks, in order.
pub open spec fn all_task_issues(nodes: Seq<Node>, edges: Seq<Edge>, tasks: Seq<TaskCheck>) -> Seq<(IssueCode, Option<i32>)>
    decreases tasks.len(),
{
    if tasks.len() == 0 {
        seq![]
    } else {
        all_task_issues(nodes, edges, tasks.drop_last()) + task_issues(nodes, edges, tasks.last())
    }
}

/// The issues of the project: a missing requirement or milestone, then those of
/// each task.
pub open spec fn project_issues(nodes: Seq<Node>, edges: Seq<Edge>, tasks: Seq<TaskCheck>) -> Seq<(IssueCode, Option<i32>)> {
    (if exists|i: int| 0 <= i < nodes.len() && nodes[i] is Requirement { seq![] } else { seq![(IssueCode::RequirementMissing, None)] })
        + (if exists|i: int| 0 <= i < nodes.len() && nodes[i] is Milestone { seq![] } else { seq![(IssueCode::MilestoneMissing, None)] })
        + all_task_issues(nodes, edges, tasks)
}

pub open spec fn issue_keys(v: Seq<PlanningIssue>) -> Seq<(IssueCode, Option<i32>)> {
    v.map_values(|p: PlanningIssue| (p.code, p.task_id))
}

fn seeds(nodes: &Vec<Node>, edges: &Vec<Edge>, fwd: bool) -> (r: Vec<bool>)
    requires
        edges_in(nodes@.len() as int, edges@),
    ensures
        fwd ==> r@ == source_requirements(nodes@, edges@),
        !fwd ==> r@ == sink_milestones(nodes@, edges@),
{
    let n = nodes.len();
    let mut r: Vec<bool> = Vec::new();
    let mut u: usize = 0;
    while u < n
        invariant
            u <= n,
            n == nodes@.len(),
            r@.len() == u,
            fwd ==> forall|x: int| 0 <= x < u ==> #[trigger] r@[x] == source_requirements(nodes@, edges@)[x],
            !fwd ==> forall|x: int| 0 <= x < u ==> #[trigger] r@[x] == sink_milestones(nodes@, edges@)[x],
        decreases n - u,
    {
        let kind_ok = match nodes[u] {
            Node::Requirement(_) => fwd,
            Node::Milestone(_) => !fwd,
            _ => false,
        };
        let mut linked = false;
        let mut i: usize = 0;
        while i < edges.len()
            invariant
                i <= edges@.len(),
                linked == exists|j: int| 0 <= j < i && (if fwd { (#[trigger] edges@[j]).1 } else { edges@[j].0 }) == u,
            decreases edges.len() - i,
        {
            let e = edges[i];
            if (fwd && e.1 == u) || (!fwd && e.0 == u) {
                linked = true;
            }
            i += 1;
        }
        r.push(kind_ok && !linked);
        u += 1;
    }
    if fwd {
        assert(r@ =~= source_requirements(nodes@, edges@));
    } else {
        assert(r@ =~= sink_milestones(nodes@, edges@));
    }
    r
}

fn has_task_flag(nodes: &Vec<Node>, flags: &Vec<bool>, id: i32) -> (r: bool)
    requires
        flags@.len() == nodes@.len(),
    ensures
        r == id_flagged(nodes@, flags@, id),
{
    let mut i: usize = 0;
    while i < nodes.len()
        invariant
            i <= nodes@.len(),
            flags@.len() == nodes@.len(),
            forall|j: int| 0 <= j < i ==> !(nodes@[j] == Node::Task(id) && #[trigger] flags@[j]),
        decreases nodes.len() - i,
    {
        if flags[i] && nodes[i] == Node::Task(id) {
            return true;
        }
        i += 1;
    }
    false
}

/// Structural issues of the reduced graph: no requirement or no milestone in the
/// project; tasks not reached from a requirement or not leading to a milestone
/// (walking through tasks only); tasks without resource constraints.
pub fn detect_project_issues(nodes: &Vec<Node>, edges: &Vec<Edge>, tasks: &Vec<TaskCheck>) -> (r: Vec<PlanningIssue>)
    requires
        edges_in(nodes@.len() as int, edges@),
    ensures
        issue_keys(r@) == project_issues(nodes@, edges@, tasks@),
{
    let mut issues: Vec<PlanningIssue> = Vec::new();
    let mut has_req = false;
    let mut has_ms = false;
    let mut i: usize = 0;
    while i < nodes.len()
        invariant
            i <= nodes@.len(),
            has_req == exists|j: int| 0 <= j < i && nodes@[j] is Requirement,
            has_ms == exists|j: int| 0 <= j < i && nodes@[j] is Milestone,
        decreases nodes.len() - i,
    {
        match nodes[i] {
            Node::Requirement(_) => {
                has_req = true;
            },
            Node::Milestone(_) => {
                has_ms = true;
            },
            _ => {},
        }
        i += 1;
    }
    if !has_req {
        issues.push(PlanningIssue {
            code: IssueCode::RequirementMissing,
            description: "No requirement found in project".to_string(),
            task_id: None,
        });
    }
    if !has_ms {
        issues.push(PlanningIssue {
            code: IssueCode::MilestoneMissing,
            description: "No milestone found in project".to_string(),
            task_id: None,
        });
    }
    let ghost head = issue_keys(issues@);
    proof {
        assert(head =~= (if has_req { seq![] } else { seq![(IssueCode::RequirementMissing, None::<i32>)] })
            + (if has_ms { seq![] } else { seq![(IssueCode::MilestoneMissing, None::<i32>)] }));
    }
    let fseed = seeds(nodes, edges, true);
    let bseed = seeds(nodes, edges, false);
    let fwd = reach_flags(nodes, edges, &fseed, true);
    let bwd = reach_flags(nodes, edges, &bseed, false);
    let ghost n = nodes@.len() as nat;
    proof {
        assert(fwd@ =~= Seq::new(nodes@.len(), |v: int| reached(nodes@, edges@, source_requirements(nodes@, edges@), true, v, n)));
        assert(bwd@ =~= Seq::new(nodes@.len(), |v: int| reached(nodes@, edges@, sink_milestones(nodes@, edges@), false, v, n)));
    }
    let mut t: usize = 0;
    while t < tasks.len()
        invariant
            t <= tasks@.len(),
            fwd@ == Seq::new(nodes@.len(), |v: int| reached(nodes@, edges@, source_requirements(nodes@, edges@), true, v, n)),
            bwd@ == Seq::new(nodes@.len(), |v: int| reached(nodes@, edges@, sink_milestones(nodes@, edges@), false, v, n)),
            n == nodes@.len(),
            fwd@.len() == nodes@.len(),
            bwd@.len() == nodes@.len(),
            issue_keys(issues@) == head + all_task_issues(nodes@, edges@, tasks@.subrange(0, t as int)),
        decreases tasks.len() - t,
    {
        let task = tasks[t];
        let ghost before = issue_keys(issues@);
        if !has_task_flag(nodes, &fwd, task.id) {
            issues.push(PlanningIssue {
                code: IssueCode::RequirementMissing,
                description: "Task has no requirement ancestor".to_string(),
                task_id: Some(task.id),
            });
        }
        if !has_task_flag(nodes, &bwd, task.id) {
            issues.push(PlanningIssue {
                code: IssueCode::MilestoneMissing,
                description: "Task is not a predecessor of any milestone".to_string(),
                task_id: Some(task.id),
            });
        }
        if !task.has_constraints {
            issues.push(PlanningIssue {
                code: IssueCode::ResourceMissing,
                description: "Task has no resource constraints".to_string(),
                task_id: Some(task.id),
            });
        }
        proof {
            let sub = tasks@.subrange(0, t + 1);
            assert(sub.drop_last() =~= tasks@.subrange(0, t as int));
            assert(sub.last() == task);
            assert(issue_keys(issues@) =~= before + task_issues(nodes@, edges@, task));
        }
        t += 1;
    }
    proof {
        assert(tasks@.subrange(0, tasks@.len() as int) =~= tasks@);
    }
    issues
}

/// The calculation window: from the earliest requirement start to twice the
/// distance to the latest milestone target (saturating at the largest instant).
pub open spec fn window_end(start: int, target: int) -> int {
    if start + 2 * (target - start) > i64::MAX {
        i64::MAX as int
    } else if start + 2 * (target - start) < i64::MIN {
        i64::MIN as int
    } else {
        start + 2 * (target - start)
    }
}

pub open spec fn seq_min(s: Seq<i64>) -> int
    decreases s.len(),
{
    if s.len() == 0 {
        0
    } else if s.len() == 1 {
        s[0] as int
    } else {
        let m = seq_min(s.drop_last());
        if s.last() < m { s.last() as int } else { m }
    }
}

pub open spec fn seq_max(s: Seq<i64>) -> int
    decreases s.len(),
{
    if s.len() == 0 {
        0
    } else if s.len() == 1 {
        s[0] as int
    } else {
        let m = seq_max(s.drop_last());
        if s.last() > m { s.last() as int } else { m }
    }
}

/// Start and end of the calculation from the requirements' earliest starts and
/// the milestones' targets; a missing requirement or milestone is an error.
pub fn calculation_window(starts: &Vec<i64>, targets: &Vec<i64>) -> (r: Result<(i64, i64), IssueCode>)
    ensures
        starts@.len() == 0 ==> r == Err::<(i64, i64), IssueCode>(IssueCode::RequirementMissing),
        starts@.len() > 0 && targets@.len() == 0 ==> r == Err::<(i64, i64), IssueCode>(IssueCode::MilestoneMissing),
        starts@.len() > 0 && targets@.len() > 0 ==> r == Ok::<(i64, i64), IssueCode>(
            (seq_min(starts@) as i64, window_end(seq_min(starts@), seq_max(targets@)) as i64),
        ),
{
    if starts.len() == 0 {
        return Err(IssueCode::RequirementMissing);
    }
    if targets.len() == 0 {
        return Err(IssueCode::MilestoneMissing);
    }
    let mut lo = starts[0];
    let mut i: usize = 1;
    while i < starts.len()
        invariant
            1 <= i <= starts@.len(),
            lo == seq_min(starts@.subrange(0, i as int)),
        decreases starts.len() - i,
    {
        proof {
            assert(starts@.subrange(0, i + 1).drop_last() =~= starts@.subrange(0, i as int));
        }
        if starts[i] < lo {
            lo = starts[i];
        }
        i += 1;
    }
    let mut hi = targets[0];
    let mut j: usize = 1;
    while j < targets.len()
        invariant
            1 <= j <= targets@.len(),
            hi == seq_max(targets@.subrange(0, j as int)),
        decreases targets.len() - j,
    {
        proof {
            assert(targets@.subrange(0, j + 1).drop_last() =~= targets@.subrange(0, j as int));
        }
        if targets[j] > hi {
            hi = targets[j];
        }
        j += 1;
    }
    proof {
        assert(starts@.subrange(0, starts@.len() as int) =~= starts@);
        assert(targets@.subrange(0, targets@.len() as int) =~= targets@);
        assert(starts@.subrange(0, 1) =~= seq![starts@[0]]);
        assert(targets@.subrange(0, 1) =~= seq![targets@[0]]);
    }
    let e = (lo as i128) + 2 * ((hi as i128) - (lo as i128));
    let end = if e > i64::MAX as i128 {
        i64::MAX
    } else if e < i64::MIN as i128 {
        i64::MIN
    } else {
        e as i64
    };
    Ok((lo, end))
}

/// A walk of exactly `k` edges from `u` to `v`.
pub open spec fn walk(edges: Seq<Edge>, u: int, v: int, k: nat) -> bool
    decreases k,
{
    if k == 0 {
        false
    } else if k == 1 {
        exists|i: int| 0 <= i < edges.len() && (#[trigger] edges[i]).0 == u && edges[i].1 == v
    } else {
        exists|i: int|
            0 <= i < edges.len() && (#[trigger] edges[i]).0 == u && walk(edges, edges[i].1 as int, v, (k - 1) as nat)
    }
}

/// Some walk leads from `u` to `v`.
pub open spec fn reaches(edges: Seq<Edge>, u: int, v: int) -> bool {
    exists|k: nat| k >= 1 && #[trigger] walk(edges, u, v, k)
}

/// Some node of the graph lies on a cycle.
pub open spec fn has_cycle(n: int, edges: Seq<Edge>) -> bool {
    exists|v: int| 0 <= v < n && #[trigger] reaches(edges, v, v)
}

/// No kept edge is bridged by a walk of two or more kept edges: dropping any
/// edge would change what reaches what.
pub open spec fn minimal(red: Seq<Edge>) -> bool {
    forall|i: int, k: nat| 0 <= i < red.len() && k >= 2 ==> !#[trigger] walk(red, red[i].0 as int, red[i].1 as int, k)
}

/// Relies on petgraph's `toposort` (an error exactly when the graph has a cycle,
/// self loops included) and `tred::dag_transitive_reduction_closure` (the edges,
/// minimal by inclusion among those of the graph, with the same transitive
/// closure; on a graph without cycles no kept edge has a longer detour), over a
/// `DiGraph` with nodes `0..n` and the given edges (its `u32` indices bound the
/// sizes).
#[verifier::external_body]
fn transitive_reduction(n: usize, edges: &Vec<Edge>) -> (r: Option<Vec<Edge>>)
    requires
        edges_in(n as int, edges@),
        n < u32::MAX,
        edges@.len() < u32::MAX,
    ensures
        r is None <==> has_cycle(n as int, edges@),
        r matches Some(red) ==> (forall|e: Edge| #[trigger] red@.contains(e) ==> edges@.contains(e)) && (
        forall|u: int, v: int| #[trigger] reaches(red@, u, v) <==> reaches(edges@, u, v)) && minimal(red@),
{
    let mut g = DiGraph::new();
    let idx: Vec<_> = (0..n).map(|_| g.add_node(())).collect();
    edges.iter().for_each(|(a, b)| { g.add_edge(idx[*a], idx[*b], ()); });
    let sorted = toposort(&g, None).ok()?;
    let (adj, _) = tred::dag_to_toposorted_adjacency_list::<_, u32>(&g, &sorted);
    let (red, _) = tred::dag_transitive_reduction_closure(&adj);
    let node = |i: u32| sorted[i as usize].index();
    Some(red.edge_references().map(|e| (node(e.source()), node(e.target()))).collect())
}

/// Keeps only the edges of the transitive reduction; a cycle is a
/// `DependencyLoop`.
pub fn reduce_graph(n: usize, edges: &Vec<Edge>) -> (r: Result<Vec<Edge>, IssueCode>)
    requires
        edges_in(n as int, edges@),
        n < u32::MAX,
        edges@.len() < u32::MAX,
    ensures
        r is Err <==> has_cycle(n as int, edges@),
        r is Err ==> r == Err::<Vec<Edge>, IssueCode>(IssueCode::DependencyLoop),
        r matches Ok(red) ==> (forall|e: Edge| #[trigger] red@.contains(e) ==> edges@.contains(e)) && (
        forall|u: int, v: int| #[trigger] reaches(red@, u, v) <==> reaches(edges@, u, v)) && minimal(red@),
{
    match transitive_reduction(n, edges) {
        Some(red) => Ok(red),
        None => Err(IssueCode::DependencyLoop),
    }
}

/// Every edge the reduction dropped is bridged by a walk of two or more edges
/// that the reduction kept.
pub proof fn lemma_reduction_keeps_paths(edges: Seq<Edge>, red: Seq<Edge>, u: usize, v: usize)
    requires
        forall|a: int, b: int| #[trigger] reaches(red, a, b) <==> reaches(edges, a, b),
        edges.contains((u, v)),
        !red.contains((u, v)),
    ensures
        exists|k: nat| k >= 2 && #[trigger] walk(red, u as int, v as int, k),
{
    let i = choose|i: int| 0 <= i < edges.len() && edges[i] == (u, v);
    assert(walk(edges, u as int, v as int, 1));
    assert(reaches(edges, u as int, v as int));
    assert(reaches(red, u as int, v as int));
    let k = choose|k: nat| k >= 1 && #[trigger] walk(red, u as int, v as int, k);
    if k == 1 {
        let j = choose|j: int| 0 <= j < red.len() && (#[trigger] red[j]).0 == u as int && red[j].1 == v as int;
        assert(red[j] == (u, v));
        assert(red.contains((u, v)));
    }
}

/// Walking up the group hierarchy from `cur` for at most `fuel` more steps: the
/// first group with constraints, `None` at the top, `Err` when the steps run out.
pub open spec fn walk_up(parents: Seq<Option<usize>>, flags: Seq<bool>, cur: Option<usize>, fuel: nat) -> Result<Option<usize>, ()>
    decreases fuel,
{
    match cur {
        None => Ok(None),
        Some(g) => if flags[g as int] {
            Ok(Some(g))
        } else if fuel == 0 {
            Err(())
        } else {
            walk_up(parents, flags, parents[g as int], (fuel - 1) as nat)
        },
    }
}

/// Every parent link stays among the groups.
pub open spec fn parents_in(parents: Seq<Option<usize>>, n: int) -> bool {
    forall|g: int| 0 <= g < parents.len() && (#[trigger] parents[g]) is Some ==> parents[g].unwrap() < n
}

/// The group whose constraints a task inherits: starting at its parent group,
/// the nearest ancestor with constraints (by position among the groups); a
/// parent chain longer than there are groups is a `HierarchyLoop`.
pub fn inherited_constraints(parents: &Vec<Option<usize>>, has_constraints: &Vec<bool>, parent: Option<usize>) -> (r: Result<Option<usize>, IssueCode>)
    requires
        has_constraints@.len() == parents@.len(),
        parents_in(parents@, parents@.len() as int),
        parent matches Some(p) ==> p < parents@.len(),
    ensures
        r is Ok ==> walk_up(parents@, has_constraints@, parent, parents@.len() as nat) == Ok::<Option<usize>, ()>(r->Ok_0),
        r is Err ==> r == Err::<Option<usize>, IssueCode>(IssueCode::HierarchyLoop)
            && walk_up(parents@, has_constraints@, parent, parents@.len() as nat) is Err,
{
    let n = parents.len();
    let mut cur = parent;
    let mut fuel: usize = n;
    while cur.is_some()
        invariant
            fuel <= n,
            n == parents@.len(),
            has_constraints@.len() == n,
            parents_in(parents@, n as int),
            cur matches Some(p) ==> p < n,
            walk_up(parents@, has_constraints@, cur, fuel as nat) == walk_up(parents@, has_constraints@, parent, n as nat),
        decreases fuel + (if cur is Some { 1int } else { 0int }),
    {
        let g = cur.unwrap();
        if has_constraints[g] {
            return Ok(Some(g));
        }
        if fuel == 0 {
            return Err(IssueCode::HierarchyLoop);
        }
        cur = parents[g];
        fuel = fuel - 1;
    }
    Ok(None)
}

/// A parent chain that loops among groups without constraints is reported: from
/// any group of a set that no parent link leaves and where no group has
/// constraints, the walk up runs out of steps.
pub proof fn lemma_hierarchy_loop(parents: Seq<Option<usize>>, flags: Seq<bool>, inside: Set<usize>, g: usize, fuel: nat)
    requires
        inside.contains(g),
        forall|x: usize| #[trigger] inside.contains(x) ==> !flags[x as int] && parents[x as int] is Some && inside.contains(parents[x as int].unwrap()),
    ensures
        walk_up(parents, flags, Some(g), fuel) is Err,
    decreases fuel,
{
    if fuel > 0 {
        let p = parents[g as int]->Some_0;
        lemma_hierarchy_loop(parents, flags, inside, p, (fuel - 1) as nat);
    }
}

/// Adds the dependency `e` unless it would close a cycle: then the edges stay as
/// they were and the answer is a `DependencyLoop`.
pub fn add_dependency(n: usize, edges: &mut Vec<Edge>, e: Edge) -> (r: Result<(), IssueCode>)
    requires
        edges_in(n as int, old(edges)@),
        e.0 < n && e.1 < n,
        n < u32::MAX,
        old(edges)@.len() + 1 < u32::MAX,
    ensures
        r is Ok <==> !has_cycle(n as int, old(edges)@.push(e)),
        r is Ok ==> final(edges)@ == old(edges)@.push(e),
        r is Err ==> r == Err::<(), IssueCode>(IssueCode::DependencyLoop) && final(edges)@ == old(edges)@,
{
    edges.push(e);
    let ghost added = edges@;
    let check = reduce_graph(n, edges);
    match check {
        Ok(_) => Ok(()),
        Err(code) => {
            edges.pop();
            assert(edges@ =~= added.drop_last());
            Err(code)
        },
    }
}

/// No group has constraints: the walk up then only ends at the top.
pub open spec fn no_flags(n: int) -> Seq<bool> {
    Seq::new(n as nat, |i: int| false)
}

/// Whether the parent links of the groups loop: from some group the walk up,
/// whatever the constraints, takes more steps than there are groups. Every
/// cycle of parent links is found (see `lemma_hierarchy_loop`).
pub fn hierarchy_loop(parents: &Vec<Option<usize>>) -> (r: bool)
    requires
        parents_in(parents@, parents@.len() as int),
    ensures
        r == exists|g: usize| g < parents@.len() && #[trigger] walk_up(parents@, no_flags(parents@.len() as int), Some(g), parents@.len() as nat) is Err,
{
    let n = parents.len();
    let mut flags: Vec<bool> = Vec::new();
    let mut i: usize = 0;
    while i < n
        invariant
            i <= n,
            flags@ == Seq::new(i as nat, |k: int| false),
        decreases n - i,
    {
        flags.push(false);
        i += 1;
        assert(flags@ =~= Seq::new(i as nat, |k: int| false));
    }
    assert(flags@ == no_flags(n as int));
    let mut g: usize = 0;
    while g < n
        invariant
            g <= n,
            n == parents@.len(),
            flags@ == no_flags(n as int),
            parents_in(parents@, n as int),
            forall|h: usize| h < g ==> !(#[trigger] walk_up(parents@, no_flags(n as int), Some(h), n as nat) is Err),
        decreases n - g,
    {
        match inherited_constraints(parents, &flags, Some(g)) {
            Err(_) => {
                return true;
            },
            Ok(_) => {},
        }
        g += 1;
    }
    false
}

/// Some non-group node before `upto` is renumbered to `k`.
pub open spec fn renumbered_to(nodes: Seq<Node>, map: Seq<usize>, upto: int, k: int) -> bool {
    exists|v: int| 0 <= v < upto && !(nodes[v] is Group) && #[trigger] map[v] == k
}

/// Drops the group nodes once no edge touches them: the other nodes keep their
/// order and are renumbered by `map`, and each edge follows its ends. Together
/// with `remove_groups` no group node remains.
pub fn drop_groups(nodes: &Vec<Node>, edges: &Vec<Edge>) -> (r: (Vec<Node>, Vec<Edge>, Vec<usize>))
    requires
        edges_in(nodes@.len() as int, edges@),
        forall|i: int| 0 <= i < edges@.len() ==> !(nodes@[(#[trigger] edges@[i]).0 as int] is Group) && !(nodes@[edges@[i].1 as int] is Group),
    ensures
        forall|k: int| 0 <= k < r.0@.len() ==> !((#[trigger] r.0@[k]) is Group),
        r.2@.len() == nodes@.len(),
        forall|v: int| 0 <= v < nodes@.len() && !(nodes@[v] is Group) ==> (#[trigger] r.2@[v]) < r.0@.len() && r.0@[r.2@[v] as int] == nodes@[v],
        forall|a: int, b: int| 0 <= a < b < nodes@.len() && !(nodes@[a] is Group) && !(nodes@[b] is Group) ==> (#[trigger] r.2@[a]) < (#[trigger] r.2@[b]),
        forall|k: int| 0 <= k < r.0@.len() ==> #[trigger] renumbered_to(nodes@, r.2@, nodes@.len() as int, k),
        r.1@.len() == edges@.len(),
        forall|i: int| 0 <= i < edges@.len() ==> #[trigger] r.1@[i] == (r.2@[edges@[i].0 as int], r.2@[edges@[i].1 as int]),
        edges_in(r.0@.len() as int, r.1@),
{
    let n = nodes.len();
    let mut kept: Vec<Node> = Vec::new();
    let mut map: Vec<usize> = Vec::new();
    let mut v: usize = 0;
    while v < n
        invariant
            v <= n,
            n == nodes@.len(),
            map@.len() == v,
            kept@.len() <= v,
            forall|k: int| 0 <= k < kept@.len() ==> !((#[trigger] kept@[k]) is Group),
            forall|w: int| 0 <= w < v && !(nodes@[w] is Group) ==> (#[trigger] map@[w]) < kept@.len() && kept@[map@[w] as int] == nodes@[w],
            forall|a: int, b: int| 0 <= a < b < v && !(nodes@[a] is Group) && !(nodes@[b] is Group) ==> (#[trigger] map@[a]) < (#[trigger] map@[b]),
            forall|k: int| 0 <= k < kept@.len() ==> #[trigger] renumbered_to(nodes@, map@, v as int, k),
        decreases n - v,
    {
        let is_group = match nodes[v] {
            Node::Group(_) => true,
            _ => false,
        };
        let ghost (k0, m0) = (kept@, map@);
        if is_group {
            map.push(0);
        } else {
            map.push(kept.len());
            kept.push(nodes[v]);
        }
        proof {
            assert forall|w: int| 0 <= w < v + 1 && !(nodes@[w] is Group) implies (#[trigger] map@[w]) < kept@.len() && kept@[map@[w] as int] == nodes@[w] by {
                if w < v {
                    assert(map@[w] == m0[w]);
                    assert(kept@[m0[w] as int] == k0[m0[w] as int]);
                }
            }
            assert forall|a: int, b: int| 0 <= a < b < v + 1 && !(nodes@[a] is Group) && !(nodes@[b] is Group) implies (#[trigger] map@[a]) < (#[trigger] map@[b]) by {
                assert(map@[a] == m0[a]);
                if b < v {
                    assert(map@[b] == m0[b]);
                }
            }
            assert forall|k: int| 0 <= k < kept@.len() implies #[trigger] renumbered_to(nodes@, map@, v + 1, k) by {
                if k < k0.len() {
                    assert(renumbered_to(nodes@, m0, v as int, k));
                    let w = choose|w: int| 0 <= w < v && !(nodes@[w] is Group) && #[trigger] m0[w] == k;
                    assert(map@[w] == m0[w]);
                } else {
                    assert(map@[v as int] == k);
                }
            }
        }
        v += 1;
    }
    let mut out: Vec<Edge> = Vec::new();
    let mut i: usize = 0;
    while i < edges.len()
        invariant
            i <= edges@.len(),
            n == nodes@.len(),
            map@.len() == n,
            edges_in(n as int, edges@),
            forall|j: int| 0 <= j < edges@.len() ==> !(nodes@[(#[trigger] edges@[j]).0 as int] is Group) && !(nodes@[edges@[j].1 as int] is Group),
            forall|w: int| 0 <= w < n && !(nodes@[w] is Group) ==> (#[trigger] map@[w]) < kept@.len() && kept@[map@[w] as int] == nodes@[w],
            out@.len() == i,
            forall|j: int| 0 <= j < i ==> #[trigger] out@[j] == (map@[edges@[j].0 as int], map@[edges@[j].1 as int]),
            forall|j: int| 0 <= j < i ==> (#[trigger] out@[j]).0 < kept@.len() && out@[j].1 < kept@.len(),
        decreases edges.len() - i,
    {
        let e = edges[i];
        proof {
            assert(!(nodes@[e.0 as int] is Group) && !(nodes@[e.1 as int] is Group));
        }
        out.push((map[e.0], map[e.1]));
        i += 1;
    }
    (kept, out, map)
}

} // verus!
