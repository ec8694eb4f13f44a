//! Reachability in an object graph, and the facts about it that the
//! collector's contracts rest on.
use vstd::prelude::*;

verus! {

/// An object graph: the address of each cell, mapped to the addresses that
/// its payload refers to. An address outside the domain names no cell and
/// has no outgoing edge.
pub type Graph = Map<usize, Seq<usize>>;

/// The cell at `from` holds a reference to `to`.
pub open spec fn edge(g: Graph, from: usize, to: usize) -> bool {
    g.contains_key(from) && g[from].contains(to)
}

/// `path` is a non-empty walk along the edges of `g`.
pub open spec fn is_path(g: Graph, path: Seq<usize>) -> bool {
    &&& path.len() > 0
    &&& forall|i: int| 0 <= i < path.len() - 1 ==> edge(g, #[trigger] path[i], path[i + 1])
}

/// `path` starts at one of `roots` and ends at `a`.
pub open spec fn leads(g: Graph, roots: Set<usize>, path: Seq<usize>, a: usize) -> bool {
    &&& is_path(g, path)
    &&& roots.contains(path[0])
    &&& path.last() == a
}

/// `a` is in the transitive closure of `roots` over the edges of `g`.
pub open spec fn reachable(g: Graph, roots: Set<usize>, a: usize) -> bool {
    exists|path: Seq<usize>| #[trigger] leads(g, roots, path, a)
}

/// The predicate "is reachable from `roots` in `g`".
pub open spec fn reached(g: Graph, roots: Set<usize>) -> spec_fn(usize) -> bool {
    |a: usize| reachable(g, roots, a)
}

/// The predicate "is not reachable from `roots` in `g`".
pub open spec fn not_reached(g: Graph, roots: Set<usize>) -> spec_fn(usize) -> bool {
    |a: usize| !reachable(g, roots, a)
}

/// Every reference in `g` names a cell of `g`.
pub open spec fn closed_graph(g: Graph) -> bool {
    forall|u: usize, v: usize| #[trigger] edge(g, u, v) ==> g.contains_key(v)
}

/// Every root is reachable.
pub proof fn lemma_root_reachable(g: Graph, roots: Set<usize>, r: usize)
    requires
        roots.contains(r),
    ensures
        reachable(g, roots, r),
{
    assert(leads(g, roots, seq![r], r));
}

/// What a reachable cell refers to is reachable.
pub proof fn lemma_edge_reachable(g: Graph, roots: Set<usize>, u: usize, v: usize)
    requires
        reachable(g, roots, u),
        edge(g, u, v),
    ensures
        reachable(g, roots, v),
{
    let p = choose|p: Seq<usize>| leads(g, roots, p, u);
    let q = p.push(v);
    assert forall|i: int| 0 <= i < q.len() - 1 implies edge(g, #[trigger] q[i], q[i + 1]) by {
        if i < p.len() - 1 {
            assert(edge(g, p[i], p[i + 1]));
        }
    }
    assert(leads(g, roots, q, v));
}

/// Every cell on a path that starts in `s` lies in `s`, if `s` is closed
/// under the edges of `g`.
proof fn lemma_path_stays(g: Graph, s: Set<usize>, path: Seq<usize>, i: int)
    requires
        is_path(g, path),
        s.contains(path[0]),
        forall|u: usize, v: usize| s.contains(u) && #[trigger] edge(g, u, v) ==> s.contains(v),
        0 <= i < path.len(),
    ensures
        s.contains(path[i]),
    decreases i,
{
    if i > 0 {
        lemma_path_stays(g, s, path, i - 1);
        assert(edge(g, path[i - 1], path[i - 1 + 1]));
    }
}

/// A set that holds the roots and is closed under the edges of `g` holds
/// everything reachable: the reachable set is the least such set.
pub proof fn lemma_closed_set_holds_reachable(g: Graph, roots: Set<usize>, s: Set<usize>, a: usize)
    requires
        forall|r: usize| roots.contains(r) ==> s.contains(r),
        forall|u: usize, v: usize| s.contains(u) && #[trigger] edge(g, u, v) ==> s.contains(v),
        reachable(g, roots, a),
    ensures
        s.contains(a),
{
    let p = choose|p: Seq<usize>| leads(g, roots, p, a);
    lemma_path_stays(g, s, p, p.len() - 1);
}

/// Every cell on a path from the roots is itself reachable.
pub proof fn lemma_path_prefix_reachable(g: Graph, roots: Set<usize>, path: Seq<usize>, i: int)
    requires
        is_path(g, path),
        roots.contains(path[0]),
        0 <= i < path.len(),
    ensures
        reachable(g, roots, path[i]),
{
    let q = path.take(i + 1);
    assert forall|j: int| 0 <= j < q.len() - 1 implies edge(g, #[trigger] q[j], q[j + 1]) by {
        assert(edge(g, path[j], path[j + 1]));
    }
    assert(leads(g, roots, q, path[i]));
}

/// In a graph without dangling references, what live roots reach is live.
pub proof fn lemma_reachable_is_live(g: Graph, roots: Set<usize>, a: usize)
    requires
        closed_graph(g),
        roots.subset_of(g.dom()),
        reachable(g, roots, a),
    ensures
        g.contains_key(a),
{
    lemma_closed_set_holds_reachable(g, roots, g.dom(), a);
}

/// Dropping unreachable cells from the graph changes nothing about what the
/// roots reach: a path from the roots runs through reachable cells only.
pub proof fn lemma_reachable_in_restriction(g: Graph, roots: Set<usize>, a: usize)
    ensures
        reachable(g.restrict(Set::new(reached(g, roots))), roots, a) <==> reachable(g, roots, a),
{
    let h = g.restrict(Set::new(reached(g, roots)));
    if reachable(g, roots, a) {
        let p = choose|p: Seq<usize>| leads(g, roots, p, a);
        assert forall|i: int| 0 <= i < p.len() - 1 implies edge(h, #[trigger] p[i], p[i + 1]) by {
            lemma_path_prefix_reachable(g, roots, p, i);
            assert(edge(g, p[i], p[i + 1]));
            assert(reached(g, roots)(p[i]));
        }
        assert(leads(h, roots, p, a));
    }
    if reachable(h, roots, a) {
        let p = choose|p: Seq<usize>| leads(h, roots, p, a);
        assert forall|i: int| 0 <= i < p.len() - 1 implies edge(g, #[trigger] p[i], p[i + 1]) by {
            assert(edge(h, p[i], p[i + 1]));
        }
        assert(leads(g, roots, p, a));
    }
}

/// `cycle` is a walk along the edges of `g` whose last cell refers back to
/// its first.
pub open spec fn is_cycle(g: Graph, cycle: Seq<usize>) -> bool {
    is_path(g, cycle) && edge(g, cycle.last(), cycle[0])
}

/// From a reachable cell of a path, every later cell of the path is
/// reachable.
proof fn lemma_path_onward(g: Graph, roots: Set<usize>, path: Seq<usize>, k: int, i: int)
    requires
        is_path(g, path),
        0 <= k <= i < path.len(),
        reachable(g, roots, path[k]),
    ensures
        reachable(g, roots, path[i]),
    decreases i - k,
{
    if k < i {
        lemma_path_onward(g, roots, path, k, i - 1);
        assert(edge(g, path[i - 1], path[i - 1 + 1]));
        lemma_edge_reachable(g, roots, path[i - 1], path[i]);
    }
}

/// A cycle is reachable as a whole or not at all: where the roots reach
/// one of its cells, they reach every one.
pub proof fn lemma_cycle_reached_whole(g: Graph, roots: Set<usize>, cycle: Seq<usize>, k: int, i: int)
    requires
        is_cycle(g, cycle),
        0 <= k < cycle.len(),
        0 <= i < cycle.len(),
        reachable(g, roots, cycle[k]),
    ensures
        reachable(g, roots, cycle[i]),
{
    if k <= i {
        lemma_path_onward(g, roots, cycle, k, i);
    } else {
        lemma_path_onward(g, roots, cycle, k, cycle.len() - 1);
        lemma_edge_reachable(g, roots, cycle.last(), cycle[0]);
        lemma_path_onward(g, roots, cycle, 0, i);
    }
}

/// A cycle that holds no root, and to which only its own cells refer, is
/// out of the roots' reach.
pub proof fn lemma_cycle_unrooted(g: Graph, roots: Set<usize>, cycle: Seq<usize>, i: int)
    requires
        is_cycle(g, cycle),
        forall|j: int| 0 <= j < cycle.len() ==> !roots.contains(#[trigger] cycle[j]),
        forall|u: usize, j: int| 0 <= j < cycle.len() && #[trigger] edge(g, u, cycle[j]) ==> cycle.contains(u),
        0 <= i < cycle.len(),
    ensures
        !reachable(g, roots, cycle[i]),
{
    let outside = Set::new(|a: usize| !cycle.contains(a));
    if reachable(g, roots, cycle[i]) {
        assert forall|r: usize| roots.contains(r) implies outside.contains(r) by {
            if cycle.contains(r) {
                let j = choose|j: int| 0 <= j < cycle.len() && cycle[j] == r;
                assert(!roots.contains(cycle[j]));
            }
        }
        assert forall|u: usize, v: usize| outside.contains(u) && #[trigger] edge(g, u, v) implies outside.contains(
            v,
        ) by {
            if cycle.contains(v) {
                let j = choose|j: int| 0 <= j < cycle.len() && cycle[j] == v;
                assert(edge(g, u, cycle[j]));
            }
        }
        lemma_closed_set_holds_reachable(g, roots, outside, cycle[i]);
        assert(cycle.contains(cycle[i]));
    }
}

} // verus!
