//! The three phases of a collection pass, over the arena's cells.
use crate::gc::{Gc, GcBox, Trace, Tracer};
use crate::model::TracerView;
use crate::reach::{
    edge, lemma_closed_set_holds_reachable, lemma_edge_reachable, lemma_root_reachable, reachable,
    Graph,
};
use crate::seqs::{lemma_filter_membership, lemma_filter_no_duplicates};
use vstd::prelude::*;
use vstd::seq_lib::lemma_no_dup_in_concat;
use vstd::set_lib::lemma_len_subset;

verus! {

/// The arena: the cell at each address, or nothing where no cell is
/// allocated.
pub(crate) type Cells<T> = Seq<Option<GcBox<T>>>;

/// A cell is allocated at `a`.
pub(crate) open spec fn live_at<T>(cells: Cells<T>, a: usize) -> bool {
    a < cells.len() && cells[a as int] is Some
}

/// The address `a` lies in the arena, is not null, and holds no cell.
pub(crate) open spec fn vacant_at<T>(cells: Cells<T>, a: usize) -> bool {
    0 < a < cells.len() && cells[a as int] is None
}

/// A marked cell is allocated at `a`.
pub(crate) open spec fn marked_at<T>(cells: Cells<T>, a: usize) -> bool {
    live_at(cells, a) && cells[a as int]->0.marked
}

/// The payload of each allocated cell.
pub(crate) open spec fn payloads_of<T>(cells: Cells<T>) -> Map<usize, T> {
    Map::new(|a: usize| live_at(cells, a), |a: usize| *cells[a as int]->0.value)
}

/// The object graph of the cells.
pub(crate) open spec fn graph_of<T: Trace>(cells: Cells<T>) -> Graph {
    Map::new(|a: usize| live_at(cells, a), |a: usize| cells[a as int]->0.value.refs())
}

/// Both arenas hold the same payloads at the same addresses; only mark
/// bits may differ.
pub(crate) open spec fn same_payloads<T>(before: Cells<T>, after: Cells<T>) -> bool {
    &&& before.len() == after.len()
    &&& forall|a: int|
        0 <= a < before.len() ==> (#[trigger] after[a] is Some <==> before[a] is Some) && (before[a] is Some
            ==> after[a]->0.value == before[a]->0.value)
}

/// The arena's invariant: `objects` lists the allocated cells and `free`
/// the vacant addresses, each once, and nothing lies at address zero.
pub(crate) open spec fn arena_wf<T>(cells: Cells<T>, objects: Seq<usize>, free: Seq<usize>) -> bool {
    &&& cells.len() >= 1
    &&& cells[0] is None
    &&& objects.no_duplicates()
    &&& forall|i: int| 0 <= i < objects.len() ==> live_at(cells, #[trigger] objects[i])
    &&& forall|a: usize| #[trigger] live_at(cells, a) ==> objects.contains(a)
    &&& free.no_duplicates()
    &&& forall|i: int| 0 <= i < free.len() ==> vacant_at(cells, #[trigger] free[i])
    &&& forall|a: usize| #[trigger] vacant_at(cells, a) ==> free.contains(a)
}

/// What changes no more than payloads and mark bits keeps the arena's
/// invariant, and every address keeps or lacks its cell.
pub(crate) proof fn lemma_same_cells_arena<T>(
    before: Cells<T>,
    after: Cells<T>,
    objects: Seq<usize>,
    free: Seq<usize>,
)
    requires
        arena_wf(before, objects, free),
        before.len() == after.len(),
        forall|a: int| 0 <= a < before.len() ==> (#[trigger] after[a] is Some <==> before[a] is Some),
    ensures
        arena_wf(after, objects, free),
        forall|a: usize| live_at(after, a) <==> live_at(before, a),
{
    assert forall|a: usize| live_at(after, a) <==> live_at(before, a) by {
        if a < before.len() {
            assert(after[a as int] is Some <==> before[a as int] is Some);
        }
    }
    assert forall|a: usize| vacant_at(after, a) <==> vacant_at(before, a) by {
        if a < before.len() {
            assert(after[a as int] is Some <==> before[a as int] is Some);
        }
    }
    assert forall|i: int| 0 <= i < objects.len() implies live_at(after, #[trigger] objects[i]) by {
        assert(live_at(before, objects[i]));
    }
    assert forall|i: int| 0 <= i < free.len() implies vacant_at(after, #[trigger] free[i]) by {
        assert(vacant_at(before, free[i]));
    }
    assert forall|a: usize| #[trigger] live_at(after, a) implies objects.contains(a) by {
        assert(live_at(before, a));
    }
    assert forall|a: usize| #[trigger] vacant_at(after, a) implies free.contains(a) by {
        assert(vacant_at(before, a));
    }
    assert(after[0] is Some <==> before[0] is Some);
}

/// The sweep keeps the arena's invariant: the kept cells are the objects,
/// and the addresses of the freed cells have joined the vacant ones.
pub(crate) proof fn lemma_swept_arena<T>(
    before: Cells<T>,
    after: Cells<T>,
    objects: Seq<usize>,
    free: Seq<usize>,
    keep: spec_fn(usize) -> bool,
    lose: spec_fn(usize) -> bool,
)
    requires
        arena_wf(before, objects, free),
        after.len() == before.len(),
        forall|a: usize|
            a < before.len() ==> (#[trigger] after[a as int] is Some <==> before[a as int] is Some && keep(a)),
        forall|a: usize| lose(a) == !#[trigger] keep(a),
    ensures
        arena_wf(after, objects.filter(keep), free + objects.filter(lose)),
        forall|a: usize| live_at(after, a) <==> live_at(before, a) && keep(a),
{
    let kept = objects.filter(keep);
    let freed = objects.filter(lose);
    let vacant = free + freed;
    assert forall|a: usize| live_at(after, a) <==> live_at(before, a) && keep(a) by {
        if a < before.len() {
            assert(after[a as int] is Some <==> before[a as int] is Some && keep(a));
        }
    }
    lemma_filter_no_duplicates(objects, keep);
    lemma_filter_no_duplicates(objects, lose);
    assert forall|i: int| 0 <= i < kept.len() implies live_at(after, #[trigger] kept[i]) by {
        assert(kept.contains(kept[i]));
        lemma_filter_membership(objects, keep, kept[i]);
        let j = choose|j: int| 0 <= j < objects.len() && objects[j] == kept[i];
        assert(live_at(before, objects[j]));
    }
    assert forall|a: usize| #[trigger] live_at(after, a) implies kept.contains(a) by {
        lemma_filter_membership(objects, keep, a);
    }
    assert forall|i: int| 0 <= i < freed.len() implies live_at(before, #[trigger] freed[i]) && lose(
        freed[i],
    ) by {
        assert(freed.contains(freed[i]));
        lemma_filter_membership(objects, lose, freed[i]);
        let j = choose|j: int| 0 <= j < objects.len() && objects[j] == freed[i];
        assert(live_at(before, objects[j]));
    }
    assert forall|i: int, j: int| 0 <= i < free.len() && 0 <= j < freed.len() implies free[i] != freed[j] by {
        assert(vacant_at(before, free[i]));
        assert(live_at(before, freed[j]));
    }
    lemma_no_dup_in_concat(free, freed);
    assert forall|i: int| 0 <= i < vacant.len() implies vacant_at(after, #[trigger] vacant[i]) by {
        if i < free.len() {
            assert(vacant_at(before, free[i]));
        } else {
            assert(vacant[i] == freed[i - free.len()]);
            assert(live_at(before, freed[i - free.len()]));
            assert(objects.contains(vacant[i]));
        }
    }
    assert forall|a: usize| #[trigger] vacant_at(after, a) implies vacant.contains(a) by {
        if vacant_at(before, a) {
            let i = choose|i: int| 0 <= i < free.len() && free[i] == a;
            assert(vacant[i] == a);
        } else {
            assert(live_at(before, a));
            lemma_filter_membership(objects, lose, a);
            let k = choose|k: int| 0 <= k < freed.len() && freed[k] == a;
            assert(vacant[free.len() + k] == a);
        }
    }
}

/// The unmark phase: clears the mark bit of every cell.
pub(crate) fn unmark<T>(cells: &mut Vec<Option<GcBox<T>>>, objects: &Vec<usize>)
    requires
        forall|a: usize| live_at(old(cells)@, a) ==> objects@.contains(a),
    ensures
        same_payloads(old(cells)@, final(cells)@),
        forall|a: usize| !marked_at(final(cells)@, a),
{
    let mut i: usize = 0;
    while i < objects.len()
        invariant
            i <= objects@.len(),
            same_payloads(old(cells)@, cells@),
            forall|a: usize| live_at(old(cells)@, a) ==> objects@.contains(a),
            forall|j: int| 0 <= j < i ==> !marked_at(cells@, #[trigger] objects@[j]),
        decreases objects@.len() - i,
    {
        let a = objects[i];
        let ghost before = cells@;
        if a < cells.len() {
            match &mut cells[a] {
                Some(cell) => {
                    cell.marked = false;
                },
                None => {},
            }
        }
        assert forall|j: int| 0 <= j < i + 1 implies !marked_at(cells@, #[trigger] objects@[j]) by {
            if j < i {
                assert(!marked_at(before, objects@[j]));
            }
        }
        i += 1;
    }
    assert forall|a: usize| !marked_at(cells@, a) by {
        if live_at(cells@, a) {
            assert(cells@[a as int] is Some);
            assert(live_at(old(cells)@, a));
            assert(objects@.contains(a));
            let j = choose|j: int| 0 <= j < objects@.len() && objects@[j] == a;
            assert(!marked_at(cells@, objects@[j]));
        }
    }
}

/// What tracing a run of references does to a tracer: the same cells take
/// part, no mark is cleared, every cell that was marked by it is one of the
/// references and is pending, every reference to a cell of the pass ends
/// marked, what was pending stays pending in its place, and each new mark
/// is matched by one new pending address.
pub(crate) proof fn lemma_trace_all(t: TracerView, refs: Seq<usize>)
    requires
        t.marks.dom().finite(),
    ensures
        t.trace_all(refs).marks.dom() == t.marks.dom(),
        forall|b: usize| t.marked(b) ==> #[trigger] t.trace_all(refs).marked(b),
        forall|b: usize|
            #[trigger] t.trace_all(refs).marked(b) && !t.marked(b) ==> refs.contains(b) && t.trace_all(
                refs,
            ).pending.contains(b),
        forall|j: int| 0 <= j < refs.len() && t.known(#[trigger] refs[j]) ==> t.trace_all(refs).marked(refs[j]),
        t.pending.len() <= t.trace_all(refs).pending.len(),
        forall|i: int| 0 <= i < t.pending.len() ==> #[trigger] t.trace_all(refs).pending[i] == t.pending[i],
        forall|i: int|
            t.pending.len() <= i < t.trace_all(refs).pending.len() ==> t.trace_all(refs).marked(
                #[trigger] t.trace_all(refs).pending[i],
            ) && !t.marked(t.trace_all(refs).pending[i]),
        t.trace_all(refs).unmarked().finite(),
        t.trace_all(refs).unmarked().len() + t.trace_all(refs).pending.len() == t.unmarked().len()
            + t.pending.len(),
    decreases refs.len(),
{
    assert(t.unmarked().subset_of(t.marks.dom()));
    lemma_len_subset(t.unmarked(), t.marks.dom());
    if refs.len() > 0 {
        let rest = refs.drop_last();
        let a = refs.last();
        let mid = t.trace_all(rest);
        let end = t.trace_all(refs);
        lemma_trace_all(t, rest);
        assert(end == mid.trace(a));
        assert(end.marks.dom() =~= t.marks.dom());
        if mid.known(a) && !mid.marked(a) {
            assert(end.unmarked() =~= mid.unmarked().remove(a));
            assert(mid.unmarked().contains(a));
            assert(end.pending[mid.pending.len() as int] == a);
        } else {
            assert(end.unmarked() =~= mid.unmarked());
        }
        assert forall|b: usize| t.marked(b) implies #[trigger] end.marked(b) by {
            assert(mid.marked(b));
        }
        assert forall|b: usize| #[trigger] end.marked(b) && !t.marked(b) implies refs.contains(b)
            && end.pending.contains(b) by {
            if mid.marked(b) {
                let k = choose|k: int| 0 <= k < rest.len() && rest[k] == b;
                assert(refs[k] == b);
                let i = choose|i: int| 0 <= i < mid.pending.len() && mid.pending[i] == b;
                assert(end.pending[i] == b);
            } else {
                assert(b == a);
                assert(refs[refs.len() - 1] == b);
            }
        }
        assert forall|j: int| 0 <= j < refs.len() && t.known(#[trigger] refs[j]) implies end.marked(
            refs[j],
        ) by {
            if j < rest.len() {
                assert(rest[j] == refs[j]);
                assert(mid.marked(rest[j]));
            }
        }
        assert forall|i: int| 0 <= i < t.pending.len() implies #[trigger] end.pending[i] == t.pending[i] by {
            assert(mid.pending[i] == t.pending[i]);
        }
        assert forall|i: int| t.pending.len() <= i < end.pending.len() implies end.marked(
            #[trigger] end.pending[i],
        ) && !t.marked(end.pending[i]) by {
            if i < mid.pending.len() {
                assert(mid.marked(mid.pending[i]) && !t.marked(mid.pending[i]));
            } else {
                assert(!mid.marked(a));
                if t.marked(a) {
                    assert(mid.marked(a));
                }
            }
        }
    }
}

/// The graph in which the mark phase walks: the references of the cells
/// that were unmarked when the phase began. A cell that was marked then is
/// not walked through.
pub(crate) open spec fn fresh_graph(g: Graph, start: TracerView) -> Graph {
    g.restrict(start.unmarked())
}

/// What holds between two steps of the mark phase that began at `start`:
/// the cells of the pass are the cells of the graph, no mark was cleared,
/// only what `roots` reach through cells that were unmarked is newly marked,
/// what is pending is newly marked, every root is marked, and so is every
/// reference of a newly marked cell whose payload was traced.
pub(crate) open spec fn tricolor(t: TracerView, start: TracerView, g: Graph, roots: Set<usize>) -> bool {
    &&& t.marks.dom().finite()
    &&& forall|a: usize| t.known(a) <==> g.contains_key(a)
    &&& forall|a: usize| start.known(a) <==> g.contains_key(a)
    &&& forall|a: usize| start.marked(a) ==> t.marked(a)
    &&& forall|a: usize|
        #[trigger] t.marked(a) ==> start.marked(a) || reachable(fresh_graph(g, start), roots, a)
    &&& forall|i: int|
        0 <= i < t.pending.len() ==> t.marked(#[trigger] t.pending[i]) && !start.marked(t.pending[i])
    &&& forall|r: usize| #[trigger] roots.contains(r) && t.known(r) ==> t.marked(r)
    &&& forall|u: usize, v: usize|
        t.marked(u) && !start.marked(u) && !t.pending.contains(u) && #[trigger] edge(g, u, v) && t.known(v)
            ==> t.marked(v)
}

/// Tracing the payload of the newest pending cell keeps the invariant of
/// the mark phase and brings the phase nearer to its end.
proof fn lemma_mark_step(t: TracerView, start: TracerView, g: Graph, roots: Set<usize>)
    requires
        tricolor(t, start, g, roots),
        t.pending.len() > 0,
    ensures
        g.contains_key(t.pending.last()),
        tricolor(t.popped().trace_all(g[t.pending.last()]), start, g, roots),
        2 * t.popped().trace_all(g[t.pending.last()]).unmarked().len() + t.popped().trace_all(
            g[t.pending.last()],
        ).pending.len() < 2 * t.unmarked().len() + t.pending.len(),
{
    let a = t.pending.last();
    let h = fresh_graph(g, start);
    let before = t.popped();
    let after = before.trace_all(g[a]);
    assert(t.marked(t.pending[t.pending.len() - 1]) && !start.marked(t.pending[t.pending.len() - 1]));
    assert(t.known(a));
    assert(start.known(a) <==> g.contains_key(a));
    assert(start.unmarked().contains(a));
    assert(h.contains_key(a) && h[a] == g[a]);
    assert(reachable(h, roots, a));
    assert(before.unmarked() =~= t.unmarked());
    lemma_trace_all(before, g[a]);
    assert forall|b: usize| after.known(b) <==> g.contains_key(b) by {
        assert(after.marks.dom().contains(b) == before.marks.dom().contains(b));
        assert(t.known(b) <==> g.contains_key(b));
    }
    assert forall|b: usize| start.marked(b) implies after.marked(b) by {
        assert(t.marked(b));
    }
    assert forall|b: usize| #[trigger] after.marked(b) implies start.marked(b) || reachable(h, roots, b) by {
        if !before.marked(b) {
            assert(edge(h, a, b));
            lemma_edge_reachable(h, roots, a, b);
        } else {
            assert(t.marked(b));
        }
    }
    assert forall|i: int| 0 <= i < after.pending.len() implies after.marked(#[trigger] after.pending[i])
        && !start.marked(after.pending[i]) by {
        if i < before.pending.len() {
            assert(after.pending[i] == before.pending[i]);
            assert(t.marked(t.pending[i]) && !start.marked(t.pending[i]));
        } else {
            if start.marked(after.pending[i]) {
                assert(t.marked(after.pending[i]));
            }
        }
    }
    assert forall|r: usize| #[trigger] roots.contains(r) && after.known(r) implies after.marked(r) by {
        assert(after.marks.dom().contains(r) == before.marks.dom().contains(r));
        assert(t.marked(r));
    }
    assert forall|u: usize, v: usize|
        after.marked(u) && !start.marked(u) && !after.pending.contains(u) && #[trigger] edge(g, u, v)
            && after.known(v) implies after.marked(v) by {
        assert(after.marks.dom().contains(v) == before.marks.dom().contains(v));
        if u == a {
            let j = choose|j: int| 0 <= j < g[a].len() && g[a][j] == v;
            assert(before.known(g[a][j]));
        } else {
            assert(before.marked(u));
            if t.pending.contains(u) {
                let i = choose|i: int| 0 <= i < t.pending.len() && t.pending[i] == u;
                assert(before.pending[i] == u);
                assert(after.pending[i] == before.pending[i]);
            }
            assert(t.marked(v));
        }
    }
    lemma_len_subset(after.unmarked(), after.marks.dom());
}

/// Once nothing is pending, the marked cells are those that were marked
/// when the phase began and those that the roots reach through cells that
/// were unmarked then.
proof fn lemma_marking_complete(t: TracerView, start: TracerView, g: Graph, roots: Set<usize>, a: usize)
    requires
        tricolor(t, start, g, roots),
        t.pending.len() == 0,
    ensures
        t.marked(a) <==> start.marked(a) || (start.unmarked().contains(a) && reachable(
            fresh_graph(g, start),
            roots,
            a,
        )),
{
    let h = fresh_graph(g, start);
    let s = Set::new(|b: usize| t.known(b) ==> t.marked(b));
    if start.unmarked().contains(a) && reachable(h, roots, a) {
        assert forall|u: usize, v: usize| s.contains(u) && #[trigger] edge(h, u, v) implies s.contains(v) by {
            assert(start.unmarked().contains(u));
            assert(start.known(u) <==> g.contains_key(u));
            assert(t.known(u));
            assert(edge(g, u, v));
        }
        lemma_closed_set_holds_reachable(h, roots, s, a);
        assert(start.known(a) <==> g.contains_key(a));
        assert(t.known(a));
    }
    if t.marked(a) && !start.marked(a) {
        assert(t.known(a) <==> g.contains_key(a));
        assert(start.known(a) <==> g.contains_key(a));
    }
}

/// The mark phase: traces each root, and then the payload of each cell
/// that was marked by it, until none is left. A cell is marked before its
/// payload is traced, so a cycle ends at the first cell that is met again.
/// Afterwards the marked cells are those that were marked before and those
/// that `roots` reach through cells that were unmarked.
pub(crate) fn mark<T: Trace>(cells: &Vec<Option<GcBox<T>>>, tracer: &mut Tracer, roots: &[usize])
    requires
        old(tracer)@.marks.dom().finite(),
        old(tracer)@.pending.len() == 0,
        forall|a: usize| old(tracer)@.known(a) <==> live_at(cells@, a),
    ensures
        final(tracer)@.pending.len() == 0,
        final(tracer)@.marks.dom() == old(tracer)@.marks.dom(),
        forall|a: usize|
            #[trigger] final(tracer)@.marked(a) <==> old(tracer)@.marked(a) || (old(tracer)@.unmarked().contains(
                a,
            ) && reachable(fresh_graph(graph_of(cells@), old(tracer)@), roots@.to_set(), a)),
{
    let ghost g = graph_of(cells@);
    let ghost start = tracer@;
    let ghost root_set = roots@.to_set();
    let mut i: usize = 0;
    while i < roots.len()
        invariant
            i <= roots@.len(),
            tracer@.marks.dom() == start.marks.dom(),
            tracer@.marks.dom().finite(),
            forall|a: usize| start.marked(a) ==> tracer@.marked(a),
            forall|a: usize|
                #[trigger] tracer@.marked(a) ==> start.marked(a) || (roots@.contains(a)
                    && tracer@.pending.contains(a)),
            forall|k: int|
                0 <= k < tracer@.pending.len() ==> tracer@.marked(#[trigger] tracer@.pending[k])
                    && !start.marked(tracer@.pending[k]),
            forall|j: int| 0 <= j < i && tracer@.known(#[trigger] roots@[j]) ==> tracer@.marked(roots@[j]),
        decreases roots@.len() - i,
    {
        let ghost before = tracer@;
        Gc::from_raw(roots[i]).trace(tracer);
        proof {
            let r = roots@[i as int];
            assert(tracer@.marks.dom() =~= before.marks.dom());
            assert forall|a: usize| start.marked(a) implies tracer@.marked(a) by {
                assert(before.marked(a));
            }
            assert forall|a: usize| #[trigger] tracer@.marked(a) implies start.marked(a) || (roots@.contains(
                a,
            ) && tracer@.pending.contains(a)) by {
                if before.marked(a) {
                    if !start.marked(a) {
                        let k = choose|k: int| 0 <= k < before.pending.len() && before.pending[k] == a;
                        assert(tracer@.pending[k] == a);
                    }
                } else {
                    assert(a == r);
                    assert(tracer@.pending[before.pending.len() as int] == a);
                }
            }
            assert forall|k: int| 0 <= k < tracer@.pending.len() implies tracer@.marked(
                #[trigger] tracer@.pending[k],
            ) && !start.marked(tracer@.pending[k]) by {
                if k < before.pending.len() {
                    assert(before.marked(before.pending[k]) && !start.marked(before.pending[k]));
                } else {
                    if start.marked(r) {
                        assert(before.marked(r));
                    }
                }
            }
            assert forall|j: int| 0 <= j < i + 1 && tracer@.known(#[trigger] roots@[j]) implies tracer@.marked(
                roots@[j],
            ) by {
                if j < i {
                    assert(before.known(roots@[j]));
                    assert(before.marked(roots@[j]));
                }
            }
        }
        i += 1;
    }
    proof {
        let h = fresh_graph(g, start);
        assert forall|a: usize| tracer@.known(a) <==> g.contains_key(a) by {
            assert(tracer@.marks.dom().contains(a) == start.marks.dom().contains(a));
            assert(start.known(a) <==> live_at(cells@, a));
        }
        assert forall|a: usize| start.known(a) <==> g.contains_key(a) by {
            assert(start.known(a) <==> live_at(cells@, a));
        }
        assert forall|a: usize| #[trigger] tracer@.marked(a) implies start.marked(a) || reachable(
            h,
            root_set,
            a,
        ) by {
            if !start.marked(a) {
                lemma_root_reachable(h, root_set, a);
            }
        }
        assert forall|r: usize| #[trigger] root_set.contains(r) && tracer@.known(r) implies tracer@.marked(
            r,
        ) by {
            let j = choose|j: int| 0 <= j < roots@.len() && roots@[j] == r;
            assert(tracer@.known(roots@[j]));
        }
    }
    loop
        invariant
            g == graph_of(cells@),
            tricolor(tracer@, start, g, root_set),
        ensures
            tricolor(tracer@, start, g, root_set),
            tracer@.pending.len() == 0,
        decreases 2 * tracer@.unmarked().len() + tracer@.pending.len(),
    {
        let ghost before = tracer@;
        match tracer.pop() {
            None => {
                break ;
            },
            Some(a) => {
                proof {
                    lemma_mark_step(before, start, g, root_set);
                }
                if a < cells.len() {
                    match &cells[a] {
                        Some(cell) => {
                            cell.trace(tracer);
                        },
                        None => {},
                    }
                }
            },
        }
    }
    proof {
        assert(tracer@.marks.dom() =~= start.marks.dom()) by {
            assert forall|a: usize| tracer@.marks.dom().contains(a) == start.marks.dom().contains(a) by {
                assert(tracer@.known(a) <==> g.contains_key(a));
                assert(start.known(a) <==> g.contains_key(a));
            }
        }
        assert forall|a: usize| #[trigger] tracer@.marked(a) <==> start.marked(a) || (start.unmarked().contains(
            a,
        ) && reachable(fresh_graph(g, start), root_set, a)) by {
            lemma_marking_complete(tracer@, start, g, root_set, a);
        }
    }
}

/// The sweep phase: frees every cell that the pass left unmarked and
/// hands it out, sets the mark bit of every cell that the pass marked,
/// leaves those cells in `objects`, in their order, and adds the freed
/// addresses to `free`. `keep` says of an allocated cell that the pass
/// marked it, `lose` that it did not.
pub(crate) fn sweep<T>(
    cells: &mut Vec<Option<GcBox<T>>>,
    objects: &mut Vec<usize>,
    free: &mut Vec<usize>,
    tracer: &Tracer,
    Ghost(keep): Ghost<spec_fn(usize) -> bool>,
    Ghost(lose): Ghost<spec_fn(usize) -> bool>,
) -> (reclaimed: Vec<GcBox<T>>)
    requires
        old(objects)@.no_duplicates(),
        forall|i: int| 0 <= i < old(objects)@.len() ==> live_at(old(cells)@, #[trigger] old(objects)@[i]),
        forall|a: usize| live_at(old(cells)@, a) ==> (tracer@.marked(a) <==> #[trigger] keep(a)),
        forall|a: usize| lose(a) == !#[trigger] keep(a),
    ensures
        final(objects)@ == old(objects)@.filter(keep),
        final(free)@ == old(free)@ + old(objects)@.filter(lose),
        final(cells)@.len() == old(cells)@.len(),
        forall|a: usize|
            a < old(cells)@.len() ==> #[trigger] final(cells)@[a as int] == (if old(objects)@.contains(a) {
                if lose(a) {
                    None
                } else {
                    Some(GcBox { marked: true, value: old(cells)@[a as int]->0.value })
                }
            } else {
                old(cells)@[a as int]
            }),
        reclaimed@.len() == old(objects)@.filter(lose).len(),
        forall|k: int|
            0 <= k < reclaimed@.len() ==> Some(#[trigger] reclaimed@[k]) == old(cells)@[old(objects)@.filter(
                lose,
            )[k] as int],
{
    let ghost start = cells@;
    let ghost objs = objects@;
    let ghost free0 = free@;
    let mut kept: Vec<usize> = Vec::new();
    let mut reclaimed: Vec<GcBox<T>> = Vec::new();
    let mut i: usize = 0;
    proof {
        assert(objs.take(0) =~= Seq::<usize>::empty());
        assert(objs.take(0).filter(keep) =~= Seq::<usize>::empty()) by {
            reveal(Seq::filter);
        }
        assert(objs.take(0).filter(lose) =~= Seq::<usize>::empty()) by {
            reveal(Seq::filter);
        }
        assert(free0 + Seq::<usize>::empty() =~= free0);
    }
    while i < objects.len()
        invariant
            i <= objs.len(),
            objects@ == objs,
            objs.no_duplicates(),
            forall|j: int| 0 <= j < objs.len() ==> live_at(start, #[trigger] objs[j]),
            forall|a: usize| live_at(start, a) ==> (tracer@.marked(a) <==> #[trigger] keep(a)),
            forall|a: usize| lose(a) == !#[trigger] keep(a),
            cells@.len() == start.len(),
            forall|a: usize|
                a < start.len() ==> #[trigger] cells@[a as int] == (if objs.take(i as int).contains(a) {
                    if lose(a) {
                        None
                    } else {
                        Some(GcBox { marked: true, value: start[a as int]->0.value })
                    }
                } else {
                    start[a as int]
                }),
            kept@ == objs.take(i as int).filter(keep),
            free@ == free0 + objs.take(i as int).filter(lose),
            reclaimed@.len() == objs.take(i as int).filter(lose).len(),
            forall|k: int|
                0 <= k < reclaimed@.len() ==> Some(#[trigger] reclaimed@[k]) == start[objs.take(
                    i as int,
                ).filter(lose)[k] as int],
        decreases objs.len() - i,
    {
        let a = objects[i];
        let ghost seen = objs.take(i as int);
        let ghost before = cells@;
        proof {
            assert(live_at(start, objs[i as int]));
            assert(!seen.contains(a)) by {
                if seen.contains(a) {
                    let j = choose|j: int| 0 <= j < seen.len() && seen[j] == a;
                    assert(objs[j] == objs[i as int]);
                }
            }
            assert(cells@[a as int] == start[a as int]);
            assert(objs.take(i + 1) =~= seen.push(a));
            seen.lemma_filter_push(a, keep);
            seen.lemma_filter_push(a, lose);
        }
        if tracer.is_marked(a) {
            match &mut cells[a] {
                Some(cell) => {
                    cell.marked = true;
                },
                None => {},
            }
            kept.push(a);
        } else {
            match cells[a].take() {
                Some(cell) => {
                    reclaimed.push(cell);
                },
                None => {},
            }
            free.push(a);
            proof {
                assert(free@ =~= free0 + seen.push(a).filter(lose));
                assert(before[a as int] is Some);
            }
        }
        proof {
            assert forall|b: usize| b < start.len() implies #[trigger] cells@[b as int] == (if objs.take(
                i + 1,
            ).contains(b) {
                if lose(b) {
                    None
                } else {
                    Some(GcBox { marked: true, value: start[b as int]->0.value })
                }
            } else {
                start[b as int]
            }) by {
                assert(before[b as int] == (if seen.contains(b) {
                    if lose(b) {
                        None
                    } else {
                        Some(GcBox { marked: true, value: start[b as int]->0.value })
                    }
                } else {
                    start[b as int]
                }));
                if b == a {
                    assert(seen.push(a)[i as int] == a);
                } else if seen.push(a).contains(b) {
                    let j = choose|j: int| 0 <= j < seen.push(a).len() && seen.push(a)[j] == b;
                    assert(seen[j] == b);
                } else if seen.contains(b) {
                    let j = choose|j: int| 0 <= j < seen.len() && seen[j] == b;
                    assert(seen.push(a)[j] == b);
                }
            }
        }
        i += 1;
    }
    proof {
        assert(objs.take(i as int) =~= objs);
    }
    *objects = kept;
    reclaimed
}

/// Drops from `roots` every address at which no cell is allocated any
/// more. `keep` says of a root that its cell is still allocated.
pub(crate) fn prune<T>(
    roots: &mut Vec<usize>,
    cells: &Vec<Option<GcBox<T>>>,
    Ghost(keep): Ghost<spec_fn(usize) -> bool>,
)
    requires
        forall|i: int|
            0 <= i < old(roots)@.len() ==> (live_at(cells@, #[trigger] old(roots)@[i]) <==> keep(
                old(roots)@[i],
            )),
    ensures
        final(roots)@ == old(roots)@.filter(keep),
{
    let ghost start = roots@;
    let mut kept: Vec<usize> = Vec::new();
    let mut i: usize = 0;
    proof {
        assert(start.take(0) =~= Seq::<usize>::empty());
        assert(start.take(0).filter(keep) =~= Seq::<usize>::empty()) by {
            reveal(Seq::filter);
        }
    }
    while i < roots.len()
        invariant
            i <= start.len(),
            roots@ == start,
            forall|j: int| 0 <= j < start.len() ==> (live_at(cells@, #[trigger] start[j]) <==> keep(start[j])),
            kept@ == start.take(i as int).filter(keep),
        decreases start.len() - i,
    {
        let r = roots[i];
        proof {
            assert(live_at(cells@, start[i as int]) <==> keep(start[i as int]));
            assert(start.take(i + 1) =~= start.take(i as int).push(r));
            start.take(i as int).lemma_filter_push(r, keep);
        }
        let live = r < cells.len() && cells[r].is_some();
        if live {
            kept.push(r);
        }
        i += 1;
    }
    proof {
        assert(start.take(i as int) =~= start);
    }
    *roots = kept;
}

} // verus!
