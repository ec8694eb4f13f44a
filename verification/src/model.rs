//! The abstract heap and the abstract tracer that the contracts of
//! [`crate::gc::Heap`] and [`crate::gc::Tracer`] speak of.
use crate::gc::Trace;
use crate::reach::{
    closed_graph, edge, is_cycle, lemma_cycle_reached_whole, lemma_cycle_unrooted,
    lemma_reachable_in_restriction, lemma_reachable_is_live, lemma_root_reachable, not_reached,
    reachable, reached, Graph,
};
use crate::seqs::{
    lemma_filter_agree, lemma_filter_all, lemma_filter_membership, lemma_filter_no_duplicates,
};
use vstd::arithmetic::div_mod::{lemma_add_mod_noop, lemma_mod_self_0, lemma_small_mod};
use vstd::prelude::*;

verus! {

/// What a tracer holds during a pass: the mark of every cell that the pass
/// knows, and the marked cells whose payloads are yet to be traced.
#[verifier::ext_equal]
pub struct TracerView {
    /// The mark of each cell that takes part in the pass, by address.
    pub marks: Map<usize, bool>,
    /// The addresses of the marked cells that await the trace of their
    /// payload, oldest first.
    pub pending: Seq<usize>,
}

impl TracerView {
    /// A cell at `a` takes part in the pass.
    pub open spec fn known(self, a: usize) -> bool {
        self.marks.contains_key(a)
    }

    /// The cell at `a` takes part in the pass and is marked.
    pub open spec fn marked(self, a: usize) -> bool {
        self.marks.contains_key(a) && self.marks[a]
    }

    /// The tracer after the cell at `a` joined the pass, unmarked.
    pub open spec fn enroll(self, a: usize) -> Self {
        TracerView { marks: self.marks.insert(a, false), pending: self.pending }
    }

    /// The tracer after a reference to `a` was traced: an unmarked cell of
    /// the pass is marked and awaits the trace of its payload; a marked
    /// cell, or an address that names no cell of the pass, changes nothing.
    pub open spec fn trace(self, a: usize) -> Self {
        if self.known(a) && !self.marked(a) {
            TracerView { marks: self.marks.insert(a, true), pending: self.pending.push(a) }
        } else {
            self
        }
    }

    /// The tracer after references to each of `refs` were traced in turn.
    pub open spec fn trace_all(self, refs: Seq<usize>) -> Self
        decreases refs.len(),
    {
        if refs.len() == 0 {
            self
        } else {
            self.trace_all(refs.drop_last()).trace(refs.last())
        }
    }

    /// The tracer after the newest pending address was taken.
    pub open spec fn popped(self) -> Self {
        TracerView { marks: self.marks, pending: self.pending.drop_last() }
    }

    /// The addresses of the cells of the pass that are not marked.
    pub open spec fn unmarked(self) -> Set<usize> {
        Set::new(|a: usize| self.known(a) && !self.marked(a))
    }

    /// The cell at `a` is marked once the mark phase has run from `roots`
    /// over the graph `g`: it is marked already, or it is unmarked and
    /// `roots` reach it through unmarked cells.
    pub open spec fn marked_from(self, g: Graph, roots: Set<usize>, a: usize) -> bool {
        self.marked(a) || (self.unmarked().contains(a) && reachable(g.restrict(self.unmarked()), roots, a))
    }

    /// Cycle safety of the mark phase: from a root on a cycle of unmarked
    /// cells, every cell of the cycle is marked.
    pub proof fn lemma_cycle_marked_whole(
        self,
        g: Graph,
        roots: Set<usize>,
        cycle: Seq<usize>,
        k: int,
        i: int,
    )
        requires
            is_cycle(g, cycle),
            forall|j: int| 0 <= j < cycle.len() ==> self.unmarked().contains(#[trigger] cycle[j]),
            0 <= k < cycle.len(),
            roots.contains(cycle[k]),
            0 <= i < cycle.len(),
        ensures
            self.marked_from(g, roots, cycle[i]),
    {
        let h = g.restrict(self.unmarked());
        assert forall|j: int| 0 <= j < cycle.len() - 1 implies edge(h, #[trigger] cycle[j], cycle[j + 1]) by {
            assert(edge(g, cycle[j], cycle[j + 1]));
        }
        assert(edge(h, cycle.last(), cycle[0])) by {
            assert(self.unmarked().contains(cycle[cycle.len() - 1]));
        }
        lemma_root_reachable(h, roots, cycle[k]);
        lemma_cycle_reached_whole(h, roots, cycle, k, i);
    }

    /// On a tracer without marks, the mark phase marks what the roots
    /// reach.
    pub proof fn lemma_marked_from_blank(self, g: Graph, roots: Set<usize>, a: usize)
        requires
            forall|b: usize| !self.marked(b),
            forall|b: usize| self.known(b) <==> g.contains_key(b),
        ensures
            self.marked_from(g, roots, a) <==> g.contains_key(a) && reachable(g, roots, a),
    {
        assert(self.unmarked() =~= g.dom());
        assert(g.restrict(self.unmarked()) =~= g);
    }
}

/// What a heap holds, apart from how it stores it.
#[verifier::ext_equal]
pub struct HeapView<T> {
    /// The addresses of the allocated cells, oldest first.
    pub objects: Seq<usize>,
    /// The payload of each allocated cell, by address.
    pub payloads: Map<usize, T>,
    /// The addresses of the cells whose mark bit is set: the cells that
    /// the last pass kept.
    pub marked: Set<usize>,
    /// The registered roots, in the order of their registration.
    pub roots: Seq<usize>,
    /// The allocations made since the last automatic collection.
    pub allocation_count: nat,
    /// The count of allocations at which an automatic collection runs.
    pub threshold: nat,
}

/// The predicate "is another address than `a`".
pub open spec fn other_than(a: usize) -> spec_fn(usize) -> bool {
    |r: usize| r != a
}

/// The allocation count after one more allocation: it goes back to zero
/// when it reaches the threshold.
pub open spec fn next_count(count: nat, threshold: nat) -> nat {
    if count + 1 >= threshold {
        0
    } else {
        count + 1
    }
}

impl<T: Trace> HeapView<T> {
    /// The heap's object graph: each allocated cell with the addresses that
    /// its payload refers to.
    pub open spec fn graph(self) -> Graph {
        Map::new(|a: usize| self.payloads.contains_key(a), |a: usize| self.payloads[a].refs())
    }

    /// A cell is allocated at `a`.
    pub open spec fn live(self, a: usize) -> bool {
        self.payloads.contains_key(a)
    }

    /// No address occurs twice among the objects or among the roots, the
    /// objects are the cells that have a payload, none lies at address
    /// zero, only allocated cells are marked, every root is an object, and
    /// the allocation count stays below the threshold.
    pub open spec fn wf(self) -> bool {
        &&& self.objects.no_duplicates()
        &&& forall|a: usize| self.payloads.contains_key(a) <==> self.objects.contains(a)
        &&& !self.objects.contains(0)
        &&& forall|a: usize| self.marked.contains(a) ==> self.payloads.contains_key(a)
        &&& self.roots.no_duplicates()
        &&& forall|i: int| 0 <= i < self.roots.len() ==> self.objects.contains(#[trigger] self.roots[i])
        &&& (self.allocation_count < self.threshold || self.allocation_count == 0)
    }

    /// The heap after one mark-and-sweep pass from `roots`: the cells that
    /// `roots` reach stay, in their order and with their payloads, and are
    /// the marked cells; a registered root stays registered if its cell
    /// stays.
    pub open spec fn collect(self, roots: Set<usize>) -> Self {
        let keep = reached(self.graph(), roots);
        HeapView {
            objects: self.objects.filter(keep),
            payloads: self.payloads.restrict(Set::new(keep)),
            marked: self.payloads.dom().intersect(Set::new(keep)),
            roots: self.roots.filter(keep),
            allocation_count: self.allocation_count,
            threshold: self.threshold,
        }
    }

    /// The addresses that a pass from `roots` frees, oldest first.
    pub open spec fn discarded(self, roots: Set<usize>) -> Seq<usize> {
        self.objects.filter(not_reached(self.graph(), roots))
    }

    /// The heap with one more cell, at `a`, that holds `value` and is not
    /// marked.
    pub open spec fn place(self, a: usize, value: T) -> Self {
        HeapView {
            objects: self.objects.push(a),
            payloads: self.payloads.insert(a, value),
            marked: self.marked,
            roots: self.roots,
            allocation_count: self.allocation_count + 1,
            threshold: self.threshold,
        }
    }

    /// The next allocation runs an automatic collection.
    pub open spec fn collection_due(self) -> bool {
        self.allocation_count + 1 >= self.threshold
    }

    /// The heap after `value` was allocated at `a`: the cell is placed, and
    /// if the collection is due, a pass runs from the registered roots and
    /// the new cell, and the allocation count starts again at zero.
    pub open spec fn allocate(self, a: usize, value: T) -> Self {
        let placed = self.place(a, value);
        if self.collection_due() {
            let swept = placed.collect(self.roots.to_set().insert(a));
            HeapView {
                objects: swept.objects,
                payloads: swept.payloads,
                marked: swept.marked,
                roots: swept.roots,
                allocation_count: 0,
                threshold: swept.threshold,
            }
        } else {
            placed
        }
    }

    /// The addresses of the cells that the automatic collection frees when
    /// `value` is allocated at `a`, oldest first: none where no collection
    /// is due.
    pub open spec fn reclaimed_by_allocate(self, a: usize, value: T) -> Seq<usize> {
        if self.collection_due() {
            self.place(a, value).discarded(self.roots.to_set().insert(a))
        } else {
            Seq::empty()
        }
    }

    /// The heap after `a` was registered as a root: it joins the roots if
    /// it names an allocated cell and is no root yet.
    pub open spec fn register(self, a: usize) -> Self {
        if self.live(a) && !self.roots.contains(a) {
            HeapView {
                objects: self.objects,
                payloads: self.payloads,
                marked: self.marked,
                roots: self.roots.push(a),
                allocation_count: self.allocation_count,
                threshold: self.threshold,
            }
        } else {
            self
        }
    }

    /// The heap after `a` was unregistered: it is no root any more.
    pub open spec fn unregister(self, a: usize) -> Self {
        HeapView {
            objects: self.objects,
            payloads: self.payloads,
            marked: self.marked,
            roots: self.roots.filter(other_than(a)),
            allocation_count: self.allocation_count,
            threshold: self.threshold,
        }
    }

    /// The heap with `value` as the payload of the cell at `a`.
    pub open spec fn store(self, a: usize, value: T) -> Self {
        HeapView {
            objects: self.objects,
            payloads: self.payloads.insert(a, value),
            marked: self.marked,
            roots: self.roots,
            allocation_count: self.allocation_count,
            threshold: self.threshold,
        }
    }
}

/// The allocation count of a fresh heap after `n` allocations.
pub open spec fn count_after(threshold: nat, n: nat) -> nat
    decreases n,
{
    if n == 0 {
        0
    } else {
        next_count(count_after(threshold, (n - 1) as nat), threshold)
    }
}

/// The `n`-th allocation on a fresh heap, counted from one, runs an
/// automatic collection.
pub open spec fn collects_at(threshold: nat, n: nat) -> bool {
    n >= 1 && count_after(threshold, (n - 1) as nat) + 1 >= threshold
}

/// Threshold-triggered collection: with a threshold of `threshold`, the
/// allocations that run an automatic collection are exactly the
/// `threshold`-th, the one `threshold` allocations later, and so on; in
/// between the count grows by one with each allocation.
pub proof fn lemma_threshold_schedule(threshold: nat, n: nat)
    requires
        threshold >= 1,
    ensures
        count_after(threshold, n) == n % threshold,
        collects_at(threshold, n) <==> n >= 1 && n % threshold == 0,
    decreases n,
{
    let t = threshold as int;
    if n == 0 {
        lemma_small_mod(0, threshold);
    } else {
        lemma_threshold_schedule(threshold, (n - 1) as nat);
        let c = (n - 1) % t;
        lemma_add_mod_noop(n - 1, 1, t);
        if t == 1 {
            lemma_small_mod(0, threshold);
            assert(1int % 1 == 0);
            assert((c + 0) % 1 == 0);
            assert(n as int % 1 == 0);
            assert(c == 0);
        } else {
            lemma_small_mod(1, threshold);
            if c + 1 < t {
                lemma_small_mod((c + 1) as nat, threshold);
            } else {
                lemma_mod_self_0(t);
            }
        }
    }
}

impl<T: Trace> HeapView<T> {
    /// Reachability correctness, cell by cell: after a pass from `roots`,
    /// a cell is allocated exactly if it was allocated before and `roots`
    /// reach it; it is then marked and holds the payload that it held.
    pub proof fn lemma_collect_keeps_reached(self, roots: Set<usize>, a: usize)
        requires
            self.wf(),
        ensures
            self.collect(roots).live(a) <==> self.live(a) && reachable(self.graph(), roots, a),
            self.collect(roots).objects.contains(a) <==> self.live(a) && reachable(self.graph(), roots, a),
            self.collect(roots).live(a) ==> self.collect(roots).payloads[a] == self.payloads[a],
            self.collect(roots).marked.contains(a) <==> self.collect(roots).live(a),
    {
        lemma_filter_membership(self.objects, reached(self.graph(), roots), a);
    }

    /// A pass leaves a well-formed heap well-formed.
    pub proof fn lemma_collect_wf(self, roots: Set<usize>)
        requires
            self.wf(),
        ensures
            self.collect(roots).wf(),
    {
        let keep = reached(self.graph(), roots);
        let after = self.collect(roots);
        lemma_filter_no_duplicates(self.objects, keep);
        lemma_filter_no_duplicates(self.roots, keep);
        assert forall|a: usize| after.payloads.contains_key(a) <==> after.objects.contains(a) by {
            lemma_filter_membership(self.objects, keep, a);
        }
        lemma_filter_membership(self.objects, keep, 0);
        assert forall|i: int| 0 <= i < after.roots.len() implies after.objects.contains(
            #[trigger] after.roots[i],
        ) by {
            let r = after.roots[i];
            assert(after.roots.contains(r));
            lemma_filter_membership(self.roots, keep, r);
            lemma_filter_membership(self.objects, keep, r);
            let j = choose|j: int| 0 <= j < self.roots.len() && self.roots[j] == r;
            assert(self.objects.contains(self.roots[j]));
        }
    }

    /// Reachability correctness: in a heap whose references and roots all
    /// name allocated cells, the cells that survive a pass from `roots` are
    /// exactly the transitive closure of `roots` over the references.
    pub proof fn lemma_survivors_are_the_closure(self, roots: Set<usize>)
        requires
            self.wf(),
            closed_graph(self.graph()),
            forall|r: usize| roots.contains(r) ==> self.live(r),
        ensures
            self.collect(roots).objects.to_set() == Set::new(reached(self.graph(), roots)),
    {
        let keep = reached(self.graph(), roots);
        assert forall|a: usize| self.collect(roots).objects.to_set().contains(a) <==> Set::new(keep).contains(
            a,
        ) by {
            self.lemma_collect_keeps_reached(roots, a);
            if reachable(self.graph(), roots, a) {
                assert(roots.subset_of(self.graph().dom()));
                lemma_reachable_is_live(self.graph(), roots, a);
            }
        }
        assert(self.collect(roots).objects.to_set() =~= Set::new(keep));
    }

    /// Idempotence: a second pass from the same roots, with nothing
    /// allocated in between, changes nothing.
    pub proof fn lemma_collect_idempotent(self, roots: Set<usize>)
        requires
            self.wf(),
        ensures
            self.collect(roots).collect(roots) == self.collect(roots),
    {
        let g = self.graph();
        let keep = reached(g, roots);
        let once = self.collect(roots);
        let again = reached(once.graph(), roots);
        assert(once.graph() =~= g.restrict(Set::new(keep)));
        assert forall|a: usize| #[trigger] reachable(once.graph(), roots, a) == reachable(g, roots, a) by {
            lemma_reachable_in_restriction(g, roots, a);
        }
        assert forall|i: int| 0 <= i < once.objects.len() implies keep(#[trigger] once.objects[i]) by {
            assert(once.objects.contains(once.objects[i]));
            lemma_filter_membership(self.objects, keep, once.objects[i]);
        }
        assert forall|i: int| 0 <= i < once.roots.len() implies keep(#[trigger] once.roots[i]) by {
            assert(once.roots.contains(once.roots[i]));
            lemma_filter_membership(self.roots, keep, once.roots[i]);
        }
        lemma_filter_agree(once.objects, again, keep);
        lemma_filter_all(once.objects, keep);
        lemma_filter_agree(once.roots, again, keep);
        lemma_filter_all(once.roots, keep);
        assert(once.payloads.restrict(Set::new(again)) =~= once.payloads);
        assert(once.collect(roots) =~= once);
    }

    /// Cycle safety, first half: a cycle that holds no root, and to which
    /// only its own cells refer, is freed as a whole by one pass.
    pub proof fn lemma_unrooted_cycle_is_freed(self, roots: Set<usize>, cycle: Seq<usize>, i: int)
        requires
            self.wf(),
            is_cycle(self.graph(), cycle),
            forall|j: int| 0 <= j < cycle.len() ==> !roots.contains(#[trigger] cycle[j]),
            forall|u: usize, j: int|
                0 <= j < cycle.len() && #[trigger] edge(self.graph(), u, cycle[j]) ==> cycle.contains(u),
            0 <= i < cycle.len(),
        ensures
            !self.collect(roots).live(cycle[i]),
            !self.collect(roots).objects.contains(cycle[i]),
    {
        lemma_cycle_unrooted(self.graph(), roots, cycle, i);
        self.lemma_collect_keeps_reached(roots, cycle[i]);
    }

    /// Cycle safety, second half: a cycle of which one cell is a root
    /// survives a pass as a whole.
    pub proof fn lemma_rooted_cycle_is_kept(self, roots: Set<usize>, cycle: Seq<usize>, k: int, i: int)
        requires
            self.wf(),
            is_cycle(self.graph(), cycle),
            0 <= k < cycle.len(),
            roots.contains(cycle[k]),
            0 <= i < cycle.len(),
        ensures
            self.collect(roots).live(cycle[i]),
            self.collect(roots).objects.contains(cycle[i]),
            self.collect(roots).payloads[cycle[i]] == self.payloads[cycle[i]],
    {
        let g = self.graph();
        lemma_root_reachable(g, roots, cycle[k]);
        lemma_cycle_reached_whole(g, roots, cycle, k, i);
        assert(self.live(cycle[i])) by {
            if i < cycle.len() - 1 {
                assert(edge(g, cycle[i], cycle[i + 1]));
            } else {
                assert(edge(g, cycle.last(), cycle[0]));
            }
        }
        self.lemma_collect_keeps_reached(roots, cycle[i]);
    }

    /// Guard scoping: while the guard of the cell at `a` is held, a pass
    /// from the registered roots keeps the cell; the guard's release
    /// leaves the roots as they were before the guard, and a pass from them
    /// then frees the cell unless they reach it.
    pub proof fn lemma_guard_scoping(self, a: usize)
        requires
            self.wf(),
            self.live(a),
            !self.roots.contains(a),
        ensures
            self.register(a).wf(),
            self.register(a).roots.contains(a),
            self.register(a).collect(self.register(a).roots.to_set()).live(a),
            self.register(a).unregister(a) == self,
            !reachable(self.graph(), self.roots.to_set(), a) ==> !self.collect(self.roots.to_set()).live(a),
    {
        let held = self.register(a);
        assert(held.roots[held.roots.len() - 1] == a);
        assert(held.wf()) by {
            assert forall|i: int, j: int|
                0 <= i < held.roots.len() && 0 <= j < held.roots.len() && i != j implies held.roots[i]
                != held.roots[j] by {
                if i < self.roots.len() {
                    assert(self.roots.contains(self.roots[i]));
                }
                if j < self.roots.len() {
                    assert(self.roots.contains(self.roots[j]));
                }
            }
            assert forall|i: int| 0 <= i < held.roots.len() implies held.objects.contains(
                #[trigger] held.roots[i],
            ) by {
                if i < self.roots.len() {
                    assert(self.objects.contains(self.roots[i]));
                }
            }
        }
        lemma_root_reachable(held.graph(), held.roots.to_set(), a);
        held.lemma_collect_keeps_reached(held.roots.to_set(), a);
        assert(held.unregister(a) =~= self) by {
            self.roots.lemma_filter_push(a, other_than(a));
            assert forall|i: int| 0 <= i < self.roots.len() implies other_than(a)(#[trigger] self.roots[i]) by {
                assert(self.roots.contains(self.roots[i]));
            }
            lemma_filter_all(self.roots, other_than(a));
        }
        self.lemma_collect_keeps_reached(self.roots.to_set(), a);
    }

    /// An allocation leaves the heap well-formed, with the new cell
    /// allocated and holding its payload, and with the roots it had: no
    /// automatic collection frees the new cell or a registered root.
    pub proof fn lemma_allocate_keeps_new(self, a: usize, value: T)
        requires
            self.wf(),
            !self.live(a),
            a != 0,
        ensures
            self.allocate(a, value).wf(),
            self.allocate(a, value).live(a),
            self.allocate(a, value).payloads[a] == value,
            self.allocate(a, value).roots == self.roots,
            self.allocate(a, value).allocation_count == next_count(self.allocation_count, self.threshold),
    {
        let placed = self.place(a, value);
        assert(placed.objects[placed.objects.len() - 1] == a);
        assert forall|b: usize| placed.objects.contains(b) <==> self.objects.contains(b) || b == a by {
            if self.objects.contains(b) {
                let i = choose|i: int| 0 <= i < self.objects.len() && self.objects[i] == b;
                assert(placed.objects[i] == b);
            }
        }
        assert(placed.objects.no_duplicates()) by {
            assert forall|i: int, j: int|
                0 <= i < placed.objects.len() && 0 <= j < placed.objects.len() && i != j implies placed.objects[i]
                != placed.objects[j] by {
                if i < self.objects.len() {
                    assert(self.objects.contains(self.objects[i]));
                }
                if j < self.objects.len() {
                    assert(self.objects.contains(self.objects[j]));
                }
            }
        }
        assert forall|i: int| 0 <= i < placed.roots.len() implies placed.objects.contains(
            #[trigger] placed.roots[i],
        ) by {
            assert(self.objects.contains(self.roots[i]));
        }
        if self.collection_due() {
            let roots = self.roots.to_set().insert(a);
            let keep = reached(placed.graph(), roots);
            let relaxed = HeapView { allocation_count: 0, ..placed };
            assert(relaxed.wf());
            assert(relaxed.graph() == placed.graph());
            relaxed.lemma_collect_wf(roots);
            lemma_root_reachable(placed.graph(), roots, a);
            relaxed.lemma_collect_keeps_reached(roots, a);
            assert forall|i: int| 0 <= i < self.roots.len() implies keep(#[trigger] self.roots[i]) by {
                assert(self.roots.contains(self.roots[i]));
                lemma_root_reachable(placed.graph(), roots, self.roots[i]);
            }
            lemma_filter_all(self.roots, keep);
            assert(self.allocate(a, value) =~= relaxed.collect(roots));
        }
    }

    /// The heap after one cell was allocated at each of `addrs` in turn,
    /// the `i`-th with the payload `values[i]`.
    pub open spec fn allocate_each(self, addrs: Seq<usize>, values: Seq<T>) -> Self
        decreases addrs.len(),
    {
        if addrs.len() == 0 {
            self
        } else {
            self.allocate_each(addrs.drop_last(), values.drop_last()).allocate(addrs.last(), values.last())
        }
    }

    /// Threshold-triggered collection, on the heap: from a count of zero,
    /// the allocation count after `n` allocations and the allocations that
    /// collect are those of the schedule, wherever the cells are placed.
    pub proof fn lemma_allocations_follow_schedule(self, addrs: Seq<usize>, values: Seq<T>)
        requires
            self.allocation_count == 0,
            addrs.len() == values.len(),
        ensures
            self.allocate_each(addrs, values).threshold == self.threshold,
            self.allocate_each(addrs, values).allocation_count == count_after(self.threshold, addrs.len()),
            addrs.len() >= 1 ==> (self.allocate_each(
                addrs.drop_last(),
                values.drop_last(),
            ).collection_due() <==> collects_at(self.threshold, addrs.len())),
        decreases addrs.len(),
    {
        if addrs.len() > 0 {
            self.lemma_allocations_follow_schedule(addrs.drop_last(), values.drop_last());
        }
    }
}

} // verus!
