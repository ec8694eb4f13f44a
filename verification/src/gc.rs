//! Managed references and cells, the tracing capability, and the heap that
//! owns the cells and collects them.
use crate::collect::{
    arena_wf, graph_of, lemma_same_cells_arena, lemma_swept_arena, live_at, mark, marked_at,
    payloads_of, prune, sweep, unmark, vacant_at,
};
use crate::model::{other_than, HeapView, TracerView};
use crate::reach::{not_reached, reached};
use crate::seqs::{lemma_filter_membership, lemma_filter_no_duplicates};
use vstd::prelude::*;
use vstd::seq_lib::seq_to_set_is_finite;

verus! {

/// A managed reference: a copyable handle that holds the address of a
/// managed cell. It does not own the cell; the heap does. Two references
/// are equal when they hold the same address.
#[derive(Clone, Copy, PartialEq, Eq, Structural, Debug)]
pub struct Gc {
    ptr: usize,
}

impl View for Gc {
    type V = usize;

    /// The address that the reference holds.
    closed spec fn view(&self) -> usize {
        self.ptr
    }
}

/// The marks of one pass: the mark of every cell that takes part in it,
/// and the marked cells whose payloads are yet to be traced. While a pass
/// runs, the mark bits are kept here, so that a payload can be read while
/// marks are set; the sweep writes them back to the cells.
pub struct Tracer {
    marks: Vec<Option<bool>>,
    pending: Vec<usize>,
}

impl View for Tracer {
    type V = TracerView;

    closed spec fn view(&self) -> TracerView {
        TracerView {
            marks: Map::new(
                |a: usize| a < self.marks@.len() && self.marks@[a as int] is Some,
                |a: usize| self.marks@[a as int]->0,
            ),
            pending: self.pending@,
        }
    }
}

impl Tracer {
    /// A tracer of a pass in which no cell takes part yet.
    pub fn new() -> (tracer: Tracer)
        ensures
            tracer@ == (TracerView { marks: Map::empty(), pending: Seq::empty() }),
    {
        let tracer = Tracer { marks: Vec::new(), pending: Vec::new() };
        assert(tracer@.marks =~= Map::<usize, bool>::empty());
        tracer
    }

    /// Lets the cell at `ptr` take part in the pass, with its mark
    /// cleared. The marks are kept by address, one entry for each address
    /// up to `ptr`, so `ptr` must leave room for that count of entries.
    pub fn enroll(&mut self, ptr: usize)
        requires
            ptr < usize::MAX,
        ensures
            final(self)@ == old(self)@.enroll(ptr),
    {
        while self.marks.len() <= ptr
            invariant
                self@ == old(self)@,
                ptr < usize::MAX,
            decreases ptr + 1 - self.marks@.len(),
        {
            let ghost before = self@;
            self.marks.push(None);
            assert(self@.marks =~= before.marks);
        }
        self.marks[ptr] = Some(false);
        assert(self@.marks =~= old(self)@.marks.insert(ptr, false));
    }

    /// Whether the cell at `ptr` takes part in the pass and is marked.
    pub fn is_marked(&self, ptr: usize) -> (marked: bool)
        ensures
            marked == self@.marked(ptr),
    {
        if ptr < self.marks.len() {
            match self.marks[ptr] {
                Some(mark) => mark,
                None => false,
            }
        } else {
            false
        }
    }

    /// The addresses of the marked cells that await the trace of their
    /// payload, oldest first.
    pub fn pending(&self) -> (pending: &Vec<usize>)
        ensures
            pending@ == self@.pending,
    {
        &self.pending
    }

    /// Takes the newest pending address, if any is left. No mark changes.
    pub fn pop(&mut self) -> (next: Option<usize>)
        ensures
            old(self)@.pending.len() == 0 ==> next is None && final(self)@ == old(self)@,
            old(self)@.pending.len() > 0 ==> next == Some(old(self)@.pending.last()) && final(self)@ == old(
                self,
            )@.popped(),
    {
        self.pending.pop()
    }
}

impl Gc {
    /// The reference to the cell at `ptr`.
    pub fn from_raw(ptr: usize) -> (gc: Gc)
        ensures
            gc@ == ptr,
    {
        Gc { ptr }
    }

    /// The address of the target cell. The heap places no cell at address
    /// zero, so the address of a live cell is never null.
    pub fn as_non_null(&self) -> (ptr: usize)
        ensures
            ptr == self@,
    {
        self.ptr
    }

    /// Traces the reference: if the target cell takes part in the pass and
    /// is unmarked, marks it and queues it for the trace of its payload,
    /// which the collector runs once the mark is set. A marked target is
    /// left alone, so that a cycle ends the walk, and so is an address at
    /// which no cell takes part: tracing twice is tracing once.
    pub fn trace(&self, tracer: &mut Tracer)
        ensures
            final(tracer)@ == old(tracer)@.trace(self@),
            !old(tracer)@.known(self@) || old(tracer)@.marked(self@) ==> final(tracer)@ == old(tracer)@,
            old(tracer)@.known(self@) && !old(tracer)@.marked(self@) ==> final(tracer)@.marked(self@)
                && final(tracer)@.pending == old(tracer)@.pending.push(self@) && (forall|b: usize|
                b != self@ ==> final(tracer)@.marked(b) == old(tracer)@.marked(b)),
            forall|b: usize| final(tracer)@.known(b) == old(tracer)@.known(b),
    {
        let ptr = self.ptr;
        if ptr < tracer.marks.len() {
            match tracer.marks[ptr] {
                Some(false) => {
                    tracer.marks[ptr] = Some(true);
                    tracer.pending.push(ptr);
                    assert(tracer@.marks =~= old(tracer)@.marks.insert(ptr, true));
                },
                _ => {},
            }
        }
    }
}

/// The capability of a payload to be traced: it traces each reference that
/// it holds.
pub trait Trace {
    /// The addresses that the value's references hold, in the order in
    /// which `trace` traces them.
    spec fn refs(&self) -> Seq<usize>;

    /// Calls [`Gc::trace`] on each reference that the value holds, and does
    /// nothing else to the tracer: afterwards every cell of the pass that
    /// the value refers to is marked, and those that were unmarked are
    /// queued.
    fn trace(&self, tracer: &mut Tracer)
        ensures
            final(tracer)@ == old(tracer)@.trace_all(self.refs()),
    ;
}

/// A payload with one number and at most one reference to another cell.
pub struct MyData {
    pub value: i32,
    pub child: Option<Gc>,
}

impl Trace for MyData {
    open spec fn refs(&self) -> Seq<usize> {
        match self.child {
            Some(child) => seq![child@],
            None => Seq::empty(),
        }
    }

    fn trace(&self, tracer: &mut Tracer)
        ensures
            final(tracer)@ == (match self.child {
                Some(child) => old(tracer)@.trace(child@),
                None => old(tracer)@,
            }),
    {
        if let Some(child) = &self.child {
            child.trace(tracer);
            assert(self.refs().drop_last() =~= Seq::<usize>::empty());
            assert(old(tracer)@.trace_all(self.refs()) == old(tracer)@.trace_all(
                Seq::<usize>::empty(),
            ).trace(child@));
        }
    }
}

/// A boxed payload is traced as the payload itself. A heap of
/// `Box<dyn Trace>` holds payloads of any traceable type.
impl<T: Trace + ?Sized> Trace for Box<T> {
    open spec fn refs(&self) -> Seq<usize> {
        (**self).refs()
    }

    fn trace(&self, tracer: &mut Tracer) {
        (**self).trace(tracer);
    }
}

/// A managed cell: a payload and the collector's mark bit.
pub struct GcBox<T> {
    pub marked: bool,
    pub value: Box<T>,
}

impl<T> GcBox<T> {
    /// An unmarked cell that holds `value`.
    pub fn new(value: Box<T>) -> (cell: Self)
        ensures
            cell == (GcBox { marked: false, value }),
    {
        GcBox { marked: false, value }
    }
}

impl<T: Trace> GcBox<T> {
    /// Traces the payload.
    pub fn trace(&self, tracer: &mut Tracer)
        ensures
            final(tracer)@ == old(tracer)@.trace_all(self.value.refs()),
    {
        self.value.trace(tracer);
    }
}

/// The heap: it owns every managed cell, knows the registered roots, and
/// collects what they do not reach.
///
/// Roots are registered through exclusive access to the heap.
pub struct Heap<T: Trace> {
    cells: Vec<Option<GcBox<T>>>,
    free: Vec<usize>,
    objects: Vec<usize>,
    roots: Vec<usize>,
    allocation_count: usize,
    threshold: usize,
}

impl<T: Trace> View for Heap<T> {
    type V = HeapView<T>;

    /// The objects, their payloads and marks, the roots and the two
    /// counts. Which vacant addresses the arena holds ready is no part of
    /// it: no result depends on them but the address of the next cell.
    closed spec fn view(&self) -> HeapView<T> {
        HeapView {
            objects: self.objects@,
            payloads: payloads_of(self.cells@),
            marked: Set::new(|a: usize| marked_at(self.cells@, a)),
            roots: self.roots@,
            allocation_count: self.allocation_count as nat,
            threshold: self.threshold as nat,
        }
    }
}

impl<T: Trace> Heap<T> {
    /// The heap's invariant. It implies that of its view.
    pub closed spec fn wf(&self) -> bool {
        &&& arena_wf(self.cells@, self.objects@, self.free@)
        &&& self.roots@.no_duplicates()
        &&& forall|i: int| 0 <= i < self.roots@.len() ==> live_at(self.cells@, #[trigger] self.roots@[i])
        &&& (self.allocation_count < self.threshold || self.allocation_count == 0)
    }

    /// A well-formed heap has a well-formed view.
    pub proof fn lemma_view_wf(&self)
        requires
            self.wf(),
        ensures
            self@.wf(),
    {
        assert forall|a: usize| self@.payloads.contains_key(a) <==> self@.objects.contains(a) by {
            if self.objects@.contains(a) {
                let i = choose|i: int| 0 <= i < self.objects@.len() && self.objects@[i] == a;
                assert(live_at(self.cells@, self.objects@[i]));
            }
        }
        if self.objects@.contains(0) {
            assert(self@.payloads.contains_key(0));
        }
        assert forall|i: int| 0 <= i < self@.roots.len() implies self@.objects.contains(
            #[trigger] self@.roots[i],
        ) by {
            assert(live_at(self.cells@, self.roots@[i]));
        }
    }

    /// An empty heap that collects at every allocation.
    pub fn new() -> (heap: Self)
        ensures
            heap.wf(),
            heap@ == (HeapView::<T> {
                objects: Seq::empty(),
                payloads: Map::empty(),
                marked: Set::empty(),
                roots: Seq::empty(),
                allocation_count: 0,
                threshold: 1,
            }),
    {
        Self::with_threshold(1)
    }

    /// An empty heap that collects at every `threshold`-th allocation.
    pub fn with_threshold(threshold: usize) -> (heap: Self)
        ensures
            heap.wf(),
            heap@ == (HeapView::<T> {
                objects: Seq::empty(),
                payloads: Map::empty(),
                marked: Set::empty(),
                roots: Seq::empty(),
                allocation_count: 0,
                threshold: threshold as nat,
            }),
    {
        let mut cells: Vec<Option<GcBox<T>>> = Vec::new();
        cells.push(None);
        let heap = Heap {
            cells,
            free: Vec::new(),
            objects: Vec::new(),
            roots: Vec::new(),
            allocation_count: 0,
            threshold,
        };
        assert(heap@.payloads =~= Map::<usize, T>::empty());
        assert(heap@.marked =~= Set::<usize>::empty());
        heap
    }

    /// Runs one mark-and-sweep pass from exactly the given roots and hands
    /// out the cells that it freed, oldest first: every allocated cell that
    /// `roots` reach stays, marked, with its payload and in its place among
    /// the objects, and every other cell leaves the heap, unmarked. An address among
    /// `roots` at which no cell is allocated counts for nothing. A
    /// registered root whose cell was freed is no root any more.
    pub fn collect_garbage(&mut self, roots: &[usize]) -> (reclaimed: Vec<GcBox<T>>)
        requires
            old(self).wf(),
        ensures
            final(self).wf(),
            final(self)@ == old(self)@.collect(roots@.to_set()),
            reclaimed@.len() == old(self)@.discarded(roots@.to_set()).len(),
            forall|k: int|
                0 <= k < reclaimed@.len() ==> !(#[trigger] reclaimed@[k]).marked && *reclaimed@[k].value == old(
                    self,
                )@.payloads[old(self)@.discarded(roots@.to_set())[k]],
    {
        let ghost start = self.cells@;
        let ghost objs = self.objects@;
        let ghost free = self.free@;
        let ghost known = self.roots@;
        let ghost g = self@.graph();
        let ghost keep = reached(g, roots@.to_set());
        let ghost lose = not_reached(g, roots@.to_set());
        unmark(&mut self.cells, &self.objects);
        let ghost cleared = self.cells@;
        proof {
            lemma_same_cells_arena(start, cleared, objs, free);
            assert(graph_of(cleared) =~= g);
            assert forall|i: int| 0 <= i < known.len() implies live_at(cleared, #[trigger] known[i]) by {
                assert(live_at(start, known[i]));
            }
        }
        let mut tracer = self.tracer();
        let ghost blank = tracer@;
        self.mark(&mut tracer, roots);
        proof {
            assert(self@.graph() =~= g);
            assert forall|a: usize| live_at(cleared, a) implies (tracer@.marked(a) <==> #[trigger] keep(a)) by {
                blank.lemma_marked_from_blank(g, roots@.to_set(), a);
                assert(tracer@.marked(a) <==> blank.marked_from(g, roots@.to_set(), a));
            }
        }
        let reclaimed = sweep(
            &mut self.cells,
            &mut self.objects,
            &mut self.free,
            &tracer,
            Ghost(keep),
            Ghost(lose),
        );
        let ghost swept = self.cells@;
        proof {
            assert forall|a: usize| a < cleared.len() implies (#[trigger] swept[a as int] is Some
                <==> cleared[a as int] is Some && keep(a)) by {
                if live_at(cleared, a) {
                    assert(objs.contains(a));
                }
                if objs.contains(a) {
                    let j = choose|j: int| 0 <= j < objs.len() && objs[j] == a;
                    assert(live_at(cleared, objs[j]));
                }
            }
            lemma_swept_arena(cleared, swept, objs, free, keep, lose);
            assert forall|i: int| 0 <= i < known.len() implies (live_at(swept, #[trigger] known[i]) <==> keep(
                known[i],
            )) by {
                assert(live_at(start, known[i]));
            }
        }
        prune(&mut self.roots, &self.cells, Ghost(keep));
        proof {
            assert forall|a: usize| live_at(swept, a) implies marked_at(swept, a) && *swept[a as int]->0.value
                == *start[a as int]->0.value by {
                assert(objs.contains(a));
                assert(cleared[a as int]->0.value == start[a as int]->0.value);
            }
            assert(self@.payloads =~= old(self)@.payloads.restrict(Set::new(keep)));
            assert(self@.marked =~= old(self)@.payloads.dom().intersect(Set::new(keep)));
            assert(self@ =~= old(self)@.collect(roots@.to_set()));
            lemma_filter_no_duplicates(known, keep);
            assert forall|i: int| 0 <= i < self.roots@.len() implies live_at(
                swept,
                #[trigger] self.roots@[i],
            ) by {
                let r = self.roots@[i];
                assert(self.roots@.contains(r));
                lemma_filter_membership(known, keep, r);
                let j = choose|j: int| 0 <= j < known.len() && known[j] == r;
                assert(live_at(start, known[j]));
            }
            assert forall|k: int| 0 <= k < reclaimed@.len() implies !(#[trigger] reclaimed@[k]).marked
                && *reclaimed@[k].value == old(self)@.payloads[old(self)@.discarded(roots@.to_set())[k]] by {
                let a = objs.filter(lose)[k];
                assert(objs.filter(lose).contains(a));
                lemma_filter_membership(objs, lose, a);
                assert(live_at(cleared, a) && !marked_at(cleared, a));
                assert(Some(reclaimed@[k]) == cleared[a as int]);
                assert(cleared[a as int]->0.value == start[a as int]->0.value);
            }
        }
        reclaimed
    }

    /// The tracer of a pass over this heap that is yet to begin: every
    /// allocated cell takes part in it, unmarked, and nothing is pending.
    pub fn tracer(&self) -> (tracer: Tracer)
        requires
            self.wf(),
        ensures
            tracer@ == (TracerView {
                marks: Map::new(|a: usize| self@.live(a), |a: usize| false),
                pending: Seq::empty(),
            }),
    {
        let mut tracer = Tracer::new();
        let mut i: usize = 0;
        while i < self.objects.len()
            invariant
                i <= self.objects@.len(),
                self.wf(),
                tracer@.pending.len() == 0,
                forall|a: usize| tracer@.known(a) <==> self.objects@.take(i as int).contains(a),
                forall|a: usize| !tracer@.marked(a),
            decreases self.objects@.len() - i,
        {
            let a = self.objects[i];
            let ghost seen = self.objects@.take(i as int);
            let ghost joined = tracer@;
            proof {
                assert(live_at(self.cells@, self.objects@[i as int]));
                assert(self.cells.len() == self.cells@.len());
            }
            tracer.enroll(a);
            proof {
                assert(self.objects@.take(i + 1) =~= seen.push(a));
                assert forall|b: usize| !tracer@.marked(b) by {
                    assert(!joined.marked(b));
                }
                assert forall|b: usize| tracer@.known(b) <==> seen.push(a).contains(b) by {
                    assert(joined.known(b) <==> seen.contains(b));
                    if seen.contains(b) {
                        let j = choose|j: int| 0 <= j < seen.len() && seen[j] == b;
                        assert(seen.push(a)[j] == b);
                    }
                    if b == a {
                        assert(seen.push(a)[seen.len() as int] == a);
                    }
                    if seen.push(a).contains(b) && b != a {
                        let j = choose|j: int| 0 <= j < seen.push(a).len() && seen.push(a)[j] == b;
                        assert(seen[j] == b);
                    }
                }
            }
            i += 1;
        }
        proof {
            assert(self.objects@.take(i as int) =~= self.objects@);
            self.lemma_view_wf();
            assert(tracer@.marks =~= Map::new(|a: usize| self@.live(a), |a: usize| false)) by {
                assert forall|a: usize| tracer@.marks.contains_key(a) <==> self@.live(a) by {
                    assert(tracer@.known(a) <==> self.objects@.contains(a));
                }
                assert forall|a: usize| tracer@.marks.contains_key(a) implies tracer@.marks[a] == false by {
                    assert(!tracer@.marked(a));
                }
            }
            assert(tracer@.pending =~= Seq::<usize>::empty());
        }
        tracer
    }

    /// The mark phase, from any marks: traces a reference to each of
    /// `roots`, and then the payload of each cell that was marked by it,
    /// until nothing is pending. Afterwards the marked cells are those that
    /// were marked before and those that `roots` reach through cells that
    /// were unmarked before; a cell that was marked before is not walked
    /// through, which is what ends the walk on a cycle. The heap itself
    /// does not change: the marks are those of the tracer, which must hold
    /// the cells of this heap and nothing pending.
    pub fn mark(&self, tracer: &mut Tracer, roots: &[usize])
        requires
            self.wf(),
            old(tracer)@.pending.len() == 0,
            forall|a: usize| old(tracer)@.known(a) <==> self@.live(a),
        ensures
            final(tracer)@.pending.len() == 0,
            forall|a: usize| final(tracer)@.known(a) <==> self@.live(a),
            forall|a: usize|
                #[trigger] final(tracer)@.marked(a) <==> old(tracer)@.marked_from(
                    self@.graph(),
                    roots@.to_set(),
                    a,
                ),
    {
        proof {
            self.lemma_view_wf();
            seq_to_set_is_finite(self.objects@);
            assert(tracer@.marks.dom() =~= self.objects@.to_set()) by {
                assert forall|a: usize| tracer@.marks.dom().contains(a) <==> self.objects@.to_set().contains(
                    a,
                ) by {
                    assert(tracer@.known(a) <==> self@.live(a));
                }
            }
            assert(graph_of(self.cells@) =~= self@.graph());
        }
        mark(&self.cells, tracer, roots);
        proof {
            assert forall|a: usize| tracer@.known(a) <==> self@.live(a) by {
                assert(tracer@.marks.dom().contains(a) == old(tracer)@.marks.dom().contains(a));
                assert(old(tracer)@.known(a) <==> self@.live(a));
            }
        }
    }

    /// Moves `value` into a fresh, unmarked cell and returns the reference
    /// to it. The cell joins the objects as the newest. At every
    /// `threshold`-th allocation a collection runs before the call returns,
    /// from the registered roots and the new cell, so that the returned
    /// reference is valid whatever was collected; the allocation count then
    /// starts again at zero. The cells that such a collection frees are
    /// dropped here; [`Heap::allocate_reclaiming`] hands them out instead.
    pub fn allocate(&mut self, value: T) -> (gc: Gc)
        requires
            old(self).wf(),
        ensures
            final(self).wf(),
            gc@ != 0,
            !old(self)@.live(gc@),
            final(self)@ == old(self)@.allocate(gc@, value),
            final(self)@.live(gc@),
            final(self)@.payloads[gc@] == value,
            final(self)@.roots == old(self)@.roots,
    {
        let (gc, _) = self.allocate_reclaiming(value);
        gc
    }

    /// Allocates as [`Heap::allocate`] does, and hands out with the
    /// reference the cells that the automatic collection freed, oldest
    /// first, so that the caller can finalize them: none where no
    /// collection was due.
    pub fn allocate_reclaiming(&mut self, value: T) -> (out: (Gc, Vec<GcBox<T>>))
        requires
            old(self).wf(),
        ensures
            final(self).wf(),
            out.0@ != 0,
            !old(self)@.live(out.0@),
            final(self)@ == old(self)@.allocate(out.0@, value),
            final(self)@.live(out.0@),
            final(self)@.payloads[out.0@] == value,
            final(self)@.roots == old(self)@.roots,
            out.1@.len() == old(self)@.reclaimed_by_allocate(out.0@, value).len(),
            forall|k: int|
                0 <= k < out.1@.len() ==> !(#[trigger] out.1@[k]).marked && *out.1@[k].value == old(
                    self,
                )@.place(out.0@, value).payloads[old(self)@.reclaimed_by_allocate(out.0@, value)[k]],
    {
        let ghost before = self@;
        proof {
            self.lemma_view_wf();
        }
        let ghost start = self.cells@;
        let ghost free0 = self.free@;
        let cell = GcBox::new(Box::new(value));
        let ptr = match self.free.pop() {
            Some(ptr) => {
                proof {
                    assert(vacant_at(start, free0[free0.len() - 1]));
                }
                self.cells[ptr] = Some(cell);
                ptr
            },
            None => {
                let ptr = self.cells.len();
                self.cells.push(Some(cell));
                ptr
            },
        };
        proof {
            assert(!live_at(start, ptr));
            before.lemma_allocate_keeps_new(ptr, value);
            if old(self).objects@.contains(ptr) {
                let i = choose|i: int| 0 <= i < old(self).objects@.len() && old(self).objects@[i] == ptr;
                assert(live_at(start, old(self).objects@[i]));
            }
        }
        self.objects.push(ptr);
        proof {
            let cells = self.cells@;
            assert forall|a: usize| live_at(cells, a) <==> live_at(start, a) || a == ptr by {}
            assert forall|i: int| 0 <= i < self.objects@.len() implies live_at(
                cells,
                #[trigger] self.objects@[i],
            ) by {
                if i < old(self).objects@.len() {
                    assert(live_at(start, old(self).objects@[i]));
                }
            }
            assert forall|a: usize| #[trigger] live_at(cells, a) implies self.objects@.contains(a) by {
                if a == ptr {
                    assert(self.objects@[self.objects@.len() - 1] == ptr);
                } else {
                    assert(live_at(start, a));
                    let i = choose|i: int| 0 <= i < old(self).objects@.len() && old(self).objects@[i] == a;
                    assert(self.objects@[i] == a);
                }
            }
            assert forall|i: int| 0 <= i < self.free@.len() implies vacant_at(
                cells,
                #[trigger] self.free@[i],
            ) by {
                assert(vacant_at(start, free0[i]));
            }
            assert forall|a: usize| #[trigger] vacant_at(cells, a) implies self.free@.contains(a) by {
                assert(vacant_at(start, a));
                let i = choose|i: int| 0 <= i < free0.len() && free0[i] == a;
                assert(self.free@[i] == a);
            }
            assert forall|i: int| 0 <= i < self.roots@.len() implies live_at(
                cells,
                #[trigger] self.roots@[i],
            ) by {
                assert(live_at(start, self.roots@[i]));
            }
            assert(self@.payloads =~= before.payloads.insert(ptr, value));
            assert(self@.marked =~= before.marked) by {
                assert forall|a: usize| marked_at(cells, a) <==> marked_at(start, a) by {}
            }
        }
        let reclaimed = if self.allocation_count + 1 >= self.threshold {
            let mut roots = self.roots.clone();
            roots.push(ptr);
            let ghost placed = self@;
            proof {
                assert(roots@ =~= self.roots@.push(ptr));
                assert(roots@.to_set() =~= self.roots@.to_set().insert(ptr)) by {
                    assert forall|a: usize| roots@.contains(a) <==> self.roots@.contains(a) || a == ptr by {
                        if self.roots@.contains(a) {
                            let i = choose|i: int| 0 <= i < self.roots@.len() && self.roots@[i] == a;
                            assert(roots@[i] == a);
                        }
                        if a == ptr {
                            assert(roots@[roots@.len() - 1] == a);
                        }
                    }
                }
                assert(placed.graph() =~= before.place(ptr, value).graph());
                assert(placed.payloads == before.place(ptr, value).payloads);
            }
            let reclaimed = self.collect_garbage(&roots);
            self.allocation_count = 0;
            assert(self@ =~= before.allocate(ptr, value));
            reclaimed
        } else {
            self.allocation_count += 1;
            assert(self@ =~= before.allocate(ptr, value));
            Vec::new()
        };
        (Gc::from_raw(ptr), reclaimed)
    }

    /// Registers the cell at `ptr` as a root; nothing but the roots
    /// changes. Nothing changes at all if it is a root already, or if no
    /// cell is allocated at `ptr`: a root names an allocated cell at all
    /// times.
    pub fn register_root(&mut self, ptr: usize)
        requires
            old(self).wf(),
        ensures
            final(self).wf(),
            final(self)@ == old(self)@.register(ptr),
    {
        let live = ptr < self.cells.len() && self.cells[ptr].is_some();
        if live && !holds(&self.roots, ptr) {
            self.roots.push(ptr);
            proof {
                assert forall|i: int, j: int|
                    0 <= i < self.roots@.len() && 0 <= j < self.roots@.len() && i != j implies self.roots@[i]
                    != self.roots@[j] by {
                    if i < old(self).roots@.len() {
                        assert(old(self).roots@.contains(old(self).roots@[i]));
                    }
                    if j < old(self).roots@.len() {
                        assert(old(self).roots@.contains(old(self).roots@[j]));
                    }
                }
            }
        }
    }

    /// Takes `ptr` out of the roots; nothing but the roots changes, and the
    /// cell stays allocated. Nothing changes at all if `ptr` is no root.
    pub fn unregister_root(&mut self, ptr: usize)
        requires
            old(self).wf(),
        ensures
            final(self).wf(),
            final(self)@ == old(self)@.unregister(ptr),
    {
        let ghost start = self.roots@;
        let ghost keep = other_than(ptr);
        let mut kept: Vec<usize> = Vec::new();
        let mut i: usize = 0;
        proof {
            assert(start.take(0) =~= Seq::<usize>::empty());
            assert(start.take(0).filter(keep) =~= Seq::<usize>::empty()) by {
                reveal(Seq::filter);
            }
        }
        while i < self.roots.len()
            invariant
                i <= start.len(),
                self.roots@ == start,
                keep == other_than(ptr),
                kept@ == start.take(i as int).filter(keep),
            decreases start.len() - i,
        {
            let r = self.roots[i];
            proof {
                assert(start.take(i + 1) =~= start.take(i as int).push(r));
                start.take(i as int).lemma_filter_push(r, keep);
            }
            if r != ptr {
                kept.push(r);
            }
            i += 1;
        }
        proof {
            assert(start.take(i as int) =~= start);
            lemma_filter_no_duplicates(start, keep);
            assert forall|k: int| 0 <= k < kept@.len() implies live_at(self.cells@, #[trigger] kept@[k]) by {
                assert(kept@.contains(kept@[k]));
                lemma_filter_membership(start, keep, kept@[k]);
                let j = choose|j: int| 0 <= j < start.len() && start[j] == kept@[k];
                assert(live_at(self.cells@, start[j]));
            }
        }
        self.roots = kept;
    }

    /// The payload of the cell that `gc` refers to, if one is allocated
    /// there.
    pub fn get(&self, gc: Gc) -> (payload: Option<&T>)
        ensures
            payload == (if self@.live(gc@) {
                Some(&self@.payloads[gc@])
            } else {
                None
            }),
    {
        let ptr = gc.as_non_null();
        if ptr < self.cells.len() {
            match &self.cells[ptr] {
                Some(cell) => Some(&*cell.value),
                None => None,
            }
        } else {
            None
        }
    }

    /// Whether a cell is allocated where `gc` refers to.
    pub fn contains(&self, gc: Gc) -> (live: bool)
        ensures
            live == self@.live(gc@),
    {
        let ptr = gc.as_non_null();
        ptr < self.cells.len() && self.cells[ptr].is_some()
    }

    /// Whether the cell that `gc` refers to is allocated and marked: the
    /// last pass kept it. Only a pass changes a mark.
    pub fn is_marked(&self, gc: Gc) -> (marked: bool)
        ensures
            marked == self@.marked.contains(gc@),
    {
        let ptr = gc.as_non_null();
        if ptr < self.cells.len() {
            match &self.cells[ptr] {
                Some(cell) => cell.marked,
                None => false,
            }
        } else {
            false
        }
    }

    /// Puts `value` in place of the payload of the cell that `gc` refers
    /// to and returns the payload that was there; the cell keeps its mark.
    /// Where no cell is allocated, nothing changes and `value` comes back
    /// as the error.
    pub fn replace(&mut self, gc: Gc, value: T) -> (previous: Result<T, T>)
        requires
            old(self).wf(),
        ensures
            final(self).wf(),
            old(self)@.live(gc@) ==> previous == Ok::<T, T>(old(self)@.payloads[gc@]) && final(self)@ == old(
                self,
            )@.store(gc@, value),
            !old(self)@.live(gc@) ==> previous == Err::<T, T>(value) && final(self)@ == old(self)@,
    {
        let ptr = gc.as_non_null();
        let ghost start = self.cells@;
        if ptr >= self.cells.len() {
            return Err(value);
        }
        let previous = match &mut self.cells[ptr] {
            Some(cell) => {
                let mut incoming = Box::new(value);
                core::mem::swap(&mut cell.value, &mut incoming);
                Ok(*incoming)
            },
            None => Err(value),
        };
        proof {
            lemma_same_cells_arena(start, self.cells@, self.objects@, self.free@);
            if live_at(start, ptr) {
                assert(self@.payloads =~= old(self)@.payloads.insert(ptr, value));
            } else {
                assert(self@.payloads =~= old(self)@.payloads);
            }
            assert(self@.marked =~= old(self)@.marked) by {
                assert forall|a: usize| marked_at(self.cells@, a) <==> marked_at(start, a) by {}
            }
            assert forall|i: int| 0 <= i < self.roots@.len() implies live_at(
                self.cells@,
                #[trigger] self.roots@[i],
            ) by {
                assert(live_at(start, self.roots@[i]));
            }
        }
        previous
    }

    /// The registered roots, in the order of their registration.
    pub fn roots(&self) -> (roots: &Vec<usize>)
        ensures
            roots@ == self@.roots,
    {
        &self.roots
    }

    /// The addresses of the allocated cells, oldest first.
    pub fn objects(&self) -> (objects: &Vec<usize>)
        ensures
            objects@ == self@.objects,
    {
        &self.objects
    }

    /// The allocations made since the last automatic collection.
    pub fn allocation_count(&self) -> (count: usize)
        ensures
            count == self@.allocation_count,
    {
        self.allocation_count
    }

    /// The count of allocations at which an automatic collection runs.
    pub fn threshold(&self) -> (threshold: usize)
        ensures
            threshold == self@.threshold,
    {
        self.threshold
    }
}

/// Whether `x` occurs in `v`.
fn holds(v: &Vec<usize>, x: usize) -> (found: bool)
    ensures
        found == v@.contains(x),
{
    let mut i: usize = 0;
    while i < v.len()
        invariant
            i <= v@.len(),
            forall|j: int| 0 <= j < i ==> v@[j] != x,
        decreases v@.len() - i,
    {
        if v[i] == x {
            return true;
        }
        i += 1;
    }
    false
}

/// The rootedness of one reference, from the guard's construction to its
/// release. The heap grants one guard for an address at a time: while a
/// guard is held, no other is granted for the same address, so that no
/// release cuts another guard's root short.
pub struct RootGuard {
    ptr: usize,
}

impl View for RootGuard {
    type V = usize;

    /// The address that the guard keeps rooted.
    closed spec fn view(&self) -> usize {
        self.ptr
    }
}

impl RootGuard {
    /// Registers the cell that `gc` refers to as a root and returns the
    /// guard of that root. There is no guard, and nothing changes, where
    /// no cell is allocated or where the cell is a root already.
    pub fn new<T: Trace>(heap: &mut Heap<T>, gc: Gc) -> (guard: Option<RootGuard>)
        requires
            old(heap).wf(),
        ensures
            final(heap).wf(),
            final(heap)@ == old(heap)@.register(gc@),
            guard is Some <==> old(heap)@.live(gc@) && !old(heap)@.roots.contains(gc@),
            guard is Some ==> guard->0@ == gc@ && final(heap)@.roots.contains(gc@),
    {
        let ptr = gc.as_non_null();
        if heap.contains(gc) && !holds(heap.roots(), ptr) {
            heap.register_root(ptr);
            assert(heap@.roots[heap@.roots.len() - 1] == ptr);
            Some(RootGuard { ptr })
        } else {
            None
        }
    }

    /// The address that the guard keeps rooted.
    pub fn as_non_null(&self) -> (ptr: usize)
        ensures
            ptr == self@,
    {
        self.ptr
    }

    /// Ends the guard: its address is no root any more. The cell stays
    /// allocated until a collection finds it unreachable.
    pub fn release<T: Trace>(self, heap: &mut Heap<T>)
        requires
            old(heap).wf(),
        ensures
            final(heap).wf(),
            final(heap)@ == old(heap)@.unregister(self@),
    {
        heap.unregister_root(self.ptr);
    }
}

} // verus!
