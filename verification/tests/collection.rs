use embedded_gc::gc::{Gc, GcBox, Heap, MyData, RootGuard, Trace, Tracer};

fn leaf(value: i32) -> MyData {
    MyData { value, child: None }
}

fn node(value: i32, child: Gc) -> MyData {
    MyData { value, child: Some(child) }
}

fn value_at(heap: &Heap<MyData>, gc: Gc) -> Option<i32> {
    heap.get(gc).map(|data| data.value)
}

#[test]
fn new_heap_is_empty() {
    let heap: Heap<MyData> = Heap::new();
    assert!(heap.objects().is_empty());
    assert!(heap.roots().is_empty());
    assert_eq!(heap.allocation_count(), 0);
    assert_eq!(heap.threshold(), 1);
}

#[test]
fn with_threshold_sets_the_threshold() {
    let heap: Heap<MyData> = Heap::with_threshold(7);
    assert!(heap.objects().is_empty());
    assert_eq!(heap.allocation_count(), 0);
    assert_eq!(heap.threshold(), 7);
}

#[test]
fn allocate_returns_a_live_non_null_reference() {
    let mut heap = Heap::with_threshold(100);
    let a = heap.allocate(leaf(100));
    assert_ne!(a.as_non_null(), 0);
    assert!(heap.contains(a));
    assert_eq!(value_at(&heap, a), Some(100));
    assert_eq!(heap.objects(), &vec![a.as_non_null()]);
    assert_eq!(heap.allocation_count(), 1);
}

#[test]
fn objects_are_listed_oldest_first() {
    let mut heap = Heap::with_threshold(100);
    let a = heap.allocate(leaf(1));
    let b = heap.allocate(leaf(2));
    let c = heap.allocate(leaf(3));
    assert_eq!(
        heap.objects(),
        &vec![a.as_non_null(), b.as_non_null(), c.as_non_null()]
    );
}

#[test]
fn both_roots_survive_then_unrooted_parent_is_freed() {
    let mut heap = Heap::with_threshold(100);
    let a = heap.allocate(leaf(100));
    let b = heap.allocate(node(200, a));

    let freed = heap.collect_garbage(&[a.as_non_null(), b.as_non_null()]);
    assert!(freed.is_empty());
    assert!(heap.contains(a));
    assert!(heap.contains(b));

    let freed = heap.collect_garbage(&[a.as_non_null()]);
    assert_eq!(freed.len(), 1);
    assert_eq!(freed[0].value.value, 200);
    assert_eq!(freed[0].value.child, Some(a));
    assert!(!heap.contains(b));
    assert_eq!(heap.get(b).map(|d| d.value), None);
    assert_eq!(value_at(&heap, a), Some(100));
    assert_eq!(heap.objects(), &vec![a.as_non_null()]);

    let freed = heap.collect_garbage(&[a.as_non_null()]);
    assert!(freed.is_empty());
}

#[test]
fn chain_survives_from_its_head_and_is_freed_without_roots() {
    let mut heap = Heap::with_threshold(100);
    let a = heap.allocate(leaf(1));
    let b = heap.allocate(node(2, a));
    let c = heap.allocate(node(3, b));

    let freed = heap.collect_garbage(&[c.as_non_null()]);
    assert!(freed.is_empty());
    assert_eq!(
        heap.objects(),
        &vec![a.as_non_null(), b.as_non_null(), c.as_non_null()]
    );
    assert_eq!(value_at(&heap, a), Some(1));
    assert_eq!(value_at(&heap, b), Some(2));
    assert_eq!(value_at(&heap, c), Some(3));

    let freed = heap.collect_garbage(&[]);
    let values: Vec<i32> = freed.iter().map(|cell| cell.value.value).collect();
    assert_eq!(values, vec![1, 2, 3]);
    assert!(heap.objects().is_empty());
    assert!(!heap.contains(a));
    assert!(!heap.contains(b));
    assert!(!heap.contains(c));
}

#[test]
fn chain_from_the_middle_frees_the_head() {
    let mut heap = Heap::with_threshold(100);
    let a = heap.allocate(leaf(1));
    let b = heap.allocate(node(2, a));
    let c = heap.allocate(node(3, b));
    let freed = heap.collect_garbage(&[b.as_non_null()]);
    assert_eq!(freed.len(), 1);
    assert_eq!(freed[0].value.value, 3);
    assert!(!heap.contains(c));
    assert_eq!(heap.objects(), &vec![a.as_non_null(), b.as_non_null()]);
}

#[test]
fn unrooted_cycle_is_freed_in_one_pass() {
    let mut heap = Heap::with_threshold(100);
    let a = heap.allocate(leaf(1));
    let b = heap.allocate(node(2, a));
    assert_eq!(heap.replace(a, node(1, b)).ok().map(|d| d.value), Some(1));
    assert_eq!(heap.get(a).and_then(|d| d.child), Some(b));

    let freed = heap.collect_garbage(&[]);
    assert_eq!(freed.len(), 2);
    assert!(heap.objects().is_empty());
    assert!(!heap.contains(a));
    assert!(!heap.contains(b));
}

#[test]
fn cycle_with_one_root_stays_whole() {
    let mut heap = Heap::with_threshold(100);
    let a = heap.allocate(leaf(1));
    let b = heap.allocate(node(2, a));
    let c = heap.allocate(node(3, b));
    assert!(heap.replace(a, node(1, c)).is_ok());
    let outsider = heap.allocate(leaf(9));

    let freed = heap.collect_garbage(&[b.as_non_null()]);
    assert_eq!(freed.len(), 1);
    assert_eq!(freed[0].value.value, 9);
    assert!(!heap.contains(outsider));
    assert_eq!(
        heap.objects(),
        &vec![a.as_non_null(), b.as_non_null(), c.as_non_null()]
    );
}

#[test]
fn self_reference_ends_the_walk() {
    let mut heap = Heap::with_threshold(100);
    let a = heap.allocate(leaf(5));
    assert!(heap.replace(a, node(5, a)).is_ok());
    assert!(heap.collect_garbage(&[a.as_non_null()]).is_empty());
    assert!(heap.contains(a));
    assert_eq!(heap.collect_garbage(&[]).len(), 1);
    assert!(!heap.contains(a));
}

#[test]
fn collecting_twice_keeps_the_same_cells() {
    let mut heap = Heap::with_threshold(100);
    let a = heap.allocate(leaf(1));
    let b = heap.allocate(node(2, a));
    let _c = heap.allocate(node(3, b));
    let _d = heap.allocate(leaf(4));
    let roots = vec![b.as_non_null()];
    heap.collect_garbage(&roots);
    let first = heap.objects().clone();
    let freed = heap.collect_garbage(&roots);
    assert!(freed.is_empty());
    assert_eq!(heap.objects(), &first);
    assert_eq!(first, vec![a.as_non_null(), b.as_non_null()]);
}

#[test]
fn duplicate_roots_count_once() {
    let mut heap = Heap::with_threshold(100);
    let a = heap.allocate(leaf(1));
    let b = heap.allocate(leaf(2));
    let freed = heap.collect_garbage(&[a.as_non_null(), a.as_non_null()]);
    assert_eq!(freed.len(), 1);
    assert_eq!(freed[0].value.value, 2);
    assert!(!heap.contains(b));
    assert_eq!(heap.objects(), &vec![a.as_non_null()]);
}

#[test]
fn root_without_a_cell_counts_for_nothing() {
    let mut heap = Heap::with_threshold(100);
    let a = heap.allocate(leaf(1));
    let freed = heap.collect_garbage(&[0, 9999, a.as_non_null()]);
    assert!(freed.is_empty());
    assert_eq!(heap.objects(), &vec![a.as_non_null()]);
    let freed = heap.collect_garbage(&[0, 9999]);
    assert_eq!(freed.len(), 1);
    assert!(heap.objects().is_empty());
}

#[test]
fn reference_to_no_cell_is_not_followed() {
    let mut heap = Heap::with_threshold(100);
    let a = heap.allocate(leaf(1));
    let b = heap.allocate(leaf(2));
    let c = heap.allocate(node(3, a));
    let d = heap.allocate(node(4, Gc::from_raw(usize::MAX)));
    heap.collect_garbage(&[b.as_non_null(), c.as_non_null(), d.as_non_null()]);
    assert_eq!(heap.objects().len(), 4);

    let freed = heap.collect_garbage(&[b.as_non_null(), c.as_non_null(), d.as_non_null()]);
    assert!(freed.is_empty());
    let freed = heap.collect_garbage(&[c.as_non_null(), d.as_non_null()]);
    assert_eq!(freed.len(), 1);
    assert_eq!(freed[0].value.value, 2);
    let freed = heap.collect_garbage(&[d.as_non_null()]);
    assert_eq!(freed.len(), 2);
    assert_eq!(heap.objects(), &vec![d.as_non_null()]);
    assert!(!heap.contains(a));
}

#[test]
fn freed_addresses_are_used_again() {
    let mut heap = Heap::with_threshold(100);
    let a = heap.allocate(leaf(1));
    let b = heap.allocate(leaf(2));
    heap.collect_garbage(&[b.as_non_null()]);
    assert!(!heap.contains(a));
    let c = heap.allocate(leaf(3));
    assert_eq!(c, a);
    assert_eq!(value_at(&heap, c), Some(3));
    assert_eq!(heap.objects(), &vec![b.as_non_null(), c.as_non_null()]);
}

#[test]
fn survivors_keep_their_order() {
    let mut heap = Heap::with_threshold(100);
    let a = heap.allocate(leaf(1));
    let b = heap.allocate(leaf(2));
    let c = heap.allocate(leaf(3));
    let d = heap.allocate(leaf(4));
    let freed = heap.collect_garbage(&[d.as_non_null(), a.as_non_null(), c.as_non_null()]);
    assert_eq!(freed.len(), 1);
    assert_eq!(freed[0].value.value, 2);
    assert!(!heap.contains(b));
    assert_eq!(
        heap.objects(),
        &vec![a.as_non_null(), c.as_non_null(), d.as_non_null()]
    );
}

#[test]
fn register_root_is_idempotent() {
    let mut heap = Heap::with_threshold(100);
    let a = heap.allocate(leaf(1));
    heap.register_root(a.as_non_null());
    heap.register_root(a.as_non_null());
    assert_eq!(heap.roots(), &vec![a.as_non_null()]);
}

#[test]
fn register_root_ignores_an_address_without_a_cell() {
    let mut heap: Heap<MyData> = Heap::with_threshold(100);
    heap.register_root(0);
    heap.register_root(42);
    assert!(heap.roots().is_empty());
}

#[test]
fn unregister_root_removes_only_that_root() {
    let mut heap = Heap::with_threshold(100);
    let a = heap.allocate(leaf(1));
    let b = heap.allocate(leaf(2));
    let c = heap.allocate(leaf(3));
    heap.register_root(a.as_non_null());
    heap.register_root(b.as_non_null());
    heap.register_root(c.as_non_null());
    heap.unregister_root(b.as_non_null());
    assert_eq!(heap.roots(), &vec![a.as_non_null(), c.as_non_null()]);
    heap.unregister_root(b.as_non_null());
    assert_eq!(heap.roots(), &vec![a.as_non_null(), c.as_non_null()]);
}

#[test]
fn collection_drops_the_roots_of_freed_cells() {
    let mut heap = Heap::with_threshold(100);
    let a = heap.allocate(leaf(1));
    let b = heap.allocate(leaf(2));
    heap.register_root(a.as_non_null());
    heap.register_root(b.as_non_null());
    heap.collect_garbage(&[b.as_non_null()]);
    assert_eq!(heap.roots(), &vec![b.as_non_null()]);
    assert_eq!(heap.objects(), &vec![b.as_non_null()]);
}

#[test]
fn guarded_reference_survives_until_release() {
    let mut heap = Heap::with_threshold(100);
    let a = heap.allocate(leaf(100));
    let guard = RootGuard::new(&mut heap, a).unwrap();
    assert_eq!(guard.as_non_null(), a.as_non_null());
    assert_eq!(heap.roots(), &vec![a.as_non_null()]);

    let roots = heap.roots().clone();
    assert!(heap.collect_garbage(&roots).is_empty());
    assert_eq!(value_at(&heap, a), Some(100));

    guard.release(&mut heap);
    assert!(heap.roots().is_empty());
    assert!(heap.contains(a));

    let roots = heap.roots().clone();
    let freed = heap.collect_garbage(&roots);
    assert_eq!(freed.len(), 1);
    assert_eq!(freed[0].value.value, 100);
    assert!(!heap.contains(a));
}

#[test]
fn nested_guards_release_independently() {
    let mut heap = Heap::with_threshold(100);
    let a = heap.allocate(leaf(100));
    let b = heap.allocate(node(200, a));
    let guard_a = RootGuard::new(&mut heap, a).unwrap();
    let guard_b = RootGuard::new(&mut heap, b).unwrap();

    let roots = heap.roots().clone();
    assert!(heap.collect_garbage(&roots).is_empty());

    guard_b.release(&mut heap);
    let roots = heap.roots().clone();
    assert_eq!(roots, vec![a.as_non_null()]);
    let freed = heap.collect_garbage(&roots);
    assert_eq!(freed.len(), 1);
    assert_eq!(freed[0].value.value, 200);
    assert_eq!(value_at(&heap, a), Some(100));

    guard_a.release(&mut heap);
    let roots = heap.roots().clone();
    assert_eq!(heap.collect_garbage(&roots).len(), 1);
    assert!(heap.objects().is_empty());
}

#[test]
fn second_guard_for_one_address_is_refused() {
    let mut heap = Heap::with_threshold(100);
    let a = heap.allocate(leaf(1));
    let first = RootGuard::new(&mut heap, a);
    assert!(first.is_some());
    assert!(RootGuard::new(&mut heap, a).is_none());
    assert_eq!(heap.roots(), &vec![a.as_non_null()]);
    first.unwrap().release(&mut heap);
    assert!(heap.roots().is_empty());
    assert!(RootGuard::new(&mut heap, a).is_some());
}

#[test]
fn guard_for_a_freed_cell_is_refused() {
    let mut heap = Heap::with_threshold(100);
    let a = heap.allocate(leaf(1));
    heap.collect_garbage(&[]);
    assert!(RootGuard::new(&mut heap, a).is_none());
    assert!(heap.roots().is_empty());
}

#[test]
fn threshold_triggers_collection_at_every_nth_allocation() {
    let mut heap = Heap::with_threshold(3);
    let a = heap.allocate(leaf(1));
    assert_eq!(heap.allocation_count(), 1);
    let b = heap.allocate(leaf(2));
    assert_eq!(heap.allocation_count(), 2);
    assert_eq!(heap.objects().len(), 2);

    let c = heap.allocate(leaf(3));
    assert_eq!(heap.allocation_count(), 0);
    assert_eq!(heap.objects(), &vec![c.as_non_null()]);
    assert!(!heap.contains(a) || a == c);
    assert!(!heap.contains(b) || b == c);
    assert_eq!(value_at(&heap, c), Some(3));

    let d = heap.allocate(leaf(4));
    assert_eq!(heap.allocation_count(), 1);
    let e = heap.allocate(leaf(5));
    assert_eq!(heap.allocation_count(), 2);
    assert_eq!(heap.objects().len(), 3);
    assert!(heap.contains(c) && heap.contains(d) && heap.contains(e));

    let f = heap.allocate(leaf(6));
    assert_eq!(heap.allocation_count(), 0);
    assert_eq!(heap.objects(), &vec![f.as_non_null()]);
}

#[test]
fn automatic_collection_keeps_roots_and_the_new_cell() {
    let mut heap = Heap::with_threshold(2);
    let a = heap.allocate(leaf(100));
    let guard = RootGuard::new(&mut heap, a).unwrap();
    let b = heap.allocate(node(200, a));
    assert_eq!(heap.allocation_count(), 0);
    assert_eq!(heap.objects(), &vec![a.as_non_null(), b.as_non_null()]);
    let _c = heap.allocate(leaf(300));
    let d = heap.allocate(leaf(400));
    assert_eq!(heap.objects(), &vec![a.as_non_null(), d.as_non_null()]);
    assert_eq!(heap.roots(), &vec![a.as_non_null()]);
    guard.release(&mut heap);
}

#[test]
fn default_heap_collects_at_every_allocation() {
    let mut heap = Heap::new();
    let a = heap.allocate(leaf(100));
    assert_eq!(heap.allocation_count(), 0);
    assert_eq!(value_at(&heap, a), Some(100));
    let b = heap.allocate(node(200, a));
    assert_eq!(heap.objects(), &vec![a.as_non_null(), b.as_non_null()]);
    let c = heap.allocate(leaf(300));
    assert_eq!(heap.objects(), &vec![c.as_non_null()]);
    assert_eq!(value_at(&heap, c), Some(300));
}

#[test]
fn threshold_zero_collects_at_every_allocation() {
    let mut heap = Heap::with_threshold(0);
    let _a = heap.allocate(leaf(1));
    assert_eq!(heap.allocation_count(), 0);
    let b = heap.allocate(leaf(2));
    assert_eq!(heap.allocation_count(), 0);
    assert_eq!(heap.objects(), &vec![b.as_non_null()]);
}

#[test]
fn replace_hands_back_the_old_payload() {
    let mut heap = Heap::with_threshold(100);
    let a = heap.allocate(leaf(1));
    let old = heap.replace(a, leaf(2));
    assert_eq!(old.ok().map(|d| d.value), Some(1));
    assert_eq!(value_at(&heap, a), Some(2));
    assert_eq!(heap.objects(), &vec![a.as_non_null()]);
}

#[test]
fn replace_without_a_cell_hands_the_value_back() {
    let mut heap: Heap<MyData> = Heap::with_threshold(100);
    let refused = heap.replace(Gc::from_raw(5), leaf(7));
    assert_eq!(refused.err().map(|d| d.value), Some(7));
    assert!(heap.objects().is_empty());
}

#[test]
fn get_of_a_dangling_reference_is_none() {
    let mut heap = Heap::with_threshold(100);
    assert!(heap.get(Gc::from_raw(0)).is_none());
    assert!(heap.get(Gc::from_raw(1)).is_none());
    let a = heap.allocate(leaf(1));
    assert!(heap.get(a).is_some());
    assert!(heap.get(Gc::from_raw(0)).is_none());
    assert!(heap.get(Gc::from_raw(a.as_non_null() + 1)).is_none());
}

#[test]
fn references_are_equal_by_address() {
    let a = Gc::from_raw(3);
    let b = Gc::from_raw(3);
    let c = Gc::from_raw(4);
    let copy = a;
    assert_eq!(a, b);
    assert_eq!(a, copy);
    assert_ne!(a, c);
    assert_eq!(c.as_non_null(), 4);
}

#[test]
fn tracing_marks_and_queues_an_unmarked_cell() {
    let mut tracer = Tracer::new();
    tracer.enroll(7);
    tracer.enroll(3);
    assert!(!tracer.is_marked(7));
    assert!(!tracer.is_marked(3));
    assert!(tracer.pending().is_empty());

    Gc::from_raw(7).trace(&mut tracer);
    assert!(tracer.is_marked(7));
    assert!(!tracer.is_marked(3));
    assert_eq!(tracer.pending(), &vec![7]);

    Gc::from_raw(3).trace(&mut tracer);
    assert!(tracer.is_marked(3));
    assert_eq!(tracer.pending(), &vec![7, 3]);
    assert_eq!(tracer.pop(), Some(3));
    assert_eq!(tracer.pop(), Some(7));
    assert_eq!(tracer.pop(), None);
    assert!(tracer.is_marked(7) && tracer.is_marked(3));
}

#[test]
fn tracing_twice_is_tracing_once() {
    let mut tracer = Tracer::new();
    tracer.enroll(5);
    let gc = Gc::from_raw(5);
    gc.trace(&mut tracer);
    gc.trace(&mut tracer);
    assert!(tracer.is_marked(5));
    assert_eq!(tracer.pending(), &vec![5]);
    assert_eq!(tracer.pop(), Some(5));
    gc.trace(&mut tracer);
    assert!(tracer.pending().is_empty());
    assert!(tracer.is_marked(5));
}

#[test]
fn tracing_an_address_outside_the_pass_changes_nothing() {
    let mut tracer = Tracer::new();
    Gc::from_raw(4).trace(&mut tracer);
    assert!(!tracer.is_marked(4));
    assert!(tracer.pending().is_empty());
    tracer.enroll(6);
    Gc::from_raw(4).trace(&mut tracer);
    Gc::from_raw(0).trace(&mut tracer);
    Gc::from_raw(usize::MAX).trace(&mut tracer);
    assert!(!tracer.is_marked(4));
    assert!(!tracer.is_marked(0));
    assert!(!tracer.is_marked(6));
    assert!(tracer.pending().is_empty());
}

#[test]
fn enrolling_clears_the_mark() {
    let mut tracer = Tracer::new();
    tracer.enroll(2);
    Gc::from_raw(2).trace(&mut tracer);
    assert!(tracer.is_marked(2));
    tracer.enroll(2);
    assert!(!tracer.is_marked(2));
    assert_eq!(tracer.pending(), &vec![2]);
}

#[test]
fn tracing_a_payload_marks_its_child() {
    let mut tracer = Tracer::new();
    tracer.enroll(9);
    leaf(1).trace(&mut tracer);
    assert!(!tracer.is_marked(9));
    assert!(tracer.pending().is_empty());

    let parent = node(2, Gc::from_raw(9));
    parent.trace(&mut tracer);
    assert!(tracer.is_marked(9));
    assert_eq!(tracer.pending(), &vec![9]);
    assert_eq!(parent.value, 2);
    assert_eq!(parent.child, Some(Gc::from_raw(9)));

    parent.trace(&mut tracer);
    assert_eq!(tracer.pending(), &vec![9]);
}

#[test]
fn two_cells_that_refer_to_each_other_end_marked() {
    let a = node(1, Gc::from_raw(2));
    let b = node(2, Gc::from_raw(1));
    let mut tracer = Tracer::new();
    tracer.enroll(1);
    tracer.enroll(2);
    Gc::from_raw(1).trace(&mut tracer);
    assert_eq!(tracer.pop(), Some(1));
    a.trace(&mut tracer);
    assert_eq!(tracer.pop(), Some(2));
    b.trace(&mut tracer);
    assert_eq!(tracer.pop(), None);
    assert!(tracer.is_marked(1) && tracer.is_marked(2));
}

#[test]
fn new_cell_is_unmarked_and_traces_its_payload() {
    let cell = GcBox::new(Box::new(node(2, Gc::from_raw(11))));
    assert!(!cell.marked);
    assert_eq!(cell.value.value, 2);
    let mut tracer = Tracer::new();
    tracer.enroll(11);
    cell.trace(&mut tracer);
    assert!(tracer.is_marked(11));
    assert_eq!(tracer.pending(), &vec![11]);
}

#[test]
fn freed_cells_are_unmarked() {
    let mut heap = Heap::with_threshold(100);
    let a = heap.allocate(leaf(1));
    let _b = heap.allocate(leaf(2));
    heap.collect_garbage(&[a.as_non_null()]);
    let _c = heap.allocate(leaf(3));
    let freed = heap.collect_garbage(&[]);
    assert_eq!(freed.len(), 2);
    assert!(freed.iter().all(|cell| !cell.marked));
}

#[test]
fn allocate_reclaiming_hands_out_what_the_automatic_pass_freed() {
    let mut heap = Heap::with_threshold(3);
    let (a, freed) = heap.allocate_reclaiming(leaf(1));
    assert!(freed.is_empty());
    let guard = RootGuard::new(&mut heap, a).unwrap();
    let (b, freed) = heap.allocate_reclaiming(leaf(2));
    assert!(freed.is_empty());
    assert_eq!(heap.allocation_count(), 2);

    let (c, freed) = heap.allocate_reclaiming(node(3, a));
    assert_eq!(heap.allocation_count(), 0);
    assert_eq!(freed.len(), 1);
    assert_eq!(freed[0].value.value, 2);
    assert!(!freed[0].marked);
    assert!(!heap.contains(b) || b == c);
    assert_eq!(heap.objects(), &vec![a.as_non_null(), c.as_non_null()]);
    assert_eq!(value_at(&heap, c), Some(3));
    guard.release(&mut heap);
}

#[test]
fn allocate_reclaiming_keeps_what_the_new_cell_refers_to() {
    let mut heap = Heap::with_threshold(2);
    let (a, _) = heap.allocate_reclaiming(leaf(10));
    let (b, freed) = heap.allocate_reclaiming(node(20, a));
    assert!(freed.is_empty());
    assert_eq!(heap.objects(), &vec![a.as_non_null(), b.as_non_null()]);
    let (_c, freed) = heap.allocate_reclaiming(leaf(30));
    assert!(freed.is_empty());
    let (d, freed) = heap.allocate_reclaiming(leaf(40));
    let values: Vec<i32> = freed.iter().map(|cell| cell.value.value).collect();
    assert_eq!(values, vec![10, 20, 30]);
    assert_eq!(heap.objects(), &vec![d.as_non_null()]);
}

#[test]
fn heap_of_boxed_payloads_holds_any_traceable_type() {
    let mut heap: Heap<Box<dyn Trace>> = Heap::with_threshold(100);
    let a = heap.allocate(Box::new(leaf(1)));
    let b = heap.allocate(Box::new(node(2, a)));
    let c = heap.allocate(Box::new(Box::new(leaf(3))));
    let mut tracer = Tracer::new();
    tracer.enroll(a.as_non_null());
    heap.get(b).unwrap().trace(&mut tracer);
    assert!(tracer.is_marked(a.as_non_null()));
    assert_eq!(tracer.pending(), &vec![a.as_non_null()]);

    let freed = heap.collect_garbage(&[b.as_non_null()]);
    assert_eq!(freed.len(), 1);
    assert!(!heap.contains(c));
    assert_eq!(heap.objects(), &vec![a.as_non_null(), b.as_non_null()]);
}

#[test]
fn only_a_pass_changes_a_mark() {
    let mut heap = Heap::with_threshold(100);
    let a = heap.allocate(leaf(1));
    let b = heap.allocate(node(2, a));
    assert!(!heap.is_marked(a));
    assert!(!heap.is_marked(b));

    heap.collect_garbage(&[a.as_non_null()]);
    assert!(heap.is_marked(a));
    assert!(!heap.is_marked(b));

    heap.register_root(a.as_non_null());
    assert!(heap.is_marked(a));
    heap.unregister_root(a.as_non_null());
    assert!(heap.is_marked(a));
    let guard = RootGuard::new(&mut heap, a).unwrap();
    assert!(heap.is_marked(a));
    guard.release(&mut heap);
    assert!(heap.is_marked(a));
    assert!(heap.replace(a, leaf(5)).is_ok());
    assert!(heap.is_marked(a));

    let c = heap.allocate(leaf(3));
    assert!(!heap.is_marked(c));
    assert!(heap.is_marked(a));
    assert!(!heap.is_marked(Gc::from_raw(0)));
    assert!(!heap.is_marked(Gc::from_raw(usize::MAX)));

    heap.collect_garbage(&[c.as_non_null()]);
    assert!(heap.is_marked(c));
    assert!(!heap.is_marked(a) || a == c);
    assert_eq!(heap.objects(), &vec![c.as_non_null()]);
}

#[test]
fn a_pass_marks_exactly_the_survivors() {
    let mut heap = Heap::with_threshold(100);
    let a = heap.allocate(leaf(1));
    let b = heap.allocate(node(2, a));
    let c = heap.allocate(node(3, b));
    assert!(heap.replace(a, node(1, b)).is_ok());
    heap.collect_garbage(&[a.as_non_null()]);
    assert!(heap.is_marked(a) && heap.is_marked(b));
    assert!(!heap.contains(c));
    assert!(!heap.is_marked(c));
    heap.collect_garbage(&[a.as_non_null()]);
    assert!(heap.is_marked(a) && heap.is_marked(b));
    assert_eq!(heap.objects(), &vec![a.as_non_null(), b.as_non_null()]);
}

#[test]
fn tracer_of_a_heap_holds_its_cells_unmarked() {
    let mut heap = Heap::with_threshold(100);
    let a = heap.allocate(leaf(1));
    let b = heap.allocate(leaf(2));
    heap.collect_garbage(&[b.as_non_null()]);
    let mut tracer = heap.tracer();
    assert!(tracer.pending().is_empty());
    assert!(!tracer.is_marked(b.as_non_null()));
    a.trace(&mut tracer);
    assert!(!tracer.is_marked(a.as_non_null()));
    assert!(tracer.pending().is_empty());
    b.trace(&mut tracer);
    assert!(tracer.is_marked(b.as_non_null()));
    assert_eq!(tracer.pending(), &vec![b.as_non_null()]);
}

#[test]
fn mark_from_one_cell_of_a_cycle_marks_both() {
    let mut heap = Heap::with_threshold(100);
    let a = heap.allocate(leaf(1));
    let b = heap.allocate(node(2, a));
    assert!(heap.replace(a, node(1, b)).is_ok());
    let c = heap.allocate(leaf(3));

    let mut tracer = heap.tracer();
    heap.mark(&mut tracer, &[a.as_non_null()]);
    assert!(tracer.is_marked(a.as_non_null()));
    assert!(tracer.is_marked(b.as_non_null()));
    assert!(!tracer.is_marked(c.as_non_null()));
    assert!(tracer.pending().is_empty());
}

#[test]
fn mark_follows_a_chain_to_its_end() {
    let mut heap = Heap::with_threshold(100);
    let a = heap.allocate(leaf(1));
    let b = heap.allocate(node(2, a));
    let c = heap.allocate(node(3, b));
    let d = heap.allocate(node(4, c));

    let mut tracer = heap.tracer();
    heap.mark(&mut tracer, &[c.as_non_null()]);
    assert!(tracer.is_marked(a.as_non_null()));
    assert!(tracer.is_marked(b.as_non_null()));
    assert!(tracer.is_marked(c.as_non_null()));
    assert!(!tracer.is_marked(d.as_non_null()));
}

#[test]
fn mark_does_not_walk_through_a_marked_cell() {
    let mut heap = Heap::with_threshold(100);
    let a = heap.allocate(leaf(1));
    let b = heap.allocate(node(2, a));
    let c = heap.allocate(node(3, b));

    let mut tracer = heap.tracer();
    b.trace(&mut tracer);
    assert_eq!(tracer.pop(), Some(b.as_non_null()));
    heap.mark(&mut tracer, &[c.as_non_null()]);
    assert!(tracer.is_marked(c.as_non_null()));
    assert!(tracer.is_marked(b.as_non_null()));
    assert!(!tracer.is_marked(a.as_non_null()));

    heap.mark(&mut tracer, &[c.as_non_null(), b.as_non_null()]);
    assert!(!tracer.is_marked(a.as_non_null()));
    heap.mark(&mut tracer, &[a.as_non_null()]);
    assert!(tracer.is_marked(a.as_non_null()));
}

#[test]
fn mark_leaves_the_heap_as_it_was() {
    let mut heap = Heap::with_threshold(100);
    let a = heap.allocate(leaf(1));
    let b = heap.allocate(node(2, a));
    heap.register_root(b.as_non_null());
    let mut tracer = heap.tracer();
    heap.mark(&mut tracer, &[b.as_non_null(), 0, 9999]);
    assert!(tracer.is_marked(a.as_non_null()) && tracer.is_marked(b.as_non_null()));
    assert!(!heap.is_marked(a));
    assert!(!heap.is_marked(b));
    assert_eq!(heap.objects(), &vec![a.as_non_null(), b.as_non_null()]);
    assert_eq!(heap.roots(), &vec![b.as_non_null()]);
    assert_eq!(heap.allocation_count(), 2);
    assert_eq!(value_at(&heap, a), Some(1));
}
