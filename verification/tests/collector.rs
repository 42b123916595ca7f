use gc::{
    configure, finalizer_safe, force_collect, last_collection, stats, teardown, Finalize, Gc, GcBox, GcBoxHeader,
    GcBoxType, GcConfig, GcPointer, GcState, GcStats, Trace, WeakGc, WeakPair,
};
use std::any::Any;
use std::cell::Cell;
use std::rc::Rc;

// A value without references whose finalizer and destructor count their runs.
struct Probe {
    finalized: Rc<Cell<usize>>,
    dropped: Rc<Cell<usize>>,
}

impl Probe {
    fn new(finalized: &Rc<Cell<usize>>, dropped: &Rc<Cell<usize>>) -> Probe {
        Probe { finalized: finalized.clone(), dropped: dropped.clone() }
    }
}

impl Drop for Probe {
    fn drop(&mut self) {
        self.dropped.set(self.dropped.get() + 1);
    }
}

impl Finalize for Probe {
    fn finalize(&self) {
        self.finalized.set(self.finalized.get() + 1);
    }
}

impl Trace for Probe {
    fn trace(&self, _worklist: &mut Vec<GcPointer>) {}

    fn weak_trace(&self, _ephemeron_queue: &mut Vec<(GcPointer, GcPointer)>) {}

    fn is_marked_ephemeron(&self) -> bool {
        false
    }

    fn finalize_glue<H: 'static>(&self, _heap: &GcState<H>, _revived: &mut Vec<GcPointer>) {
        Finalize::finalize(self);
    }
}

// A value whose finalizer asks for its own record to be kept alive.
struct Phoenix {
    me: Option<GcPointer>,
    finalized: Rc<Cell<usize>>,
}

impl Finalize for Phoenix {
    fn finalize(&self) {
        self.finalized.set(self.finalized.get() + 1);
    }
}

impl Trace for Phoenix {
    fn trace(&self, _worklist: &mut Vec<GcPointer>) {}

    fn weak_trace(&self, _ephemeron_queue: &mut Vec<(GcPointer, GcPointer)>) {}

    fn is_marked_ephemeron(&self) -> bool {
        false
    }

    fn finalize_glue<H: 'static>(&self, _heap: &GcState<H>, revived: &mut Vec<GcPointer>) {
        Finalize::finalize(self);
        if let Some(me) = self.me {
            revived.push(me);
        }
    }
}

// A node of a graph: a counter of finalizer runs and an optional edge.
type Node = (Probe, Option<Gc>);

// A record that may hold an edge and may hold an ephemeron pair.
type Holder = (Option<Gc>, Option<WeakPair>);

const NUMBER_SIZE: usize = 32;

// A heap that collects only when it is told to.
fn roomy<T>() -> GcState<T> {
    let mut st: GcState<T> = GcState::new();
    configure(&mut st, |config| GcConfig { threshold: 1_000_000, ..config });
    st
}

fn counters() -> (Rc<Cell<usize>>, Rc<Cell<usize>>) {
    (Rc::new(Cell::new(0)), Rc::new(Cell::new(0)))
}

#[test]
fn record_of_a_number_takes_32_bytes() {
    assert_eq!(std::mem::size_of::<GcBox<usize>>(), NUMBER_SIZE);
}

#[test]
fn new_heap_is_empty_with_default_configuration() {
    let st: GcState<usize> = GcState::new();
    let s = stats(&st);
    assert_eq!(s.bytes_allocated, 0);
    assert_eq!(s.collections_performed, 0);
    assert!(finalizer_safe(&st));
    let config = GcConfig::default();
    assert_eq!(config.threshold, 100);
    assert_eq!(config.used_space_percent, 70);
    assert!(!config.leak_on_drop);
    let zero = GcStats::default();
    assert_eq!(zero.bytes_allocated, 0);
    assert_eq!(zero.collections_performed, 0);
}

#[test]
fn allocate_drop_collect_returns_bytes_to_zero() {
    let mut st: GcState<usize> = GcState::new();
    let before = stats(&st).collections_performed;
    let gc = Gc::new(&mut st, 7usize);
    assert_eq!(stats(&st).bytes_allocated, NUMBER_SIZE);
    assert_eq!(*gc.value(&st), 7);
    gc.unroot(&mut st);
    force_collect(&mut st);
    assert_eq!(stats(&st).bytes_allocated, 0);
    assert_eq!(stats(&st).collections_performed, before + 1);
}

#[test]
fn rooted_record_survives_collection() {
    let mut st: GcState<usize> = GcState::new();
    let gc = Gc::new(&mut st, 11usize);
    force_collect(&mut st);
    force_collect(&mut st);
    assert_eq!(*gc.value(&st), 11);
    assert_eq!(stats(&st).bytes_allocated, NUMBER_SIZE);
    assert_eq!(stats(&st).collections_performed, 2);
    assert!(GcBoxHeader::is_alive(&st, gc.ptr()));
}

#[test]
fn pointers_are_issued_in_order_and_never_again() {
    let mut st: GcState<usize> = GcState::new();
    let a = Gc::new(&mut st, 1usize);
    let b = Gc::new(&mut st, 2usize);
    assert_eq!(a.ptr(), 0);
    assert_eq!(b.ptr(), 1);
    let weak_a = a.clone_weak_gc();
    a.unroot(&mut st);
    force_collect(&mut st);
    assert!(weak_a.value(&st).is_none());
    let c = Gc::new(&mut st, 3usize);
    assert_eq!(c.ptr(), 2);
    assert!(weak_a.value(&st).is_none());
    assert_eq!(*b.value(&st), 2);
    assert_eq!(*c.value(&st), 3);
    assert!(GcBox::<usize>::ptr_eq(b.ptr(), 1));
    assert!(!GcBox::<usize>::ptr_eq(b.ptr(), c.ptr()));
}

#[test]
fn two_node_cycle_without_handle_is_collected() {
    let (finalized, dropped) = counters();
    let mut st: GcState<Node> = roomy();
    let size = std::mem::size_of::<GcBox<Node>>();
    let node1 = Gc::new(&mut st, (Probe::new(&finalized, &dropped), None));
    let node2 = Gc::new(&mut st, (Probe::new(&finalized, &dropped), Some(node1.edge())));
    // close the cycle: node1 -> node2 -> node1
    let old = node1.set(&mut st, (Probe::new(&finalized, &dropped), Some(node2.edge())));
    drop(old);
    assert_eq!(dropped.get(), 1);
    assert_eq!(stats(&st).bytes_allocated, 2 * size);
    let weak1 = node1.clone_weak_gc();
    let weak2 = node2.clone_weak_gc();

    // one handle is left: the whole cycle stays
    node1.unroot(&mut st);
    force_collect(&mut st);
    assert!(weak1.value(&st).is_some());
    assert!(weak2.value(&st).is_some());
    assert_eq!(finalized.get(), 0);

    // no handle is left: the whole cycle goes
    node2.unroot(&mut st);
    force_collect(&mut st);
    assert!(weak1.value(&st).is_none());
    assert!(weak2.value(&st).is_none());
    assert_eq!(stats(&st).bytes_allocated, 0);
    assert_eq!(finalized.get(), 2);
    assert_eq!(dropped.get(), 3);
}

#[test]
fn fresh_cycle_is_collected_by_one_collection() {
    let (finalized, dropped) = counters();
    let mut st: GcState<Node> = roomy();
    let node1 = Gc::new(&mut st, (Probe::new(&finalized, &dropped), None));
    let node2 = Gc::new(&mut st, (Probe::new(&finalized, &dropped), Some(node1.edge())));
    drop(node1.set(&mut st, (Probe::new(&finalized, &dropped), Some(node2.edge()))));
    let weak1 = node1.clone_weak_gc();
    let weak2 = node2.clone_weak_gc();
    node1.unroot(&mut st);
    node2.unroot(&mut st);
    force_collect(&mut st);
    assert!(weak1.value(&st).is_none());
    assert!(weak2.value(&st).is_none());
    assert_eq!(stats(&st).bytes_allocated, 0);
    assert_eq!(stats(&st).collections_performed, 1);
    assert_eq!(finalized.get(), 2);
}

#[test]
fn record_reached_through_edges_survives() {
    let (finalized, dropped) = counters();
    let mut st: GcState<Node> = roomy();
    let leaf = Gc::new(&mut st, (Probe::new(&finalized, &dropped), None));
    let middle = Gc::new(&mut st, (Probe::new(&finalized, &dropped), Some(leaf.edge())));
    let top = Gc::new(&mut st, (Probe::new(&finalized, &dropped), Some(middle.edge())));
    let weak_leaf = leaf.clone_weak_gc();
    let weak_middle = middle.clone_weak_gc();
    leaf.unroot(&mut st);
    middle.unroot(&mut st);
    force_collect(&mut st);
    assert!(weak_leaf.value(&st).is_some());
    assert!(weak_middle.value(&st).is_some());
    assert!(top.value(&st).1.is_some());
    assert_eq!(finalized.get(), 0);
    assert_eq!(dropped.get(), 0);
}

#[test]
fn weak_handle_resolves_while_alive_and_not_after_sweep() {
    let mut st: GcState<usize> = GcState::new();
    let data = Gc::new(&mut st, 100usize);
    let weak_data = data.clone_weak_gc();
    assert_eq!(weak_data.value(&st), Some(&100));
    assert_eq!(WeakGc::from_gc(&data).value(&st), Some(&100));
    assert_eq!(WeakGc::from_gc_box(data.ptr()).value(&st), Some(&100));
    // a weak handle takes no root
    force_collect(&mut st);
    assert_eq!(weak_data.value(&st), Some(&100));
    data.unroot(&mut st);
    // unrooted, but not swept yet
    assert_eq!(weak_data.value(&st), Some(&100));
    force_collect(&mut st);
    assert_eq!(weak_data.value(&st), None);
    assert!(!GcBoxHeader::is_alive(&st, weak_data.clone().value(&st).map_or(0, |_| 1)));
}

#[test]
fn weak_handle_to_unknown_record_resolves_to_nothing() {
    let st: GcState<usize> = GcState::new();
    assert_eq!(WeakGc::from_gc_box(5).value(&st), None);
    assert!(!GcBoxHeader::is_alive(&st, 5));
}

#[test]
fn weak_new_record_is_unrooted() {
    let mut st: GcState<usize> = GcState::new();
    let weak = WeakGc::new(&mut st, 9usize);
    assert_eq!(weak.value(&st), Some(&9));
    force_collect(&mut st);
    assert_eq!(weak.value(&st), None);
    assert_eq!(stats(&st).bytes_allocated, 0);
}

#[test]
fn ephemeron_value_lives_while_key_and_holder_live() {
    let mut st: GcState<Holder> = roomy();
    let key = Gc::new(&mut st, (None, None));
    let pair = key.create_weak_pair(&mut st, (None, None));
    let holder = Gc::new(&mut st, (None, Some(pair)));
    assert!(pair.key(&st).is_some());
    assert!(pair.value(&st).is_some());
    force_collect(&mut st);
    force_collect(&mut st);
    assert!(pair.key(&st).is_some());
    assert!(pair.value(&st).is_some());

    // the key's last handle goes: key and value become unresolvable together
    key.unroot(&mut st);
    force_collect(&mut st);
    assert!(pair.key(&st).is_none());
    assert!(pair.value(&st).is_none());
    assert!(holder.value(&st).1.is_some());
    assert_eq!(stats(&st).bytes_allocated, std::mem::size_of::<GcBox<Holder>>());
}

#[test]
fn ephemeron_value_does_not_keep_its_key_alive() {
    let mut st: GcState<Holder> = roomy();
    let key = Gc::new(&mut st, (None, None));
    // the value refers to its own key
    let pair = key.create_weak_pair(&mut st, (Some(key.edge()), None));
    let holder = Gc::new(&mut st, (None, Some(pair)));
    key.unroot(&mut st);
    force_collect(&mut st);
    assert!(pair.key(&st).is_none());
    assert!(pair.value(&st).is_none());
    assert!(GcBoxHeader::is_alive(&st, holder.ptr()));
}

#[test]
fn ephemeron_value_without_holder_is_collected() {
    let mut st: GcState<Holder> = roomy();
    let key = Gc::new(&mut st, (None, None));
    let pair = WeakPair::from_gc_value_pair(&mut st, key.ptr(), (None, None));
    assert!(pair.value(&st).is_some());
    force_collect(&mut st);
    // nothing that the collector marks holds the pair
    assert!(pair.key(&st).is_some());
    assert!(pair.value(&st).is_none());
}

#[test]
fn pairs_found_while_resolving_get_their_turn() {
    let mut st: GcState<Holder> = roomy();
    let key1 = Gc::new(&mut st, (None, None));
    let key2 = Gc::new(&mut st, (None, None));
    let inner = key2.create_weak_pair(&mut st, (None, None));
    // the value of the outer pair holds the inner pair
    let outer = key1.create_weak_pair(&mut st, (None, Some(inner)));
    let holder = Gc::new(&mut st, (None, Some(outer)));
    force_collect(&mut st);
    assert!(outer.value(&st).is_some());
    assert!(inner.value(&st).is_some());
    assert!(GcBoxHeader::is_alive(&st, holder.ptr()));
}

#[test]
fn finalizer_runs_once_before_the_record_is_dropped() {
    let (finalized, dropped) = counters();
    let mut st: GcState<Probe> = roomy();
    let kept = Gc::new(&mut st, Probe::new(&finalized, &dropped));
    let gone = Gc::new(&mut st, Probe::new(&finalized, &dropped));
    gone.unroot(&mut st);
    force_collect(&mut st);
    assert_eq!(finalized.get(), 1);
    assert_eq!(dropped.get(), 1);
    force_collect(&mut st);
    force_collect(&mut st);
    assert_eq!(finalized.get(), 1);
    assert_eq!(dropped.get(), 1);
    assert!(GcBoxHeader::is_alive(&st, kept.ptr()));
}

#[test]
fn collection_without_garbage_finalizes_nothing() {
    let (finalized, dropped) = counters();
    let mut st: GcState<Probe> = roomy();
    let kept = Gc::new(&mut st, Probe::new(&finalized, &dropped));
    force_collect(&mut st);
    assert_eq!(finalized.get(), 0);
    assert_eq!(dropped.get(), 0);
    assert_eq!(stats(&st).collections_performed, 1);
    assert_eq!(kept.ptr(), 0);
}

#[test]
fn second_collection_in_a_row_does_nothing_more() {
    let (finalized, dropped) = counters();
    let mut st: GcState<Probe> = roomy();
    let kept = Gc::new(&mut st, Probe::new(&finalized, &dropped));
    let gone1 = Gc::new(&mut st, Probe::new(&finalized, &dropped));
    let gone2 = Gc::new(&mut st, Probe::new(&finalized, &dropped));
    gone1.unroot(&mut st);
    gone2.unroot(&mut st);
    force_collect(&mut st);
    let bytes = stats(&st).bytes_allocated;
    assert_eq!(finalized.get(), 2);
    assert_eq!(dropped.get(), 2);
    force_collect(&mut st);
    assert_eq!(finalized.get(), 2);
    assert_eq!(dropped.get(), 2);
    assert_eq!(stats(&st).bytes_allocated, bytes);
    assert_eq!(stats(&st).collections_performed, 2);
    assert!(GcBoxHeader::is_alive(&st, kept.ptr()));
}

#[test]
fn finalizer_can_bring_its_record_back() {
    let finalized = Rc::new(Cell::new(0));
    let mut st: GcState<Phoenix> = roomy();
    let a = Gc::new(&mut st, Phoenix { me: None, finalized: finalized.clone() });
    let ptr = a.ptr();
    a.set(&mut st, Phoenix { me: Some(ptr), finalized: finalized.clone() });
    let weak = a.clone_weak_gc();
    a.unroot(&mut st);
    force_collect(&mut st);
    assert_eq!(finalized.get(), 1);
    assert!(weak.value(&st).is_some());
    assert_eq!(stats(&st).bytes_allocated, std::mem::size_of::<GcBox<Phoenix>>());
    // the new root reference waits for the host
    let revived = st.take_revived();
    assert_eq!(revived, vec![ptr]);
    assert!(st.take_revived().is_empty());
    force_collect(&mut st);
    assert!(weak.value(&st).is_some());
    assert_eq!(finalized.get(), 1);
    // the host gives the reference up: the record is finalized again and comes back again
    Gc::from_rooted(revived[0]).unroot(&mut st);
    force_collect(&mut st);
    assert_eq!(finalized.get(), 2);
    assert!(weak.value(&st).is_some());
    assert_eq!(st.take_revived(), vec![ptr]);
}

#[test]
fn request_for_a_dead_record_is_passed_over() {
    let finalized = Rc::new(Cell::new(0));
    let mut st: GcState<Phoenix> = roomy();
    let a = Gc::new(&mut st, Phoenix { me: Some(17), finalized: finalized.clone() });
    let weak = a.clone_weak_gc();
    a.unroot(&mut st);
    force_collect(&mut st);
    assert_eq!(finalized.get(), 1);
    assert!(weak.value(&st).is_none());
    assert!(st.take_revived().is_empty());
    assert_eq!(stats(&st).bytes_allocated, 0);
}

#[test]
fn handles_count_roots() {
    let mut st: GcState<usize> = GcState::new();
    let a = Gc::new(&mut st, 5usize);
    let b = a.clone(&mut st);
    let c = Gc::from_gc_box(&mut st, a.ptr());
    let weak = a.clone_weak_gc();
    a.unroot(&mut st);
    force_collect(&mut st);
    assert!(weak.value(&st).is_some());
    b.unroot(&mut st);
    force_collect(&mut st);
    assert!(weak.value(&st).is_some());
    assert_eq!(*c.value(&st), 5);
    c.unroot(&mut st);
    force_collect(&mut st);
    assert!(weak.value(&st).is_none());
}

#[test]
fn get_and_replace_reach_the_value() {
    let mut st: GcState<usize> = GcState::new();
    let a = Gc::new(&mut st, 5usize);
    assert_eq!(st.get(a.ptr()), Some(&5));
    assert_eq!(st.get(3), None);
    assert_eq!(st.replace(a.ptr(), 6), 5);
    assert_eq!(st.get(a.ptr()), Some(&6));
    assert_eq!(a.set(&mut st, 8), 6);
    assert_eq!(*a.value(&st), 8);
    st.root(a.ptr());
    st.unroot(a.ptr());
    st.unroot(a.ptr());
    force_collect(&mut st);
    assert_eq!(st.get(a.ptr()), None);
}

#[test]
fn from_box_allocates_a_rooted_record() {
    let mut st: GcState<usize> = GcState::new();
    let ptr = GcBox::from_box(&mut st, Box::new(21usize));
    assert_eq!(ptr, 0);
    force_collect(&mut st);
    assert_eq!(st.get(ptr), Some(&21));
    let second = GcBox::new(&mut st, 22usize, GcBoxType::Standard);
    assert_eq!(second, 1);
    let third = GcBox::new(&mut st, 23usize, GcBoxType::Ephemeron);
    assert_eq!(third, 2);
    assert_eq!(stats(&st).bytes_allocated, 3 * NUMBER_SIZE);
    force_collect(&mut st);
    assert_eq!(st.get(second), Some(&22));
    assert_eq!(st.get(third), None);
    assert_eq!(stats(&st).bytes_allocated, 2 * NUMBER_SIZE);
}

#[test]
fn short_lived_records_do_not_raise_the_threshold() {
    let mut st: GcState<usize> = GcState::new();
    let mut i = 0usize;
    while i < 1000 {
        let gc = Gc::new(&mut st, i);
        gc.unroot(&mut st);
        i += 1;
    }
    let mut seen = GcConfig::default();
    configure(&mut st, |config| {
        seen = config;
        config
    });
    assert_eq!(seen.threshold, 100);
    assert!(stats(&st).bytes_allocated <= 100 + NUMBER_SIZE);
    assert!(stats(&st).collections_performed > 100);
}

#[test]
fn threshold_backs_off_by_the_ratio_when_records_stay() {
    let mut st: GcState<usize> = GcState::new();
    let mut kept: Vec<Gc> = Vec::new();
    let threshold = |st: &mut GcState<usize>| {
        let mut seen = 0;
        configure(st, |config| {
            seen = config.threshold;
            config
        });
        seen
    };
    // 32, 64, 96: under the threshold of 100
    kept.push(Gc::new(&mut st, 1));
    kept.push(Gc::new(&mut st, 2));
    kept.push(Gc::new(&mut st, 3));
    assert_eq!(stats(&st).collections_performed, 0);
    assert_eq!(threshold(&mut st), 100);
    // 128 > 100: a collection that frees nothing; 128 > 100 * 0.7, so 128 / 0.7 = 182
    kept.push(Gc::new(&mut st, 4));
    assert_eq!(stats(&st).collections_performed, 1);
    assert_eq!(stats(&st).bytes_allocated, 128);
    assert_eq!(threshold(&mut st), 182);
    // 160 <= 182
    kept.push(Gc::new(&mut st, 5));
    assert_eq!(stats(&st).collections_performed, 1);
    assert_eq!(threshold(&mut st), 182);
    // 192 > 182: 192 / 0.7 = 274
    kept.push(Gc::new(&mut st, 6));
    assert_eq!(stats(&st).collections_performed, 2);
    assert_eq!(threshold(&mut st), 274);
    assert_eq!(kept.len(), 6);
}

#[test]
fn threshold_stays_when_the_collection_frees_enough() {
    let mut st: GcState<usize> = GcState::new();
    let a = Gc::new(&mut st, 1);
    let b = Gc::new(&mut st, 2);
    let c = Gc::new(&mut st, 3);
    a.unroot(&mut st);
    b.unroot(&mut st);
    c.unroot(&mut st);
    // 128 > 100: the collection frees three records; 32 <= 70
    let d = Gc::new(&mut st, 4);
    assert_eq!(stats(&st).collections_performed, 1);
    assert_eq!(stats(&st).bytes_allocated, 32);
    let mut seen = 0;
    configure(&mut st, |config| {
        seen = config.threshold;
        config
    });
    assert_eq!(seen, 100);
    assert_eq!(*d.value(&st), 4);
}

#[test]
fn ratio_of_zero_raises_the_threshold_to_the_maximum() {
    let mut st: GcState<usize> = GcState::new();
    configure(&mut st, |config| GcConfig { threshold: 10, used_space_percent: 0, ..config });
    let a = Gc::new(&mut st, 1);
    assert_eq!(stats(&st).collections_performed, 1);
    let mut seen = 0;
    configure(&mut st, |config| {
        seen = config.threshold;
        config
    });
    assert_eq!(seen, usize::MAX);
    assert_eq!(*a.value(&st), 1);
}

#[test]
fn configure_sets_the_threshold() {
    let mut st: GcState<usize> = GcState::new();
    configure(&mut st, |config| GcConfig { threshold: 1000, ..config });
    let mut kept: Vec<Gc> = Vec::new();
    let mut i = 0usize;
    while i < 31 {
        kept.push(Gc::new(&mut st, i));
        i += 1;
    }
    // 31 * 32 = 992 <= 1000
    assert_eq!(stats(&st).collections_performed, 0);
    kept.push(Gc::new(&mut st, 31));
    // 1024 > 1000
    assert_eq!(stats(&st).collections_performed, 1);
    assert_eq!(stats(&st).bytes_allocated, 1024);
}

#[test]
fn ephemeron_record_allocated_over_the_threshold_is_collected_at_once() {
    let mut st: GcState<Holder> = GcState::new();
    configure(&mut st, |config| GcConfig { threshold: 0, ..config });
    let key = Gc::new(&mut st, (None, None));
    assert_eq!(stats(&st).collections_performed, 1);
    let pair = key.create_weak_pair(&mut st, (None, None));
    assert_eq!(stats(&st).collections_performed, 2);
    assert!(pair.key(&st).is_some());
    assert!(pair.value(&st).is_none());
}

#[test]
fn teardown_collects_and_then_abandons_what_is_left() {
    let (finalized, dropped) = counters();
    let mut st: GcState<Probe> = roomy();
    let kept = Gc::new(&mut st, Probe::new(&finalized, &dropped));
    let gone = Gc::new(&mut st, Probe::new(&finalized, &dropped));
    gone.unroot(&mut st);
    let size = std::mem::size_of::<GcBox<Probe>>();
    let last = teardown(st);
    assert_eq!(last.collections_performed, 1);
    assert_eq!(last.bytes_allocated, size);
    // the unreachable record was finalized and dropped; the other was abandoned
    assert_eq!(finalized.get(), 1);
    assert_eq!(dropped.get(), 1);
    assert_eq!(kept.ptr(), 0);
}

#[test]
fn teardown_of_a_leaking_heap_collects_nothing() {
    let (finalized, dropped) = counters();
    let mut st: GcState<Probe> = GcState::new();
    configure(&mut st, |config| GcConfig { leak_on_drop: true, ..config });
    let gone = Gc::new(&mut st, Probe::new(&finalized, &dropped));
    gone.unroot(&mut st);
    let size = std::mem::size_of::<GcBox<Probe>>();
    let last = teardown(st);
    assert_eq!(last.collections_performed, 0);
    assert_eq!(last.bytes_allocated, size);
    assert_eq!(finalized.get(), 0);
    assert_eq!(dropped.get(), 0);
}

#[test]
fn heap_has_room_for_more() {
    let mut st: GcState<usize> = GcState::new();
    assert!(st.has_room());
    let gc = Gc::new(&mut st, 1usize);
    assert!(st.has_room());
    assert_eq!(gc.ptr(), 0);
}

#[test]
fn roots_are_reported_for_live_records_only() {
    let mut st: GcState<usize> = roomy();
    let a = Gc::new(&mut st, 1usize);
    assert_eq!(st.roots(a.ptr()), Some(1));
    let b = a.clone(&mut st);
    assert_eq!(st.roots(a.ptr()), Some(2));
    b.unroot(&mut st);
    let ptr = a.ptr();
    a.unroot(&mut st);
    assert_eq!(st.roots(ptr), Some(0));
    assert_eq!(st.roots(9), None);
    force_collect(&mut st);
    assert_eq!(st.roots(ptr), None);
}

#[test]
fn sequence_of_handles_keeps_its_records() {
    let mut st: GcState<Vec<Gc>> = roomy();
    let one = Gc::new(&mut st, Vec::new());
    let two = Gc::new(&mut st, Vec::new());
    let three = Gc::new(&mut st, Vec::new());
    let list = Gc::new(&mut st, vec![one.edge(), two.edge()]);
    let weak_one = one.clone_weak_gc();
    let weak_two = two.clone_weak_gc();
    let weak_three = three.clone_weak_gc();
    one.unroot(&mut st);
    two.unroot(&mut st);
    three.unroot(&mut st);
    force_collect(&mut st);
    assert!(weak_one.value(&st).is_some());
    assert!(weak_two.value(&st).is_some());
    assert!(weak_three.value(&st).is_none());
    assert_eq!(list.value(&st).len(), 2);
    assert_eq!(stats(&st).bytes_allocated, 3 * std::mem::size_of::<GcBox<Vec<Gc>>>());
}

#[test]
fn library_values_report_what_they_hold() {
    let mut st: GcState<usize> = roomy();
    let a = Gc::new(&mut st, 1usize);
    let b = Gc::new(&mut st, 2usize);
    let mut worklist: Vec<GcPointer> = vec![9];
    let mut queue: Vec<(GcPointer, GcPointer)> = Vec::new();
    a.trace(&mut worklist);
    assert_eq!(worklist, vec![9, 0]);
    Some(b.edge()).trace(&mut worklist);
    None::<Gc>.trace(&mut worklist);
    (a.edge(), b.edge()).trace(&mut worklist);
    vec![b.edge(), a.edge()].trace(&mut worklist);
    a.clone_weak_gc().trace(&mut worklist);
    7usize.trace(&mut worklist);
    assert_eq!(worklist, vec![9, 0, 1, 0, 1, 1, 0]);
    let pair = WeakPair::from_gc_value_pair(&mut st, a.ptr(), 3usize);
    pair.trace(&mut worklist);
    assert_eq!(worklist.len(), 7);
    pair.weak_trace(&mut queue);
    (Some(pair), vec![pair]).weak_trace(&mut queue);
    a.weak_trace(&mut queue);
    assert_eq!(queue, vec![(0, 2), (0, 2), (0, 2)]);
    assert!(!pair.is_marked_ephemeron());
    assert!(!vec![a.edge()].is_marked_ephemeron());
    assert!(!(Some(1usize), 2usize).is_marked_ephemeron());
}

#[test]
fn collection_in_two_halves_lets_the_host_decide() {
    let (finalized, dropped) = counters();
    let mut st: GcState<Probe> = roomy();
    let kept = Gc::new(&mut st, Probe::new(&finalized, &dropped));
    let first = Gc::new(&mut st, Probe::new(&finalized, &dropped));
    let second = Gc::new(&mut st, Probe::new(&finalized, &dropped));
    let first_ptr = first.ptr();
    let second_ptr = second.ptr();
    first.unroot(&mut st);
    second.unroot(&mut st);

    let unmarked = st.condemn();
    // the newest record stands first in the chain
    assert_eq!(unmarked.len(), 2);
    assert_eq!(unmarked[0].this, second_ptr);
    assert_eq!(unmarked[0].incoming, None);
    assert_eq!(unmarked[1].this, first_ptr);
    assert_eq!(unmarked[1].incoming, Some(second_ptr));
    assert_eq!(stats(&st).collections_performed, 1);
    assert_eq!(dropped.get(), 0);

    let requests = st.finalize(&unmarked);
    assert!(requests.is_empty());
    assert_eq!(finalized.get(), 2);
    assert_eq!(dropped.get(), 0);

    // the host asks for the first record to stay
    st.finish(unmarked, &vec![first_ptr]);
    assert_eq!(dropped.get(), 1);
    assert_eq!(st.roots(first_ptr), Some(1));
    assert_eq!(st.roots(second_ptr), None);
    assert_eq!(st.take_revived(), vec![first_ptr]);
    assert!(GcBoxHeader::is_alive(&st, kept.ptr()));
    assert_eq!(stats(&st).bytes_allocated, 2 * std::mem::size_of::<GcBox<Probe>>());
}

#[test]
fn sweep_unlinks_records_anywhere_in_the_chain() {
    let mut st: GcState<usize> = roomy();
    let mut handles: Vec<Gc> = Vec::new();
    let mut i = 0usize;
    while i < 8 {
        handles.push(Gc::new(&mut st, i));
        i += 1;
    }
    // give up the records 0, 3, 4 and 7: the tail, two neighbours and the head
    let mut kept: Vec<Gc> = Vec::new();
    for handle in handles {
        let ptr = handle.ptr();
        if ptr == 0 || ptr == 3 || ptr == 4 || ptr == 7 {
            handle.unroot(&mut st);
        } else {
            kept.push(handle);
        }
    }
    force_collect(&mut st);
    assert_eq!(stats(&st).bytes_allocated, 4 * NUMBER_SIZE);
    let mut ptr = 0usize;
    while ptr < 8 {
        let alive = ptr == 1 || ptr == 2 || ptr == 5 || ptr == 6;
        assert_eq!(GcBoxHeader::is_alive(&st, ptr), alive);
        ptr += 1;
    }
    // the chain still holds together: a second collection walks it and finds nothing
    let unmarked = st.condemn();
    assert!(unmarked.is_empty());
    for handle in kept {
        handle.unroot(&mut st);
    }
    force_collect(&mut st);
    assert_eq!(stats(&st).bytes_allocated, 0);
}

#[test]
fn finalizers_of_library_values_leave_or_pass_on_the_list() {
    let st: GcState<usize> = GcState::new();
    let finalized = Rc::new(Cell::new(0));
    let phoenix = |me: GcPointer| Phoenix { me: Some(me), finalized: finalized.clone() };
    let mut list: Vec<GcPointer> = vec![4];

    // values without a finalizer of their own leave the list as it was
    7usize.finalize_glue(&st, &mut list);
    Gc::from_rooted(3).finalize_glue(&st, &mut list);
    WeakGc::from_gc_box(3).finalize_glue(&st, &mut list);
    None::<Phoenix>.finalize_glue(&st, &mut list);
    Vec::<Phoenix>::new().finalize_glue(&st, &mut list);
    (1usize, 2usize).finalize_glue(&st, &mut list);
    assert_eq!(list, vec![4]);
    assert_eq!(finalized.get(), 0);

    // values that hold others run the finalizers of what they hold, in order
    Some(phoenix(10)).finalize_glue(&st, &mut list);
    assert_eq!(list, vec![4, 10]);
    (phoenix(11), phoenix(12)).finalize_glue(&st, &mut list);
    assert_eq!(list, vec![4, 10, 11, 12]);
    vec![phoenix(13), phoenix(14), phoenix(15)].finalize_glue(&st, &mut list);
    assert_eq!(list, vec![4, 10, 11, 12, 13, 14, 15]);
    assert_eq!(finalized.get(), 6);
}

#[test]
fn pair_leaves_the_list_as_it_was() {
    let mut st: GcState<usize> = roomy();
    let key = Gc::new(&mut st, 1usize);
    let pair = key.create_weak_pair(&mut st, 2usize);
    let mut list: Vec<GcPointer> = vec![8, 9];
    pair.finalize_glue(&st, &mut list);
    assert_eq!(list, vec![8, 9]);
}

// A value whose finalizer reads the heap: the value of another record, and
// the root count of its own.
struct Watcher {
    number: usize,
    other: Option<GcPointer>,
    me: Option<GcPointer>,
    seen: Rc<Cell<Option<usize>>>,
    roots_seen: Rc<Cell<Option<usize>>>,
    safe_seen: Rc<Cell<Option<bool>>>,
}

impl Finalize for Watcher {}

impl Trace for Watcher {
    fn trace(&self, _worklist: &mut Vec<GcPointer>) {}

    fn weak_trace(&self, _ephemeron_queue: &mut Vec<(GcPointer, GcPointer)>) {}

    fn is_marked_ephemeron(&self) -> bool {
        false
    }

    fn finalize_glue<H: 'static>(&self, heap: &GcState<H>, _revived: &mut Vec<GcPointer>) {
        self.safe_seen.set(Some(finalizer_safe(heap)));
        if let Some(me) = self.me {
            self.roots_seen.set(heap.roots(me));
        }
        let heap: &dyn Any = heap;
        if let (Some(heap), Some(other)) = (heap.downcast_ref::<GcState<Watcher>>(), self.other) {
            self.seen.set(heap.get(other).map(|watcher| watcher.number));
        }
    }
}

#[test]
fn finalizer_reads_other_records_before_anything_is_freed() {
    let seen = Rc::new(Cell::new(None));
    let roots_seen = Rc::new(Cell::new(None));
    let safe_seen = Rc::new(Cell::new(None));
    let watcher = |number: usize, other: Option<GcPointer>, me: Option<GcPointer>| Watcher {
        number,
        other,
        me,
        seen: seen.clone(),
        roots_seen: roots_seen.clone(),
        safe_seen: safe_seen.clone(),
    };
    let mut st: GcState<Watcher> = roomy();
    // both records are about to go; the first is finalized last and reads the second
    let first = Gc::new(&mut st, watcher(1, Some(1), Some(0)));
    let second = Gc::new(&mut st, watcher(2, None, None));
    assert_eq!(second.ptr(), 1);
    first.unroot(&mut st);
    second.unroot(&mut st);
    force_collect(&mut st);
    assert_eq!(seen.get(), Some(2));
    assert_eq!(roots_seen.get(), Some(0));
    assert_eq!(safe_seen.get(), Some(true));
    assert_eq!(stats(&st).bytes_allocated, 0);
}

#[test]
fn record_that_outlived_a_collection_is_reclaimed_by_the_next() {
    let mut st: GcState<usize> = roomy();
    let a = Gc::new(&mut st, 1usize);
    let w = a.clone_weak_gc();
    let b = Gc::new(&mut st, 2usize);
    b.unroot(&mut st);
    force_collect(&mut st);
    assert_eq!(w.value(&st), Some(&1));
    a.unroot(&mut st);
    force_collect(&mut st);
    assert_eq!(stats(&st).bytes_allocated, 0);
    assert!(w.value(&st).is_none());
}

#[test]
fn collection_of_a_heap_that_is_all_reachable_is_silent() {
    let (finalized, dropped) = counters();
    let mut st: GcState<Node> = roomy();
    let size = std::mem::size_of::<GcBox<Node>>();
    let parent = Gc::new(&mut st, (Probe::new(&finalized, &dropped), None));
    let gone = Gc::new(&mut st, (Probe::new(&finalized, &dropped), None));
    gone.unroot(&mut st);
    // a collection that reclaims something, and that the parent outlives
    force_collect(&mut st);
    assert_eq!(finalized.get(), 1);
    // a child that only the parent holds
    let child = Gc::new(&mut st, (Probe::new(&finalized, &dropped), None));
    drop(parent.set(&mut st, (Probe::new(&finalized, &dropped), Some(child.edge()))));
    let weak_child = child.clone_weak_gc();
    child.unroot(&mut st);
    let dropped_before = dropped.get();
    force_collect(&mut st);
    assert_eq!(finalized.get(), 1);
    assert_eq!(dropped.get(), dropped_before);
    assert!(weak_child.value(&st).is_some());
    assert_eq!(stats(&st).bytes_allocated, 2 * size);
}

#[test]
fn key_that_outlived_a_collection_goes_with_its_value() {
    let mut st: GcState<Holder> = roomy();
    let key = Gc::new(&mut st, (None, None));
    let pair = key.create_weak_pair(&mut st, (None, None));
    let holder = Gc::new(&mut st, (None, Some(pair)));
    let gone = Gc::new(&mut st, (None, None));
    gone.unroot(&mut st);
    // key and value outlive a collection that reclaims something
    force_collect(&mut st);
    assert!(pair.key(&st).is_some());
    assert!(pair.value(&st).is_some());
    key.unroot(&mut st);
    force_collect(&mut st);
    assert!(pair.key(&st).is_none());
    assert!(pair.value(&st).is_none());
    assert!(GcBoxHeader::is_alive(&st, holder.ptr()));
    assert_eq!(stats(&st).bytes_allocated, std::mem::size_of::<GcBox<Holder>>());
}

#[test]
fn allocation_over_the_threshold_sweeps_what_outlived_a_collection() {
    let mut st: GcState<usize> = GcState::new();
    let a = Gc::new(&mut st, 1usize);
    let b = Gc::new(&mut st, 2usize);
    b.unroot(&mut st);
    force_collect(&mut st);
    a.unroot(&mut st);
    // 32, 64, 96, 128 > 100: the allocation of the last record runs a collection
    let c = Gc::new(&mut st, 3usize);
    let d = Gc::new(&mut st, 4usize);
    c.unroot(&mut st);
    d.unroot(&mut st);
    let e = Gc::new(&mut st, 5usize);
    assert_eq!(stats(&st).collections_performed, 2);
    assert_eq!(stats(&st).bytes_allocated, NUMBER_SIZE);
    assert_eq!(*e.value(&st), 5);
    assert_eq!(st.roots(e.ptr()), Some(1));
}

#[test]
fn last_collection_leaves_a_leaking_heap_alone() {
    let (finalized, dropped) = counters();
    let mut st: GcState<Probe> = roomy();
    configure(&mut st, |config| GcConfig { leak_on_drop: true, ..config });
    let gone = Gc::new(&mut st, Probe::new(&finalized, &dropped));
    let ptr = gone.ptr();
    gone.unroot(&mut st);
    last_collection(&mut st);
    assert_eq!(stats(&st).collections_performed, 0);
    assert_eq!(finalized.get(), 0);
    assert!(GcBoxHeader::is_alive(&st, ptr));
    configure(&mut st, |config| GcConfig { leak_on_drop: false, ..config });
    last_collection(&mut st);
    assert_eq!(stats(&st).collections_performed, 1);
    assert_eq!(finalized.get(), 1);
    assert_eq!(dropped.get(), 1);
    assert!(!GcBoxHeader::is_alive(&st, ptr));
}
