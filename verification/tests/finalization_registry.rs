use gc::{force_collect, Finalize, Gc, GcPointer, GcState, Trace, WeakPair};
use std::cell::Cell;
use std::rc::Rc;

// A small callback-like value whose finalizer flips a flag.
struct Callback(Rc<Cell<bool>>);

impl Finalize for Callback {
    fn finalize(&self) {
        self.0.set(true);
    }
}

impl Trace for Callback {
    fn trace(&self, _worklist: &mut Vec<GcPointer>) {}

    fn is_marked_ephemeron(&self) -> bool {
        false
    }

    fn weak_trace(&self, _ephemeron_queue: &mut Vec<(GcPointer, GcPointer)>) {}

    fn finalize_glue<H: 'static>(&self, _heap: &GcState<H>, _revived: &mut Vec<GcPointer>) {
        Finalize::finalize(self);
    }
}

// What the heap of this test stores: a key or a callback.
enum Entry {
    Key(usize),
    Callback(Callback),
}

impl Finalize for Entry {}

impl Trace for Entry {
    fn trace(&self, _worklist: &mut Vec<GcPointer>) {}

    fn is_marked_ephemeron(&self) -> bool {
        false
    }

    fn weak_trace(&self, _ephemeron_queue: &mut Vec<(GcPointer, GcPointer)>) {}

    fn finalize_glue<H: 'static>(&self, heap: &GcState<H>, revived: &mut Vec<GcPointer>) {
        match self {
            Entry::Key(key) => key.finalize_glue(heap, revived),
            Entry::Callback(callback) => callback.finalize_glue(heap, revived),
        }
    }
}

#[test]
fn finalization_registry_invokes_callback_when_key_collected() {
    let called = Rc::new(Cell::new(false));
    let mut st: GcState<Entry> = GcState::new();

    // Create a key and register a WeakPair (key -> Callback) in the registry.
    let mut registry: Vec<WeakPair> = Vec::new();
    {
        let key = Gc::new(&mut st, Entry::Key(42usize));
        let cb = Callback(called.clone());
        // store the WeakPair in the registry; the registry lives beyond the scope
        registry.push(key.create_weak_pair(&mut st, Entry::Callback(cb)));
        // give up the strong key reference so it can be collected
        key.unroot(&mut st);
    }

    // Trigger GC; after collection the callback's finalizer should run
    force_collect(&mut st);

    assert!(called.get(), "finalizer was not invoked");
    assert!(registry[0].key(&st).is_none());
    assert!(registry[0].value(&st).is_none());
}
