//! Strong handles, weak handles and ephemeron pairs.

use crate::gc::{fresh_record, GcBox, GcState};
use crate::header::{GcBoxHeader, GcBoxType, GcPointer, ROOTS_MAX};
use crate::heap::record_size;
use crate::trace::{Finalize, Trace};
use vstd::prelude::*;

verus! {

/// A strong reference to a record.
///
/// A handle that its holder keeps outside the heap stands for one root on
/// its record: `new`, `from_gc_box` and `clone` take the root, `unroot`
/// gives it back. A handle made by `edge` is for storing in the value of a
/// record: it takes no root, and the collector follows it.
pub struct Gc {
    ptr: GcPointer,
}

impl View for Gc {
    type V = GcPointer;

    closed spec fn view(&self) -> GcPointer {
        self.ptr
    }
}

impl Gc {
    /// Allocates a standard record for `value`, which may run a collection,
    /// and gives the handle that holds its one root.
    pub fn new<T: Trace + 'static>(st: &mut GcState<T>, value: T) -> (gc: Gc)
        requires
            old(st).wf(),
            old(st)@.stats.bytes_allocated + record_size::<T>() <= usize::MAX,
            old(st)@.stats.collections_performed < usize::MAX,
        ensures
            final(st).wf(),
            gc@ == old(st)@.issued,
            exists|requests: Seq<GcPointer>|
                old(st)@.allocation_permits(fresh_record(value, GcBoxType::Standard), requests)
                    && final(st)@ == #[trigger] old(st)@.insert(
                    fresh_record(value, GcBoxType::Standard),
                    requests,
                ),
            final(st)@.live(gc@),
            final(st)@.records[gc@].data == value,
            final(st)@.records[gc@].roots >= 1,
    {
        Gc { ptr: GcBox::new(st, value, GcBoxType::Standard) }
    }

    /// Wraps the live record `ptr` in a new handle, which takes one root.
    pub fn from_gc_box<T>(st: &mut GcState<T>, ptr: GcPointer) -> (gc: Gc)
        requires
            old(st).wf(),
            old(st)@.live(ptr),
            old(st)@.records[ptr].roots < ROOTS_MAX,
        ensures
            final(st).wf(),
            gc@ == ptr,
            final(st)@ == old(st)@.root(ptr),
    {
        st.root(ptr);
        Gc { ptr }
    }

    /// A handle for a root that was taken already, such as an entry of
    /// `take_revived`. Takes no root.
    pub fn from_rooted(ptr: GcPointer) -> (gc: Gc)
        ensures
            gc@ == ptr,
    {
        Gc { ptr }
    }

    /// A second handle to the same record, which takes one more root.
    pub fn clone<T>(&self, st: &mut GcState<T>) -> (gc: Gc)
        requires
            old(st).wf(),
            old(st)@.live(self@),
            old(st)@.records[self@].roots < ROOTS_MAX,
        ensures
            final(st).wf(),
            gc@ == self@,
            final(st)@ == old(st)@.root(self@),
    {
        st.root(self.ptr);
        Gc { ptr: self.ptr }
    }

    /// Gives the handle up, and with it its root.
    pub fn unroot<T>(self, st: &mut GcState<T>)
        requires
            old(st).wf(),
            old(st)@.live(self@),
            old(st)@.records[self@].roots > 0,
        ensures
            final(st).wf(),
            final(st)@ == old(st)@.unroot(self@),
    {
        st.unroot(self.ptr);
    }

    /// A reference to the same record that takes no root, for storing in
    /// the value of a record.
    pub fn edge(&self) -> (gc: Gc)
        ensures
            gc@ == self@,
    {
        Gc { ptr: self.ptr }
    }

    /// The number of the record.
    pub fn ptr(&self) -> (ptr: GcPointer)
        ensures
            ptr == self@,
    {
        self.ptr
    }

    /// The value of the record. The record must be live, as it is while the
    /// handle holds its root, and no sweep may be under way.
    pub fn value<'a, T>(&self, st: &'a GcState<T>) -> (value: &'a T)
        requires
            st@.live(self@),
            !st.sweeping(),
        ensures
            *value == st@.records[self@].data,
    {
        st.get(self.ptr).unwrap()
    }

    /// Puts `value` in place of the value of the record, and gives the
    /// former value back.
    pub fn set<T>(&self, st: &mut GcState<T>, value: T) -> (former: T)
        requires
            old(st).wf(),
            old(st)@.live(self@),
        ensures
            final(st).wf(),
            final(st)@ == old(st)@.store(self@, value),
            former == old(st)@.records[self@].data,
    {
        st.replace(self.ptr, value)
    }

    /// A weak reference to the same record. Takes no root.
    pub fn clone_weak_gc(&self) -> (weak: WeakGc)
        ensures
            weak@ == self@,
    {
        WeakGc::from_gc(self)
    }

    /// An ephemeron pair with this record as its key and a new
    /// ephemeron-value record for `value`. See `WeakPair::from_gc_value_pair`.
    pub fn create_weak_pair<T: Trace + 'static>(&self, st: &mut GcState<T>, value: T) -> (pair: WeakPair)
        requires
            old(st).wf(),
            old(st)@.stats.bytes_allocated + record_size::<T>() <= usize::MAX,
            old(st)@.stats.collections_performed < usize::MAX,
        ensures
            final(st).wf(),
            pair@ == (self@, old(st)@.issued as GcPointer),
            exists|requests: Seq<GcPointer>|
                old(st)@.allocation_permits(fresh_record(value, GcBoxType::Ephemeron), requests)
                    && final(st)@ == #[trigger] old(st)@.insert(
                    fresh_record(value, GcBoxType::Ephemeron),
                    requests,
                ),
    {
        WeakPair::from_gc_value_pair(st, self.ptr, value)
    }
}

impl Finalize for Gc {

}

/// A handle stored in a value is an edge to its record.
impl Trace for Gc {
    open spec fn children(&self) -> Seq<GcPointer> {
        seq![self@]
    }

    open spec fn ephemerons(&self) -> Seq<(GcPointer, GcPointer)> {
        Seq::empty()
    }

    open spec fn resolved_ephemeron(&self) -> bool {
        false
    }

    fn trace(&self, worklist: &mut Vec<GcPointer>) {
        worklist.push(self.ptr);
        assert(worklist@ == old(worklist)@ + seq![self.ptr]);
    }

    fn weak_trace(&self, ephemeron_queue: &mut Vec<(GcPointer, GcPointer)>) {
    }

    fn is_marked_ephemeron(&self) -> (resolved: bool) {
        false
    }

    open spec fn may_revive(&self, p: GcPointer) -> bool {
        false
    }

    open spec fn finalizes(&self, before: Seq<GcPointer>, after: Seq<GcPointer>) -> bool {
        after == before
    }

    /// A reference has nothing to finalize and asks for nothing: the list
    /// is left as it was.
    fn finalize_glue<H: 'static>(&self, heap: &GcState<H>, revived: &mut Vec<GcPointer>)
        ensures
            final(revived)@ == old(revived)@,
    {
        self.finalize();
        assert forall|i: int| 0 <= i < revived@.len() implies old(revived)@.contains(
            #[trigger] revived@[i],
        ) by {
            assert(old(revived)@[i] == revived@[i]);
        }
    }
}

/// A weak reference to a record.
///
/// It takes no root, so it does not keep its record from being reclaimed,
/// and it resolves to nothing once the record has been swept.
#[derive(Clone, Copy)]
pub struct WeakGc {
    ptr: GcPointer,
}

impl View for WeakGc {
    type V = GcPointer;

    closed spec fn view(&self) -> GcPointer {
        self.ptr
    }
}

impl WeakGc {
    /// Allocates a standard record for `value`, which may run a collection,
    /// and gives a weak reference to it. The handle that the record is born
    /// with is given up at once, so the record starts its life without a
    /// root, and the next collection reclaims it unless something has come
    /// to refer to it.
    pub fn new<T: Trace + 'static>(st: &mut GcState<T>, value: T) -> (weak: WeakGc)
        requires
            old(st).wf(),
            old(st)@.stats.bytes_allocated + record_size::<T>() <= usize::MAX,
            old(st)@.stats.collections_performed < usize::MAX,
        ensures
            final(st).wf(),
            weak@ == old(st)@.issued,
            exists|requests: Seq<GcPointer>|
                old(st)@.allocation_permits(fresh_record(value, GcBoxType::Standard), requests)
                    && final(st)@ == (#[trigger] old(st)@.insert(
                    fresh_record(value, GcBoxType::Standard),
                    requests,
                )).unroot(weak@),
            final(st)@.live(weak@),
            final(st)@.records[weak@].data == value,
    {
        let gc = Gc::new(st, value);
        let weak = gc.clone_weak_gc();
        gc.unroot(st);
        weak
    }

    /// The value of the record if the record is still a member of the
    /// chain, or nothing if it has been swept.
    pub fn value<'a, T>(&self, st: &'a GcState<T>) -> (value: Option<&'a T>)
        requires
            st.wf(),
        ensures
            value is Some == st@.live(self@),
            value is Some ==> *value->0 == st@.records[self@].data,
    {
        if GcBoxHeader::is_alive(st, self.ptr) {
            st.get(self.ptr)
        } else {
            None
        }
    }

    /// A weak reference to the record of a handle. Takes no root.
    pub fn from_gc(gc: &Gc) -> (weak: WeakGc)
        ensures
            weak@ == gc@,
    {
        WeakGc { ptr: gc.ptr() }
    }

    /// A weak reference to the record `ptr`. Takes no root. Where `ptr`
    /// names no live record the reference resolves to nothing.
    pub fn from_gc_box(ptr: GcPointer) -> (weak: WeakGc)
        ensures
            weak@ == ptr,
    {
        WeakGc { ptr }
    }
}

impl Finalize for WeakGc {

}

/// A weak reference stored in a value is no edge.
impl Trace for WeakGc {
    open spec fn children(&self) -> Seq<GcPointer> {
        Seq::empty()
    }

    open spec fn ephemerons(&self) -> Seq<(GcPointer, GcPointer)> {
        Seq::empty()
    }

    open spec fn resolved_ephemeron(&self) -> bool {
        false
    }

    fn trace(&self, worklist: &mut Vec<GcPointer>) {
    }

    fn weak_trace(&self, ephemeron_queue: &mut Vec<(GcPointer, GcPointer)>) {
    }

    fn is_marked_ephemeron(&self) -> (resolved: bool) {
        false
    }

    open spec fn may_revive(&self, p: GcPointer) -> bool {
        false
    }

    open spec fn finalizes(&self, before: Seq<GcPointer>, after: Seq<GcPointer>) -> bool {
        after == before
    }

    /// A reference has nothing to finalize and asks for nothing: the list
    /// is left as it was.
    fn finalize_glue<H: 'static>(&self, heap: &GcState<H>, revived: &mut Vec<GcPointer>)
        ensures
            final(revived)@ == old(revived)@,
    {
        self.finalize();
        assert forall|i: int| 0 <= i < revived@.len() implies old(revived)@.contains(
            #[trigger] revived@[i],
        ) by {
            assert(old(revived)@[i] == revived@[i]);
        }
    }
}

/// An ephemeron pair: a weak reference to a key record, and an
/// ephemeron-value record of its own. The value record has no root; a
/// collection keeps it only where it meets the pair in the value of a
/// record that it marks, and finds the key reachable.
#[derive(Clone, Copy)]
pub struct WeakPair {
    key: WeakGc,
    value: GcPointer,
}

impl View for WeakPair {
    type V = (GcPointer, GcPointer);

    closed spec fn view(&self) -> (GcPointer, GcPointer) {
        (self.key@, self.value)
    }
}

impl WeakPair {
    /// A pair with the record `key_gc` as its key. Allocates an
    /// ephemeron-value record for `value`, which may run a collection. Such
    /// a collection finds the new record without a root and held by nothing
    /// it marks, and reclaims it at once: the pair then has no value to
    /// resolve.
    pub fn from_gc_value_pair<T: Trace + 'static>(
        st: &mut GcState<T>,
        key_gc: GcPointer,
        value: T,
    ) -> (pair: WeakPair)
        requires
            old(st).wf(),
            old(st)@.stats.bytes_allocated + record_size::<T>() <= usize::MAX,
            old(st)@.stats.collections_performed < usize::MAX,
        ensures
            final(st).wf(),
            pair@ == (key_gc, old(st)@.issued as GcPointer),
            exists|requests: Seq<GcPointer>|
                old(st)@.allocation_permits(fresh_record(value, GcBoxType::Ephemeron), requests)
                    && final(st)@ == #[trigger] old(st)@.insert(
                    fresh_record(value, GcBoxType::Ephemeron),
                    requests,
                ),
    {
        let value_ptr = GcBox::new(st, value, GcBoxType::Ephemeron);
        WeakPair { key: WeakGc::from_gc_box(key_gc), value: value_ptr }
    }

    /// The value of the key record if it is still alive.
    pub fn key<'a, T>(&self, st: &'a GcState<T>) -> (key: Option<&'a T>)
        requires
            st.wf(),
        ensures
            key is Some == st@.live(self@.0),
            key is Some ==> *key->0 == st@.records[self@.0].data,
    {
        self.key.value(st)
    }

    /// The value of the value record if the key record is still alive and
    /// the value record is too; nothing otherwise.
    pub fn value<'a, T>(&self, st: &'a GcState<T>) -> (value: Option<&'a T>)
        requires
            st.wf(),
        ensures
            value is Some == (st@.live(self@.0) && st@.live(self@.1)),
            value is Some ==> *value->0 == st@.records[self@.1].data,
    {
        if self.key.value(st).is_some() {
            st.get(self.value)
        } else {
            None
        }
    }
}

impl Finalize for WeakPair {

}

/// A pair stored in a value marks nothing by itself; it hands its key and
/// its value to the collector's queue.
impl Trace for WeakPair {
    open spec fn children(&self) -> Seq<GcPointer> {
        Seq::empty()
    }

    open spec fn ephemerons(&self) -> Seq<(GcPointer, GcPointer)> {
        seq![self@]
    }

    open spec fn resolved_ephemeron(&self) -> bool {
        false
    }

    #[inline]
    fn trace(&self, worklist: &mut Vec<GcPointer>) {
    }

    #[inline]
    fn weak_trace(&self, ephemeron_queue: &mut Vec<(GcPointer, GcPointer)>) {
        let key_ptr = self.key.ptr;
        let value_ptr = self.value;
        ephemeron_queue.push((key_ptr, value_ptr));
        assert(ephemeron_queue@ == old(ephemeron_queue)@ + seq![(key_ptr, value_ptr)]);
    }

    #[inline]
    fn is_marked_ephemeron(&self) -> (resolved: bool) {
        false
    }

    open spec fn may_revive(&self, p: GcPointer) -> bool {
        false
    }

    open spec fn finalizes(&self, before: Seq<GcPointer>, after: Seq<GcPointer>) -> bool {
        after == before
    }

    /// A pair has nothing to finalize and asks for nothing: the list is
    /// left as it was.
    #[inline]
    fn finalize_glue<H: 'static>(&self, heap: &GcState<H>, revived: &mut Vec<GcPointer>)
        ensures
            final(revived)@ == old(revived)@,
    {
        assert forall|i: int| 0 <= i < revived@.len() implies old(revived)@.contains(
            #[trigger] revived@[i],
        ) by {
            assert(old(revived)@[i] == revived@[i]);
        }
    }
}

} // verus!
