//! What a stored value owes the collector: the records it refers to, the
//! ephemeron pairs it holds, and its finalizer.

use crate::gc::GcState;
use crate::header::GcPointer;
use vstd::prelude::*;

verus! {

/// Clean-up that a value wants to run before its record is reclaimed.
pub trait Finalize {
    /// Runs once for a record that a collection found unreachable, before any
    /// record is reclaimed. The rest of the heap is still intact.
    fn finalize(&self) {
    }
}

/// What the collector needs to know of a stored value: which records it
/// refers to, which ephemeron pairs it holds, and what its finalization asks for.
///
/// The collector believes an implementation: a value that leaves out a record
/// it refers to may see that record reclaimed.
pub trait Trace: Finalize {
    /// The records this value refers to directly.
    open spec fn children(&self) -> Seq<GcPointer> {
        Seq::empty()
    }

    /// The ephemeron pairs (key, value) this value holds directly.
    open spec fn ephemerons(&self) -> Seq<(GcPointer, GcPointer)> {
        Seq::empty()
    }

    /// Whether this value is itself an ephemeron value that counts as resolved.
    open spec fn resolved_ephemeron(&self) -> bool {
        false
    }

    /// Appends every record this value refers to directly to `worklist`.
    fn trace(&self, worklist: &mut Vec<GcPointer>)
        ensures
            final(worklist)@ == old(worklist)@ + self.children(),
    ;

    /// Appends every ephemeron pair this value holds to `ephemeron_queue`.
    fn weak_trace(&self, ephemeron_queue: &mut Vec<(GcPointer, GcPointer)>)
        ensures
            final(ephemeron_queue)@ == old(ephemeron_queue)@ + self.ephemerons(),
    ;

    /// Reports whether this value is itself a resolved ephemeron value, so
    /// that a pair keyed by its record counts as reachable.
    fn is_marked_ephemeron(&self) -> (resolved: bool)
        ensures
            resolved == self.resolved_ephemeron(),
    ;

    /// Whether finalizing this value may ask for the record `p` to be kept
    /// alive. A finalizer is free to ask for any record unless its type says
    /// otherwise.
    open spec fn may_revive(&self, p: GcPointer) -> bool {
        true
    }

    /// Whether finalizing this value can turn the list `before` of records
    /// to keep alive into the list `after`. A finalizer is free to leave any
    /// list unless its type says otherwise.
    open spec fn finalizes(&self, before: Seq<GcPointer>, after: Seq<GcPointer>) -> bool {
        true
    }

    /// Finalizes this value. `heap` is the heap that holds the record of the
    /// value: nothing has been freed yet, so the finalizer may read every
    /// record, those that are about to go too. What the finalizer wants to
    /// stay alive it leaves in `revived`: the collector takes a root
    /// reference to each such record that is live before it decides what to
    /// reclaim. What else a finalizer does is its own affair.
    fn finalize_glue<H: 'static>(&self, heap: &GcState<H>, revived: &mut Vec<GcPointer>)
        requires
            heap.wf(),
        ensures
            self.finalizes(old(revived)@, final(revived)@),
            forall|i: int|
                0 <= i < final(revived)@.len() ==> old(revived)@.contains(
                    #[trigger] final(revived)@[i],
                ) || self.may_revive(final(revived)@[i]),
    ;
}

impl Finalize for usize {
}

/// A plain number refers to no record.
impl Trace for usize {
    open spec fn children(&self) -> Seq<GcPointer> {
        Seq::empty()
    }

    open spec fn ephemerons(&self) -> Seq<(GcPointer, GcPointer)> {
        Seq::empty()
    }

    open spec fn resolved_ephemeron(&self) -> bool {
        false
    }

    #[inline]
    fn trace(&self, worklist: &mut Vec<GcPointer>) {
    }

    #[inline]
    fn weak_trace(&self, ephemeron_queue: &mut Vec<(GcPointer, GcPointer)>) {
    }

    #[inline]
    fn is_marked_ephemeron(&self) -> (resolved: bool) {
        false
    }

    open spec fn may_revive(&self, p: GcPointer) -> bool {
        false
    }

    open spec fn finalizes(&self, before: Seq<GcPointer>, after: Seq<GcPointer>) -> bool {
        after == before
    }

    /// A number has nothing to finalize and asks for nothing: the list is
    /// left as it was.
    #[inline]
    fn finalize_glue<H: 'static>(&self, heap: &GcState<H>, revived: &mut Vec<GcPointer>)
        ensures
            final(revived)@ == old(revived)@,
    {
        self.finalize();
        assert forall|i: int| 0 <= i < revived@.len() implies old(revived)@.contains(
            #[trigger] revived@[i],
        ) by {
            assert(old(revived)@[i] == revived@[i]);
        }
    }
}

impl<T> Finalize for Option<T> {
}

/// A value that may be absent holds what the value holds, if there is one.
impl<T: Trace> Trace for Option<T> {
    open spec fn children(&self) -> Seq<GcPointer> {
        match self {
            Some(inner) => inner.children(),
            None => Seq::empty(),
        }
    }

    open spec fn ephemerons(&self) -> Seq<(GcPointer, GcPointer)> {
        match self {
            Some(inner) => inner.ephemerons(),
            None => Seq::empty(),
        }
    }

    open spec fn resolved_ephemeron(&self) -> bool {
        match self {
            Some(inner) => inner.resolved_ephemeron(),
            None => false,
        }
    }

    fn trace(&self, worklist: &mut Vec<GcPointer>) {
        match self {
            Some(inner) => inner.trace(worklist),
            None => {},
        }
    }

    fn weak_trace(&self, ephemeron_queue: &mut Vec<(GcPointer, GcPointer)>) {
        match self {
            Some(inner) => inner.weak_trace(ephemeron_queue),
            None => {},
        }
    }

    fn is_marked_ephemeron(&self) -> (resolved: bool) {
        match self {
            Some(inner) => inner.is_marked_ephemeron(),
            None => false,
        }
    }

    open spec fn may_revive(&self, p: GcPointer) -> bool {
        match self {
            Some(inner) => inner.may_revive(p),
            None => false,
        }
    }

    open spec fn finalizes(&self, before: Seq<GcPointer>, after: Seq<GcPointer>) -> bool {
        match self {
            Some(inner) => inner.finalizes(before, after),
            None => after == before,
        }
    }

    /// Finalizes the value if there is one, which does to the list what its
    /// finalizer does; leaves the list as it was if there is none.
    fn finalize_glue<H: 'static>(&self, heap: &GcState<H>, revived: &mut Vec<GcPointer>)
        ensures
            self is None ==> final(revived)@ == old(revived)@,
            self matches Some(inner) ==> inner.finalizes(old(revived)@, final(revived)@),
    {
        self.finalize();
        match self {
            Some(inner) => inner.finalize_glue(heap, revived),
            None => {
                assert forall|i: int| 0 <= i < revived@.len() implies old(revived)@.contains(
                    #[trigger] revived@[i],
                ) by {
                    assert(old(revived)@[i] == revived@[i]);
                }
            },
        }
    }
}

/// The children of the values of a sequence, in order.
pub open spec fn children_of<T: Trace>(items: Seq<T>) -> Seq<GcPointer>
    decreases items.len(),
{
    if items.len() == 0 {
        Seq::empty()
    } else {
        children_of(items.drop_last()) + items.last().children()
    }
}

/// The ephemeron pairs of the values of a sequence, in order.
pub open spec fn ephemerons_of<T: Trace>(items: Seq<T>) -> Seq<(GcPointer, GcPointer)>
    decreases items.len(),
{
    if items.len() == 0 {
        Seq::empty()
    } else {
        ephemerons_of(items.drop_last()) + items.last().ephemerons()
    }
}

/// Whether some value of a sequence is a resolved ephemeron.
pub open spec fn any_resolved<T: Trace>(items: Seq<T>) -> bool
    decreases items.len(),
{
    items.len() > 0 && (any_resolved(items.drop_last()) || items.last().resolved_ephemeron())
}

/// Whether finalizing some value of a sequence may ask for `p` to be kept
/// alive.
pub open spec fn any_may_revive<T: Trace>(items: Seq<T>, p: GcPointer) -> bool
    decreases items.len(),
{
    items.len() > 0 && (any_may_revive(items.drop_last(), p) || items.last().may_revive(p))
}

/// Whether finalizing the values of a sequence, one after the other from
/// the first to the last, can turn the list `before` into the list `after`.
pub open spec fn finalizes_all<T: Trace>(
    items: Seq<T>,
    before: Seq<GcPointer>,
    after: Seq<GcPointer>,
) -> bool
    decreases items.len(),
{
    if items.len() == 0 {
        after == before
    } else {
        exists|between: Seq<GcPointer>|
            finalizes_all(items.drop_last(), before, between) && #[trigger] items.last().finalizes(
                between,
                after,
            )
    }
}

impl<T> Finalize for Vec<T> {
}

/// A sequence of values holds what its values hold, in order.
impl<T: Trace> Trace for Vec<T> {
    open spec fn children(&self) -> Seq<GcPointer> {
        children_of(self@)
    }

    open spec fn ephemerons(&self) -> Seq<(GcPointer, GcPointer)> {
        ephemerons_of(self@)
    }

    open spec fn resolved_ephemeron(&self) -> bool {
        any_resolved(self@)
    }

    fn trace(&self, worklist: &mut Vec<GcPointer>) {
        let mut i: usize = 0;
        while i < self.len()
            invariant
                i <= self.len(),
                worklist@ == old(worklist)@ + children_of(self@.take(i as int)),
            decreases self.len() - i,
        {
            self[i].trace(worklist);
            proof {
                assert(self@.take(i + 1).drop_last() =~= self@.take(i as int));
                assert(self@.take(i + 1).last() == self@[i as int]);
            }
            i += 1;
        }
        assert(self@.take(i as int) =~= self@);
    }

    fn weak_trace(&self, ephemeron_queue: &mut Vec<(GcPointer, GcPointer)>) {
        let mut i: usize = 0;
        while i < self.len()
            invariant
                i <= self.len(),
                ephemeron_queue@ == old(ephemeron_queue)@ + ephemerons_of(self@.take(i as int)),
            decreases self.len() - i,
        {
            self[i].weak_trace(ephemeron_queue);
            proof {
                assert(self@.take(i + 1).drop_last() =~= self@.take(i as int));
                assert(self@.take(i + 1).last() == self@[i as int]);
            }
            i += 1;
        }
        assert(self@.take(i as int) =~= self@);
    }

    fn is_marked_ephemeron(&self) -> (resolved: bool) {
        let mut resolved = false;
        let mut i: usize = 0;
        while i < self.len()
            invariant
                i <= self.len(),
                resolved == any_resolved(self@.take(i as int)),
            decreases self.len() - i,
        {
            let here = self[i].is_marked_ephemeron();
            resolved = resolved || here;
            proof {
                assert(self@.take(i + 1).drop_last() =~= self@.take(i as int));
                assert(self@.take(i + 1).last() == self@[i as int]);
            }
            i += 1;
        }
        assert(self@.take(i as int) =~= self@);
        resolved
    }

    open spec fn may_revive(&self, p: GcPointer) -> bool {
        any_may_revive(self@, p)
    }

    open spec fn finalizes(&self, before: Seq<GcPointer>, after: Seq<GcPointer>) -> bool {
        finalizes_all(self@, before, after)
    }

    /// Finalizes the values of the sequence in order, each of which does to
    /// the list what its finalizer does; an empty sequence leaves the list
    /// as it was.
    fn finalize_glue<H: 'static>(&self, heap: &GcState<H>, revived: &mut Vec<GcPointer>)
        ensures
            finalizes_all(self@, old(revived)@, final(revived)@),
            self@.len() == 0 ==> final(revived)@ == old(revived)@,
    {
        self.finalize();
        let mut i: usize = 0;
        assert forall|j: int| 0 <= j < revived@.len() implies old(revived)@.contains(
            #[trigger] revived@[j],
        ) by {
            assert(old(revived)@[j] == revived@[j]);
        }
        assert(self@.take(0) =~= Seq::empty());
        while i < self.len()
            invariant
                heap.wf(),
                i <= self.len(),
                finalizes_all(self@.take(i as int), old(revived)@, revived@),
                forall|j: int|
                    0 <= j < revived@.len() ==> old(revived)@.contains(#[trigger] revived@[j])
                        || any_may_revive(self@.take(i as int), revived@[j]),
            decreases self.len() - i,
        {
            let ghost before = revived@;
            self[i].finalize_glue(heap, revived);
            proof {
                assert(self@.take(i + 1).drop_last() =~= self@.take(i as int));
                assert(self@.take(i + 1).last() == self@[i as int]);
                assert(finalizes_all(self@.take(i + 1).drop_last(), old(revived)@, before)
                    && self@.take(i + 1).last().finalizes(before, revived@));
                assert forall|j: int| 0 <= j < revived@.len() implies old(revived)@.contains(
                    #[trigger] revived@[j],
                ) || any_may_revive(self@.take(i + 1), revived@[j]) by {
                    if before.contains(revived@[j]) {
                        let m = before.index_of(revived@[j]);
                        assert(before[m] == revived@[j]);
                    }
                }
            }
            i += 1;
        }
        assert(self@.take(i as int) =~= self@);
    }
}

impl<A, B> Finalize for (A, B) {
}

/// A pair of values holds what the first holds and then what the second
/// holds.
impl<A: Trace, B: Trace> Trace for (A, B) {
    open spec fn children(&self) -> Seq<GcPointer> {
        self.0.children() + self.1.children()
    }

    open spec fn ephemerons(&self) -> Seq<(GcPointer, GcPointer)> {
        self.0.ephemerons() + self.1.ephemerons()
    }

    open spec fn resolved_ephemeron(&self) -> bool {
        self.0.resolved_ephemeron() || self.1.resolved_ephemeron()
    }

    fn trace(&self, worklist: &mut Vec<GcPointer>) {
        self.0.trace(worklist);
        self.1.trace(worklist);
        assert(worklist@ == old(worklist)@ + (self.0.children() + self.1.children()));
    }

    fn weak_trace(&self, ephemeron_queue: &mut Vec<(GcPointer, GcPointer)>) {
        self.0.weak_trace(ephemeron_queue);
        self.1.weak_trace(ephemeron_queue);
        assert(ephemeron_queue@ == old(ephemeron_queue)@ + (self.0.ephemerons()
            + self.1.ephemerons()));
    }

    fn is_marked_ephemeron(&self) -> (resolved: bool) {
        self.0.is_marked_ephemeron() || self.1.is_marked_ephemeron()
    }

    open spec fn may_revive(&self, p: GcPointer) -> bool {
        self.0.may_revive(p) || self.1.may_revive(p)
    }

    open spec fn finalizes(&self, before: Seq<GcPointer>, after: Seq<GcPointer>) -> bool {
        exists|between: Seq<GcPointer>|
            #![trigger self.0.finalizes(before, between)]
            self.0.finalizes(before, between) && self.1.finalizes(between, after)
    }

    /// Finalizes the first value and then the second, each of which does to
    /// the list what its finalizer does.
    fn finalize_glue<H: 'static>(&self, heap: &GcState<H>, revived: &mut Vec<GcPointer>)
        ensures
            exists|between: Seq<GcPointer>|
                #![trigger self.0.finalizes(old(revived)@, between)]
                self.0.finalizes(old(revived)@, between) && self.1.finalizes(
                    between,
                    final(revived)@,
                ),
    {
        self.finalize();
        self.0.finalize_glue(heap, revived);
        let ghost between = revived@;
        self.1.finalize_glue(heap, revived);
        assert(self.0.finalizes(old(revived)@, between) && self.1.finalizes(between, revived@));
        assert forall|i: int| 0 <= i < revived@.len() implies old(revived)@.contains(
            #[trigger] revived@[i],
        ) || self.may_revive(revived@[i]) by {
            if between.contains(revived@[i]) {
                let m = between.index_of(revived@[i]);
                assert(between[m] == revived@[i]);
            }
        }
    }
}

} // verus!
