//! The heap of an execution context and the collector that works on it:
//! allocation with its trigger, the mark phase, finalization, and the sweep.

use crate::facts::{
    lemma_finalizers_leave_by_values, lemma_mark_from, lemma_remove_no_duplicates, lemma_set_mark_unmarked,
    lemma_slots_after_remove, lemma_unmarked_nodes,
};
use crate::header::{GcBoxHeader, GcBoxType, GcPointer, ROOTS_MAX};
use crate::heap::{
    asked, clear_marks, drain, finalizers_leave, incoming_at, key_reachable, mark_from, mark_roots, record_size, resolve,
    revive, set_mark, slots_ok, unmarked, unmarked_nodes, Heap, Record, Unmarked,
};
use crate::trace::Trace;
use vstd::prelude::*;

verus! {

/// Bytes in use and collections run, for observation.
#[derive(Clone, Copy, Debug)]
pub struct GcStats {
    pub bytes_allocated: usize,
    pub collections_performed: usize,
}

impl Default for GcStats {
    fn default() -> (stats: Self)
        ensures
            stats == (GcStats { bytes_allocated: 0, collections_performed: 0 }),
    {
        GcStats { bytes_allocated: 0, collections_performed: 0 }
    }
}

/// When the heap collects on its own.
#[derive(Clone, Copy, Debug)]
pub struct GcConfig {
    /// Bytes in use above which an allocation runs a collection.
    pub threshold: usize,
    /// After a collection the bytes in use should be no more than this many
    /// hundredths of the threshold; where they are more, the threshold grows
    /// to make them so. The threshold thus grows by a factor, not by a step
    /// for each allocation.
    pub used_space_percent: usize,
    /// Whether tearing the heap down skips the last collection.
    pub leak_on_drop: bool,
}

impl Default for GcConfig {
    fn default() -> (config: Self)
        ensures
            config == (GcConfig { threshold: 100, used_space_percent: 70, leak_on_drop: false }),
    {
        GcConfig { threshold: 100, used_space_percent: 70, leak_on_drop: false }
    }
}

/// An allocation record: header and value.
pub struct GcBox<T> {
    pub(crate) header: GcBoxHeader,
    data: T,
}

impl<T> View for GcBox<T> {
    type V = Record<T>;

    closed spec fn view(&self) -> Record<T> {
        Record { roots: self.header.count(), marked: self.header.marked(), data: self.data }
    }
}

/// What a new record of kind `box_type` holds for the value `data`.
pub open spec fn fresh_record<T>(data: T, box_type: GcBoxType) -> Record<T> {
    Record {
        roots: if box_type == GcBoxType::Standard {
            1
        } else {
            0
        },
        marked: false,
        data,
    }
}

impl<T> GcBox<T> {
    /// The record that follows this one in the chain, if any.
    pub closed spec fn link(&self) -> Option<GcPointer> {
        self.header.link()
    }

    /// Adds one root reference to this record. Roots keep a record from
    /// being reclaimed.
    pub fn root_inner(&mut self)
        requires
            old(self)@.roots < ROOTS_MAX,
        ensures
            final(self)@ == (Record { roots: old(self)@.roots + 1, ..old(self)@ }),
            final(self).link() == old(self).link(),
    {
        self.header.inc_roots();
    }

    /// Takes one root reference from this record.
    pub fn unroot_inner(&mut self)
        requires
            old(self)@.roots > 0,
        ensures
            final(self)@ == (Record { roots: (old(self)@.roots - 1) as nat, ..old(self)@ }),
            final(self).link() == old(self).link(),
    {
        self.header.dec_roots();
    }

    /// The value this record stores.
    pub fn value(&self) -> (value: &T)
        ensures
            *value == self@.data,
    {
        &self.data
    }
}

impl<T: Trace + 'static> GcBox<T> {
    /// Marks this record if it has no mark yet, and then appends the records
    /// its value refers to to `worklist`, for the caller to mark through.
    pub fn trace_inner(&mut self, worklist: &mut Vec<GcPointer>)
        ensures
            final(self)@ == (Record { marked: true, ..old(self)@ }),
            final(self).link() == old(self).link(),
            final(worklist)@ == if old(self)@.marked {
                old(worklist)@
            } else {
                old(worklist)@ + old(self)@.data.children()
            },
    {
        if !self.header.is_marked() {
            self.header.mark();
            self.data.trace(worklist);
        }
    }

    /// Appends the ephemeron pairs that this record's value holds to `queue`.
    pub fn weak_trace_inner(&self, queue: &mut Vec<(GcPointer, GcPointer)>)
        ensures
            final(queue)@ == old(queue)@ + self@.data.ephemerons(),
    {
        self.data.weak_trace(queue);
    }
}

/// The heap of one execution context: the table of records, the chain that
/// links the live ones, the allocation trigger and the statistics.
///
/// Each record is an allocation of its own, which the sweep gives back. A
/// record keeps its number for life, and no number is given twice: the
/// table keeps an empty place for each record that is gone, so that a
/// reference to a reclaimed record can never come to mean another record.
pub struct GcState<T> {
    stats: GcStats,
    config: GcConfig,
    boxes_start: Option<GcPointer>,
    boxes: Vec<Option<Box<GcBox<T>>>>,
    dropping: bool,
    revived: Vec<GcPointer>,
    chain: Ghost<Seq<GcPointer>>,
    finalized: Ghost<Seq<GcPointer>>,
}

/// The links of the records spell out `chain`, head first.
spec fn linked<T>(
    boxes: Seq<Option<Box<GcBox<T>>>>,
    start: Option<GcPointer>,
    chain: Seq<GcPointer>,
) -> bool {
    &&& start == (if chain.len() > 0 {
        Some(chain[0])
    } else {
        None
    })
    &&& forall|i: int|
        0 <= i < chain.len() ==> {
            &&& (#[trigger] chain[i]) < boxes.len()
            &&& boxes[chain[i] as int] is Some
            &&& boxes[chain[i] as int]->0.link() == (if i + 1 < chain.len() {
                Some(chain[i + 1])
            } else {
                None
            })
        }
}

/// Every occupied place of the table belongs to a record of `chain`.
spec fn occupied<T>(boxes: Seq<Option<Box<GcBox<T>>>>, chain: Seq<GcPointer>) -> bool {
    forall|p: GcPointer| p < boxes.len() && (#[trigger] boxes[p as int]) is Some ==> chain.contains(p)
}

impl<T> View for GcState<T> {
    type V = Heap<T>;

    closed spec fn view(&self) -> Heap<T> {
        Heap {
            chain: self.chain@,
            records: Map::new(
                |p: GcPointer| p < self.boxes@.len() && self.boxes@[p as int] is Some,
                |p: GcPointer| self.boxes@[p as int]->0@,
            ),
            issued: self.boxes@.len(),
            stats: self.stats,
            config: self.config,
            revived: self.revived@,
            finalized: self.finalized@,
        }
    }
}

impl<T> GcState<T> {
    /// The table and the chain agree.
    pub closed spec fn structure(&self) -> bool {
        &&& linked(self.boxes@, self.boxes_start, self.chain@)
        &&& occupied(self.boxes@, self.chain@)
    }

    /// The table and the chain agree, and no sweep is under way.
    pub closed spec fn inv(&self) -> bool {
        !self.dropping && self.structure()
    }

    /// The state is sound, and so is the heap it stands for. This holds in
    /// the middle of a collection too.
    pub open spec fn sound(&self) -> bool {
        self.inv() && self@.sound()
    }

    /// The state as it is between collections: sound, and without a mark.
    pub open spec fn wf(&self) -> bool {
        self.inv() && self@.wf()
    }

    /// Whether a sweep is under way.
    pub closed spec fn sweeping(&self) -> bool {
        self.dropping
    }

    /// No sweep is under way on a sound state.
    pub proof fn lemma_not_sweeping(&self)
        requires
            self.wf(),
        ensures
            !self.sweeping(),
    {
    }

    /// An empty heap with the default configuration.
    pub fn new() -> (st: Self)
        ensures
            st.wf(),
            st@ == (Heap::<T> {
                chain: Seq::empty(),
                records: Map::empty(),
                issued: 0,
                stats: GcStats { bytes_allocated: 0, collections_performed: 0 },
                config: GcConfig { threshold: 100, used_space_percent: 70, leak_on_drop: false },
                revived: Seq::empty(),
                finalized: Seq::empty(),
            }),
    {
        let st = GcState {
            stats: GcStats::default(),
            config: GcConfig::default(),
            boxes_start: None,
            boxes: Vec::new(),
            dropping: false,
            revived: Vec::new(),
            chain: Ghost(Seq::empty()),
            finalized: Ghost(Seq::empty()),
        };
        proof {
            assert(st@.records =~= Map::empty());
            assert(st@.records.dom() =~= st@.chain.to_set());
        }
        st
    }

    /// Whether `p` is a live record.
    fn is_live(&self, p: GcPointer) -> (live: bool)
        ensures
            live == self@.live(p),
    {
        p < self.boxes.len() && self.boxes[p].is_some()
    }

    /// The header of the live record `p`.
    fn header_at(&self, p: GcPointer) -> (header: &GcBoxHeader)
        requires
            self@.live(p),
        ensures
            header.count() == self@.records[p].roots,
            header.marked() == self@.records[p].marked,
            p < self.boxes@.len(),
            self.boxes@[p as int] is Some,
            header.link() == self.boxes@[p as int]->0.link(),
    {
        &self.boxes[p].as_ref().unwrap().header
    }

    /// Whether the counters have room for one more record and one more
    /// collection, as an allocation asks.
    pub fn has_room(&self) -> (room: bool)
        ensures
            room == (self@.stats.bytes_allocated + record_size::<T>() <= usize::MAX
                && self@.stats.collections_performed < usize::MAX),
    {
        let size = core::mem::size_of::<GcBox<T>>();
        self.stats.bytes_allocated <= usize::MAX - size && self.stats.collections_performed
            < usize::MAX
    }

    /// The root count of the record `p`, or nothing if `p` is not live.
    pub fn roots(&self, p: GcPointer) -> (roots: Option<usize>)
        ensures
            roots is Some == self@.live(p),
            roots is Some ==> roots->0 == self@.records[p].roots,
    {
        if p < self.boxes.len() {
            match &self.boxes[p] {
                Some(b) => Some(b.header.roots()),
                None => None,
            }
        } else {
            None
        }
    }

    /// The value of the record `p`, or nothing if `p` is not live.
    pub fn get(&self, p: GcPointer) -> (value: Option<&T>)
        ensures
            value is Some == self@.live(p),
            value is Some ==> *value->0 == self@.records[p].data,
    {
        if p < self.boxes.len() {
            match &self.boxes[p] {
                Some(b) => Some(b.value()),
                None => None,
            }
        } else {
            None
        }
    }

    /// Puts `data` in place of the value of the live record `p` and gives
    /// the former value back.
    pub fn replace(&mut self, p: GcPointer, data: T) -> (former: T)
        requires
            old(self).wf(),
            old(self)@.live(p),
        ensures
            final(self).wf(),
            final(self)@ == old(self)@.store(p, data),
            former == old(self)@.records[p].data,
    {
        let ghost stored = data;
        let mut value = data;
        match &mut self.boxes[p] {
            Some(b) => {
                core::mem::swap(&mut b.data, &mut value);
            },
            None => {},
        }
        proof {
            assert(self.boxes@.len() == old(self).boxes@.len());
            assert(forall|q: int|
                0 <= q < self.boxes@.len() && q != p ==> self.boxes@[q] == old(self).boxes@[q]);
            assert(self@.records =~= old(self)@.store(p, stored).records);
            assert(self@.records.dom() =~= old(self)@.records.dom());
        }
        value
    }

    /// Adds one root to the live record `p`: a new strong handle refers to
    /// it. The count must have room.
    pub fn root(&mut self, p: GcPointer)
        requires
            old(self).wf(),
            old(self)@.live(p),
            old(self)@.records[p].roots < ROOTS_MAX,
        ensures
            final(self).wf(),
            final(self)@ == old(self)@.root(p),
    {
        self.root_at(p);
    }

    /// Takes one root from the live record `p`: a strong handle to it is
    /// given up. The record must have a root to give.
    pub fn unroot(&mut self, p: GcPointer)
        requires
            old(self).wf(),
            old(self)@.live(p),
            old(self)@.records[p].roots > 0,
        ensures
            final(self).wf(),
            final(self)@ == old(self)@.unroot(p),
    {
        match &mut self.boxes[p] {
            Some(b) => {
                b.unroot_inner();
            },
            None => {},
        }
        proof {
            assert(self.boxes@.len() == old(self).boxes@.len());
            assert(forall|q: int|
                0 <= q < self.boxes@.len() && q != p ==> self.boxes@[q] == old(self).boxes@[q]);
            assert(self@.records =~= old(self)@.unroot(p).records);
            assert(self@.records.dom() =~= old(self)@.records.dom());
        }
    }

    /// Hands over the root references that finalizers asked for and nobody
    /// has taken yet. Each entry stands for one root on the record it names.
    pub fn take_revived(&mut self) -> (revived: Vec<GcPointer>)
        requires
            old(self).wf(),
        ensures
            final(self).wf(),
            revived@ == old(self)@.revived,
            final(self)@ == (Heap { revived: Seq::empty(), ..old(self)@ }),
    {
        let mut revived: Vec<GcPointer> = Vec::new();
        core::mem::swap(&mut self.revived, &mut revived);
        revived
    }
}

impl<T: Trace + 'static> GcState<T> {
    /// Marks the record `p` if it is live and has no mark yet, and then
    /// appends its children to `worklist`. Says whether it marked.
    fn trace_at(&mut self, p: GcPointer, worklist: &mut Vec<GcPointer>) -> (fresh: bool)
        requires
            old(self).sound(),
        ensures
            final(self).sound(),
            fresh == (old(self)@.live(p) && !old(self)@.records[p].marked),
            final(self)@ == (Heap {
                records: if fresh {
                    set_mark(old(self)@.records, p)
                } else {
                    old(self)@.records
                },
                ..old(self)@
            }),
            final(worklist)@ == if fresh {
                old(worklist)@ + old(self)@.records[p].data.children()
            } else {
                old(worklist)@
            },
    {
        if p >= self.boxes.len() {
            return false;
        }
        let fresh = match &mut self.boxes[p] {
            Some(b) => {
                let fresh = !b.header.is_marked();
                b.trace_inner(worklist);
                fresh
            },
            None => false,
        };
        proof {
            assert(self.boxes@.len() == old(self).boxes@.len());
            assert(forall|q: int| 0 <= q < self.boxes@.len() && q != p ==> self.boxes@[q] == old(self).boxes@[q]);
            assert(old(self).boxes@[p as int] is None ==> self.boxes@[p as int] is None);
            assert(self@.records =~= if fresh { set_mark(old(self)@.records, p) } else { old(self)@.records });
            assert(self@.records.dom() =~= old(self)@.records.dom());
        }
        fresh
    }

    /// Appends the ephemeron pairs that the live record `p` holds to `queue`.
    fn weak_trace_at(&self, p: GcPointer, queue: &mut Vec<(GcPointer, GcPointer)>)
        requires
            self@.live(p),
        ensures
            final(queue)@ == old(queue)@ + self@.records[p].data.ephemerons(),
    {
        self.boxes[p].as_ref().unwrap().weak_trace_inner(queue);
    }

    /// Marks through `worklist`: every live record without a mark that is
    /// reached is marked, its children are traced in their turn, and its
    /// ephemeron pairs join `queue`.
    fn drain(&mut self, worklist: Vec<GcPointer>, queue: &mut Vec<(GcPointer, GcPointer)>)
        requires
            old(self).sound(),
        ensures
            final(self).sound(),
            final(self)@ == old(self)@.with_records(
                drain(old(self)@.records, worklist@, old(queue)@).0,
            ),
            final(queue)@ == drain(old(self)@.records, worklist@, old(queue)@).1,
    {
        let ghost start = worklist@;
        let mut worklist = worklist;
        proof {
            self@.lemma_finite();
        }
        while worklist.len() > 0
            invariant
                self.sound(),
                self@.records.dom().finite(),
                self@ == old(self)@.with_records(self@.records),
                drain(self@.records, worklist@, queue@) == drain(
                    old(self)@.records,
                    start,
                    old(queue)@,
                ),
            decreases unmarked(self@.records).len(), worklist.len(),
        {
            let ghost before = self@.records;
            let p = worklist.pop().unwrap();
            let fresh = self.trace_at(p, &mut worklist);
            if fresh {
                self.weak_trace_at(p, queue);
                proof {
                    lemma_set_mark_unmarked(before, p);
                }
            }
        }
    }

    /// Marks the record `p` and everything that can be reached from it
    /// through records without a mark, and collects the ephemeron pairs
    /// found on the way into `queue`.
    fn mark_from(&mut self, p: GcPointer, queue: &mut Vec<(GcPointer, GcPointer)>)
        requires
            old(self).sound(),
        ensures
            final(self).sound(),
            final(self)@ == old(self)@.with_records(
                mark_from(old(self)@.records, p, old(queue)@).0,
            ),
            final(queue)@ == mark_from(old(self)@.records, p, old(queue)@).1,
    {
        if !self.is_live(p) {
            return ;
        }
        proof {
            self@.lemma_finite();
        }
        let mut worklist: Vec<GcPointer> = Vec::new();
        self.trace_at(p, &mut worklist);
        self.weak_trace_at(p, queue);
        assert(worklist@ =~= if old(self)@.records[p].marked {
            Seq::empty()
        } else {
            old(self)@.records[p].data.children()
        });
        self.drain(worklist, queue);
    }

    /// First pass of a mark phase: walks the chain and marks from every
    /// record that has a root.
    fn initial_mark_and_collect_ephemerons(&mut self, queue: &mut Vec<(GcPointer, GcPointer)>)
        requires
            old(self).sound(),
        ensures
            final(self).sound(),
            final(self)@ == old(self)@.with_records(
                mark_roots(old(self)@.records, old(self)@.chain, 0, old(queue)@).0,
            ),
            final(queue)@ == mark_roots(old(self)@.records, old(self)@.chain, 0, old(queue)@).1,
    {
        let mut mark_head = self.boxes_start;
        let ghost mut i: nat = 0;
        while mark_head.is_some()
            invariant
                self.sound(),
                self@ == old(self)@.with_records(self@.records),
                i <= self@.chain.len(),
                mark_head == (if i < self@.chain.len() {
                    Some(self@.chain[i as int])
                } else {
                    None
                }),
                mark_roots(self@.records, self@.chain, i, queue@) == mark_roots(
                    old(self)@.records,
                    old(self)@.chain,
                    0,
                    old(queue)@,
                ),
            decreases self@.chain.len() - i,
        {
            let node = mark_head.unwrap();
            assert(self@.chain[i as int] == node);
            assert(self@.live(node));
            if self.header_at(node).roots() > 0 {
                self.mark_from(node, queue);
            }
            mark_head = self.header_at(node).next();
            proof {
                i = i + 1;
            }
        }
    }

    /// Second pass of a mark phase: walks the queue of ephemeron pairs once.
    /// Where the key of a pair counts as reachable and the value is a live
    /// record without a mark, the value is marked and traced; pairs found on
    /// the way join the end of the queue and get their turn.
    fn process_ephemeron_queue(&mut self, queue: &mut Vec<(GcPointer, GcPointer)>)
        requires
            old(self).sound(),
        ensures
            final(self).sound(),
            final(self)@ == old(self)@.with_records(resolve(old(self)@.records, old(queue)@, 0)),
    {
        let mut idx: usize = 0;
        proof {
            self@.lemma_finite();
        }
        while idx < queue.len()
            invariant
                self.sound(),
                self@.records.dom().finite(),
                self@ == old(self)@.with_records(self@.records),
                resolve(self@.records, queue@, idx as nat) == resolve(
                    old(self)@.records,
                    old(queue)@,
                    0,
                ),
            decreases unmarked(self@.records).len(), queue.len() - idx,
        {
            let (key_ptr, value_ptr) = queue[idx];
            idx += 1;
            let key_marked = self.is_live(key_ptr) && (self.header_at(key_ptr).is_marked()
                || self.boxes[key_ptr].as_ref().unwrap().value().is_marked_ephemeron());
            assert(key_marked == key_reachable(self@.records, key_ptr));
            if key_marked && self.is_live(value_ptr) && !self.header_at(value_ptr).is_marked() {
                proof {
                    lemma_mark_from(self@.records, value_ptr, queue@);
                }
                self.mark_from(value_ptr, queue);
            }
        }
    }

    /// A mark phase: marks from every rooted record, then resolves the
    /// ephemeron pairs found on the way.
    fn mark(&mut self)
        requires
            old(self).sound(),
        ensures
            final(self).sound(),
            final(self)@ == old(self)@.mark(),
    {
        let mut ephemeron_queue: Vec<(GcPointer, GcPointer)> = Vec::new();
        self.initial_mark_and_collect_ephemerons(&mut ephemeron_queue);
        self.process_ephemeron_queue(&mut ephemeron_queue);
    }
}

/// `rest` is `chain` without the element at position `m`.
spec fn without(chain: Seq<GcPointer>, m: int, rest: Seq<GcPointer>) -> bool {
    &&& 0 <= m < chain.len()
    &&& rest.len() == chain.len() - 1
    &&& forall|i: int| 0 <= i < m ==> #[trigger] rest[i] == chain[i]
    &&& forall|i: int| m <= i < rest.len() ==> #[trigger] rest[i] == chain[i + 1]
}

/// Taking the record at position `m` out of the chain: once its place is
/// empty and the slot that pointed to it points to what followed it, the
/// links spell out the chain without it.
proof fn lemma_unlink_linked<T>(
    before: Seq<Option<Box<GcBox<T>>>>,
    after: Seq<Option<Box<GcBox<T>>>>,
    start: Option<GcPointer>,
    start_after: Option<GcPointer>,
    chain: Seq<GcPointer>,
    m: int,
    rest: Seq<GcPointer>,
)
    requires
        linked(before, start, chain),
        chain.no_duplicates(),
        without(chain, m, rest),
        after.len() == before.len(),
        forall|x: GcPointer|
            x < before.len() && x != chain[m] && Some(x) != incoming_at(chain, m) ==> after[x as int]
                == before[x as int],
        m > 0 ==> after[chain[m - 1] as int] is Some && after[chain[m - 1] as int]->0.link()
            == before[chain[m] as int]->0.link(),
        start_after == (if m == 0 {
            before[chain[m] as int]->0.link()
        } else {
            start
        }),
    ensures
        linked(after, start_after, rest),
{
    assert(chain[m] < before.len());
    assert forall|i: int| 0 <= i < rest.len() implies {
        &&& (#[trigger] rest[i]) < after.len()
        &&& after[rest[i] as int] is Some
        &&& after[rest[i] as int]->0.link() == (if i + 1 < rest.len() {
            Some(rest[i + 1])
        } else {
            None
        })
    } by {
        if i < m {
            assert(rest[i] == chain[i]);
            assert(chain[i] < before.len());
            assert(chain[i] != chain[m]);
            if i + 1 < m {
                assert(rest[i + 1] == chain[i + 1]);
                assert(chain[i] != chain[m - 1]);
                assert(after[chain[i] as int] == before[chain[i] as int]);
            } else {
                assert(i == m - 1);
                if i + 1 < rest.len() {
                    assert(rest[i + 1] == chain[m + 1]);
                }
            }
        } else {
            assert(rest[i] == chain[i + 1]);
            assert(chain[i + 1] < before.len());
            assert(chain[i + 1] != chain[m]);
            if m > 0 {
                assert(chain[i + 1] != chain[m - 1]);
            }
            assert(after[chain[i + 1] as int] == before[chain[i + 1] as int]);
            if i + 1 < rest.len() {
                assert(rest[i + 1] == chain[i + 2]);
            }
        }
    }
    if rest.len() > 0 {
        if m == 0 {
            assert(rest[0] == chain[1]);
        } else {
            assert(rest[0] == chain[0]);
        }
    }
}

/// Once the place of the record at position `m` of the chain is empty,
/// every occupied place belongs to a record of the chain without it.
proof fn lemma_unlink_occupied<T>(
    before: Seq<Option<Box<GcBox<T>>>>,
    after: Seq<Option<Box<GcBox<T>>>>,
    chain: Seq<GcPointer>,
    m: int,
    rest: Seq<GcPointer>,
)
    requires
        occupied(before, chain),
        without(chain, m, rest),
        after.len() == before.len(),
        after[chain[m] as int] is None,
        forall|x: GcPointer|
            x < before.len() && (#[trigger] after[x as int]) is Some ==> before[x as int] is Some,
    ensures
        occupied(after, rest),
{
    assert forall|x: GcPointer| x < after.len() && (#[trigger] after[x as int]) is Some implies rest.contains(
        x,
    ) by {
        assert(before[x as int] is Some);
        assert(chain.contains(x));
        let j = chain.index_of(x);
        assert(chain[j] == x);
        if j < m {
            assert(rest[j] == x);
        } else {
            assert(j != m);
            assert(rest[j - 1] == x);
        }
    }
}

impl<T> GcState<T> {
    /// Clears the mark of the live record `p`.
    fn unmark_at(&mut self, p: GcPointer)
        requires
            old(self).sound(),
            old(self)@.live(p),
        ensures
            final(self).sound(),
            final(self)@ == old(self)@.with_records(
                old(self)@.records.insert(
                    p,
                    Record { marked: false, ..old(self)@.records[p] },
                ),
            ),
    {
        match &mut self.boxes[p] {
            Some(b) => {
                b.header.unmark();
            },
            None => {},
        }
        proof {
            assert(self.boxes@.len() == old(self).boxes@.len());
            assert(forall|q: int|
                0 <= q < self.boxes@.len() && q != p ==> self.boxes@[q] == old(self).boxes@[q]);
            assert(self@.records =~= old(self)@.records.insert(
                p,
                Record { marked: false, ..old(self)@.records[p] },
            ));
            assert(self@.records.dom() =~= old(self)@.records.dom());
        }
    }

    /// Third step of a collection: walks the chain, clears the mark of each
    /// marked record and lists each record without a mark, with the slot
    /// that points to it.
    fn collect_unmarked_nodes(&mut self) -> (unmarked: Vec<Unmarked>)
        requires
            old(self).sound(),
        ensures
            final(self).sound(),
            final(self)@ == old(self)@.with_records(clear_marks(old(self)@.records)),
            final(self)@.no_marks(),
            unmarked@ == unmarked_nodes(
                old(self)@.records,
                old(self)@.chain,
                old(self)@.chain.len(),
            ),
    {
        let mut unmarked: Vec<Unmarked> = Vec::new();
        let mut unmark_head: Option<GcPointer> = None;
        let mut cursor = self.boxes_start;
        let ghost mut i: nat = 0;
        let ghost chain = self@.chain;
        while cursor.is_some()
            invariant
                self.sound(),
                chain == old(self)@.chain,
                self@ == old(self)@.with_records(self@.records),
                self@.records.dom() == old(self)@.records.dom(),
                i <= chain.len(),
                cursor == (if i < chain.len() {
                    Some(chain[i as int])
                } else {
                    None
                }),
                unmark_head == incoming_at(chain, i as int),
                unmarked@ == unmarked_nodes(old(self)@.records, chain, i),
                forall|j: int|
                    0 <= j < i ==> self@.records[#[trigger] chain[j]] == (Record {
                        marked: false,
                        ..old(self)@.records[chain[j]]
                    }),
                forall|j: int|
                    i <= j < chain.len() ==> self@.records[#[trigger] chain[j]] == old(
                        self,
                    )@.records[chain[j]],
            decreases chain.len() - i,
        {
            let node = cursor.unwrap();
            assert(chain[i as int] == node);
            assert(self@.live(node));
            if self.header_at(node).is_marked() {
                self.unmark_at(node);
            } else {
                unmarked.push(Unmarked { incoming: unmark_head, this: node });
            }
            unmark_head = Some(node);
            cursor = self.header_at(node).next();
            proof {
                assert forall|j: int| 0 <= j < i + 1 implies self@.records[#[trigger] chain[j]]
                    == (Record { marked: false, ..old(self)@.records[chain[j]] }) by {
                    if j < i {
                        assert(chain[j] != node);
                    }
                }
                assert forall|j: int| i + 1 <= j < chain.len() implies self@.records[#[trigger] chain[j]]
                    == old(self)@.records[chain[j]] by {
                    assert(chain[j] != node);
                }
                i = i + 1;
            }
        }
        proof {
            assert forall|p: GcPointer| self@.records.dom().contains(p) implies self@.records[p]
                == clear_marks(old(self)@.records)[p] by {
                let j = chain.index_of(p);
                assert(chain[j] == p);
            }
            assert(self@.records =~= clear_marks(old(self)@.records));
        }
        unmarked
    }

    /// Last step of a collection: walks the chain and clears the mark of
    /// each record, so that no mark outlives the collection.
    fn unmark_all(&mut self)
        requires
            old(self).sound(),
        ensures
            final(self).sound(),
            final(self)@ == old(self)@.with_records(clear_marks(old(self)@.records)),
            final(self)@.no_marks(),
    {
        let mut cursor = self.boxes_start;
        let ghost mut i: nat = 0;
        let ghost chain = self@.chain;
        while cursor.is_some()
            invariant
                self.sound(),
                chain == old(self)@.chain,
                self@ == old(self)@.with_records(self@.records),
                self@.records.dom() == old(self)@.records.dom(),
                i <= chain.len(),
                cursor == (if i < chain.len() {
                    Some(chain[i as int])
                } else {
                    None
                }),
                forall|j: int|
                    0 <= j < i ==> self@.records[#[trigger] chain[j]] == (Record {
                        marked: false,
                        ..old(self)@.records[chain[j]]
                    }),
                forall|j: int|
                    i <= j < chain.len() ==> self@.records[#[trigger] chain[j]] == old(
                        self,
                    )@.records[chain[j]],
            decreases chain.len() - i,
        {
            let node = cursor.unwrap();
            assert(chain[i as int] == node);
            assert(self@.live(node));
            if self.header_at(node).is_marked() {
                self.unmark_at(node);
            }
            cursor = self.header_at(node).next();
            proof {
                assert forall|j: int| 0 <= j < i + 1 implies self@.records[#[trigger] chain[j]]
                    == (Record { marked: false, ..old(self)@.records[chain[j]] }) by {
                    if j < i {
                        assert(chain[j] != node);
                    }
                }
                assert forall|j: int|
                    i + 1 <= j < chain.len() implies self@.records[#[trigger] chain[j]] == old(
                    self,
                )@.records[chain[j]] by {
                    assert(chain[j] != node);
                }
                i = i + 1;
            }
        }
        proof {
            assert forall|p: GcPointer| self@.records.dom().contains(p) implies self@.records[p]
                == clear_marks(old(self)@.records)[p] by {
                let j = chain.index_of(p);
                assert(chain[j] == p);
            }
            assert(self@.records =~= clear_marks(old(self)@.records));
        }
    }

    /// Adds one root to the live record `p`.
    fn root_at(&mut self, p: GcPointer)
        requires
            old(self).sound(),
            old(self)@.live(p),
            old(self)@.records[p].roots < ROOTS_MAX,
        ensures
            final(self).sound(),
            final(self)@ == old(self)@.with_records(
                old(self)@.records.insert(
                    p,
                    Record { roots: old(self)@.records[p].roots + 1, ..old(self)@.records[p] },
                ),
            ),
    {
        match &mut self.boxes[p] {
            Some(b) => {
                b.root_inner();
            },
            None => {},
        }
        proof {
            assert(self.boxes@.len() == old(self).boxes@.len());
            assert(forall|q: int|
                0 <= q < self.boxes@.len() && q != p ==> self.boxes@[q] == old(self).boxes@[q]);
            assert(self@.records =~= old(self)@.records.insert(
                p,
                Record { roots: old(self)@.records[p].roots + 1, ..old(self)@.records[p] },
            ));
            assert(self@.records.dom() =~= old(self)@.records.dom());
        }
    }

    /// Gives every requested record that is live and whose count has room
    /// one more root, and keeps the new root references for the host.
    fn revive(&mut self, requests: &Vec<GcPointer>)
        requires
            old(self).sound(),
        ensures
            final(self).sound(),
            final(self)@ == (Heap {
                records: revive(old(self)@.records, old(self)@.revived, requests@, 0).0,
                revived: revive(old(self)@.records, old(self)@.revived, requests@, 0).1,
                ..old(self)@
            }),
    {
        let mut i: usize = 0;
        while i < requests.len()
            invariant
                self.sound(),
                i <= requests.len(),
                self@ == (Heap { records: self@.records, revived: self@.revived, ..old(self)@ }),
                revive(self@.records, self@.revived, requests@, i as nat) == revive(
                    old(self)@.records,
                    old(self)@.revived,
                    requests@,
                    0,
                ),
            decreases requests.len() - i,
        {
            let p = requests[i];
            if self.is_live(p) && self.header_at(p).roots() < ROOTS_MAX {
                self.root_at(p);
                self.revived.push(p);
            }
            i += 1;
        }
    }

    /// Frees the live record `node.this`: empties its place in the table,
    /// takes its bytes off the counter and makes the slot that pointed to it
    /// point to what followed it.
    fn unlink(&mut self, node: Unmarked)
        requires
            old(self).structure(),
            old(self)@.sound(),
            old(self)@.live(node.this),
            node.incoming == incoming_at(
                old(self)@.chain,
                old(self)@.chain.index_of(node.this),
            ),
        ensures
            final(self).structure(),
            final(self).dropping == old(self).dropping,
            final(self)@ == old(self)@.free(node.this),
    {
        let ghost chain = self.chain@;
        let ghost m = chain.index_of(node.this);
        proof {
            assert(self@.chain.to_set().contains(node.this));
            assert(chain.contains(node.this));
            assert(chain[m] == node.this);
            assert(self@.stats.bytes_allocated >= record_size::<T>()) by {
                self@.lemma_free_sound(node.this);
            }
            lemma_remove_no_duplicates(chain, m);
        }
        let next = self.boxes[node.this].as_ref().unwrap().header.next();
        self.boxes.set(node.this, None);
        self.stats.bytes_allocated -= core::mem::size_of::<GcBox<T>>();
        match node.incoming {
            None => {
                self.boxes_start = next;
            },
            Some(q) => {
                assert(q == chain[m - 1]);
                assert(q != node.this);
                match &mut self.boxes[q] {
                    Some(b) => {
                        b.header.set_next(next);
                    },
                    None => {},
                }
            },
        }
        proof {
            self.chain@ = chain.remove(m);
            let before = old(self).boxes@;
            assert(self.boxes@.len() == before.len());
            assert(forall|x: GcPointer|
                x < before.len() && x != node.this && Some(x) != node.incoming ==> self.boxes@[x as int]
                    == before[x as int]);
            assert(self.boxes@[node.this as int] is None);
            if m > 0 {
                let q = chain[m - 1];
                assert(self.boxes@[q as int] is Some);
                assert(self.boxes@[q as int]->0@ == before[q as int]->0@);
                assert(self.boxes@[q as int]->0.link() == next);
            }
            assert(chain[m] < before.len());
            assert(without(chain, m, self.chain@));
            lemma_unlink_linked(
                before,
                self.boxes@,
                old(self).boxes_start,
                self.boxes_start,
                chain,
                m,
                self.chain@,
            );
            lemma_unlink_occupied(before, self.boxes@, chain, m, self.chain@);
            assert(self@.records =~= old(self)@.records.remove(node.this));
        }
    }

    /// The sweep of a collection: visits the listed records from the last
    /// to the first, passes over those that have a mark by now, and frees
    /// every other.
    ///
    /// Going from the last to the first, the slot that points to a record is
    /// still in place when the record's turn comes: it belongs to the chain
    /// head or to a record that stands earlier in the chain.
    fn sweep(&mut self, finalized: Vec<Unmarked>)
        requires
            old(self).sound(),
            slots_ok(old(self)@.chain, finalized@),
        ensures
            final(self).sound(),
            final(self)@ == old(self)@.sweep(finalized@),
    {
        self.dropping = true;
        let mut k: usize = finalized.len();
        assert(finalized@.take(k as int) =~= finalized@);
        while k > 0
            invariant
                self.structure(),
                self.dropping,
                self@.sound(),
                k <= finalized.len(),
                slots_ok(self@.chain, finalized@.take(k as int)),
                self@.sweep(finalized@.take(k as int)) == old(self)@.sweep(finalized@),
            decreases k,
        {
            let ghost list = finalized@.take(k as int);
            let ghost before = self@;
            k -= 1;
            let node = finalized[k];
            proof {
                assert(list.last() == node);
                assert(list.drop_last() =~= finalized@.take(k as int));
                lemma_slots_after_remove(before.chain, list);
                assert(before.chain.to_set().contains(node.this));
            }
            if !self.header_at(node.this).is_marked() {
                self.unlink(node);
                proof {
                    before.lemma_free_sound(node.this);
                }
            }
            assert(before.sweep(list) == self@.sweep(list.drop_last()));
        }
        self.dropping = false;
    }

    /// Raises the threshold where the bytes in use are more than the
    /// configured share of it: to the bytes in use divided by the ratio.
    fn back_off(&mut self)
        requires
            old(self).sound(),
        ensures
            final(self).sound(),
            final(self)@ == old(self)@.back_off(),
    {
        let bytes = self.stats.bytes_allocated as u128;
        let percent = self.config.used_space_percent as u128;
        let threshold = self.config.threshold as u128;
        assert(threshold * percent <= u128::MAX) by (nonlinear_arith)
            requires
                threshold <= 0xffff_ffff_ffff_ffff,
                percent <= 0xffff_ffff_ffff_ffff,
        ;
        if bytes * 100 > threshold * percent {
            let raised = if percent == 0 {
                usize::MAX
            } else {
                let quotient = bytes * 100 / percent;
                if quotient > usize::MAX as u128 {
                    usize::MAX
                } else {
                    quotient as usize
                }
            };
            self.config.threshold = raised;
        }
    }
}

impl<T: Trace + 'static> GcState<T> {
    /// The first half of a collection: counts the collection, marks what
    /// the roots reach, clears the marks again and lists the records that
    /// were left without one, each with the slot that points to it.
    /// Nothing is finalized or freed.
    pub fn condemn(&mut self) -> (unmarked: Vec<Unmarked>)
        requires
            old(self).wf(),
            old(self)@.stats.collections_performed < usize::MAX,
        ensures
            final(self).wf(),
            final(self)@ == old(self)@.condemn(),
            unmarked@ == old(self)@.condemned(),
            slots_ok(final(self)@.chain, unmarked@),
            forall|k: int| 0 <= k < unmarked@.len() ==> final(self)@.live((#[trigger] unmarked@[k]).this),
    {
        self.stats.collections_performed += 1;
        self.mark();
        let unmarked = self.collect_unmarked_nodes();
        proof {
            lemma_unmarked_nodes(old(self)@.mark().records, self@.chain, self@.chain.len());
            assert(self@.records.dom() =~= old(self)@.records.dom());
        }
        unmarked
    }

    /// Runs the finalizer of every listed record, once each and in the
    /// order of the list, and gives back what the finalizers asked to be
    /// kept alive: the first finalizer is handed an empty list, each later
    /// one what the one before it left, and the last one's list is the
    /// result. Each is handed this heap to read, sound and without a mark.
    /// Nothing has been freed yet, and no record is changed.
    pub fn finalize(&mut self, unmarked: &Vec<Unmarked>) -> (requests: Vec<GcPointer>)
        requires
            old(self).wf(),
            forall|k: int|
                0 <= k < unmarked@.len() ==> old(self)@.live((#[trigger] unmarked@[k]).this),
        ensures
            final(self).wf(),
            final(self)@ == old(self)@.finalize(unmarked@),
            finalizers_leave(old(self)@.records, unmarked@, Seq::empty(), requests@),
            forall|i: int|
                0 <= i < requests@.len() ==> asked(
                    old(self)@.records,
                    unmarked@,
                    #[trigger] requests@[i],
                ),
    {
        let mut requests: Vec<GcPointer> = Vec::new();
        let mut k: usize = 0;
        assert(unmarked@.take(0) =~= Seq::empty());
        while k < unmarked.len()
            invariant
                self.wf(),
                k <= unmarked.len(),
                finalizers_leave(
                    old(self)@.records,
                    unmarked@.take(k as int),
                    Seq::empty(),
                    requests@,
                ),
                forall|i: int|
                    0 <= i < requests@.len() ==> asked(
                        old(self)@.records,
                        unmarked@.take(k as int),
                        #[trigger] requests@[i],
                    ),
                forall|k: int|
                    0 <= k < unmarked@.len() ==> self@.live((#[trigger] unmarked@[k]).this),
                self@ == old(self)@.finalize(unmarked@.take(k as int)),
            decreases unmarked.len() - k,
        {
            let node = unmarked[k];
            assert(self@.live(unmarked@[k as int].this));
            let ghost before = requests@;
            self.boxes[node.this].as_ref().unwrap().value().finalize_glue(&*self, &mut requests);
            proof {
                assert(unmarked@.take(k + 1).drop_last() =~= unmarked@.take(k as int));
                assert(unmarked@.take(k + 1).last() == node);
                assert(finalizers_leave(
                    old(self)@.records,
                    unmarked@.take(k + 1).drop_last(),
                    Seq::empty(),
                    before,
                ) && old(self)@.records[unmarked@.take(k + 1).last().this].data.finalizes(
                    before,
                    requests@,
                ));
                assert forall|i: int| 0 <= i < requests@.len() implies asked(
                    old(self)@.records,
                    unmarked@.take(k + 1),
                    #[trigger] requests@[i],
                ) by {
                    if before.contains(requests@[i]) {
                        let m = before.index_of(requests@[i]);
                        assert(before[m] == requests@[i]);
                        let j = choose|j: int|
                            0 <= j < unmarked@.take(k as int).len() && old(
                                self,
                            )@.records.dom().contains((#[trigger] unmarked@.take(k as int)[j]).this)
                                && old(self)@.records[unmarked@.take(
                                k as int,
                            )[j].this].data.may_revive(requests@[i]);
                        assert(unmarked@.take(k + 1)[j] == unmarked@.take(k as int)[j]);
                    } else {
                        assert(unmarked@.take(k + 1)[k as int] == node);
                    }
                }
                self.finalized@ = self.finalized@.push(node.this);
                let log = |node: Unmarked| node.this;
                assert(unmarked@.take(k + 1).map_values(log) =~= unmarked@.take(
                    k as int,
                ).map_values(log).push(node.this));
                assert(self@.finalized =~= old(self)@.finalized + unmarked@.take(k + 1).map_values(
                    log,
                ));
            }
            k += 1;
        }
        assert(unmarked@.take(k as int) =~= unmarked@);
        requests
    }

    /// The second half of a collection, for a heap whose marks are clear:
    /// takes the roots that the finalizers asked for, marks the heap again,
    /// frees the listed records that still have no mark, and clears the
    /// marks of the records that stay. A listed record that a finalizer
    /// brought back to life stays.
    pub fn finish(&mut self, unmarked: Vec<Unmarked>, requests: &Vec<GcPointer>)
        requires
            old(self).wf(),
            slots_ok(old(self)@.chain, unmarked@),
        ensures
            final(self).wf(),
            final(self)@ == old(self)@.finish(unmarked@, requests@),
            final(self)@.no_marks(),
    {
        self.revive(requests);
        self.mark();
        self.sweep(unmarked);
        self.unmark_all();
    }
}

/// Collects garbage: marks what the roots reach, lists the rest, finalizes
/// it, marks again, frees what is still without a mark, and clears the
/// marks.
fn collect_garbage<T: Trace + 'static>(st: &mut GcState<T>)
    requires
        old(st).wf(),
        old(st)@.stats.collections_performed < usize::MAX,
    ensures
        final(st).wf(),
        final(st)@.no_marks(),
        exists|requests: Seq<GcPointer>|
            old(st)@.permits(requests) && final(st)@ == #[trigger] old(st)@.collect(requests),
{
    let unmarked = st.condemn();
    if unmarked.len() == 0 {
        assert(old(st)@.permits(Seq::empty()) && st@ == old(st)@.collect(Seq::empty()));
        return ;
    }
    let ghost condemned = st@;
    let requests = st.finalize(&unmarked);
    proof {
        old(st)@.lemma_mark();
        assert forall|k: int| 0 <= k < unmarked@.len() implies old(st)@.records[(
        #[trigger] unmarked@[k]).this].data == condemned.records[unmarked@[k].this].data by {
            assert(condemned.live(unmarked@[k].this));
            assert(old(st)@.mark().records.dom().contains(unmarked@[k].this));
            assert(old(st)@.records.dom().contains(unmarked@[k].this));
        }
        lemma_finalizers_leave_by_values(
            condemned.records,
            old(st)@.records,
            unmarked@,
            Seq::empty(),
            requests@,
        );
        assert forall|i: int| 0 <= i < requests@.len() implies asked(
            old(st)@.records,
            old(st)@.condemned(),
            #[trigger] requests@[i],
        ) by {
            let k = choose|k: int|
                0 <= k < unmarked@.len() && st@.records.dom().contains((#[trigger] unmarked@[k]).this)
                    && st@.records[unmarked@[k].this].data.may_revive(requests@[i]);
            assert(old(st)@.mark().records.dom().contains(unmarked@[k].this));
            assert(old(st)@.records.dom().contains(unmarked@[k].this));
        }
    }
    st.finish(unmarked, &requests);
    assert(old(st)@.permits(requests@) && st@ == old(st)@.collect(requests@));
}

/// Adds a record to the heap, at the head of the chain, and counts its
/// bytes. Where the bytes in use then exceed the threshold, a collection
/// runs before the record's number is handed back; where the heap is still
/// crowded after it, the threshold is raised, so that a heap that grows
/// does not collect on every allocation.
fn insert_gcbox<T: Trace + 'static>(st: &mut GcState<T>, gcbox: GcBox<T>) -> (ptr: GcPointer)
    requires
        old(st).wf(),
        !gcbox@.marked,
        old(st)@.stats.bytes_allocated + record_size::<T>() <= usize::MAX,
        old(st)@.stats.collections_performed < usize::MAX,
    ensures
        final(st).wf(),
        ptr == old(st)@.issued,
        exists|requests: Seq<GcPointer>|
            old(st)@.allocation_permits(gcbox@, requests) && final(st)@ == #[trigger] old(st)@.insert(
                gcbox@,
                requests,
            ),
{
    let ptr = st.boxes.len();
    let ghost record = gcbox@;
    let mut linked_box = gcbox;
    linked_box.header.set_next(st.boxes_start);
    proof {
        linked_box.header.lemma_count_bounded();
        assert(linked_box@ == record);
        old(st)@.lemma_link_sound(record);
    }
    st.boxes.push(Some(Box::new(linked_box)));
    st.boxes_start = Some(ptr);
    st.stats.bytes_allocated += core::mem::size_of::<GcBox<T>>();
    proof {
        let chain = st.chain@;
        st.chain@ = seq![ptr] + chain;
        let after = st.chain@;
        assert forall|i: int| 0 <= i < after.len() implies {
            &&& (#[trigger] after[i]) < st.boxes@.len()
            &&& st.boxes@[after[i] as int] is Some
            &&& st.boxes@[after[i] as int]->0.link() == (if i + 1 < after.len() {
                Some(after[i + 1])
            } else {
                None
            })
        } by {
            if i > 0 {
                assert(after[i] == chain[i - 1]);
                assert(st.boxes@[chain[i - 1] as int] == old(st).boxes@[chain[i - 1] as int]);
                if i + 1 < after.len() {
                    assert(after[i + 1] == chain[i]);
                }
            } else {
                if after.len() > 1 {
                    assert(after[1] == chain[0]);
                }
            }
        }
        assert forall|x: GcPointer|
            x < st.boxes@.len() && (#[trigger] st.boxes@[x as int]) is Some implies after.contains(
            x,
        ) by {
            if x == ptr {
                assert(after[0] == x);
            } else {
                assert(old(st).boxes@[x as int] is Some);
                assert(chain.contains(x));
                let j = chain.index_of(x);
                assert(chain[j] == x);
                assert(after[j + 1] == x);
            }
        }
        assert(st@.records =~= old(st)@.records.insert(ptr, record));
        assert(st@ == old(st)@.link(record));
    }
    if st.stats.bytes_allocated > st.config.threshold {
        let ghost linked = st@;
        collect_garbage(st);
        let ghost requests = choose|requests: Seq<GcPointer>|
            linked.permits(requests) && st@ == #[trigger] linked.collect(requests);
        st.back_off();
        assert(old(st)@.allocation_permits(record, requests) && st@ == old(st)@.insert(
            record,
            requests,
        ));
    } else {
        assert(old(st)@.allocation_permits(record, Seq::empty()) && st@ == old(st)@.insert(
            record,
            Seq::empty(),
        ));
    }
    ptr
}

impl<T: Trace + 'static> GcBox<T> {
    /// Allocates a record for `data` and adds it to the chain of `st`,
    /// which may run a collection. A standard record starts its life with
    /// one root, an ephemeron-value record with none.
    pub fn new(st: &mut GcState<T>, data: T, box_type: GcBoxType) -> (ptr: GcPointer)
        requires
            old(st).wf(),
            old(st)@.stats.bytes_allocated + record_size::<T>() <= usize::MAX,
            old(st)@.stats.collections_performed < usize::MAX,
        ensures
            final(st).wf(),
            ptr == old(st)@.issued,
            exists|requests: Seq<GcPointer>|
                old(st)@.allocation_permits(fresh_record(data, box_type), requests) && final(st)@
                    == #[trigger] old(st)@.insert(fresh_record(data, box_type), requests),
            box_type == GcBoxType::Standard ==> final(st)@.live(ptr) && final(st)@.records[ptr].data
                == data && final(st)@.records[ptr].roots >= 1 && !final(st)@.records[ptr].marked,
            final(st)@.no_marks(),
    {
        let header = match box_type {
            GcBoxType::Standard => GcBoxHeader::new(),
            GcBoxType::Ephemeron => GcBoxHeader::new_ephemeron(None),
        };
        let gcbox = GcBox { header, data };
        assert(gcbox@ == fresh_record(data, box_type));
        let ptr = insert_gcbox(st, gcbox);
        proof {
            let requests = choose|requests: Seq<GcPointer>|
                old(st)@.allocation_permits(fresh_record(data, box_type), requests) && st@
                    == #[trigger] old(st)@.insert(fresh_record(data, box_type), requests);
            crate::header::lemma_roots_max();
            old(st)@.lemma_insert(fresh_record(data, box_type), requests);
        }
        ptr
    }

    /// Moves the value out of `value` into a new standard record and adds
    /// the record to the chain of `st`, which may run a collection.
    pub fn from_box(st: &mut GcState<T>, value: Box<T>) -> (ptr: GcPointer)
        requires
            old(st).wf(),
            old(st)@.stats.bytes_allocated + record_size::<T>() <= usize::MAX,
            old(st)@.stats.collections_performed < usize::MAX,
        ensures
            final(st).wf(),
            ptr == old(st)@.issued,
            exists|requests: Seq<GcPointer>|
                old(st)@.allocation_permits(fresh_record(*value, GcBoxType::Standard), requests)
                    && final(st)@ == #[trigger] old(st)@.insert(
                    fresh_record(*value, GcBoxType::Standard),
                    requests,
                ),
            final(st)@.live(ptr),
            final(st)@.records[ptr].data == *value,
            final(st)@.records[ptr].roots >= 1,
    {
        GcBox::new(st, *value, GcBoxType::Standard)
    }

    /// Whether two numbers name the same record.
    pub fn ptr_eq(this: GcPointer, other: GcPointer) -> (same: bool)
        ensures
            same == (this == other),
    {
        this == other
    }
}

impl GcBoxHeader {
    /// Whether the record `ptr` is a member of the chain of `st`: whether
    /// it was allocated there and has not been swept since.
    pub fn is_alive<T>(st: &GcState<T>, ptr: GcPointer) -> (alive: bool)
        requires
            st.wf(),
        ensures
            alive == st@.chain.contains(ptr),
            alive == st@.live(ptr),
    {
        proof {
            assert(st@.chain.to_set().contains(ptr) == st@.chain.contains(ptr));
        }
        st.is_live(ptr)
    }
}

/// Runs one full collection on the heap, now: marks what the roots reach,
/// finalizes what is left, marks again, reclaims what is still unreachable,
/// and clears every mark.
///
/// Whatever the finalizers ask for, no record with a root is reclaimed, and
/// no record is added or changed in its value. No mark is left behind.
pub fn force_collect<T: Trace + 'static>(st: &mut GcState<T>)
    requires
        old(st).wf(),
        old(st)@.stats.collections_performed < usize::MAX,
    ensures
        final(st).wf(),
        exists|requests: Seq<GcPointer>|
            old(st)@.permits(requests) && final(st)@ == #[trigger] old(st)@.collect(requests),
        final(st)@.no_marks(),
        final(st)@.stats.collections_performed == old(st)@.stats.collections_performed + 1,
        final(st)@.config == old(st)@.config,
        final(st)@.issued == old(st)@.issued,
        forall|p: GcPointer| #[trigger] old(st)@.rooted(p) ==> final(st)@.live(p),
        forall|p: GcPointer|
            #![trigger final(st)@.records.dom().contains(p)]
            final(st)@.live(p) ==> old(st)@.live(p) && final(st)@.records[p].data
                == old(st)@.records[p].data && final(st)@.records[p].roots
                >= old(st)@.records[p].roots,
{
    collect_garbage(st);
    proof {
        let requests = choose|requests: Seq<GcPointer>|
            old(st)@.permits(requests) && st@ == #[trigger] old(st)@.collect(requests);
        old(st)@.lemma_collect(requests);
    }
}

/// Whether no sweep is under way on `st`, so that finalizers and handles
/// may read the values of its records.
#[must_use]
pub fn finalizer_safe<T>(st: &GcState<T>) -> (safe: bool)
    ensures
        safe == !st.sweeping(),
        st.wf() ==> safe,
{
    !st.dropping
}

/// Changes the configuration of `st` by `configurer`: the new
/// configuration is what `configurer` gives for the current one.
pub fn configure<T, F: FnOnce(GcConfig) -> GcConfig>(st: &mut GcState<T>, configurer: F)
    requires
        old(st).wf(),
        call_requires(configurer, (old(st)@.config,)),
    ensures
        final(st).wf(),
        call_ensures(configurer, (old(st)@.config,), final(st)@.config),
        final(st)@ == (Heap { config: final(st)@.config, ..old(st)@ }),
{
    let config = configurer(st.config);
    st.config = config;
}

/// The statistics of `st`: bytes in use and collections run.
#[must_use]
pub fn stats<T>(st: &GcState<T>) -> (stats: GcStats)
    ensures
        stats == st@.stats,
{
    st.stats
}

/// Forgets `st` without running any destructor.
///
/// Calls `std::mem::forget`, which takes ownership of a value and lets go of
/// it without dropping it. Nothing is claimed of it.
#[verifier::external_body]
fn abandon<T>(st: GcState<T>) {
    std::mem::forget(st)
}

/// The last act of a heap at the end of its execution context: one last
/// collection, unless the configuration says to leak; then nothing is
/// touched, no finalizer runs and no collection is counted.
pub fn last_collection<T: Trace + 'static>(st: &mut GcState<T>)
    requires
        old(st).wf(),
        old(st)@.stats.collections_performed < usize::MAX,
    ensures
        final(st).wf(),
        old(st)@.config.leak_on_drop ==> final(st)@ == old(st)@,
        !old(st)@.config.leak_on_drop ==> exists|requests: Seq<GcPointer>|
            old(st)@.permits(requests) && final(st)@ == #[trigger] old(st)@.collect(requests),
{
    if !st.config.leak_on_drop {
        collect_garbage(st);
    }
}

/// Ends the life of the heap at the end of its execution context: runs the
/// last collection unless the configuration says to leak, and then
/// abandons the records that are still linked, without finalizing or
/// dropping them. Gives back the last statistics.
pub fn teardown<T: Trace + 'static>(st: GcState<T>) -> (stats: GcStats)
    requires
        st.wf(),
        st@.stats.collections_performed < usize::MAX,
    ensures
        st@.config.leak_on_drop ==> stats == st@.stats,
        !st@.config.leak_on_drop ==> exists|requests: Seq<GcPointer>|
            st@.permits(requests) && stats == (#[trigger] st@.collect(requests)).stats,
{
    let mut st = st;
    last_collection(&mut st);
    let stats = st.stats;
    abandon(st);
    stats
}

} // verus!
