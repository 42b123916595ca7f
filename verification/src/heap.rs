//! The heap as the collector sees it, and what each step of a collection
//! and of an allocation makes of it.

use crate::facts::{lemma_mark_from, lemma_set_mark_unmarked};
use crate::gc::{GcBox, GcConfig, GcStats};
use crate::header::{GcPointer, ROOTS_MAX};
use crate::trace::Trace;
use vstd::prelude::*;

verus! {

/// The bytes one record of payload type `T` takes: header and value together.
pub open spec fn record_size<T>() -> nat {
    vstd::layout::size_of::<GcBox<T>>()
}

/// What a record is to the collector: its root count, its mark flag and the
/// value it stores.
pub struct Record<T> {
    pub roots: nat,
    pub marked: bool,
    pub data: T,
}

/// A record that a mark phase left without a mark, and the slot that points
/// to it: the head of the chain (`None`) or the link of the record before it.
#[derive(Clone, Copy)]
pub struct Unmarked {
    pub incoming: Option<GcPointer>,
    pub this: GcPointer,
}

/// The heap of one execution context as the collector sees it.
pub struct Heap<T> {
    /// The live records in chain order, the newest first.
    pub chain: Seq<GcPointer>,
    /// What each live record holds.
    pub records: Map<GcPointer, Record<T>>,
    /// How many records were ever allocated. The next one gets this number.
    pub issued: nat,
    /// Bytes in use and collections run.
    pub stats: GcStats,
    /// When a collection is triggered.
    pub config: GcConfig,
    /// The root references that finalizers asked for and nobody has taken yet.
    pub revived: Seq<GcPointer>,
    /// The records whose finalizer has run, in the order of the runs, since
    /// the heap was made. A record that came back to life and was condemned
    /// again is listed again.
    pub finalized: Seq<GcPointer>,
}

impl<T> Heap<T> {
    /// Whether `p` is a member of the chain.
    pub open spec fn live(self, p: GcPointer) -> bool {
        self.records.dom().contains(p)
    }

    /// Whether `p` is a live record with its mark flag set.
    pub open spec fn marked(self, p: GcPointer) -> bool {
        self.records.dom().contains(p) && self.records[p].marked
    }

    /// Whether `p` is a live record that some strong handle refers to.
    pub open spec fn rooted(self, p: GcPointer) -> bool {
        self.records.dom().contains(p) && self.records[p].roots > 0
    }

    /// Whether no live record has its mark flag set, as it is between
    /// collections: a mark lasts no longer than the collection that set it.
    pub open spec fn no_marks(self) -> bool {
        forall|p: GcPointer| #[trigger] self.records.dom().contains(p) ==> !self.records[p].marked
    }

    /// The heap as it is between collections: sound, and without a mark.
    pub open spec fn wf(self) -> bool {
        self.sound() && self.no_marks()
    }

    /// The chain and the records agree, no number is used twice or ahead of
    /// its time, no count is out of range, and the byte counter is exact.
    /// This holds in the middle of a collection too.
    pub open spec fn sound(self) -> bool {
        &&& self.chain.no_duplicates()
        &&& self.records.dom() == self.chain.to_set()
        &&& forall|p: GcPointer| #[trigger] self.records.dom().contains(p) ==> p < self.issued
        &&& forall|p: GcPointer| #[trigger]
            self.records.dom().contains(p) ==> self.records[p].roots <= ROOTS_MAX
        &&& self.stats.bytes_allocated == self.chain.len() * record_size::<T>()
    }

    /// This heap with other records in place of its own.
    pub open spec fn with_records(self, records: Map<GcPointer, Record<T>>) -> Self {
        Heap { records, ..self }
    }

    /// This heap with one more root on the live record `p`.
    pub open spec fn root(self, p: GcPointer) -> Self {
        self.with_records(
            self.records.insert(
                p,
                Record { roots: self.records[p].roots + 1, ..self.records[p] },
            ),
        )
    }

    /// This heap with one root less on the live record `p`.
    pub open spec fn unroot(self, p: GcPointer) -> Self {
        self.with_records(
            self.records.insert(
                p,
                Record { roots: (self.records[p].roots - 1) as nat, ..self.records[p] },
            ),
        )
    }

    /// This heap with `data` as the value of the live record `p`.
    pub open spec fn store(self, p: GcPointer, data: T) -> Self {
        self.with_records(self.records.insert(p, Record { data, ..self.records[p] }))
    }

    /// This heap with one more record at the head of the chain. The record
    /// gets the next number, and its bytes join the counter.
    pub open spec fn link(self, record: Record<T>) -> Self {
        Heap {
            chain: seq![self.issued as GcPointer] + self.chain,
            records: self.records.insert(self.issued as GcPointer, record),
            issued: self.issued + 1,
            stats: GcStats {
                bytes_allocated: (self.stats.bytes_allocated + record_size::<T>()) as usize,
                ..self.stats
            },
            ..self
        }
    }

    /// Whether the bytes in use are more than the configured share of the
    /// threshold.
    pub open spec fn crowded(self) -> bool {
        self.stats.bytes_allocated * 100 > self.config.threshold * self.config.used_space_percent
    }

    /// The threshold of which the bytes in use are just the configured
    /// share: the bytes in use divided by the ratio, rounded down, and no
    /// more than a `usize` holds.
    pub open spec fn raised_threshold(self) -> usize {
        if self.config.used_space_percent == 0 {
            usize::MAX
        } else if self.stats.bytes_allocated * 100 / (self.config.used_space_percent as int)
            > usize::MAX {
            usize::MAX
        } else {
            (self.stats.bytes_allocated * 100 / (self.config.used_space_percent as int)) as usize
        }
    }

    /// The back-off after a collection: where the heap is still crowded the
    /// threshold is raised.
    pub open spec fn back_off(self) -> Self {
        if self.crowded() {
            Heap { config: GcConfig { threshold: self.raised_threshold(), ..self.config }, ..self }
        } else {
            self
        }
    }

    /// This heap without the live record `p`: the record leaves the chain
    /// and its bytes leave the counter.
    pub open spec fn free(self, p: GcPointer) -> Self {
        Heap {
            chain: self.chain.remove(self.chain.index_of(p)),
            records: self.records.remove(p),
            stats: GcStats {
                bytes_allocated: (self.stats.bytes_allocated - record_size::<T>()) as usize,
                ..self.stats
            },
            ..self
        }
    }

    /// The sweep: the listed records are visited from the last to the
    /// first; one that is live and without a mark is freed, any other stays.
    pub open spec fn sweep(self, unmarked: Seq<Unmarked>) -> Self
        decreases unmarked.len(),
    {
        if unmarked.len() == 0 {
            self
        } else {
            let node = unmarked.last();
            let next = if self.live(node.this) && !self.records[node.this].marked {
                self.free(node.this)
            } else {
                self
            };
            next.sweep(unmarked.drop_last())
        }
    }

    /// This heap once the finalizers of the listed records have run, each
    /// once and in the order of the list.
    pub open spec fn finalize(self, unmarked: Seq<Unmarked>) -> Self {
        Heap { finalized: self.finalized + unmarked.map_values(|node: Unmarked| node.this), ..self }
    }
}

/// The live records that are not marked.
pub open spec fn unmarked<T>(records: Map<GcPointer, Record<T>>) -> Set<GcPointer> {
    records.dom().filter(|p: GcPointer| !records[p].marked)
}

/// `records` with the mark flag of the live record `p` set.
pub open spec fn set_mark<T>(records: Map<GcPointer, Record<T>>, p: GcPointer) -> Map<
    GcPointer,
    Record<T>,
> {
    records.insert(p, Record { roots: records[p].roots, marked: true, data: records[p].data })
}

/// Whether an ephemeron pair keyed by `k` is to be honoured: `k` is a live
/// record that this mark phase has marked, or whose value says that it is a
/// resolved ephemeron.
pub open spec fn key_reachable<T: Trace>(
    records: Map<GcPointer, Record<T>>,
    k: GcPointer,
) -> bool {
    records.dom().contains(k) && (records[k].marked || records[k].data.resolved_ephemeron())
}

/// Marking through a worklist: the last entry is taken off; if it is a live
/// record without a mark it is marked, its children join the worklist and
/// its ephemeron pairs join the queue. Gives the records and the queue once
/// the worklist is empty.
pub open spec fn drain<T: Trace>(
    records: Map<GcPointer, Record<T>>,
    worklist: Seq<GcPointer>,
    queue: Seq<(GcPointer, GcPointer)>,
) -> (Map<GcPointer, Record<T>>, Seq<(GcPointer, GcPointer)>)
    decreases unmarked(records).len(), worklist.len(),
    when records.dom().finite()
{
    if worklist.len() == 0 {
        (records, queue)
    } else {
        let p = worklist.last();
        let rest = worklist.drop_last();
        if records.dom().contains(p) && !records[p].marked {
            proof {
                lemma_set_mark_unmarked(records, p);
            }
            drain(
                set_mark(records, p),
                rest + records[p].data.children(),
                queue + records[p].data.ephemerons(),
            )
        } else {
            drain(records, rest, queue)
        }
    }
}

/// Marking from one record: if `p` is live and unmarked it is marked and its
/// children are traced; the ephemeron pairs of a live `p` join the queue
/// either way.
pub open spec fn mark_from<T: Trace>(
    records: Map<GcPointer, Record<T>>,
    p: GcPointer,
    queue: Seq<(GcPointer, GcPointer)>,
) -> (Map<GcPointer, Record<T>>, Seq<(GcPointer, GcPointer)>) {
    if !records.dom().contains(p) {
        (records, queue)
    } else if records[p].marked {
        (records, queue + records[p].data.ephemerons())
    } else {
        drain(set_mark(records, p), records[p].data.children(), queue + records[p].data.ephemerons())
    }
}

/// The first pass over the chain: marking from every rooted record, from
/// position `i` of the chain on.
pub open spec fn mark_roots<T: Trace>(
    records: Map<GcPointer, Record<T>>,
    chain: Seq<GcPointer>,
    i: nat,
    queue: Seq<(GcPointer, GcPointer)>,
) -> (Map<GcPointer, Record<T>>, Seq<(GcPointer, GcPointer)>)
    decreases chain.len() - i,
{
    if i >= chain.len() {
        (records, queue)
    } else if records.dom().contains(chain[i as int]) && records[chain[i as int]].roots > 0 {
        let (r, q) = mark_from(records, chain[i as int], queue);
        mark_roots(r, chain, i + 1, q)
    } else {
        mark_roots(records, chain, i + 1, queue)
    }
}

/// Ephemeron resolution: the queue is walked once by position, from `idx`
/// on. A pair whose key is reachable and whose value is a live unmarked
/// record has the value marked and traced, which may lengthen the queue.
pub open spec fn resolve<T: Trace>(
    records: Map<GcPointer, Record<T>>,
    queue: Seq<(GcPointer, GcPointer)>,
    idx: nat,
) -> Map<GcPointer, Record<T>>
    decreases unmarked(records).len(), queue.len() - idx,
    when records.dom().finite()
{
    if idx >= queue.len() {
        records
    } else {
        let (k, v) = queue[idx as int];
        if key_reachable(records, k) && records.dom().contains(v) && !records[v].marked {
            proof {
                lemma_mark_from(records, v, queue);
            }
            let (r, q) = mark_from(records, v, queue);
            resolve(r, q, idx + 1)
        } else {
            resolve(records, queue, idx + 1)
        }
    }
}

/// The whole mark phase: the pass over the rooted records of the chain,
/// then ephemeron resolution.
pub open spec fn mark_all<T: Trace>(
    records: Map<GcPointer, Record<T>>,
    chain: Seq<GcPointer>,
) -> Map<GcPointer, Record<T>> {
    let (r, q) = mark_roots(records, chain, 0, Seq::empty());
    resolve(r, q, 0)
}

/// `records` with every mark flag cleared.
pub open spec fn clear_marks<T>(records: Map<GcPointer, Record<T>>) -> Map<GcPointer, Record<T>> {
    Map::new(
        |p: GcPointer| records.dom().contains(p),
        |p: GcPointer| Record { roots: records[p].roots, marked: false, data: records[p].data },
    )
}

/// The slot that points to the record at position `i` of `chain`.
pub open spec fn incoming_at(chain: Seq<GcPointer>, i: int) -> Option<GcPointer> {
    if i == 0 {
        None
    } else {
        Some(chain[i - 1])
    }
}

/// The records without a mark among the first `n` of `chain`, in chain
/// order, each with the slot that points to it.
pub open spec fn unmarked_nodes<T>(
    records: Map<GcPointer, Record<T>>,
    chain: Seq<GcPointer>,
    n: nat,
) -> Seq<Unmarked>
    decreases n,
{
    if n == 0 || n > chain.len() {
        Seq::empty()
    } else {
        let rest = unmarked_nodes(records, chain, (n - 1) as nat);
        let p = chain[n - 1];
        if records.dom().contains(p) && !records[p].marked {
            rest.push(Unmarked { incoming: incoming_at(chain, n - 1), this: p })
        } else {
            rest
        }
    }
}

/// Whether `list` names the record `p`.
pub open spec fn names(list: Seq<Unmarked>, p: GcPointer) -> bool {
    exists|k: int| 0 <= k < list.len() && (#[trigger] list[k]).this == p
}

/// `list` names records of `chain` in chain order, each with the slot that
/// points to it in `chain`.
#[verifier::opaque]
pub open spec fn slots_ok(chain: Seq<GcPointer>, list: Seq<Unmarked>) -> bool {
    &&& forall|k: int|
        0 <= k < list.len() ==> {
            &&& chain.contains((#[trigger] list[k]).this)
            &&& list[k].incoming == incoming_at(chain, chain.index_of(list[k].this))
        }
    &&& forall|k1: int, k2: int|
        0 <= k1 < k2 < list.len() ==> chain.index_of((#[trigger] list[k1]).this) < chain.index_of(
            (#[trigger] list[k2]).this,
        )
}

/// Rooting on request, from position `i` of `requests` on: each request for
/// a live record whose count has room adds one root to it and one entry to
/// `revived`; any other request is passed over.
pub open spec fn revive<T>(
    records: Map<GcPointer, Record<T>>,
    revived: Seq<GcPointer>,
    requests: Seq<GcPointer>,
    i: nat,
) -> (Map<GcPointer, Record<T>>, Seq<GcPointer>)
    decreases requests.len() - i,
{
    if i >= requests.len() {
        (records, revived)
    } else {
        let p = requests[i as int];
        if records.dom().contains(p) && records[p].roots < ROOTS_MAX {
            revive(
                records.insert(
                    p,
                    Record {
                        roots: records[p].roots + 1,
                        marked: records[p].marked,
                        data: records[p].data,
                    },
                ),
                revived.push(p),
                requests,
                i + 1,
            )
        } else {
            revive(records, revived, requests, i + 1)
        }
    }
}

/// Whether the finalizer of one of the listed records may ask for the
/// record `p` to be kept alive.
pub open spec fn asked<T: Trace>(
    records: Map<GcPointer, Record<T>>,
    unmarked: Seq<Unmarked>,
    p: GcPointer,
) -> bool {
    exists|k: int|
        0 <= k < unmarked.len() && records.dom().contains((#[trigger] unmarked[k]).this)
            && records[unmarked[k].this].data.may_revive(p)
}

/// Whether the finalizers of the listed records, run once each and in the
/// order of the list, can turn the list `before` of records to keep alive
/// into the list `after`: each finalizer is handed what the one before it
/// left.
pub open spec fn finalizers_leave<T: Trace>(
    records: Map<GcPointer, Record<T>>,
    unmarked: Seq<Unmarked>,
    before: Seq<GcPointer>,
    after: Seq<GcPointer>,
) -> bool
    decreases unmarked.len(),
{
    if unmarked.len() == 0 {
        after == before
    } else {
        exists|between: Seq<GcPointer>|
            finalizers_leave(records, unmarked.drop_last(), before, between)
                && #[trigger] records[unmarked.last().this].data.finalizes(between, after)
    }
}

impl<T: Trace> Heap<T> {
    /// Whether `requests` is what the finalizers of the condemned records
    /// of this heap can leave, run once each in the order of the list and
    /// starting from an empty list, and holds nothing but what they may ask
    /// for. Where no record is condemned no finalizer runs, and `requests`
    /// is empty.
    pub open spec fn permits(self, requests: Seq<GcPointer>) -> bool {
        &&& finalizers_leave(self.records, self.condemned(), Seq::empty(), requests)
        &&& forall|i: int|
            0 <= i < requests.len() ==> asked(self.records, self.condemned(), #[trigger] requests[i])
    }

    /// This heap after a mark phase.
    pub open spec fn mark(self) -> Self {
        self.with_records(mark_all(self.records, self.chain))
    }

    /// The records that a mark phase on this heap leaves without a mark, in
    /// chain order: those that a collection finalizes.
    pub open spec fn condemned(self) -> Seq<Unmarked> {
        unmarked_nodes(self.mark().records, self.chain, self.chain.len())
    }

    /// The first half of a collection: the collection is counted, the heap
    /// is marked, and the marks are cleared again. What the mark phase left
    /// without a mark is `condemned`.
    pub open spec fn condemn(self) -> Self {
        Heap {
            records: clear_marks(self.mark().records),
            stats: GcStats {
                collections_performed: (self.stats.collections_performed + 1) as usize,
                ..self.stats
            },
            ..self
        }
    }

    /// The second half of a collection, on a heap whose marks are clear:
    /// the roots that the finalizers asked for are taken, the heap is marked
    /// again, the listed records that still have no mark are freed, and the
    /// marks of the records that stay are cleared.
    pub open spec fn finish(self, unmarked: Seq<Unmarked>, requests: Seq<GcPointer>) -> Self {
        let (records, revived) = revive(self.records, self.revived, requests, 0);
        let rooted = Heap { records, revived, ..self };
        let swept = rooted.mark().sweep(unmarked);
        swept.with_records(clear_marks(swept.records))
    }

    /// One collection. `requests` are the records that the finalizers of
    /// the condemned records asked to be kept alive; where no record is
    /// condemned no finalizer runs and `requests` plays no part.
    pub open spec fn collect(self, requests: Seq<GcPointer>) -> Self {
        if self.condemned().len() == 0 {
            self.condemn()
        } else {
            self.condemn().finalize(self.condemned()).finish(self.condemned(), requests)
        }
    }

    /// Whether `requests` is what the finalizers can leave in the
    /// collection that the allocation of `record` runs. Where the allocation
    /// runs none, `requests` is empty.
    pub open spec fn allocation_permits(self, record: Record<T>, requests: Seq<GcPointer>) -> bool {
        let linked = self.link(record);
        if linked.stats.bytes_allocated > linked.config.threshold {
            linked.permits(requests)
        } else {
            requests.len() == 0
        }
    }

    /// One allocation: the record is linked in at the head of the chain;
    /// where the bytes in use then exceed the threshold a collection runs,
    /// and the back-off after it.
    pub open spec fn insert(self, record: Record<T>, requests: Seq<GcPointer>) -> Self {
        let linked = self.link(record);
        if linked.stats.bytes_allocated > linked.config.threshold {
            linked.collect(requests).back_off()
        } else {
            linked
        }
    }
}

} // verus!
