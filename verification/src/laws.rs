//! What holds of every heap: what a collection keeps, what it reclaims,
//! what it finalizes, and how the threshold moves.

use crate::facts::{lemma_revive, lemma_unmarked_nodes};
use crate::gc::{fresh_record, GcConfig, GcStats};
use crate::header::{lemma_roots_max, GcBoxType, GcPointer, ROOTS_MAX};
use crate::heap::{
    asked, clear_marks, finalizers_leave, mark_all, mark_roots, names, record_size, revive,
    slots_ok, Heap, Record, Unmarked,
};
use crate::reach::{
    attainable, holds_child, holds_pair, is_path, lemma_mark_all_justified,
    lemma_mark_all_reaches, lemma_mark_all_sim, lemma_mark_roots_no_roots,
    lemma_mark_roots_skips, lemma_unmarked_nodes_none, lemma_within_cleared, marks_within,
    reaches, sim, within,
};
use crate::trace::Trace;
use vstd::prelude::*;

verus! {

/// No live record of `heap` has a root.
pub open spec fn no_roots<T>(heap: Heap<T>) -> bool {
    forall|p: GcPointer| #[trigger] heap.records.dom().contains(p) ==> heap.records[p].roots == 0
}

/// None of `requests` names a live record of `heap`: the finalizers bring
/// nothing back to life.
pub open spec fn idle<T>(heap: Heap<T>, requests: Seq<GcPointer>) -> bool {
    forall|i: int| 0 <= i < requests.len() ==> !heap.records.dom().contains(#[trigger] requests[i])
}

/// Where the value of no live record may ask for anything at its
/// finalization, the finalizers of a collection ask for nothing.
pub proof fn lemma_permits_nothing<T: Trace>(heap: Heap<T>, requests: Seq<GcPointer>)
    requires
        heap.permits(requests),
        forall|p: GcPointer, q: GcPointer|
            heap.records.dom().contains(p) ==> !(#[trigger] heap.records[p].data.may_revive(q)),
    ensures
        requests.len() == 0,
        idle(heap, requests),
{
    if requests.len() > 0 {
        assert(asked(heap.records, heap.condemned(), requests[0]));
    }
}

/// Whether a record with a root reaches `p` along edges.
pub open spec fn rooted_reach<T: Trace>(records: Map<GcPointer, Record<T>>, p: GcPointer) -> bool {
    exists|path: Seq<GcPointer>|
        #[trigger] is_path(records, path) && records[path[0]].roots > 0 && path.last() == p
}

/// Where no value holds an ephemeron pair, what a mark phase can come to
/// mark is what a record with a root reaches along edges.
pub proof fn lemma_within_is_reach<T: Trace>(
    records: Map<GcPointer, Record<T>>,
    p: GcPointer,
    n: nat,
)
    requires
        forall|a: GcPointer| #[trigger] records.dom().contains(a) ==> records[a].data.ephemerons().len() == 0,
        within(records, p, n),
    ensures
        rooted_reach(records, p),
    decreases n,
{
    if records[p].roots > 0 {
        let path = seq![p];
        assert(is_path(records, path) && records[path[0]].roots > 0 && path.last() == p);
    } else if exists|a: GcPointer| #[trigger]
        holds_child(records, a, p) && within(records, a, (n - 1) as nat) {
        let a = choose|a: GcPointer| #[trigger]
            holds_child(records, a, p) && within(records, a, (n - 1) as nat);
        lemma_within_is_reach(records, a, (n - 1) as nat);
        let before = choose|path: Seq<GcPointer>|
            #[trigger] is_path(records, path) && records[path[0]].roots > 0 && path.last() == a;
        let path = before.push(p);
        assert forall|i: int| 0 <= i < path.len() - 1 implies records[#[trigger] path[i]].data.children().contains(
        path[i + 1]) by {
            if i < before.len() - 1 {
                assert(path[i] == before[i]);
                assert(path[i + 1] == before[i + 1]);
            }
        }
        assert(is_path(records, path) && records[path[0]].roots > 0 && path.last() == p);
    } else {
        let (a, k) = choose|a: GcPointer, k: GcPointer| #[trigger]
            holds_pair(records, a, k, p) && within(records, a, (n - 1) as nat)
                && records.dom().contains(k) && (records[k].data.resolved_ephemeron() || within(records, k, (n - 1) as nat));
        assert(records.dom().contains(a));
    }
}

/// Reachability: on a heap whose values hold no ephemeron pairs, a mark
/// phase marks exactly the records that a record with a root reaches along
/// edges.
pub proof fn lemma_marks_are_what_roots_reach<T: Trace>(heap: Heap<T>, p: GcPointer)
    requires
        heap.wf(),
        forall|a: GcPointer| #[trigger]
            heap.records.dom().contains(a) ==> heap.records[a].data.ephemerons().len() == 0,
        heap.live(p),
    ensures
        heap.mark().records[p].marked <==> rooted_reach(heap.records, p),
{
    heap.lemma_finite();
    heap.lemma_mark();
    if heap.mark().records[p].marked {
        lemma_mark_all_justified(heap.records, heap.chain);
        assert(attainable(heap.records, p));
        let n = choose|n: nat| within(heap.records, p, n);
        lemma_within_is_reach(heap.records, p, n);
    }
    if rooted_reach(heap.records, p) {
        let path = choose|path: Seq<GcPointer>|
            #[trigger] is_path(heap.records, path) && heap.records[path[0]].roots > 0 && path.last()
                == p;
        assert(heap.records.dom().contains(path[0]));
        assert(heap.chain.to_set().contains(path[0]));
        assert(heap.chain.contains(path[0]));
        lemma_mark_all_reaches(heap.records, heap.chain, path);
        assert(heap.mark().records[path[path.len() - 1]].marked);
    }
}

/// Safety of the collector: a record that edges lead to from a record with
/// a root is not reclaimed, whatever the finalizers do; nor is one that
/// edges lead to from a live record that a finalizer asked to be kept
/// alive. It keeps its value.
pub proof fn lemma_reachable_survives<T: Trace>(
    heap: Heap<T>,
    requests: Seq<GcPointer>,
    root: GcPointer,
    p: GcPointer,
)
    requires
        heap.wf(),
        heap.rooted(root) || (heap.live(root) && requests.contains(root)),
        reaches(heap.records, root, p),
    ensures
        heap.collect(requests).live(p),
        heap.collect(requests).records[p].data == heap.records[p].data,
{
    heap.lemma_collect(requests);
    heap.lemma_mark();
    let path = choose|path: Seq<GcPointer>|
        #[trigger] is_path(heap.records, path) && path[0] == root && path.last() == p;
    assert(heap.records.dom().contains(path[path.len() - 1]));
    let marked = heap.mark();
    let list = heap.condemned();
    if list.len() == 0 {
        assert(heap.collect(requests).records.dom() =~= heap.records.dom()) by {
            assert(heap.collect(requests).records == clear_marks(marked.records));
        }
    } else {
        let cleared = heap.condemn().finalize(list);
        assert(cleared.records.dom() =~= heap.records.dom());
        assert(cleared.sound());
        lemma_revive(cleared.records, cleared.revived, requests, 0);
        let (records, revived) = revive(cleared.records, cleared.revived, requests, 0);
        let rooted = Heap { records, revived, ..cleared };
        assert(rooted.sound());
        rooted.lemma_finite();
        if !heap.rooted(root) {
            let j = requests.index_of(root);
            assert(requests[j] == root);
            assert(records[requests[j]].roots > 0);
        }
        assert(records[root].roots > 0);
        assert(is_path(records, path)) by {
            assert forall|i: int| 0 <= i < path.len() implies records.dom().contains(
                #[trigger] path[i],
            ) by {}
            assert forall|i: int| 0 <= i < path.len() - 1 implies records[#[trigger] path[i]].data.children().contains(
            path[i + 1]) by {
                assert(heap.records.dom().contains(path[i]));
                assert(cleared.records.dom().contains(path[i]));
                assert(marked.records.dom().contains(path[i]));
            }
        }
        assert(heap.chain.to_set().contains(root));
        assert(heap.chain.contains(root));
        lemma_mark_all_reaches(records, heap.chain, path);
        let remarked = rooted.mark();
        rooted.lemma_mark();
        assert(remarked.records[path[path.len() - 1]].marked);
        remarked.lemma_sweep(list);
        let swept = remarked.sweep(list);
        assert(heap.collect(requests) == swept.with_records(clear_marks(swept.records)));
        assert(heap.collect(requests).records.dom() =~= swept.records.dom());
        assert(remarked.records.dom().contains(p));
    }
}

/// Completeness of the collector: a live record that no mark phase can
/// come to mark, which no root reaches by edges and ephemeron pairs, is
/// reclaimed by a collection whose finalizers bring nothing back.
pub proof fn lemma_unreachable_is_reclaimed<T: Trace>(
    heap: Heap<T>,
    requests: Seq<GcPointer>,
    p: GcPointer,
)
    requires
        heap.wf(),
        idle(heap, requests),
        heap.live(p),
        !attainable(heap.records, p),
    ensures
        !heap.collect(requests).live(p),
{
    heap.lemma_collect(requests);
    heap.lemma_mark();
    heap.lemma_finite();
    lemma_mark_all_justified(heap.records, heap.chain);
    let marked = heap.mark();
    let list = heap.condemned();
    assert(!marked.records[p].marked);
    lemma_unmarked_nodes(marked.records, heap.chain, heap.chain.len());
    assert(heap.chain.to_set().contains(p));
    assert(heap.chain.contains(p));
    let j = heap.chain.index_of(p);
    assert(heap.chain[j] == p);
    assert(names(list, p));
    let cleared = heap.condemn().finalize(list);
    assert(cleared.records.dom() =~= heap.records.dom());
    assert(cleared.sound());
    lemma_revive(cleared.records, cleared.revived, requests, 0);
    let (records, revived) = revive(cleared.records, cleared.revived, requests, 0);
    let rooted = Heap { records, revived, ..cleared };
    assert(rooted == cleared);
    cleared.lemma_finite();
    cleared.lemma_mark();
    lemma_mark_all_justified(cleared.records, heap.chain);
    let remarked = cleared.mark();
    if remarked.records[p].marked {
        assert(attainable(cleared.records, p));
        let n = choose|n: nat| within(cleared.records, p, n);
        assert forall|q: GcPointer| #[trigger] heap.records.dom().contains(q) implies cleared.records[q].roots
            == heap.records[q].roots && cleared.records[q].data == heap.records[q].data
            && !cleared.records[q].marked by {
            assert(marked.records.dom().contains(q));
        }
        lemma_within_cleared(heap.records, cleared.records, p, n);
    }
    remarked.lemma_sweep(list);
    let swept = remarked.sweep(list);
    assert(heap.collect(requests) == swept.with_records(clear_marks(swept.records)));
    assert(heap.collect(requests).records.dom() =~= swept.records.dom());
}

/// Once no handle is left, a collection reclaims every record, whatever
/// refers to what, cycles included: if no record has a root and the
/// finalizers bring nothing back, the chain is empty after the collection
/// and no byte is in use.
pub proof fn lemma_unrooted_heap_is_reclaimed<T: Trace>(heap: Heap<T>, requests: Seq<GcPointer>)
    requires
        heap.wf(),
        no_roots(heap),
        idle(heap, requests),
    ensures
        heap.collect(requests).chain.len() == 0,
        heap.collect(requests).records.dom() == Set::<GcPointer>::empty(),
        heap.collect(requests).stats.bytes_allocated == 0,
{
    let end = heap.collect(requests);
    heap.lemma_collect(requests);
    lemma_mark_roots_no_roots(heap.records, heap.chain, 0, Seq::empty());
    assert(heap.mark().records == heap.records);
    let unmarked = heap.condemned();
    lemma_unmarked_nodes(heap.records, heap.chain, heap.chain.len());
    assert forall|q: GcPointer| !end.records.dom().contains(q) by {
        if end.records.dom().contains(q) {
            assert(heap.live(q));
            assert(heap.chain.to_set().contains(q));
            assert(heap.chain.contains(q));
            let j = heap.chain.index_of(q);
            assert(heap.chain[j] == q);
            assert(names(unmarked, q));
            assert(unmarked.len() > 0);
            let cleared = clear_marks(heap.records);
            assert(cleared.dom() =~= heap.records.dom());
            lemma_revive(cleared, heap.revived, requests, 0);
            let (records, revived) = revive(cleared, heap.revived, requests, 0);
            assert(records == cleared);
            lemma_mark_roots_no_roots(cleared, heap.chain, 0, Seq::empty());
            assert(mark_all(cleared, heap.chain) == cleared);
            let swept = heap.condemn().finalize(unmarked);
            assert(swept.records == cleared);
            assert(swept.sound());
            swept.lemma_sweep(unmarked);
            assert(end == swept.sweep(unmarked));
            assert(swept.live(q));
            assert(!swept.records[q].marked);
        }
    }
    assert(end.records.dom() =~= Set::<GcPointer>::empty());
    if end.chain.len() > 0 {
        assert(end.chain.to_set().contains(end.chain[0]));
    }
}

/// An ephemeron value goes with its key: where the key is a live record
/// that no mark phase can come to mark, and the value is a live record
/// without a root that nothing refers to but ephemeron pairs with that
/// key, a collection whose finalizers bring nothing back reclaims both.
pub proof fn lemma_ephemeron_value_follows_key<T: Trace>(
    heap: Heap<T>,
    requests: Seq<GcPointer>,
    key: GcPointer,
    value: GcPointer,
)
    requires
        heap.wf(),
        idle(heap, requests),
        heap.live(key),
        !heap.records[key].data.resolved_ephemeron(),
        !attainable(heap.records, key),
        heap.live(value),
        heap.records[value].roots == 0,
        forall|a: GcPointer| !holds_child(heap.records, a, value),
        forall|a: GcPointer, k: GcPointer| #[trigger]
            holds_pair(heap.records, a, k, value) ==> k == key,
    ensures
        !heap.collect(requests).live(key),
        !heap.collect(requests).live(value),
{
    assert forall|n: nat| !within(heap.records, value, n) by {
        if within(heap.records, value, n) {
            assert(!exists|a: GcPointer| #[trigger]
                holds_child(heap.records, a, value) && within(heap.records, a, (n - 1) as nat));
            let (a, k) = choose|a: GcPointer, k: GcPointer| #[trigger]
                holds_pair(heap.records, a, k, value) && within(heap.records, a, (n - 1) as nat)
                    && heap.records.dom().contains(k) && (heap.records[k].data.resolved_ephemeron() || within(
                    heap.records,
                    k,
                    (n - 1) as nat,
                ));
            assert(k == key);
            assert(within(heap.records, key, (n - 1) as nat));
        }
    }
    lemma_unreachable_is_reclaimed(heap, requests, key);
    lemma_unreachable_is_reclaimed(heap, requests, value);
}

/// What a collection finalizes: each condemned record is listed once; it
/// is a live record without a root that the mark phase before left without
/// a mark; and whatever the finalizers ask for, a record that the collection
/// reclaims was condemned, so that its finalizer ran before it went.
pub proof fn lemma_finalized_once_before_reclaimed<T: Trace>(heap: Heap<T>)
    requires
        heap.wf(),
    ensures
        forall|k1: int, k2: int|
            0 <= k1 < k2 < heap.condemned().len() ==> (#[trigger] heap.condemned()[k1]).this != (
            #[trigger] heap.condemned()[k2]).this,
        forall|k: int|
            0 <= k < heap.condemned().len() ==> {
                let p = (#[trigger] heap.condemned()[k]).this;
                &&& heap.live(p)
                &&& heap.records[p].roots == 0
                &&& !heap.records[p].marked
                &&& !heap.mark().records[p].marked
            },
        forall|requests: Seq<GcPointer>, q: GcPointer|
            #![trigger heap.collect(requests).records.dom().contains(q)]
            heap.live(q) && !heap.collect(requests).live(q) ==> names(heap.condemned(), q),
        forall|requests: Seq<GcPointer>|
            (#[trigger] heap.collect(requests)).finalized == heap.finalized
                + heap.condemned().map_values(|node: Unmarked| node.this),
{
    assert forall|requests: Seq<GcPointer>|
        (#[trigger] heap.collect(requests)).finalized == heap.finalized
            + heap.condemned().map_values(|node: Unmarked| node.this) by {
        heap.lemma_collect(requests);
    }
    heap.lemma_mark();
    let marked = heap.mark();
    let list = heap.condemned();
    lemma_unmarked_nodes(marked.records, heap.chain, heap.chain.len());
    reveal(slots_ok);
    assert forall|k: int| 0 <= k < list.len() implies {
        let p = (#[trigger] list[k]).this;
        &&& heap.live(p)
        &&& heap.records[p].roots == 0
        &&& !heap.records[p].marked
        &&& !marked.records[p].marked
    } by {
        let p = list[k].this;
        assert(marked.records.dom().contains(p));
        assert(heap.records.dom().contains(p));
        if heap.records[p].roots > 0 {
            assert(heap.rooted(p));
            assert(marked.marked(p));
        }
    }
    assert forall|requests: Seq<GcPointer>, q: GcPointer|
        #![trigger heap.collect(requests).records.dom().contains(q)]
        heap.live(q) && !heap.collect(requests).live(q) implies names(list, q) by {
        heap.lemma_collect(requests);
    }
}

/// Resurrection: a condemned record that a finalizer asks to be kept
/// alive survives the collection, now with a root.
pub proof fn lemma_revived_record_survives<T: Trace>(
    heap: Heap<T>,
    requests: Seq<GcPointer>,
    a: GcPointer,
)
    requires
        heap.wf(),
        names(heap.condemned(), a),
        requests.contains(a),
    ensures
        heap.collect(requests).live(a),
        heap.collect(requests).records[a].roots >= 1,
        heap.collect(requests).records[a].data == heap.records[a].data,
{
    heap.lemma_collect(requests);
    heap.lemma_mark();
    let marked = heap.mark();
    let list = heap.condemned();
    lemma_unmarked_nodes(marked.records, heap.chain, heap.chain.len());
    let k = choose|k: int| 0 <= k < list.len() && (#[trigger] list[k]).this == a;
    assert(marked.records.dom().contains(list[k].this));
    let cleared = heap.condemn().finalize(list);
    assert(cleared.records.dom() =~= heap.records.dom());
    assert(cleared.sound());
    lemma_revive(cleared.records, cleared.revived, requests, 0);
    let (records, revived) = revive(cleared.records, cleared.revived, requests, 0);
    let j = requests.index_of(a);
    assert(requests[j] == a);
    assert(records[requests[j]].roots > 0);
    let rooted = Heap { records, revived, ..cleared };
    assert(rooted.sound());
    assert(rooted.rooted(a));
    rooted.lemma_mark();
    let remarked = rooted.mark();
    assert(remarked.marked(a));
    remarked.lemma_sweep(list);
    let swept = remarked.sweep(list);
    assert(heap.collect(requests) == swept.with_records(clear_marks(swept.records)));
    assert(heap.collect(requests).records.dom() =~= swept.records.dom());
    assert(remarked.records.dom().contains(a));
}

/// No value of a live record of `heap` holds an ephemeron pair.
pub open spec fn pair_free<T: Trace>(heap: Heap<T>) -> bool {
    forall|a: GcPointer| #[trigger]
        heap.records.dom().contains(a) ==> heap.records[a].data.ephemerons().len() == 0
}

/// Reclamation, exactly: on a heap whose values hold no ephemeron pairs, a
/// collection whose finalizers bring nothing back leaves exactly the
/// records that a record with a root reaches along edges, cycles or not,
/// each with its value.
pub proof fn lemma_collection_leaves_what_roots_reach<T: Trace>(
    heap: Heap<T>,
    requests: Seq<GcPointer>,
    p: GcPointer,
)
    requires
        heap.wf(),
        idle(heap, requests),
        pair_free(heap),
    ensures
        heap.collect(requests).live(p) <==> heap.live(p) && rooted_reach(heap.records, p),
        heap.collect(requests).live(p) ==> heap.collect(requests).records[p].data
            == heap.records[p].data,
{
    heap.lemma_collect(requests);
    if heap.collect(requests).live(p) {
        if !attainable(heap.records, p) {
            lemma_unreachable_is_reclaimed(heap, requests, p);
        }
        let n = choose|n: nat| within(heap.records, p, n);
        lemma_within_is_reach(heap.records, p, n);
    }
    if heap.live(p) && rooted_reach(heap.records, p) {
        let path = choose|path: Seq<GcPointer>|
            #[trigger] is_path(heap.records, path) && heap.records[path[0]].roots > 0 && path.last()
                == p;
        assert(heap.records.dom().contains(path[0]));
        assert(reaches(heap.records, path[0], p));
        lemma_reachable_survives(heap, requests, path[0], p);
    }
}

/// No finalizer of a listed record takes back what an earlier one asked
/// for: what is in the list it is handed is in the list it leaves.
pub open spec fn requests_stay<T: Trace>(
    records: Map<GcPointer, Record<T>>,
    unmarked: Seq<Unmarked>,
) -> bool {
    forall|k: int, before: Seq<GcPointer>, after: Seq<GcPointer>, x: GcPointer|
        #![trigger records[unmarked[k].this].data.finalizes(before, after), before.contains(x)]
        0 <= k < unmarked.len() && records[unmarked[k].this].data.finalizes(before, after)
            && before.contains(x) ==> after.contains(x)
}

/// Where no finalizer takes a request back, what the finalizers leave
/// holds what they were handed, and holds the record `a` if `a` is listed
/// and its finalizer asks for it.
pub proof fn lemma_finalizers_keep_requests<T: Trace>(
    records: Map<GcPointer, Record<T>>,
    unmarked: Seq<Unmarked>,
    before: Seq<GcPointer>,
    after: Seq<GcPointer>,
    a: GcPointer,
)
    requires
        finalizers_leave(records, unmarked, before, after),
        requests_stay(records, unmarked),
        forall|from: Seq<GcPointer>, to: Seq<GcPointer>| #[trigger]
            records[a].data.finalizes(from, to) ==> to.contains(a),
    ensures
        forall|x: GcPointer| before.contains(x) ==> after.contains(x),
        names(unmarked, a) ==> after.contains(a),
    decreases unmarked.len(),
{
    if unmarked.len() > 0 {
        let rest = unmarked.drop_last();
        let last = unmarked.last();
        let between = choose|between: Seq<GcPointer>|
            finalizers_leave(records, rest, before, between)
                && #[trigger] records[last.this].data.finalizes(between, after);
        assert(requests_stay(records, rest)) by {
            assert forall|k: int, from: Seq<GcPointer>, to: Seq<GcPointer>, x: GcPointer|
                #![trigger records[rest[k].this].data.finalizes(from, to), from.contains(x)]
                0 <= k < rest.len() && records[rest[k].this].data.finalizes(from, to)
                    && from.contains(x) implies to.contains(x) by {
                assert(rest[k] == unmarked[k]);
                assert(records[unmarked[k].this].data.finalizes(from, to));
            }
        }
        lemma_finalizers_keep_requests(records, rest, before, between, a);
        assert(unmarked[unmarked.len() - 1] == last);
        assert forall|x: GcPointer| between.contains(x) implies after.contains(x) by {
            assert(records[unmarked[unmarked.len() - 1].this].data.finalizes(between, after));
        }
        if names(unmarked, a) {
            let k = choose|k: int| 0 <= k < unmarked.len() && (#[trigger] unmarked[k]).this == a;
            if k < rest.len() {
                assert(rest[k] == unmarked[k]);
                assert(names(rest, a));
            } else {
                assert(last.this == a);
            }
        }
    }
}

/// Resurrection: where a condemned record's finalizer asks for its own
/// record, and no finalizer takes a request back, the record survives the
/// collection, with a root.
pub proof fn lemma_finalizer_keeps_its_record<T: Trace>(
    heap: Heap<T>,
    requests: Seq<GcPointer>,
    a: GcPointer,
)
    requires
        heap.wf(),
        heap.permits(requests),
        names(heap.condemned(), a),
        requests_stay(heap.records, heap.condemned()),
        forall|from: Seq<GcPointer>, to: Seq<GcPointer>| #[trigger]
            heap.records[a].data.finalizes(from, to) ==> to.contains(a),
    ensures
        requests.contains(a),
        heap.collect(requests).live(a),
        heap.collect(requests).records[a].roots >= 1,
{
    lemma_finalizers_keep_requests(heap.records, heap.condemned(), Seq::empty(), requests, a);
    lemma_revived_record_survives(heap, requests, a);
}

/// A collection of a heap that is all reachable is silent: where a record
/// with a root reaches every record along edges, nothing is condemned,
/// no finalizer runs and nothing is reclaimed; only the count of
/// collections changes.
pub proof fn lemma_reachable_heap_is_left_alone<T: Trace>(heap: Heap<T>, requests: Seq<GcPointer>)
    requires
        heap.wf(),
        forall|p: GcPointer| #[trigger]
            heap.records.dom().contains(p) ==> rooted_reach(heap.records, p),
    ensures
        heap.condemned().len() == 0,
        heap.collect(requests) == (Heap {
            stats: GcStats {
                collections_performed: (heap.stats.collections_performed + 1) as usize,
                ..heap.stats
            },
            ..heap
        }),
{
    heap.lemma_finite();
    heap.lemma_mark();
    let marked = heap.mark();
    assert forall|p: GcPointer| #[trigger] marked.records.dom().contains(p) implies marked.records[p].marked by {
        assert(heap.records.dom().contains(p));
        let path = choose|path: Seq<GcPointer>|
            #[trigger] is_path(heap.records, path) && heap.records[path[0]].roots > 0 && path.last()
                == p;
        assert(heap.records.dom().contains(path[0]));
        assert(heap.chain.to_set().contains(path[0]));
        assert(heap.chain.contains(path[0]));
        lemma_mark_all_reaches(heap.records, heap.chain, path);
        assert(marked.records[path[path.len() - 1]].marked);
    }
    lemma_unmarked_nodes_none(marked.records, heap.chain, heap.chain.len());
    assert(clear_marks(marked.records) =~= heap.records);
}

/// No value of a live record of `heap` says that it is a resolved
/// ephemeron.
pub open spec fn unresolved<T: Trace>(heap: Heap<T>) -> bool {
    forall|k: GcPointer| #[trigger]
        heap.records.dom().contains(k) ==> !heap.records[k].data.resolved_ephemeron()
}

/// The pass over the chain goes the same way over the chain that a sweep
/// leaves, for records that hold none of what the sweep freed.
proof fn lemma_sweep_keeps_the_pass<T: Trace>(
    heap: Heap<T>,
    list: Seq<Unmarked>,
    records: Map<GcPointer, Record<T>>,
    queue: Seq<(GcPointer, GcPointer)>,
)
    requires
        heap.sound(),
        records.dom().finite(),
        forall|x: GcPointer| #[trigger] records.dom().contains(x) ==> heap.sweep(list).live(x),
    ensures
        mark_roots(records, heap.chain, 0, queue) == mark_roots(
            records,
            heap.sweep(list).chain,
            0,
            queue,
        ),
    decreases list.len(),
{
    if list.len() > 0 {
        let node = list.last();
        if heap.live(node.this) && !heap.records[node.this].marked {
            let next = heap.free(node.this);
            heap.lemma_free_sound(node.this);
            next.lemma_sweep(list.drop_last());
            let m = heap.chain.index_of(node.this);
            assert(heap.chain.to_set().contains(node.this));
            assert(heap.chain.contains(node.this));
            assert(heap.chain[m] == node.this);
            assert(!records.dom().contains(node.this)) by {
                if records.dom().contains(node.this) {
                    assert(heap.sweep(list).live(node.this));
                    assert(next.sweep(list.drop_last()).records.dom().contains(node.this));
                }
            }
            lemma_mark_roots_skips(records, heap.chain, m, 0, queue);
            lemma_sweep_keeps_the_pass(next, list.drop_last(), records, queue);
        } else {
            lemma_sweep_keeps_the_pass(heap, list.drop_last(), records, queue);
        }
    }
}

/// Idempotence: after a collection whose finalizers brought nothing back,
/// on a heap none of whose values says that it is a resolved ephemeron, a
/// second collection in a row finds nothing to finalize and reclaims
/// nothing: it changes nothing but the count of collections.
pub proof fn lemma_second_collection_is_idle<T: Trace>(
    heap: Heap<T>,
    first: Seq<GcPointer>,
    second: Seq<GcPointer>,
)
    requires
        heap.wf(),
        idle(heap, first),
        unresolved(heap),
    ensures
        heap.collect(first).condemned().len() == 0,
        heap.collect(first).collect(second) == (Heap {
            stats: GcStats {
                collections_performed: (heap.collect(first).stats.collections_performed
                    + 1) as usize,
                ..heap.collect(first).stats
            },
            ..heap.collect(first)
        }),
{
    heap.lemma_collect(first);
    heap.lemma_mark();
    heap.lemma_finite();
    let once = heap.collect(first);
    let list = heap.condemned();
    let first_marked = heap.mark();
    once.lemma_finite();
    once.lemma_mark();
    if list.len() == 0 {
        assert(once.records =~= heap.records);
        assert(once.mark().records == first_marked.records);
        assert(once.condemned() == list);
    } else {
        let cleared = heap.condemn().finalize(list);
        assert(cleared.records =~= heap.records);
        assert(cleared.sound());
        lemma_revive(cleared.records, cleared.revived, first, 0);
        let (records, revived) = revive(cleared.records, cleared.revived, first, 0);
        let rooted = Heap { records, revived, ..cleared };
        assert(rooted == cleared);
        let remarked = cleared.mark();
        assert(remarked.records == first_marked.records);
        cleared.lemma_mark();
        remarked.lemma_sweep(list);
        let swept = remarked.sweep(list);
        assert(once == swept.with_records(clear_marks(swept.records)));
        assert(once.records.dom() =~= swept.records.dom());
        assert(once.chain == swept.chain);
        lemma_unmarked_nodes(first_marked.records, heap.chain, heap.chain.len());
        let kept = once.records.dom();
        // what is left is what the mark phase marked
        assert forall|q: GcPointer| #[trigger] kept.contains(q) implies heap.records.dom().contains(
            q,
        ) && once.records[q] == heap.records[q] && remarked.records[q].marked by {
            assert(swept.live(q));
            assert(remarked.live(q));
            assert(swept.records[q] == remarked.records[q]);
            assert(heap.records.dom().contains(q));
            if !remarked.records[q].marked {
                assert(heap.chain.to_set().contains(q));
                assert(heap.chain.contains(q));
                let j = heap.chain.index_of(q);
                assert(heap.chain[j] == q);
                assert(names(list, q));
            }
        }
        assert(sim(heap.records, once.records, kept));
        assert(marks_within(mark_all(heap.records, heap.chain), kept)) by {
            assert forall|q: GcPointer| #[trigger]
                remarked.records.dom().contains(q) && remarked.records[q].marked implies kept.contains(
                q,
            ) by {
                assert(swept.live(q));
            }
        }
        lemma_mark_all_sim(heap.records, once.records, kept, heap.chain);
        lemma_sweep_keeps_the_pass(remarked, list, once.records, Seq::empty());
        assert(mark_all(once.records, once.chain) == mark_all(once.records, heap.chain));
        let again = once.mark();
        assert forall|q: GcPointer| #[trigger] again.records.dom().contains(q) implies again.records[q].marked by {
            assert(kept.contains(q));
            assert(again.records[q] == remarked.records[q]);
        }
        lemma_unmarked_nodes_none(again.records, once.chain, once.chain.len());
    }
    assert(once.collect(second) == once.condemn());
    assert(clear_marks(once.mark().records) =~= once.records);
}

/// Idempotence where values may say that they are resolved ephemerons:
/// after a collection whose finalizers brought nothing back, on a heap
/// whose values hold no ephemeron pairs, a second collection in a row
/// finds nothing to finalize and reclaims nothing.
pub proof fn lemma_second_collection_is_idle_without_pairs<T: Trace>(
    heap: Heap<T>,
    first: Seq<GcPointer>,
    second: Seq<GcPointer>,
)
    requires
        heap.wf(),
        idle(heap, first),
        pair_free(heap),
    ensures
        heap.collect(first).condemned().len() == 0,
        heap.collect(first).collect(second) == (Heap {
            stats: GcStats {
                collections_performed: (heap.collect(first).stats.collections_performed
                    + 1) as usize,
                ..heap.collect(first).stats
            },
            ..heap.collect(first)
        }),
{
    heap.lemma_collect(first);
    let once = heap.collect(first);
    once.lemma_finite();
    once.lemma_mark();
    let marked = once.mark();
    let list = once.condemned();
    lemma_unmarked_nodes(marked.records, once.chain, once.chain.len());
    if list.len() > 0 {
        let q = list[0].this;
        assert(marked.records.dom().contains(q));
        assert(once.records.dom().contains(q));
        assert(once.live(q));
        // what is left can be marked, so a root reaches it
        if !attainable(heap.records, q) {
            lemma_unreachable_is_reclaimed(heap, first, q);
        }
        let n = choose|n: nat| within(heap.records, q, n);
        lemma_within_is_reach(heap.records, q, n);
        let path = choose|path: Seq<GcPointer>|
            #[trigger] is_path(heap.records, path) && heap.records[path[0]].roots > 0 && path.last()
                == q;
        // the path is left whole
        assert forall|i: int| 0 <= i < path.len() implies once.records.dom().contains(
            #[trigger] path[i],
        ) && once.records[path[i]].data == heap.records[path[i]].data by {
            let part = path.take(i + 1);
            assert(is_path(heap.records, part)) by {
                assert forall|j: int| 0 <= j < part.len() implies heap.records.dom().contains(
                    #[trigger] part[j],
                ) by {
                    assert(part[j] == path[j]);
                }
                assert forall|j: int| 0 <= j < part.len() - 1 implies heap.records[#[trigger] part[j]].data.children().contains(
                part[j + 1]) by {
                    assert(part[j] == path[j]);
                    assert(part[j + 1] == path[j + 1]);
                }
            }
            assert(part[0] == path[0] && part.last() == path[i]);
            assert(heap.records.dom().contains(path[0]));
            assert(reaches(heap.records, path[0], path[i]));
            lemma_reachable_survives(heap, first, path[0], path[i]);
        }
        assert(is_path(once.records, path)) by {
            assert forall|i: int| 0 <= i < path.len() - 1 implies once.records[#[trigger] path[i]].data.children().contains(
            path[i + 1]) by {
                assert(once.records.dom().contains(path[i]));
            }
        }
        assert(once.records.dom().contains(path[0]));
        assert(once.chain.to_set().contains(path[0]));
        assert(once.chain.contains(path[0]));
        lemma_mark_all_reaches(once.records, once.chain, path);
        assert(marked.records[path[path.len() - 1]].marked);
        assert(false);
    }
    assert(once.collect(second) == once.condemn());
    assert(clear_marks(marked.records) =~= once.records);
}

/// The sweep takes no notice of the configuration.
proof fn lemma_sweep_any_configuration<T>(heap: Heap<T>, config: GcConfig, list: Seq<Unmarked>)
    ensures
        (Heap { config, ..heap }).sweep(list) == (Heap { config, ..heap.sweep(list) }),
    decreases list.len(),
{
    if list.len() > 0 {
        let node = list.last();
        let next = if heap.live(node.this) && !heap.records[node.this].marked {
            heap.free(node.this)
        } else {
            heap
        };
        lemma_sweep_any_configuration(next, config, list.drop_last());
        let other = Heap { config, ..heap };
        let other_next = if other.live(node.this) && !other.records[node.this].marked {
            other.free(node.this)
        } else {
            other
        };
        assert(other_next == (Heap { config, ..next }));
    }
}

/// The threshold and the ratio decide when a collection runs, never what
/// it does: under any configuration a collection leaves the same heap.
pub proof fn lemma_configuration_plays_no_part<T: Trace>(
    heap: Heap<T>,
    config: GcConfig,
    requests: Seq<GcPointer>,
)
    ensures
        (Heap { config, ..heap }).collect(requests) == (Heap { config, ..heap.collect(requests) }),
{
    let other = Heap { config, ..heap };
    assert(other.mark().records == heap.mark().records);
    assert(other.condemned() == heap.condemned());
    let list = heap.condemned();
    if list.len() > 0 {
        let cleared = heap.condemn().finalize(list);
        let (records, revived) = revive(cleared.records, cleared.revived, requests, 0);
        let rooted = Heap { records, revived, ..cleared };
        let other_cleared = other.condemn().finalize(list);
        assert(other_cleared == (Heap { config, ..cleared }));
        let other_rooted = Heap { records, revived, ..other_cleared };
        assert(other_rooted == (Heap { config, ..rooted }));
        assert(other_rooted.mark() == (Heap { config, ..rooted.mark() }));
        lemma_sweep_any_configuration(rooted.mark(), config, list);
    }
}

/// A collection never adds a record or a byte.
pub proof fn lemma_collection_never_grows<T: Trace>(heap: Heap<T>, requests: Seq<GcPointer>)
    requires
        heap.sound(),
    ensures
        heap.collect(requests).chain.len() <= heap.chain.len(),
        heap.collect(requests).stats.bytes_allocated <= heap.stats.bytes_allocated,
{
    heap.lemma_collect(requests);
    heap.lemma_finite();
    let end = heap.collect(requests);
    assert(end.records.dom().subset_of(heap.records.dom())) by {
        assert forall|q: GcPointer| end.records.dom().contains(q) implies heap.records.dom().contains(
            q,
        ) by {}
    }
    vstd::set_lib::lemma_len_subset(end.records.dom(), heap.records.dom());
    end.chain.unique_seq_to_set();
    heap.chain.unique_seq_to_set();
    let size = record_size::<T>() as int;
    let before = heap.chain.len() as int;
    let after = end.chain.len() as int;
    assert(after * size <= before * size) by (nonlinear_arith)
        requires
            after <= before,
            size >= 0,
    ;
}

/// Threshold back-off: the threshold moves only where the heap is crowded
/// after a collection, it never falls, and where it moves it becomes the
/// bytes in use divided by the ratio, so that the bytes in use are again
/// within the configured share of it. It follows the bytes that survive,
/// not the number of allocations.
pub proof fn lemma_back_off_follows_ratio<T>(heap: Heap<T>)
    ensures
        !heap.crowded() ==> heap.back_off() == heap,
        heap.back_off().config.threshold >= heap.config.threshold,
        heap.back_off() == (Heap {
            config: GcConfig {
                threshold: heap.back_off().config.threshold,
                ..heap.config
            },
            ..heap
        }),
        heap.crowded() && heap.config.used_space_percent > 0 ==> {
            &&& heap.back_off().config.threshold * heap.config.used_space_percent
                <= heap.stats.bytes_allocated * 100
            &&& (heap.back_off().config.threshold < usize::MAX ==> heap.stats.bytes_allocated * 100 < (
            heap.back_off().config.threshold + 1) * heap.config.used_space_percent)
        },
        heap.crowded() && heap.config.used_space_percent == 0 ==> heap.back_off().config.threshold
            == usize::MAX,
{
    if heap.crowded() && heap.config.used_space_percent > 0 {
        let bytes = heap.stats.bytes_allocated as int * 100;
        let percent = heap.config.used_space_percent as int;
        let threshold = heap.config.threshold as int;
        let quotient = bytes / percent;
        assert(quotient * percent <= bytes && bytes < (quotient + 1) * percent && quotient >= threshold)
            by (nonlinear_arith)
            requires
                percent > 0,
                bytes > threshold * percent,
                quotient == bytes / percent,
                threshold >= 0,
        ;
        if quotient > usize::MAX {
            assert(usize::MAX * percent <= quotient * percent) by (nonlinear_arith)
                requires
                    percent > 0,
                    usize::MAX < quotient,
            ;
        }
    }
}

/// Threshold back-off at an allocation: the threshold after it is the
/// threshold before it, unless a collection ran and left the heap crowded;
/// then it is the bytes that survived divided by the ratio. It never falls.
pub proof fn lemma_insert_threshold<T: Trace>(
    heap: Heap<T>,
    record: Record<T>,
    requests: Seq<GcPointer>,
)
    requires
        heap.wf(),
        heap.issued <= usize::MAX,
        record.roots <= ROOTS_MAX,
        heap.stats.bytes_allocated + record_size::<T>() <= usize::MAX,
    ensures
        heap.insert(record, requests).config.threshold >= heap.config.threshold,
        heap.insert(record, requests).config.used_space_percent == heap.config.used_space_percent,
        heap.insert(record, requests).stats.bytes_allocated <= heap.stats.bytes_allocated
            + record_size::<T>(),
        heap.insert(record, requests).config.threshold != heap.config.threshold ==> {
            &&& heap.stats.bytes_allocated + record_size::<T>() > heap.config.threshold
            &&& heap.insert(record, requests).stats.bytes_allocated * 100 > heap.config.threshold
                * heap.config.used_space_percent
            &&& heap.insert(record, requests).config.threshold == heap.insert(
                record,
                requests,
            ).raised_threshold()
        },
{
    let linked = heap.link(record);
    heap.lemma_link_sound(record);
    if linked.stats.bytes_allocated > linked.config.threshold {
        linked.lemma_collect(requests);
        lemma_collection_never_grows(linked, requests);
        let collected = linked.collect(requests);
        lemma_back_off_follows_ratio(collected);
        let end = collected.back_off();
        if collected.crowded() {
            assert(end.stats == collected.stats);
            assert(end.raised_threshold() == collected.raised_threshold());
        }
    }
}

/// One round of a short-lived record: a standard record is allocated for
/// `data`, and its handle is given up.
pub open spec fn churn<T: Trace>(heap: Heap<T>, data: T, requests: Seq<GcPointer>) -> Heap<T> {
    heap.insert(fresh_record(data, GcBoxType::Standard), requests).unroot(heap.issued as GcPointer)
}

/// Where one record alone has a root, and its value refers to nothing and
/// holds no ephemeron pair, a mark phase can come to mark that record only.
pub proof fn lemma_lone_root<T: Trace>(
    records: Map<GcPointer, Record<T>>,
    root: GcPointer,
    p: GcPointer,
    n: nat,
)
    requires
        forall|q: GcPointer| #[trigger] records.dom().contains(q) && records[q].roots > 0 ==> q == root,
        records[root].data.children().len() == 0,
        records[root].data.ephemerons().len() == 0,
        within(records, p, n),
    ensures
        p == root,
    decreases n,
{
    if records[p].roots > 0 {
    } else if exists|a: GcPointer| #[trigger]
        holds_child(records, a, p) && within(records, a, (n - 1) as nat) {
        let a = choose|a: GcPointer| #[trigger]
            holds_child(records, a, p) && within(records, a, (n - 1) as nat);
        lemma_lone_root(records, root, a, (n - 1) as nat);
    } else {
        let (a, k) = choose|a: GcPointer, k: GcPointer| #[trigger]
            holds_pair(records, a, k, p) && within(records, a, (n - 1) as nat)
                && records.dom().contains(k) && (records[k].data.resolved_ephemeron() || within(records, k, (n - 1) as nat));
        lemma_lone_root(records, root, a, (n - 1) as nat);
    }
}

/// Threshold back-off under short-lived records: on a heap without roots,
/// allocating a standard record whose value refers to nothing, and giving
/// its handle up, leaves a heap without roots again; and if the allocation
/// ran a collection, the new record alone is left, however many were
/// allocated before, so that the threshold is raised to no more than the
/// bytes of one record divided by the ratio. The threshold does not grow
/// with the number of allocations.
pub proof fn lemma_short_lived_records_keep_the_heap_small<T: Trace>(
    heap: Heap<T>,
    data: T,
    requests: Seq<GcPointer>,
)
    requires
        heap.wf(),
        no_roots(heap),
        data.children().len() == 0,
        data.ephemerons().len() == 0,
        idle(heap.link(fresh_record(data, GcBoxType::Standard)), requests),
        heap.issued <= usize::MAX,
        heap.stats.bytes_allocated + record_size::<T>() <= usize::MAX,
    ensures
        churn(heap, data, requests).wf(),
        no_roots(churn(heap, data, requests)),
        heap.stats.bytes_allocated + record_size::<T>() > heap.config.threshold ==> churn(
            heap,
            data,
            requests,
        ).chain == seq![heap.issued as GcPointer] && churn(
            heap,
            data,
            requests,
        ).stats.bytes_allocated == record_size::<T>(),
        churn(heap, data, requests).config.threshold != heap.config.threshold ==> churn(
            heap,
            data,
            requests,
        ).config.threshold == churn(heap, data, requests).raised_threshold(),
{
    let record = fresh_record(data, GcBoxType::Standard);
    let n = heap.issued as GcPointer;
    let linked = heap.link(record);
    lemma_roots_max();
    heap.lemma_link_sound(record);
    heap.lemma_insert(record, requests);
    lemma_insert_threshold(heap, record, requests);
    let inserted = heap.insert(record, requests);
    let end = churn(heap, data, requests);
    assert(linked.records[n] == record);
    assert(linked.wf());
    assert(inserted.live(n));
    assert(end.records.dom() =~= inserted.records.dom());
    assert(end.stats == inserted.stats);
    assert(end.config == inserted.config);
    assert(end.raised_threshold() == inserted.raised_threshold());
    if linked.stats.bytes_allocated > linked.config.threshold {
        linked.lemma_collect(requests);
        let collected = linked.collect(requests);
        assert(inserted.records == collected.records);
        assert(inserted.chain == collected.chain);
        assert forall|q: GcPointer| #[trigger]
            linked.records.dom().contains(q) && linked.records[q].roots > 0 implies q == n by {
            if q != n {
                assert(heap.records.dom().contains(q));
            }
        }
        assert forall|i: int| 0 <= i < collected.chain.len() implies #[trigger] collected.chain[i]
            == n by {
            let q = collected.chain[i];
            assert(collected.chain.contains(q));
            assert(collected.chain.to_set().contains(q));
            assert(collected.live(q));
            assert(linked.live(q));
            if q != n {
                assert forall|k: nat| !within(linked.records, q, k) by {
                    if within(linked.records, q, k) {
                        lemma_lone_root(linked.records, n, q, k);
                    }
                }
                lemma_unreachable_is_reclaimed(linked, requests, q);
            }
        }
        assert(collected.chain.to_set().contains(n));
        assert(collected.chain.contains(n));
        if collected.chain.len() > 1 {
            assert(collected.chain[0] == n);
            assert(collected.chain[1] == n);
        }
        assert(collected.chain =~= seq![n]);
        assert(1 * record_size::<T>() == record_size::<T>());
    }
    assert(no_roots(end)) by {
        assert forall|q: GcPointer| #[trigger] end.records.dom().contains(q) implies end.records[q].roots
            == 0 by {
            lemma_no_roots_stay(heap, record, requests, q);
            if q != n {
                assert(heap.records.dom().contains(q));
            }
        }
    }
}

/// Where the finalizers bring nothing back, an allocation gives no record a
/// root that it did not have.
proof fn lemma_no_roots_stay<T: Trace>(
    heap: Heap<T>,
    record: Record<T>,
    requests: Seq<GcPointer>,
    q: GcPointer,
)
    requires
        heap.wf(),
        heap.issued <= usize::MAX,
        record.roots <= ROOTS_MAX,
        heap.stats.bytes_allocated + record_size::<T>() <= usize::MAX,
        idle(heap.link(record), requests),
        heap.insert(record, requests).live(q),
    ensures
        heap.insert(record, requests).records[q].roots == heap.link(record).records[q].roots,
{
    let linked = heap.link(record);
    heap.lemma_link_sound(record);
    if linked.stats.bytes_allocated > linked.config.threshold {
        linked.lemma_collect(requests);
        linked.lemma_mark();
        let marked = linked.mark();
        let list = linked.condemned();
        let collected = linked.collect(requests);
        assert(heap.insert(record, requests).records == collected.records);
        if list.len() == 0 {
            assert(marked.records.dom().contains(q));
        } else {
            let cleared = linked.condemn().finalize(list);
            assert(cleared.records.dom() =~= linked.records.dom());
            assert(cleared.sound());
            lemma_revive(cleared.records, cleared.revived, requests, 0);
            let (records, revived) = revive(cleared.records, cleared.revived, requests, 0);
            let rooted = Heap { records, revived, ..cleared };
            assert(rooted == cleared);
            cleared.lemma_mark();
            let remarked = cleared.mark();
            remarked.lemma_sweep(list);
            let swept = remarked.sweep(list);
            assert(collected == swept.with_records(clear_marks(swept.records)));
            assert(collected.records.dom() =~= swept.records.dom());
            assert(remarked.live(q));
            assert(cleared.records.dom().contains(q));
            assert(marked.records.dom().contains(q));
        }
    }
}

/// A number that names no live record names none after an allocation
/// either, nor after a collection: a record that was swept never resolves
/// again, and no later record takes its number.
pub proof fn lemma_dead_stays_dead<T: Trace>(
    heap: Heap<T>,
    p: GcPointer,
    record: Record<T>,
    requests: Seq<GcPointer>,
)
    requires
        heap.wf(),
        !heap.live(p),
        p < heap.issued,
        heap.issued <= usize::MAX,
        record.roots <= ROOTS_MAX,
        heap.stats.bytes_allocated + record_size::<T>() <= usize::MAX,
    ensures
        !heap.collect(requests).live(p),
        !heap.insert(record, requests).live(p),
        p < heap.insert(record, requests).issued,
{
    heap.lemma_collect(requests);
    heap.lemma_insert(record, requests);
}

} // verus!
