//! Reachability, and how the mark phase relates to it: what it must mark,
//! and what alone it can mark.

use crate::facts::{
    lemma_drain, lemma_mark_all, lemma_mark_from, lemma_mark_roots, lemma_marks_grow_trans,
    lemma_resolve, lemma_set_mark_unmarked, marks_grow,
};
use crate::header::GcPointer;
use crate::heap::{
    drain, key_reachable, mark_all, mark_from, mark_roots, resolve, set_mark, unmarked,
    unmarked_nodes, Record,
};
use crate::trace::Trace;
use vstd::prelude::*;

verus! {

/// `path` leads from record to record along edges: every entry is a live
/// record, and each but the last holds the next among its children.
pub open spec fn is_path<T: Trace>(records: Map<GcPointer, Record<T>>, path: Seq<GcPointer>) -> bool {
    &&& path.len() > 0
    &&& forall|i: int| 0 <= i < path.len() ==> records.dom().contains(#[trigger] path[i])
    &&& forall|i: int|
        0 <= i < path.len() - 1 ==> records[#[trigger] path[i]].data.children().contains(
            path[i + 1],
        )
}

/// Whether edges lead from the live record `from` to the live record `to`.
pub open spec fn reaches<T: Trace>(
    records: Map<GcPointer, Record<T>>,
    from: GcPointer,
    to: GcPointer,
) -> bool {
    exists|path: Seq<GcPointer>|
        #[trigger] is_path(records, path) && path[0] == from && path.last() == to
}

/// Whether the value of `a` holds `c` among its children.
pub open spec fn holds_child<T: Trace>(
    records: Map<GcPointer, Record<T>>,
    a: GcPointer,
    c: GcPointer,
) -> bool {
    records[a].data.children().contains(c)
}

/// Whether the value of `a` holds the ephemeron pair of the key `k` and the
/// value `v`.
pub open spec fn holds_pair<T: Trace>(
    records: Map<GcPointer, Record<T>>,
    a: GcPointer,
    k: GcPointer,
    v: GcPointer,
) -> bool {
    records[a].data.ephemerons().contains((k, v))
}

/// Whether a mark phase on `records` can come to mark the record `p` in at
/// most `n` steps: `p` has a root; or a record that can be marked in fewer
/// steps holds `p` among its children; or such a record holds an ephemeron
/// pair with `p` as its value and a key that counts as reachable, because
/// it says it is a resolved ephemeron or can itself be marked in fewer
/// steps.
pub open spec fn within<T: Trace>(
    records: Map<GcPointer, Record<T>>,
    p: GcPointer,
    n: nat,
) -> bool
    decreases n,
{
    &&& n > 0
    &&& records.dom().contains(p)
    &&& {
        ||| records[p].roots > 0
        ||| exists|a: GcPointer| #[trigger]
            holds_child(records, a, p) && within(records, a, (n - 1) as nat)
        ||| exists|a: GcPointer, k: GcPointer| #[trigger]
            holds_pair(records, a, k, p) && within(records, a, (n - 1) as nat)
                && records.dom().contains(k) && (records[k].data.resolved_ephemeron() || within(records, k, (n - 1) as nat))
    }
}

/// Whether a mark phase on `records` can come to mark the record `p` at all.
pub open spec fn attainable<T: Trace>(records: Map<GcPointer, Record<T>>, p: GcPointer) -> bool {
    exists|n: nat| within(records, p, n)
}

/// Every record marked since `base` has each of its live children marked,
/// or waiting in `worklist`.
pub open spec fn closed<T: Trace>(
    base: Map<GcPointer, Record<T>>,
    records: Map<GcPointer, Record<T>>,
    worklist: Seq<GcPointer>,
) -> bool {
    forall|a: GcPointer, i: int|
        #![trigger records[a].data.children()[i]]
        records.dom().contains(a) && records[a].marked && !base[a].marked && 0 <= i
            < records[a].data.children().len() && records.dom().contains(
            records[a].data.children()[i],
        ) ==> records[records[a].data.children()[i]].marked || worklist.contains(
            records[a].data.children()[i],
        )
}

/// Draining the worklist leaves every record marked since `base` with all
/// its live children marked.
pub proof fn lemma_drain_closed<T: Trace>(
    base: Map<GcPointer, Record<T>>,
    records: Map<GcPointer, Record<T>>,
    worklist: Seq<GcPointer>,
    queue: Seq<(GcPointer, GcPointer)>,
)
    requires
        records.dom().finite(),
        marks_grow(base, records),
        closed(base, records, worklist),
    ensures
        closed(base, drain(records, worklist, queue).0, Seq::empty()),
        marks_grow(base, drain(records, worklist, queue).0),
    decreases unmarked(records).len(), worklist.len(),
{
    lemma_drain(records, worklist, queue);
    lemma_marks_grow_trans(base, records, drain(records, worklist, queue).0);
    if worklist.len() == 0 {
        assert(worklist =~= Seq::empty());
    } else {
        let p = worklist.last();
        let rest = worklist.drop_last();
        if records.dom().contains(p) && !records[p].marked {
            lemma_set_mark_unmarked(records, p);
            let r1 = set_mark(records, p);
            let w1 = rest + records[p].data.children();
            assert(marks_grow(base, r1)) by {
                assert forall|x: GcPointer| #[trigger] base.dom().contains(x) implies r1[x].roots
                    == base[x].roots && r1[x].data == base[x].data && (base[x].marked
                    ==> r1[x].marked) by {
                    assert(records.dom().contains(x));
                }
            }
            assert forall|a: GcPointer, i: int|
                #![trigger r1[a].data.children()[i]]
                r1.dom().contains(a) && r1[a].marked && !base[a].marked && 0 <= i
                    < r1[a].data.children().len() && r1.dom().contains(
                    r1[a].data.children()[i],
                ) implies r1[r1[a].data.children()[i]].marked || w1.contains(
                r1[a].data.children()[i],
            ) by {
                let c = r1[a].data.children()[i];
                assert(r1[a].data == records[a].data);
                if a == p {
                    assert(w1[rest.len() + i] == c);
                } else {
                    assert(records[a].marked);
                    assert(records[a].data.children()[i] == c);
                    assert(records[c].marked || worklist.contains(c));
                    if !records[c].marked && c != p {
                        let j = worklist.index_of(c);
                        assert(worklist[j] == c);
                        assert(j < rest.len());
                        assert(w1[j] == c);
                    }
                }
            }
            lemma_drain_closed(base, r1, w1, queue + records[p].data.ephemerons());
        } else {
            assert forall|a: GcPointer, i: int|
                #![trigger records[a].data.children()[i]]
                records.dom().contains(a) && records[a].marked && !base[a].marked && 0 <= i
                    < records[a].data.children().len() && records.dom().contains(
                    records[a].data.children()[i],
                ) implies records[records[a].data.children()[i]].marked || rest.contains(
                records[a].data.children()[i],
            ) by {
                let c = records[a].data.children()[i];
                assert(records[c].marked || worklist.contains(c));
                if !records[c].marked {
                    let j = worklist.index_of(c);
                    assert(worklist[j] == c);
                    assert(c != p);
                    assert(rest[j] == c);
                }
            }
            lemma_drain_closed(base, records, rest, queue);
        }
    }
}

/// Marking from a record keeps every record marked since `base` with all
/// its live children marked.
pub proof fn lemma_mark_from_closed<T: Trace>(
    base: Map<GcPointer, Record<T>>,
    records: Map<GcPointer, Record<T>>,
    p: GcPointer,
    queue: Seq<(GcPointer, GcPointer)>,
)
    requires
        records.dom().finite(),
        marks_grow(base, records),
        closed(base, records, Seq::empty()),
    ensures
        closed(base, mark_from(records, p, queue).0, Seq::empty()),
        marks_grow(base, mark_from(records, p, queue).0),
{
    lemma_mark_from(records, p, queue);
    lemma_marks_grow_trans(base, records, mark_from(records, p, queue).0);
    if records.dom().contains(p) && !records[p].marked {
        lemma_set_mark_unmarked(records, p);
        let r1 = set_mark(records, p);
        let w1 = records[p].data.children();
        assert(marks_grow(base, r1)) by {
            assert forall|x: GcPointer| #[trigger] base.dom().contains(x) implies r1[x].roots
                == base[x].roots && r1[x].data == base[x].data && (base[x].marked
                ==> r1[x].marked) by {
                assert(records.dom().contains(x));
            }
        }
        assert forall|a: GcPointer, i: int|
            #![trigger r1[a].data.children()[i]]
            r1.dom().contains(a) && r1[a].marked && !base[a].marked && 0 <= i
                < r1[a].data.children().len() && r1.dom().contains(
                r1[a].data.children()[i],
            ) implies r1[r1[a].data.children()[i]].marked || w1.contains(
            r1[a].data.children()[i],
        ) by {
            let c = r1[a].data.children()[i];
            assert(r1[a].data == records[a].data);
            if a == p {
                assert(w1[i] == c);
            } else {
                assert(records[a].marked);
                assert(records[a].data.children()[i] == c);
                assert(records[c].marked || Seq::<GcPointer>::empty().contains(c));
            }
        }
        lemma_drain_closed(base, r1, w1, queue + records[p].data.ephemerons());
    }
}

/// The pass over the chain keeps every record marked since `base` with all
/// its live children marked.
pub proof fn lemma_mark_roots_closed<T: Trace>(
    base: Map<GcPointer, Record<T>>,
    records: Map<GcPointer, Record<T>>,
    chain: Seq<GcPointer>,
    i: nat,
    queue: Seq<(GcPointer, GcPointer)>,
)
    requires
        records.dom().finite(),
        marks_grow(base, records),
        closed(base, records, Seq::empty()),
    ensures
        closed(base, mark_roots(records, chain, i, queue).0, Seq::empty()),
        marks_grow(base, mark_roots(records, chain, i, queue).0),
    decreases chain.len() - i,
{
    if i < chain.len() {
        let p = chain[i as int];
        if records.dom().contains(p) && records[p].roots > 0 {
            lemma_mark_from_closed(base, records, p, queue);
            let (r, q) = mark_from(records, p, queue);
            lemma_mark_roots_closed(base, r, chain, i + 1, q);
        } else {
            lemma_mark_roots_closed(base, records, chain, i + 1, queue);
        }
    }
}

/// Ephemeron resolution keeps every record marked since `base` with all
/// its live children marked.
pub proof fn lemma_resolve_closed<T: Trace>(
    base: Map<GcPointer, Record<T>>,
    records: Map<GcPointer, Record<T>>,
    queue: Seq<(GcPointer, GcPointer)>,
    idx: nat,
)
    requires
        records.dom().finite(),
        marks_grow(base, records),
        closed(base, records, Seq::empty()),
    ensures
        closed(base, resolve(records, queue, idx), Seq::empty()),
        marks_grow(base, resolve(records, queue, idx)),
    decreases unmarked(records).len(), queue.len() - idx,
{
    if idx < queue.len() {
        let (k, v) = queue[idx as int];
        if key_reachable(records, k) && records.dom().contains(v) && !records[v].marked {
            lemma_mark_from(records, v, queue);
            lemma_mark_from_closed(base, records, v, queue);
            let (r, q) = mark_from(records, v, queue);
            lemma_resolve_closed(base, r, q, idx + 1);
        } else {
            lemma_resolve_closed(base, records, queue, idx + 1);
        }
    }
}

/// Along a path that starts at a marked record, in records where marking
/// is closed, every record is marked.
proof fn lemma_path_marked<T: Trace>(
    base: Map<GcPointer, Record<T>>,
    end: Map<GcPointer, Record<T>>,
    path: Seq<GcPointer>,
    n: int,
)
    requires
        forall|p: GcPointer| #[trigger] base.dom().contains(p) ==> !base[p].marked,
        marks_grow(base, end),
        closed(base, end, Seq::empty()),
        is_path(base, path),
        end[path[0]].marked,
        0 <= n < path.len(),
    ensures
        forall|i: int| 0 <= i <= n ==> end[#[trigger] path[i]].marked,
    decreases n,
{
    if n > 0 {
        lemma_path_marked(base, end, path, n - 1);
        let a = path[n - 1];
        let c = path[n];
        assert(end[a].marked);
        assert(base.dom().contains(a));
        assert(base.dom().contains(c));
        assert(base[a].data.children().contains(c));
        let i = base[a].data.children().index_of(c);
        assert(end[a].data.children()[i] == c);
        assert(end[end[a].data.children()[i]].marked || Seq::<GcPointer>::empty().contains(c));
    }
}

/// A mark phase on records without marks marks every record that edges
/// lead to from a rooted record of the chain.
pub proof fn lemma_mark_all_reaches<T: Trace>(
    records: Map<GcPointer, Record<T>>,
    chain: Seq<GcPointer>,
    path: Seq<GcPointer>,
)
    requires
        records.dom().finite(),
        forall|p: GcPointer| #[trigger] records.dom().contains(p) ==> !records[p].marked,
        is_path(records, path),
        chain.contains(path[0]),
        records[path[0]].roots > 0,
    ensures
        forall|i: int| 0 <= i < path.len() ==> mark_all(records, chain)[#[trigger] path[i]].marked,
{
    let end = mark_all(records, chain);
    lemma_mark_all(records, chain);
    let (r, q) = mark_roots(records, chain, 0, Seq::<(GcPointer, GcPointer)>::empty());
    assert(marks_grow(records, records));
    lemma_mark_roots_closed(records, records, chain, 0, Seq::empty());
    lemma_resolve_closed(records, r, q, 0);
    assert(closed(records, end, Seq::empty()));
    lemma_path_marked(records, end, path, path.len() - 1);
}

/// What can be marked in `n` steps can be marked in more.
pub proof fn lemma_within_more<T: Trace>(
    records: Map<GcPointer, Record<T>>,
    p: GcPointer,
    n: nat,
    m: nat,
)
    requires
        within(records, p, n),
        n <= m,
    ensures
        within(records, p, m),
    decreases n,
{
    if records[p].roots > 0 {
    } else if exists|a: GcPointer| #[trigger]
        holds_child(records, a, p) && within(records, a, (n - 1) as nat) {
        let a = choose|a: GcPointer| #[trigger]
            holds_child(records, a, p) && within(records, a, (n - 1) as nat);
        lemma_within_more(records, a, (n - 1) as nat, (m - 1) as nat);
        assert(holds_child(records, a, p) && within(records, a, (m - 1) as nat));
    } else {
        let (a, k) = choose|a: GcPointer, k: GcPointer| #[trigger]
            holds_pair(records, a, k, p) && within(records, a, (n - 1) as nat)
                && records.dom().contains(k) && (records[k].data.resolved_ephemeron() || within(records, k, (n - 1) as nat));
        lemma_within_more(records, a, (n - 1) as nat, (m - 1) as nat);
        if within(records, k, (n - 1) as nat) {
            lemma_within_more(records, k, (n - 1) as nat, (m - 1) as nat);
        }
        assert(holds_pair(records, a, k, p) && within(records, a, (m - 1) as nat));
    }
}

/// A child of a record that can be marked can be marked.
pub proof fn lemma_attainable_child<T: Trace>(
    records: Map<GcPointer, Record<T>>,
    a: GcPointer,
    c: GcPointer,
)
    requires
        attainable(records, a),
        records[a].data.children().contains(c),
        records.dom().contains(c),
    ensures
        attainable(records, c),
{
    let n = choose|n: nat| within(records, a, n);
    let m: nat = n + 1;
    assert(holds_child(records, a, c) && within(records, a, (m - 1) as nat));
    assert(within(records, c, m));
}

/// The value of an ephemeron pair can be marked if the record that holds
/// the pair can be marked and the key counts as reachable.
pub proof fn lemma_attainable_value<T: Trace>(
    records: Map<GcPointer, Record<T>>,
    a: GcPointer,
    k: GcPointer,
    v: GcPointer,
)
    requires
        attainable(records, a),
        records[a].data.ephemerons().contains((k, v)),
        records.dom().contains(k),
        records[k].data.resolved_ephemeron() || attainable(records, k),
        records.dom().contains(v),
    ensures
        attainable(records, v),
{
    let n1 = choose|n: nat| within(records, a, n);
    if records[k].data.resolved_ephemeron() {
        let m: nat = n1 + 1;
        assert(holds_pair(records, a, k, v) && within(records, a, (m - 1) as nat));
        assert(within(records, v, m));
    } else {
        let n2 = choose|n: nat| within(records, k, n);
        let top = if n1 >= n2 { n1 } else { n2 };
        lemma_within_more(records, a, n1, top);
        lemma_within_more(records, k, n2, top);
        let m: nat = top + 1;
        assert(holds_pair(records, a, k, v) && within(records, a, (m - 1) as nat) && within(
            records,
            k,
            (m - 1) as nat,
        ));
        assert(within(records, v, m));
    }
}

/// Whether some record that can be marked holds the ephemeron pair `pair`.
pub open spec fn held<T: Trace>(
    base: Map<GcPointer, Record<T>>,
    pair: (GcPointer, GcPointer),
) -> bool {
    exists|a: GcPointer|
        attainable(base, a) && #[trigger] base[a].data.ephemerons().contains(pair)
}

/// Every record marked since `base` can be marked, every live record of
/// the worklist can be marked, and every pair of the queue is held by a
/// record that can be marked.
pub open spec fn justified<T: Trace>(
    base: Map<GcPointer, Record<T>>,
    records: Map<GcPointer, Record<T>>,
    worklist: Seq<GcPointer>,
    queue: Seq<(GcPointer, GcPointer)>,
) -> bool {
    &&& forall|q: GcPointer|
        #![trigger records[q].marked]
        records.dom().contains(q) && records[q].marked && !base[q].marked ==> attainable(base, q)
    &&& forall|i: int|
        0 <= i < worklist.len() && base.dom().contains(#[trigger] worklist[i]) ==> attainable(
            base,
            worklist[i],
        )
    &&& forall|i: int| 0 <= i < queue.len() ==> held(base, #[trigger] queue[i])
}

/// Draining a worklist marks only what can be marked.
pub proof fn lemma_drain_justified<T: Trace>(
    base: Map<GcPointer, Record<T>>,
    records: Map<GcPointer, Record<T>>,
    worklist: Seq<GcPointer>,
    queue: Seq<(GcPointer, GcPointer)>,
)
    requires
        forall|p: GcPointer| #[trigger] base.dom().contains(p) ==> !base[p].marked,
        records.dom().finite(),
        marks_grow(base, records),
        justified(base, records, worklist, queue),
    ensures
        justified(
            base,
            drain(records, worklist, queue).0,
            Seq::empty(),
            drain(records, worklist, queue).1,
        ),
        marks_grow(base, drain(records, worklist, queue).0),
    decreases unmarked(records).len(), worklist.len(),
{
    lemma_drain(records, worklist, queue);
    lemma_marks_grow_trans(base, records, drain(records, worklist, queue).0);
    if worklist.len() > 0 {
        let p = worklist.last();
        let rest = worklist.drop_last();
        if records.dom().contains(p) && !records[p].marked {
            lemma_set_mark_unmarked(records, p);
            let r1 = set_mark(records, p);
            let children = records[p].data.children();
            let pairs = records[p].data.ephemerons();
            let w1 = rest + children;
            let q1 = queue + pairs;
            assert(worklist[worklist.len() - 1] == p);
            assert(attainable(base, p));
            assert(base[p].data == records[p].data);
            assert(marks_grow(base, r1)) by {
                assert forall|x: GcPointer| #[trigger] base.dom().contains(x) implies r1[x].roots
                    == base[x].roots && r1[x].data == base[x].data && (base[x].marked
                    ==> r1[x].marked) by {
                    assert(records.dom().contains(x));
                }
            }
            assert forall|q: GcPointer|
                #![trigger r1[q].marked]
                r1.dom().contains(q) && r1[q].marked && !base[q].marked implies attainable(
                base,
                q,
            ) by {
                if q != p {
                    assert(records[q].marked);
                }
            }
            assert forall|i: int|
                0 <= i < w1.len() && base.dom().contains(#[trigger] w1[i]) implies attainable(
                base,
                w1[i],
            ) by {
                if i < rest.len() {
                    assert(w1[i] == worklist[i]);
                } else {
                    assert(w1[i] == children[i - rest.len()]);
                    assert(children.contains(w1[i]));
                    lemma_attainable_child(base, p, w1[i]);
                }
            }
            assert forall|i: int| 0 <= i < q1.len() implies held(base, #[trigger] q1[i]) by {
                if i < queue.len() {
                    assert(q1[i] == queue[i]);
                } else {
                    assert(q1[i] == pairs[i - queue.len()]);
                    assert(base[p].data.ephemerons().contains(q1[i]));
                }
            }
            lemma_drain_justified(base, r1, w1, q1);
        } else {
            assert forall|i: int|
                0 <= i < rest.len() && base.dom().contains(#[trigger] rest[i]) implies attainable(
                base,
                rest[i],
            ) by {
                assert(rest[i] == worklist[i]);
            }
            lemma_drain_justified(base, records, rest, queue);
        }
    }
}

/// Marking from a record that can be marked marks only what can be marked.
pub proof fn lemma_mark_from_justified<T: Trace>(
    base: Map<GcPointer, Record<T>>,
    records: Map<GcPointer, Record<T>>,
    p: GcPointer,
    queue: Seq<(GcPointer, GcPointer)>,
)
    requires
        forall|p: GcPointer| #[trigger] base.dom().contains(p) ==> !base[p].marked,
        records.dom().finite(),
        marks_grow(base, records),
        justified(base, records, Seq::empty(), queue),
        records.dom().contains(p) ==> attainable(base, p),
    ensures
        justified(
            base,
            mark_from(records, p, queue).0,
            Seq::empty(),
            mark_from(records, p, queue).1,
        ),
        marks_grow(base, mark_from(records, p, queue).0),
{
    lemma_mark_from(records, p, queue);
    lemma_marks_grow_trans(base, records, mark_from(records, p, queue).0);
    if records.dom().contains(p) {
        let pairs = records[p].data.ephemerons();
        let children = records[p].data.children();
        let q1 = queue + pairs;
        assert(base[p].data == records[p].data);
        assert forall|i: int| 0 <= i < q1.len() implies held(base, #[trigger] q1[i]) by {
            if i < queue.len() {
                assert(q1[i] == queue[i]);
            } else {
                assert(q1[i] == pairs[i - queue.len()]);
                assert(base[p].data.ephemerons().contains(q1[i]));
            }
        }
        if !records[p].marked {
            lemma_set_mark_unmarked(records, p);
            let r1 = set_mark(records, p);
            assert(marks_grow(base, r1)) by {
                assert forall|x: GcPointer| #[trigger] base.dom().contains(x) implies r1[x].roots
                    == base[x].roots && r1[x].data == base[x].data && (base[x].marked
                    ==> r1[x].marked) by {
                    assert(records.dom().contains(x));
                }
            }
            assert forall|q: GcPointer|
                #![trigger r1[q].marked]
                r1.dom().contains(q) && r1[q].marked && !base[q].marked implies attainable(
                base,
                q,
            ) by {
                if q != p {
                    assert(records[q].marked);
                }
            }
            assert forall|i: int|
                0 <= i < children.len() && base.dom().contains(
                    #[trigger] children[i],
                ) implies attainable(base, children[i]) by {
                assert(children.contains(children[i]));
                lemma_attainable_child(base, p, children[i]);
            }
            lemma_drain_justified(base, r1, children, q1);
        }
    }
}

/// The pass over the chain marks only what can be marked.
pub proof fn lemma_mark_roots_justified<T: Trace>(
    base: Map<GcPointer, Record<T>>,
    records: Map<GcPointer, Record<T>>,
    chain: Seq<GcPointer>,
    i: nat,
    queue: Seq<(GcPointer, GcPointer)>,
)
    requires
        forall|p: GcPointer| #[trigger] base.dom().contains(p) ==> !base[p].marked,
        records.dom().finite(),
        marks_grow(base, records),
        justified(base, records, Seq::empty(), queue),
    ensures
        justified(
            base,
            mark_roots(records, chain, i, queue).0,
            Seq::empty(),
            mark_roots(records, chain, i, queue).1,
        ),
        marks_grow(base, mark_roots(records, chain, i, queue).0),
    decreases chain.len() - i,
{
    if i < chain.len() {
        let p = chain[i as int];
        if records.dom().contains(p) && records[p].roots > 0 {
            assert(base.dom().contains(p));
            assert(within(base, p, 1));
            lemma_mark_from_justified(base, records, p, queue);
            let (r, q) = mark_from(records, p, queue);
            lemma_mark_from(records, p, queue);
            lemma_mark_roots_justified(base, r, chain, i + 1, q);
        } else {
            lemma_mark_roots_justified(base, records, chain, i + 1, queue);
        }
    }
}

/// Ephemeron resolution marks only what can be marked.
pub proof fn lemma_resolve_justified<T: Trace>(
    base: Map<GcPointer, Record<T>>,
    records: Map<GcPointer, Record<T>>,
    queue: Seq<(GcPointer, GcPointer)>,
    idx: nat,
)
    requires
        forall|p: GcPointer| #[trigger] base.dom().contains(p) ==> !base[p].marked,
        records.dom().finite(),
        marks_grow(base, records),
        justified(base, records, Seq::empty(), queue),
    ensures
        justified(base, resolve(records, queue, idx), Seq::empty(), Seq::empty()),
        marks_grow(base, resolve(records, queue, idx)),
    decreases unmarked(records).len(), queue.len() - idx,
{
    if idx < queue.len() {
        let (k, v) = queue[idx as int];
        if key_reachable(records, k) && records.dom().contains(v) && !records[v].marked {
            assert(held(base, queue[idx as int]));
            let a = choose|a: GcPointer|
                attainable(base, a) && #[trigger] base[a].data.ephemerons().contains(
                    queue[idx as int],
                );
            assert(base.dom().contains(k));
            assert(base[k].data == records[k].data);
            if records[k].marked && !base[k].marked {
                assert(attainable(base, k));
            }
            assert(queue[idx as int] == (k, v));
            lemma_attainable_value(base, a, k, v);
            lemma_mark_from(records, v, queue);
            lemma_mark_from_justified(base, records, v, queue);
            let (r, q) = mark_from(records, v, queue);
            lemma_resolve_justified(base, r, q, idx + 1);
        } else {
            lemma_resolve_justified(base, records, queue, idx + 1);
        }
    }
}

/// A mark phase marks only what can be marked.
pub proof fn lemma_mark_all_justified<T: Trace>(
    records: Map<GcPointer, Record<T>>,
    chain: Seq<GcPointer>,
)
    requires
        forall|p: GcPointer| #[trigger] records.dom().contains(p) ==> !records[p].marked,
        records.dom().finite(),
    ensures
        forall|q: GcPointer|
            #![trigger mark_all(records, chain)[q].marked]
            records.dom().contains(q) && mark_all(records, chain)[q].marked && !records[q].marked
                ==> attainable(records, q),
{
    assert(marks_grow(records, records));
    lemma_mark_roots_justified(records, records, chain, 0, Seq::empty());
    let (r, q) = mark_roots(records, chain, 0, Seq::<(GcPointer, GcPointer)>::empty());
    lemma_resolve_justified(records, r, q, 0);
}

/// What can be marked on records whose marks were cleared can be marked on
/// the records themselves.
pub proof fn lemma_within_cleared<T: Trace>(
    records: Map<GcPointer, Record<T>>,
    cleared: Map<GcPointer, Record<T>>,
    p: GcPointer,
    n: nat,
)
    requires
        cleared.dom() == records.dom(),
        forall|q: GcPointer| #[trigger]
            records.dom().contains(q) ==> cleared[q].roots == records[q].roots && cleared[q].data
                == records[q].data && !cleared[q].marked,
        within(cleared, p, n),
    ensures
        within(records, p, n),
    decreases n,
{
    assert(records.dom().contains(p));
    if cleared[p].roots > 0 {
    } else if exists|a: GcPointer| #[trigger]
        holds_child(cleared, a, p) && within(cleared, a, (n - 1) as nat) {
        let a = choose|a: GcPointer| #[trigger]
            holds_child(cleared, a, p) && within(cleared, a, (n - 1) as nat);
        lemma_within_cleared(records, cleared, a, (n - 1) as nat);
        assert(records.dom().contains(a));
        assert(holds_child(records, a, p) && within(records, a, (n - 1) as nat));
    } else {
        let (a, k) = choose|a: GcPointer, k: GcPointer| #[trigger]
            holds_pair(cleared, a, k, p) && within(cleared, a, (n - 1) as nat)
                && cleared.dom().contains(k) && (cleared[k].data.resolved_ephemeron() || within(cleared, k, (n - 1) as nat));
        lemma_within_cleared(records, cleared, a, (n - 1) as nat);
        assert(records.dom().contains(a));
        assert(records.dom().contains(k));
        if within(cleared, k, (n - 1) as nat) {
            lemma_within_cleared(records, cleared, k, (n - 1) as nat);
        }
        assert(holds_pair(records, a, k, p) && within(records, a, (n - 1) as nat));
    }
}

/// Where no record of the chain has a root, the pass over the chain does
/// nothing.
pub proof fn lemma_mark_roots_no_roots<T: Trace>(
    records: Map<GcPointer, Record<T>>,
    chain: Seq<GcPointer>,
    i: nat,
    queue: Seq<(GcPointer, GcPointer)>,
)
    requires
        forall|p: GcPointer| #[trigger] records.dom().contains(p) ==> records[p].roots == 0,
    ensures
        mark_roots(records, chain, i, queue) == (records, queue),
    decreases chain.len() - i,
{
    if i < chain.len() {
        lemma_mark_roots_no_roots(records, chain, i + 1, queue);
    }
}

/// Where no chain record is live and without a mark, no record is listed.
pub proof fn lemma_unmarked_nodes_none<T>(
    records: Map<GcPointer, Record<T>>,
    chain: Seq<GcPointer>,
    n: nat,
)
    requires
        forall|p: GcPointer| #[trigger] records.dom().contains(p) ==> records[p].marked,
    ensures
        unmarked_nodes(records, chain, n).len() == 0,
    decreases n,
{
    if n > 0 && n <= chain.len() {
        lemma_unmarked_nodes_none(records, chain, (n - 1) as nat);
    }
}

/// The records `ro` are the records `rc` without those outside `kept`;
/// no record outside `kept` is marked.
pub open spec fn sim<T>(
    rc: Map<GcPointer, Record<T>>,
    ro: Map<GcPointer, Record<T>>,
    kept: Set<GcPointer>,
) -> bool {
    &&& ro.dom() == kept
    &&& forall|q: GcPointer| #[trigger] kept.contains(q) ==> rc.dom().contains(q) && ro[q] == rc[q]
    &&& forall|q: GcPointer| #[trigger] rc.dom().contains(q) && !kept.contains(q) ==> !rc[q].marked
}

/// Every marked record of `records` is in `kept`.
pub open spec fn marks_within<T>(records: Map<GcPointer, Record<T>>, kept: Set<GcPointer>) -> bool {
    forall|q: GcPointer| #[trigger] records.dom().contains(q) && records[q].marked ==> kept.contains(q)
}

/// Draining a worklist that marks no record outside `kept` goes the same
/// way without the records outside `kept`.
pub proof fn lemma_drain_sim<T: Trace>(
    rc: Map<GcPointer, Record<T>>,
    ro: Map<GcPointer, Record<T>>,
    kept: Set<GcPointer>,
    worklist: Seq<GcPointer>,
    queue: Seq<(GcPointer, GcPointer)>,
)
    requires
        rc.dom().finite(),
        sim(rc, ro, kept),
        marks_within(drain(rc, worklist, queue).0, kept),
    ensures
        sim(drain(rc, worklist, queue).0, drain(ro, worklist, queue).0, kept),
        drain(rc, worklist, queue).1 == drain(ro, worklist, queue).1,
    decreases unmarked(rc).len(), worklist.len(),
{
    assert(kept.subset_of(rc.dom()));
    vstd::set_lib::lemma_len_subset(kept, rc.dom());
    lemma_drain(rc, worklist, queue);
    if worklist.len() > 0 {
        let p = worklist.last();
        let rest = worklist.drop_last();
        if rc.dom().contains(p) && !rc[p].marked {
            lemma_set_mark_unmarked(rc, p);
            let rc1 = set_mark(rc, p);
            lemma_drain(rc1, rest + rc[p].data.children(), queue + rc[p].data.ephemerons());
            assert(rc1.dom().contains(p));
            assert(drain(rc, worklist, queue).0[p].marked);
            assert(kept.contains(p));
            let ro1 = set_mark(ro, p);
            assert(ro1.dom() =~= ro.dom());
            assert(sim(rc1, ro1, kept));
            lemma_drain_sim(
                rc1,
                ro1,
                kept,
                rest + rc[p].data.children(),
                queue + rc[p].data.ephemerons(),
            );
        } else {
            if rc.dom().contains(p) {
                assert(kept.contains(p));
            }
            lemma_drain_sim(rc, ro, kept, rest, queue);
        }
    }
}

/// Marking from a record that marks no record outside `kept` goes the same
/// way without the records outside `kept`.
pub proof fn lemma_mark_from_sim<T: Trace>(
    rc: Map<GcPointer, Record<T>>,
    ro: Map<GcPointer, Record<T>>,
    kept: Set<GcPointer>,
    p: GcPointer,
    queue: Seq<(GcPointer, GcPointer)>,
)
    requires
        rc.dom().finite(),
        sim(rc, ro, kept),
        marks_within(mark_from(rc, p, queue).0, kept),
        rc.dom().contains(p) ==> kept.contains(p),
    ensures
        sim(mark_from(rc, p, queue).0, mark_from(ro, p, queue).0, kept),
        mark_from(rc, p, queue).1 == mark_from(ro, p, queue).1,
{
    assert(kept.subset_of(rc.dom()));
    vstd::set_lib::lemma_len_subset(kept, rc.dom());
    if rc.dom().contains(p) && !rc[p].marked {
        lemma_set_mark_unmarked(rc, p);
        let rc1 = set_mark(rc, p);
        let ro1 = set_mark(ro, p);
        assert(ro1.dom() =~= ro.dom());
        assert(sim(rc1, ro1, kept));
        lemma_drain_sim(rc1, ro1, kept, rc[p].data.children(), queue + rc[p].data.ephemerons());
    }
}

/// The pass over the chain, where it marks no record outside `kept` and
/// every rooted record is in `kept`, goes the same way without the records
/// outside `kept`.
pub proof fn lemma_mark_roots_sim<T: Trace>(
    rc: Map<GcPointer, Record<T>>,
    ro: Map<GcPointer, Record<T>>,
    kept: Set<GcPointer>,
    chain: Seq<GcPointer>,
    i: nat,
    queue: Seq<(GcPointer, GcPointer)>,
)
    requires
        rc.dom().finite(),
        sim(rc, ro, kept),
        marks_within(mark_roots(rc, chain, i, queue).0, kept),
    ensures
        sim(mark_roots(rc, chain, i, queue).0, mark_roots(ro, chain, i, queue).0, kept),
        mark_roots(rc, chain, i, queue).1 == mark_roots(ro, chain, i, queue).1,
    decreases chain.len() - i,
{
    if i < chain.len() {
        let p = chain[i as int];
        if rc.dom().contains(p) && rc[p].roots > 0 {
            lemma_mark_from(rc, p, queue);
            let (r, q) = mark_from(rc, p, queue);
            lemma_mark_roots(r, chain, i + 1, q);
            assert(r.dom().contains(p));
            assert(mark_roots(rc, chain, i, queue).0[p].marked);
            assert(kept.contains(p));
            assert(marks_within(r, kept)) by {
                assert forall|x: GcPointer| #[trigger] r.dom().contains(x) && r[x].marked implies kept.contains(
                    x,
                ) by {
                    assert(mark_roots(r, chain, i + 1, q).0[x].marked);
                }
            }
            lemma_mark_from_sim(rc, ro, kept, p, queue);
            lemma_mark_roots_sim(r, mark_from(ro, p, queue).0, kept, chain, i + 1, q);
        } else {
            if rc.dom().contains(p) && kept.contains(p) {
                assert(ro[p] == rc[p]);
            }
            lemma_mark_roots_sim(rc, ro, kept, chain, i + 1, queue);
        }
    }
}

/// Ephemeron resolution, where it marks no record outside `kept` and no
/// record outside `kept` says it is a resolved ephemeron, goes the same way
/// without the records outside `kept`.
pub proof fn lemma_resolve_sim<T: Trace>(
    rc: Map<GcPointer, Record<T>>,
    ro: Map<GcPointer, Record<T>>,
    kept: Set<GcPointer>,
    queue: Seq<(GcPointer, GcPointer)>,
    idx: nat,
)
    requires
        rc.dom().finite(),
        sim(rc, ro, kept),
        marks_within(resolve(rc, queue, idx), kept),
        forall|k: GcPointer| #[trigger]
            rc.dom().contains(k) && !kept.contains(k) ==> !rc[k].data.resolved_ephemeron(),
    ensures
        sim(resolve(rc, queue, idx), resolve(ro, queue, idx), kept),
    decreases unmarked(rc).len(), queue.len() - idx,
{
    assert(kept.subset_of(rc.dom()));
    vstd::set_lib::lemma_len_subset(kept, rc.dom());
    if idx < queue.len() {
        let (k, v) = queue[idx as int];
        if rc.dom().contains(k) && kept.contains(k) {
            assert(ro[k] == rc[k]);
        }
        if rc.dom().contains(v) && kept.contains(v) {
            assert(ro[v] == rc[v]);
        }
        assert(key_reachable(rc, k) == key_reachable(ro, k));
        if key_reachable(rc, k) && rc.dom().contains(v) && !rc[v].marked {
            lemma_mark_from(rc, v, queue);
            let (r, q) = mark_from(rc, v, queue);
            lemma_resolve(r, q, idx + 1);
            assert(r.dom().contains(v));
            assert(resolve(rc, queue, idx)[v].marked);
            assert(kept.contains(v));
            assert(marks_within(r, kept)) by {
                assert forall|x: GcPointer| #[trigger] r.dom().contains(x) && r[x].marked implies kept.contains(
                    x,
                ) by {
                    assert(resolve(r, q, idx + 1)[x].marked);
                }
            }
            lemma_mark_from_sim(rc, ro, kept, v, queue);
            assert forall|x: GcPointer| #[trigger]
                r.dom().contains(x) && !kept.contains(x) implies !r[x].data.resolved_ephemeron() by {
                assert(rc.dom().contains(x));
            }
            lemma_resolve_sim(r, mark_from(ro, v, queue).0, kept, q, idx + 1);
        } else {
            lemma_resolve_sim(rc, ro, kept, queue, idx + 1);
        }
    }
}

/// A mark phase that marks exactly the records of `kept`, none of which
/// says outside `kept` that it is a resolved ephemeron, marks them all
/// again once the other records are gone.
pub proof fn lemma_mark_all_sim<T: Trace>(
    rc: Map<GcPointer, Record<T>>,
    ro: Map<GcPointer, Record<T>>,
    kept: Set<GcPointer>,
    chain: Seq<GcPointer>,
)
    requires
        rc.dom().finite(),
        sim(rc, ro, kept),
        marks_within(mark_all(rc, chain), kept),
        forall|k: GcPointer| #[trigger]
            rc.dom().contains(k) && !kept.contains(k) ==> !rc[k].data.resolved_ephemeron(),
    ensures
        sim(mark_all(rc, chain), mark_all(ro, chain), kept),
{
    lemma_mark_roots(rc, chain, 0, Seq::empty());
    let (r, q) = mark_roots(rc, chain, 0, Seq::<(GcPointer, GcPointer)>::empty());
    lemma_resolve(r, q, 0);
    assert(marks_within(r, kept)) by {
        assert forall|x: GcPointer| #[trigger] r.dom().contains(x) && r[x].marked implies kept.contains(
            x,
        ) by {
            assert(resolve(r, q, 0)[x].marked);
        }
    }
    lemma_mark_roots_sim(rc, ro, kept, chain, 0, Seq::empty());
    assert forall|x: GcPointer| #[trigger]
        r.dom().contains(x) && !kept.contains(x) implies !r[x].data.resolved_ephemeron() by {
        assert(rc.dom().contains(x));
    }
    lemma_resolve_sim(
        r,
        mark_roots(ro, chain, 0, Seq::<(GcPointer, GcPointer)>::empty()).0,
        kept,
        q,
        0,
    );
}

/// The pass over the chain takes no notice of a chain entry that names no
/// record.
pub proof fn lemma_mark_roots_skips<T: Trace>(
    records: Map<GcPointer, Record<T>>,
    chain: Seq<GcPointer>,
    m: int,
    i: nat,
    queue: Seq<(GcPointer, GcPointer)>,
)
    requires
        records.dom().finite(),
        0 <= m < chain.len(),
        !records.dom().contains(chain[m]),
    ensures
        i <= m ==> mark_roots(records, chain, i, queue) == mark_roots(
            records,
            chain.remove(m),
            i,
            queue,
        ),
        i > m ==> mark_roots(records, chain, i, queue) == mark_roots(
            records,
            chain.remove(m),
            (i - 1) as nat,
            queue,
        ),
    decreases chain.len() - i,
{
    let rest = chain.remove(m);
    if i < chain.len() {
        let p = chain[i as int];
        if i < m {
            assert(rest[i as int] == p);
        } else if i > m {
            assert(rest[i - 1] == p);
        }
        if i != m && records.dom().contains(p) && records[p].roots > 0 {
            lemma_mark_from(records, p, queue);
            let (r, q) = mark_from(records, p, queue);
            lemma_mark_roots_skips(r, chain, m, i + 1, q);
        } else {
            lemma_mark_roots_skips(records, chain, m, i + 1, queue);
        }
    }
}

} // verus!
