//! What the steps of a collection keep and change: the groundwork for
//! the contracts of the collector and for the laws.

use crate::header::{GcPointer, ROOTS_MAX};
use crate::heap::{
    clear_marks, drain, finalizers_leave, incoming_at, key_reachable, mark_all, mark_from, mark_roots, names,
    record_size, resolve, revive, set_mark, slots_ok, unmarked, unmarked_nodes, Heap, Record,
    Unmarked,
};
use crate::trace::Trace;
use vstd::prelude::*;

verus! {

/// `after` holds the same records as `before`, with the same root counts and
/// values, and every mark of `before`.
pub open spec fn marks_grow<T>(
    before: Map<GcPointer, Record<T>>,
    after: Map<GcPointer, Record<T>>,
) -> bool {
    &&& after.dom() == before.dom()
    &&& forall|p: GcPointer| #[trigger]
        before.dom().contains(p) ==> {
            &&& after[p].roots == before[p].roots
            &&& after[p].data == before[p].data
            &&& (before[p].marked ==> after[p].marked)
        }
}

/// `after` holds the same records as `before`, with the same marks and
/// values, and root counts that are no smaller.
pub open spec fn roots_grow<T>(
    before: Map<GcPointer, Record<T>>,
    after: Map<GcPointer, Record<T>>,
) -> bool {
    &&& after.dom() == before.dom()
    &&& forall|p: GcPointer| #[trigger]
        before.dom().contains(p) ==> {
            &&& after[p].marked == before[p].marked
            &&& after[p].data == before[p].data
            &&& after[p].roots >= before[p].roots
            &&& (before[p].roots <= ROOTS_MAX ==> after[p].roots <= ROOTS_MAX)
        }
}

/// What the finalizers of the listed records can leave depends on the
/// values of those records alone.
pub proof fn lemma_finalizers_leave_by_values<T: Trace>(
    records: Map<GcPointer, Record<T>>,
    others: Map<GcPointer, Record<T>>,
    unmarked: Seq<Unmarked>,
    before: Seq<GcPointer>,
    after: Seq<GcPointer>,
)
    requires
        forall|k: int|
            0 <= k < unmarked.len() ==> others[(#[trigger] unmarked[k]).this].data
                == records[unmarked[k].this].data,
        finalizers_leave(records, unmarked, before, after),
    ensures
        finalizers_leave(others, unmarked, before, after),
    decreases unmarked.len(),
{
    if unmarked.len() > 0 {
        let between = choose|between: Seq<GcPointer>|
            finalizers_leave(records, unmarked.drop_last(), before, between)
                && #[trigger] records[unmarked.last().this].data.finalizes(between, after);
        assert forall|k: int| 0 <= k < unmarked.drop_last().len() implies others[(
        #[trigger] unmarked.drop_last()[k]).this].data == records[unmarked.drop_last()[k].this].data by {
            assert(unmarked.drop_last()[k] == unmarked[k]);
        }
        lemma_finalizers_leave_by_values(records, others, unmarked.drop_last(), before, between);
        assert(unmarked[unmarked.len() - 1] == unmarked.last());
        assert(finalizers_leave(others, unmarked.drop_last(), before, between)
            && others[unmarked.last().this].data.finalizes(between, after));
    }
}

/// In a sequence without duplicates an element is found where it stands.
pub proof fn lemma_index_of_unique(s: Seq<GcPointer>, j: int)
    requires
        s.no_duplicates(),
        0 <= j < s.len(),
    ensures
        s.contains(s[j]),
        s.index_of(s[j]) == j,
{
    assert(s.contains(s[j]));
    let i = s.index_of(s[j]);
    assert(s[i] == s[j]);
}

/// Taking one element out of a sequence without duplicates leaves none.
pub proof fn lemma_remove_no_duplicates(s: Seq<GcPointer>, m: int)
    requires
        s.no_duplicates(),
        0 <= m < s.len(),
    ensures
        s.remove(m).no_duplicates(),
        !s.remove(m).contains(s[m]),
{
    let t = s.remove(m);
    assert forall|a: int, b: int| 0 <= a < t.len() && 0 <= b < t.len() && a != b implies t[a]
        != t[b] by {
        let a0 = if a < m { a } else { a + 1 };
        let b0 = if b < m { b } else { b + 1 };
        assert(t[a] == s[a0]);
        assert(t[b] == s[b0]);
    }
    if t.contains(s[m]) {
        let a = t.index_of(s[m]);
        let a0 = if a < m { a } else { a + 1 };
        assert(t[a] == s[a0]);
    }
}

/// The list that `unmarked_nodes` gives names live unmarked records of the
/// chain, in chain order and with their slots.
pub proof fn lemma_unmarked_nodes<T>(
    records: Map<GcPointer, Record<T>>,
    chain: Seq<GcPointer>,
    n: nat,
)
    requires
        chain.no_duplicates(),
        n <= chain.len(),
    ensures
        slots_ok(chain, unmarked_nodes(records, chain, n)),
        forall|k: int|
            0 <= k < unmarked_nodes(records, chain, n).len() ==> {
                let node = #[trigger] unmarked_nodes(records, chain, n)[k];
                &&& chain.index_of(node.this) < n
                &&& records.dom().contains(node.this)
                &&& !records[node.this].marked
            },
        forall|j: int|
            0 <= j < n && records.dom().contains(chain[j]) && !records[chain[j]].marked
                ==> exists|k: int|
                0 <= k < unmarked_nodes(records, chain, n).len() && (#[trigger] unmarked_nodes(
                    records,
                    chain,
                    n,
                )[k]).this == chain[j],
    decreases n,
{
    reveal(slots_ok);
    if n > 0 {
        lemma_unmarked_nodes(records, chain, (n - 1) as nat);
        let rest = unmarked_nodes(records, chain, (n - 1) as nat);
        let list = unmarked_nodes(records, chain, n);
        let p = chain[n - 1];
        lemma_index_of_unique(chain, n - 1);
        assert forall|j: int|
            0 <= j < n && records.dom().contains(chain[j]) && !records[chain[j]].marked implies exists|
            k: int,
        |
            0 <= k < list.len() && (#[trigger] list[k]).this == chain[j] by {
            if j < n - 1 {
                let k = choose|k: int| 0 <= k < rest.len() && (#[trigger] rest[k]).this == chain[j];
                assert(list[k] == rest[k]);
            } else {
                assert(list[list.len() - 1].this == chain[j]);
            }
        }
    }
}

/// Once the last record of a list has left the chain, the rest of the list
/// still names records of the chain in order, with their slots.
pub proof fn lemma_slots_after_remove(chain: Seq<GcPointer>, list: Seq<Unmarked>)
    requires
        chain.no_duplicates(),
        slots_ok(chain, list),
        list.len() > 0,
    ensures
        chain.contains(list.last().this),
        list.last().incoming == incoming_at(chain, chain.index_of(list.last().this)),
        slots_ok(chain, list.drop_last()),
        slots_ok(chain.remove(chain.index_of(list.last().this)), list.drop_last()),
{
    reveal(slots_ok);
    let rest = list.drop_last();
    let m = chain.index_of(list.last().this);
    let after = chain.remove(m);
    assert(chain.contains(list[list.len() - 1].this));
    assert(chain[m] == list.last().this);
    lemma_remove_no_duplicates(chain, m);
    assert forall|k: int| 0 <= k < rest.len() implies chain.contains((#[trigger] rest[k]).this)
        && after.contains(rest[k].this) && after.index_of(rest[k].this) == chain.index_of(
        rest[k].this,
    ) && rest[k].incoming == incoming_at(after, after.index_of(rest[k].this)) by {
        assert(rest[k] == list[k]);
        let j = chain.index_of(list[k].this);
        assert(chain.contains(list[k].this));
        assert(chain[j] == list[k].this);
        assert(j < m);
        assert(after[j] == chain[j]);
        lemma_index_of_unique(after, j);
    }
    assert forall|k1: int, k2: int| 0 <= k1 < k2 < rest.len() implies after.index_of(
        (#[trigger] rest[k1]).this,
    ) < after.index_of((#[trigger] rest[k2]).this) by {
        assert(rest[k1] == list[k1]);
        assert(rest[k2] == list[k2]);
    }
    assert forall|k1: int, k2: int| 0 <= k1 < k2 < rest.len() implies chain.index_of(
        (#[trigger] rest[k1]).this,
    ) < chain.index_of((#[trigger] rest[k2]).this) by {
        assert(rest[k1] == list[k1]);
        assert(rest[k2] == list[k2]);
    }
}

/// Marking a live unmarked record takes exactly that record out of the unmarked set.
pub proof fn lemma_set_mark_unmarked<T>(records: Map<GcPointer, Record<T>>, p: GcPointer)
    requires
        records.dom().finite(),
        records.dom().contains(p),
        !records[p].marked,
    ensures
        set_mark(records, p).dom() == records.dom(),
        unmarked(set_mark(records, p)) == unmarked(records).remove(p),
        unmarked(records).finite(),
        unmarked(records).contains(p),
        unmarked(set_mark(records, p)).len() == unmarked(records).len() - 1,
{
    assert(set_mark(records, p).dom() =~= records.dom());
    assert(unmarked(set_mark(records, p)) =~= unmarked(records).remove(p));
}

/// Where marks only grow, the unmarked set only shrinks.
pub proof fn lemma_marks_grow_unmarked<T>(
    before: Map<GcPointer, Record<T>>,
    after: Map<GcPointer, Record<T>>,
)
    requires
        before.dom().finite(),
        marks_grow(before, after),
    ensures
        unmarked(after).subset_of(unmarked(before)),
        unmarked(before).finite(),
        unmarked(after).len() <= unmarked(before).len(),
{
    assert forall|p: GcPointer| unmarked(after).contains(p) implies unmarked(before).contains(
        p,
    ) by {
        assert(before.dom().contains(p));
    }
    vstd::set_lib::lemma_len_subset(unmarked(after), unmarked(before));
}

/// Marks that grow twice have grown.
pub proof fn lemma_marks_grow_trans<T>(
    a: Map<GcPointer, Record<T>>,
    b: Map<GcPointer, Record<T>>,
    c: Map<GcPointer, Record<T>>,
)
    requires
        marks_grow(a, b),
        marks_grow(b, c),
    ensures
        marks_grow(a, c),
{
    assert forall|p: GcPointer| #[trigger] a.dom().contains(p) implies c[p].roots == a[p].roots
        && c[p].data == a[p].data && (a[p].marked ==> c[p].marked) by {
        assert(b.dom().contains(p));
    }
}

/// Draining a worklist keeps the records, their root counts and values and
/// every mark, and only lengthens the queue.
pub proof fn lemma_drain<T: Trace>(
    records: Map<GcPointer, Record<T>>,
    worklist: Seq<GcPointer>,
    queue: Seq<(GcPointer, GcPointer)>,
)
    requires
        records.dom().finite(),
    ensures
        marks_grow(records, drain(records, worklist, queue).0),
        queue.is_prefix_of(drain(records, worklist, queue).1),
    decreases unmarked(records).len(), worklist.len(),
{
    if worklist.len() == 0 {
    } else {
        let p = worklist.last();
        let rest = worklist.drop_last();
        if records.dom().contains(p) && !records[p].marked {
            lemma_set_mark_unmarked(records, p);
            let r1 = set_mark(records, p);
            let q1 = queue + records[p].data.ephemerons();
            lemma_drain(r1, rest + records[p].data.children(), q1);
            let (r, q) = drain(r1, rest + records[p].data.children(), q1);
            assert forall|x: GcPointer| #[trigger] records.dom().contains(x) implies r[x].roots
                == records[x].roots && r[x].data == records[x].data && (records[x].marked
                ==> r[x].marked) by {
                assert(r1.dom().contains(x));
            }
        } else {
            lemma_drain(records, rest, queue);
        }
    }
}

/// Marking from a record keeps the records, their root counts and values
/// and every mark, only lengthens the queue, and leaves a live start marked.
pub proof fn lemma_mark_from<T: Trace>(
    records: Map<GcPointer, Record<T>>,
    p: GcPointer,
    queue: Seq<(GcPointer, GcPointer)>,
)
    requires
        records.dom().finite(),
    ensures
        marks_grow(records, mark_from(records, p, queue).0),
        queue.is_prefix_of(mark_from(records, p, queue).1),
        records.dom().contains(p) ==> mark_from(records, p, queue).0[p].marked,
        records.dom().contains(p) && !records[p].marked ==> unmarked(
            mark_from(records, p, queue).0,
        ).len() < unmarked(records).len(),
{
    if records.dom().contains(p) && !records[p].marked {
        lemma_set_mark_unmarked(records, p);
        let r1 = set_mark(records, p);
        let q1 = queue + records[p].data.ephemerons();
        lemma_drain(r1, records[p].data.children(), q1);
        let (r, q) = drain(r1, records[p].data.children(), q1);
        assert forall|x: GcPointer| #[trigger] records.dom().contains(x) implies r[x].roots
            == records[x].roots && r[x].data == records[x].data && (records[x].marked
            ==> r[x].marked) by {
            assert(r1.dom().contains(x));
        }
        assert(r1.dom().contains(p));
        lemma_marks_grow_unmarked(r1, r);
    }
}

/// The pass over the chain keeps the records, their root counts and values
/// and every mark, only lengthens the queue, and leaves every rooted record
/// that it passes marked.
pub proof fn lemma_mark_roots<T: Trace>(
    records: Map<GcPointer, Record<T>>,
    chain: Seq<GcPointer>,
    i: nat,
    queue: Seq<(GcPointer, GcPointer)>,
)
    requires
        records.dom().finite(),
    ensures
        marks_grow(records, mark_roots(records, chain, i, queue).0),
        queue.is_prefix_of(mark_roots(records, chain, i, queue).1),
        forall|j: int|
            i <= j < chain.len() && records.dom().contains(#[trigger] chain[j])
                && records[chain[j]].roots > 0 ==> mark_roots(
                records,
                chain,
                i,
                queue,
            ).0[chain[j]].marked,
    decreases chain.len() - i,
{
    if i < chain.len() {
        let p = chain[i as int];
        if records.dom().contains(p) && records[p].roots > 0 {
            lemma_mark_from(records, p, queue);
            let (r, q) = mark_from(records, p, queue);
            lemma_mark_roots(r, chain, i + 1, q);
            let (r2, q2) = mark_roots(r, chain, i + 1, q);
            lemma_marks_grow_trans(records, r, r2);
            assert(r.dom().contains(p));
            assert forall|j: int|
                i <= j < chain.len() && records.dom().contains(#[trigger] chain[j])
                    && records[chain[j]].roots > 0 implies r2[chain[j]].marked by {
                assert(r.dom().contains(chain[j]));
            }
        } else {
            lemma_mark_roots(records, chain, i + 1, queue);
        }
    }
}

/// Ephemeron resolution keeps the records, their root counts and values
/// and every mark.
pub proof fn lemma_resolve<T: Trace>(
    records: Map<GcPointer, Record<T>>,
    queue: Seq<(GcPointer, GcPointer)>,
    idx: nat,
)
    requires
        records.dom().finite(),
    ensures
        marks_grow(records, resolve(records, queue, idx)),
    decreases unmarked(records).len(), queue.len() - idx,
{
    if idx < queue.len() {
        let (k, v) = queue[idx as int];
        if key_reachable(records, k) && records.dom().contains(v) && !records[v].marked {
            lemma_mark_from(records, v, queue);
            let (r, q) = mark_from(records, v, queue);
            lemma_resolve(r, q, idx + 1);
            lemma_marks_grow_trans(records, r, resolve(r, q, idx + 1));
        } else {
            lemma_resolve(records, queue, idx + 1);
        }
    }
}

/// A mark phase keeps the records, their root counts and values and every
/// mark, and leaves every rooted record of the chain marked.
pub proof fn lemma_mark_all<T: Trace>(records: Map<GcPointer, Record<T>>, chain: Seq<GcPointer>)
    requires
        records.dom().finite(),
    ensures
        marks_grow(records, mark_all(records, chain)),
        forall|p: GcPointer|
            chain.contains(p) && #[trigger] records.dom().contains(p) && records[p].roots > 0
                ==> mark_all(records, chain)[p].marked,
{
    lemma_mark_roots(records, chain, 0, Seq::empty());
    let (r, q) = mark_roots(records, chain, 0, Seq::<(GcPointer, GcPointer)>::empty());
    lemma_resolve(r, q, 0);
    let m = resolve(r, q, 0);
    lemma_marks_grow_trans(records, r, m);
    assert forall|p: GcPointer|
        chain.contains(p) && #[trigger] records.dom().contains(p) && records[p].roots
            > 0 implies m[p].marked by {
        let j = chain.index_of(p);
        assert(chain[j] == p);
        assert(r[chain[j]].marked);
        assert(r.dom().contains(p));
    }
}

/// Rooting on request keeps the records, their marks and values, lowers no
/// root count, only lengthens the list of revived records, and leaves every
/// live record that was asked for rooted. Requests that name no live record
/// change nothing.
pub proof fn lemma_revive<T>(
    records: Map<GcPointer, Record<T>>,
    revived: Seq<GcPointer>,
    requests: Seq<GcPointer>,
    i: nat,
)
    ensures
        roots_grow(records, revive(records, revived, requests, i).0),
        revived.is_prefix_of(revive(records, revived, requests, i).1),
        forall|j: int|
            i <= j < requests.len() && records.dom().contains(#[trigger] requests[j]) ==> revive(
                records,
                revived,
                requests,
                i,
            ).0[requests[j]].roots > 0,
        (forall|j: int| i <= j < requests.len() ==> !records.dom().contains(#[trigger] requests[j]))
            ==> revive(records, revived, requests, i) == (records, revived),
    decreases requests.len() - i,
{
    if i < requests.len() {
        let p = requests[i as int];
        if records.dom().contains(p) && records[p].roots < ROOTS_MAX {
            let r1 = records.insert(
                p,
                Record {
                    roots: records[p].roots + 1,
                    marked: records[p].marked,
                    data: records[p].data,
                },
            );
            assert(r1.dom() =~= records.dom());
            lemma_revive(r1, revived.push(p), requests, i + 1);
            let (r, v) = revive(r1, revived.push(p), requests, i + 1);
            assert forall|q: GcPointer| #[trigger] records.dom().contains(q) implies r[q].marked
                == records[q].marked && r[q].data == records[q].data && r[q].roots
                >= records[q].roots && (records[q].roots <= ROOTS_MAX ==> r[q].roots
                <= ROOTS_MAX) by {
                assert(r1.dom().contains(q));
            }
            assert(r1.dom().contains(p));
            assert forall|j: int|
                i <= j < requests.len() && records.dom().contains(
                    #[trigger] requests[j],
                ) implies r[requests[j]].roots > 0 by {
                assert(r1.dom().contains(requests[j]));
            }
        } else {
            lemma_revive(records, revived, requests, i + 1);
            if records.dom().contains(p) {
                assert(records[p].roots >= ROOTS_MAX);
                assert(ROOTS_MAX > 0) by {
                    crate::header::lemma_roots_max();
                }
            }
        }
    }
}

impl<T> Heap<T> {
    /// A sound heap holds finitely many records.
    pub proof fn lemma_finite(self)
        requires
            self.sound(),
        ensures
            self.records.dom().finite(),
    {
        vstd::seq_lib::seq_to_set_is_finite(self.chain);
    }

    /// Linking a record into a sound heap gives a sound heap.
    pub proof fn lemma_link_sound(self, record: Record<T>)
        requires
            self.sound(),
            self.issued <= usize::MAX,
            record.roots <= ROOTS_MAX,
            self.stats.bytes_allocated + record_size::<T>() <= usize::MAX,
        ensures
            self.link(record).sound(),
    {
        let p = self.issued as GcPointer;
        let after = self.link(record);
        assert(!self.records.dom().contains(p));
        assert(!self.chain.contains(p)) by {
            if self.chain.contains(p) {
                assert(self.chain.to_set().contains(p));
            }
        }
        assert(after.chain.no_duplicates()) by {
            assert forall|a: int, b: int|
                0 <= a < after.chain.len() && 0 <= b < after.chain.len() && a != b implies after.chain[a]
                != after.chain[b] by {
                if a > 0 {
                    assert(after.chain[a] == self.chain[a - 1]);
                    assert(self.chain.contains(self.chain[a - 1]));
                }
                if b > 0 {
                    assert(after.chain[b] == self.chain[b - 1]);
                    assert(self.chain.contains(self.chain[b - 1]));
                }
            }
        }
        assert forall|q: GcPointer| after.records.dom().contains(q) <==> after.chain.to_set().contains(
            q,
        ) by {
            if after.records.dom().contains(q) {
                if q == p {
                    assert(after.chain[0] == q);
                } else {
                    assert(self.chain.to_set().contains(q));
                    assert(self.chain.contains(q));
                    let j = self.chain.index_of(q);
                    assert(self.chain[j] == q);
                    assert(after.chain[j + 1] == q);
                }
                assert(after.chain.contains(q));
            }
            if after.chain.contains(q) {
                let j = after.chain.index_of(q);
                assert(after.chain[j] == q);
                if j > 0 {
                    assert(self.chain[j - 1] == q);
                    assert(self.chain.contains(q));
                    assert(self.chain.to_set().contains(q));
                }
            }
        }
        assert(after.records.dom() =~= after.chain.to_set());
        let size = record_size::<T>() as int;
        let len = self.chain.len() as int;
        assert(len * size + size == (len + 1) * size) by (nonlinear_arith);
    }

    /// Freeing a live record keeps a heap sound.
    pub proof fn lemma_free_sound(self, p: GcPointer)
        requires
            self.sound(),
            self.live(p),
        ensures
            self.free(p).sound(),
            self.stats.bytes_allocated >= record_size::<T>(),
            self.free(p).chain.len() == self.chain.len() - 1,
            forall|q: GcPointer| self.free(p).live(q) <==> self.live(q) && q != p,
    {
        let m = self.chain.index_of(p);
        assert(self.chain.to_set().contains(p));
        assert(self.chain.contains(p));
        assert(self.chain[m] == p);
        let after = self.free(p);
        lemma_remove_no_duplicates(self.chain, m);
        assert forall|q: GcPointer| after.records.dom().contains(q) <==> after.chain.to_set().contains(q) by {
            if after.records.dom().contains(q) {
                assert(self.chain.to_set().contains(q));
                assert(self.chain.contains(q));
                let j = self.chain.index_of(q);
                assert(self.chain[j] == q);
                if j < m {
                    assert(after.chain[j] == q);
                } else {
                    assert(after.chain[j - 1] == q);
                }
                assert(after.chain.contains(q));
            }
            if after.chain.contains(q) {
                let j = after.chain.index_of(q);
                assert(after.chain[j] == q);
                if j < m {
                    assert(self.chain[j] == q);
                } else {
                    assert(self.chain[j + 1] == q);
                }
                assert(self.chain.contains(q));
                assert(q != p);
            }
        }
        assert(after.records.dom() =~= after.chain.to_set());
        let size = record_size::<T>() as int;
        let len = self.chain.len() as int;
        assert(len * size - size == (len - 1) * size) by (nonlinear_arith);
        assert(len * size >= size) by (nonlinear_arith)
            requires
                len >= 1,
                size >= 0,
        ;
    }

    /// What a sweep leaves: a sound heap that holds, unchanged, exactly the
    /// records that were not both listed and without a mark.
    pub proof fn lemma_sweep(self, list: Seq<Unmarked>)
        requires
            self.sound(),
        ensures
            self.sweep(list).sound(),
            self.sweep(list).issued == self.issued,
            self.sweep(list).config == self.config,
            self.sweep(list).revived == self.revived,
            self.sweep(list).finalized == self.finalized,
            self.sweep(list).stats.collections_performed == self.stats.collections_performed,
            forall|q: GcPointer|
                #![trigger self.sweep(list).records.dom().contains(q)]
                self.sweep(list).live(q) <==> self.live(q) && !(names(list, q)
                    && !self.records[q].marked),
            forall|q: GcPointer|
                #![trigger self.sweep(list).records[q]]
                self.sweep(list).live(q) ==> self.sweep(list).records[q] == self.records[q],
        decreases list.len(),
    {
        if list.len() > 0 {
            let node = list.last();
            let rest = list.drop_last();
            let next = if self.live(node.this) && !self.records[node.this].marked {
                self.free(node.this)
            } else {
                self
            };
            if self.live(node.this) && !self.records[node.this].marked {
                self.lemma_free_sound(node.this);
            }
            next.lemma_sweep(rest);
            let end = self.sweep(list);
            assert(end == next.sweep(rest));
            assert forall|q: GcPointer| #![trigger end.records.dom().contains(q)]
                end.live(q) <==> self.live(q) && !(names(list, q) && !self.records[q].marked) by {
                if names(rest, q) {
                    let k = choose|k: int| 0 <= k < rest.len() && (#[trigger] rest[k]).this == q;
                    assert(list[k] == rest[k]);
                    assert(names(list, q));
                }
                if names(list, q) && !names(rest, q) {
                    let k = choose|k: int| 0 <= k < list.len() && (#[trigger] list[k]).this == q;
                    if k < rest.len() {
                        assert(rest[k] == list[k]);
                    }
                    assert(q == node.this);
                }
                if q == node.this {
                    assert(list[list.len() - 1].this == q);
                    assert(names(list, q));
                }
                assert(next.live(q) <==> self.live(q) && !(q == node.this && !self.records[q].marked));
                if next.live(q) {
                    assert(next.records[q] == self.records[q]);
                }
            }
            assert forall|q: GcPointer| #![trigger end.records[q]] end.live(q) implies end.records[q]
                == self.records[q] by {
                assert(end.records.dom().contains(q));
                assert(next.live(q));
                assert(end.records[q] == next.records[q]);
            }
        }
    }
}

impl<T: Trace> Heap<T> {
    /// A mark phase keeps a heap sound, changes nothing but marks, takes no
    /// mark away and leaves every rooted record marked.
    pub proof fn lemma_mark(self)
        requires
            self.sound(),
        ensures
            self.mark().sound(),
            marks_grow(self.records, self.mark().records),
            forall|p: GcPointer| #[trigger] self.rooted(p) ==> self.mark().marked(p),
    {
        self.lemma_finite();
        lemma_mark_all(self.records, self.chain);
        assert forall|p: GcPointer| #[trigger] self.rooted(p) implies self.mark().marked(p) by {
            assert(self.chain.to_set().contains(p));
            assert(self.chain.contains(p));
            assert(self.records.dom().contains(p));
        }
    }

    /// What a collection leaves, whatever the finalizers asked for: a sound
    /// heap in which every record that is left was there before, with its
    /// value and at least its root count; every rooted record is left; and
    /// every record that is gone was condemned.
    pub proof fn lemma_collect(self, requests: Seq<GcPointer>)
        requires
            self.sound(),
        ensures
            self.collect(requests).wf(),
            self.collect(requests).issued == self.issued,
            self.collect(requests).config == self.config,
            self.collect(requests).stats.collections_performed == (
            self.stats.collections_performed + 1) as usize,
            self.revived.is_prefix_of(self.collect(requests).revived),
            self.collect(requests).finalized == self.finalized + self.condemned().map_values(
                |node: Unmarked| node.this,
            ),
            forall|q: GcPointer|
                #![trigger self.collect(requests).records.dom().contains(q)]
                self.collect(requests).live(q) ==> {
                    &&& self.live(q)
                    &&& self.collect(requests).records[q].data == self.records[q].data
                    &&& self.collect(requests).records[q].roots >= self.records[q].roots
                },
            forall|q: GcPointer| #[trigger] self.rooted(q) ==> self.collect(requests).live(q),
            forall|q: GcPointer|
                #![trigger self.collect(requests).records.dom().contains(q)]
                self.live(q) && !self.collect(requests).live(q) ==> names(self.condemned(), q),
            self.condemned().len() == 0 ==> self.collect(requests).chain == self.chain
                && self.collect(requests).revived == self.revived,
            (forall|i: int|
                0 <= i < requests.len() ==> !self.records.dom().contains(#[trigger] requests[i]))
                ==> self.collect(requests).revived == self.revived && forall|q: GcPointer|
                #![trigger self.collect(requests).records.dom().contains(q)]
                self.collect(requests).live(q) ==> self.collect(requests).records[q].roots
                    == self.records[q].roots,
    {
        self.lemma_mark();
        let marked = self.mark();
        let unmarked = self.condemned();
        let cleared = self.condemn().finalize(unmarked);
        assert(cleared.records.dom() =~= self.records.dom());
        assert(cleared.sound());
        if unmarked.len() > 0 {
            lemma_revive(cleared.records, cleared.revived, requests, 0);
            let (records, revived) = revive(cleared.records, cleared.revived, requests, 0);
            let rooted = Heap { records, revived, ..cleared };
            assert(rooted.sound());
            rooted.lemma_mark();
            let remarked = rooted.mark();
            remarked.lemma_sweep(unmarked);
            let swept = remarked.sweep(unmarked);
            let end = swept.with_records(clear_marks(swept.records));
            assert(end == self.collect(requests));
            assert(end.records.dom() =~= swept.records.dom());
            assert(end.sound());
            assert forall|q: GcPointer| #![trigger end.records.dom().contains(q)]
                end.live(q) implies self.live(q) && end.records[q].data == self.records[q].data
                && end.records[q].roots >= self.records[q].roots by {
                assert(swept.live(q));
                assert(remarked.live(q));
                assert(swept.records[q] == remarked.records[q]);
                assert(rooted.records.dom().contains(q));
                assert(cleared.records.dom().contains(q));
                assert(self.records.dom().contains(q));
                assert(marked.records.dom().contains(q));
            }
            assert forall|q: GcPointer| #[trigger] self.rooted(q) implies end.live(q) by {
                assert(self.records.dom().contains(q));
                assert(cleared.records.dom().contains(q));
                assert(rooted.rooted(q));
                assert(remarked.marked(q));
            }
            assert forall|q: GcPointer| #![trigger end.records.dom().contains(q)]
                self.live(q) && !end.live(q) implies names(unmarked, q) by {
                assert(remarked.live(q));
                assert(!swept.live(q));
            }
            if forall|i: int|
                0 <= i < requests.len() ==> !self.records.dom().contains(#[trigger] requests[i]) {
                assert(rooted == cleared);
                assert forall|q: GcPointer| #![trigger end.records.dom().contains(q)]
                    end.live(q) implies end.records[q].roots == self.records[q].roots by {
                    assert(swept.live(q));
                    assert(remarked.live(q));
                    assert(swept.records[q] == remarked.records[q]);
                    assert(cleared.records.dom().contains(q));
                    assert(marked.records.dom().contains(q));
                    assert(self.records.dom().contains(q));
                }
            }
        } else {
            assert forall|q: GcPointer| #![trigger self.collect(requests).records.dom().contains(q)]
                self.collect(requests).live(q) implies self.collect(requests).records[q].roots
                == self.records[q].roots by {
                assert(marked.records.dom().contains(q));
                assert(self.records.dom().contains(q));
            }
        }
    }

    /// What an allocation leaves, whatever the finalizers asked for: a
    /// sound heap with one more number issued, in which every record that is
    /// left was there before or is the new one, and the new record is there
    /// with its value if it has a root.
    pub proof fn lemma_insert(self, record: Record<T>, requests: Seq<GcPointer>)
        requires
            self.sound(),
            self.issued <= usize::MAX,
            record.roots <= ROOTS_MAX,
            self.stats.bytes_allocated + record_size::<T>() <= usize::MAX,
        ensures
            self.insert(record, requests).sound(),
            self.no_marks() && !record.marked ==> self.insert(record, requests).wf(),
            self.insert(record, requests).issued == self.issued + 1,
            self.revived.is_prefix_of(self.insert(record, requests).revived),
            forall|q: GcPointer|
                #![trigger self.insert(record, requests).records.dom().contains(q)]
                self.insert(record, requests).live(q) && q != self.issued ==> {
                    &&& self.live(q)
                    &&& self.insert(record, requests).records[q].data == self.records[q].data
                    &&& self.insert(record, requests).records[q].roots >= self.records[q].roots
                },
            forall|q: GcPointer|
                #[trigger] self.rooted(q) ==> self.insert(record, requests).live(q),
            self.insert(record, requests).live(self.issued as GcPointer) ==> {
                &&& self.insert(record, requests).records[self.issued as GcPointer].data
                    == record.data
                &&& self.insert(record, requests).records[self.issued as GcPointer].roots
                    >= record.roots
            },
            record.roots > 0 ==> self.insert(record, requests).live(self.issued as GcPointer),
            !(self.link(record).stats.bytes_allocated > self.config.threshold) ==> self.insert(
                record,
                requests,
            ) == self.link(record),
    {
        let p = self.issued as GcPointer;
        let linked = self.link(record);
        self.lemma_link_sound(record);
        assert(linked.live(p));
        assert(linked.records[p] == record);
        if linked.stats.bytes_allocated > linked.config.threshold {
            linked.lemma_collect(requests);
            let collected = linked.collect(requests);
            let end = collected.back_off();
            assert(end.records == collected.records);
            assert(end.sound());
            assert forall|q: GcPointer| #![trigger end.records.dom().contains(q)]
                end.live(q) && q != self.issued implies self.live(q) && end.records[q].data
                == self.records[q].data && end.records[q].roots >= self.records[q].roots by {
                assert(collected.records.dom().contains(q));
                assert(linked.live(q));
            }
            assert forall|q: GcPointer| #[trigger] self.rooted(q) implies end.live(q) by {
                assert(q != p);
                assert(linked.rooted(q));
            }
            if record.roots > 0 {
                assert(linked.rooted(p));
            }
            if end.live(p) {
                assert(collected.records.dom().contains(p));
            }
        } else {
            assert forall|q: GcPointer| #[trigger] self.rooted(q) implies linked.live(q) by {
                assert(q != p);
            }
        }
    }
}

} // verus!
