//! The header of an allocation record: root count and mark flag in one
//! word, and the link to the next record of the chain.

use vstd::prelude::*;

verus! {

/// Stable identity of an allocation record: its number in the heap's table.
pub type GcPointer = usize;

/// The top bit of the header word: the mark flag.
pub const MARK_MASK: usize = 1 << (usize::BITS - 1);

/// Every bit of the header word but the top one: the root count.
pub const ROOTS_MASK: usize = !MARK_MASK;

/// The largest root count a header can hold.
pub const ROOTS_MAX: usize = ROOTS_MASK;

/// The two kinds of allocation record.
#[derive(Clone, Copy, PartialEq, Eq, Structural, Debug)]
pub enum GcBoxType {
    /// Born rooted: the root count starts at one.
    Standard,
    /// Never directly rooted: the root count starts at zero.
    Ephemeron,
}

/// Header of an allocation record: root count and mark flag packed into one
/// word, and the link to the next record of the chain.
pub struct GcBoxHeader {
    roots: usize,
    next: Option<GcPointer>,
}

impl GcBoxHeader {
    /// The number of live strong handles that the header counts.
    pub closed spec fn count(&self) -> nat {
        if self.roots >= MARK_MASK {
            (self.roots - MARK_MASK) as nat
        } else {
            self.roots as nat
        }
    }

    /// Whether the mark flag is set.
    pub closed spec fn marked(&self) -> bool {
        self.roots >= MARK_MASK
    }

    /// The record that follows this one in the chain, if any.
    pub closed spec fn link(&self) -> Option<GcPointer> {
        self.next
    }

    /// The count never reaches the mark flag.
    pub proof fn lemma_count_bounded(&self)
        ensures
            self.count() <= ROOTS_MAX,
    {
        lemma_masks();
        lemma_word(self.roots);
    }

    /// Header of a standard record: unmarked, one root, not linked.
    #[inline]
    pub fn new() -> (header: Self)
        ensures
            header.count() == 1,
            !header.marked(),
            header.link().is_none(),
    {
        proof {
            lemma_masks();
            assert(1usize < MARK_MASK) by (bit_vector);
        }
        GcBoxHeader { roots: 1, next: None }
    }

    /// Header of an ephemeron-value record: unmarked, no root, linked to `next`.
    #[inline]
    pub fn new_ephemeron(next: Option<GcPointer>) -> (header: Self)
        ensures
            header.count() == 0,
            !header.marked(),
            header.link() == next,
    {
        proof {
            lemma_masks();
        }
        GcBoxHeader { roots: 0, next }
    }

    /// The root count, without the mark flag.
    #[inline]
    pub fn roots(&self) -> (n: usize)
        ensures
            n == self.count(),
    {
        proof {
            lemma_word(self.roots);
        }
        self.roots & ROOTS_MASK
    }

    /// Adds one root. The count must be below `ROOTS_MAX`: a count that
    /// wrapped would let a record be collected while handles to it live.
    #[inline]
    pub fn inc_roots(&mut self)
        requires
            old(self).count() < ROOTS_MAX,
        ensures
            final(self).count() == old(self).count() + 1,
            final(self).marked() == old(self).marked(),
            final(self).link() == old(self).link(),
    {
        proof {
            lemma_masks();
            lemma_word(self.roots);
        }
        let roots = self.roots;
        self.roots = roots + 1;
    }

    /// Removes one root. The count must not be zero.
    #[inline]
    pub fn dec_roots(&mut self)
        requires
            old(self).count() > 0,
        ensures
            final(self).count() == old(self).count() - 1,
            final(self).marked() == old(self).marked(),
            final(self).link() == old(self).link(),
    {
        self.roots = self.roots - 1;
    }

    /// Whether the mark flag is set.
    #[inline]
    pub fn is_marked(&self) -> (m: bool)
        ensures
            m == self.marked(),
    {
        proof {
            lemma_word(self.roots);
        }
        self.roots & MARK_MASK != 0
    }

    /// Sets the mark flag and keeps the count.
    #[inline]
    pub fn mark(&mut self)
        ensures
            final(self).marked(),
            final(self).count() == old(self).count(),
            final(self).link() == old(self).link(),
    {
        proof {
            lemma_word(self.roots);
        }
        self.roots = self.roots | MARK_MASK;
    }

    /// Clears the mark flag and keeps the count.
    #[inline]
    pub fn unmark(&mut self)
        ensures
            !final(self).marked(),
            final(self).count() == old(self).count(),
            final(self).link() == old(self).link(),
    {
        proof {
            lemma_masks();
            lemma_word(self.roots);
        }
        self.roots = self.roots & !MARK_MASK;
    }

    /// The record that follows this one in the chain, if any.
    #[inline]
    pub fn next(&self) -> (next: Option<GcPointer>)
        ensures
            next == self.link(),
    {
        self.next
    }

    /// Points this header at another successor.
    #[inline]
    pub fn set_next(&mut self, next: Option<GcPointer>)
        ensures
            final(self).link() == next,
            final(self).count() == old(self).count(),
            final(self).marked() == old(self).marked(),
    {
        self.next = next;
    }
}

/// A header can count at least one root.
pub proof fn lemma_roots_max()
    ensures
        ROOTS_MAX > 0,
{
    assert(ROOTS_MAX > 0) by (bit_vector);
}

proof fn lemma_masks()
    ensures
        MARK_MASK as int == ROOTS_MAX as int + 1,
        ROOTS_MASK == ROOTS_MAX,
        MARK_MASK > 0,
        MARK_MASK + ROOTS_MAX <= usize::MAX,
{
    assert(MARK_MASK == ROOTS_MASK + 1 && MARK_MASK > 0) by (bit_vector);
    assert((MARK_MASK + ROOTS_MASK) as usize == MARK_MASK + ROOTS_MASK) by (bit_vector);
}

proof fn lemma_word(w: usize)
    ensures
        (w & ROOTS_MASK) as int == (if w >= MARK_MASK { w - MARK_MASK } else { w as int }),
        (w & MARK_MASK != 0) == (w >= MARK_MASK),
        (w | MARK_MASK) as int == (if w >= MARK_MASK { w as int } else { w + MARK_MASK }),
        w & !MARK_MASK == w & ROOTS_MASK,
        w >= MARK_MASK ==> w - MARK_MASK < MARK_MASK,
        w < MARK_MASK ==> w + MARK_MASK <= usize::MAX,
{
    assert((w & ROOTS_MASK) == (if w >= MARK_MASK { (w - MARK_MASK) as usize } else { w })) by (bit_vector);
    assert((w & MARK_MASK != 0) == (w >= MARK_MASK)) by (bit_vector);
    assert((w | MARK_MASK) == (if w >= MARK_MASK { w } else { (w + MARK_MASK) as usize })) by (bit_vector);
    assert(w & !MARK_MASK == w & ROOTS_MASK) by (bit_vector);
    assert(w >= MARK_MASK ==> w - MARK_MASK < MARK_MASK) by (bit_vector);
    assert(w < MARK_MASK ==> w + MARK_MASK >= MARK_MASK && (w + MARK_MASK) as usize == w + MARK_MASK) by (bit_vector);
}

} // verus!
