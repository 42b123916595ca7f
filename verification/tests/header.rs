use gc::{GcBoxHeader, GcBoxType, MARK_MASK, ROOTS_MASK, ROOTS_MAX};

#[test]
fn masks_split_the_word() {
    assert_eq!(MARK_MASK, 1usize << (usize::BITS - 1));
    assert_eq!(ROOTS_MASK, usize::MAX >> 1);
    assert_eq!(ROOTS_MAX, usize::MAX >> 1);
    assert_eq!(MARK_MASK | ROOTS_MASK, usize::MAX);
    assert_eq!(MARK_MASK & ROOTS_MASK, 0);
}

#[test]
fn standard_header_is_born_rooted() {
    let header = GcBoxHeader::new();
    assert_eq!(header.roots(), 1);
    assert!(!header.is_marked());
    assert_eq!(header.next(), None);
}

#[test]
fn ephemeron_header_is_born_unrooted() {
    let header = GcBoxHeader::new_ephemeron(Some(7));
    assert_eq!(header.roots(), 0);
    assert!(!header.is_marked());
    assert_eq!(header.next(), Some(7));
    let unlinked = GcBoxHeader::new_ephemeron(None);
    assert_eq!(unlinked.next(), None);
}

#[test]
fn roots_count_up_and_down() {
    let mut header = GcBoxHeader::new();
    header.inc_roots();
    header.inc_roots();
    assert_eq!(header.roots(), 3);
    header.dec_roots();
    assert_eq!(header.roots(), 2);
    header.dec_roots();
    header.dec_roots();
    assert_eq!(header.roots(), 0);
    assert!(!header.is_marked());
}

#[test]
fn mark_does_not_touch_the_count() {
    let mut header = GcBoxHeader::new();
    header.inc_roots();
    header.mark();
    assert!(header.is_marked());
    assert_eq!(header.roots(), 2);
    header.mark();
    assert!(header.is_marked());
    assert_eq!(header.roots(), 2);
    header.inc_roots();
    assert!(header.is_marked());
    assert_eq!(header.roots(), 3);
    header.dec_roots();
    assert!(header.is_marked());
    assert_eq!(header.roots(), 2);
    header.unmark();
    assert!(!header.is_marked());
    assert_eq!(header.roots(), 2);
    header.unmark();
    assert!(!header.is_marked());
    assert_eq!(header.roots(), 2);
}

#[test]
fn unrooted_header_can_be_marked() {
    let mut header = GcBoxHeader::new_ephemeron(None);
    header.mark();
    assert!(header.is_marked());
    assert_eq!(header.roots(), 0);
    header.unmark();
    assert_eq!(header.roots(), 0);
    assert!(!header.is_marked());
}

#[test]
fn set_next_keeps_count_and_mark() {
    let mut header = GcBoxHeader::new();
    header.mark();
    header.set_next(Some(3));
    assert_eq!(header.next(), Some(3));
    assert_eq!(header.roots(), 1);
    assert!(header.is_marked());
    header.set_next(None);
    assert_eq!(header.next(), None);
}

#[test]
fn box_types_differ() {
    assert!(GcBoxType::Standard != GcBoxType::Ephemeron);
    assert!(GcBoxType::Standard == GcBoxType::Standard);
}
