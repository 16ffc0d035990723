use bootmem::range::{overlap_or_touch, ClosedRange, RangeSet, RangeSetIter, SetError};

fn set_of(ranges: &[(u64, u64)]) -> RangeSet {
    let mut set = RangeSet::new();
    for &(start, end) in ranges {
        set.insert(ClosedRange::new(start, end)).expect("Could not insert range");
    }
    set
}

fn entries(set: &RangeSet) -> Vec<(u64, u64)> {
    set.ranges().iter().map(|r| (r.start, r.end)).collect()
}

#[test]
fn new() {
    let set = RangeSet::new();
    assert!(set.len() == 0);
}

#[test]
fn overlap() {
    let range1 = ClosedRange::new(10, 20);
    let range2 = ClosedRange::new(10, 15);
    assert!(overlap_or_touch(&range1, &range2) == true);

    let range2 = ClosedRange::new(10, 30);
    assert!(overlap_or_touch(&range1, &range2) == true);

    let range2 = ClosedRange::new(10, 20);
    assert!(overlap_or_touch(&range1, &range2) == true);

    let range2 = ClosedRange::new(5, 11);
    assert!(overlap_or_touch(&range1, &range2) == true);

    let range2 = ClosedRange::new(5, 15);
    assert!(overlap_or_touch(&range1, &range2) == true);

    let range2 = ClosedRange::new(5, 10);
    assert!(overlap_or_touch(&range1, &range2) == true);

    let range2 = ClosedRange::new(15, 25);
    assert!(overlap_or_touch(&range1, &range2) == true);

    let range2 = ClosedRange::new(19, 25);
    assert!(overlap_or_touch(&range1, &range2) == true);
}

#[test]
fn touch() {
    let range1 = ClosedRange::new(10, 20);
    let range2 = ClosedRange::new(5, 9);
    assert!(overlap_or_touch(&range1, &range2) == true);
    let range2 = ClosedRange::new(21, 30);
    assert!(overlap_or_touch(&range1, &range2) == true);
}

#[test]
fn no_overlap() {
    let range1 = ClosedRange::new(10, 20);
    let range2 = ClosedRange::new(5, 8);
    assert!(overlap_or_touch(&range1, &range2) == false);

    let range2 = ClosedRange::new(22, 30);
    assert!(overlap_or_touch(&range1, &range2) == false);

    let range2 = ClosedRange::new(15, 5);
    assert!(overlap_or_touch(&range1, &range2) == false);

    let range2 = ClosedRange::new(15, 12);
    assert!(overlap_or_touch(&range1, &range2) == false);

    let range2 = ClosedRange::new(25, 12);
    assert!(overlap_or_touch(&range1, &range2) == false);
}

#[test]
fn range_set_no_overlap() {
    let set = set_of(&[(0, 10), (15, 20), (30, 40)]);
    assert!(
        set.ranges()
            == &[
                ClosedRange::new(0, 10),
                ClosedRange::new(15, 20),
                ClosedRange::new(30, 40),
            ]
    );
    assert!(set.len() == 3);
}

#[test]
fn range_set_simple_overlap() {
    let set = set_of(&[(0, 10), (15, 20), (30, 40), (19, 25), (27, 35)]);
    assert!(
        set.ranges()
            == &[
                ClosedRange::new(0, 10),
                ClosedRange::new(15, 25),
                ClosedRange::new(27, 40),
            ]
    );
    assert!(set.len() == 3);
}

#[test]
fn range_set_recursive_overlap() {
    let set = set_of(&[(0, 10), (15, 20), (30, 40), (19, 25), (24, 35)]);
    assert!(set.ranges() == &[ClosedRange::new(0, 10), ClosedRange::new(15, 40)]);
    assert!(set.len() == 2);
}

#[test]
fn range_set_recursive_touching_overlap() {
    let set = set_of(&[(0, 10), (15, 20), (30, 40), (21, 29), (11, 14)]);
    assert!(set.ranges() == &[ClosedRange::new(0, 40)]);
    assert!(set.len() == 1);
}

#[test]
fn range_set_basic_consume() {
    let mut set = set_of(&[(0, 10), (15, 20), (30, 40), (50, 100)]);

    set.consume(&ClosedRange::new(0, 5)).expect("Could not consume");
    set.consume(&ClosedRange::new(6, 10)).expect("Could not consume");
    set.consume(&ClosedRange::new(15, 20)).expect("Could not consume");
    set.consume(&ClosedRange::new(33, 39)).expect("Could not consume");
    set.consume(&ClosedRange::new(55, 100)).expect("Could not consume");

    assert!(set.consume(&ClosedRange::new(49, 50)).is_err());

    assert!(
        set.ranges()
            == &[
                ClosedRange::new(30, 32),
                ClosedRange::new(50, 54),
                ClosedRange::new(40, 40),
            ]
    );
    assert!(set.len() == 3);
}

#[test]
fn range_set_sum() {
    let set = set_of(&[(0, 10), (15, 20), (30, 40)]);
    let sum = set.sum();
    assert!(sum == 28);
}

#[test]
fn range_set_discard_fragmented() {
    let mut set = set_of(&[(0, 10), (15, 20), (30, 40)]);
    let range = ClosedRange::new(5, 35);
    set.discard(&range).expect("Could not discard range");
    assert!(set.ranges() == &[ClosedRange::new(0, 4), ClosedRange::new(36, 40)]);
}

#[test]
fn range_set_discard_start_and_end_equal() {
    let mut set = set_of(&[(0, 10), (15, 20), (30, 40)]);
    let range = ClosedRange::new(5, 20);
    set.discard(&range).expect("Could not discard range");
    set.insert(ClosedRange::new(40, 60)).expect("Could not insert range");
    let range = ClosedRange::new(30, 55);
    set.discard(&range).expect("Could not discard range");
    assert!(set.ranges() == &[ClosedRange::new(0, 4), ClosedRange::new(56, 60)]);
}

#[test]
fn range_set_discard_fragments() {
    let mut set = set_of(&[(0, 10), (20, 30), (30, 40)]);
    set.discard(&ClosedRange::new(5, 8)).expect("Could not discard range");
    set.insert(ClosedRange::new(40, 60)).expect("Could not insert range");
    set.discard(&ClosedRange::new(25, 55)).expect("Could not discard range");
    set.discard(&ClosedRange::new(58, 60)).expect("Could not discard range");
    set.discard(&ClosedRange::new(20, 23)).expect("Could not discard range");
    set.discard(&ClosedRange::new(10, 10)).expect("Could not discard range");
    assert!(
        set.ranges()
            == &[
                ClosedRange::new(0, 4),
                ClosedRange::new(9, 9),
                ClosedRange::new(56, 57),
                ClosedRange::new(24, 24),
            ]
    );
}

#[test]
fn range_set_discard_bios() {
    let mut set = set_of(&[(0, 0x77ff), (0x100000, 0x3ff3cfff), (0xaa34, 0x9c3ff)]);
    let range = ClosedRange::new(0, 0xfffff);
    set.discard(&range).expect("Could not discard range");
    assert!(set.ranges() == &[ClosedRange::new(0x100000, 0x3ff3cfff)]);
}

#[test]
fn adjacent_ranges_merge() {
    let set = set_of(&[(0, 10), (11, 14)]);
    assert_eq!(entries(&set), vec![(0, 14)]);
}

#[test]
fn multi_hop_merge_gives_one_entry() {
    let set = set_of(&[(0, 10), (15, 20), (30, 40), (19, 25), (24, 35)]);
    assert_eq!(set.len(), 2);
    let mut set = set_of(&[(15, 20), (30, 40), (19, 25), (24, 35)]);
    set.insert(ClosedRange::new(0, 14)).unwrap();
    assert_eq!(entries(&set), vec![(0, 40)]);
}

#[test]
fn consume_needs_one_enclosing_entry() {
    let mut set = set_of(&[(0, 10), (20, 30)]);
    assert_eq!(set.consume(&ClosedRange::new(5, 25)), Err(SetError::Unsatisfiable));
    assert_eq!(set.consume(&ClosedRange::new(9, 8)), Err(SetError::InvalidRange));
    assert_eq!(entries(&set), vec![(0, 10), (20, 30)]);
    set.consume(&ClosedRange::new(20, 30)).unwrap();
    assert_eq!(entries(&set), vec![(0, 10)]);
}

#[test]
fn capacity_boundary() {
    let mut set = RangeSet::new();
    for i in 0..32u64 {
        set.insert(ClosedRange::new(i * 10, i * 10 + 5)).unwrap();
    }
    let before = entries(&set);
    assert_eq!(set.insert(ClosedRange::new(1000, 1005)), Err(SetError::CapacityExhausted));
    assert_eq!(entries(&set), before);
    // A split of a full set has no slot either.
    assert_eq!(set.consume(&ClosedRange::new(2, 3)), Err(SetError::CapacityExhausted));
    assert_eq!(set.discard(&ClosedRange::new(2, 3)), Err(SetError::CapacityExhausted));
    // Merging still works when full.
    set.insert(ClosedRange::new(6, 9)).unwrap();
    assert_eq!(set.len(), 31);
}

#[test]
fn invalid_ranges_are_rejected() {
    let mut set = set_of(&[(0, 10)]);
    assert_eq!(set.insert(ClosedRange::new(5, 4)), Err(SetError::InvalidRange));
    assert_eq!(set.discard(&ClosedRange::new(5, 4)), Err(SetError::InvalidRange));
    assert_eq!(entries(&set), vec![(0, 10)]);
}

#[test]
fn discard_of_absent_range_succeeds() {
    let mut set = set_of(&[(0, 10)]);
    set.discard(&ClosedRange::new(20, 30)).unwrap();
    assert_eq!(entries(&set), vec![(0, 10)]);
    set.discard(&ClosedRange::new(0, 3)).unwrap();
    assert_eq!(entries(&set), vec![(4, 10)]);
}

#[test]
fn allocate_aligns_and_removes() {
    let mut set = set_of(&[(1, 0x3000)]);
    assert_eq!(set.allocate(0x1000, 0x1000), Some(0x1000));
    assert_eq!(entries(&set), vec![(1, 0xfff), (0x2000, 0x3000)]);
    assert_eq!(set.allocate(0x10, 3), None);
    assert_eq!(set.allocate(0, 8), None);
    assert_eq!(set.allocate(0x2000, 0x1000), None);
}

#[test]
fn allocate_deallocate_round_trip() {
    let mut set = set_of(&[(0, 10), (15, 20), (30, 40)]);
    let before = set.sum();
    let a = set.allocate(4, 4).unwrap() as u64;
    assert_eq!(a, 0);
    assert_eq!(set.sum(), before - 4);
    set.insert(ClosedRange::new(a, a + 3)).unwrap();
    assert_eq!(set.sum(), before);
}

#[test]
fn sum_saturates() {
    let set = set_of(&[(0, u64::MAX)]);
    assert_eq!(set.sum(), u64::MAX);
}

#[test]
fn iterator_walks_entries_in_order() {
    let set = set_of(&[(0, 10), (15, 20)]);
    let mut iter = RangeSetIter::new(&set);
    assert_eq!(iter.next(), Some(ClosedRange::new(0, 10)));
    assert_eq!(iter.next(), Some(ClosedRange::new(15, 20)));
    assert_eq!(iter.next(), None);
}

#[test]
fn discard_is_idempotent_and_keeps_order() {
    let mut set = set_of(&[(30, 40), (0, 10), (15, 20)]);
    set.discard(&ClosedRange::new(5, 16)).unwrap();
    let once = entries(&set);
    set.discard(&ClosedRange::new(5, 16)).unwrap();
    assert_eq!(entries(&set), once);
    set.discard(&ClosedRange::new(22, 28)).unwrap();
    assert_eq!(entries(&set), once);
}
