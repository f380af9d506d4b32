use kelner::collections::static_interval::Error;
use kelner::collections::static_interval::Interval;
use kelner::collections::static_interval::IntervalList;

#[test]
fn static_interval_new_empty_interval_list() {
    let interval_list = IntervalList::<3>::new();
    assert_eq!(interval_list.debug_string(), "IntervalList { list: [] }");
    assert_eq!(interval_list.len(), 0);
}

#[test]
fn static_interval_parse_valid_empty_interval() {
    let interval_list = IntervalList::<3>::from(b"").unwrap();
    assert_eq!(interval_list.debug_string(), "IntervalList { list: [] }");
    assert_eq!(interval_list.len(), 0);
}

#[test]
fn static_interval_parse_valid_interval() {
    let interval_list = IntervalList::<3>::from(b"0x1-0x2,0x3-0x4,0x5-0x6").unwrap();
    assert_eq!(
        interval_list.debug_string(),
        "IntervalList { list: [Some(Interval { start: 1, length: 1 }), \
Some(Interval { start: 3, length: 1 }), Some(Interval { start: 5, length: 1 \
})] }"
    );
    assert_eq!(interval_list.len(), 3);
}

#[test]
fn static_interval_parse_valid_large_interval() {
    let interval_list = IntervalList::<3>::from(
        b"0xfffffffffffffffe-0xffffffffffffffff,0xffffffffffffffff-0xffffffffffffffff",
    )
    .unwrap();
    assert_eq!(
        interval_list.debug_string(),
        "IntervalList { list: [Some(Interval { start: fffffffffffffffe\
, length: 1 }), Some(Interval { start: ffffffffffffffff, length: 0 })] }"
    );
    assert_eq!(interval_list.len(), 2);
}

#[test]
fn static_interval_parse_invalid_interval() {
    assert_eq!(
        IntervalList::<3>::from(b"0xabk-0xfff").unwrap_err(),
        Error::MalformedInterval
    );
}

#[test]
fn static_interval_parse_too_many_intervals() {
    assert_eq!(
        IntervalList::<3>::from(b"0x1-0x2,0x2-0x3,0x3-0x4,0x4-0x5").unwrap_err(),
        Error::ListFull
    );
}

#[test]
fn static_interval_push_valid_interval() {
    let mut interval_list = IntervalList::<3>::new();
    assert!(interval_list.push(Interval::new(1, 1)).is_ok());
    assert_eq!(interval_list.len(), 1);
}

#[test]
fn static_interval_push_when_full() {
    let mut interval_list = IntervalList::<3>::new();
    assert!(interval_list.push(Interval::new(1, 1)).is_ok());
    assert!(interval_list.push(Interval::new(2, 1)).is_ok());
    assert!(interval_list.push(Interval::new(3, 1)).is_ok());
    assert_eq!(interval_list.push(Interval::new(4, 1)).unwrap_err(), Error::ListFull)
}

#[test]
fn eq_interval_list() {
    let mut list1 = IntervalList::<3>::new();
    let mut list2 = IntervalList::<3>::new();
    assert!(list1.push(Interval::new(1, 2)).is_ok());
    assert!(list1.push(Interval::new(2, 2)).is_ok());
    assert!(list2.push(Interval::new(1, 2)).is_ok());
    assert!(list2.push(Interval::new(2, 2)).is_ok());

    assert!(list1.eq(&list2));
}

#[test]
fn shuffle_neq_interval_list() {
    let mut list1 = IntervalList::<3>::new();
    let mut list2 = IntervalList::<3>::new();
    assert!(list1.push(Interval::new(1, 2)).is_ok());
    assert!(list1.push(Interval::new(2, 2)).is_ok());
    assert!(list2.push(Interval::new(2, 2)).is_ok());
    assert!(list2.push(Interval::new(1, 2)).is_ok());

    assert!(!list1.eq(&list2));
}

#[test]
fn size_neq_interval_list() {
    let mut list1 = IntervalList::<3>::new();
    let mut list2 = IntervalList::<3>::new();
    assert!(list1.push(Interval::new(1, 2)).is_ok());
    assert!(list1.push(Interval::new(2, 2)).is_ok());
    assert!(list2.push(Interval::new(1, 2)).is_ok());

    assert!(!list1.eq(&list2));
}

#[test]
fn simple_cover() {
    let mut list1 = IntervalList::<3>::new();
    let mut list2 = IntervalList::<3>::new();
    assert!(list1.push(Interval::new(1, 2)).is_ok());
    assert!(list1.push(Interval::new(3, 2)).is_ok());
    assert!(list2.push(Interval::new(3, 2)).is_ok());
    assert!(list2.push(Interval::new(1, 2)).is_ok());

    assert!(list1.is_covered_by(&list2));
}

#[test]
fn simple_not_cover() {
    let mut list1 = IntervalList::<3>::new();
    let mut list2 = IntervalList::<3>::new();
    assert!(list1.push(Interval::new(1, 2)).is_ok());
    assert!(list1.push(Interval::new(3, 3)).is_ok());
    assert!(list2.push(Interval::new(3, 2)).is_ok());
    assert!(list2.push(Interval::new(1, 2)).is_ok());

    assert!(!list1.is_covered_by(&list2));
}

#[test]
fn interleave_cover() {
    let mut list1 = IntervalList::<3>::new();
    let mut list2 = IntervalList::<3>::new();
    assert!(list1.push(Interval::new(3, 4)).is_ok());
    assert!(list1.push(Interval::new(10, 4)).is_ok());
    assert!(list2.push(Interval::new(1, 4)).is_ok());
    assert!(list2.push(Interval::new(5, 7)).is_ok());
    assert!(list2.push(Interval::new(12, 5)).is_ok());

    assert!(list1.is_covered_by(&list2));
}

#[test]
fn interleave_not_cover() {
    let mut list1 = IntervalList::<3>::new();
    let mut list2 = IntervalList::<3>::new();
    assert!(list1.push(Interval::new(3, 4)).is_ok());
    assert!(list1.push(Interval::new(10, 4)).is_ok());
    assert!(list2.push(Interval::new(5, 7)).is_ok());

    assert!(!list1.is_covered_by(&list2));
}

#[test]
fn empty_coveree() {
    let list1 = IntervalList::<3>::new();
    let mut list2 = IntervalList::<3>::new();
    assert!(list2.push(Interval::new(5, 7)).is_ok());

    assert!(list1.is_covered_by(&list2));
}

#[test]
fn empty_coverer() {
    let mut list1 = IntervalList::<3>::new();
    let list2 = IntervalList::<3>::new();
    assert!(list1.push(Interval::new(5, 7)).is_ok());

    assert!(!list1.is_covered_by(&list2));
}

#[test]
fn cover_is_monotone_in_coverer() {
    // Once covered, adding intervals to the covering list keeps it
    // covered; removing the decisive one breaks it.
    let mut list1 = IntervalList::<3>::new();
    assert!(list1.push(Interval::new(3, 4)).is_ok());
    assert!(list1.push(Interval::new(10, 4)).is_ok());

    let mut small = IntervalList::<3>::new();
    assert!(small.push(Interval::new(5, 7)).is_ok());
    assert!(small.push(Interval::new(12, 5)).is_ok());
    assert!(!list1.is_covered_by(&small));

    let mut grown = IntervalList::<3>::new();
    assert!(grown.push(Interval::new(5, 7)).is_ok());
    assert!(grown.push(Interval::new(12, 5)).is_ok());
    assert!(grown.push(Interval::new(1, 4)).is_ok());
    assert!(list1.is_covered_by(&grown));
}

#[test]
fn cover_ignores_order_of_both_lists() {
    let mut a1 = IntervalList::<3>::new();
    assert!(a1.push(Interval::new(3, 4)).is_ok());
    assert!(a1.push(Interval::new(10, 4)).is_ok());
    let mut a2 = IntervalList::<3>::new();
    assert!(a2.push(Interval::new(10, 4)).is_ok());
    assert!(a2.push(Interval::new(3, 4)).is_ok());

    let mut b1 = IntervalList::<3>::new();
    assert!(b1.push(Interval::new(1, 4)).is_ok());
    assert!(b1.push(Interval::new(5, 7)).is_ok());
    assert!(b1.push(Interval::new(12, 5)).is_ok());
    let mut b2 = IntervalList::<3>::new();
    assert!(b2.push(Interval::new(12, 5)).is_ok());
    assert!(b2.push(Interval::new(1, 4)).is_ok());
    assert!(b2.push(Interval::new(5, 7)).is_ok());

    assert!(a1.is_covered_by(&b1));
    assert!(a2.is_covered_by(&b2));
    assert!(a1.is_covered_by(&b2));
    assert!(a2.is_covered_by(&b1));
}

#[test]
fn sort_orders_by_start() {
    let mut list = IntervalList::<3>::new();
    assert!(list.push(Interval::new(5, 1)).is_ok());
    assert!(list.push(Interval::new(1, 1)).is_ok());
    assert!(list.push(Interval::new(3, 1)).is_ok());
    list.sort();
    assert_eq!(
        list.debug_string(),
        "IntervalList { list: [Some(Interval { start: 1, length: 1 }), \
Some(Interval { start: 3, length: 1 }), Some(Interval { start: 5, length: 1 })] }"
    );
}

#[test]
fn iter_walks_in_order() {
    let mut list = IntervalList::<3>::new();
    assert!(list.push(Interval::new(1, 2)).is_ok());
    assert!(list.push(Interval::new(4, 2)).is_ok());
    let mut iter = list.iter();
    assert_eq!(*iter.next().unwrap(), Interval::new(1, 2));
    assert_eq!(*iter.next().unwrap(), Interval::new(4, 2));
    assert!(iter.next().is_none());
}
