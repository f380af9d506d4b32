use kelner::memory::interval::Error;
use kelner::memory::interval::Interval;
use kelner::memory::interval::IntervalList;

#[test]
#[should_panic]
fn new_invalid_interval() {
    Interval::new(2, 1).unwrap();
}

#[test]
fn interval_new_empty_interval_list() {
    let interval_list = IntervalList::<3>::new();
    assert_eq!(interval_list.debug_string(), "IntervalList { list: [] }");
    assert_eq!(interval_list.len(), 0);
}

#[test]
fn interval_parse_valid_empty_interval() {
    let interval_list = IntervalList::<3>::from(b"").unwrap();
    assert_eq!(interval_list.debug_string(), "IntervalList { list: [] }");
    assert_eq!(interval_list.len(), 0);
}

#[test]
fn interval_parse_valid_interval() {
    let interval_list = IntervalList::<3>::from(b"0x1-0x2,0x3-0x4,0x5-0x6").unwrap();
    assert_eq!(
        interval_list.debug_string(),
        "IntervalList { list: [Some(Interval { start: 1, end: 2 }), \
Some(Interval { start: 3, end: 4 }), Some(Interval { start: 5, end: 6 })] }"
    );
    assert_eq!(interval_list.len(), 3);
}

#[test]
fn interval_parse_valid_large_interval() {
    let interval_list = IntervalList::<3>::from(
        b"0xfffffffffffffffe-0xffffffffffffffff,0xffffffffffffffff-0xffffffffffffffff",
    )
    .unwrap();
    assert_eq!(
        interval_list.debug_string(),
        "IntervalList { list: [Some(Interval { start: fffffffffffffffe\
, end: ffffffffffffffff }), Some(Interval { start: ffffffffffffffff, end: \
ffffffffffffffff })] }"
    );
    assert_eq!(interval_list.len(), 2);
}

#[test]
fn interval_parse_invalid_interval() {
    assert_eq!(
        IntervalList::<3>::from(b"0xabk-0xfff").unwrap_err(),
        Error::MalformedInterval
    );
}

#[test]
fn interval_parse_too_many_intervals() {
    assert_eq!(
        IntervalList::<3>::from(b"0x1-0x2,0x2-0x3,0x3-0x4,0x4-0x5").unwrap_err(),
        Error::ListFull
    );
}

#[test]
fn interval_push_valid_interval() {
    let mut interval_list = IntervalList::<3>::new();
    assert!(interval_list.push(Interval::new(1, 2).unwrap()).is_ok());
    assert_eq!(interval_list.len(), 1);
}

#[test]
fn interval_push_when_full() {
    let mut interval_list = IntervalList::<3>::new();
    assert!(interval_list.push(Interval::new(1, 2).unwrap()).is_ok());
    assert!(interval_list.push(Interval::new(2, 3).unwrap()).is_ok());
    assert!(interval_list.push(Interval::new(3, 4).unwrap()).is_ok());
    assert_eq!(
        interval_list.push(Interval::new(4, 5).unwrap()).unwrap_err(),
        Error::ListFull
    )
}
