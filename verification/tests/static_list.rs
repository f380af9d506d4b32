use kelner::collections::static_list::Error;
use kelner::collections::static_list::StaticList;

#[test]
fn static_list_return_correct_item() {
    let mut list: StaticList<u64> = StaticList::new(6);
    let e1 = list.push(10).unwrap();
    let e2 = list.push(20).unwrap();
    let e3 = list.push(30).unwrap();
    assert_eq!(*list.get(&e3), 30);
    assert_eq!(*list.get(&e2), 20);
    assert_eq!(*list.get(&e1), 10);
    assert_eq!(list.remove(e3), 30);
    assert_eq!(*list.get(&e2), 20);
    assert_eq!(*list.get(&e1), 10);
}

#[test]
fn static_list_return_correct_len() {
    let mut list: StaticList<u64> = StaticList::new(6);

    assert_eq!(list.len(), 0);

    let e1 = list.push(1).unwrap();
    assert_eq!(list.len(), 1);

    let e2 = list.push(2).unwrap();
    assert_eq!(list.len(), 2);

    let e3 = list.push(3).unwrap();
    assert_eq!(list.len(), 3);

    assert_eq!(list.remove(e2), 2);
    assert_eq!(list.len(), 2);

    assert_eq!(list.remove(e1), 1);
    assert_eq!(list.len(), 1);

    assert_eq!(list.remove(e3), 3);
    assert_eq!(list.len(), 0);
}

#[test]
fn push_alternate_with_remove() {
    let mut list: StaticList<u64> = StaticList::new(6);

    assert_eq!(list.len(), 0);

    let e1 = list.push(1).unwrap();
    let e2 = list.push(2).unwrap();
    assert_eq!(list.remove(e2), 2);
    let e3 = list.push(3).unwrap();
    assert_eq!(list.remove(e1), 1);
    assert_eq!(list.remove(e3), 3);
}

#[test]
fn static_list_push_when_full() {
    let mut list: StaticList<u64> = StaticList::new(6);
    assert!(list.push(1).is_ok());
    assert!(list.push(2).is_ok());
    assert!(list.push(3).is_ok());
    assert!(list.push(4).is_ok());
    assert!(list.push(5).is_ok());
    assert!(list.push(6).is_ok());

    // This one should return an error, because the list is full already.
    assert!(matches!(list.push(7), Err(Error::ListFull)));
}

#[test]
fn handles_stay_valid_under_churn() {
    // A handle keeps referring to its element however much unrelated
    // traffic the list sees.
    let mut list: StaticList<u64> = StaticList::new(8);
    let keeper = list.push(42).unwrap();
    for round in 0..5u64 {
        let e = list.push(round).unwrap();
        assert_eq!(list.remove(e), round);
    }
    assert_eq!(*list.get(&keeper), 42);
    assert_eq!(list.remove(keeper), 42);
}
