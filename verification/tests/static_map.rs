use kelner::util::static_map::Error;
use kelner::util::static_map::StaticMap;

#[test]
fn find_return_correct_value() {
    let mut map: StaticMap<u64, u64> = StaticMap::new(3);
    assert!(map.insert(10, 9).is_ok());
    assert!(map.insert(20, 99).is_ok());
    assert!(map.insert(30, 999).is_ok());

    assert_eq!(*map.find(10).unwrap(), 9);
    assert_eq!(*map.find(20).unwrap(), 99);
    assert_eq!(*map.find(30).unwrap(), 999);
}

#[test]
fn remove_non_existing_entry() {
    let mut map: StaticMap<u64, u64> = StaticMap::new(3);
    assert!(map.insert(0, 0).is_ok());
    assert!(map.insert(1, 0).is_ok());

    // This one should return an error, because the entry doesn't exist.
    assert_eq!(map.remove(2).unwrap_err(), Error::NotFound);
}

#[test]
fn remove_entries_correctly() {
    let mut map: StaticMap<u64, u64> = StaticMap::new(3);
    assert!(map.insert(0, 10).is_ok());
    assert!(map.insert(1, 20).is_ok());
    assert!(map.insert(2, 30).is_ok());
    assert_eq!(map.remove(1).unwrap(), 20);
    assert!(map.insert(3, 40).is_ok());
    assert_eq!(map.remove(2).unwrap(), 30);
    assert_eq!(map.remove(3).unwrap(), 40);
    assert_eq!(map.remove(0).unwrap(), 10);
}

#[test]
fn insert_when_full() {
    let mut map: StaticMap<u64, u64> = StaticMap::new(3);
    assert!(map.insert(0, 0).is_ok());
    assert!(map.insert(1, 0).is_ok());
    assert!(map.insert(2, 0).is_ok());

    // This one should return an error, because the map is full already.
    assert_eq!(map.insert(3, 0).unwrap_err(), Error::MapFull);
}

#[test]
fn insert_duplicate_key() {
    let mut map: StaticMap<u64, u64> = StaticMap::new(3);
    assert!(map.insert(0, 0).is_ok());
    assert!(map.insert(1, 0).is_ok());

    // This one should return an error, because the key is duplicate.
    assert_eq!(map.insert(1, 0).unwrap_err(), Error::DuplicateKey);
    // And the len also remains intact.
    assert_eq!(map.len(), 2);
}

#[test]
fn static_map_return_correct_len() {
    let mut map: StaticMap<u64, u64> = StaticMap::new(3);
    assert!(map.insert(0, 0).is_ok());
    assert!(map.insert(1, 0).is_ok());

    assert_eq!(map.len(), 2);
}

#[test]
fn find_non_existing_key() {
    let mut map: StaticMap<u64, u64> = StaticMap::new(3);
    assert!(map.insert(0, 0).is_ok());

    // This one should return None, because the key isn't in the map.
    assert_eq!(map.find(1), None);
}

#[test]
fn every_key_stays_findable_under_churn() {
    // After any mix of inserts and removes, every present key can be
    // found with its value.
    let mut map: StaticMap<u64, u64> = StaticMap::new(16);
    for k in 0..12u64 {
        assert!(map.insert(k, k * 100).is_ok());
    }
    for k in [1u64, 4, 7, 10] {
        assert_eq!(map.remove(k).unwrap(), k * 100);
    }
    for k in [12u64, 13, 14, 15] {
        assert!(map.insert(k, k * 100).is_ok());
    }
    for k in 0..16u64 {
        let removed = matches!(k, 1 | 4 | 7 | 10);
        match map.find(k) {
            Some(v) => {
                assert!(!removed);
                assert_eq!(*v, k * 100);
            }
            None => assert!(removed),
        }
    }
}

#[test]
fn large_keys_hash_and_probe() {
    let mut map: StaticMap<u64, u64> = StaticMap::new(4);
    assert!(map.insert(u64::MAX, 1).is_ok());
    assert!(map.insert(u64::MAX - 1, 2).is_ok());
    assert_eq!(*map.find(u64::MAX).unwrap(), 1);
    assert_eq!(map.remove(u64::MAX).unwrap(), 1);
    assert_eq!(map.find(u64::MAX), None);
    assert_eq!(*map.find(u64::MAX - 1).unwrap(), 2);
}
