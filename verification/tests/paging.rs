use kelner::paging::PagingContext;
use kelner::paging::PAGE_SIZE;

#[test]
fn correctly_insert_page() {
    let mut context = PagingContext::new();
    let vir_addr1 = 4 * PAGE_SIZE;
    let phy_addr1 = 5 * PAGE_SIZE;
    let vir_addr2 = 2 * PAGE_SIZE;
    let phy_addr2 = 6 * PAGE_SIZE;
    assert!(context.find(vir_addr1).is_none());
    assert!(context.insert(vir_addr1, phy_addr1).is_ok());
    assert_eq!(context.find(vir_addr1).unwrap(), phy_addr1);

    assert!(context.find(vir_addr2).is_none());
    assert!(context.insert(vir_addr2, phy_addr2).is_ok());
    assert_eq!(context.find(vir_addr2).unwrap(), phy_addr2);
}

#[test]
fn insert_present_page() {
    let mut context = PagingContext::new();
    let vir_addr = 4 * PAGE_SIZE;
    let phy_addr1 = 5 * PAGE_SIZE;
    let phy_addr2 = 6 * PAGE_SIZE;
    assert!(context.insert(vir_addr, phy_addr1).is_ok());
    assert!(context.insert(vir_addr, phy_addr2).is_err());
}

#[test]
fn insert_present_page_with_same_phy_addr() {
    let mut context = PagingContext::new();
    let vir_addr = 4 * PAGE_SIZE;
    let phy_addr = 5 * PAGE_SIZE;
    assert!(context.insert(vir_addr, phy_addr).is_ok());
    assert!(context.insert(vir_addr, phy_addr).is_err());
}

#[test]
fn find_absent_page() {
    let mut context = PagingContext::new();
    let vir_addr1 = 4 * PAGE_SIZE;
    let vir_addr2 = 5 * PAGE_SIZE;
    let phy_addr = 6 * PAGE_SIZE;
    assert!(context.insert(vir_addr1, phy_addr).is_ok());
    assert!(context.find(vir_addr2).is_none());
}

#[test]
fn correctly_remove_page() {
    let mut context = PagingContext::new();
    let vir_addr1 = 4 * PAGE_SIZE;
    let phy_addr1 = 5 * PAGE_SIZE;
    let vir_addr2 = 2 * PAGE_SIZE;
    let phy_addr2 = 6 * PAGE_SIZE;
    assert!(context.insert(vir_addr1, phy_addr1).is_ok());
    assert!(context.insert(vir_addr2, phy_addr2).is_ok());
    assert_eq!(context.remove(vir_addr1).unwrap(), phy_addr1);
    assert!(context.find(vir_addr1).is_none());
    assert!(context.find(vir_addr2).is_some());
    assert!(context.insert(vir_addr1, phy_addr1).is_ok());
    assert!(context.find(vir_addr1).is_some());
    assert!(context.find(vir_addr2).is_some());
    assert_eq!(context.remove(vir_addr1).unwrap(), phy_addr1);
    assert_eq!(context.remove(vir_addr2).unwrap(), phy_addr2);
    assert!(context.find(vir_addr1).is_none());
    assert!(context.find(vir_addr2).is_none());
}

#[test]
fn remove_absent_page() {
    let mut context = PagingContext::new();
    let vir_addr1 = 4 * PAGE_SIZE;
    let vir_addr2 = 5 * PAGE_SIZE;
    let phy_addr = 6 * PAGE_SIZE;
    assert!(context.insert(vir_addr1, phy_addr).is_ok());
    assert!(context.remove(vir_addr2).is_err());
}

#[test]
fn roundtrip_far_apart_addresses() {
    // Mappings in distant subtrees come and go independently.
    let mut context = PagingContext::new();
    let low = 7 * PAGE_SIZE;
    let high = 0x7FFF_F000_0000u64;
    assert!(context.insert(low, 3 * PAGE_SIZE).is_ok());
    assert!(context.insert(high, 9 * PAGE_SIZE).is_ok());
    assert_eq!(context.find(low).unwrap(), 3 * PAGE_SIZE);
    assert_eq!(context.find(high).unwrap(), 9 * PAGE_SIZE);
    assert_eq!(context.remove(high).unwrap(), 9 * PAGE_SIZE);
    assert!(context.find(high).is_none());
    assert_eq!(context.find(low).unwrap(), 3 * PAGE_SIZE);
}

#[test]
fn identity_map_covers_regions() {
    let identity =
        kelner::collections::static_interval::IntervalList::<4>::from(b"0x0-0x3000,0x5000-0x5001")
            .unwrap();
    let context = PagingContext::new_with_identity(&identity);
    assert_eq!(context.find(0).unwrap(), 0);
    assert_eq!(context.find(0x1000).unwrap(), 0x1000);
    assert_eq!(context.find(0x2000).unwrap(), 0x2000);
    assert!(context.find(0x3000).is_none());
    // A one-byte region still touches its whole page.
    assert_eq!(context.find(0x5000).unwrap(), 0x5000);
    assert!(context.find(0x6000).is_none());
}

#[test]
fn descriptor_tracks_mappings() {
    let mut context = PagingContext::new();
    let vir = 4 * PAGE_SIZE;
    let phy = 5 * PAGE_SIZE;
    assert_eq!(context.descriptor_at(vir), 0);
    assert!(context.insert(vir, phy).is_ok());
    // Present, Write and the terminal-page convention bit, plus the
    // frame address.
    assert_eq!(context.descriptor_at(vir), phy | 0x83);
    assert_eq!(context.remove(vir).unwrap(), phy);
    assert_eq!(context.descriptor_at(vir), 0);
}

#[test]
fn descriptor_builders_pack_fields() {
    let flags = kelner::paging::DescriptorFlags {
        present: 1,
        write: 1,
        supervisor: 0,
        write_through: 0,
        cache_disable: 0,
        accessed: 0,
        dirty: 0,
        exe_disable: 0,
    };
    let pde = kelner::paging::page_directory_entry(&flags, 0x54321);
    assert_eq!(pde & 0b11, 0b11);
    assert_eq!((pde >> 12) & 0xFF_FFFF_FFFF, 0x54321);
    assert_eq!(pde >> 63, 0);

    let pte = kelner::paging::page_table_entry(&flags, 0x54321);
    assert_eq!(pte & 0b11, 0b11);
    // The terminal-page convention bit.
    assert_eq!((pte >> 7) & 1, 1);
    assert_eq!((pte >> 12) & 0xFF_FFFF_FFFF, 0x54321);
}
