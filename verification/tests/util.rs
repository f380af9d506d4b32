use kelner::util::lg;
use kelner::util::set_bits;
use kelner::util::WeakRng;

#[test]
fn logarithm_valid_input() {
    assert_eq!(lg(0x1).unwrap(), 0);
    assert_eq!(lg(0x2).unwrap(), 1);
    assert_eq!(lg(0x4).unwrap(), 2);
    assert_eq!(lg(0x8).unwrap(), 3);
    assert_eq!(lg(0x8000_0000_0000_0000_u64).unwrap(), 63);
}

#[test]
fn valid_signed_number() {
    assert_eq!(lg(0x1).unwrap(), 0);
    assert_eq!(lg(0x2).unwrap(), 1);
    assert_eq!(lg(0x4).unwrap(), 2);
    assert_eq!(lg(0x8).unwrap(), 3);
    assert_eq!(lg(0x4000_0000_0000_0000_u64).unwrap(), 62);
}

#[test]
#[should_panic]
fn invalid_input() {
    lg(0x11).unwrap();
}

#[test]
#[should_panic]
fn invalid_zero() {
    lg(0).unwrap();
}

#[test]
fn valid_input_u8() {
    let input: u64 = 0b11111111;
    assert_eq!(set_bits(input, 2, 5, 0b010), 0b11101011);
}

#[test]
fn valid_input_u64() {
    let input: u64 = 0;
    assert_eq!(set_bits(input, 48, 64, 0xffff), 0xffff << 48);
}

#[test]
fn set_bits_valid_input() {
    let input: u64 = 0b10101100;
    let result = set_bits(input, 2, 5, 0b100);
    assert_eq!(result, 0b10110000);
}

#[test]
fn weak_rng_is_deterministic() {
    let mut a = WeakRng::new();
    let mut b = WeakRng::new();
    assert_eq!(a.next(), b.next());
    assert_eq!(a.next(), b.next());
    let first = WeakRng::new().next();
    assert_eq!(first, 1103527590);
    b.reseed(1);
    assert_eq!(b.next(), first);
}

#[test]
fn cr3_descriptor_packs_fields() {
    let r = kelner::paging::cr3_descriptor(1, 0, 0x12345);
    // Bit 3 carries write-through; the address sits at bits 12 and up.
    assert_eq!(r & 0b1000, 0b1000);
    assert_eq!((r >> 12) & 0xFF_FFFF_FFFF, 0x12345);
}

#[test]
fn parse_addr_splits_indices() {
    let addr: u64 = (3u64 << 39) | (5u64 << 30) | (7u64 << 21) | (9u64 << 12);
    let idx = kelner::paging::parse_addr(addr);
    assert_eq!(idx, [3, 5, 7, 9]);
}
