use kelner::kalloc::alloc_context::AllocErr;
use kelner::kalloc::AllocContext;

const KERNEL_HEAP_START: u64 = 0;
const KERNEL_HEAP_END: u64 = KERNEL_HEAP_START + 8;
const SLAB_SIZE_LOG: usize = 2;

fn test_context() -> AllocContext {
    AllocContext::new(KERNEL_HEAP_START, KERNEL_HEAP_END, SLAB_SIZE_LOG)
}

#[test]
fn allocate_slab_size() {
    let mut context = test_context();

    assert!(context.allocate(4, 4).is_ok());
}

#[test]
fn allocate_beyond_slab_size() {
    let mut context = test_context();

    assert_eq!(context.allocate(8, 8).unwrap_err(), AllocErr);
}

#[test]
fn allocate_beyond_heap() {
    let mut context = test_context();

    assert!(context.allocate(2, 2).is_ok());
    assert!(context.allocate(2, 2).is_ok());
    assert!(context.allocate(2, 2).is_ok());
    assert!(context.allocate(2, 2).is_ok());
    assert_eq!(context.allocate(2, 2).unwrap_err(), AllocErr);
}

#[test]
fn allocate_slab_size_beyond_heap() {
    let mut context = test_context();

    assert!(context.allocate(4, 4).is_ok());
    assert!(context.allocate(4, 4).is_ok());
    assert_eq!(context.allocate(4, 4).unwrap_err(), AllocErr);
}

#[test]
fn allocate_different_sizes() {
    let mut context = test_context();

    assert!(context.allocate(2, 2).is_ok());
    assert!(context.allocate(2, 4).is_ok());
    // The last one should fail because it would need three slabs for
    // three different sizes.
    assert_eq!(context.allocate(1, 1).unwrap_err(), AllocErr);
}

#[test]
fn different_valid_allocated_addresses() {
    let mut context = test_context();
    let mut output: [u64; 4] = [0; 4];
    let mut expected: [u64; 4] = [0; 4];

    for i in 0..4 {
        output[i] = context.allocate(2, 2).unwrap();
        expected[i] = KERNEL_HEAP_START + i as u64 * 2;
    }

    output.sort();
    expected.sort();
    assert_eq!(output, expected);
}

#[test]
#[should_panic]
fn dealloc_non_allocated_address() {
    let mut context = test_context();

    // This should return an error.
    context.dealloc(KERNEL_HEAP_START).unwrap();
}

#[test]
fn dealloc_alternate_with_alloc() {
    let mut context = test_context();

    let a1 = context.allocate(2, 2).unwrap();
    let a2 = context.allocate(2, 2).unwrap();
    let a3 = context.allocate(2, 2).unwrap();
    let a4 = context.allocate(2, 2).unwrap();
    assert!(context.dealloc(a1).is_ok());
    assert!(context.dealloc(a3).is_ok());
    let a5 = context.allocate(2, 2).unwrap();
    let a6 = context.allocate(2, 2).unwrap();
    assert!(context.dealloc(a5).is_ok());
    assert!(context.dealloc(a6).is_ok());
    assert!(context.dealloc(a2).is_ok());
    assert!(context.dealloc(a4).is_ok());
}

#[test]
fn freed_address_is_reused_first() {
    // A just-deallocated address comes back from the next allocation of
    // the same class.
    let mut context = test_context();
    let a1 = context.allocate(2, 2).unwrap();
    let _a2 = context.allocate(2, 2).unwrap();
    assert!(context.dealloc(a1).is_ok());
    let a3 = context.allocate(2, 2).unwrap();
    assert_eq!(a3, a1);
}

#[test]
fn live_allocations_do_not_overlap() {
    // Every address handed out is distinct and the two-byte cells never
    // share a byte.
    let mut context = test_context();
    let mut addresses = Vec::new();
    for _ in 0..4 {
        addresses.push(context.allocate(2, 2).unwrap());
    }
    for i in 0..4 {
        for j in 0..4 {
            if i != j {
                let (a, b) = (addresses[i], addresses[j]);
                assert!(a + 2 <= b || b + 2 <= a);
            }
        }
    }
}

#[test]
fn allocate_respects_alignment() {
    let mut context = AllocContext::new(0, 64, 4);
    let a = context.allocate(3, 8).unwrap();
    assert_eq!(a % 8, 0);
    let b = context.allocate(1, 2).unwrap();
    assert_eq!(b % 2, 0);
}
