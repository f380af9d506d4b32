use kelner::collections::static_interval::Interval;
use kelner::collections::static_interval::IntervalList;
use kelner::layout::memory_layout::LAYOUT_CAPACITY;
use kelner::layout::MemoryLayout;

// The raw memory map words the boot loader would leave at its fixed
// address: the entry count first, then base, length and kind of each
// entry.
const LAYOUT_BUFFER: [u64; 19] = [
    6,
    0x0000_0000,
    0x0009_fc00,
    1,
    0x0009_fc00,
    0x0000_0400,
    2,
    0x000f_0000,
    0x0001_0000,
    2,
    0x0010_0000,
    0x07ee_0000,
    1,
    0x07fe_0000,
    0x0002_0000,
    2,
    0xfffc_0000,
    0x0004_0000,
    2,
];

#[test]
fn return_correct_free_interval_list() {
    let memory_layout = MemoryLayout::new(&LAYOUT_BUFFER);
    let out_list = memory_layout.as_free_interval_list();

    let mut expected_list = IntervalList::<LAYOUT_CAPACITY>::new();
    expected_list.push(Interval::new(0x0000_0000, 0x0009_fc00)).unwrap();
    expected_list.push(Interval::new(0x0010_0000, 0x07ee_0000)).unwrap();
    assert_eq!(out_list, expected_list);
}
