use boot_core::physicalmem::{allocate, init};

#[test]
fn allocate_returns_cursor_and_advances() {
    let mut alloc = init(0x10_0000);
    let a0 = allocate(&mut alloc, 0x1000);
    let a1 = allocate(&mut alloc, 0x2000);
    let a2 = allocate(&mut alloc, 0x1000);
    assert_eq!(a0, 0x10_0000);
    assert_eq!(a1, 0x10_1000);
    assert_eq!(a2, 0x10_3000);
}

#[test]
fn allocations_are_aligned_ordered_and_disjoint() {
    let mut alloc = init(0x20_0000);
    let sizes = [0x1000u64, 0x3000, 0x1000, 0x2000];
    let mut returned: Vec<(u64, u64)> = Vec::new();
    for size in sizes {
        let address = allocate(&mut alloc, size);
        returned.push((address, size));
    }
    for (address, _) in &returned {
        assert_eq!(address % 0x1000, 0);
    }
    for pair in returned.windows(2) {
        let (a, size_a) = pair[0];
        let (b, _) = pair[1];
        // each address is the previous cursor: the previous range ends
        // exactly where the next one starts, so no two ranges overlap
        assert_eq!(a + size_a, b);
    }
}
