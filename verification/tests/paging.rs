use boot_core::paging::{
    get_page_range, BasePageSize, LargePageSize, Page, PageTable, PageTableEntry, PageSize,
    WRITABLE,
};
use boot_core::physicalmem::init;

#[test]
fn page_sizes() {
    assert_eq!(BasePageSize::size(), 4096);
    assert_eq!(BasePageSize::map_level(), 0);
    assert_eq!(BasePageSize::map_extra_flag(), 0);
    assert_eq!(LargePageSize::size(), 2 * 1024 * 1024);
    assert_eq!(LargePageSize::map_level(), 1);
    assert_eq!(LargePageSize::map_extra_flag(), 0x80);
}

#[test]
fn canonical_addresses() {
    // addresses inside the non-canonical hole are rejected
    assert!(!Page::<BasePageSize>::is_valid_address(0x8000_0000_0001));
    assert!(!Page::<BasePageSize>::is_valid_address(0x8000_0000_0000));
    assert!(!Page::<BasePageSize>::is_valid_address(0xFFFF_7FFF_FFFF_FFFF));
    // both canonical halves are accepted
    assert!(Page::<BasePageSize>::is_valid_address(0x7FFF_FFFF_FFFF));
    assert!(Page::<BasePageSize>::is_valid_address(0x1000));
    assert!(Page::<BasePageSize>::is_valid_address(0xFFFF_8000_0000_0000));
}

#[test]
fn including_address_rounds_down() {
    let page = Page::<BasePageSize>::including_address(0x1234);
    assert_eq!(page.virtual_address, 0x1000);
    let page = Page::<LargePageSize>::including_address(0x3F_FFFF);
    assert_eq!(page.virtual_address, 0x20_0000);
    let page = Page::<LargePageSize>::including_address(0x1F_FFFF);
    assert_eq!(page.virtual_address, 0);
}

#[test]
fn table_index_extracts_bit_fields() {
    let page = Page::<BasePageSize>::including_address(0x40_0000);
    assert_eq!(page.table_index(0), 0);
    assert_eq!(page.table_index(1), 2);
    assert_eq!(page.table_index(2), 0);
    assert_eq!(page.table_index(3), 0);
}

#[test]
fn page_range_iterates_the_covered_pages_once() {
    let mut range = get_page_range::<BasePageSize>(0x1234, 2);
    assert!(range.has_next());
    let p0 = range.next().unwrap();
    assert_eq!(p0.virtual_address, 0x1000);
    let p1 = range.next().unwrap();
    assert_eq!(p1.virtual_address, 0x2000);
    assert!(range.next().is_none());
    assert!(!range.has_next());
}

#[test]
fn entry_packing() {
    let mut entry = PageTableEntry::empty();
    assert!(!entry.is_present());
    entry.set(0x3000, WRITABLE);
    assert!(entry.is_present());
    // PRESENT | WRITABLE | ACCESSED packed beside the address
    assert_eq!(entry.physical_address_and_flags, 0x3000 | 0x1 | 0x2 | 0x20);
}

#[test]
fn map_covers_the_whole_range() {
    let mut root = PageTable::empty(3, 0x1000);
    let mut alloc = init(0x10_0000);
    let flushes = boot_core::paging::map::<BasePageSize>(&mut root, &mut alloc, 0x40_0000, 0x20_0000, 3, WRITABLE);
    // nothing was mapped before, so nothing needs a TLB flush
    assert_eq!(flushes, 0);
    // virtual page V + i * S translates to physical frame P + i * S
    assert_eq!(root.lookup(0x40_0000, 0), Some(0x20_0000));
    assert_eq!(root.lookup(0x40_1000, 0), Some(0x20_1000));
    assert_eq!(root.lookup(0x40_2000, 0), Some(0x20_2000));
    // the page after the range stays unmapped
    assert_eq!(root.lookup(0x40_3000, 0), None);
}

#[test]
fn remap_overwrites_and_flushes_once() {
    let mut root = PageTable::empty(3, 0x1000);
    let mut alloc = init(0x10_0000);
    let first = boot_core::paging::map::<BasePageSize>(&mut root, &mut alloc, 0x40_0000, 0x20_0000, 1, WRITABLE);
    assert_eq!(first, 0);
    assert_eq!(root.lookup(0x40_0000, 0), Some(0x20_0000));
    // remapping the same page overwrites the entry and reports exactly
    // one needed flush
    let second = boot_core::paging::map::<BasePageSize>(&mut root, &mut alloc, 0x40_0000, 0x30_0000, 1, WRITABLE);
    assert_eq!(second, 1);
    assert_eq!(root.lookup(0x40_0000, 0), Some(0x30_0000));
}

#[test]
fn map_unaligned_address_rounds_to_page() {
    let mut root = PageTable::empty(3, 0x1000);
    let mut alloc = init(0x10_0000);
    boot_core::paging::map::<BasePageSize>(&mut root, &mut alloc, 0x40_0123, 0x20_0000, 1, WRITABLE);
    assert_eq!(root.lookup(0x40_0000, 0), Some(0x20_0000));
}

#[test]
fn map_large_pages() {
    let mut root = PageTable::empty(3, 0x1000);
    let mut alloc = init(0x10_0000);
    let flushes =
        boot_core::paging::map::<LargePageSize>(&mut root, &mut alloc, 0x4000_0000, 0x20_0000, 2, WRITABLE);
    assert_eq!(flushes, 0);
    assert_eq!(root.lookup(0x4000_0000, 1), Some(0x20_0000));
    assert_eq!(root.lookup(0x4020_0000, 1), Some(0x40_0000));
    // a huge mapping terminates the walk: there is no 4 KiB mapping below
    assert_eq!(root.lookup(0x4000_0000, 0), None);
}

#[test]
fn map_in_the_high_half() {
    let mut root = PageTable::empty(3, 0x1000);
    let mut alloc = init(0x10_0000);
    boot_core::paging::map::<BasePageSize>(
        &mut root,
        &mut alloc,
        0xFFFF_8000_0000_0000,
        0x20_0000,
        1,
        WRITABLE,
    );
    assert_eq!(root.lookup(0xFFFF_8000_0000_0000, 0), Some(0x20_0000));
    assert_eq!(root.lookup(0x0, 0), None);
}

#[test]
fn unmap_clears_exactly_one_page() {
    let mut root = PageTable::empty(3, 0x1000);
    let mut alloc = init(0x10_0000);
    boot_core::paging::map::<BasePageSize>(&mut root, &mut alloc, 0x40_0000, 0x20_0000, 2, WRITABLE);
    let flush = boot_core::paging::unmap::<BasePageSize>(&mut root, 0x40_0000);
    assert!(flush);
    assert_eq!(root.lookup(0x40_0000, 0), None);
    // the neighbouring page stays mapped
    assert_eq!(root.lookup(0x40_1000, 0), Some(0x20_1000));
    // unmapping an unmapped page clears nothing
    let again = boot_core::paging::unmap::<BasePageSize>(&mut root, 0x40_0000);
    assert!(!again);
}

#[test]
fn unmap_never_discards_a_sub_table() {
    let mut root = PageTable::empty(3, 0x1000);
    let mut alloc = init(0x10_0000);
    boot_core::paging::map::<BasePageSize>(&mut root, &mut alloc, 0x40_0000, 0x20_0000, 1, WRITABLE);
    // the 2 MiB slot covering this page holds a sub-table, not a huge
    // mapping: unmapping at the large size must leave it alone
    let flush = boot_core::paging::unmap::<LargePageSize>(&mut root, 0x40_0000);
    assert!(!flush);
    assert_eq!(root.lookup(0x40_0000, 0), Some(0x20_0000));
}

#[test]
fn mappings_do_not_disturb_each_other() {
    let mut root = PageTable::empty(3, 0x1000);
    let mut alloc = init(0x10_0000);
    boot_core::paging::map::<BasePageSize>(&mut root, &mut alloc, 0x40_0000, 0x20_0000, 1, WRITABLE);
    boot_core::paging::map::<BasePageSize>(&mut root, &mut alloc, 0x8000_0000, 0x30_0000, 1, WRITABLE);
    assert_eq!(root.lookup(0x40_0000, 0), Some(0x20_0000));
    assert_eq!(root.lookup(0x8000_0000, 0), Some(0x30_0000));
}
