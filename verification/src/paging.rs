//! The four-level page-table hierarchy (PML4 → PDPT → PDT → PGT).
//!
//! The hierarchy is held as an owned tree of 512-entry tables, each tagged
//! with its level and the physical address of its frame; a present non-huge
//! entry above the leaf level owns the sub-table its address points to.
//! Walking the tree is therefore an explicit lookup instead of raw pointer
//! arithmetic, and the whole mapping operation — index extraction,
//! sub-table creation, alignment checks, entry packing — is verified.
//! Writing the tables into live memory and invalidating the TLB are the
//! embedding boot sequence's concern; [`PageTable::map_page`] reports
//! whether a present entry was overwritten so the caller knows which pages
//! to flush.

use core::marker::PhantomData;

use vstd::prelude::*;

use crate::physicalmem::{allocate, FrameAlloc};

verus! {

/// Number of offset bits of a virtual address for a 4 KiB page.
pub const PAGE_BITS: u64 = 12;

/// Number of bits of the index into each table (PML4, PDPT, PDT, PGT).
pub const PAGE_MAP_BITS: u64 = 9;

/// A mask where `PAGE_MAP_BITS` bits are set, to extract a table index.
pub const PAGE_MAP_MASK: u64 = 0x1FF;

/// The size in bytes of a 4 KiB base page (and of one table frame).
pub const BASE_PAGE_SIZE: u64 = 0x1000;

/// The size in bytes of a 2 MiB large page.
pub const LARGE_PAGE_SIZE: u64 = 0x20_0000;

/// The size in bytes of a 1 GiB giant page.
pub const GIANT_PAGE_SIZE: u64 = 0x4000_0000;

/// Exclusive upper bound of physical addresses that fit into an entry:
/// an entry stores address bits 12 through 51, so 2^52.
pub const MAX_PHYSICAL_ADDRESS: u64 = 0x10_0000_0000_0000;

/// The bits of an entry that hold its physical address (bits 12..=51).
pub const ADDRESS_MASK: u64 = 0xF_FFFF_FFFF_F000;

/// Flags for an entry in any table, as a bare bit mask.
///
/// See Intel Vol. 3A, Tables 4-14 through 4-19 for the hardware format.
pub type PageTableEntryFlags = u64;

/// Set if this entry is valid and points to a page or table.
pub const PRESENT: u64 = 0x1;

/// Set if memory referenced by this entry shall be writable.
pub const WRITABLE: u64 = 0x2;

/// Set if memory referenced by this entry shall be accessible from user mode.
pub const USER_ACCESSIBLE: u64 = 0x4;

/// Set if write-through caching shall be enabled for this entry's memory.
pub const WRITE_THROUGH: u64 = 0x8;

/// Set if caching shall be disabled for this entry's memory.
pub const CACHE_DISABLE: u64 = 0x10;

/// Set if software has accessed this entry.
pub const ACCESSED: u64 = 0x20;

/// Only for page entries: set if software has written to the referenced memory.
pub const DIRTY: u64 = 0x40;

/// Only for page entries in PDPT or PDT: set if this entry references a
/// 1 GiB (PDPT) or 2 MiB (PDT) page directly.
pub const HUGE_PAGE: u64 = 0x80;

/// Only for page entries: set if this translation is global for all tasks.
pub const GLOBAL: u64 = 0x100;

/// Set if code execution shall be disabled for the referenced memory.
pub const EXECUTE_DISABLE: u64 = 0x8000_0000_0000_0000;

/// The flags a caller of the mapping operations may choose freely:
/// `WRITABLE | USER_ACCESSIBLE | WRITE_THROUGH | CACHE_DISABLE | GLOBAL |
/// EXECUTE_DISABLE`.  `PRESENT`, `ACCESSED`, `DIRTY` and `HUGE_PAGE` are
/// set by the manager itself.
pub const CALLER_FLAG_MASK: u64 = 0x8000_0000_0000_011E;

/// An entry in any table (PML4, PDPT, PDT, PGT).
#[derive(Clone, Copy)]
pub struct PageTableEntry {
    /// Physical memory address this entry refers to, combined with flags.
    pub physical_address_and_flags: u64,
}

impl PageTableEntry {
    /// Whether this entry is valid (present).
    pub open spec fn spec_present(self) -> bool {
        self.physical_address_and_flags & PRESENT != 0
    }

    /// Whether this entry references a huge (2 MiB or 1 GiB) page directly.
    pub open spec fn spec_huge(self) -> bool {
        self.physical_address_and_flags & HUGE_PAGE != 0
    }

    /// The physical address packed into this entry.
    pub open spec fn spec_address(self) -> u64 {
        self.physical_address_and_flags & ADDRESS_MASK
    }

    /// An unused, zeroed entry.
    pub fn empty() -> (entry: PageTableEntry)
        ensures
            entry.physical_address_and_flags == 0,
            !entry.spec_present(),
            !entry.spec_huge(),
    {
        proof {
            lemma_zero_entry_bits();
        }
        PageTableEntry { physical_address_and_flags: 0 }
    }

    /// Returns whether this entry is valid (present).
    pub fn is_present(&self) -> (present: bool)
        ensures
            present == self.spec_present(),
    {
        (self.physical_address_and_flags & PRESENT) != 0
    }

    /// Marks this entry as valid (present) and sets address and flags.
    ///
    /// The physical address must be aligned to a 2 MiB boundary for a huge
    /// mapping and to a 4 KiB boundary otherwise; the `PRESENT` and
    /// `ACCESSED` flags are set automatically.
    pub fn set(&mut self, physical_address: u64, flags: PageTableEntryFlags)
        requires
            flags & HUGE_PAGE != 0 ==> physical_address % LARGE_PAGE_SIZE == 0,
            flags & HUGE_PAGE == 0 ==> physical_address % BASE_PAGE_SIZE == 0,
            physical_address < MAX_PHYSICAL_ADDRESS,
            flags & ADDRESS_MASK == 0,
        ensures
            final(self).physical_address_and_flags == physical_address | PRESENT | ACCESSED
                | flags,
            final(self).spec_present(),
            final(self).spec_address() == physical_address,
            final(self).spec_huge() == (flags & HUGE_PAGE != 0),
    {
        proof {
            lemma_set_entry_bits(physical_address, flags);
            if flags & HUGE_PAGE != 0 {
                assert(physical_address % 0x1000 == 0) by (bit_vector)
                    requires
                        physical_address % 0x20_0000 == 0,
                ;
            }
        }
        self.physical_address_and_flags = physical_address | PRESENT | ACCESSED | flags;
    }
}

/// A zeroed entry is neither present nor huge.
proof fn lemma_zero_entry_bits()
    ensures
        0u64 & PRESENT == 0,
        0u64 & HUGE_PAGE == 0,
{
    assert(0u64 & 0x1 == 0 && 0u64 & 0x80 == 0) by (bit_vector);
}

/// Packing a 4 KiB-aligned physical address below 2^52 together with flag
/// bits outside the address mask keeps address and flags recoverable.
proof fn lemma_set_entry_bits(physical_address: u64, flags: u64)
    requires
        physical_address % BASE_PAGE_SIZE == 0,
        physical_address < MAX_PHYSICAL_ADDRESS,
        flags & ADDRESS_MASK == 0,
    ensures
        (physical_address | PRESENT | ACCESSED | flags) & PRESENT != 0,
        (physical_address | PRESENT | ACCESSED | flags) & ADDRESS_MASK == physical_address,
        ((physical_address | PRESENT | ACCESSED | flags) & HUGE_PAGE != 0) == (flags & HUGE_PAGE
            != 0),
{
    let packed = physical_address | 0x1 | 0x20 | flags;
    assert(packed & 0x1 != 0 && packed & 0xF_FFFF_FFFF_F000 == physical_address && ((packed & 0x80
        != 0) == (flags & 0x80 != 0))) by (bit_vector)
        requires
            packed == physical_address | 0x1 | 0x20 | flags,
            physical_address % 0x1000 == 0,
            physical_address < 0x10_0000_0000_0000,
            flags & 0xF_FFFF_FFFF_F000 == 0,
    ;
}

/// A generic interface to support all possible page sizes.
///
/// The implementing types are empty markers, so they are trivially `Copy`.
pub trait PageSize: Copy + Sized {
    /// The page size in bytes.
    spec fn spec_size() -> u64;

    /// The table level at which a page of this size is mapped
    /// (0 for PGT through 3 for PML4).
    spec fn spec_map_level() -> u64;

    /// Any extra flag needed to map a page of this size,
    /// e.g. [`HUGE_PAGE`].
    spec fn spec_map_extra_flag() -> u64;

    /// The closed set of supported size descriptors: a page maps at level
    /// 0, 1 or 2, its byte size is the span of one entry at that level,
    /// and exactly the sizes above the leaf level carry the huge-page flag.
    proof fn properties()
        ensures
            Self::spec_map_level() <= 2,
            Self::spec_map_level() == 0 ==> Self::spec_size() == BASE_PAGE_SIZE
                && Self::spec_map_extra_flag() == 0,
            Self::spec_map_level() == 1 ==> Self::spec_size() == LARGE_PAGE_SIZE
                && Self::spec_map_extra_flag() == HUGE_PAGE,
            Self::spec_map_level() == 2 ==> Self::spec_size() == GIANT_PAGE_SIZE
                && Self::spec_map_extra_flag() == HUGE_PAGE,
    ;

    /// The page size in bytes.
    fn size() -> (size: u64)
        ensures
            size == Self::spec_size(),
    ;

    /// The table level at which a page of this size is mapped.
    fn map_level() -> (level: u64)
        ensures
            level == Self::spec_map_level(),
    ;

    /// Any extra flag needed to map a page of this size.
    fn map_extra_flag() -> (flag: PageTableEntryFlags)
        ensures
            flag == Self::spec_map_extra_flag(),
    ;
}

/// A 4 KiB page mapped in the PGT.
#[derive(Clone, Copy)]
pub struct BasePageSize;

impl PageSize for BasePageSize {
    open spec fn spec_size() -> u64 {
        BASE_PAGE_SIZE
    }

    open spec fn spec_map_level() -> u64 {
        0
    }

    open spec fn spec_map_extra_flag() -> u64 {
        0
    }

    proof fn properties() {
    }

    fn size() -> u64 {
        BASE_PAGE_SIZE
    }

    fn map_level() -> u64 {
        0
    }

    fn map_extra_flag() -> PageTableEntryFlags {
        0
    }
}

/// A 2 MiB page mapped in the PDT.
#[derive(Clone, Copy)]
pub struct LargePageSize;

impl PageSize for LargePageSize {
    open spec fn spec_size() -> u64 {
        LARGE_PAGE_SIZE
    }

    open spec fn spec_map_level() -> u64 {
        1
    }

    open spec fn spec_map_extra_flag() -> u64 {
        HUGE_PAGE
    }

    proof fn properties() {
    }

    fn size() -> u64 {
        LARGE_PAGE_SIZE
    }

    fn map_level() -> u64 {
        1
    }

    fn map_extra_flag() -> PageTableEntryFlags {
        HUGE_PAGE
    }
}

/// `value` rounded down to the previous multiple of `alignment`.
pub open spec fn spec_align_down(value: u64, alignment: u64) -> u64
    recommends
        alignment > 0,
{
    ((value as int / alignment as int) * alignment as int) as u64
}

/// Whether the given virtual address is valid in the x86-64 memory model.
///
/// Current x86-64 supports only 48 bits of virtual address, enforced by
/// requiring bits 63 through 48 to replicate bit 47; the valid addresses
/// are therefore those below `0x8000_0000_0000` and those at or above
/// `0xFFFF_8000_0000_0000`.
pub open spec fn spec_is_valid_address(virtual_address: u64) -> bool {
    virtual_address < 0x8000_0000_0000 || 0xFFFF_8000_0000_0000 <= virtual_address
}

/// The index into a table at the given level that translates
/// `virtual_address`: bits `12 + 9 * level` through `12 + 9 * level + 8`.
pub open spec fn spec_table_index(virtual_address: u64, level: u64) -> u64
    recommends
        level <= 3,
{
    ((virtual_address >> PAGE_BITS) >> ((level * PAGE_MAP_BITS) as u64)) & PAGE_MAP_MASK
}

/// Whether `va1` and `va2` select the same table slot at every level from
/// `low_level` up to `high_level`: exactly then does the walk for `va2`
/// down to `low_level` traverse and end in the same slots as the walk for
/// `va1`.
pub open spec fn same_slot_path(va1: u64, va2: u64, low_level: u64, high_level: u64) -> bool {
    forall|level: u64|
        low_level <= level <= high_level ==> #[trigger] spec_table_index(va1, level)
            == spec_table_index(va2, level)
}

/// Any table index is within the 512 slots of a table.
pub proof fn lemma_table_index_bound(virtual_address: u64, level: u64)
    ensures
        spec_table_index(virtual_address, level) < 512,
{
    let shifted = (virtual_address >> PAGE_BITS) >> ((level * PAGE_MAP_BITS) as u64);
    assert(shifted & 0x1FF < 512) by (bit_vector);
}

/// A memory page of the size given by `S`.
pub struct Page<S: PageSize> {
    /// Virtual memory address of this page, rounded to a page-size
    /// boundary on creation.
    pub virtual_address: u64,
    /// Required to support the `S` parameter.
    pub size: PhantomData<S>,
}

impl<S: PageSize> Page<S> {
    /// The page's address is aligned to its size.
    pub open spec fn wf(self) -> bool {
        self.virtual_address % S::spec_size() == 0
    }

    /// Returns whether the given virtual address is valid in the x86-64
    /// memory model (see [`spec_is_valid_address`]).
    pub fn is_valid_address(virtual_address: u64) -> (valid: bool)
        ensures
            valid == spec_is_valid_address(virtual_address),
    {
        !(0x8000_0000_0000 <= virtual_address && virtual_address < 0xFFFF_8000_0000_0000)
    }

    /// Returns the page including the given virtual address; the address is
    /// rounded down to a page-size boundary.
    pub fn including_address(virtual_address: u64) -> (page: Self)
        requires
            spec_is_valid_address(virtual_address),
        ensures
            page.virtual_address == spec_align_down(virtual_address, S::spec_size()),
            page.wf(),
    {
        proof {
            S::properties();
        }
        let size = S::size();
        proof {
            vstd::arithmetic::div_mod::lemma_fundamental_div_mod(
                virtual_address as int,
                size as int,
            );
            vstd::arithmetic::div_mod::lemma_mod_division_less_than_divisor(
                virtual_address as int,
                size as int,
            );
            vstd::arithmetic::div_mod::lemma_mod_multiples_basic(
                virtual_address as int / size as int,
                size as int,
            );
        }
        let rounded = (virtual_address / size) * size;
        Page { virtual_address: rounded, size: PhantomData }
    }

    /// Returns a [`PageIter`] from the given first page to the given last
    /// page (inclusive).
    pub fn range(first: Self, last: Self) -> (range: PageIter<S>)
        requires
            first.virtual_address <= last.virtual_address,
        ensures
            range.spec_current() == first.virtual_address,
            range.spec_last() == last.virtual_address,
    {
        PageIter { current: first, last }
    }

    /// Returns the index of this page in the table at the given level.
    pub fn table_index(&self, level: u64) -> (index: usize)
        requires
            S::spec_map_level() <= level <= 3,
        ensures
            index == spec_table_index(self.virtual_address, level),
            index < 512,
    {
        proof {
            lemma_table_index_bound(self.virtual_address, level);
        }
        (((self.virtual_address >> PAGE_BITS) >> (level * PAGE_MAP_BITS)) & PAGE_MAP_MASK) as usize
    }
}

/// An iterator to walk through a range of pages of size `S`.
///
/// A freshly constructed range always starts at its first page; consuming
/// one instance is one-shot.
pub struct PageIter<S: PageSize> {
    current: Page<S>,
    last: Page<S>,
}

impl<S: PageSize> PageIter<S> {
    /// The virtual address of the next page the iterator will yield.
    pub closed spec fn spec_current(self) -> u64 {
        self.current.virtual_address
    }

    /// The virtual address of the last page of the range (inclusive).
    pub closed spec fn spec_last(self) -> u64 {
        self.last.virtual_address
    }

    /// Whether the range still has pages to yield.
    pub fn has_next(&self) -> (more: bool)
        ensures
            more == (self.spec_current() <= self.spec_last()),
    {
        self.current.virtual_address <= self.last.virtual_address
    }

    /// Yields the next page of the range, stepping one page size forward.
    pub fn next(&mut self) -> (page: Option<Page<S>>)
        requires
            old(self).spec_current() <= old(self).spec_last() ==> old(self).spec_current()
                + S::spec_size() <= u64::MAX,
        ensures
            if old(self).spec_current() <= old(self).spec_last() {
                &&& page matches Some(p) && p.virtual_address == old(self).spec_current()
                &&& final(self).spec_current() == old(self).spec_current() + S::spec_size()
            } else {
                &&& page is None
                &&& final(self).spec_current() == old(self).spec_current()
            },
            final(self).spec_last() == old(self).spec_last(),
    {
        if self.current.virtual_address <= self.last.virtual_address {
            let page = Page { virtual_address: self.current.virtual_address, size: PhantomData };
            self.current.virtual_address = self.current.virtual_address + S::size();
            Some(page)
        } else {
            None
        }
    }
}

/// The byte size of the page mapped by one entry at the given level.
pub open spec fn spec_size_at_level(level: u64) -> u64 {
    if level == 0 {
        BASE_PAGE_SIZE
    } else if level == 1 {
        LARGE_PAGE_SIZE
    } else {
        GIANT_PAGE_SIZE
    }
}

/// The `i`-th page of a run of evenly spaced pages starting at `first`.
pub open spec fn spec_page_step(first: u64, size: u64, i: int) -> u64 {
    (first + i * size) as u64
}

/// Basic facts about rounding down to an alignment that is a power of two
/// times the base page size.
pub proof fn lemma_align_down(value: u64, alignment: u64)
    requires
        alignment > 0,
    ensures
        spec_align_down(value, alignment) == (value as int / alignment as int) * (
        alignment as int),
        spec_align_down(value, alignment) <= value,
        spec_align_down(value, alignment) % alignment == 0,
        value < spec_align_down(value, alignment) + alignment,
        value % alignment == 0 ==> spec_align_down(value, alignment) == value,
{
    let v = value as int;
    let a = alignment as int;
    let q = v / a;
    let r = v % a;
    vstd::arithmetic::div_mod::lemma_fundamental_div_mod(v, a);
    vstd::arithmetic::div_mod::lemma_mod_division_less_than_divisor(v, a);
    vstd::arithmetic::div_mod::lemma_mod_multiples_basic(q, a);
    vstd::arithmetic::mul::lemma_mul_is_commutative(q, a);
    assert(v == a * q + r);
    assert(q * a == v - r);
}

/// Rounding down commutes with stepping by whole pages:
/// `align_down(value + i * alignment) == align_down(value) + i * alignment`.
pub proof fn lemma_align_down_add_multiple(value: u64, alignment: u64, i: int)
    requires
        alignment > 0,
        i >= 0,
        value + i * alignment <= u64::MAX,
    ensures
        spec_align_down((value + i * alignment) as u64, alignment) == spec_align_down(
            value,
            alignment,
        ) + i * alignment,
{
    let v = value as int;
    let a = alignment as int;
    let q = v / a;
    let r = v % a;
    lemma_align_down(value, alignment);
    lemma_align_down((value + i * alignment) as u64, alignment);
    vstd::arithmetic::div_mod::lemma_fundamental_div_mod(v, a);
    vstd::arithmetic::div_mod::lemma_mod_division_less_than_divisor(v, a);
    assert((q + i) * a == q * a + i * a) by {
        vstd::arithmetic::mul::lemma_mul_is_distributive_add_other_way(a, q, i);
    }
    vstd::arithmetic::div_mod::lemma_fundamental_div_mod_converse(v + i * a, a, q + i, r);
}

/// A step of `i` whole pages keeps page alignment.
pub proof fn lemma_page_step_aligned(first: u64, size: u64, i: int)
    requires
        size > 0,
        first % size == 0,
        i >= 0,
        first + i * size <= u64::MAX,
    ensures
        spec_page_step(first, size, i) % size == 0,
        spec_page_step(first, size, i) == first + i * size,
{
    vstd::arithmetic::div_mod::lemma_mod_multiples_vanish(i, first as int, size as int);
    vstd::arithmetic::mul::lemma_mul_is_commutative(i, size as int);
    assert(spec_page_step(first, size, i) == first + i * size);
    assert((first + i * size) % (size as int) == (first as int) % (size as int));
}

/// Two distinct, size-aligned, canonically valid page addresses differ in
/// their table index at some level between the page's map level and the
/// root: bits 48..63 are fixed by canonicity and bits below the page size
/// are zero, so the indices cover all remaining bits.
pub proof fn lemma_distinct_pages_differ(va1: u64, va2: u64, target_level: u64)
    requires
        target_level <= 2,
        va1 % spec_size_at_level(target_level) == 0,
        va2 % spec_size_at_level(target_level) == 0,
        spec_is_valid_address(va1),
        spec_is_valid_address(va2),
        va1 != va2,
    ensures
        !same_slot_path(va1, va2, target_level, 3),
{
    if same_slot_path(va1, va2, target_level, 3) {
        assert(spec_table_index(va1, 2) == spec_table_index(va2, 2));
        assert(spec_table_index(va1, 3) == spec_table_index(va2, 3));
        if target_level == 0 {
            assert(spec_table_index(va1, 0) == spec_table_index(va2, 0));
            assert(spec_table_index(va1, 1) == spec_table_index(va2, 1));
            assert(va1 == va2) by (bit_vector)
                requires
                    va1 % 0x1000 == 0,
                    va2 % 0x1000 == 0,
                    va1 < 0x8000_0000_0000 || va1 >= 0xFFFF_8000_0000_0000,
                    va2 < 0x8000_0000_0000 || va2 >= 0xFFFF_8000_0000_0000,
                    ((va1 >> 12) >> 0) & 0x1FF == ((va2 >> 12) >> 0) & 0x1FF,
                    ((va1 >> 12) >> 9) & 0x1FF == ((va2 >> 12) >> 9) & 0x1FF,
                    ((va1 >> 12) >> 18) & 0x1FF == ((va2 >> 12) >> 18) & 0x1FF,
                    ((va1 >> 12) >> 27) & 0x1FF == ((va2 >> 12) >> 27) & 0x1FF,
            ;
        } else if target_level == 1 {
            assert(spec_table_index(va1, 1) == spec_table_index(va2, 1));
            assert(va1 == va2) by (bit_vector)
                requires
                    va1 % 0x20_0000 == 0,
                    va2 % 0x20_0000 == 0,
                    va1 < 0x8000_0000_0000 || va1 >= 0xFFFF_8000_0000_0000,
                    va2 < 0x8000_0000_0000 || va2 >= 0xFFFF_8000_0000_0000,
                    ((va1 >> 12) >> 9) & 0x1FF == ((va2 >> 12) >> 9) & 0x1FF,
                    ((va1 >> 12) >> 18) & 0x1FF == ((va2 >> 12) >> 18) & 0x1FF,
                    ((va1 >> 12) >> 27) & 0x1FF == ((va2 >> 12) >> 27) & 0x1FF,
            ;
        } else {
            assert(va1 == va2) by (bit_vector)
                requires
                    va1 % 0x4000_0000 == 0,
                    va2 % 0x4000_0000 == 0,
                    va1 < 0x8000_0000_0000 || va1 >= 0xFFFF_8000_0000_0000,
                    va2 < 0x8000_0000_0000 || va2 >= 0xFFFF_8000_0000_0000,
                    ((va1 >> 12) >> 18) & 0x1FF == ((va2 >> 12) >> 18) & 0x1FF,
                    ((va1 >> 12) >> 27) & 0x1FF == ((va2 >> 12) >> 27) & 0x1FF,
            ;
        }
    }
}

/// Representation of any page table (PML4, PDPT, PDT, PGT) in memory,
/// tagged with its level and owning the sub-tables its entries point to.
pub struct PageTable {
    /// The hierarchy level: 0 for PGT through 3 for PML4.
    pub level: u64,
    /// The physical address of the 4 KiB frame holding this table.
    pub address: u64,
    /// The 512 entries of this table, in hardware format.
    pub entries: Vec<PageTableEntry>,
    /// For each present non-huge entry above the leaf level, the owned
    /// sub-table its address points to; `None` in every other slot.
    pub children: Vec<Option<Box<PageTable>>>,
}

impl PageTable {
    /// Structural soundness of the (sub-)hierarchy rooted here: 512 slots,
    /// level at most 3, and every present non-huge entry above the leaf
    /// level owns a well-formed sub-table one level down whose frame
    /// address is the entry's address.
    pub open spec fn wf(self) -> bool
        decreases self.level,
    {
        &&& self.level <= 3
        &&& self.address % BASE_PAGE_SIZE == 0
        &&& self.entries@.len() == 512
        &&& self.children@.len() == 512
        &&& forall|i: int|
            #![trigger self.entries@[i]]
            #![trigger self.children@[i]]
            0 <= i < 512 ==> {
                if self.level > 0 && self.entries@[i].spec_present()
                    && !self.entries@[i].spec_huge() {
                    match self.children@[i] {
                        Some(sub) => {
                            &&& sub.level < self.level
                            &&& sub.level + 1 == self.level
                            &&& sub.address == self.entries@[i].spec_address()
                            &&& sub.wf()
                        },
                        None => false,
                    }
                } else {
                    self.children@[i] is None
                }
            }
    }

    /// The physical frame the hierarchy rooted here translates
    /// `virtual_address` to for a page mapped at `target_level`, or `None`
    /// if no such mapping is installed.
    pub open spec fn translate(self, virtual_address: u64, target_level: u64) -> Option<u64>
        decreases self.level,
    {
        if target_level > self.level || self.level > 3 {
            None
        } else {
            let entry = self.entries@[spec_table_index(virtual_address, self.level) as int];
            if !entry.spec_present() {
                None
            } else if self.level == target_level {
                if self.level > 0 && !entry.spec_huge() {
                    None
                } else {
                    Some(entry.spec_address())
                }
            } else if entry.spec_huge() {
                None
            } else {
                match self.children@[spec_table_index(virtual_address, self.level) as int] {
                    Some(sub) => if sub.level < self.level {
                        sub.translate(virtual_address, target_level)
                    } else {
                        None
                    },
                    None => None,
                }
            }
        }
    }

    /// Whether the walk for `virtual_address` down to `target_level`
    /// reaches the target slot and finds a present entry there — exactly
    /// the condition under which installing the mapping overwrites an
    /// entry, so that the page must be evicted out of the TLB.
    pub open spec fn walk_present(self, virtual_address: u64, target_level: u64) -> bool
        decreases self.level,
    {
        if target_level > self.level || self.level > 3 {
            false
        } else {
            let entry = self.entries@[spec_table_index(virtual_address, self.level) as int];
            if self.level == target_level {
                entry.spec_present()
            } else if !entry.spec_present() {
                false
            } else if entry.spec_huge() {
                false
            } else {
                match self.children@[spec_table_index(virtual_address, self.level) as int] {
                    Some(sub) => if sub.level < self.level {
                        sub.walk_present(virtual_address, target_level)
                    } else {
                        false
                    },
                    None => false,
                }
            }
        }
    }

    /// The raw entry mapping `virtual_address` at `target_level`, if one
    /// is installed: the entry in the page's target slot whenever the walk
    /// reaches it and finds a present terminal mapping there.  Where
    /// [`Self::translate`] gives the mapped frame, this pins the exact
    /// bits — address and every flag — that the mapping installed.
    pub open spec fn walk_entry(self, virtual_address: u64, target_level: u64) -> Option<
        PageTableEntry,
    >
        decreases self.level,
    {
        if target_level > self.level || self.level > 3 {
            None
        } else {
            let entry = self.entries@[spec_table_index(virtual_address, self.level) as int];
            if self.level == target_level {
                if entry.spec_present() && (self.level == 0 || entry.spec_huge()) {
                    Some(entry)
                } else {
                    None
                }
            } else if !entry.spec_present() || entry.spec_huge() {
                None
            } else {
                match self.children@[spec_table_index(virtual_address, self.level) as int] {
                    Some(sub) => if sub.level < self.level {
                        sub.walk_entry(virtual_address, target_level)
                    } else {
                        None
                    },
                    None => None,
                }
            }
        }
    }

    /// Whether the walk for `virtual_address` can descend to
    /// `target_level` without running into a present huge entry: absent
    /// entries can be filled with fresh sub-tables, but a huge entry
    /// terminates the walk above the target and must not be dereferenced
    /// as a sub-table.
    pub open spec fn can_reach(self, virtual_address: u64, target_level: u64) -> bool
        decreases self.level,
    {
        if target_level > self.level || self.level > 3 {
            false
        } else if self.level == target_level {
            true
        } else {
            let entry = self.entries@[spec_table_index(virtual_address, self.level) as int];
            if !entry.spec_present() {
                true
            } else if entry.spec_huge() {
                false
            } else {
                match self.children@[spec_table_index(virtual_address, self.level) as int] {
                    Some(sub) => if sub.level < self.level {
                        sub.can_reach(virtual_address, target_level)
                    } else {
                        false
                    },
                    None => false,
                }
            }
        }
    }

    /// The number of pages among `first .. first + n` (stepping one page
    /// size) whose walk finds a present target entry, i.e. the number of
    /// TLB flushes that mapping that range performs.
    pub open spec fn count_flushes(self, first: u64, size: u64, target_level: u64, n: int) -> int
        decreases n,
    {
        if n <= 0 {
            0
        } else {
            self.count_flushes(first, size, target_level, n - 1) + if self.walk_present(
                spec_page_step(first, size, n - 1),
                target_level,
            ) {
                1int
            } else {
                0int
            }
        }
    }
}

impl PageTable {
    /// Creates a zeroed table at the given level: nothing is present, so
    /// it translates nothing and every walk through it can still descend.
    pub fn empty(level: u64, address: u64) -> (table: PageTable)
        requires
            level <= 3,
            address % BASE_PAGE_SIZE == 0,
        ensures
            table.wf(),
            table.level == level,
            table.address == address,
            forall|va: u64, tl: u64| #[trigger] table.translate(va, tl) is None,
            forall|va: u64, tl: u64| !(#[trigger] table.walk_present(va, tl)),
            forall|va: u64, tl: u64| #[trigger] table.walk_entry(va, tl) is None,
            forall|va: u64, tl: u64| #[trigger] table.can_reach(va, tl) == (tl <= level),
    {
        let entry = PageTableEntry::empty();
        let entries: Vec<PageTableEntry> = vec![entry; 512];
        let mut children: Vec<Option<Box<PageTable>>> = Vec::new();
        let mut i: usize = 0;
        while i < 512
            invariant
                children@.len() == i as int,
                i <= 512,
                forall|k: int| 0 <= k < i as int ==> children@[k] is None,
            decreases 512 - i,
        {
            children.push(None);
            i = i + 1;
        }
        let table = PageTable { level, address, entries, children };
        proof {
            assert(forall|k: int| 0 <= k < 512 ==> !(#[trigger] table.entries@[k]).spec_present());
            assert forall|va: u64, tl: u64| table.translate(va, tl) is None by {
                lemma_table_index_bound(va, level);
            }
            assert forall|va: u64, tl: u64| !table.walk_present(va, tl) by {
                lemma_table_index_bound(va, level);
            }
            assert forall|va: u64, tl: u64| table.walk_entry(va, tl) is None by {
                lemma_table_index_bound(va, level);
            }
            assert forall|va: u64, tl: u64| table.can_reach(va, tl) == (tl <= level) by {
                lemma_table_index_bound(va, level);
            }
        }
        table
    }

    /// Maps a single page in this table to the given physical address,
    /// overwriting (and reporting, so the caller can flush the TLB) any
    /// present entry in the target slot.
    ///
    /// Must only be called on the table level at which a page of size `S`
    /// is mapped.
    pub fn map_page_in_this_table<S: PageSize>(
        &mut self,
        page: Page<S>,
        physical_address: u64,
        flags: PageTableEntryFlags,
    ) -> (flush: bool)
        requires
            old(self).wf(),
            old(self).level == S::spec_map_level(),
            physical_address % S::spec_size() == 0,
            physical_address < MAX_PHYSICAL_ADDRESS,
            flags & CALLER_FLAG_MASK == flags,
        ensures
            final(self).wf(),
            final(self).level == old(self).level,
            final(self).address == old(self).address,
            flush == old(self).walk_present(page.virtual_address, S::spec_map_level()),
            final(self).walk_present(page.virtual_address, S::spec_map_level()),
            final(self).translate(page.virtual_address, S::spec_map_level()) == Some(
                physical_address,
            ),
            final(self).walk_entry(page.virtual_address, S::spec_map_level()) == Some(
                PageTableEntry {
                    physical_address_and_flags: physical_address | PRESENT | ACCESSED | (DIRTY
                        | S::spec_map_extra_flag() | flags),
                },
            ),
            forall|i: int|
                #![trigger final(self).entries@[i]]
                #![trigger final(self).children@[i]]
                0 <= i < 512 && i != spec_table_index(page.virtual_address, old(self).level) as int
                    ==> final(self).entries@[i] == old(self).entries@[i] && final(self).children@[i]
                    == old(self).children@[i],
    {
        proof {
            S::properties();
            lemma_flag_composition(flags, S::spec_map_extra_flag());
            if S::spec_map_level() == 2 {
                vstd::arithmetic::div_mod::lemma_mod_breakdown(
                    physical_address as int,
                    LARGE_PAGE_SIZE as int,
                    0x200,
                );
            }
        }
        let index = page.table_index(self.level);
        let flush = self.entries[index].is_present();
        let mut entry = self.entries[index];
        entry.set(physical_address, DIRTY | S::map_extra_flag() | flags);
        self.entries.set(index, entry);
        if self.level > 0 {
            self.children.set(index, None);
        }
        proof {
            let idx = spec_table_index(page.virtual_address, self.level) as int;
            assert forall|i: int| 0 <= i < 512 implies {
                if self.level > 0 && self.entries@[i].spec_present()
                    && !self.entries@[i].spec_huge() {
                    match self.children@[i] {
                        Some(sub) => {
                            &&& sub.level < self.level
                            &&& sub.level + 1 == self.level
                            &&& sub.address == self.entries@[i].spec_address()
                            &&& sub.wf()
                        },
                        None => false,
                    }
                } else {
                    self.children@[i] is None
                }
            } by {
                if i != idx {
                    assert(self.entries@[i] == old(self).entries@[i]);
                    assert(self.children@[i] == old(self).children@[i]);
                }
            }
        }
        flush
    }
}

impl PageTable {
    /// Maps a single page to the given physical address, walking down from
    /// this table and materialising missing sub-tables from the frame
    /// allocator.  Returns whether a present entry was overwritten, i.e.
    /// whether the page's translation must be flushed from the TLB.
    ///
    /// Every translation whose walk does not pass through the page's slot
    /// path is left untouched, and reachability at this page size is
    /// unchanged, so ranges can be mapped page by page.
    pub fn map_page<S: PageSize>(
        &mut self,
        alloc: &mut FrameAlloc,
        page: Page<S>,
        physical_address: u64,
        flags: PageTableEntryFlags,
    ) -> (flush: bool)
        requires
            old(self).wf(),
            S::spec_map_level() <= old(self).level <= 3,
            old(self).can_reach(page.virtual_address, S::spec_map_level()),
            physical_address % S::spec_size() == 0,
            physical_address < MAX_PHYSICAL_ADDRESS,
            flags & CALLER_FLAG_MASK == flags,
            old(alloc).wf(),
            old(alloc).spec_current() + (old(self).level - S::spec_map_level()) * BASE_PAGE_SIZE
                <= MAX_PHYSICAL_ADDRESS,
        ensures
            final(self).wf(),
            final(self).level == old(self).level,
            final(self).address == old(self).address,
            final(alloc).wf(),
            old(alloc).spec_current() <= final(alloc).spec_current(),
            final(alloc).spec_current() <= old(alloc).spec_current() + (old(self).level
                - S::spec_map_level()) * BASE_PAGE_SIZE,
            flush == old(self).walk_present(page.virtual_address, S::spec_map_level()),
            final(self).walk_present(page.virtual_address, S::spec_map_level()),
            final(self).translate(page.virtual_address, S::spec_map_level()) == Some(
                physical_address,
            ),
            final(self).walk_entry(page.virtual_address, S::spec_map_level()) == Some(
                PageTableEntry {
                    physical_address_and_flags: physical_address | PRESENT | ACCESSED | (DIRTY
                        | S::spec_map_extra_flag() | flags),
                },
            ),
            forall|va: u64, tl: u64|
                #![trigger final(self).translate(va, tl)]
                #![trigger old(self).translate(va, tl)]
                !(tl <= S::spec_map_level() && same_slot_path(
                    va,
                    page.virtual_address,
                    S::spec_map_level(),
                    old(self).level,
                )) ==> final(self).translate(va, tl) == old(self).translate(va, tl),
            forall|va: u64|
                #![trigger final(self).walk_present(va, S::spec_map_level())]
                #![trigger old(self).walk_present(va, S::spec_map_level())]
                !same_slot_path(va, page.virtual_address, S::spec_map_level(), old(self).level)
                    ==> final(self).walk_present(va, S::spec_map_level()) == old(self).walk_present(
                    va,
                    S::spec_map_level(),
                ),
            forall|va: u64, tl: u64|
                #![trigger final(self).walk_entry(va, tl)]
                #![trigger old(self).walk_entry(va, tl)]
                !(tl <= S::spec_map_level() && same_slot_path(
                    va,
                    page.virtual_address,
                    S::spec_map_level(),
                    old(self).level,
                )) ==> final(self).walk_entry(va, tl) == old(self).walk_entry(va, tl),
            forall|va: u64|
                #![trigger final(self).can_reach(va, S::spec_map_level())]
                #![trigger old(self).can_reach(va, S::spec_map_level())]
                final(self).can_reach(va, S::spec_map_level()) == old(self).can_reach(
                    va,
                    S::spec_map_level(),
                ),
        decreases old(self).level,
    {
        proof {
            S::properties();
        }
        let target_level = S::map_level();
        let ghost s_lvl = S::spec_map_level();
        let ghost lvl = old(self).level;
        if self.level > target_level {
            let index = page.table_index(self.level);
            let ghost idx = index as int;
            if !self.entries[index].is_present() {
                let frame = allocate(alloc, BASE_PAGE_SIZE);
                let sub = PageTable::empty(self.level - 1, frame);
                let ghost sub_snap = sub;
                let mut entry = self.entries[index];
                proof {
                    assert(WRITABLE & ADDRESS_MASK == 0 && WRITABLE & HUGE_PAGE == 0) by {
                        assert(0x2u64 & 0xF_FFFF_FFFF_F000 == 0 && 0x2u64 & 0x80 == 0)
                            by (bit_vector);
                    }
                }
                entry.set(frame, WRITABLE);
                self.entries.set(index, entry);
                self.children.set(index, Some(Box::new(sub)));
                proof {
                    assert forall|i: int| 0 <= i < 512 && i != idx implies self.entries@[i]
                        == old(self).entries@[i] && self.children@[i] == old(self).children@[i] by {
                    }
                    assert(self.wf()) by {
                        assert forall|i: int| 0 <= i < 512 implies {
                            if self.level > 0 && self.entries@[i].spec_present()
                                && !self.entries@[i].spec_huge() {
                                match self.children@[i] {
                                    Some(sub2) => {
                                        &&& sub2.level < self.level
                                        &&& sub2.level + 1 == self.level
                                        &&& sub2.address == self.entries@[i].spec_address()
                                        &&& sub2.wf()
                                    },
                                    None => false,
                                }
                            } else {
                                self.children@[i] is None
                            }
                        } by {
                        }
                    }
                    assert forall|va: u64, tl: u64|
                        #![trigger self.translate(va, tl)]
                        #![trigger old(self).translate(va, tl)]
                        self.translate(va, tl) == old(self).translate(va, tl) by {
                        lemma_table_index_bound(va, lvl);
                        let j = spec_table_index(va, lvl) as int;
                        if j != idx {
                            assert(self.entries@[j] == old(self).entries@[j]);
                            assert(self.children@[j] == old(self).children@[j]);
                            lemma_same_slot_same_walk(*old(self), *self, va, tl);
                        } else {
                            assert(!old(self).entries@[j].spec_present());
                            assert(old(self).translate(va, tl) is None);
                            if tl < lvl {
                                assert(self.children@[j] matches Some(b) && *b == sub_snap);
                                assert(self.translate(va, tl) == sub_snap.translate(va, tl));
                                assert(sub_snap.translate(va, tl) is None);
                            } else {
                                assert(self.translate(va, tl) is None);
                            }
                        }
                    }
                    assert forall|va: u64, tl: u64|
                        #![trigger self.walk_present(va, tl)]
                        #![trigger old(self).walk_present(va, tl)]
                        tl != lvl ==> self.walk_present(va, tl) == old(self).walk_present(
                            va,
                            tl,
                        ) by {
                        lemma_table_index_bound(va, lvl);
                        let j = spec_table_index(va, lvl) as int;
                        if j != idx {
                            assert(self.entries@[j] == old(self).entries@[j]);
                            assert(self.children@[j] == old(self).children@[j]);
                            lemma_same_slot_same_walk(*old(self), *self, va, tl);
                        } else if tl != lvl {
                            assert(!old(self).entries@[j].spec_present());
                            assert(!old(self).walk_present(va, tl));
                            if tl < lvl {
                                assert(self.children@[j] matches Some(b) && *b == sub_snap);
                                assert(self.walk_present(va, tl) == sub_snap.walk_present(va, tl));
                                assert(!sub_snap.walk_present(va, tl));
                            } else {
                                assert(!self.walk_present(va, tl));
                            }
                        }
                    }
                    assert forall|va: u64, tl: u64|
                        #![trigger self.can_reach(va, tl)]
                        #![trigger old(self).can_reach(va, tl)]
                        self.can_reach(va, tl) == old(self).can_reach(va, tl) by {
                        lemma_table_index_bound(va, lvl);
                        let j = spec_table_index(va, lvl) as int;
                        if j != idx {
                            assert(self.entries@[j] == old(self).entries@[j]);
                            assert(self.children@[j] == old(self).children@[j]);
                            lemma_same_slot_same_walk(*old(self), *self, va, tl);
                        } else if tl < lvl {
                            assert(old(self).can_reach(va, tl));
                            assert(self.children@[j] matches Some(b) && *b == sub_snap);
                            assert(self.can_reach(va, tl) == sub_snap.can_reach(va, tl));
                            assert(sub_snap.can_reach(va, tl) == (tl <= lvl - 1));
                        }
                    }
                    assert forall|va: u64, tl: u64|
                        #![trigger self.walk_entry(va, tl)]
                        #![trigger old(self).walk_entry(va, tl)]
                        self.walk_entry(va, tl) == old(self).walk_entry(va, tl) by {
                        lemma_table_index_bound(va, lvl);
                        let j = spec_table_index(va, lvl) as int;
                        if j != idx {
                            assert(self.entries@[j] == old(self).entries@[j]);
                            assert(self.children@[j] == old(self).children@[j]);
                            lemma_same_slot_same_walk(*old(self), *self, va, tl);
                        } else {
                            assert(!old(self).entries@[j].spec_present());
                            assert(old(self).walk_entry(va, tl) is None);
                            if tl < lvl {
                                assert(self.children@[j] matches Some(b) && *b == sub_snap);
                                assert(self.walk_entry(va, tl) == sub_snap.walk_entry(va, tl));
                                assert(sub_snap.walk_entry(va, tl) is None);
                            } else {
                                assert(self.walk_entry(va, tl) is None);
                            }
                        }
                    }
                }
            }
            let ghost mid = *self;
            proof {
                assert(mid.entries@[idx].spec_present() && !mid.entries@[idx].spec_huge());
                assert(mid.children@[idx] matches Some(sub1) && sub1.level + 1 == lvl && sub1.wf());
            }
            let taken = self.children.remove(index);
            let sub_box = taken.unwrap();
            let mut sub = sub_box;
            let ghost sub0 = *sub;
            proof {
                assert(mid.can_reach(page.virtual_address, s_lvl) == old(self).can_reach(
                    page.virtual_address,
                    s_lvl,
                ));
                assert(sub0.can_reach(page.virtual_address, s_lvl));
            }
            let flush = (&mut *sub).map_page::<S>(alloc, page, physical_address, flags);
            let ghost sub_final = *sub;
            self.children.insert(index, Some(sub));
            proof {
                assert(self.entries@ == mid.entries@);
                assert(self.children@ =~= mid.children@.update(idx, Some(sub)));
                assert(self.children@[idx] matches Some(b) && *b == sub_final);
                // the updated slot still satisfies the hierarchy invariant
                assert(self.wf()) by {
                    assert forall|i: int| 0 <= i < 512 implies {
                        if self.level > 0 && self.entries@[i].spec_present()
                            && !self.entries@[i].spec_huge() {
                            match self.children@[i] {
                                Some(sub2) => {
                                    &&& sub2.level < self.level
                                    &&& sub2.level + 1 == self.level
                                    &&& sub2.address == self.entries@[i].spec_address()
                                    &&& sub2.wf()
                                },
                                None => false,
                            }
                        } else {
                            self.children@[i] is None
                        }
                    } by {
                    }
                }
                // the new mapping is installed
                assert(self.translate(page.virtual_address, s_lvl) == Some(physical_address));
                assert(self.walk_present(page.virtual_address, s_lvl));
                assert(self.walk_entry(page.virtual_address, s_lvl) == sub_final.walk_entry(
                    page.virtual_address,
                    s_lvl,
                ));
                // the flush report is the state of the target slot before the call
                assert(mid.walk_present(page.virtual_address, s_lvl) == sub0.walk_present(
                    page.virtual_address,
                    s_lvl,
                ));
                // translations off the slot path are untouched
                assert forall|va: u64, tl: u64|
                    #![trigger self.translate(va, tl)]
                    #![trigger old(self).translate(va, tl)]
                    !(tl <= s_lvl && same_slot_path(va, page.virtual_address, s_lvl, lvl))
                        implies self.translate(va, tl) == old(self).translate(va, tl) by {
                    lemma_table_index_bound(va, lvl);
                    if spec_table_index(va, lvl) as int != idx {
                        lemma_same_slot_same_walk(mid, *self, va, tl);
                    } else {
                        lemma_same_path_extension(va, page.virtual_address, s_lvl, lvl);
                        if tl <= s_lvl && same_slot_path(va, page.virtual_address, s_lvl, (lvl
                            - 1) as u64) {
                            assert(same_slot_path(va, page.virtual_address, s_lvl, lvl));
                        }
                        assert(self.translate(va, tl) == sub_final.translate(va, tl));
                        assert(mid.translate(va, tl) == sub0.translate(va, tl));
                    }
                }
                assert forall|va: u64|
                    #![trigger self.walk_present(va, s_lvl)]
                    #![trigger old(self).walk_present(va, s_lvl)]
                    !same_slot_path(va, page.virtual_address, s_lvl, lvl) implies self.walk_present(
                    va,
                    s_lvl,
                ) == old(self).walk_present(va, s_lvl) by {
                    lemma_table_index_bound(va, lvl);
                    if spec_table_index(va, lvl) as int != idx {
                        lemma_same_slot_same_walk(mid, *self, va, s_lvl);
                    } else {
                        lemma_same_path_extension(va, page.virtual_address, s_lvl, lvl);
                        assert(self.walk_present(va, s_lvl) == sub_final.walk_present(va, s_lvl));
                        assert(mid.walk_present(va, s_lvl) == sub0.walk_present(va, s_lvl));
                    }
                }
                assert forall|va: u64, tl: u64|
                    #![trigger self.walk_entry(va, tl)]
                    #![trigger old(self).walk_entry(va, tl)]
                    !(tl <= s_lvl && same_slot_path(va, page.virtual_address, s_lvl, lvl))
                        implies self.walk_entry(va, tl) == old(self).walk_entry(va, tl) by {
                    lemma_table_index_bound(va, lvl);
                    if spec_table_index(va, lvl) as int != idx {
                        lemma_same_slot_same_walk(mid, *self, va, tl);
                    } else {
                        lemma_same_path_extension(va, page.virtual_address, s_lvl, lvl);
                        if tl <= s_lvl && same_slot_path(va, page.virtual_address, s_lvl, (lvl
                            - 1) as u64) {
                            assert(same_slot_path(va, page.virtual_address, s_lvl, lvl));
                        }
                        assert(self.walk_entry(va, tl) == sub_final.walk_entry(va, tl));
                        assert(mid.walk_entry(va, tl) == sub0.walk_entry(va, tl));
                    }
                }
                assert forall|va: u64|
                    #![trigger self.can_reach(va, s_lvl)]
                    #![trigger old(self).can_reach(va, s_lvl)]
                    self.can_reach(va, s_lvl) == old(self).can_reach(va, s_lvl) by {
                    lemma_table_index_bound(va, lvl);
                    if spec_table_index(va, lvl) as int != idx {
                        lemma_same_slot_same_walk(mid, *self, va, s_lvl);
                    } else {
                        assert(self.can_reach(va, s_lvl) == sub_final.can_reach(va, s_lvl));
                        assert(mid.can_reach(va, s_lvl) == sub0.can_reach(va, s_lvl));
                    }
                }
            }
            flush
        } else {
            let flush = self.map_page_in_this_table::<S>(page, physical_address, flags);
            proof {
                let ghost fin = *self;
                assert forall|va: u64, tl: u64|
                    #![trigger fin.translate(va, tl)]
                    #![trigger old(self).translate(va, tl)]
                    !(tl <= s_lvl && same_slot_path(va, page.virtual_address, s_lvl, lvl))
                        implies fin.translate(va, tl) == old(self).translate(va, tl) by {
                    lemma_table_index_bound(va, lvl);
                    let j = spec_table_index(va, lvl) as int;
                    if j != spec_table_index(page.virtual_address, lvl) as int {
                        assert(fin.entries@[j] == old(self).entries@[j]);
                        assert(fin.children@[j] == old(self).children@[j]);
                        lemma_same_slot_same_walk(*old(self), fin, va, tl);
                    } else {
                        assert(same_slot_path(va, page.virtual_address, s_lvl, lvl)) by {
                            assert forall|l: u64| s_lvl <= l <= lvl implies spec_table_index(
                                va,
                                l,
                            ) == spec_table_index(page.virtual_address, l) by {
                            }
                        }
                        assert(tl > s_lvl);
                        assert(fin.translate(va, tl) is None && old(self).translate(va, tl)
                            is None);
                    }
                }
                assert forall|va: u64|
                    #![trigger fin.walk_present(va, s_lvl)]
                    #![trigger old(self).walk_present(va, s_lvl)]
                    !same_slot_path(va, page.virtual_address, s_lvl, lvl) implies fin.walk_present(
                    va,
                    s_lvl,
                ) == old(self).walk_present(va, s_lvl) by {
                    lemma_table_index_bound(va, lvl);
                    let j = spec_table_index(va, lvl) as int;
                    if j != spec_table_index(page.virtual_address, lvl) as int {
                        assert(fin.entries@[j] == old(self).entries@[j]);
                        assert(fin.children@[j] == old(self).children@[j]);
                        lemma_same_slot_same_walk(*old(self), fin, va, s_lvl);
                    } else {
                        assert(same_slot_path(va, page.virtual_address, s_lvl, lvl)) by {
                            assert forall|l: u64| s_lvl <= l <= lvl implies spec_table_index(
                                va,
                                l,
                            ) == spec_table_index(page.virtual_address, l) by {
                            }
                        }
                    }
                }
                assert forall|va: u64, tl: u64|
                    #![trigger fin.walk_entry(va, tl)]
                    #![trigger old(self).walk_entry(va, tl)]
                    !(tl <= s_lvl && same_slot_path(va, page.virtual_address, s_lvl, lvl))
                        implies fin.walk_entry(va, tl) == old(self).walk_entry(va, tl) by {
                    lemma_table_index_bound(va, lvl);
                    let j = spec_table_index(va, lvl) as int;
                    if j != spec_table_index(page.virtual_address, lvl) as int {
                        assert(fin.entries@[j] == old(self).entries@[j]);
                        assert(fin.children@[j] == old(self).children@[j]);
                        lemma_same_slot_same_walk(*old(self), fin, va, tl);
                    } else {
                        assert(same_slot_path(va, page.virtual_address, s_lvl, lvl)) by {
                            assert forall|l: u64| s_lvl <= l <= lvl implies spec_table_index(
                                va,
                                l,
                            ) == spec_table_index(page.virtual_address, l) by {
                            }
                        }
                        assert(tl > s_lvl);
                        assert(fin.walk_entry(va, tl) is None && old(self).walk_entry(va, tl)
                            is None);
                    }
                }
                assert forall|va: u64|
                    #![trigger fin.can_reach(va, s_lvl)]
                    #![trigger old(self).can_reach(va, s_lvl)]
                    fin.can_reach(va, s_lvl) == old(self).can_reach(va, s_lvl) by {
                    lemma_table_index_bound(va, lvl);
                    let j = spec_table_index(va, lvl) as int;
                    if j != spec_table_index(page.virtual_address, lvl) as int {
                        assert(fin.entries@[j] == old(self).entries@[j]);
                        assert(fin.children@[j] == old(self).children@[j]);
                        lemma_same_slot_same_walk(*old(self), fin, va, s_lvl);
                    }
                }
            }
            flush
        }
    }
}

/// A slot path shared up to one level below `high_level`, together with an
/// equal index at `high_level` itself, is a slot path shared up to
/// `high_level`.
proof fn lemma_same_path_extension(va1: u64, va2: u64, low_level: u64, high_level: u64)
    requires
        low_level < high_level,
        spec_table_index(va1, high_level) == spec_table_index(va2, high_level),
    ensures
        same_slot_path(va1, va2, low_level, (high_level - 1) as u64) ==> same_slot_path(
            va1,
            va2,
            low_level,
            high_level,
        ),
{
    if same_slot_path(va1, va2, low_level, (high_level - 1) as u64) {
        assert forall|l: u64| low_level <= l <= high_level implies spec_table_index(va1, l)
            == spec_table_index(va2, l) by {
            if l < high_level {
                assert(low_level <= l <= (high_level - 1) as u64);
            }
        }
    }
}

/// The number of pages in the inclusive range of evenly spaced pages from
/// `first` to `last`.
pub open spec fn spec_page_count(first: u64, last: u64, size: u64) -> int
    recommends
        size > 0,
        first <= last,
{
    (last - first) / (size as int) + 1
}

/// Basic facts about an inclusive page range: it has at least one page,
/// its last page is `first + (count - 1) * size`, every page of the range
/// lies between `first` and `last`, and the count is bounded by the range
/// width.
pub proof fn lemma_page_count(first: u64, last: u64, size: u64)
    requires
        size > 0,
        first % size == 0,
        last % size == 0,
        first <= last,
    ensures
        spec_page_count(first, last, size) >= 1,
        first + (spec_page_count(first, last, size) - 1) * size == last,
        forall|i: int|
            0 <= i < spec_page_count(first, last, size) ==> first + #[trigger] (i * size) <= last,
        spec_page_count(first, last, size) <= last - first + 1,
{
    let s = size as int;
    let d = last - first;
    let n = spec_page_count(first, last, size);
    assert(d % s == 0) by {
        let q1 = first as int / s;
        let q2 = last as int / s;
        vstd::arithmetic::div_mod::lemma_fundamental_div_mod(first as int, s);
        vstd::arithmetic::div_mod::lemma_fundamental_div_mod(last as int, s);
        vstd::arithmetic::mul::lemma_mul_is_distributive_sub(s, q2, q1);
        assert(d == s * (q2 - q1));
        vstd::arithmetic::mul::lemma_mul_is_commutative(q2 - q1, s);
        vstd::arithmetic::div_mod::lemma_mod_multiples_basic(q2 - q1, s);
    }
    vstd::arithmetic::div_mod::lemma_fundamental_div_mod(d, s);
    vstd::arithmetic::div_mod::lemma_div_is_ordered_by_denominator(d, 1, s);
    vstd::arithmetic::div_mod::lemma_div_basics(d);
    assert(d / s >= 0) by {
        vstd::arithmetic::div_mod::lemma_div_pos_is_pos(d, s);
    }
    assert((n - 1) * s == s * (n - 1)) by {
        vstd::arithmetic::mul::lemma_mul_is_commutative(n - 1, s);
    }
    assert(first + (n - 1) * size == last);
    assert forall|i: int| 0 <= i < n implies first + #[trigger] (i * size) <= last by {
        vstd::arithmetic::mul::lemma_mul_inequality(i, n - 1, s);
    }
}

impl PageTable {
    /// Looks up the physical frame this hierarchy translates
    /// `virtual_address` to for a page mapped at `target_level`.
    pub fn lookup(&self, virtual_address: u64, target_level: u64) -> (frame: Option<u64>)
        requires
            self.wf(),
        ensures
            frame == self.translate(virtual_address, target_level),
        decreases self.level,
    {
        proof {
            lemma_table_index_bound(virtual_address, self.level);
        }
        if target_level > self.level {
            None
        } else {
            let index = (((virtual_address >> PAGE_BITS) >> (self.level * PAGE_MAP_BITS))
                & PAGE_MAP_MASK) as usize;
            let entry = self.entries[index];
            if !entry.is_present() {
                None
            } else if self.level == target_level {
                if self.level > 0 && (entry.physical_address_and_flags & HUGE_PAGE) == 0 {
                    None
                } else {
                    Some(entry.physical_address_and_flags & ADDRESS_MASK)
                }
            } else if (entry.physical_address_and_flags & HUGE_PAGE) != 0 {
                None
            } else {
                match &self.children[index] {
                    Some(sub) => sub.lookup(virtual_address, target_level),
                    None => None,
                }
            }
        }
    }

    /// Maps a continuous range of pages of size `S` to a continuous run of
    /// physical frames starting at `physical_address`, installing the
    /// given flags (plus `PRESENT`, `ACCESSED`, `DIRTY` and the size's
    /// extra flag) in every target entry.  Returns the number of pages
    /// whose translation was overwritten and therefore needs a TLB flush.
    #[verifier::rlimit(100)]
    #[verifier::spinoff_prover]
    pub fn map_pages<S: PageSize>(
        &mut self,
        alloc: &mut FrameAlloc,
        range: PageIter<S>,
        physical_address: u64,
        flags: PageTableEntryFlags,
    ) -> (flushes: u64)
        requires
            old(self).wf(),
            old(self).level == 3,
            range.spec_current() % S::spec_size() == 0,
            range.spec_last() % S::spec_size() == 0,
            range.spec_current() <= range.spec_last(),
            range.spec_last() + S::spec_size() <= u64::MAX,
            forall|i: int|
                0 <= i < spec_page_count(range.spec_current(), range.spec_last(), S::spec_size())
                    ==> spec_is_valid_address(
                    #[trigger] spec_page_step(range.spec_current(), S::spec_size(), i),
                ),
            forall|i: int|
                0 <= i < spec_page_count(range.spec_current(), range.spec_last(), S::spec_size())
                    ==> old(self).can_reach(
                    #[trigger] spec_page_step(range.spec_current(), S::spec_size(), i),
                    S::spec_map_level(),
                ),
            physical_address % S::spec_size() == 0,
            physical_address + spec_page_count(
                range.spec_current(),
                range.spec_last(),
                S::spec_size(),
            ) * S::spec_size() <= MAX_PHYSICAL_ADDRESS,
            flags & CALLER_FLAG_MASK == flags,
            old(alloc).wf(),
            old(alloc).spec_current() + spec_page_count(
                range.spec_current(),
                range.spec_last(),
                S::spec_size(),
            ) * ((3 - S::spec_map_level()) * BASE_PAGE_SIZE) <= MAX_PHYSICAL_ADDRESS,
        ensures
            final(self).wf(),
            final(self).level == old(self).level,
            final(self).address == old(self).address,
            final(alloc).wf(),
            old(alloc).spec_current() <= final(alloc).spec_current(),
            final(alloc).spec_current() <= old(alloc).spec_current() + spec_page_count(
                range.spec_current(),
                range.spec_last(),
                S::spec_size(),
            ) * ((3 - S::spec_map_level()) * BASE_PAGE_SIZE),
            forall|i: int|
                0 <= i < spec_page_count(range.spec_current(), range.spec_last(), S::spec_size())
                    ==> final(self).translate(
                    #[trigger] spec_page_step(range.spec_current(), S::spec_size(), i),
                    S::spec_map_level(),
                ) == Some((physical_address + i * S::spec_size()) as u64),
            forall|i: int|
                0 <= i < spec_page_count(range.spec_current(), range.spec_last(), S::spec_size())
                    ==> final(self).walk_entry(
                    #[trigger] spec_page_step(range.spec_current(), S::spec_size(), i),
                    S::spec_map_level(),
                ) == Some(
                    PageTableEntry {
                        physical_address_and_flags: (physical_address + i * S::spec_size()) as u64
                            | PRESENT | ACCESSED | (DIRTY | S::spec_map_extra_flag() | flags),
                    },
                ),
            forall|va: u64, tl: u64|
                #![trigger final(self).translate(va, tl)]
                #![trigger old(self).translate(va, tl)]
                !(tl <= S::spec_map_level() && exists|i: int|
                    0 <= i < spec_page_count(
                        range.spec_current(),
                        range.spec_last(),
                        S::spec_size(),
                    ) && same_slot_path(
                        va,
                        #[trigger] spec_page_step(range.spec_current(), S::spec_size(), i),
                        S::spec_map_level(),
                        3,
                    )) ==> final(self).translate(va, tl) == old(self).translate(va, tl),
            forall|va: u64|
                #![trigger final(self).can_reach(va, S::spec_map_level())]
                #![trigger old(self).can_reach(va, S::spec_map_level())]
                final(self).can_reach(va, S::spec_map_level()) == old(self).can_reach(
                    va,
                    S::spec_map_level(),
                ),
            flushes == old(self).count_flushes(
                range.spec_current(),
                S::spec_size(),
                S::spec_map_level(),
                spec_page_count(range.spec_current(), range.spec_last(), S::spec_size()),
            ),
    {
        let ghost first = range.spec_current();
        let ghost last = range.spec_last();
        let ghost size = S::spec_size();
        let ghost s_lvl = S::spec_map_level();
        let ghost n = spec_page_count(first, last, size);
        let ghost table0 = *self;
        let ghost alloc0 = *alloc;
        proof {
            S::properties();
            lemma_page_count(first, last, size);
        }
        let mut iter = range;
        let mut current_physical_address = physical_address;
        let mut flushes: u64 = 0;
        let ghost mut k: int = 0;
        let mut more = iter.has_next();
        while more
            invariant
                self.wf(),
                self.level == 3,
                self.address == table0.address,
                alloc.wf(),
                table0.wf(),
                table0.level == 3,
                alloc0.wf(),
                0 <= k <= n,
                n == spec_page_count(first, last, size),
                n >= 1,
                first + (n - 1) * size == last,
                first % size == 0,
                last % size == 0,
                last + size <= u64::MAX,
                size == S::spec_size(),
                s_lvl == S::spec_map_level(),
                s_lvl <= 2,
                size == spec_size_at_level(s_lvl),
                physical_address % size == 0,
                physical_address + n * size <= MAX_PHYSICAL_ADDRESS,
                flags & CALLER_FLAG_MASK == flags,
                forall|i: int|
                    0 <= i < n ==> spec_is_valid_address(
                        #[trigger] spec_page_step(first, size, i),
                    ),
                forall|i: int|
                    0 <= i < n ==> table0.can_reach(
                        #[trigger] spec_page_step(first, size, i),
                        s_lvl,
                    ),
                iter.spec_current() == first + k * size,
                iter.spec_last() == last,
                more == (iter.spec_current() <= iter.spec_last()),
                current_physical_address == physical_address + k * size,
                flushes <= k,
                flushes == table0.count_flushes(first, size, s_lvl, k),
                alloc0.spec_current() <= alloc.spec_current(),
                alloc.spec_current() <= alloc0.spec_current() + k * ((3 - s_lvl)
                    * BASE_PAGE_SIZE),
                alloc0.spec_current() + n * ((3 - s_lvl) * BASE_PAGE_SIZE)
                    <= MAX_PHYSICAL_ADDRESS,
                forall|i: int|
                    0 <= i < k ==> self.translate(
                        #[trigger] spec_page_step(first, size, i),
                        s_lvl,
                    ) == Some((physical_address + i * size) as u64),
                forall|i: int|
                    0 <= i < k ==> self.walk_entry(
                        #[trigger] spec_page_step(first, size, i),
                        s_lvl,
                    ) == Some(
                        PageTableEntry {
                            physical_address_and_flags: (physical_address + i * size) as u64
                                | PRESENT | ACCESSED | (DIRTY | S::spec_map_extra_flag() | flags),
                        },
                    ),
                forall|i: int|
                    k <= i < n ==> self.walk_present(
                        #[trigger] spec_page_step(first, size, i),
                        s_lvl,
                    ) == table0.walk_present(spec_page_step(first, size, i), s_lvl),
                forall|va: u64, tl: u64|
                    #![trigger self.translate(va, tl)]
                    #![trigger table0.translate(va, tl)]
                    !(tl <= s_lvl && exists|i: int|
                        0 <= i < k && same_slot_path(
                            va,
                            #[trigger] spec_page_step(first, size, i),
                            s_lvl,
                            3,
                        )) ==> self.translate(va, tl) == table0.translate(va, tl),
                forall|va: u64|
                    #![trigger self.can_reach(va, s_lvl)]
                    #![trigger table0.can_reach(va, s_lvl)]
                    self.can_reach(va, s_lvl) == table0.can_reach(va, s_lvl),
            decreases n - k,
        {
            proof {
                // the iterator has not run past the last page, so k < n
                if k >= n {
                    vstd::arithmetic::mul::lemma_mul_inequality(n, k, size as int);
                    vstd::arithmetic::mul::lemma_mul_is_distributive_add_other_way(
                        size as int,
                        n - 1,
                        1,
                    );
                    assert((n - 1) * size + size == n * size);
                    assert(false);
                }
                lemma_page_count(first, last, size);
                vstd::arithmetic::mul::lemma_mul_inequality(k, n - 1, size as int);
            }
            let page_opt = iter.next();
            let page = page_opt.unwrap();
            let ghost page_va = spec_page_step(first, size, k);
            proof {
                lemma_page_step_aligned(first, size, k);
                assert(page.virtual_address == page_va);
                assert(page.wf());
                assert(table0.can_reach(page_va, s_lvl));
                assert(current_physical_address % size == 0) by {
                    lemma_page_step_aligned(physical_address, size, k);
                }
                assert((k + 1) * size <= n * size) by {
                    vstd::arithmetic::mul::lemma_mul_inequality(k + 1, n, size as int);
                }
                assert(k * size + size == (k + 1) * size) by {
                    vstd::arithmetic::mul::lemma_mul_is_distributive_add_other_way(
                        size as int,
                        k,
                        1,
                    );
                }
                assert(current_physical_address < MAX_PHYSICAL_ADDRESS);
                assert((k + 1) * ((3 - s_lvl) * BASE_PAGE_SIZE) <= n * ((3 - s_lvl)
                    * BASE_PAGE_SIZE)) by {
                    vstd::arithmetic::mul::lemma_mul_inequality(
                        k + 1,
                        n,
                        (3 - s_lvl) * BASE_PAGE_SIZE,
                    );
                }
                assert(k * ((3 - s_lvl) * BASE_PAGE_SIZE) + (3 - s_lvl) * BASE_PAGE_SIZE == (k
                    + 1) * ((3 - s_lvl) * BASE_PAGE_SIZE)) by {
                    vstd::arithmetic::mul::lemma_mul_is_distributive_add_other_way(
                        (3 - s_lvl) * BASE_PAGE_SIZE,
                        k,
                        1,
                    );
                }
            }
            let ghost before = *self;
            let ghost alloc_before = *alloc;
            let flush = self.map_page::<S>(alloc, page, current_physical_address, flags);
            if flush {
                flushes = flushes + 1;
            }
            current_physical_address = current_physical_address + S::size();
            let ghost k0 = k;
            proof {
                k = k + 1;
                // pages of the range other than page k keep their slot paths
                // disjoint from it
                assert forall|i: int| 0 <= i < n && i != k0 implies !same_slot_path(
                    spec_page_step(first, size, i),
                    page_va,
                    s_lvl,
                    3,
                ) by {
                    lemma_page_step_aligned(first, size, i);
                    lemma_page_step_aligned(first, size, k0);
                    if i < k0 {
                        vstd::arithmetic::mul::lemma_mul_strict_inequality(i, k0, size as int);
                    } else {
                        vstd::arithmetic::mul::lemma_mul_strict_inequality(k0, i, size as int);
                    }
                    lemma_distinct_pages_differ(spec_page_step(first, size, i), page_va, s_lvl);
                }
                // the flush tally matches the walk state of the original table
                assert(before.walk_present(page_va, s_lvl) == table0.walk_present(
                    page_va,
                    s_lvl,
                ));
                assert(flushes == table0.count_flushes(first, size, s_lvl, k));
                // previously mapped pages stay mapped, with their exact entries
                assert forall|i: int| 0 <= i < k implies self.translate(
                    spec_page_step(first, size, i),
                    s_lvl,
                ) == Some((physical_address + i * size) as u64) by {
                    if i < k0 {
                        assert(before.translate(spec_page_step(first, size, i), s_lvl) == Some(
                            (physical_address + i * size) as u64,
                        ));
                        assert(!same_slot_path(spec_page_step(first, size, i), page_va, s_lvl, 3));
                        assert(self.translate(spec_page_step(first, size, i), s_lvl)
                            == before.translate(spec_page_step(first, size, i), s_lvl));
                    }
                }
                assert forall|i: int| 0 <= i < k implies self.walk_entry(
                    spec_page_step(first, size, i),
                    s_lvl,
                ) == Some(
                    PageTableEntry {
                        physical_address_and_flags: (physical_address + i * size) as u64 | PRESENT
                            | ACCESSED | (DIRTY | S::spec_map_extra_flag() | flags),
                    },
                ) by {
                    if i < k0 {
                        assert(!same_slot_path(spec_page_step(first, size, i), page_va, s_lvl, 3));
                        assert(self.walk_entry(spec_page_step(first, size, i), s_lvl)
                            == before.walk_entry(spec_page_step(first, size, i), s_lvl));
                    }
                }
                // pages still to be mapped keep their original walk state
                assert forall|i: int| k <= i < n implies self.walk_present(
                    spec_page_step(first, size, i),
                    s_lvl,
                ) == table0.walk_present(spec_page_step(first, size, i), s_lvl) by {
                    assert(!same_slot_path(spec_page_step(first, size, i), page_va, s_lvl, 3));
                    assert(self.walk_present(spec_page_step(first, size, i), s_lvl)
                        == before.walk_present(spec_page_step(first, size, i), s_lvl));
                }
                // translations off all mapped slot paths are untouched
                assert forall|va: u64, tl: u64|
                    !(tl <= s_lvl && exists|i: int|
                        0 <= i < k && same_slot_path(
                            va,
                            #[trigger] spec_page_step(first, size, i),
                            s_lvl,
                            3,
                        )) implies self.translate(va, tl) == table0.translate(va, tl) by {
                    if tl <= s_lvl {
                        assert(!same_slot_path(va, spec_page_step(first, size, k0), s_lvl, 3));
                        assert(!same_slot_path(va, page_va, s_lvl, 3));
                    }
                    assert(self.translate(va, tl) == before.translate(va, tl));
                    assert(before.translate(va, tl) == table0.translate(va, tl));
                }
            }
            more = iter.has_next();
        }
        proof {
            // the iterator ran past the last page, so every page was mapped
            if k < n {
                vstd::arithmetic::mul::lemma_mul_inequality(k, n - 1, size as int);
                assert(false);
            }
        }
        flushes
    }
}

impl PageTable {
    /// Unmaps a single page: looks up the entry in the page's target slot
    /// and clears it if it carries a mapping of this size.  Never frees or
    /// descends into sub-tables that the slot may point to instead, and
    /// leaves every other translation untouched.  Returns whether a
    /// mapping was cleared, i.e. whether the page must be evicted out of
    /// the TLB.
    pub fn unmap_page<S: PageSize>(&mut self, page: Page<S>) -> (flush: bool)
        requires
            old(self).wf(),
            S::spec_map_level() <= old(self).level <= 3,
        ensures
            final(self).wf(),
            final(self).level == old(self).level,
            final(self).address == old(self).address,
            flush == (old(self).translate(page.virtual_address, S::spec_map_level()) is Some),
            final(self).translate(page.virtual_address, S::spec_map_level()) is None,
            forall|va: u64, tl: u64|
                #![trigger final(self).translate(va, tl)]
                #![trigger old(self).translate(va, tl)]
                !(tl <= S::spec_map_level() && same_slot_path(
                    va,
                    page.virtual_address,
                    S::spec_map_level(),
                    old(self).level,
                )) ==> final(self).translate(va, tl) == old(self).translate(va, tl),
            forall|va: u64|
                #![trigger final(self).can_reach(va, S::spec_map_level())]
                #![trigger old(self).can_reach(va, S::spec_map_level())]
                final(self).can_reach(va, S::spec_map_level()) == old(self).can_reach(
                    va,
                    S::spec_map_level(),
                ),
        decreases old(self).level,
    {
        proof {
            S::properties();
        }
        let target_level = S::map_level();
        let ghost s_lvl = S::spec_map_level();
        let ghost lvl = old(self).level;
        let index = page.table_index(self.level);
        let ghost idx = index as int;
        if self.level > target_level {
            if !self.entries[index].is_present() || (self.entries[index].physical_address_and_flags
                & HUGE_PAGE) != 0 {
                // nothing of this size is mapped below this slot
                return false;
            }
            let taken = self.children.remove(index);
            let mut sub = taken.unwrap();
            let ghost sub0 = *sub;
            let flush = (&mut *sub).unmap_page::<S>(page);
            let ghost sub_final = *sub;
            self.children.insert(index, Some(sub));
            proof {
                assert(self.entries@ == old(self).entries@);
                assert(self.children@ =~= old(self).children@.update(idx, Some(sub)));
                assert(self.children@[idx] matches Some(b) && *b == sub_final);
                assert(self.wf()) by {
                    assert forall|i: int| 0 <= i < 512 implies {
                        if self.level > 0 && self.entries@[i].spec_present()
                            && !self.entries@[i].spec_huge() {
                            match self.children@[i] {
                                Some(sub2) => {
                                    &&& sub2.level < self.level
                                    &&& sub2.level + 1 == self.level
                                    &&& sub2.address == self.entries@[i].spec_address()
                                    &&& sub2.wf()
                                },
                                None => false,
                            }
                        } else {
                            self.children@[i] is None
                        }
                    } by {
                    }
                }
                assert forall|va: u64, tl: u64|
                    #![trigger self.translate(va, tl)]
                    #![trigger old(self).translate(va, tl)]
                    !(tl <= s_lvl && same_slot_path(va, page.virtual_address, s_lvl, lvl))
                        implies self.translate(va, tl) == old(self).translate(va, tl) by {
                    lemma_table_index_bound(va, lvl);
                    if spec_table_index(va, lvl) as int != idx {
                        lemma_same_slot_same_walk(*old(self), *self, va, tl);
                    } else {
                        lemma_same_path_extension(va, page.virtual_address, s_lvl, lvl);
                        if tl <= s_lvl && same_slot_path(va, page.virtual_address, s_lvl, (lvl
                            - 1) as u64) {
                            assert(same_slot_path(va, page.virtual_address, s_lvl, lvl));
                        }
                        assert(self.translate(va, tl) == sub_final.translate(va, tl));
                        assert(old(self).translate(va, tl) == sub0.translate(va, tl));
                    }
                }
                assert forall|va: u64|
                    #![trigger self.can_reach(va, s_lvl)]
                    #![trigger old(self).can_reach(va, s_lvl)]
                    self.can_reach(va, s_lvl) == old(self).can_reach(va, s_lvl) by {
                    lemma_table_index_bound(va, lvl);
                    if spec_table_index(va, lvl) as int != idx {
                        lemma_same_slot_same_walk(*old(self), *self, va, s_lvl);
                    } else {
                        assert(self.can_reach(va, s_lvl) == sub_final.can_reach(va, s_lvl));
                        assert(old(self).can_reach(va, s_lvl) == sub0.can_reach(va, s_lvl));
                    }
                }
            }
            flush
        } else {
            let entry = self.entries[index];
            let flush = entry.is_present() && (self.level == 0 || (entry.physical_address_and_flags
                & HUGE_PAGE) != 0);
            if flush {
                self.entries.set(index, PageTableEntry::empty());
            }
            proof {
                if flush {
                    assert forall|i: int| 0 <= i < 512 && i != idx implies self.entries@[i] == old(
                        self,
                    ).entries@[i] && self.children@[i] == old(self).children@[i] by {
                    }
                    assert(self.wf()) by {
                        assert forall|i: int| 0 <= i < 512 implies {
                            if self.level > 0 && self.entries@[i].spec_present()
                                && !self.entries@[i].spec_huge() {
                                match self.children@[i] {
                                    Some(sub2) => {
                                        &&& sub2.level < self.level
                                        &&& sub2.level + 1 == self.level
                                        &&& sub2.address == self.entries@[i].spec_address()
                                        &&& sub2.wf()
                                    },
                                    None => false,
                                }
                            } else {
                                self.children@[i] is None
                            }
                        } by {
                        }
                    }
                }
                assert forall|va: u64, tl: u64|
                    #![trigger self.translate(va, tl)]
                    #![trigger old(self).translate(va, tl)]
                    !(tl <= s_lvl && same_slot_path(va, page.virtual_address, s_lvl, lvl))
                        implies self.translate(va, tl) == old(self).translate(va, tl) by {
                    lemma_table_index_bound(va, lvl);
                    let j = spec_table_index(va, lvl) as int;
                    if j != idx {
                        assert(self.entries@[j] == old(self).entries@[j]);
                        assert(self.children@[j] == old(self).children@[j]);
                        lemma_same_slot_same_walk(*old(self), *self, va, tl);
                    } else {
                        assert(same_slot_path(va, page.virtual_address, s_lvl, lvl)) by {
                            assert forall|l: u64| s_lvl <= l <= lvl implies spec_table_index(
                                va,
                                l,
                            ) == spec_table_index(page.virtual_address, l) by {
                            }
                        }
                        assert(tl > s_lvl);
                        assert(self.translate(va, tl) is None && old(self).translate(va, tl)
                            is None);
                    }
                }
                assert forall|va: u64|
                    #![trigger self.can_reach(va, s_lvl)]
                    #![trigger old(self).can_reach(va, s_lvl)]
                    self.can_reach(va, s_lvl) == old(self).can_reach(va, s_lvl) by {
                    lemma_table_index_bound(va, lvl);
                    let j = spec_table_index(va, lvl) as int;
                    if j != idx {
                        assert(self.entries@[j] == old(self).entries@[j]);
                        assert(self.children@[j] == old(self).children@[j]);
                        lemma_same_slot_same_walk(*old(self), *self, va, s_lvl);
                    }
                }
            }
            flush
        }
    }
}

/// Unmaps one page of size `S` including `virtual_address`: clears its
/// entry if a mapping of this size is installed, leaving sub-tables and
/// every other translation in place.  Returns whether a mapping was
/// cleared and the page must therefore be evicted out of the TLB.
pub fn unmap<S: PageSize>(root: &mut PageTable, virtual_address: u64) -> (flush: bool)
    requires
        old(root).wf(),
        old(root).level == 3,
        spec_is_valid_address(virtual_address),
    ensures
        final(root).wf(),
        final(root).level == 3,
        final(root).address == old(root).address,
        flush == (old(root).translate(
            spec_align_down(virtual_address, S::spec_size()),
            S::spec_map_level(),
        ) is Some),
        final(root).translate(
            spec_align_down(virtual_address, S::spec_size()),
            S::spec_map_level(),
        ) is None,
        forall|va: u64, tl: u64|
            #![trigger final(root).translate(va, tl)]
            #![trigger old(root).translate(va, tl)]
            !(tl <= S::spec_map_level() && same_slot_path(
                va,
                spec_align_down(virtual_address, S::spec_size()),
                S::spec_map_level(),
                3,
            )) ==> final(root).translate(va, tl) == old(root).translate(va, tl),
{
    proof {
        S::properties();
    }
    let page = Page::<S>::including_address(virtual_address);
    root.unmap_page::<S>(page)
}

/// Returns the range of `count` pages of size `S` covering the requested
/// addresses: the first page includes `virtual_address` and the last page
/// includes `virtual_address + (count - 1) * S::SIZE`.
pub fn get_page_range<S: PageSize>(virtual_address: u64, count: u64) -> (range: PageIter<S>)
    requires
        count >= 1,
        spec_is_valid_address(virtual_address),
        virtual_address + (count - 1) * S::spec_size() <= u64::MAX,
        spec_is_valid_address((virtual_address + (count - 1) * S::spec_size()) as u64),
    ensures
        range.spec_current() == spec_align_down(virtual_address, S::spec_size()),
        range.spec_last() == spec_align_down(virtual_address, S::spec_size()) + (count - 1)
            * S::spec_size(),
        range.spec_current() % S::spec_size() == 0,
        range.spec_last() % S::spec_size() == 0,
        range.spec_current() <= range.spec_last(),
        spec_page_count(range.spec_current(), range.spec_last(), S::spec_size()) == count,
{
    proof {
        S::properties();
    }
    let size = S::size();
    let first_page = Page::<S>::including_address(virtual_address);
    let last_page = Page::<S>::including_address(virtual_address + (count - 1) * size);
    proof {
        lemma_align_down(virtual_address, size);
        lemma_align_down((virtual_address + (count - 1) * size) as u64, size);
        lemma_align_down_add_multiple(virtual_address, size, (count - 1) as int);
        assert(first_page.virtual_address <= last_page.virtual_address) by {
            vstd::arithmetic::mul::lemma_mul_nonnegative((count - 1) as int, size as int);
        }
        assert(spec_page_count(
            first_page.virtual_address,
            last_page.virtual_address,
            size,
        ) == count) by {
            vstd::arithmetic::mul::lemma_mul_is_commutative((count - 1) as int, size as int);
            vstd::arithmetic::div_mod::lemma_div_multiples_vanish(
                (count - 1) as int,
                size as int,
            );
        }
    }
    Page::range(first_page, last_page)
}

/// Maps `count` consecutive pages of size `S` starting at
/// `virtual_address` (rounded down to a page boundary) to `count`
/// consecutive physical frames starting at `physical_address`, creating
/// intermediate tables from the frame allocator as needed.
///
/// The given flags are installed in every target entry together with
/// `PRESENT`, `ACCESSED`, `DIRTY` and the size's extra flag; every
/// translation off the mapped pages' slot paths is left untouched.
/// Returns the number of pages whose translation was overwritten and must
/// therefore be flushed from the TLB.
pub fn map<S: PageSize>(
    root: &mut PageTable,
    alloc: &mut FrameAlloc,
    virtual_address: u64,
    physical_address: u64,
    count: u64,
    flags: PageTableEntryFlags,
) -> (flushes: u64)
    requires
        old(root).wf(),
        old(root).level == 3,
        count >= 1,
        spec_is_valid_address(virtual_address),
        spec_is_valid_address((virtual_address + (count - 1) * S::spec_size()) as u64),
        spec_align_down(virtual_address, S::spec_size()) + count * S::spec_size() <= u64::MAX,
        forall|i: int|
            0 <= i < count ==> spec_is_valid_address(
                #[trigger] spec_page_step(
                    spec_align_down(virtual_address, S::spec_size()),
                    S::spec_size(),
                    i,
                ),
            ),
        forall|i: int|
            0 <= i < count ==> old(root).can_reach(
                #[trigger] spec_page_step(
                    spec_align_down(virtual_address, S::spec_size()),
                    S::spec_size(),
                    i,
                ),
                S::spec_map_level(),
            ),
        physical_address % S::spec_size() == 0,
        physical_address + count * S::spec_size() <= MAX_PHYSICAL_ADDRESS,
        flags & CALLER_FLAG_MASK == flags,
        old(alloc).wf(),
        old(alloc).spec_current() + count * ((3 - S::spec_map_level()) * BASE_PAGE_SIZE)
            <= MAX_PHYSICAL_ADDRESS,
    ensures
        final(root).wf(),
        final(root).level == 3,
        final(root).address == old(root).address,
        final(alloc).wf(),
        old(alloc).spec_current() <= final(alloc).spec_current(),
        final(alloc).spec_current() <= old(alloc).spec_current() + count * ((3
            - S::spec_map_level()) * BASE_PAGE_SIZE),
        forall|i: int|
            0 <= i < count ==> final(root).translate(
                #[trigger] spec_page_step(
                    spec_align_down(virtual_address, S::spec_size()),
                    S::spec_size(),
                    i,
                ),
                S::spec_map_level(),
            ) == Some((physical_address + i * S::spec_size()) as u64),
        forall|i: int|
            0 <= i < count ==> final(root).walk_entry(
                #[trigger] spec_page_step(
                    spec_align_down(virtual_address, S::spec_size()),
                    S::spec_size(),
                    i,
                ),
                S::spec_map_level(),
            ) == Some(
                PageTableEntry {
                    physical_address_and_flags: (physical_address + i * S::spec_size()) as u64
                        | PRESENT | ACCESSED | (DIRTY | S::spec_map_extra_flag() | flags),
                },
            ),
        forall|va: u64, tl: u64|
            #![trigger final(root).translate(va, tl)]
            #![trigger old(root).translate(va, tl)]
            !(tl <= S::spec_map_level() && exists|i: int|
                0 <= i < count && same_slot_path(
                    va,
                    #[trigger] spec_page_step(
                        spec_align_down(virtual_address, S::spec_size()),
                        S::spec_size(),
                        i,
                    ),
                    S::spec_map_level(),
                    3,
                )) ==> final(root).translate(va, tl) == old(root).translate(va, tl),
        forall|va: u64|
            #![trigger final(root).can_reach(va, S::spec_map_level())]
            #![trigger old(root).can_reach(va, S::spec_map_level())]
            final(root).can_reach(va, S::spec_map_level()) == old(root).can_reach(
                va,
                S::spec_map_level(),
            ),
        flushes == old(root).count_flushes(
            spec_align_down(virtual_address, S::spec_size()),
            S::spec_size(),
            S::spec_map_level(),
            count as int,
        ),
{
    proof {
        S::properties();
        lemma_align_down(virtual_address, S::spec_size());
        // the requested range does not overflow the address space
        assert(virtual_address + (count - 1) * S::spec_size() <= u64::MAX) by {
            vstd::arithmetic::mul::lemma_mul_is_distributive_add_other_way(
                S::spec_size() as int,
                count as int - 1,
                1,
            );
        }
    }
    let range = get_page_range::<S>(virtual_address, count);
    proof {
        assert(range.spec_last() + S::spec_size() <= u64::MAX) by {
            vstd::arithmetic::mul::lemma_mul_is_distributive_add_other_way(
                S::spec_size() as int,
                count as int - 1,
                1,
            );
            assert((count - 1) * S::spec_size() + S::spec_size() == count * S::spec_size());
        }
    }
    let flushes = root.map_pages::<S>(alloc, range, physical_address, flags);
    flushes
}

/// The flag word written into a target slot — caller flags plus `DIRTY`
/// and the size's extra flag — stays outside the address bits, and its
/// huge bit is exactly the size's extra flag.
proof fn lemma_flag_composition(flags: u64, extra: u64)
    requires
        flags & CALLER_FLAG_MASK == flags,
        extra == 0 || extra == HUGE_PAGE,
    ensures
        (DIRTY | extra | flags) & ADDRESS_MASK == 0,
        ((DIRTY | extra | flags) & HUGE_PAGE != 0) == (extra == HUGE_PAGE),
{
    assert((0x40u64 | extra | flags) & 0xF_FFFF_FFFF_F000 == 0 && (((0x40u64 | extra | flags)
        & 0x80 != 0) == (extra == 0x80))) by (bit_vector)
        requires
            flags & 0x8000_0000_0000_011E == flags,
            extra == 0 || extra == 0x80,
    ;
}

/// The flush count of a page range, one page at a time: no page of an
/// empty range needs a flush, and page `n` adds one flush exactly if its
/// walk finds a present target entry.
pub proof fn lemma_count_flushes_step(
    table: PageTable,
    first: u64,
    size: u64,
    target_level: u64,
    n: int,
)
    requires
        n >= 0,
    ensures
        table.count_flushes(first, size, target_level, 0) == 0,
        table.count_flushes(first, size, target_level, n + 1) == table.count_flushes(
            first,
            size,
            target_level,
            n,
        ) + if table.walk_present(spec_page_step(first, size, n), target_level) {
            1int
        } else {
            0int
        },
{
}

/// Re-mapping an installed page overwrites it and needs exactly one TLB
/// flush: a page that translates to a frame has a present entry in its
/// target slot, so the walk for it reports an overwrite.  Together with
/// the flush count of [`map`] — one per page whose walk found a present
/// target entry, none otherwise — a first mapping of a page flushes
/// nothing and every re-mapping of it flushes exactly that page once.
pub proof fn lemma_translated_page_walk_present(table: PageTable, virtual_address: u64, target_level: u64)
    requires
        table.translate(virtual_address, target_level) is Some,
    ensures
        table.walk_present(virtual_address, target_level),
    decreases table.level,
{
    if table.level > target_level {
        let entry = table.entries@[spec_table_index(virtual_address, table.level) as int];
        match table.children@[spec_table_index(virtual_address, table.level) as int] {
            Some(sub) => {
                if entry.spec_present() && !entry.spec_huge() && sub.level < table.level {
                    lemma_translated_page_walk_present(*sub, virtual_address, target_level);
                }
            },
            None => {
            },
        }
    }
}

/// Two tables of the same level whose slot for `virtual_address` holds the
/// same entry and the same sub-table walk `virtual_address` identically.
proof fn lemma_same_slot_same_walk(t1: PageTable, t2: PageTable, virtual_address: u64, tl: u64)
    requires
        t1.level == t2.level,
        t1.entries@[spec_table_index(virtual_address, t1.level) as int] == t2.entries@[
        spec_table_index(virtual_address, t2.level) as int],
        t1.children@[spec_table_index(virtual_address, t1.level) as int] == t2.children@[
        spec_table_index(virtual_address, t2.level) as int],
    ensures
        t1.translate(virtual_address, tl) == t2.translate(virtual_address, tl),
        t1.walk_present(virtual_address, tl) == t2.walk_present(virtual_address, tl),
        t1.can_reach(virtual_address, tl) == t2.can_reach(virtual_address, tl),
        t1.walk_entry(virtual_address, tl) == t2.walk_entry(virtual_address, tl),
{
}

} // verus!
