//! Physical frame allocation: a boot-time bump allocator.
//!
//! A single monotonically increasing cursor into a physical address range
//! hands out page-aligned frames.  There is no upper-bound check against
//! available memory and no deallocation; the allocator lives for the
//! duration of the boot and is torn down implicitly when control transfers
//! to the loaded kernel.

use vstd::prelude::*;

use crate::paging::BASE_PAGE_SIZE;

verus! {

/// The allocation cursor.
///
/// The boot sequence constructs it exactly once via [`init`], before any
/// mapping occurs, from the first usable physical address it discovered in
/// the firmware-provided memory map.  It is then threaded through every
/// operation that may need a fresh frame.
pub struct FrameAlloc {
    current: u64,
}

impl FrameAlloc {
    /// The current cursor: the address the next allocation will return
    /// (before any alignment rounding).
    pub closed spec fn spec_current(self) -> u64 {
        self.current
    }

    /// The cursor is non-null (the allocator has been initialized) and
    /// base-page aligned, so every frame handed out is usable as a page
    /// table or as page contents.
    pub open spec fn wf(self) -> bool {
        &&& self.spec_current() > 0
        &&& self.spec_current() % BASE_PAGE_SIZE == 0
    }

    /// Reads the current cursor, e.g. to check how much headroom the
    /// physical address range still has.
    pub fn current(&self) -> (address: u64)
        ensures
            address == self.spec_current(),
    {
        self.current
    }
}

/// Initializes the allocation cursor with the first usable physical address.
///
/// Called exactly once by the boot sequence before any allocation is
/// attempted; allocating from an uninitialized (null) cursor is a boot
/// ordering bug, which the precondition of [`allocate`] rules out.
pub fn init(address: u64) -> (alloc: FrameAlloc)
    requires
        address > 0,
        address % BASE_PAGE_SIZE == 0,
    ensures
        alloc.wf(),
        alloc.spec_current() == address,
{
    FrameAlloc { current: address }
}

/// Returns the current cursor value and advances the cursor by `size`.
///
/// `size` must be a positive multiple of the base page size; the returned
/// frame is therefore base-page aligned.  There is no deallocation.
pub fn allocate(alloc: &mut FrameAlloc, size: u64) -> (address: u64)
    requires
        old(alloc).wf(),
        size > 0,
        size % BASE_PAGE_SIZE == 0,
        old(alloc).spec_current() + size <= u64::MAX,
    ensures
        final(alloc).wf(),
        address == old(alloc).spec_current(),
        address % BASE_PAGE_SIZE == 0,
        final(alloc).spec_current() == address + size,
{
    let address = alloc.current;
    alloc.current = alloc.current + size;
    proof {
        lemma_aligned_sum(address as int, size as int);
    }
    address
}

/// The cursor after `k` allocations of sizes `sizes[0..k]`, starting from
/// cursor value `start`; equivalently, the address that allocation `k`
/// returns.  Stated over `int` so the law below is about the mathematical
/// cursor, independent of machine width.
pub open spec fn cursor_after(start: u64, sizes: Seq<u64>, k: int) -> int
    decreases k,
{
    if k <= 0 {
        start as int
    } else {
        cursor_after(start, sizes, k - 1) + sizes[k - 1]
    }
}

proof fn lemma_aligned_sum(a: int, b: int)
    requires
        a % BASE_PAGE_SIZE as int == 0,
        b % BASE_PAGE_SIZE as int == 0,
    ensures
        (a + b) % BASE_PAGE_SIZE as int == 0,
{
    vstd::arithmetic::div_mod::lemma_add_mod_noop(a, b, BASE_PAGE_SIZE as int);
}

/// Allocator monotonicity: over any sequence of positive, base-page-multiple
/// allocation sizes after one `init`, every returned address is exactly the
/// cursor left behind by the allocation before it, the addresses are
/// non-decreasing and base-page aligned, and the returned ranges
/// `[address, address + size)` of two distinct allocations never overlap.
pub proof fn lemma_allocator_monotonic(start: u64, sizes: Seq<u64>, i: int, j: int)
    requires
        start % BASE_PAGE_SIZE == 0,
        forall|k: int|
            0 <= k < sizes.len() ==> #[trigger] sizes[k] > 0 && sizes[k] % BASE_PAGE_SIZE == 0,
        0 <= i <= j < sizes.len(),
    ensures
        cursor_after(start, sizes, i) % BASE_PAGE_SIZE as int == 0,
        cursor_after(start, sizes, i) <= cursor_after(start, sizes, j),
        i < j ==> cursor_after(start, sizes, i) + sizes[i] <= cursor_after(start, sizes, j),
    decreases j,
{
    if j <= 0 {
        // i == j == 0: the first address is the initial cursor, aligned by the
        // precondition on `start`.
    } else if i == j {
        lemma_allocator_monotonic(start, sizes, i - 1, j - 1);
        if i > 0 {
            lemma_aligned_sum(cursor_after(start, sizes, i - 1), sizes[i - 1] as int);
        }
    } else {
        lemma_allocator_monotonic(start, sizes, i, j - 1);
    }
}

} // verus!
