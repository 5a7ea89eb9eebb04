//! Memory-management and kernel-loading core of a bare-metal boot loader.
//!
//! Three components, in dependency order:
//!
//! * [`physicalmem`] — a bump allocator handing out page-aligned physical
//!   frames from a monotonically increasing cursor.
//! * [`paging`] — a four-level page-table hierarchy (PML4 → PDPT → PDT → PGT)
//!   that maps ranges of virtual pages to physical frames, materialising
//!   sub-tables on demand from the frame allocator.
//! * [`kernel`] — an ELF64 parser and loader that validates a kernel image,
//!   copies its loadable segments into a destination buffer, applies
//!   relative relocations and reports the entry point and TLS layout.
//!
//! Hardware side effects (writing the live tables, TLB invalidation, reading
//! the page-table base register) are the embedding boot sequence's concern;
//! this crate owns the table data and records which pages would need a TLB
//! flush, so that every address computation is verified.

pub mod kernel;
pub mod paging;
pub mod physicalmem;
