//! Parsing and loading kernel objects from ELF files.
//!
//! The loader works in two phases.  `parse` validates the raw bytes of an
//! ELF64 image — class, byte order, object type, machine, program-header
//! and relocation-table bounds, no shared-library dependencies, only
//! relative relocations — and produces an immutable [`Object`] view.
//! `load_kernel` copies the loadable segments into a caller-supplied
//! buffer, applies the relative relocations against the buffer's base
//! address, and reports the entry point, the fixed load address of
//! non-relocatable images, and the thread-local-storage layout.
//!
//! Every field extraction is a verified little-endian read over the image
//! bytes, and the contracts pin the loaded buffer contents byte for byte.

use vstd::prelude::*;

verus! {

/// ELF class byte (`e_ident[4]`) for 64-bit objects.
pub const ELFCLASS64: u8 = 2;

/// ELF data byte (`e_ident[5]`) for little-endian objects.
pub const ELFDATA2LSB: u8 = 1;

/// Object type of a fixed-address executable.
pub const ET_EXEC: u16 = 2;

/// Object type of a position-independent executable.
pub const ET_DYN: u16 = 3;

/// The machine this loader accepts: x86-64.
pub const EM_X86_64: u16 = 62;

/// Program-header type of a loadable segment.
pub const PT_LOAD: u32 = 1;

/// Program-header type of the dynamic segment.
pub const PT_DYNAMIC: u32 = 2;

/// Program-header type of the thread-local-storage template.
pub const PT_TLS: u32 = 7;

/// Dynamic tag declaring a required shared library.
pub const DT_NEEDED: u64 = 1;

/// Dynamic tag giving the virtual address of the explicit-addend
/// relocation table.
pub const DT_RELA: u64 = 7;

/// Dynamic tag giving the number of relative relocations in the
/// explicit-addend relocation table.
pub const DT_RELACOUNT: u64 = 0x6FFF_FFF9;

/// Dynamic tag giving the number of relative relocations in the
/// implicit-addend relocation table, which this loader does not support.
pub const DT_RELCOUNT: u64 = 0x6FFF_FFF6;

/// The x86-64 relative relocation kind: `target = base + addend`.
pub const R_X86_64_RELATIVE: u64 = 8;

/// Size in bytes of the ELF64 file header.
pub const SIZEOF_EHDR: u64 = 64;

/// Size in bytes of one ELF64 program header.
pub const SIZEOF_PHDR: u64 = 56;

/// Size in bytes of one ELF64 dynamic entry.
pub const SIZEOF_DYN: u64 = 16;

/// Size in bytes of one ELF64 explicit-addend relocation entry.
pub const SIZEOF_RELA: u64 = 24;

/// The little-endian 16-bit value at `offset` in `bytes`.
pub open spec fn spec_le16(bytes: Seq<u8>, offset: int) -> int {
    bytes[offset] + 0x100 * bytes[offset + 1]
}

/// The little-endian 32-bit value at `offset` in `bytes`.
pub open spec fn spec_le32(bytes: Seq<u8>, offset: int) -> int {
    bytes[offset] + 0x100 * bytes[offset + 1] + 0x1_0000 * bytes[offset + 2] + 0x100_0000 * bytes[
        offset + 3]
}

/// The little-endian 64-bit value at `offset` in `bytes`.
pub open spec fn spec_le64(bytes: Seq<u8>, offset: int) -> int {
    bytes[offset] + 0x100 * bytes[offset + 1] + 0x1_0000 * bytes[offset + 2] + 0x100_0000 * bytes[
        offset + 3] + 0x1_0000_0000 * bytes[offset + 4] + 0x100_0000_0000 * bytes[offset + 5]
        + 0x1_0000_0000_0000 * bytes[offset + 6] + 0x100_0000_0000_0000 * bytes[offset + 7]
}

/// The little-endian 64-bit value at `offset` in `bytes`, interpreted as
/// a two's-complement signed integer.
pub open spec fn spec_le64_signed(bytes: Seq<u8>, offset: int) -> int {
    if spec_le64(bytes, offset) < 0x8000_0000_0000_0000 {
        spec_le64(bytes, offset)
    } else {
        spec_le64(bytes, offset) - 0x1_0000_0000_0000_0000
    }
}

/// Reads the little-endian 16-bit value at `offset`.
fn read_u16(bytes: &[u8], offset: usize) -> (value: u16)
    requires
        offset + 2 <= bytes@.len(),
    ensures
        value == spec_le16(bytes@, offset as int),
{
    (bytes[offset] as u16) + 0x100 * (bytes[offset + 1] as u16)
}

/// Reads the little-endian 32-bit value at `offset`.
fn read_u32(bytes: &[u8], offset: usize) -> (value: u32)
    requires
        offset + 4 <= bytes@.len(),
    ensures
        value == spec_le32(bytes@, offset as int),
{
    (bytes[offset] as u32) + 0x100 * (bytes[offset + 1] as u32) + 0x1_0000 * (bytes[offset
        + 2] as u32) + 0x100_0000 * (bytes[offset + 3] as u32)
}

/// Reads the little-endian 64-bit value at `offset`.
fn read_u64(bytes: &[u8], offset: usize) -> (value: u64)
    requires
        offset + 8 <= bytes@.len(),
    ensures
        value == spec_le64(bytes@, offset as int),
{
    (bytes[offset] as u64) + 0x100 * (bytes[offset + 1] as u64) + 0x1_0000 * (bytes[offset
        + 2] as u64) + 0x100_0000 * (bytes[offset + 3] as u64) + 0x1_0000_0000 * (bytes[offset
        + 4] as u64) + 0x100_0000_0000 * (bytes[offset + 5] as u64) + 0x1_0000_0000_0000
        * (bytes[offset + 6] as u64) + 0x100_0000_0000_0000 * (bytes[offset + 7] as u64)
}

/// Reads the little-endian 64-bit value at `offset` as a signed integer.
fn read_i64(bytes: &[u8], offset: usize) -> (value: i64)
    requires
        offset + 8 <= bytes@.len(),
    ensures
        value == spec_le64_signed(bytes@, offset as int),
{
    let unsigned = read_u64(bytes, offset);
    if unsigned < 0x8000_0000_0000_0000 {
        unsigned as i64
    } else {
        // two's complement: the encoded value is `unsigned - 2^64`
        let magnitude = (u64::MAX - unsigned) as i64;
        -magnitude - 1
    }
}

/// One ELF64 program header, as plain values.
#[derive(Clone, Copy)]
pub struct ProgramHeader {
    pub p_type: u32,
    pub p_flags: u32,
    pub p_offset: u64,
    pub p_vaddr: u64,
    pub p_paddr: u64,
    pub p_filesz: u64,
    pub p_memsz: u64,
    pub p_align: u64,
}

/// One ELF64 dynamic entry, as plain values.
#[derive(Clone, Copy)]
pub struct Dyn {
    pub d_tag: u64,
    pub d_val: u64,
}

/// One ELF64 explicit-addend relocation, as plain values.
#[derive(Clone, Copy)]
pub struct Rela {
    pub r_offset: u64,
    pub r_info: u64,
    pub r_addend: i64,
}

/// The relocation kind encoded in `r_info`: its low 32 bits.
pub open spec fn spec_r_type(r_info: u64) -> u64 {
    r_info % 0x1_0000_0000
}

/// The program header encoded at `offset` in `bytes`.
pub open spec fn spec_program_header(bytes: Seq<u8>, offset: int) -> ProgramHeader {
    ProgramHeader {
        p_type: spec_le32(bytes, offset) as u32,
        p_flags: spec_le32(bytes, offset + 4) as u32,
        p_offset: spec_le64(bytes, offset + 8) as u64,
        p_vaddr: spec_le64(bytes, offset + 16) as u64,
        p_paddr: spec_le64(bytes, offset + 24) as u64,
        p_filesz: spec_le64(bytes, offset + 32) as u64,
        p_memsz: spec_le64(bytes, offset + 40) as u64,
        p_align: spec_le64(bytes, offset + 48) as u64,
    }
}

/// The program-header table of `count` entries starting at `offset`.
pub open spec fn spec_program_headers(bytes: Seq<u8>, offset: int, count: int) -> Seq<
    ProgramHeader,
> {
    Seq::new(count as nat, |i: int| spec_program_header(bytes, offset + SIZEOF_PHDR * i))
}

/// The dynamic entry encoded at `offset` in `bytes`.
pub open spec fn spec_dyn(bytes: Seq<u8>, offset: int) -> Dyn {
    Dyn { d_tag: spec_le64(bytes, offset) as u64, d_val: spec_le64(bytes, offset + 8) as u64 }
}

/// The dynamic table of `count` entries starting at `offset`.
pub open spec fn spec_dyns(bytes: Seq<u8>, offset: int, count: int) -> Seq<Dyn> {
    Seq::new(count as nat, |i: int| spec_dyn(bytes, offset + SIZEOF_DYN * i))
}

/// The relocation encoded at `offset` in `bytes`.
pub open spec fn spec_rela(bytes: Seq<u8>, offset: int) -> Rela {
    Rela {
        r_offset: spec_le64(bytes, offset) as u64,
        r_info: spec_le64(bytes, offset + 8) as u64,
        r_addend: spec_le64_signed(bytes, offset + 16) as i64,
    }
}

/// The relocation table of `count` entries starting at `offset`.
pub open spec fn spec_relas(bytes: Seq<u8>, offset: int, count: int) -> Seq<Rela> {
    Seq::new(count as nat, |i: int| spec_rela(bytes, offset + SIZEOF_RELA * i))
}

/// Reads the program header at byte offset `offset`.
fn read_program_header(bytes: &[u8], offset: usize) -> (header: ProgramHeader)
    requires
        offset + SIZEOF_PHDR <= bytes@.len(),
    ensures
        header == spec_program_header(bytes@, offset as int),
{
    let _len: usize = bytes.len();
    ProgramHeader {
        p_type: read_u32(bytes, offset),
        p_flags: read_u32(bytes, offset + 4),
        p_offset: read_u64(bytes, offset + 8),
        p_vaddr: read_u64(bytes, offset + 16),
        p_paddr: read_u64(bytes, offset + 24),
        p_filesz: read_u64(bytes, offset + 32),
        p_memsz: read_u64(bytes, offset + 40),
        p_align: read_u64(bytes, offset + 48),
    }
}

/// Index of the first program header of the given type, if any.
pub open spec fn spec_find_ph(phs: Seq<ProgramHeader>, p_type: u32) -> Option<int>
    decreases phs.len(),
{
    if phs.len() <= 0 {
        None
    } else if phs[0].p_type == p_type {
        Some(0)
    } else {
        match spec_find_ph(phs.subrange(1, phs.len() as int), p_type) {
            Some(i) => Some(i + 1),
            None => None,
        }
    }
}

/// `spec_find_ph` returns the first matching index.
pub proof fn lemma_find_ph(phs: Seq<ProgramHeader>, p_type: u32)
    ensures
        match spec_find_ph(phs, p_type) {
            Some(i) => 0 <= i < phs.len() && phs[i].p_type == p_type && forall|j: int|
                0 <= j < i ==> phs[j].p_type != p_type,
            None => forall|j: int| 0 <= j < phs.len() ==> phs[j].p_type != p_type,
        },
    decreases phs.len(),
{
    if phs.len() > 0 && phs[0].p_type != p_type {
        let tail = phs.subrange(1, phs.len() as int);
        lemma_find_ph(tail, p_type);
        assert(forall|j: int| 0 <= j < tail.len() ==> tail[j] == phs[j + 1]);
        match spec_find_ph(tail, p_type) {
            Some(i) => {
                assert forall|j: int| 0 <= j < i + 1 implies phs[j].p_type != p_type by {
                    if j > 0 {
                        assert(tail[j - 1].p_type != p_type);
                    }
                }
            },
            None => {
                assert forall|j: int| 0 <= j < phs.len() implies phs[j].p_type != p_type by {
                    if j > 0 {
                        assert(tail[j - 1].p_type != p_type);
                    }
                }
            },
        }
    }
}

/// Index of the first loadable segment whose file image contains the
/// virtual address, if any; used to turn a dynamic-section virtual address
/// into a file offset.
pub open spec fn spec_vm_to_offset(phs: Seq<ProgramHeader>, vaddr: u64) -> Option<int>
    decreases phs.len(),
{
    if phs.len() <= 0 {
        None
    } else if phs[0].p_type == PT_LOAD && phs[0].p_vaddr <= vaddr && vaddr < phs[0].p_vaddr
        + phs[0].p_filesz {
        Some(0)
    } else {
        match spec_vm_to_offset(phs.subrange(1, phs.len() as int), vaddr) {
            Some(i) => Some(i + 1),
            None => None,
        }
    }
}

/// `spec_vm_to_offset` returns the first containing segment.
pub proof fn lemma_vm_to_offset(phs: Seq<ProgramHeader>, vaddr: u64)
    ensures
        match spec_vm_to_offset(phs, vaddr) {
            Some(i) => 0 <= i < phs.len() && phs[i].p_type == PT_LOAD && phs[i].p_vaddr <= vaddr
                && vaddr < phs[i].p_vaddr + phs[i].p_filesz,
            None => true,
        },
    decreases phs.len(),
{
    if phs.len() > 0 {
        lemma_vm_to_offset(phs.subrange(1, phs.len() as int), vaddr);
    }
}

/// What the dynamic section declares, as far as this loader cares: the
/// virtual address of the explicit-addend relocation table (`DT_RELA`),
/// the declared relative-relocation counts (`DT_RELACOUNT`,
/// `DT_RELCOUNT`), and whether any shared library is required
/// (`DT_NEEDED`).  Later entries override earlier ones, as in a linear
/// scan that keeps assigning.
pub struct DynSummary {
    pub rela_vaddr: Option<u64>,
    pub relacount: u64,
    pub relcount: u64,
    pub needed: bool,
}

/// The summary of a dynamic table.
pub open spec fn spec_scan_dynamic(dyns: Seq<Dyn>) -> DynSummary
    decreases dyns.len(),
{
    if dyns.len() <= 0 {
        DynSummary { rela_vaddr: None, relacount: 0, relcount: 0, needed: false }
    } else {
        let rest = spec_scan_dynamic(dyns.drop_last());
        let entry = dyns.last();
        DynSummary {
            rela_vaddr: if entry.d_tag == DT_RELA {
                Some(entry.d_val)
            } else {
                rest.rela_vaddr
            },
            relacount: if entry.d_tag == DT_RELACOUNT {
                entry.d_val
            } else {
                rest.relacount
            },
            relcount: if entry.d_tag == DT_RELCOUNT {
                entry.d_val
            } else {
                rest.relcount
            },
            needed: rest.needed || entry.d_tag == DT_NEEDED,
        }
    }
}

/// Why an image was rejected, in the order the checks run.
#[derive(Clone, Copy, Debug, PartialEq, Eq, Structural)]
pub enum ParseError {
    /// The buffer is shorter than the 64-byte ELF header.
    TooShort,
    /// The image is not a 64-bit object.
    WrongClass,
    /// The image is not little-endian.
    WrongEndianness,
    /// The image is neither a fixed-address nor a position-independent
    /// executable.
    WrongType,
    /// The image is not compiled for x86-64.
    WrongMachine,
    /// The program-header table lies outside the buffer.
    ProgramHeadersOutOfBounds,
    /// A loadable segment's file range lies outside the buffer, its file
    /// size exceeds its memory size, or its end address overflows.
    LoadSegmentOutOfBounds,
    /// The dynamic segment's file range lies outside the buffer.
    DynamicOutOfBounds,
    /// The image requires a shared library.
    NeededLibrary,
    /// The dynamic section declares implicit-addend relative relocations.
    ImplicitRelocations,
    /// The declared relocation table cannot be located inside the buffer.
    RelocationTableOutOfBounds,
    /// A relocation is not the x86-64 relative kind.
    UnsupportedRelocation,
}

/// The parsed view of an accepted image.
pub struct ImageModel {
    pub e_type: u16,
    pub entry: u64,
    pub phs: Seq<ProgramHeader>,
    pub relas: Seq<Rela>,
}

/// Whether every loadable segment's file bytes lie inside the image, its
/// file size fits its memory size, and its end address does not overflow.
pub open spec fn spec_load_segments_ok(phs: Seq<ProgramHeader>, len: int) -> bool {
    forall|i: int|
        0 <= i < phs.len() && (#[trigger] phs[i]).p_type == PT_LOAD ==> phs[i].p_offset
            + phs[i].p_filesz <= len && phs[i].p_filesz <= phs[i].p_memsz && phs[i].p_vaddr
            + phs[i].p_memsz <= u64::MAX
}

/// The whole validation and extraction that `Object::parse` performs,
/// step by step: the `Err` tells exactly which check failed first.
pub open spec fn spec_parse(elf: Seq<u8>) -> Result<ImageModel, ParseError> {
    if elf.len() < SIZEOF_EHDR {
        Err(ParseError::TooShort)
    } else if elf[4] != ELFCLASS64 {
        Err(ParseError::WrongClass)
    } else if elf[5] != ELFDATA2LSB {
        Err(ParseError::WrongEndianness)
    } else if spec_le16(elf, 16) != ET_EXEC && spec_le16(elf, 16) != ET_DYN {
        Err(ParseError::WrongType)
    } else if spec_le16(elf, 18) != EM_X86_64 {
        Err(ParseError::WrongMachine)
    } else if spec_le64(elf, 32) + SIZEOF_PHDR * spec_le16(elf, 56) > elf.len() {
        Err(ParseError::ProgramHeadersOutOfBounds)
    } else {
        let phs = spec_program_headers(elf, spec_le64(elf, 32), spec_le16(elf, 56));
        if !spec_load_segments_ok(phs, elf.len() as int) {
            Err(ParseError::LoadSegmentOutOfBounds)
        } else {
            match spec_parse_dynamic(elf, phs) {
                Ok(relas) => Ok(
                    ImageModel {
                        e_type: spec_le16(elf, 16) as u16,
                        entry: spec_le64(elf, 24) as u64,
                        phs,
                        relas,
                    },
                ),
                Err(e) => Err(e),
            }
        }
    }
}

/// The dynamic table the image declares: the entries of the first dynamic
/// segment, or empty without one.
pub open spec fn spec_locate_dyns(elf: Seq<u8>, phs: Seq<ProgramHeader>) -> Result<
    Seq<Dyn>,
    ParseError,
> {
    match spec_find_ph(phs, PT_DYNAMIC) {
        Some(i) => {
            let ph = phs[i];
            if ph.p_offset + SIZEOF_DYN * ((ph.p_filesz as int) / (SIZEOF_DYN as int))
                > elf.len() {
                Err(ParseError::DynamicOutOfBounds)
            } else {
                Ok(spec_dyns(elf, ph.p_offset as int, (ph.p_filesz as int) / (SIZEOF_DYN as int)))
            }
        },
        None => Ok(Seq::<Dyn>::empty()),
    }
}

/// The explicit-addend relocation table declared by the given dynamic
/// summary: reject dynamic dependencies and implicit-addend relocations,
/// locate the table inside the image, and accept only relative
/// relocations.
pub open spec fn spec_locate_relas(
    elf: Seq<u8>,
    phs: Seq<ProgramHeader>,
    summary: DynSummary,
) -> Result<Seq<Rela>, ParseError> {
    if summary.needed {
        Err(ParseError::NeededLibrary)
    } else if summary.relcount != 0 {
        Err(ParseError::ImplicitRelocations)
    } else if summary.relacount == 0 {
        Ok(Seq::<Rela>::empty())
    } else {
        match summary.rela_vaddr {
            None => Err(ParseError::RelocationTableOutOfBounds),
            Some(vaddr) => match spec_vm_to_offset(phs, vaddr) {
                None => Err(ParseError::RelocationTableOutOfBounds),
                Some(j) => {
                    let offset = phs[j].p_offset + (vaddr - phs[j].p_vaddr);
                    if offset + SIZEOF_RELA * summary.relacount > elf.len() {
                        Err(ParseError::RelocationTableOutOfBounds)
                    } else {
                        let relas = spec_relas(elf, offset, summary.relacount as int);
                        if exists|i: int|
                            0 <= i < relas.len() && spec_r_type((#[trigger] relas[i]).r_info)
                                != R_X86_64_RELATIVE {
                            Err(ParseError::UnsupportedRelocation)
                        } else {
                            Ok(relas)
                        }
                    }
                },
            },
        }
    }
}

/// The dynamic-section part of parsing: locate the dynamic segment, scan
/// it, and locate and vet the explicit-addend relocation table.
pub open spec fn spec_parse_dynamic(elf: Seq<u8>, phs: Seq<ProgramHeader>) -> Result<
    Seq<Rela>,
    ParseError,
> {
    match spec_locate_dyns(elf, phs) {
        Err(e) => Err(e),
        Ok(dyns) => spec_locate_relas(elf, phs, spec_scan_dynamic(dyns)),
    }
}

/// Reads the program-header table declared at `phoff` with `phnum` entries.
fn parse_program_headers(elf: &[u8], phoff: u64, phnum: u64) -> (phs: Vec<ProgramHeader>)
    requires
        phoff + SIZEOF_PHDR * phnum <= elf@.len(),
    ensures
        phs@ == spec_program_headers(elf@, phoff as int, phnum as int),
{
    let _len: usize = elf.len();
    let mut phs: Vec<ProgramHeader> = Vec::new();
    let mut i: u64 = 0;
    while i < phnum
        invariant
            0 <= i <= phnum,
            phoff + SIZEOF_PHDR * phnum <= elf@.len(),
            elf@.len() <= usize::MAX,
            phs@ == spec_program_headers(elf@, phoff as int, i as int),
        decreases phnum - i,
    {
        proof {
            assert(SIZEOF_PHDR * i + SIZEOF_PHDR == SIZEOF_PHDR * (i + 1)) by {
                vstd::arithmetic::mul::lemma_mul_is_distributive_add(
                    SIZEOF_PHDR as int,
                    i as int,
                    1,
                );
            }
            assert(SIZEOF_PHDR * (i + 1) <= SIZEOF_PHDR * phnum) by {
                vstd::arithmetic::mul::lemma_mul_inequality(
                    i as int + 1,
                    phnum as int,
                    SIZEOF_PHDR as int,
                );
                vstd::arithmetic::mul::lemma_mul_is_commutative(i as int + 1, SIZEOF_PHDR as int);
                vstd::arithmetic::mul::lemma_mul_is_commutative(phnum as int, SIZEOF_PHDR as int);
            }
        }
        let header = read_program_header(elf, (phoff + SIZEOF_PHDR * i) as usize);
        phs.push(header);
        i = i + 1;
        proof {
            assert(phs@ =~= spec_program_headers(elf@, phoff as int, i as int));
        }
    }
    phs
}

/// Reads the dynamic table at `offset` with `count` entries.
fn parse_dyns(elf: &[u8], offset: u64, count: u64) -> (dyns: Vec<Dyn>)
    requires
        offset + SIZEOF_DYN * count <= elf@.len(),
    ensures
        dyns@ == spec_dyns(elf@, offset as int, count as int),
{
    let _len: usize = elf.len();
    let mut dyns: Vec<Dyn> = Vec::new();
    let mut i: u64 = 0;
    while i < count
        invariant
            0 <= i <= count,
            offset + SIZEOF_DYN * count <= elf@.len(),
            elf@.len() <= usize::MAX,
            dyns@ == spec_dyns(elf@, offset as int, i as int),
        decreases count - i,
    {
        proof {
            assert(SIZEOF_DYN * i + SIZEOF_DYN == SIZEOF_DYN * (i + 1)) by {
                vstd::arithmetic::mul::lemma_mul_is_distributive_add(SIZEOF_DYN as int, i as int, 1);
            }
            assert(SIZEOF_DYN * (i + 1) <= SIZEOF_DYN * count) by {
                vstd::arithmetic::mul::lemma_mul_inequality(
                    i as int + 1,
                    count as int,
                    SIZEOF_DYN as int,
                );
                vstd::arithmetic::mul::lemma_mul_is_commutative(i as int + 1, SIZEOF_DYN as int);
                vstd::arithmetic::mul::lemma_mul_is_commutative(count as int, SIZEOF_DYN as int);
            }
        }
        let base = (offset + SIZEOF_DYN * i) as usize;
        let entry = Dyn { d_tag: read_u64(elf, base), d_val: read_u64(elf, base + 8) };
        dyns.push(entry);
        i = i + 1;
        proof {
            assert(dyns@ =~= spec_dyns(elf@, offset as int, i as int));
        }
    }
    dyns
}

/// Reads the explicit-addend relocation table at `offset` with `count`
/// entries.
fn parse_relas(elf: &[u8], offset: u64, count: u64) -> (relas: Vec<Rela>)
    requires
        offset + SIZEOF_RELA * count <= elf@.len(),
    ensures
        relas@ == spec_relas(elf@, offset as int, count as int),
{
    let _len: usize = elf.len();
    let mut relas: Vec<Rela> = Vec::new();
    let mut i: u64 = 0;
    while i < count
        invariant
            0 <= i <= count,
            offset + SIZEOF_RELA * count <= elf@.len(),
            elf@.len() <= usize::MAX,
            relas@ == spec_relas(elf@, offset as int, i as int),
        decreases count - i,
    {
        proof {
            assert(SIZEOF_RELA * i + SIZEOF_RELA == SIZEOF_RELA * (i + 1)) by {
                vstd::arithmetic::mul::lemma_mul_is_distributive_add(
                    SIZEOF_RELA as int,
                    i as int,
                    1,
                );
            }
            assert(SIZEOF_RELA * (i + 1) <= SIZEOF_RELA * count) by {
                vstd::arithmetic::mul::lemma_mul_inequality(
                    i as int + 1,
                    count as int,
                    SIZEOF_RELA as int,
                );
                vstd::arithmetic::mul::lemma_mul_is_commutative(i as int + 1, SIZEOF_RELA as int);
                vstd::arithmetic::mul::lemma_mul_is_commutative(count as int, SIZEOF_RELA as int);
            }
        }
        let base = (offset + SIZEOF_RELA * i) as usize;
        let entry = Rela {
            r_offset: read_u64(elf, base),
            r_info: read_u64(elf, base + 8),
            r_addend: read_i64(elf, base + 16),
        };
        relas.push(entry);
        i = i + 1;
        proof {
            assert(relas@ =~= spec_relas(elf@, offset as int, i as int));
        }
    }
    relas
}

/// Finds the first program header of the given type.
fn find_ph(phs: &Vec<ProgramHeader>, p_type: u32) -> (found: Option<usize>)
    ensures
        match found {
            Some(i) => spec_find_ph(phs@, p_type) == Some(i as int),
            None => spec_find_ph(phs@, p_type) is None,
        },
{
    proof {
        lemma_find_ph(phs@, p_type);
    }
    let mut i: usize = 0;
    while i < phs.len()
        invariant
            0 <= i <= phs@.len(),
            forall|j: int| 0 <= j < i ==> phs@[j].p_type != p_type,
        decreases phs@.len() - i,
    {
        if phs[i].p_type == p_type {
            proof {
                lemma_find_ph(phs@, p_type);
                match spec_find_ph(phs@, p_type) {
                    Some(k) => {
                        if k < i as int {
                            assert(phs@[k].p_type != p_type);
                            assert(false);
                        } else if k > i as int {
                            assert(phs@[i as int].p_type != p_type);
                            assert(false);
                        }
                    },
                    None => {
                        assert(phs@[i as int].p_type != p_type);
                        assert(false);
                    },
                }
            }
            return Some(i);
        }
        i = i + 1;
    }
    proof {
        lemma_find_ph(phs@, p_type);
        match spec_find_ph(phs@, p_type) {
            Some(k) => {
                assert(phs@[k].p_type != p_type);
                assert(false);
            },
            None => {
            },
        }
    }
    None
}

/// Finds the first loadable segment whose file image contains `vaddr`.
fn find_containing_load(phs: &Vec<ProgramHeader>, vaddr: u64) -> (found: Option<usize>)
    ensures
        match found {
            Some(i) => spec_vm_to_offset(phs@, vaddr) == Some(i as int),
            None => spec_vm_to_offset(phs@, vaddr) is None,
        },
{
    proof {
        lemma_vm_to_offset(phs@, vaddr);
    }
    let mut i: usize = 0;
    while i < phs.len()
        invariant
            0 <= i <= phs@.len(),
            spec_vm_to_offset(phs@, vaddr) matches Some(k) ==> k >= i,
        decreases phs@.len() - i,
    {
        proof {
            lemma_vm_to_offset_step(phs@, vaddr, i as int);
        }
        let ph = phs[i];
        if ph.p_type == PT_LOAD && ph.p_vaddr <= vaddr && vaddr - ph.p_vaddr < ph.p_filesz {
            return Some(i);
        }
        i = i + 1;
    }
    None
}

/// If the first `i` segments do not contain `vaddr` but segment `i` does,
/// the first containing segment is `i`; stepping past a non-containing
/// segment keeps the first containing segment ahead.
proof fn lemma_vm_to_offset_step(phs: Seq<ProgramHeader>, vaddr: u64, i: int)
    requires
        0 <= i < phs.len(),
        spec_vm_to_offset(phs, vaddr) matches Some(k) ==> k >= i,
    ensures
        phs[i].p_type == PT_LOAD && phs[i].p_vaddr <= vaddr && vaddr < phs[i].p_vaddr
            + phs[i].p_filesz ==> spec_vm_to_offset(phs, vaddr) == Some(i),
        !(phs[i].p_type == PT_LOAD && phs[i].p_vaddr <= vaddr && vaddr < phs[i].p_vaddr
            + phs[i].p_filesz) ==> (spec_vm_to_offset(phs, vaddr) matches Some(k) ==> k >= i + 1),
    decreases i,
{
    lemma_vm_to_offset_prefix(phs, vaddr, i);
}

/// `spec_vm_to_offset` restricted to indices at or past `i` behaves like a
/// first-match scan from `i`.
proof fn lemma_vm_to_offset_prefix(phs: Seq<ProgramHeader>, vaddr: u64, i: int)
    requires
        0 <= i < phs.len(),
        spec_vm_to_offset(phs, vaddr) matches Some(k) ==> k >= i,
    ensures
        phs[i].p_type == PT_LOAD && phs[i].p_vaddr <= vaddr && vaddr < phs[i].p_vaddr
            + phs[i].p_filesz ==> spec_vm_to_offset(phs, vaddr) == Some(i),
        !(phs[i].p_type == PT_LOAD && phs[i].p_vaddr <= vaddr && vaddr < phs[i].p_vaddr
            + phs[i].p_filesz) ==> (spec_vm_to_offset(phs, vaddr) matches Some(k) ==> k != i),
    decreases phs.len(),
{
    let contains = phs[i].p_type == PT_LOAD && phs[i].p_vaddr <= vaddr && vaddr < phs[i].p_vaddr
        + phs[i].p_filesz;
    if i == 0 {
        if !contains {
            let tail = phs.subrange(1, phs.len() as int);
            lemma_vm_to_offset(tail, vaddr);
            match spec_vm_to_offset(tail, vaddr) {
                Some(k2) => {
                    assert(spec_vm_to_offset(phs, vaddr) == Some(k2 + 1));
                },
                None => {
                    assert(spec_vm_to_offset(phs, vaddr) is None);
                },
            }
        }
    } else {
        let tail = phs.subrange(1, phs.len() as int);
        assert(tail[i - 1] == phs[i]);
        if phs[0].p_type == PT_LOAD && phs[0].p_vaddr <= vaddr && vaddr < phs[0].p_vaddr
            + phs[0].p_filesz {
            // then spec_vm_to_offset == Some(0), contradicting k >= i >= 1
            assert(spec_vm_to_offset(phs, vaddr) == Some(0int));
        } else {
            assert(spec_vm_to_offset(tail, vaddr) matches Some(k) ==> k >= i - 1) by {
                match spec_vm_to_offset(tail, vaddr) {
                    Some(k) => {
                        assert(spec_vm_to_offset(phs, vaddr) == Some(k + 1));
                    },
                    None => {
                    },
                }
            }
            lemma_vm_to_offset_prefix(tail, vaddr, i - 1);
        }
    }
}

/// Scans the dynamic table for the tags this loader cares about.
fn scan_dynamic(dyns: &Vec<Dyn>) -> (summary: DynSummary)
    ensures
        summary == spec_scan_dynamic(dyns@),
{
    let mut summary = DynSummary { rela_vaddr: None, relacount: 0, relcount: 0, needed: false };
    let mut i: usize = 0;
    while i < dyns.len()
        invariant
            0 <= i <= dyns@.len(),
            summary == spec_scan_dynamic(dyns@.take(i as int)),
        decreases dyns@.len() - i,
    {
        let entry = dyns[i];
        if entry.d_tag == DT_RELA {
            summary.rela_vaddr = Some(entry.d_val);
        } else if entry.d_tag == DT_RELACOUNT {
            summary.relacount = entry.d_val;
        } else if entry.d_tag == DT_RELCOUNT {
            summary.relcount = entry.d_val;
        } else if entry.d_tag == DT_NEEDED {
            summary.needed = true;
        }
        i = i + 1;
        proof {
            assert(dyns@.take(i as int).drop_last() =~= dyns@.take(i as int - 1));
            assert(dyns@.take(i as int).last() == dyns@[i as int - 1]);
        }
    }
    proof {
        assert(dyns@.take(dyns@.len() as int) =~= dyns@);
    }
    summary
}

/// Checks that every relocation is the x86-64 relative kind.
fn all_relas_relative(relas: &Vec<Rela>) -> (ok: bool)
    ensures
        ok == !(exists|i: int|
            0 <= i < relas@.len() && spec_r_type((#[trigger] relas@[i]).r_info)
                != R_X86_64_RELATIVE),
{
    let mut i: usize = 0;
    while i < relas.len()
        invariant
            0 <= i <= relas@.len(),
            forall|j: int|
                0 <= j < i ==> spec_r_type((#[trigger] relas@[j]).r_info) == R_X86_64_RELATIVE,
        decreases relas@.len() - i,
    {
        if relas[i].r_info % 0x1_0000_0000 != R_X86_64_RELATIVE {
            return false;
        }
        i = i + 1;
    }
    true
}

/// Checks that every loadable segment's file bytes lie inside the image.
fn check_load_segments(phs: &Vec<ProgramHeader>, len64: u64) -> (ok: bool)
    ensures
        ok == spec_load_segments_ok(phs@, len64 as int),
{
    let mut i: usize = 0;
    while i < phs.len()
        invariant
            0 <= i <= phs@.len(),
            forall|j: int|
                0 <= j < i && (#[trigger] phs@[j]).p_type == PT_LOAD ==> phs@[j].p_offset
                    + phs@[j].p_filesz <= len64 && phs@[j].p_filesz <= phs@[j].p_memsz
                    && phs@[j].p_vaddr + phs@[j].p_memsz <= u64::MAX,
        decreases phs@.len() - i,
    {
        let ph = phs[i];
        if ph.p_type == PT_LOAD {
            if ph.p_filesz > ph.p_memsz || ph.p_offset > len64 || ph.p_filesz > len64 - ph.p_offset
                || ph.p_vaddr > u64::MAX - ph.p_memsz {
                return false;
            }
        }
        i = i + 1;
    }
    true
}

/// Locates and scans the dynamic segment, rejects dynamic dependencies and
/// implicit-addend relocations, and reads and vets the explicit-addend
/// relocation table.
#[verifier::rlimit(100)]
#[verifier::spinoff_prover]
fn parse_dynamic_section(elf: &[u8], phs: &Vec<ProgramHeader>) -> (result: Result<
    Vec<Rela>,
    ParseError,
>)
    requires
        spec_load_segments_ok(phs@, elf@.len() as int),
    ensures
        match result {
            Ok(relas) => spec_parse_dynamic(elf@, phs@) == Ok::<Seq<Rela>, ParseError>(relas@),
            Err(e) => spec_parse_dynamic(elf@, phs@) == Err::<Seq<Rela>, ParseError>(e),
        },
{
    let len: usize = elf.len();
    let len64 = len as u64;
    let dyns: Vec<Dyn> = match find_ph(phs, PT_DYNAMIC) {
        Some(d) => {
            proof {
                lemma_find_ph(phs@, PT_DYNAMIC);
            }
            let ph = phs[d];
            let n_dyn = ph.p_filesz / SIZEOF_DYN;
            proof {
                vstd::arithmetic::div_mod::lemma_fundamental_div_mod(
                    ph.p_filesz as int,
                    SIZEOF_DYN as int,
                );
                vstd::arithmetic::div_mod::lemma_mod_division_less_than_divisor(
                    ph.p_filesz as int,
                    SIZEOF_DYN as int,
                );
                assert(SIZEOF_DYN * n_dyn <= ph.p_filesz);
            }
            if ph.p_offset > len64 || SIZEOF_DYN * n_dyn > len64 - ph.p_offset {
                return Err(ParseError::DynamicOutOfBounds);
            }
            parse_dyns(elf, ph.p_offset, n_dyn)
        },
        None => Vec::new(),
    };
    proof {
        if spec_find_ph(phs@, PT_DYNAMIC) is None {
            assert(dyns@ =~= Seq::<Dyn>::empty());
        }
        assert(spec_locate_dyns(elf@, phs@) == Ok::<Seq<Dyn>, ParseError>(dyns@));
    }
    let summary = scan_dynamic(&dyns);
    proof {
        assert(spec_parse_dynamic(elf@, phs@) == spec_locate_relas(elf@, phs@, summary));
    }
    if summary.needed {
        return Err(ParseError::NeededLibrary);
    }
    if summary.relcount != 0 {
        return Err(ParseError::ImplicitRelocations);
    }
    // locate and vet the explicit-addend relocation table
    if summary.relacount == 0 {
        let empty: Vec<Rela> = Vec::new();
        proof {
            assert(empty@ =~= Seq::<Rela>::empty());
        }
        return Ok(empty);
    }
    let relas: Vec<Rela> = {
        let vaddr = match summary.rela_vaddr {
            Some(v) => v,
            None => {
                return Err(ParseError::RelocationTableOutOfBounds);
            },
        };
        let j = match find_containing_load(phs, vaddr) {
            Some(j) => j,
            None => {
                return Err(ParseError::RelocationTableOutOfBounds);
            },
        };
        proof {
            lemma_vm_to_offset(phs@, vaddr);
            assert((#[trigger] phs@[j as int]).p_type == PT_LOAD && phs@[j as int].p_offset + phs@[
                j as int].p_filesz <= len64);
        }
        let ph = phs[j];
        let offset = ph.p_offset + (vaddr - ph.p_vaddr);
        proof {
            vstd::arithmetic::div_mod::lemma_fundamental_div_mod(
                (len64 - offset) as int,
                SIZEOF_RELA as int,
            );
            vstd::arithmetic::div_mod::lemma_mod_division_less_than_divisor(
                (len64 - offset) as int,
                SIZEOF_RELA as int,
            );
            vstd::arithmetic::div_mod::lemma_div_multiples_vanish(
                summary.relacount as int,
                SIZEOF_RELA as int,
            );
            vstd::arithmetic::mul::lemma_mul_is_commutative(
                summary.relacount as int,
                SIZEOF_RELA as int,
            );
            if summary.relacount <= ((len64 - offset) as int) / (SIZEOF_RELA as int) {
                vstd::arithmetic::mul::lemma_mul_inequality(
                    summary.relacount as int,
                    ((len64 - offset) as int) / (SIZEOF_RELA as int),
                    SIZEOF_RELA as int,
                );
            } else if SIZEOF_RELA * summary.relacount <= len64 - offset {
                vstd::arithmetic::div_mod::lemma_div_is_ordered(
                    SIZEOF_RELA as int * summary.relacount as int,
                    (len64 - offset) as int,
                    SIZEOF_RELA as int,
                );
                assert(false);
            }
        }
        if summary.relacount > (len64 - offset) / SIZEOF_RELA {
            return Err(ParseError::RelocationTableOutOfBounds);
        }
        let table = parse_relas(elf, offset, summary.relacount);
        proof {
            let off_spec = phs@[j as int].p_offset + (vaddr - phs@[j as int].p_vaddr);
            assert(offset as int == off_spec);
            assert(table@ == spec_relas(elf@, off_spec, summary.relacount as int));
            if exists|i: int|
                0 <= i < table@.len() && spec_r_type((#[trigger] table@[i]).r_info)
                    != R_X86_64_RELATIVE {
                let w = choose|i: int|
                    0 <= i < table@.len() && spec_r_type((#[trigger] table@[i]).r_info)
                        != R_X86_64_RELATIVE;
                let spec_table = spec_relas(elf@, off_spec, summary.relacount as int);
                assert(0 <= w < spec_table.len() && spec_r_type(
                    (#[trigger] spec_table[w]).r_info,
                ) != R_X86_64_RELATIVE);
                assert(spec_locate_relas(elf@, phs@, summary) == Err::<Seq<Rela>, ParseError>(
                    ParseError::UnsupportedRelocation,
                ));
            } else {
                assert(spec_locate_relas(elf@, phs@, summary) == Ok::<Seq<Rela>, ParseError>(
                    table@,
                ));
            }
        }
        table
    };
    if !all_relas_relative(&relas) {
        return Err(ParseError::UnsupportedRelocation);
    }
    Ok(relas)
}

/// A parsed kernel object ready for loading.
pub struct Object<'a> {
    /// The raw bytes of the parsed ELF file.
    elf: &'a [u8],
    /// The object type: `ET_EXEC` or `ET_DYN`.
    e_type: u16,
    /// The declared entry point (an offset for position-independent
    /// images, an absolute address otherwise).
    entry: u64,
    /// The kernel's program headers.
    phs: Vec<ProgramHeader>,
    /// Relocations with an explicit addend.
    relas: Vec<Rela>,
}

impl<'a> Object<'a> {
    /// The raw bytes of the image this object was parsed from.
    pub closed spec fn spec_elf(self) -> Seq<u8> {
        self.elf@
    }

    /// The object type.
    pub closed spec fn spec_e_type(self) -> u16 {
        self.e_type
    }

    /// The declared entry point.
    pub closed spec fn spec_entry(self) -> u64 {
        self.entry
    }

    /// The program headers.
    pub closed spec fn spec_phs(self) -> Seq<ProgramHeader> {
        self.phs@
    }

    /// The explicit-addend relocations.
    pub closed spec fn spec_relas(self) -> Seq<Rela> {
        self.relas@
    }

    /// The object is exactly what parsing its image yields.
    pub open spec fn wf(self) -> bool {
        match spec_parse(self.spec_elf()) {
            Ok(model) => self.spec_e_type() == model.e_type && self.spec_entry() == model.entry
                && self.spec_phs() == model.phs && self.spec_relas() == model.relas,
            Err(_) => false,
        }
    }

    /// Parses raw bytes of an ELF file into a loadable kernel object,
    /// rejecting incompatible or malformed images with the reason.
    #[verifier::rlimit(100)]
    #[verifier::spinoff_prover]
    pub fn parse(elf: &[u8]) -> (result: Result<Object<'_>, ParseError>)
        ensures
            match result {
                Ok(obj) => obj.wf() && obj.spec_elf() == elf@ && spec_parse(elf@) is Ok,
                Err(e) => spec_parse(elf@) == Err::<ImageModel, ParseError>(e),
            },
    {
        let len: usize = elf.len();
        let len64 = len as u64;
        if len < 64 {
            return Err(ParseError::TooShort);
        }
        if elf[4] != ELFCLASS64 {
            return Err(ParseError::WrongClass);
        }
        if elf[5] != ELFDATA2LSB {
            return Err(ParseError::WrongEndianness);
        }
        let e_type = read_u16(elf, 16);
        if e_type != ET_EXEC && e_type != ET_DYN {
            return Err(ParseError::WrongType);
        }
        let e_machine = read_u16(elf, 18);
        if e_machine != EM_X86_64 {
            return Err(ParseError::WrongMachine);
        }
        let e_entry = read_u64(elf, 24);
        let e_phoff = read_u64(elf, 32);
        let e_phnum = read_u16(elf, 56) as u64;
        if e_phoff > len64 || SIZEOF_PHDR * e_phnum > len64 - e_phoff {
            return Err(ParseError::ProgramHeadersOutOfBounds);
        }
        let phs = parse_program_headers(elf, e_phoff, e_phnum);
        let ghost phs_spec = spec_program_headers(elf@, e_phoff as int, e_phnum as int);
        // validate the loadable segments
        if !check_load_segments(&phs, len64) {
            return Err(ParseError::LoadSegmentOutOfBounds);
        }
        // locate the dynamic segment and the relocation table
        let relas: Vec<Rela> = match parse_dynamic_section(elf, &phs) {
            Ok(relas) => relas,
            Err(e) => {
                return Err(e);
            },
        };
        let object = Object { elf, e_type, entry: e_entry, phs, relas };
        proof {
            assert(spec_parse(elf@) == Ok::<ImageModel, ParseError>(
                ImageModel {
                    e_type: spec_le16(elf@, 16) as u16,
                    entry: spec_le64(elf@, 24) as u64,
                    phs: phs_spec,
                    relas: object.relas@,
                },
            ));
        }
        Ok(object)
    }
}

/// Whether the image has a loadable segment.
pub open spec fn spec_has_load(phs: Seq<ProgramHeader>) -> bool {
    exists|i: int| 0 <= i < phs.len() && (#[trigger] phs[i]).p_type == PT_LOAD
}

/// The lowest start virtual address over the loadable segments
/// (`u64::MAX` without one).
pub open spec fn spec_min_load_vaddr(phs: Seq<ProgramHeader>) -> u64
    decreases phs.len(),
{
    if phs.len() <= 0 {
        u64::MAX
    } else {
        let rest = spec_min_load_vaddr(phs.drop_last());
        if phs.last().p_type == PT_LOAD && phs.last().p_vaddr < rest {
            phs.last().p_vaddr
        } else {
            rest
        }
    }
}

/// The highest end virtual address (start plus in-memory size) over the
/// loadable segments (`0` without one).
pub open spec fn spec_max_load_end(phs: Seq<ProgramHeader>) -> int
    decreases phs.len(),
{
    if phs.len() <= 0 {
        0
    } else {
        let rest = spec_max_load_end(phs.drop_last());
        if phs.last().p_type == PT_LOAD && phs.last().p_vaddr + phs.last().p_memsz > rest {
            phs.last().p_vaddr + phs.last().p_memsz
        } else {
            rest
        }
    }
}

/// The minimum buffer size for loading: the span from the lowest loadable
/// segment's start to the highest loadable segment's end.
pub open spec fn spec_mem_size(phs: Seq<ProgramHeader>) -> int
    recommends
        spec_has_load(phs),
{
    spec_max_load_end(phs) - spec_min_load_vaddr(phs)
}

/// The minimum and maximum bound every loadable segment, and both bounds
/// are attained by some loadable segment.
pub proof fn lemma_load_bounds(phs: Seq<ProgramHeader>)
    ensures
        forall|i: int|
            0 <= i < phs.len() && (#[trigger] phs[i]).p_type == PT_LOAD ==> spec_min_load_vaddr(
                phs,
            ) <= phs[i].p_vaddr && phs[i].p_vaddr + phs[i].p_memsz <= spec_max_load_end(phs),
        spec_has_load(phs) ==> exists|i: int|
            0 <= i < phs.len() && (#[trigger] phs[i]).p_type == PT_LOAD && phs[i].p_vaddr
                == spec_min_load_vaddr(phs),
        spec_has_load(phs) ==> exists|i: int|
            0 <= i < phs.len() && (#[trigger] phs[i]).p_type == PT_LOAD && phs[i].p_vaddr
                + phs[i].p_memsz == spec_max_load_end(phs),
        !spec_has_load(phs) ==> spec_min_load_vaddr(phs) == u64::MAX && spec_max_load_end(phs)
            == 0,
    decreases phs.len(),
{
    if phs.len() > 0 {
        let prefix = phs.drop_last();
        lemma_load_bounds(prefix);
        assert(forall|i: int| 0 <= i < prefix.len() ==> prefix[i] == phs[i]);
        if spec_has_load(phs) {
            if phs.last().p_type == PT_LOAD {
                if !(phs.last().p_vaddr < spec_min_load_vaddr(prefix)) && spec_min_load_vaddr(
                    prefix,
                ) == u64::MAX {
                    // the last segment attains the minimum `u64::MAX` itself
                    assert(phs.last().p_vaddr == u64::MAX);
                    assert(phs[phs.len() - 1].p_type == PT_LOAD && phs[phs.len() - 1].p_vaddr
                        == spec_min_load_vaddr(phs));
                } else if !(phs.last().p_vaddr < spec_min_load_vaddr(prefix)) {
                    assert(spec_has_load(prefix)) by {
                        if !spec_has_load(prefix) {
                            assert(spec_min_load_vaddr(prefix) == u64::MAX);
                            assert(false);
                        }
                    }
                }
            } else {
                assert(spec_has_load(prefix)) by {
                    let w = choose|i: int|
                        0 <= i < phs.len() && (#[trigger] phs[i]).p_type == PT_LOAD;
                    assert(w < phs.len() - 1);
                    assert(prefix[w].p_type == PT_LOAD);
                }
            }
        }
    }
}

/// The lowest start virtual address over the loadable segments.
fn min_load_vaddr(phs: &Vec<ProgramHeader>) -> (lowest: u64)
    ensures
        lowest == spec_min_load_vaddr(phs@),
{
    let mut lowest = u64::MAX;
    let mut i: usize = 0;
    while i < phs.len()
        invariant
            0 <= i <= phs@.len(),
            lowest == spec_min_load_vaddr(phs@.take(i as int)),
        decreases phs@.len() - i,
    {
        let ph = phs[i];
        if ph.p_type == PT_LOAD && ph.p_vaddr < lowest {
            lowest = ph.p_vaddr;
        }
        i = i + 1;
        proof {
            assert(phs@.take(i as int).drop_last() =~= phs@.take(i as int - 1));
            assert(phs@.take(i as int).last() == phs@[i as int - 1]);
        }
    }
    proof {
        assert(phs@.take(phs@.len() as int) =~= phs@);
    }
    lowest
}

/// The highest end virtual address over the loadable segments.
fn max_load_end(phs: &Vec<ProgramHeader>) -> (highest: u64)
    requires
        forall|i: int|
            0 <= i < phs@.len() && (#[trigger] phs@[i]).p_type == PT_LOAD ==> phs@[i].p_vaddr
                + phs@[i].p_memsz <= u64::MAX,
    ensures
        highest == spec_max_load_end(phs@),
{
    let mut highest: u64 = 0;
    let mut i: usize = 0;
    while i < phs.len()
        invariant
            0 <= i <= phs@.len(),
            highest == spec_max_load_end(phs@.take(i as int)),
            forall|k: int|
                0 <= k < phs@.len() && (#[trigger] phs@[k]).p_type == PT_LOAD ==> phs@[k].p_vaddr
                    + phs@[k].p_memsz <= u64::MAX,
        decreases phs@.len() - i,
    {
        let ph = phs[i];
        if ph.p_type == PT_LOAD && ph.p_vaddr + ph.p_memsz > highest {
            highest = ph.p_vaddr + ph.p_memsz;
        }
        i = i + 1;
        proof {
            assert(phs@.take(i as int).drop_last() =~= phs@.take(i as int - 1));
            assert(phs@.take(i as int).last() == phs@[i as int - 1]);
        }
    }
    proof {
        assert(phs@.take(phs@.len() as int) =~= phs@);
    }
    highest
}

impl<'a> Object<'a> {
    /// What acceptance at parse time guarantees: the program headers are
    /// the declared table and every loadable segment lies inside the image
    /// with consistent sizes.
    pub proof fn lemma_wf_facts(self)
        requires
            self.wf(),
        ensures
            spec_parse(self.spec_elf()) is Ok,
            self.spec_elf().len() >= SIZEOF_EHDR,
            spec_load_segments_ok(self.spec_phs(), self.spec_elf().len() as int),
    {
        let elf = self.spec_elf();
        assert(spec_parse(elf) is Ok);
        assert(self.spec_phs() == spec_program_headers(elf, spec_le64(elf, 32), spec_le16(elf, 56)));
    }

    /// Required memory size for loading: the minimum size of a block of
    /// memory for successfully loading the object.
    pub fn mem_size(&self) -> (size: u64)
        requires
            self.wf(),
            spec_has_load(self.spec_phs()),
        ensures
            size == spec_mem_size(self.spec_phs()),
    {
        proof {
            self.lemma_wf_facts();
            lemma_load_bounds(self.spec_phs());
        }
        let lowest = min_load_vaddr(&self.phs);
        let highest = max_load_end(&self.phs);
        highest - lowest
    }
}

/// A buffer of `count` zero bytes.
pub open spec fn spec_zeroes(count: int) -> Seq<u8> {
    Seq::new(count as nat, |i: int| 0u8)
}

/// Byte `k` (little-endian) of a 64-bit value.
pub open spec fn spec_le_byte(value: u64, k: int) -> u8 {
    if k == 0 {
        ((value as int) % 0x100) as u8
    } else if k == 1 {
        (((value as int) / 0x100) % 0x100) as u8
    } else if k == 2 {
        (((value as int) / 0x1_0000) % 0x100) as u8
    } else if k == 3 {
        (((value as int) / 0x100_0000) % 0x100) as u8
    } else if k == 4 {
        (((value as int) / 0x1_0000_0000) % 0x100) as u8
    } else if k == 5 {
        (((value as int) / 0x100_0000_0000) % 0x100) as u8
    } else if k == 6 {
        (((value as int) / 0x1_0000_0000_0000) % 0x100) as u8
    } else if k == 7 {
        (((value as int) / 0x100_0000_0000_0000) % 0x100) as u8
    } else {
        0
    }
}

/// The relocated value of a relative relocation: load base plus addend.
pub open spec fn spec_reloc_value(base: u64, addend: i64) -> u64 {
    (base + addend) as u64
}

/// `mem` with one loadable segment written at its place: the segment's
/// file bytes, zero-filled up to its in-memory size.
pub open spec fn spec_write_segment(
    elf: Seq<u8>,
    ph: ProgramHeader,
    start: u64,
    mem: Seq<u8>,
) -> Seq<u8> {
    Seq::new(
        mem.len(),
        |t: int|
            {
                let rel = t - (ph.p_vaddr - start);
                if 0 <= rel < ph.p_filesz {
                    elf[ph.p_offset + rel]
                } else if 0 <= rel < ph.p_memsz {
                    0u8
                } else {
                    mem[t]
                }
            },
    )
}

/// `mem` with every loadable segment of `phs` written, in table order.
pub open spec fn spec_load_segments(
    elf: Seq<u8>,
    phs: Seq<ProgramHeader>,
    start: u64,
    mem: Seq<u8>,
) -> Seq<u8>
    decreases phs.len(),
{
    if phs.len() <= 0 {
        mem
    } else {
        let prev = spec_load_segments(elf, phs.drop_last(), start, mem);
        if phs.last().p_type == PT_LOAD {
            spec_write_segment(elf, phs.last(), start, prev)
        } else {
            prev
        }
    }
}

/// `mem` with the eight little-endian bytes of `value` written at `offset`.
pub open spec fn spec_apply_rela(mem: Seq<u8>, offset: int, value: u64) -> Seq<u8> {
    Seq::new(
        mem.len(),
        |t: int|
            if offset <= t < offset + 8 {
                spec_le_byte(value, t - offset)
            } else {
                mem[t]
            },
    )
}

/// `mem` with every relative relocation applied, in table order.
pub open spec fn spec_apply_relas(relas: Seq<Rela>, base: u64, mem: Seq<u8>) -> Seq<u8>
    decreases relas.len(),
{
    if relas.len() <= 0 {
        mem
    } else {
        let prev = spec_apply_relas(relas.drop_last(), base, mem);
        spec_apply_rela(
            prev,
            relas.last().r_offset as int,
            spec_reloc_value(base, relas.last().r_addend),
        )
    }
}

/// The load result: entry point, the fixed load address of non-relocatable
/// images, and the thread-local-storage layout, if any.
pub struct LoadInfo {
    pub elf_location: Option<u64>,
    pub entry_point: u64,
    pub tls_info: Option<TlsInfo>,
}

/// The thread-local-storage layout of a loaded kernel.
pub struct TlsInfo {
    start: u64,
    filesz: u64,
    memsz: u64,
    align: u64,
}

/// The boot-information block handed to the loaded kernel; the loader
/// fills in the thread-local-storage fields.
pub struct BootInfo {
    pub tls_start: u64,
    pub tls_filesz: u64,
    pub tls_memsz: u64,
    pub tls_align: u64,
}

impl TlsInfo {
    /// The TLS template's start address.
    pub closed spec fn spec_start(self) -> u64 {
        self.start
    }

    /// The file-backed size of the TLS template.
    pub closed spec fn spec_filesz(self) -> u64 {
        self.filesz
    }

    /// The total in-memory size of the TLS template.
    pub closed spec fn spec_memsz(self) -> u64 {
        self.memsz
    }

    /// The required alignment of the TLS template.
    pub closed spec fn spec_align(self) -> u64 {
        self.align
    }

    /// Builds the TLS layout from the TLS program header: sizes and
    /// alignment verbatim, the start address adjusted by the load address
    /// only for position-independent images.
    pub fn new(e_type: u16, ph: &ProgramHeader, start_addr: u64) -> (info: TlsInfo)
        requires
            e_type == ET_DYN ==> ph.p_vaddr + start_addr <= u64::MAX,
        ensures
            info.spec_start() == ph.p_vaddr + if e_type == ET_DYN {
                start_addr as int
            } else {
                0
            },
            info.spec_filesz() == ph.p_filesz,
            info.spec_memsz() == ph.p_memsz,
            info.spec_align() == ph.p_align,
    {
        let mut tls_start = ph.p_vaddr;
        if e_type == ET_DYN {
            tls_start = tls_start + start_addr;
        }
        TlsInfo { start: tls_start, filesz: ph.p_filesz, memsz: ph.p_memsz, align: ph.p_align }
    }

    /// Records this TLS layout in the boot-information block.
    pub fn insert_into(&self, boot_info: &mut BootInfo)
        ensures
            final(boot_info).tls_start == self.spec_start(),
            final(boot_info).tls_filesz == self.spec_filesz(),
            final(boot_info).tls_memsz == self.spec_memsz(),
            final(boot_info).tls_align == self.spec_align(),
    {
        boot_info.tls_start = self.start;
        boot_info.tls_filesz = self.filesz;
        boot_info.tls_memsz = self.memsz;
        boot_info.tls_align = self.align;
    }
}

/// Overwrites the whole buffer with zeroes, so that no loader memory
/// leaks into the booted kernel's initial image.
fn zero_buffer(memory: &mut Vec<u8>)
    ensures
        final(memory)@.len() == old(memory)@.len(),
        final(memory)@ == spec_zeroes(old(memory)@.len() as int),
{
    let len = memory.len();
    let mut i: usize = 0;
    while i < len
        invariant
            0 <= i <= len,
            memory@.len() == len,
            forall|t: int| 0 <= t < i ==> memory@[t] == 0u8,
            forall|t: int| i <= t < len ==> memory@[t] == old(memory)@[t],
        decreases len - i,
    {
        memory.set(i, 0);
        i = i + 1;
    }
    proof {
        assert(memory@ =~= spec_zeroes(old(memory)@.len() as int));
    }
}

/// Copies one loadable segment's file bytes to its place in the buffer and
/// zero-fills the remainder up to its in-memory size.
fn write_segment(memory: &mut Vec<u8>, elf: &[u8], ph: &ProgramHeader, start: u64)
    requires
        start <= ph.p_vaddr,
        ph.p_offset + ph.p_filesz <= elf@.len(),
        ph.p_filesz <= ph.p_memsz,
        ph.p_vaddr - start + ph.p_memsz <= old(memory)@.len(),
    ensures
        final(memory)@.len() == old(memory)@.len(),
        final(memory)@ == spec_write_segment(elf@, *ph, start, old(memory)@),
{
    let _elf_len: usize = elf.len();
    let len = memory.len();
    let dst = (ph.p_vaddr - start) as usize;
    let file_len = ph.p_filesz as usize;
    let mem_len = ph.p_memsz as usize;
    let src = ph.p_offset as usize;
    let mut j: usize = 0;
    while j < file_len
        invariant
            0 <= j <= file_len,
            memory@.len() == len,
            dst + mem_len <= len,
            file_len <= mem_len,
            src + file_len <= elf@.len(),
            elf@.len() <= usize::MAX,
            forall|t: int| dst <= t < dst + j ==> memory@[t] == elf@[src + (t - dst)],
            forall|t: int| 0 <= t < len && !(dst <= t < dst + j) ==> memory@[t] == old(memory)@[t],
        decreases file_len - j,
    {
        memory.set(dst + j, elf[src + j]);
        j = j + 1;
    }
    let mut k: usize = file_len;
    while k < mem_len
        invariant
            file_len <= k <= mem_len,
            memory@.len() == len,
            dst + mem_len <= len,
            file_len <= mem_len,
            src + file_len <= elf@.len(),
            forall|t: int| dst <= t < dst + file_len ==> memory@[t] == elf@[src + (t - dst)],
            forall|t: int| dst + file_len <= t < dst + k ==> memory@[t] == 0u8,
            forall|t: int| 0 <= t < len && !(dst <= t < dst + k) ==> memory@[t] == old(memory)@[t],
        decreases mem_len - k,
    {
        memory.set(dst + k, 0);
        k = k + 1;
    }
    proof {
        assert(memory@ =~= spec_write_segment(elf@, *ph, start, old(memory)@));
    }
}

/// Writes the eight little-endian bytes of `value` at `offset`.
fn apply_rela(memory: &mut Vec<u8>, offset: u64, value: u64)
    requires
        offset + 8 <= old(memory)@.len(),
    ensures
        final(memory)@.len() == old(memory)@.len(),
        final(memory)@ == spec_apply_rela(old(memory)@, offset as int, value),
{
    let _len: usize = memory.len();
    let base = offset as usize;
    memory.set(base, (value % 0x100) as u8);
    memory.set(base + 1, ((value / 0x100) % 0x100) as u8);
    memory.set(base + 2, ((value / 0x1_0000) % 0x100) as u8);
    memory.set(base + 3, ((value / 0x100_0000) % 0x100) as u8);
    memory.set(base + 4, ((value / 0x1_0000_0000) % 0x100) as u8);
    memory.set(base + 5, ((value / 0x100_0000_0000) % 0x100) as u8);
    memory.set(base + 6, ((value / 0x1_0000_0000_0000) % 0x100) as u8);
    memory.set(base + 7, ((value / 0x100_0000_0000_0000) % 0x100) as u8);
    proof {
        assert(memory@ =~= spec_apply_rela(old(memory)@, offset as int, value));
    }
}

impl<'a> Object<'a> {
    /// Loads the kernel into the provided memory: zeroes the buffer,
    /// copies every loadable segment to its place, applies the relative
    /// relocations against `base_address`, and reports entry point, fixed
    /// load address (for non-relocatable images) and TLS layout.
    ///
    /// `base_address` is the address at which the caller will map the
    /// buffer; for position-independent images it adjusts the entry point,
    /// the TLS start and every relocated value.
    #[verifier::rlimit(100)]
    #[verifier::spinoff_prover]
    pub fn load_kernel(&self, memory: &mut Vec<u8>, base_address: u64) -> (info: LoadInfo)
        requires
            self.wf(),
            spec_has_load(self.spec_phs()),
            old(memory)@.len() >= spec_mem_size(self.spec_phs()),
            forall|i: int|
                0 <= i < self.spec_relas().len() ==> (#[trigger] self.spec_relas()[i]).r_offset + 8
                    <= old(memory)@.len(),
            forall|i: int|
                0 <= i < self.spec_relas().len() ==> 0 <= base_address + (
                #[trigger] self.spec_relas()[i]).r_addend <= u64::MAX,
            self.spec_e_type() == ET_DYN ==> self.spec_entry() + base_address <= u64::MAX,
            self.spec_e_type() == ET_DYN ==> (match spec_find_ph(self.spec_phs(), PT_TLS) {
                Some(i) => self.spec_phs()[i].p_vaddr + base_address <= u64::MAX,
                None => true,
            }),
        ensures
            final(memory)@.len() == old(memory)@.len(),
            final(memory)@ == spec_apply_relas(
                self.spec_relas(),
                base_address,
                spec_load_segments(
                    self.spec_elf(),
                    self.spec_phs(),
                    spec_min_load_vaddr(self.spec_phs()),
                    spec_zeroes(old(memory)@.len() as int),
                ),
            ),
            info.entry_point == self.spec_entry() + if self.spec_e_type() == ET_DYN {
                base_address as int
            } else {
                0
            },
            info.elf_location == if self.spec_e_type() == ET_EXEC {
                Some(spec_min_load_vaddr(self.spec_phs()))
            } else {
                None::<u64>
            },
            match spec_find_ph(self.spec_phs(), PT_TLS) {
                Some(i) => info.tls_info matches Some(tls) && tls.spec_start() == self.spec_phs()[
                    i].p_vaddr + (if self.spec_e_type() == ET_DYN {
                    base_address as int
                } else {
                    0
                }) && tls.spec_filesz() == self.spec_phs()[i].p_filesz && tls.spec_memsz()
                    == self.spec_phs()[i].p_memsz && tls.spec_align() == self.spec_phs()[i].p_align,
                None => info.tls_info is None,
            },
    {
        let start = self.load_image(memory, base_address);
        // the TLS layout, if the image carries a TLS segment
        let tls_info = match find_ph(&self.phs, PT_TLS) {
            Some(t) => {
                proof {
                    lemma_find_ph(self.phs@, PT_TLS);
                }
                Some(TlsInfo::new(self.e_type, &self.phs[t], base_address))
            },
            None => None,
        };
        // the entry point, adjusted by the load address for
        // position-independent images
        let mut entry_point = self.entry;
        if self.e_type == ET_DYN {
            entry_point = entry_point + base_address;
        }
        // the fixed load address, reported only for non-relocatable images
        let elf_location = if self.e_type == ET_EXEC {
            Some(start)
        } else {
            None
        };
        LoadInfo { elf_location, entry_point, tls_info }
    }

    /// Fills the buffer: zeroes it, copies every loadable segment to its
    /// place and applies the relative relocations; returns the lowest
    /// loadable virtual address the offsets are relative to.
    #[verifier::rlimit(100)]
    #[verifier::spinoff_prover]
    fn load_image(&self, memory: &mut Vec<u8>, base_address: u64) -> (start: u64)
        requires
            self.wf(),
            spec_has_load(self.spec_phs()),
            old(memory)@.len() >= spec_mem_size(self.spec_phs()),
            forall|i: int|
                0 <= i < self.spec_relas().len() ==> (#[trigger] self.spec_relas()[i]).r_offset + 8
                    <= old(memory)@.len(),
            forall|i: int|
                0 <= i < self.spec_relas().len() ==> 0 <= base_address + (
                #[trigger] self.spec_relas()[i]).r_addend <= u64::MAX,
        ensures
            start == spec_min_load_vaddr(self.spec_phs()),
            final(memory)@.len() == old(memory)@.len(),
            final(memory)@ == spec_apply_relas(
                self.spec_relas(),
                base_address,
                spec_load_segments(
                    self.spec_elf(),
                    self.spec_phs(),
                    spec_min_load_vaddr(self.spec_phs()),
                    spec_zeroes(old(memory)@.len() as int),
                ),
            ),
    {
        proof {
            self.lemma_wf_facts();
            lemma_load_bounds(self.spec_phs());
        }
        let _elf_len: usize = self.elf.len();
        let start = min_load_vaddr(&self.phs);
        zero_buffer(memory);
        let ghost zeroed = memory@;
        // copy every loadable segment to its place
        let mut p: usize = 0;
        while p < self.phs.len()
            invariant
                0 <= p <= self.phs@.len(),
                memory@.len() == old(memory)@.len(),
                memory@ == spec_load_segments(
                    self.spec_elf(),
                    self.phs@.take(p as int),
                    start,
                    zeroed,
                ),
                self.spec_phs() == self.phs@,
                self.spec_elf().len() <= usize::MAX,
                start == spec_min_load_vaddr(self.phs@),
                spec_load_segments_ok(self.phs@, self.spec_elf().len() as int),
                forall|i: int|
                    0 <= i < self.phs@.len() && (#[trigger] self.phs@[i]).p_type == PT_LOAD
                        ==> spec_min_load_vaddr(self.phs@) <= self.phs@[i].p_vaddr && self.phs@[
                        i].p_vaddr + self.phs@[i].p_memsz <= spec_max_load_end(self.phs@),
                spec_max_load_end(self.phs@) - start <= old(memory)@.len(),
            decreases self.phs@.len() - p,
        {
            let ph = self.phs[p];
            if ph.p_type == PT_LOAD {
                write_segment(memory, self.elf, &ph, start);
            }
            p = p + 1;
            proof {
                assert(self.phs@.take(p as int).drop_last() =~= self.phs@.take(p as int - 1));
                assert(self.phs@.take(p as int).last() == self.phs@[p as int - 1]);
            }
        }
        proof {
            assert(self.phs@.take(self.phs@.len() as int) =~= self.phs@);
        }
        let ghost loaded = memory@;
        // apply the relative relocations
        let mut r: usize = 0;
        while r < self.relas.len()
            invariant
                0 <= r <= self.relas@.len(),
                memory@.len() == old(memory)@.len(),
                memory@ == spec_apply_relas(self.relas@.take(r as int), base_address, loaded),
                self.spec_relas() == self.relas@,
                forall|i: int|
                    0 <= i < self.relas@.len() ==> (#[trigger] self.relas@[i]).r_offset + 8 <= old(
                        memory,
                    )@.len(),
                forall|i: int|
                    0 <= i < self.relas@.len() ==> 0 <= base_address + (
                    #[trigger] self.relas@[i]).r_addend <= u64::MAX,
            decreases self.relas@.len() - r,
        {
            let rela = self.relas[r];
            let value = reloc_value(base_address, rela.r_addend);
            apply_rela(memory, rela.r_offset, value);
            r = r + 1;
            proof {
                assert(self.relas@.take(r as int).drop_last() =~= self.relas@.take(r as int - 1));
                assert(self.relas@.take(r as int).last() == self.relas@[r as int - 1]);
            }
        }
        proof {
            assert(self.relas@.take(self.relas@.len() as int) =~= self.relas@);
        }
        start
    }
}

/// The relocated value of a relative relocation: load base plus addend.
fn reloc_value(base: u64, addend: i64) -> (value: u64)
    requires
        0 <= base + addend <= u64::MAX,
    ensures
        value == spec_reloc_value(base, addend),
{
    if addend >= 0 {
        base + (addend as u64)
    } else {
        let magnitude = ((-(addend + 1)) as u64) + 1;
        base - magnitude
    }
}

} // verus!
