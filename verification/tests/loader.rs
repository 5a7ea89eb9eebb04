use boot_core::kernel::{BootInfo, Object, ParseError};

/// Appends a little-endian 16-bit value.
fn push16(bytes: &mut Vec<u8>, value: u16) {
    bytes.extend_from_slice(&value.to_le_bytes());
}

/// Appends a little-endian 32-bit value.
fn push32(bytes: &mut Vec<u8>, value: u32) {
    bytes.extend_from_slice(&value.to_le_bytes());
}

/// Appends a little-endian 64-bit value.
fn push64(bytes: &mut Vec<u8>, value: u64) {
    bytes.extend_from_slice(&value.to_le_bytes());
}

/// A 64-byte ELF64 header.
fn push_header(bytes: &mut Vec<u8>, e_type: u16, e_machine: u16, e_entry: u64, e_phnum: u16) {
    bytes.extend_from_slice(&[0x7F, b'E', b'L', b'F', 2, 1, 1, 0]);
    bytes.extend_from_slice(&[0; 8]);
    push16(bytes, e_type);
    push16(bytes, e_machine);
    push32(bytes, 1);
    push64(bytes, e_entry);
    push64(bytes, 64); // e_phoff: right after this header
    push64(bytes, 0); // e_shoff
    push32(bytes, 0); // e_flags
    push16(bytes, 64); // e_ehsize
    push16(bytes, 56); // e_phentsize
    push16(bytes, e_phnum);
    push16(bytes, 0); // e_shentsize
    push16(bytes, 0); // e_shnum
    push16(bytes, 0); // e_shstrndx
}

/// A 56-byte ELF64 program header.
fn push_phdr(
    bytes: &mut Vec<u8>,
    p_type: u32,
    p_offset: u64,
    p_vaddr: u64,
    p_filesz: u64,
    p_memsz: u64,
    p_align: u64,
) {
    push32(bytes, p_type);
    push32(bytes, 7); // p_flags
    push64(bytes, p_offset);
    push64(bytes, p_vaddr);
    push64(bytes, p_vaddr); // p_paddr
    push64(bytes, p_filesz);
    push64(bytes, p_memsz);
    push64(bytes, p_align);
}

/// A minimal fixed-address image with one loadable segment:
/// 16 bytes of `0x90` on file, 32 bytes in memory.
fn minimal_exec_image() -> Vec<u8> {
    let mut elf = Vec::new();
    push_header(&mut elf, 2, 62, 0x1000, 1);
    push_phdr(&mut elf, 1, 120, 0x1000, 16, 32, 0x1000);
    elf.extend_from_slice(&[0x90; 16]);
    elf
}

/// A position-independent image whose single loadable segment holds a
/// dynamic table (two entries at virtual address 0) and one relative
/// relocation (at virtual address 32: offset 8, addend 0x100).
fn pie_image_with_relocation(needed: bool, r_info: u64) -> Vec<u8> {
    let mut elf = Vec::new();
    push_header(&mut elf, 3, 62, 0x10, 2);
    // file offset 176 maps to virtual address 0, 64 bytes
    push_phdr(&mut elf, 1, 176, 0, 64, 64, 0x1000);
    push_phdr(&mut elf, 2, 176, 0, 32, 32, 8);
    // the dynamic table
    if needed {
        push64(&mut elf, 1); // DT_NEEDED
        push64(&mut elf, 1);
    } else {
        push64(&mut elf, 7); // DT_RELA
        push64(&mut elf, 32);
    }
    push64(&mut elf, 0x6FFF_FFF9); // DT_RELACOUNT
    push64(&mut elf, 1);
    // the relocation table at virtual address 32
    push64(&mut elf, 8); // r_offset
    push64(&mut elf, r_info);
    push64(&mut elf, 0x100); // r_addend
    // pad the segment to 64 file bytes
    elf.extend_from_slice(&[0; 16]);
    elf
}

#[test]
fn round_trip_minimal_image() {
    let elf = minimal_exec_image();
    let object = Object::parse(&elf).unwrap();
    assert_eq!(object.mem_size(), 32);
    let mut memory = vec![0xAAu8; 32];
    let info = object.load_kernel(&mut memory, 0x4000);
    let mut expected = vec![0x90u8; 16];
    expected.extend_from_slice(&[0; 16]);
    assert_eq!(memory, expected);
    // a fixed-address image keeps its absolute entry point and reports
    // its fixed load address
    assert_eq!(info.entry_point, 0x1000);
    assert_eq!(info.elf_location, Some(0x1000));
    assert!(info.tls_info.is_none());
}

#[test]
fn relocation_writes_base_plus_addend() {
    let elf = pie_image_with_relocation(false, 8);
    let object = Object::parse(&elf).unwrap();
    assert_eq!(object.mem_size(), 64);
    let mut memory = vec![0u8; 64];
    let info = object.load_kernel(&mut memory, 0x4000);
    // 0x4000 + 0x100 in native byte order at offset 8
    assert_eq!(&memory[8..16], &0x4100u64.to_le_bytes());
    // the entry point of a position-independent image is adjusted
    assert_eq!(info.entry_point, 0x4010);
    assert_eq!(info.elf_location, None);
}

#[test]
fn needed_library_is_rejected() {
    let elf = pie_image_with_relocation(true, 8);
    match Object::parse(&elf) {
        Err(error) => assert_eq!(error, ParseError::NeededLibrary),
        Ok(_) => panic!("an image with a DT_NEEDED entry must be rejected"),
    }
}

#[test]
fn non_relative_relocation_is_rejected() {
    let elf = pie_image_with_relocation(false, 1);
    match Object::parse(&elf) {
        Err(error) => assert_eq!(error, ParseError::UnsupportedRelocation),
        Ok(_) => panic!("an image with a non-relative relocation must be rejected"),
    }
}

#[test]
fn incompatible_headers_are_rejected() {
    match Object::parse(&[0u8; 12]) {
        Err(error) => assert_eq!(error, ParseError::TooShort),
        Ok(_) => panic!("a truncated image must be rejected"),
    }

    let mut wrong_class = minimal_exec_image();
    wrong_class[4] = 1;
    match Object::parse(&wrong_class) {
        Err(error) => assert_eq!(error, ParseError::WrongClass),
        Ok(_) => panic!("a 32-bit image must be rejected"),
    }

    let mut wrong_endianness = minimal_exec_image();
    wrong_endianness[5] = 2;
    match Object::parse(&wrong_endianness) {
        Err(error) => assert_eq!(error, ParseError::WrongEndianness),
        Ok(_) => panic!("a big-endian image must be rejected"),
    }

    let mut wrong_type = minimal_exec_image();
    wrong_type[16] = 1; // ET_REL
    match Object::parse(&wrong_type) {
        Err(error) => assert_eq!(error, ParseError::WrongType),
        Ok(_) => panic!("a relocatable object must be rejected"),
    }

    let mut wrong_machine = minimal_exec_image();
    wrong_machine[18] = 40;
    match Object::parse(&wrong_machine) {
        Err(error) => assert_eq!(error, ParseError::WrongMachine),
        Ok(_) => panic!("an image for another architecture must be rejected"),
    }
}

#[test]
fn truncated_segment_is_rejected() {
    let mut elf = minimal_exec_image();
    // declare more file bytes than the image holds
    let truncated = elf.len() - 8;
    elf.truncate(truncated);
    match Object::parse(&elf) {
        Err(error) => assert_eq!(error, ParseError::LoadSegmentOutOfBounds),
        Ok(_) => panic!("a segment past the end of the image must be rejected"),
    }
}

#[test]
fn implicit_relocations_are_rejected() {
    let mut elf = Vec::new();
    push_header(&mut elf, 3, 62, 0, 2);
    push_phdr(&mut elf, 1, 176, 0, 32, 32, 0x1000);
    push_phdr(&mut elf, 2, 176, 0, 32, 32, 8);
    push64(&mut elf, 0x6FFF_FFF6); // DT_RELCOUNT
    push64(&mut elf, 5);
    push64(&mut elf, 0);
    push64(&mut elf, 0);
    match Object::parse(&elf) {
        Err(error) => assert_eq!(error, ParseError::ImplicitRelocations),
        Ok(_) => panic!("implicit-addend relative relocations must be rejected"),
    }
}

#[test]
fn tls_segment_is_reported() {
    let mut elf = Vec::new();
    push_header(&mut elf, 3, 62, 0x10, 2);
    push_phdr(&mut elf, 1, 176, 0, 16, 16, 0x1000);
    push_phdr(&mut elf, 7, 176, 0x30, 8, 16, 8); // PT_TLS
    elf.extend_from_slice(&[0; 16]);
    let object = Object::parse(&elf).unwrap();
    let mut memory = vec![0u8; 16];
    let info = object.load_kernel(&mut memory, 0x4000);
    let tls = info.tls_info.unwrap();
    let mut boot_info = BootInfo { tls_start: 0, tls_filesz: 0, tls_memsz: 0, tls_align: 0 };
    tls.insert_into(&mut boot_info);
    // a position-independent image's TLS start is adjusted by the base
    assert_eq!(boot_info.tls_start, 0x4030);
    assert_eq!(boot_info.tls_filesz, 8);
    assert_eq!(boot_info.tls_memsz, 16);
    assert_eq!(boot_info.tls_align, 8);
}

#[test]
fn tls_start_is_absolute_for_fixed_images() {
    let mut elf = Vec::new();
    push_header(&mut elf, 2, 62, 0x1000, 2);
    push_phdr(&mut elf, 1, 176, 0x1000, 16, 16, 0x1000);
    push_phdr(&mut elf, 7, 176, 0x1030, 8, 16, 8); // PT_TLS
    elf.extend_from_slice(&[0; 16]);
    let object = Object::parse(&elf).unwrap();
    let mut memory = vec![0u8; 16];
    let info = object.load_kernel(&mut memory, 0x4000);
    let tls = info.tls_info.unwrap();
    let mut boot_info = BootInfo { tls_start: 0, tls_filesz: 0, tls_memsz: 0, tls_align: 0 };
    tls.insert_into(&mut boot_info);
    assert_eq!(boot_info.tls_start, 0x1030);
}
