use probdisasm::header::{
    elf_text_section, extract_text_section, pe_text_section, ElfSection, PeSection,
    TextSectionError,
};

/// A minimal 64-bit ELF file: a `.text` section (of type `text_type`, named
/// `text_name`, at file offset `text_offset`) holding `nop; ret`, and the
/// section-name table.
fn tiny_elf(text_name: &[u8; 5], text_type: u32, text_offset: u64) -> Vec<u8> {
    let mut f: Vec<u8> = Vec::new();
    // ELF header.
    f.extend_from_slice(&[0x7f, b'E', b'L', b'F', 2, 1, 1, 0]);
    f.extend_from_slice(&[0u8; 8]);
    f.extend_from_slice(&2u16.to_le_bytes()); // e_type: executable
    f.extend_from_slice(&0x3eu16.to_le_bytes()); // e_machine: x86-64
    f.extend_from_slice(&1u32.to_le_bytes()); // e_version
    f.extend_from_slice(&0x401000u64.to_le_bytes()); // e_entry
    f.extend_from_slice(&0u64.to_le_bytes()); // e_phoff
    f.extend_from_slice(&88u64.to_le_bytes()); // e_shoff
    f.extend_from_slice(&0u32.to_le_bytes()); // e_flags
    f.extend_from_slice(&64u16.to_le_bytes()); // e_ehsize
    f.extend_from_slice(&56u16.to_le_bytes()); // e_phentsize
    f.extend_from_slice(&0u16.to_le_bytes()); // e_phnum
    f.extend_from_slice(&64u16.to_le_bytes()); // e_shentsize
    f.extend_from_slice(&3u16.to_le_bytes()); // e_shnum
    f.extend_from_slice(&2u16.to_le_bytes()); // e_shstrndx
    assert_eq!(f.len(), 64);
    // .text contents at offset 64.
    f.extend_from_slice(&[0x90, 0xc3]);
    // Section names at offset 66.
    f.push(0);
    f.extend_from_slice(text_name);
    f.push(0);
    f.extend_from_slice(b".shstrtab");
    f.push(0);
    assert_eq!(f.len(), 83);
    f.extend_from_slice(&[0u8; 5]);
    assert_eq!(f.len(), 88);
    let header = |f: &mut Vec<u8>, name: u32, ty: u32, flags: u64, addr: u64, off: u64, size: u64| {
        f.extend_from_slice(&name.to_le_bytes());
        f.extend_from_slice(&ty.to_le_bytes());
        f.extend_from_slice(&flags.to_le_bytes());
        f.extend_from_slice(&addr.to_le_bytes());
        f.extend_from_slice(&off.to_le_bytes());
        f.extend_from_slice(&size.to_le_bytes());
        f.extend_from_slice(&0u32.to_le_bytes());
        f.extend_from_slice(&0u32.to_le_bytes());
        f.extend_from_slice(&1u64.to_le_bytes());
        f.extend_from_slice(&0u64.to_le_bytes());
    };
    header(&mut f, 0, 0, 0, 0, 0, 0);
    header(&mut f, 1, text_type, 6, 0x401000, text_offset, 2);
    header(&mut f, 7, 3, 0, 0, 66, 17);
    f
}

#[test]
fn test_extract_text_section_not_found() {
    let buffer = &[0u8; 64];
    let result = extract_text_section(buffer);
    assert!(result.is_err());
}

#[test]
fn test_extract_text_section_elf() {
    let elf = tiny_elf(b".text", 1, 64);
    let result = extract_text_section(&elf);
    assert!(result.is_ok());
    let (addr, code) = extract_text_section(&elf).expect(".text should be found");
    assert_eq!(addr, 0x401000);
    assert_eq!(code, &[0x90, 0xc3]);
}

#[test]
fn extract_text_section_missing_name() {
    let elf = tiny_elf(b".data", 1, 64);
    assert!(matches!(extract_text_section(&elf), Err(TextSectionError::NotFound)));
}

#[test]
fn extract_text_section_without_file_bytes() {
    // SHT_NOBITS: the section occupies no bytes of the file.
    let elf = tiny_elf(b".text", 8, 64);
    assert!(matches!(extract_text_section(&elf), Err(TextSectionError::NoFileRange)));
}

#[test]
fn extract_text_section_past_end_of_file() {
    let elf = tiny_elf(b".text", 1, 10_000);
    assert!(matches!(extract_text_section(&elf), Err(TextSectionError::OutOfBounds)));
}

#[test]
fn extract_text_section_unsupported_format() {
    let buffer = &[0u8; 64];
    assert!(matches!(extract_text_section(buffer), Err(TextSectionError::Unsupported)));
}

#[test]
fn extract_text_section_malformed_elf() {
    let mut elf = tiny_elf(b".text", 1, 64);
    elf.truncate(100);
    assert!(matches!(extract_text_section(&elf), Err(TextSectionError::Parse(_))));
}

fn elf_section(name: &str, addr: u64, file_range: Option<(usize, usize)>) -> ElfSection {
    ElfSection { name: Some(name.as_bytes().to_vec()), addr, file_range }
}

#[test]
fn elf_text_section_takes_the_first_text() {
    let buffer: Vec<u8> = (0u8..32).collect();
    let sections = vec![
        elf_section(".data", 0x10, Some((0, 4))),
        elf_section(".text", 0x20, Some((4, 8))),
        elf_section(".text", 0x30, Some((8, 12))),
    ];
    let (addr, code) = elf_text_section(&buffer, &sections).unwrap();
    assert_eq!(addr, 0x20);
    assert_eq!(code, &[4, 5, 6, 7]);
}

#[test]
fn elf_text_section_errors() {
    let buffer: Vec<u8> = (0u8..32).collect();
    let unnamed = vec![ElfSection { name: None, addr: 0, file_range: Some((0, 4)) }];
    assert!(matches!(elf_text_section(&buffer, &unnamed), Err(TextSectionError::NotFound)));
    let no_range = vec![elf_section(".text", 0x20, None)];
    assert!(matches!(elf_text_section(&buffer, &no_range), Err(TextSectionError::NoFileRange)));
    let too_long = vec![elf_section(".text", 0x20, Some((30, 40)))];
    assert!(matches!(elf_text_section(&buffer, &too_long), Err(TextSectionError::OutOfBounds)));
}

fn pe_section(name: &str, virtual_address: u32, size: u32, pointer: u32) -> PeSection {
    PeSection {
        name: Some(name.as_bytes().to_vec()),
        virtual_address,
        size_of_raw_data: size,
        pointer_to_raw_data: pointer,
    }
}

#[test]
fn pe_text_section_adds_the_image_base() {
    let buffer: Vec<u8> = (0u8..64).collect();
    let sections = vec![pe_section(".rdata", 0x2000, 8, 0), pe_section(".text", 0x1000, 4, 16)];
    let (addr, code) = pe_text_section(&buffer, 0x140000000, &sections).unwrap();
    assert_eq!(addr, 0x140001000);
    assert_eq!(code, &[16, 17, 18, 19]);
}

#[test]
fn pe_text_section_errors() {
    let buffer: Vec<u8> = (0u8..64).collect();
    let none = vec![pe_section(".data", 0x1000, 4, 16)];
    assert!(matches!(pe_text_section(&buffer, 0, &none), Err(TextSectionError::NotFound)));
    let too_long = vec![pe_section(".text", 0x1000, 100, 16)];
    assert!(matches!(pe_text_section(&buffer, 0, &too_long), Err(TextSectionError::OutOfBounds)));
}

/// A minimal PE32+ file with one `.text` section of 16 bytes at file offset
/// 0x200, mapped at image base 0x140000000 plus 0x1000.
fn tiny_pe() -> Vec<u8> {
    let mut f: Vec<u8> = vec![0u8; 0x40];
    f[0] = b'M';
    f[1] = b'Z';
    f[0x3c..0x40].copy_from_slice(&0x40u32.to_le_bytes());
    f.extend_from_slice(b"PE\0\0");
    // COFF header.
    f.extend_from_slice(&0x8664u16.to_le_bytes()); // machine
    f.extend_from_slice(&1u16.to_le_bytes()); // number of sections
    f.extend_from_slice(&0u32.to_le_bytes()); // time stamp
    f.extend_from_slice(&0u32.to_le_bytes()); // symbol table
    f.extend_from_slice(&0u32.to_le_bytes()); // number of symbols
    f.extend_from_slice(&240u16.to_le_bytes()); // size of optional header
    f.extend_from_slice(&0x22u16.to_le_bytes()); // characteristics
    // Optional header, standard fields.
    f.extend_from_slice(&0x20bu16.to_le_bytes());
    f.extend_from_slice(&[14, 0]);
    f.extend_from_slice(&0x10u32.to_le_bytes()); // size of code
    f.extend_from_slice(&0u32.to_le_bytes());
    f.extend_from_slice(&0u32.to_le_bytes());
    f.extend_from_slice(&0x1000u32.to_le_bytes()); // entry point
    f.extend_from_slice(&0x1000u32.to_le_bytes()); // base of code
    // Windows fields.
    f.extend_from_slice(&0x140000000u64.to_le_bytes()); // image base
    f.extend_from_slice(&0x1000u32.to_le_bytes()); // section alignment
    f.extend_from_slice(&0x200u32.to_le_bytes()); // file alignment
    for v in [6u16, 0, 0, 0, 6, 0] {
        f.extend_from_slice(&v.to_le_bytes());
    }
    f.extend_from_slice(&0u32.to_le_bytes()); // win32 version
    f.extend_from_slice(&0x2000u32.to_le_bytes()); // size of image
    f.extend_from_slice(&0x200u32.to_le_bytes()); // size of headers
    f.extend_from_slice(&0u32.to_le_bytes()); // checksum
    f.extend_from_slice(&3u16.to_le_bytes()); // subsystem
    f.extend_from_slice(&0u16.to_le_bytes()); // dll characteristics
    for v in [0x100000u64, 0x1000, 0x100000, 0x1000] {
        f.extend_from_slice(&v.to_le_bytes());
    }
    f.extend_from_slice(&0u32.to_le_bytes()); // loader flags
    f.extend_from_slice(&16u32.to_le_bytes()); // number of data directories
    f.extend_from_slice(&[0u8; 128]);
    assert_eq!(f.len(), 0x148);
    // Section table.
    f.extend_from_slice(b".text\0\0\0");
    f.extend_from_slice(&0x10u32.to_le_bytes()); // virtual size
    f.extend_from_slice(&0x1000u32.to_le_bytes()); // virtual address
    f.extend_from_slice(&0x10u32.to_le_bytes()); // size of raw data
    f.extend_from_slice(&0x200u32.to_le_bytes()); // pointer to raw data
    f.extend_from_slice(&[0u8; 12]);
    f.extend_from_slice(&0x60000020u32.to_le_bytes()); // characteristics
    f.resize(0x200, 0);
    f.extend_from_slice(&[0x90u8; 15]);
    f.push(0xc3);
    f
}

#[test]
fn test_extract_text_section_pe() {
    let pe = tiny_pe();
    let result = extract_text_section(&pe);
    assert!(result.is_ok());
    let (addr, code) = extract_text_section(&pe).expect(".text should be found");
    assert_eq!(addr, 0x140001000);
    assert_eq!(code.len(), 16);
    assert_eq!(code[15], 0xc3);
}
