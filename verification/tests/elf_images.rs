use os::mm::elf::{
    read_u16_le, read_u32_le, read_u64_le, validate, ElfError, ElfHeader, ProgramHeader, PF_R,
    PF_W, PF_X, PT_LOAD,
};

fn header(entry: u64, phoff: u64, phentsize: u16, phnum: u16) -> Vec<u8> {
    let mut b = vec![0u8; 64];
    b[0] = 0x7f;
    b[1] = b'E';
    b[2] = b'L';
    b[3] = b'F';
    b[4] = 2;
    b[5] = 1;
    b[24..32].copy_from_slice(&entry.to_le_bytes());
    b[32..40].copy_from_slice(&phoff.to_le_bytes());
    b[54..56].copy_from_slice(&phentsize.to_le_bytes());
    b[56..58].copy_from_slice(&phnum.to_le_bytes());
    b
}

fn program_header(
    p_type: u32,
    flags: u32,
    offset: u64,
    vaddr: u64,
    filesz: u64,
    memsz: u64,
) -> Vec<u8> {
    let mut b = vec![0u8; 56];
    b[0..4].copy_from_slice(&p_type.to_le_bytes());
    b[4..8].copy_from_slice(&flags.to_le_bytes());
    b[8..16].copy_from_slice(&offset.to_le_bytes());
    b[16..24].copy_from_slice(&vaddr.to_le_bytes());
    b[32..40].copy_from_slice(&filesz.to_le_bytes());
    b[40..48].copy_from_slice(&memsz.to_le_bytes());
    b
}

#[test]
fn numbers_are_read_low_byte_first() {
    let b = [0x01u8, 0x02, 0x03, 0x04, 0x05, 0x06, 0x07, 0x08, 0x09];
    assert_eq!(read_u16_le(&b, 0), 0x0201);
    assert_eq!(read_u16_le(&b, 7), 0x0908);
    assert_eq!(read_u32_le(&b, 1), 0x0504_0302);
    assert_eq!(read_u64_le(&b, 0), 0x0807_0605_0403_0201);
    assert_eq!(read_u64_le(&[0xff; 8], 0), u64::MAX);
}

#[test]
fn short_image_is_refused() {
    assert_eq!(ElfHeader::parse(&[]), Err(ElfError::TooShort));
    assert_eq!(ElfHeader::parse(&header(0, 64, 56, 0)[..63]), Err(ElfError::TooShort));
    assert_eq!(validate(&[0x7f, b'E', b'L', b'F']), Err(ElfError::TooShort));
}

#[test]
fn wrong_magic_is_refused() {
    let mut b = header(0x1000, 64, 56, 0);
    b[1] = b'X';
    assert_eq!(ElfHeader::parse(&b), Err(ElfError::BadMagic));
    assert_eq!(ElfHeader::parse(&[0u8; 64]), Err(ElfError::BadMagic));
}

#[test]
fn other_classes_are_refused() {
    let mut b = header(0x1000, 64, 56, 0);
    b[4] = 1;
    assert_eq!(ElfHeader::parse(&b), Err(ElfError::Unsupported));
    let mut b = header(0x1000, 64, 56, 0);
    b[5] = 2;
    assert_eq!(ElfHeader::parse(&b), Err(ElfError::Unsupported));
}

#[test]
fn program_table_must_fit() {
    assert_eq!(ElfHeader::parse(&header(0x1000, 64, 32, 0)), Err(ElfError::BadProgramTable));
    assert_eq!(ElfHeader::parse(&header(0x1000, 64, 56, 1)), Err(ElfError::BadProgramTable));
    assert_eq!(ElfHeader::parse(&header(0x1000, u64::MAX, 56, 1)), Err(ElfError::BadProgramTable));
    let mut b = header(0x1000, 64, 56, 1);
    b.extend(program_header(0, 0, 0, 0, 0, 0));
    assert_eq!(ElfHeader::parse(&b), Ok(ElfHeader { entry: 0x1000, phoff: 64, phnum: 1 }));
}

#[test]
fn header_fields_are_read() {
    let mut b = header(0x10_0000, 64, 56, 2);
    b.extend(program_header(PT_LOAD, PF_R | PF_X, 176, 0x10_0000, 4, 0x2000));
    b.extend(program_header(6, PF_R, 1, 2, 3, 4));
    b.extend([1, 2, 3, 4]);
    let h = validate(&b).unwrap();
    assert_eq!(h, ElfHeader { entry: 0x10_0000, phoff: 64, phnum: 2 });
    let first = ProgramHeader::parse(&b, &h, 0);
    assert_eq!(
        first,
        ProgramHeader {
            p_type: 1,
            flags: 5,
            offset: 176,
            vaddr: 0x10_0000,
            filesz: 4,
            memsz: 0x2000
        }
    );
    assert!(first.is_load());
    assert!(first.in_bounds(b.len()));
    let second = ProgramHeader::parse(&b, &h, 1);
    assert_eq!(second.p_type, 6);
    assert!(!second.is_load());
}

#[test]
fn segments_out_of_bounds_are_refused() {
    // File bytes beyond the image.
    let mut b = header(0, 64, 56, 1);
    b.extend(program_header(PT_LOAD, PF_R, 120, 0x1000, 1, 0x1000));
    assert_eq!(validate(&b), Err(ElfError::BadSegment));
    // More file bytes than size.
    let mut b = header(0, 64, 56, 1);
    b.extend(program_header(PT_LOAD, PF_R, 64, 0x1000, 8, 4));
    assert_eq!(validate(&b), Err(ElfError::BadSegment));
    // Not at a page boundary.
    let mut b = header(0, 64, 56, 1);
    b.extend(program_header(PT_LOAD, PF_R, 64, 0x1008, 8, 8));
    assert_eq!(validate(&b), Err(ElfError::BadSegment));
    // Beyond the space for programs.
    let mut b = header(0, 64, 56, 1);
    b.extend(program_header(PT_LOAD, PF_W, 64, 0x40_0000_0000, 0, 1));
    assert_eq!(validate(&b), Err(ElfError::BadSegment));
    // The same header, not to be loaded, is no fault.
    let mut b = header(0, 64, 56, 1);
    b.extend(program_header(2, PF_W, 64, 0x40_0000_0000, 0, 1));
    assert!(validate(&b).is_ok());
    // A segment that ends exactly at the end of the space is in bounds.
    let mut b = header(0, 64, 56, 1);
    b.extend(program_header(PT_LOAD, PF_W, 64, 0x40_0000_0000 - 0x1000, 0, 0x1000));
    assert!(validate(&b).is_ok());
}
