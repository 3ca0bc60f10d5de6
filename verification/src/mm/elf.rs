//! Reading the headers of a 64-bit little-endian executable image.
//!
//! An image starts with a file header of 64 bytes, which names the entry
//! address and the table of program headers. A program header is 56 bytes;
//! one of type load describes a segment: bytes of the file that belong at a
//! virtual address, followed by zeros up to the size of the segment.

use vstd::prelude::*;
use crate::config::{PAGE_SIZE, USER_SPACE_END};

verus! {

/// Bytes in the file header.
pub const HEADER_SIZE: usize = 64;

/// Bytes in one program header.
pub const PROGRAM_HEADER_SIZE: usize = 56;

/// The type of a program header that describes a segment to load.
pub const PT_LOAD: u32 = 1;

/// Segment may be executed.
pub const PF_X: u32 = 1;

/// Segment may be written.
pub const PF_W: u32 = 2;

/// Segment may be read.
pub const PF_R: u32 = 4;

/// Why an image was refused.
#[derive(Clone, Copy, Debug, PartialEq, Eq, Structural)]
pub enum ElfError {
    /// The image is shorter than a file header.
    TooShort,
    /// The image does not start with the four magic bytes.
    BadMagic,
    /// The image is not 64-bit or not little-endian.
    Unsupported,
    /// The program headers are not 56 bytes each, or their table does not
    /// lie within the image.
    BadProgramTable,
    /// A segment to load is out of bounds: its file bytes do not lie within
    /// the image, it has more file bytes than size, it does not start at a
    /// page boundary, or it does not end within the space for programs.
    BadSegment,
}

/// What the loader reads of the file header.
#[derive(Clone, Copy, Debug, PartialEq, Eq, Structural)]
pub struct ElfHeader {
    /// Address of the first instruction.
    pub entry: u64,
    /// Offset of the table of program headers in the image.
    pub phoff: u64,
    /// Number of program headers.
    pub phnum: u16,
}

/// What the loader reads of a program header.
#[derive(Clone, Copy, Debug, PartialEq, Eq, Structural)]
pub struct ProgramHeader {
    pub p_type: u32,
    pub flags: u32,
    pub offset: u64,
    pub vaddr: u64,
    pub filesz: u64,
    pub memsz: u64,
}

/// The number that the 2 bytes of `bytes` at `at` hold, low byte first.
pub open spec fn spec_u16_le(bytes: Seq<u8>, at: int) -> int {
    bytes[at] + bytes[at + 1] * 0x100
}

/// The number that the 4 bytes of `bytes` at `at` hold, low byte first.
pub open spec fn spec_u32_le(bytes: Seq<u8>, at: int) -> int {
    spec_u16_le(bytes, at) + spec_u16_le(bytes, at + 2) * 0x1_0000
}

/// The number that the 8 bytes of `bytes` at `at` hold, low byte first.
pub open spec fn spec_u64_le(bytes: Seq<u8>, at: int) -> int {
    spec_u32_le(bytes, at) + spec_u32_le(bytes, at + 4) * 0x1_0000_0000
}

/// Reads 2 bytes as a number, low byte first.
pub fn read_u16_le(bytes: &[u8], at: usize) -> (r: u16)
    requires
        at + 2 <= bytes@.len(),
    ensures
        r == spec_u16_le(bytes@, at as int),
{
    let _ = bytes.len();
    (bytes[at] as u16) + (bytes[at + 1] as u16) * 0x100
}

/// Reads 4 bytes as a number, low byte first.
pub fn read_u32_le(bytes: &[u8], at: usize) -> (r: u32)
    requires
        at + 4 <= bytes@.len(),
    ensures
        r == spec_u32_le(bytes@, at as int),
{
    let _ = bytes.len();
    let low: u32 = read_u16_le(bytes, at) as u32;
    let high: u32 = read_u16_le(bytes, at + 2) as u32;
    low + high * 0x1_0000
}

/// Reads 8 bytes as a number, low byte first.
pub fn read_u64_le(bytes: &[u8], at: usize) -> (r: u64)
    requires
        at + 8 <= bytes@.len(),
    ensures
        r == spec_u64_le(bytes@, at as int),
{
    let _ = bytes.len();
    let low: u64 = read_u32_le(bytes, at) as u64;
    let high: u64 = read_u32_le(bytes, at + 4) as u64;
    low + high * 0x1_0000_0000
}

impl ElfHeader {
    /// What `parse` makes of an image.
    pub open spec fn spec_parse(bytes: Seq<u8>) -> Result<ElfHeader, ElfError> {
        if bytes.len() < HEADER_SIZE {
            Err(ElfError::TooShort)
        } else if !(bytes[0] == 0x7f && bytes[1] == 0x45 && bytes[2] == 0x4c && bytes[3] == 0x46) {
            Err(ElfError::BadMagic)
        } else if !(bytes[4] == 2 && bytes[5] == 1) {
            Err(ElfError::Unsupported)
        } else if spec_u16_le(bytes, 54) != PROGRAM_HEADER_SIZE || spec_u64_le(bytes, 32)
            + spec_u16_le(bytes, 56) * PROGRAM_HEADER_SIZE > bytes.len() {
            Err(ElfError::BadProgramTable)
        } else {
            Ok(
                ElfHeader {
                    entry: spec_u64_le(bytes, 24) as u64,
                    phoff: spec_u64_le(bytes, 32) as u64,
                    phnum: spec_u16_le(bytes, 56) as u16,
                },
            )
        }
    }

    /// Reads and checks the file header of an image.
    pub fn parse(bytes: &[u8]) -> (r: Result<ElfHeader, ElfError>)
        ensures
            r == ElfHeader::spec_parse(bytes@),
    {
        if bytes.len() < HEADER_SIZE {
            return Err(ElfError::TooShort);
        }
        if !(bytes[0] == 0x7f && bytes[1] == 0x45 && bytes[2] == 0x4c && bytes[3] == 0x46) {
            return Err(ElfError::BadMagic);
        }
        if !(bytes[4] == 2 && bytes[5] == 1) {
            return Err(ElfError::Unsupported);
        }
        let entry = read_u64_le(bytes, 24);
        let phoff = read_u64_le(bytes, 32);
        let phentsize = read_u16_le(bytes, 54);
        let phnum = read_u16_le(bytes, 56);
        if phentsize != 56 {
            return Err(ElfError::BadProgramTable);
        }
        let table: u64 = (phnum as u64) * 56;
        let len = bytes.len() as u64;
        if table > len || phoff > len - table {
            return Err(ElfError::BadProgramTable);
        }
        Ok(ElfHeader { entry, phoff, phnum })
    }

    /// The table of program headers lies within an image of `len` bytes.
    pub open spec fn table_within(&self, len: int) -> bool {
        self.phoff + self.phnum * PROGRAM_HEADER_SIZE <= len
    }
}

impl ProgramHeader {
    /// The program header that starts at `at`.
    pub open spec fn spec_at(bytes: Seq<u8>, at: int) -> ProgramHeader {
        ProgramHeader {
            p_type: spec_u32_le(bytes, at) as u32,
            flags: spec_u32_le(bytes, at + 4) as u32,
            offset: spec_u64_le(bytes, at + 8) as u64,
            vaddr: spec_u64_le(bytes, at + 16) as u64,
            filesz: spec_u64_le(bytes, at + 32) as u64,
            memsz: spec_u64_le(bytes, at + 40) as u64,
        }
    }

    /// Program header `index` of the image with the file header `header`.
    pub open spec fn spec_parse(bytes: Seq<u8>, header: ElfHeader, index: int) -> ProgramHeader {
        ProgramHeader::spec_at(bytes, header.phoff + index * PROGRAM_HEADER_SIZE)
    }

    /// Reads program header `index`.
    pub fn parse(bytes: &[u8], header: &ElfHeader, index: u16) -> (r: ProgramHeader)
        requires
            header.table_within(bytes@.len() as int),
            index < header.phnum,
        ensures
            r == ProgramHeader::spec_parse(bytes@, *header, index as int),
    {
        let _ = bytes.len();
        assert(header.phoff + index * 56 + 56 <= bytes@.len());
        let at: usize = (header.phoff + (index as u64) * 56) as usize;
        ProgramHeader {
            p_type: read_u32_le(bytes, at),
            flags: read_u32_le(bytes, at + 4),
            offset: read_u64_le(bytes, at + 8),
            vaddr: read_u64_le(bytes, at + 16),
            filesz: read_u64_le(bytes, at + 32),
            memsz: read_u64_le(bytes, at + 40),
        }
    }

    /// The header describes a segment to load.
    pub open spec fn spec_is_load(&self) -> bool {
        self.p_type == PT_LOAD
    }

    /// The segment is within bounds: its file bytes lie within an image of
    /// `len` bytes, it has no more file bytes than size, it starts at a
    /// page boundary, and it ends within the space for programs.
    pub open spec fn spec_in_bounds(&self, len: int) -> bool {
        &&& self.offset + self.filesz <= len
        &&& self.filesz <= self.memsz
        &&& self.vaddr % PAGE_SIZE == 0
        &&& self.vaddr + self.memsz <= USER_SPACE_END
    }

    /// The header describes a segment to load.
    #[verifier::when_used_as_spec(spec_is_load)]
    pub fn is_load(&self) -> (r: bool)
        ensures
            r == self.spec_is_load(),
    {
        self.p_type == PT_LOAD
    }

    /// Whether the segment is within the bounds of an image of `len`
    /// bytes.
    pub fn in_bounds(&self, len: usize) -> (r: bool)
        ensures
            r == self.spec_in_bounds(len as int),
    {
        let len = len as u64;
        self.filesz <= len && self.offset <= len - self.filesz && self.filesz <= self.memsz
            && self.vaddr % PAGE_SIZE == 0 && self.memsz <= USER_SPACE_END && self.vaddr
            <= USER_SPACE_END - self.memsz
    }
}

/// Every segment to load among the first `n` program headers is within
/// bounds.
pub open spec fn segments_in_bounds(bytes: Seq<u8>, header: ElfHeader, n: int) -> bool {
    forall|i: int|
        0 <= i < n ==> (#[trigger] ProgramHeader::spec_parse(bytes, header, i)).spec_is_load()
            ==> ProgramHeader::spec_parse(bytes, header, i).spec_in_bounds(bytes.len() as int)
}

/// The segments to load among the first `n` program headers, in the order
/// of the table.
pub open spec fn load_segments(bytes: Seq<u8>, header: ElfHeader, n: int) -> Seq<ProgramHeader>
    decreases n,
{
    if n <= 0 {
        Seq::empty()
    } else {
        let rest = load_segments(bytes, header, n - 1);
        let last = ProgramHeader::spec_parse(bytes, header, n - 1);
        if last.spec_is_load() {
            rest.push(last)
        } else {
            rest
        }
    }
}

/// What `validate` makes of an image: the file header, if it and every
/// segment to load are in order, else the first thing that is wrong.
pub open spec fn spec_validate(bytes: Seq<u8>) -> Result<ElfHeader, ElfError> {
    match ElfHeader::spec_parse(bytes) {
        Ok(header) => if segments_in_bounds(bytes, header, header.phnum as int) {
            Ok(header)
        } else {
            Err(ElfError::BadSegment)
        },
        Err(e) => Err(e),
    }
}

/// Reads the file header of an image and checks it and every segment to
/// load.
#[verifier::loop_isolation(false)]
pub fn validate(bytes: &[u8]) -> (r: Result<ElfHeader, ElfError>)
    ensures
        r == spec_validate(bytes@),
        r matches Ok(header) ==> header.table_within(bytes@.len() as int),
{
    let header = match ElfHeader::parse(bytes) {
        Ok(header) => header,
        Err(e) => {
            return Err(e);
        },
    };
    let mut i: u16 = 0;
    while i < header.phnum
        invariant
            i <= header.phnum,
            header.table_within(bytes@.len() as int),
            segments_in_bounds(bytes@, header, i as int),
        decreases header.phnum - i,
    {
        let ph = ProgramHeader::parse(bytes, &header, i);
        if ph.is_load() && !ph.in_bounds(bytes.len()) {
            proof {
                let bad = ProgramHeader::spec_parse(bytes@, header, i as int);
                assert(bad.spec_is_load() && !bad.spec_in_bounds(bytes@.len() as int));
            }
            return Err(ElfError::BadSegment);
        }
        i = i + 1;
    }
    Ok(header)
}

} // verus!
