//! Reading 64-bit little-endian ELF files: the file header, the program
//! and section header tables, and the bytes of a segment.
use vstd::prelude::*;
use crate::le::{le16, le16_at, le32, le32_at, le64, le64_at, le_value, lemma_le16_value, lemma_le32_value, lemma_le64_value};

verus! {

/// The machine number of RISC-V.
pub const MACHINE_RISCV: u16 = 243;
/// The file uses compressed instructions.
pub const FLAG_RISCV_RVC: u32 = 0x0001;
/// Floats are passed in integer registers.
pub const FLAG_RISCV_FLOAT_ABI_SOFT: u32 = 0x0000;
/// Single precision floats are passed in float registers.
pub const FLAG_RISCV_FLOAT_ABI_SINGLE: u32 = 0x0002;
/// Double precision floats are passed in float registers.
pub const FLAG_RISCV_FLOAT_ABI_DOUBLE: u32 = 0x0004;
/// Quad precision floats are passed in float registers.
pub const FLAG_RISCV_FLOAT_ABI_QUAD: u32 = 0x0006;
/// The bits of the float ABI.
pub const FLAG_RISCV_FLOAT_ABI_MASK: u32 = 0x0006;
/// The file targets the embedded base.
pub const FLAG_RISCV_RVE: u32 = 0x0008;
/// The file needs total store ordering.
pub const FLAG_RISCV_TSO: u32 = 0x0010;

/// The size of the file header.
pub const HEADER_SIZE: usize = 64;
/// The size of a program header.
pub const PROGRAM_HEADER_SIZE: usize = 56;
/// The size of a section header.
pub const SECTION_HEADER_SIZE: usize = 64;

/// The identification bytes at the start of the file.
#[derive(Debug, Clone, Copy)]
pub struct Identification {
    /// The bytes `0x7F`, `E`, `L`, `F`.
    pub magic: [u8; 4],
    pub class: u8,
    pub data: u8,
    pub version: u8,
    pub os_abi: u8,
    pub abi_version: u8,
}

/// The file header.
#[derive(Debug, Clone, Copy)]
pub struct Header {
    pub ident: Identification,
    pub object_type: u16,
    pub machine: u16,
    pub version: u32,
    pub entry: u64,
    pub ph_offset: u64,
    pub sh_offset: u64,
    pub flags: u32,
    pub eh_size: u16,
    pub ph_entry_size: u16,
    pub ph_count: u16,
    pub sh_entry_size: u16,
    pub sh_count: u16,
    pub sh_string_index: u16,
}

/// A program header: where a segment lies in the file and in memory.
#[derive(Debug, Clone, Copy)]
pub struct ProgramHeader {
    pub segment_type: u32,
    pub flags: u32,
    pub offset: u64,
    pub vaddr: u64,
    pub paddr: u64,
    pub file_size: u64,
    pub memory_size: u64,
    pub align: u64,
}

/// A section header.
#[derive(Debug, Clone, Copy)]
pub struct SectionHeader {
    /// Offset in bytes into the section name string table.
    pub name: u32,
    pub section_type: u32,
    pub flags: u64,
    /// Virtual address of the section, zero if it is not loaded.
    pub addr: u64,
    /// Offset in bytes of the section's contents.
    pub offset: u64,
    /// Size of the section in bytes.
    pub size: u64,
    pub link: u32,
    pub info: u32,
    pub addr_align: u64,
    /// Size of each entry where entries have a fixed size, else zero.
    pub entry_size: u64,
}

/// An entry of a symbol table.
#[derive(Debug, Clone, Copy)]
pub struct SymbolTableEntry {
    pub name: u32,
    pub info: u8,
    pub reserved: u8,
    pub section_table_index: u16,
    pub value: u64,
    pub size: u64,
}

/// Whether `s` starts with the ELF magic bytes and holds a whole header.
pub open spec fn is_elf(s: Seq<u8>) -> bool {
    &&& s.len() >= 64
    &&& s[0] == 0x7F
    &&& s[1] == 0x45
    &&& s[2] == 0x4C
    &&& s[3] == 0x46
}

/// The header whose bytes begin `s`.
pub open spec fn header_of(s: Seq<u8>) -> Header {
    Header {
        ident: Identification {
            magic: [0x7F, 0x45, 0x4C, 0x46],
            class: s[4],
            data: s[5],
            version: s[6],
            os_abi: s[7],
            abi_version: s[8],
        },
        object_type: le16(s, 16) as u16,
        machine: le16(s, 18) as u16,
        version: le32(s, 20) as u32,
        entry: le64(s, 24) as u64,
        ph_offset: le64(s, 32) as u64,
        sh_offset: le64(s, 40) as u64,
        flags: le32(s, 48) as u32,
        eh_size: le16(s, 52) as u16,
        ph_entry_size: le16(s, 54) as u16,
        ph_count: le16(s, 56) as u16,
        sh_entry_size: le16(s, 58) as u16,
        sh_count: le16(s, 60) as u16,
        sh_string_index: le16(s, 62) as u16,
    }
}

/// The program header whose bytes are at `at` in `s`.
pub open spec fn program_header_of(s: Seq<u8>, at: int) -> ProgramHeader {
    ProgramHeader {
        segment_type: le32(s, at) as u32,
        flags: le32(s, at + 4) as u32,
        offset: le64(s, at + 8) as u64,
        vaddr: le64(s, at + 16) as u64,
        paddr: le64(s, at + 24) as u64,
        file_size: le64(s, at + 32) as u64,
        memory_size: le64(s, at + 40) as u64,
        align: le64(s, at + 48) as u64,
    }
}

/// The section header whose bytes are at `at` in `s`.
pub open spec fn section_header_of(s: Seq<u8>, at: int) -> SectionHeader {
    SectionHeader {
        name: le32(s, at) as u32,
        section_type: le32(s, at + 4) as u32,
        flags: le64(s, at + 8) as u64,
        addr: le64(s, at + 16) as u64,
        offset: le64(s, at + 24) as u64,
        size: le64(s, at + 32) as u64,
        link: le32(s, at + 40) as u32,
        info: le32(s, at + 44) as u32,
        addr_align: le64(s, at + 48) as u64,
        entry_size: le64(s, at + 56) as u64,
    }
}

/// An ELF file: its bytes and its header.
#[derive(Debug, Clone, Copy)]
pub struct Elf<'a> {
    data: &'a [u8],
    pub header: Header,
}

impl<'a> Elf<'a> {
    /// The bytes of the file.
    pub closed spec fn bytes(&self) -> Seq<u8> {
        self.data@
    }

    /// The file's header.
    pub closed spec fn file_header(&self) -> Header {
        self.header
    }

    /// The file in `data`, if it starts with the ELF magic bytes and holds a
    /// whole header.
    pub fn new(data: &'a [u8]) -> (r: Option<Self>)
        ensures
            r.is_some() == is_elf(data@),
            r.is_some() ==> r.unwrap().bytes() == data@ && r.unwrap().file_header() == header_of(data@),
    {
        if data.len() < HEADER_SIZE {
            return None;
        }
        if !(data[0] == 0x7F && data[1] == 0x45 && data[2] == 0x4C && data[3] == 0x46) {
            return None;
        }
        let ident = Identification {
            magic: [0x7F, 0x45, 0x4C, 0x46],
            class: data[4],
            data: data[5],
            version: data[6],
            os_abi: data[7],
            abi_version: data[8],
        };
        let header = Header {
            ident,
            object_type: le16_at(data, 16),
            machine: le16_at(data, 18),
            version: le32_at(data, 20),
            entry: le64_at(data, 24),
            ph_offset: le64_at(data, 32),
            sh_offset: le64_at(data, 40),
            flags: le32_at(data, 48),
            eh_size: le16_at(data, 52),
            ph_entry_size: le16_at(data, 54),
            ph_count: le16_at(data, 56),
            sh_entry_size: le16_at(data, 58),
            sh_count: le16_at(data, 60),
            sh_string_index: le16_at(data, 62),
        };
        Some(Elf { data, header })
    }

    /// The program headers, as many as the header counts, read from the
    /// table at the header's offset.
    pub fn program_headers(&self) -> (r: Vec<ProgramHeader>)
        requires
            self.file_header().ph_offset + self.file_header().ph_count * 56 <= self.bytes().len(),
        ensures
            r@.len() == self.file_header().ph_count,
            forall|i: int|
                0 <= i < r@.len() ==> #[trigger] r@[i] == program_header_of(
                    self.bytes(),
                    self.file_header().ph_offset + i * 56,
                ),
    {
        let _n = self.data.len();
        let start = self.header.ph_offset as usize;
        let count = self.header.ph_count as usize;
        let mut r: Vec<ProgramHeader> = Vec::new();
        let mut i: usize = 0;
        while i < count
            invariant
                _n == self.bytes().len(),
                start == self.header.ph_offset,
                count == self.header.ph_count,
                start + count * 56 <= self.bytes().len(),
                i <= count,
                r@.len() == i,
                forall|j: int|
                    0 <= j < i ==> #[trigger] r@[j] == program_header_of(self.bytes(), start + j * 56),
            decreases count - i,
        {
            proof {
                assert(start + i * 56 + 56 <= start + count * 56) by (nonlinear_arith)
                    requires
                        i < count,
                ;
            }
            let at = start + i * PROGRAM_HEADER_SIZE;
            let d = self.data;
            let ph = ProgramHeader {
                segment_type: le32_at(d, at),
                flags: le32_at(d, at + 4),
                offset: le64_at(d, at + 8),
                vaddr: le64_at(d, at + 16),
                paddr: le64_at(d, at + 24),
                file_size: le64_at(d, at + 32),
                memory_size: le64_at(d, at + 40),
                align: le64_at(d, at + 48),
            };
            r.push(ph);
            i = i + 1;
        }
        r
    }

    /// The section headers, as many as the header counts, read from the
    /// table at the header's offset.
    pub fn section_headers(&self) -> (r: Vec<SectionHeader>)
        requires
            self.file_header().sh_offset + self.file_header().sh_count * 64 <= self.bytes().len(),
        ensures
            r@.len() == self.file_header().sh_count,
            forall|i: int|
                0 <= i < r@.len() ==> #[trigger] r@[i] == section_header_of(
                    self.bytes(),
                    self.file_header().sh_offset + i * 64,
                ),
    {
        let _n = self.data.len();
        let start = self.header.sh_offset as usize;
        let count = self.header.sh_count as usize;
        let mut r: Vec<SectionHeader> = Vec::new();
        let mut i: usize = 0;
        while i < count
            invariant
                _n == self.bytes().len(),
                start == self.header.sh_offset,
                count == self.header.sh_count,
                start + count * 64 <= self.bytes().len(),
                i <= count,
                r@.len() == i,
                forall|j: int|
                    0 <= j < i ==> #[trigger] r@[j] == section_header_of(self.bytes(), start + j * 64),
            decreases count - i,
        {
            proof {
                assert(start + i * 64 + 64 <= start + count * 64) by (nonlinear_arith)
                    requires
                        i < count,
                ;
            }
            let at = start + i * SECTION_HEADER_SIZE;
            let d = self.data;
            let sh = SectionHeader {
                name: le32_at(d, at),
                section_type: le32_at(d, at + 4),
                flags: le64_at(d, at + 8),
                addr: le64_at(d, at + 16),
                offset: le64_at(d, at + 24),
                size: le64_at(d, at + 32),
                link: le32_at(d, at + 40),
                info: le32_at(d, at + 44),
                addr_align: le64_at(d, at + 48),
                entry_size: le64_at(d, at + 56),
            };
            r.push(sh);
            i = i + 1;
        }
        r
    }

    /// The bytes of the segment that `header` describes in the file.
    pub fn program_segment_data(&self, header: &ProgramHeader) -> (r: &[u8])
        requires
            header.offset + header.file_size <= self.bytes().len(),
        ensures
            r@ == self.bytes().subrange(header.offset as int, header.offset + header.file_size),
    {
        let _n = self.data.len();
        let start = header.offset as usize;
        let end = start + header.file_size as usize;
        vstd::slice::slice_subrange(self.data, start, end)
    }
}

/// The word size of the file.
#[derive(Debug, Clone, Copy, PartialEq, Eq, Structural)]
pub enum Class {
    ElfClass32,
    ElfClass64,
}

impl Class {
    /// The number that stands for this value in the file.
    pub open spec fn number(self) -> u8 {
        match self {
            Class::ElfClass32 => 0x1,
            Class::ElfClass64 => 0x2,
        }
    }

    /// The number that stands for this value in the file.
    pub fn value(self) -> (r: u8)
        ensures
            r == self.number(),
    {
        match self {
            Class::ElfClass32 => 0x1,
            Class::ElfClass64 => 0x2,
        }
    }
}

/// The byte order of the file.
#[derive(Debug, Clone, Copy, PartialEq, Eq, Structural)]
pub enum DataEncoding {
    ElfData2Lsb,
    ElfData2Msb,
}

impl DataEncoding {
    /// The number that stands for this value in the file.
    pub open spec fn number(self) -> u8 {
        match self {
            DataEncoding::ElfData2Lsb => 0x1,
            DataEncoding::ElfData2Msb => 0x2,
        }
    }

    /// The number that stands for this value in the file.
    pub fn value(self) -> (r: u8)
        ensures
            r == self.number(),
    {
        match self {
            DataEncoding::ElfData2Lsb => 0x1,
            DataEncoding::ElfData2Msb => 0x2,
        }
    }
}

/// The kind of object file.
#[derive(Debug, Clone, Copy, PartialEq, Eq, Structural)]
pub enum ObjectFileType {
    None_,
    Relocatable,
    Executable,
    SharedObject,
    Core,
    LoOs,
    HiOs,
    LoProc,
    HiProc,
}

impl ObjectFileType {
    /// The number that stands for this value in the file.
    pub open spec fn number(self) -> u16 {
        match self {
            ObjectFileType::None_ => 0x0,
            ObjectFileType::Relocatable => 0x1,
            ObjectFileType::Executable => 0x2,
            ObjectFileType::SharedObject => 0x3,
            ObjectFileType::Core => 0x4,
            ObjectFileType::LoOs => 0xfe00,
            ObjectFileType::HiOs => 0xfeff,
            ObjectFileType::LoProc => 0xff00,
            ObjectFileType::HiProc => 0xffff,
        }
    }

    /// The number that stands for this value in the file.
    pub fn value(self) -> (r: u16)
        ensures
            r == self.number(),
    {
        match self {
            ObjectFileType::None_ => 0x0,
            ObjectFileType::Relocatable => 0x1,
            ObjectFileType::Executable => 0x2,
            ObjectFileType::SharedObject => 0x3,
            ObjectFileType::Core => 0x4,
            ObjectFileType::LoOs => 0xfe00,
            ObjectFileType::HiOs => 0xfeff,
            ObjectFileType::LoProc => 0xff00,
            ObjectFileType::HiProc => 0xffff,
        }
    }
}

/// The kinds of section.
#[derive(Debug, Clone, Copy, PartialEq, Eq, Structural)]
pub enum SectionType {
    Null,
    ProgBits,
    SymbolTable,
    StringTable,
    Rela,
    SymbolHashTable,
    Dynamic,
    Note,
    NoBits,
    Rel,
    ShLib,
    DynamicSymbolTable,
    LoOs,
    HiOs,
    LoProc,
    HiProc,
}

impl SectionType {
    /// The number that stands for this value in the file.
    pub open spec fn number(self) -> u32 {
        match self {
            SectionType::Null => 0x0,
            SectionType::ProgBits => 0x1,
            SectionType::SymbolTable => 0x2,
            SectionType::StringTable => 0x3,
            SectionType::Rela => 0x4,
            SectionType::SymbolHashTable => 0x5,
            SectionType::Dynamic => 0x6,
            SectionType::Note => 0x7,
            SectionType::NoBits => 0x8,
            SectionType::Rel => 0x9,
            SectionType::ShLib => 0xa,
            SectionType::DynamicSymbolTable => 0xb,
            SectionType::LoOs => 0x60000000,
            SectionType::HiOs => 0x6fffffff,
            SectionType::LoProc => 0x70000000,
            SectionType::HiProc => 0x7fffffff,
        }
    }

    /// The number that stands for this value in the file.
    pub fn value(self) -> (r: u32)
        ensures
            r == self.number(),
    {
        match self {
            SectionType::Null => 0x0,
            SectionType::ProgBits => 0x1,
            SectionType::SymbolTable => 0x2,
            SectionType::StringTable => 0x3,
            SectionType::Rela => 0x4,
            SectionType::SymbolHashTable => 0x5,
            SectionType::Dynamic => 0x6,
            SectionType::Note => 0x7,
            SectionType::NoBits => 0x8,
            SectionType::Rel => 0x9,
            SectionType::ShLib => 0xa,
            SectionType::DynamicSymbolTable => 0xb,
            SectionType::LoOs => 0x60000000,
            SectionType::HiOs => 0x6fffffff,
            SectionType::LoProc => 0x70000000,
            SectionType::HiProc => 0x7fffffff,
        }
    }
}

/// The attribute bits of a section.
#[derive(Debug, Clone, Copy, PartialEq, Eq, Structural)]
pub enum SectionFlags {
    Write,
    Alloc,
    ExecInstr,
    MaskOs,
    MaskProc,
}

impl SectionFlags {
    /// The number that stands for this value in the file.
    pub open spec fn number(self) -> u32 {
        match self {
            SectionFlags::Write => 0x1,
            SectionFlags::Alloc => 0x2,
            SectionFlags::ExecInstr => 0x4,
            SectionFlags::MaskOs => 0xf000000,
            SectionFlags::MaskProc => 0xf0000000,
        }
    }

    /// The number that stands for this value in the file.
    pub fn value(self) -> (r: u32)
        ensures
            r == self.number(),
    {
        match self {
            SectionFlags::Write => 0x1,
            SectionFlags::Alloc => 0x2,
            SectionFlags::ExecInstr => 0x4,
            SectionFlags::MaskOs => 0xf000000,
            SectionFlags::MaskProc => 0xf0000000,
        }
    }
}

/// The kinds of program segment.
#[derive(Debug, Clone, Copy, PartialEq, Eq, Structural)]
pub enum ProgramSegmentType {
    Null,
    Load,
    Dynamic,
    Interpreter,
    Note,
    ShLib,
    ProgramHeaderTable,
    LoOs,
    HiOs,
    LoProc,
    HiProc,
}

impl ProgramSegmentType {
    /// The number that stands for this value in the file.
    pub open spec fn number(self) -> u32 {
        match self {
            ProgramSegmentType::Null => 0x0,
            ProgramSegmentType::Load => 0x1,
            ProgramSegmentType::Dynamic => 0x2,
            ProgramSegmentType::Interpreter => 0x3,
            ProgramSegmentType::Note => 0x4,
            ProgramSegmentType::ShLib => 0x5,
            ProgramSegmentType::ProgramHeaderTable => 0x6,
            ProgramSegmentType::LoOs => 0x60000000,
            ProgramSegmentType::HiOs => 0x6fffffff,
            ProgramSegmentType::LoProc => 0x70000000,
            ProgramSegmentType::HiProc => 0x7fffffff,
        }
    }

    /// The number that stands for this value in the file.
    pub fn value(self) -> (r: u32)
        ensures
            r == self.number(),
    {
        match self {
            ProgramSegmentType::Null => 0x0,
            ProgramSegmentType::Load => 0x1,
            ProgramSegmentType::Dynamic => 0x2,
            ProgramSegmentType::Interpreter => 0x3,
            ProgramSegmentType::Note => 0x4,
            ProgramSegmentType::ShLib => 0x5,
            ProgramSegmentType::ProgramHeaderTable => 0x6,
            ProgramSegmentType::LoOs => 0x60000000,
            ProgramSegmentType::HiOs => 0x6fffffff,
            ProgramSegmentType::LoProc => 0x70000000,
            ProgramSegmentType::HiProc => 0x7fffffff,
        }
    }
}

/// The permission bits of a program segment.
#[derive(Debug, Clone, Copy, PartialEq, Eq, Structural)]
pub enum ProgramSegmentFlags {
    Executable,
    Writeable,
    Readable,
    MaskOs,
    MaskProc,
}

impl ProgramSegmentFlags {
    /// The number that stands for this value in the file.
    pub open spec fn number(self) -> u32 {
        match self {
            ProgramSegmentFlags::Executable => 0x1,
            ProgramSegmentFlags::Writeable => 0x2,
            ProgramSegmentFlags::Readable => 0x4,
            ProgramSegmentFlags::MaskOs => 0xff0000,
            ProgramSegmentFlags::MaskProc => 0xff000000,
        }
    }

    /// The number that stands for this value in the file.
    pub fn value(self) -> (r: u32)
        ensures
            r == self.number(),
    {
        match self {
            ProgramSegmentFlags::Executable => 0x1,
            ProgramSegmentFlags::Writeable => 0x2,
            ProgramSegmentFlags::Readable => 0x4,
            ProgramSegmentFlags::MaskOs => 0xff0000,
            ProgramSegmentFlags::MaskProc => 0xff000000,
        }
    }
}

impl ProgramSegmentType {
    /// Whether a program header's type field holds this type.
    pub fn matches(self, word: u32) -> (r: bool)
        ensures
            r == (word == self.number()),
    {
        word == self.value()
    }
}

/// Each field of a program header is the little-endian number held in its
/// own bytes of the 56-byte entry at `at`: the type in bytes 0..4, the
/// flags in 4..8, the file offset in 8..16, the virtual address in 16..24,
/// the physical address in 24..32, the size in the file (`p_filesz`) in
/// 32..40, the size in memory (`p_memsz`) in 40..48, and the alignment in
/// 48..56.
pub proof fn lemma_program_header_fields(s: Seq<u8>, at: int)
    requires
        0 <= at,
        at + 56 <= s.len(),
    ensures
        program_header_of(s, at).segment_type == le_value(s.subrange(at, at + 4)),
        program_header_of(s, at).flags == le_value(s.subrange(at + 4, at + 8)),
        program_header_of(s, at).offset == le_value(s.subrange(at + 8, at + 16)),
        program_header_of(s, at).vaddr == le_value(s.subrange(at + 16, at + 24)),
        program_header_of(s, at).paddr == le_value(s.subrange(at + 24, at + 32)),
        program_header_of(s, at).file_size == le_value(s.subrange(at + 32, at + 40)),
        program_header_of(s, at).memory_size == le_value(s.subrange(at + 40, at + 48)),
        program_header_of(s, at).align == le_value(s.subrange(at + 48, at + 56)),
{
    lemma_le32_value(s, at);
    lemma_le32_value(s, at + 4);
    lemma_le64_value(s, at + 8);
    lemma_le64_value(s, at + 16);
    lemma_le64_value(s, at + 24);
    lemma_le64_value(s, at + 32);
    lemma_le64_value(s, at + 40);
    lemma_le64_value(s, at + 48);
}

/// Each field of a section header is the little-endian number held in its
/// own bytes of the 64-byte entry at `at`: the name offset in bytes 0..4,
/// the type in 4..8, the flags in 8..16, the address in 16..24, the file
/// offset in 24..32, the size in 32..40, the link in 40..44, the info in
/// 44..48, the alignment in 48..56 and the entry size in 56..64.
pub proof fn lemma_section_header_fields(s: Seq<u8>, at: int)
    requires
        0 <= at,
        at + 64 <= s.len(),
    ensures
        section_header_of(s, at).name == le_value(s.subrange(at, at + 4)),
        section_header_of(s, at).section_type == le_value(s.subrange(at + 4, at + 8)),
        section_header_of(s, at).flags == le_value(s.subrange(at + 8, at + 16)),
        section_header_of(s, at).addr == le_value(s.subrange(at + 16, at + 24)),
        section_header_of(s, at).offset == le_value(s.subrange(at + 24, at + 32)),
        section_header_of(s, at).size == le_value(s.subrange(at + 32, at + 40)),
        section_header_of(s, at).link == le_value(s.subrange(at + 40, at + 44)),
        section_header_of(s, at).info == le_value(s.subrange(at + 44, at + 48)),
        section_header_of(s, at).addr_align == le_value(s.subrange(at + 48, at + 56)),
        section_header_of(s, at).entry_size == le_value(s.subrange(at + 56, at + 64)),
{
    lemma_le32_value(s, at);
    lemma_le32_value(s, at + 4);
    lemma_le64_value(s, at + 8);
    lemma_le64_value(s, at + 16);
    lemma_le64_value(s, at + 24);
    lemma_le64_value(s, at + 32);
    lemma_le32_value(s, at + 40);
    lemma_le32_value(s, at + 44);
    lemma_le64_value(s, at + 48);
    lemma_le64_value(s, at + 56);
}

/// The `i`th program header that `program_headers` gives is the entry of
/// 56 bytes at the table offset plus `56 * i`, its memory size the
/// little-endian number in bytes 40..48 of that entry and its size in the
/// file the one in bytes 32..40.
pub proof fn lemma_program_header_sizes(e: Elf, r: Seq<ProgramHeader>, i: int)
    requires
        e.file_header().ph_offset + e.file_header().ph_count * 56 <= e.bytes().len(),
        r.len() == e.file_header().ph_count,
        forall|j: int|
            0 <= j < r.len() ==> #[trigger] r[j] == program_header_of(e.bytes(), e.file_header().ph_offset + j * 56),
        0 <= i < r.len(),
    ensures
        ({
            let at = e.file_header().ph_offset + i * 56;
            &&& r[i].memory_size == le_value(e.bytes().subrange(at + 40, at + 48))
            &&& r[i].file_size == le_value(e.bytes().subrange(at + 32, at + 40))
        }),
{
    let at = e.file_header().ph_offset + i * 56;
    assert(at + 56 <= e.bytes().len()) by (nonlinear_arith)
        requires
            at == e.file_header().ph_offset + i * 56,
            0 <= i < e.file_header().ph_count,
            e.file_header().ph_offset + e.file_header().ph_count * 56 <= e.bytes().len(),
    ;
    assert(r[i] == program_header_of(e.bytes(), at));
    lemma_program_header_fields(e.bytes(), at);
}

/// Each field of the file header is what its own bytes of the first 64
/// hold: the identification bytes 4..9, then little-endian numbers: the
/// object type in 16..18, the machine in 18..20, the version in 20..24, the
/// entry point in 24..32, the program header table's offset in 32..40, the
/// section header table's offset in 40..48, the flags in 48..52, the header
/// size in 52..54, and the entry size and count of the program headers in
/// 54..56 and 56..58, of the section headers in 58..60 and 60..62, and the
/// index of the section name table in 62..64.
pub proof fn lemma_header_fields(s: Seq<u8>)
    requires
        s.len() >= 64,
    ensures
        header_of(s).ident.class == s[4],
        header_of(s).ident.data == s[5],
        header_of(s).ident.version == s[6],
        header_of(s).ident.os_abi == s[7],
        header_of(s).ident.abi_version == s[8],
        header_of(s).object_type == le_value(s.subrange(16, 18)),
        header_of(s).machine == le_value(s.subrange(18, 20)),
        header_of(s).version == le_value(s.subrange(20, 24)),
        header_of(s).entry == le_value(s.subrange(24, 32)),
        header_of(s).ph_offset == le_value(s.subrange(32, 40)),
        header_of(s).sh_offset == le_value(s.subrange(40, 48)),
        header_of(s).flags == le_value(s.subrange(48, 52)),
        header_of(s).eh_size == le_value(s.subrange(52, 54)),
        header_of(s).ph_entry_size == le_value(s.subrange(54, 56)),
        header_of(s).ph_count == le_value(s.subrange(56, 58)),
        header_of(s).sh_entry_size == le_value(s.subrange(58, 60)),
        header_of(s).sh_count == le_value(s.subrange(60, 62)),
        header_of(s).sh_string_index == le_value(s.subrange(62, 64)),
{
    lemma_le16_value(s, 16);
    lemma_le16_value(s, 18);
    lemma_le32_value(s, 20);
    lemma_le64_value(s, 24);
    lemma_le64_value(s, 32);
    lemma_le64_value(s, 40);
    lemma_le32_value(s, 48);
    lemma_le16_value(s, 52);
    lemma_le16_value(s, 54);
    lemma_le16_value(s, 56);
    lemma_le16_value(s, 58);
    lemma_le16_value(s, 60);
    lemma_le16_value(s, 62);
}

} // verus!
