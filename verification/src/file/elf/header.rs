//! The header of an ELF file: the signature and the fields, read in the byte
//! order that the file declares.
use vstd::prelude::*;

verus! {

/// The four magic bytes, then a class byte of 1 (32 bit) or 2 (64 bit), then a
/// byte-order byte of 1 (little endian) or 2 (big endian).
pub open spec fn has_elf_signature(bytes: Seq<u8>) -> bool {
    &&& bytes.len() >= 6
    &&& bytes[0] == 0x7f
    &&& bytes[1] == 0x45
    &&& bytes[2] == 0x4c
    &&& bytes[3] == 0x46
    &&& (bytes[4] == 1 || bytes[4] == 2)
    &&& (bytes[5] == 1 || bytes[5] == 2)
}

/// The unsigned 16-bit number at `at`, in the byte order given.
pub open spec fn u16_at(bytes: Seq<u8>, at: int, big: bool) -> u16 {
    if big {
        (bytes[at] * 0x100 + bytes[at + 1]) as u16
    } else {
        (bytes[at] + bytes[at + 1] * 0x100) as u16
    }
}

/// The unsigned 32-bit number at `at`, in the byte order given.
pub open spec fn u32_at(bytes: Seq<u8>, at: int, big: bool) -> u32 {
    if big {
        (u16_at(bytes, at, big) * 0x1_0000 + u16_at(bytes, at + 2, big)) as u32
    } else {
        (u16_at(bytes, at, big) + u16_at(bytes, at + 2, big) * 0x1_0000) as u32
    }
}

/// The unsigned 64-bit number at `at`, in the byte order given.
pub open spec fn u64_at(bytes: Seq<u8>, at: int, big: bool) -> u64 {
    if big {
        (u32_at(bytes, at, big) * 0x1_0000_0000 + u32_at(bytes, at + 4, big)) as u64
    } else {
        (u32_at(bytes, at, big) + u32_at(bytes, at + 4, big) * 0x1_0000_0000) as u64
    }
}

/// The number at `at` that is as wide as an address of the file: 64 bits
/// where `wide` is set, 32 bits otherwise.
pub open spec fn word_at(bytes: Seq<u8>, at: int, big: bool, wide: bool) -> u64 {
    if wide {
        u64_at(bytes, at, big)
    } else {
        u32_at(bytes, at, big) as u64
    }
}

pub(crate) fn read_u16(bytes: &[u8], at: usize, big: bool) -> (value: u16)
    requires
        at + 2 <= bytes.len(),
    ensures
        value == u16_at(bytes@, at as int, big),
{
    let first = bytes[at] as u16;
    let second = bytes[at + 1] as u16;
    if big {
        first * 0x100 + second
    } else {
        first + second * 0x100
    }
}

pub(crate) fn read_u32(bytes: &[u8], at: usize, big: bool) -> (value: u32)
    requires
        at + 4 <= bytes.len(),
    ensures
        value == u32_at(bytes@, at as int, big),
{
    let first = read_u16(bytes, at, big) as u32;
    let second = read_u16(bytes, at + 2, big) as u32;
    if big {
        first * 0x1_0000 + second
    } else {
        first + second * 0x1_0000
    }
}

pub(crate) fn read_u64(bytes: &[u8], at: usize, big: bool) -> (value: u64)
    requires
        at + 8 <= bytes.len(),
    ensures
        value == u64_at(bytes@, at as int, big),
{
    let first = read_u32(bytes, at, big) as u64;
    let second = read_u32(bytes, at + 4, big) as u64;
    if big {
        first * 0x1_0000_0000 + second
    } else {
        first + second * 0x1_0000_0000
    }
}

pub(crate) fn read_word(bytes: &[u8], at: usize, big: bool, wide: bool) -> (value: u64)
    requires
        at + (if wide { 8int } else { 4int }) <= bytes.len(),
    ensures
        value == word_at(bytes@, at as int, big, wide),
{
    if wide {
        read_u64(bytes, at, big)
    } else {
        read_u32(bytes, at, big) as u64
    }
}

/// The header of a 32-bit ELF file.
#[derive(Debug, Clone, Copy, PartialEq, Eq, Structural)]
pub struct ElfHeader32 {
    /// 1: 32 bits.
    pub class: u8,
    /// 1: little endian; 2: big endian.
    pub endianess: u8,
    pub header_version: u8,
    pub abi: u8,
    pub abi_version: u8,
    /// 1: relocatable; 2: executable; 3: shared object; 4: core.
    pub file_type: u16,
    pub machine: u16,
    pub version: u32,
    pub entry_point: u32,
    /// Offset of the program header table.
    pub ph_offset: u32,
    /// Offset of the section header table.
    pub sh_offset: u32,
    pub flags: u32,
    /// Size of this header.
    pub header_size: u16,
    /// Size of an entry of the program header table.
    pub ph_entry_size: u16,
    /// Number of entries of the program header table.
    pub ph_num: u16,
    /// Size of an entry of the section header table.
    pub sh_entry_size: u16,
    /// Number of entries of the section header table.
    pub sh_num: u16,
    /// Index of the section that holds the section names.
    pub sh_str_index: u16,
}

/// The header of an ELF file of either class, with addresses and offsets
/// widened to 64 bits.
#[derive(Debug, Clone, Copy, PartialEq, Eq, Structural)]
pub struct ElfHeader {
    /// 1: 32 bits; 2: 64 bits.
    pub class: u8,
    /// 1: little endian; 2: big endian.
    pub endianess: u8,
    pub header_version: u8,
    pub abi: u8,
    pub abi_version: u8,
    /// 1: relocatable; 2: executable; 3: shared object; 4: core.
    pub file_type: u16,
    pub machine: u16,
    pub version: u32,
    pub entry_point: u64,
    /// Offset of the program header table.
    pub ph_offset: u64,
    /// Offset of the section header table.
    pub sh_offset: u64,
    pub flags: u32,
    /// Size of this header.
    pub header_size: u16,
    /// Size of an entry of the program header table.
    pub ph_entry_size: u16,
    /// Number of entries of the program header table.
    pub ph_num: u16,
    /// Size of an entry of the section header table.
    pub sh_entry_size: u16,
    /// Number of entries of the section header table.
    pub sh_num: u16,
    /// Index of the section that holds the section names.
    pub sh_str_index: u16,
}

/// Length of the header of a 32-bit file.
pub const HEADER32_LEN: usize = 52;

/// Length of the header of a 64-bit file.
pub const HEADER64_LEN: usize = 64;

/// The fields of a 32-bit header, read at their offsets.
pub open spec fn header32_fields(bytes: Seq<u8>) -> ElfHeader32 {
    let big = bytes[5] == 2;
    ElfHeader32 {
        class: bytes[4],
        endianess: bytes[5],
        header_version: bytes[6],
        abi: bytes[7],
        abi_version: bytes[8],
        file_type: u16_at(bytes, 16, big),
        machine: u16_at(bytes, 18, big),
        version: u32_at(bytes, 20, big),
        entry_point: u32_at(bytes, 24, big),
        ph_offset: u32_at(bytes, 28, big),
        sh_offset: u32_at(bytes, 32, big),
        flags: u32_at(bytes, 36, big),
        header_size: u16_at(bytes, 40, big),
        ph_entry_size: u16_at(bytes, 42, big),
        ph_num: u16_at(bytes, 44, big),
        sh_entry_size: u16_at(bytes, 46, big),
        sh_num: u16_at(bytes, 48, big),
        sh_str_index: u16_at(bytes, 50, big),
    }
}

/// The fields of a 64-bit header, read at their offsets.
pub open spec fn header64_fields(bytes: Seq<u8>) -> ElfHeader {
    let big = bytes[5] == 2;
    ElfHeader {
        class: bytes[4],
        endianess: bytes[5],
        header_version: bytes[6],
        abi: bytes[7],
        abi_version: bytes[8],
        file_type: u16_at(bytes, 16, big),
        machine: u16_at(bytes, 18, big),
        version: u32_at(bytes, 20, big),
        entry_point: u64_at(bytes, 24, big),
        ph_offset: u64_at(bytes, 32, big),
        sh_offset: u64_at(bytes, 40, big),
        flags: u32_at(bytes, 48, big),
        header_size: u16_at(bytes, 52, big),
        ph_entry_size: u16_at(bytes, 54, big),
        ph_num: u16_at(bytes, 56, big),
        sh_entry_size: u16_at(bytes, 58, big),
        sh_num: u16_at(bytes, 60, big),
        sh_str_index: u16_at(bytes, 62, big),
    }
}

/// The header of a 32-bit file: the file has the ELF signature, says that it
/// is a 32-bit file and is long enough to hold the header.
pub open spec fn header32_of(bytes: Seq<u8>) -> Option<ElfHeader32> {
    if has_elf_signature(bytes) && bytes[4] == 1 && bytes.len() >= HEADER32_LEN {
        Some(header32_fields(bytes))
    } else {
        None
    }
}

/// The header of a file of either class: the file has the ELF signature and
/// is long enough to hold the header of its class.
pub open spec fn header_of(bytes: Seq<u8>) -> Option<ElfHeader> {
    if !has_elf_signature(bytes) {
        None
    } else if bytes[4] == 1 {
        match header32_of(bytes) {
            Some(header) => Some(header.widened()),
            None => None,
        }
    } else if bytes.len() >= HEADER64_LEN {
        Some(header64_fields(bytes))
    } else {
        None
    }
}

/// Whether `ptr` starts with the ELF signature.
pub fn starts_with_signature(ptr: &[u8]) -> (yes: bool)
    ensures
        yes == has_elf_signature(ptr@),
{
    ptr.len() >= 6 && ptr[0] == 0x7f && ptr[1] == 0x45 && ptr[2] == 0x4c && ptr[3] == 0x46 && (ptr[4]
        == 1 || ptr[4] == 2) && (ptr[5] == 1 || ptr[5] == 2)
}

impl ElfHeader32 {
    /// The same header with addresses and offsets of 64 bits.
    pub open spec fn widened(self) -> ElfHeader {
        ElfHeader {
            class: self.class,
            endianess: self.endianess,
            header_version: self.header_version,
            abi: self.abi,
            abi_version: self.abi_version,
            file_type: self.file_type,
            machine: self.machine,
            version: self.version,
            entry_point: self.entry_point as u64,
            ph_offset: self.ph_offset as u64,
            sh_offset: self.sh_offset as u64,
            flags: self.flags,
            header_size: self.header_size,
            ph_entry_size: self.ph_entry_size,
            ph_num: self.ph_num,
            sh_entry_size: self.sh_entry_size,
            sh_num: self.sh_num,
            sh_str_index: self.sh_str_index,
        }
    }

    /// The same header with addresses and offsets of 64 bits.
    pub fn widen(&self) -> (header: ElfHeader)
        ensures
            header == self.widened(),
    {
        ElfHeader {
            class: self.class,
            endianess: self.endianess,
            header_version: self.header_version,
            abi: self.abi,
            abi_version: self.abi_version,
            file_type: self.file_type,
            machine: self.machine,
            version: self.version,
            entry_point: self.entry_point as u64,
            ph_offset: self.ph_offset as u64,
            sh_offset: self.sh_offset as u64,
            flags: self.flags,
            header_size: self.header_size,
            ph_entry_size: self.ph_entry_size,
            ph_num: self.ph_num,
            sh_entry_size: self.sh_entry_size,
            sh_num: self.sh_num,
            sh_str_index: self.sh_str_index,
        }
    }

    /// Reads the header of a 32-bit file.
    pub fn parse(bytes: &[u8]) -> (header: Option<ElfHeader32>)
        ensures
            header == header32_of(bytes@),
    {
        if !starts_with_signature(bytes) || bytes[4] != 1 || bytes.len() < HEADER32_LEN {
            return None;
        }
        let big = bytes[5] == 2;
        Some(
            ElfHeader32 {
                class: bytes[4],
                endianess: bytes[5],
                header_version: bytes[6],
                abi: bytes[7],
                abi_version: bytes[8],
                file_type: read_u16(bytes, 16, big),
                machine: read_u16(bytes, 18, big),
                version: read_u32(bytes, 20, big),
                entry_point: read_u32(bytes, 24, big),
                ph_offset: read_u32(bytes, 28, big),
                sh_offset: read_u32(bytes, 32, big),
                flags: read_u32(bytes, 36, big),
                header_size: read_u16(bytes, 40, big),
                ph_entry_size: read_u16(bytes, 42, big),
                ph_num: read_u16(bytes, 44, big),
                sh_entry_size: read_u16(bytes, 46, big),
                sh_num: read_u16(bytes, 48, big),
                sh_str_index: read_u16(bytes, 50, big),
            },
        )
    }
}

impl ElfHeader {
    /// Whether addresses and offsets of the file have 64 bits.
    pub open spec fn wide(self) -> bool {
        self.class == 2
    }

    /// Whether the numbers of the file are stored big end first.
    pub open spec fn big(self) -> bool {
        self.endianess == 2
    }

    /// Reads the header of a file of either class.
    pub fn parse(bytes: &[u8]) -> (header: Option<ElfHeader>)
        ensures
            header == header_of(bytes@),
    {
        if !starts_with_signature(bytes) {
            return None;
        }
        if bytes[4] == 1 {
            return match ElfHeader32::parse(bytes) {
                Some(header) => Some(header.widen()),
                None => None,
            };
        }
        if bytes.len() < HEADER64_LEN {
            return None;
        }
        let big = bytes[5] == 2;
        Some(
            ElfHeader {
                class: bytes[4],
                endianess: bytes[5],
                header_version: bytes[6],
                abi: bytes[7],
                abi_version: bytes[8],
                file_type: read_u16(bytes, 16, big),
                machine: read_u16(bytes, 18, big),
                version: read_u32(bytes, 20, big),
                entry_point: read_u64(bytes, 24, big),
                ph_offset: read_u64(bytes, 32, big),
                sh_offset: read_u64(bytes, 40, big),
                flags: read_u32(bytes, 48, big),
                header_size: read_u16(bytes, 52, big),
                ph_entry_size: read_u16(bytes, 54, big),
                ph_num: read_u16(bytes, 56, big),
                sh_entry_size: read_u16(bytes, 58, big),
                sh_num: read_u16(bytes, 60, big),
                sh_str_index: read_u16(bytes, 62, big),
            },
        )
    }
}

} // verus!
