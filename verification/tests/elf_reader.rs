use xmas_elf::symbol_table::Entry;
use fs_analyzer::file::elf::{
    ElfCmpResult, analyse_elf, check_sections, get_dyn_func, get_dynamic_libs, read_dynamic, read_section,
    read_text, simple_elf_cmp, ElfData, ElfError, ElfHeader, ElfHeader32, SectionHeader,
    HEADER32_LEN, HEADER64_LEN, SECTION_DYNAMIC, SECTION_DYNSYM, TAG_NEEDED,
};

/// What a section of a test binary lists.
enum Listing<'a> {
    Needed(Vec<&'a [u8]>),
    Symbols(Vec<&'a [u8]>),
}

/// A test binary and the places of its parts.
struct Binary {
    bytes: Vec<u8>,
    wide: bool,
    big: bool,
    table_at: usize,
    strings_at: usize,
    strings_len: usize,
}

fn put16(out: &mut Vec<u8>, value: u16, big: bool) {
    if big {
        out.extend_from_slice(&value.to_be_bytes());
    } else {
        out.extend_from_slice(&value.to_le_bytes());
    }
}

fn put32(out: &mut Vec<u8>, value: u32, big: bool) {
    if big {
        out.extend_from_slice(&value.to_be_bytes());
    } else {
        out.extend_from_slice(&value.to_le_bytes());
    }
}

fn put64(out: &mut Vec<u8>, value: u64, big: bool) {
    if big {
        out.extend_from_slice(&value.to_be_bytes());
    } else {
        out.extend_from_slice(&value.to_le_bytes());
    }
}

fn put_word(out: &mut Vec<u8>, value: u64, wide: bool, big: bool) {
    if wide {
        put64(out, value, big);
    } else {
        put32(out, value as u32, big);
    }
}

fn pad_to_eight(out: &mut Vec<u8>) {
    while out.len() % 8 != 0 {
        out.push(0);
    }
}

fn put_section(
    out: &mut Vec<u8>,
    wide: bool,
    big: bool,
    name: u32,
    section_type: u32,
    offset: u64,
    size: u64,
    link: u32,
) {
    put32(out, name, big);
    put32(out, section_type, big);
    put_word(out, 0, wide, big);
    put_word(out, 0, wide, big);
    put_word(out, offset, wide, big);
    put_word(out, size, wide, big);
    put32(out, link, big);
    put32(out, 0, big);
    put_word(out, 8, wide, big);
    put_word(out, 0, wide, big);
}

/// Builds a binary with a string table as section 1, the given sections from
/// section 2 on, all linked to the string table, and the section names last.
fn build(wide: bool, big: bool, listings: &[Listing]) -> Binary {
    let header_len = if wide { 64 } else { 52 };
    let mut strings: Vec<u8> = vec![0];
    let mut places: Vec<Vec<u64>> = Vec::new();
    for listing in listings {
        let names = match listing {
            Listing::Needed(names) => names,
            Listing::Symbols(names) => names,
        };
        let mut row = Vec::new();
        for name in names.iter() {
            if name.is_empty() {
                row.push(0);
            } else {
                row.push(strings.len() as u64);
                strings.extend_from_slice(name);
                strings.push(0);
            }
        }
        places.push(row);
    }
    let mut body: Vec<u8> = vec![0; header_len];
    let strings_at = body.len();
    body.extend_from_slice(&strings);
    let mut parts: Vec<(u32, u64, u64)> = Vec::new();
    for (listing, row) in listings.iter().zip(places.iter()) {
        pad_to_eight(&mut body);
        let start = body.len();
        match listing {
            Listing::Needed(_) => {
                for place in row {
                    put_word(&mut body, 1, wide, big);
                    put_word(&mut body, *place, wide, big);
                }
                put_word(&mut body, 0, wide, big);
                put_word(&mut body, 0, wide, big);
                parts.push((6, start as u64, (body.len() - start) as u64));
            }
            Listing::Symbols(_) => {
                for place in row {
                    put32(&mut body, *place as u32, big);
                    if wide {
                        body.extend_from_slice(&[0x12, 0, 0, 0]);
                        put64(&mut body, 0, big);
                        put64(&mut body, 0, big);
                    } else {
                        put32(&mut body, 0, big);
                        put32(&mut body, 0, big);
                        body.extend_from_slice(&[0x12, 0, 0, 0]);
                    }
                }
                parts.push((11, start as u64, (body.len() - start) as u64));
            }
        }
    }
    let names_at = body.len();
    let section_names = b"\0.dynstr\0.dynamic\0.dynsym\0.shstrtab\0";
    body.extend_from_slice(section_names);
    pad_to_eight(&mut body);
    let table_at = body.len();
    put_section(&mut body, wide, big, 0, 0, 0, 0, 0);
    put_section(&mut body, wide, big, 1, 3, strings_at as u64, strings.len() as u64, 0);
    for (section_type, offset, size) in parts.iter() {
        let name = if *section_type == 6 { 9 } else { 18 };
        put_section(&mut body, wide, big, name, *section_type, *offset, *size, 1);
    }
    put_section(&mut body, wide, big, 26, 3, names_at as u64, section_names.len() as u64, 0);
    let count = (parts.len() + 3) as u16;

    let mut header: Vec<u8> = vec![0x7f, b'E', b'L', b'F'];
    header.push(if wide { 2 } else { 1 });
    header.push(if big { 2 } else { 1 });
    header.push(1);
    header.push(3);
    header.push(7);
    header.extend_from_slice(&[0; 7]);
    put16(&mut header, 3, big);
    put16(&mut header, 62, big);
    put32(&mut header, 1, big);
    put_word(&mut header, 0x401000, wide, big);
    put_word(&mut header, 0, wide, big);
    put_word(&mut header, table_at as u64, wide, big);
    put32(&mut header, 5, big);
    put16(&mut header, header_len as u16, big);
    put16(&mut header, 56, big);
    put16(&mut header, 9, big);
    put16(&mut header, if wide { 64 } else { 40 }, big);
    put16(&mut header, count, big);
    put16(&mut header, count - 1, big);
    assert_eq!(header.len(), header_len);
    body[..header_len].copy_from_slice(&header);
    Binary { bytes: body, wide, big, table_at, strings_at, strings_len: strings.len() }
}

impl Binary {
    /// Overwrites a number of the width of an address in section `index`:
    /// field 4 is the offset, field 5 the size.
    fn set_word(&mut self, index: usize, field: usize, value: u64) {
        let entry = if self.wide { 64 } else { 40 };
        let width = if self.wide { 8 } else { 4 };
        let at = self.table_at + index * entry + 8 + (field - 2) * width;
        let mut number = Vec::new();
        put_word(&mut number, value, self.wide, self.big);
        self.bytes[at..at + width].copy_from_slice(&number);
    }

    /// Overwrites the link of section `index`.
    fn set_link(&mut self, index: usize, value: u32) {
        let entry = if self.wide { 64 } else { 40 };
        let at = self.table_at + index * entry + if self.wide { 40 } else { 24 };
        let mut number = Vec::new();
        put32(&mut number, value, self.big);
        self.bytes[at..at + 4].copy_from_slice(&number);
    }

    /// Overwrites the type of section `index`.
    fn set_type(&mut self, index: usize, value: u32) {
        let entry = if self.wide { 64 } else { 40 };
        let at = self.table_at + index * entry + 4;
        let mut number = Vec::new();
        put32(&mut number, value, self.big);
        self.bytes[at..at + 4].copy_from_slice(&number);
    }
}

fn names(row: &[&str]) -> Vec<String> {
    row.iter().map(|name| name.to_string()).collect()
}

fn usual(wide: bool, big: bool) -> Binary {
    build(
        wide,
        big,
        &[
            Listing::Needed(vec![b"libfoo.so", b"libc.so.6"]),
            Listing::Symbols(vec![b"", b"printf", b"main"]),
        ],
    )
}

#[test]
fn the_constants_of_the_format() {
    assert_eq!(HEADER32_LEN, 52);
    assert_eq!(HEADER64_LEN, 64);
    assert_eq!(SECTION_DYNAMIC, 6);
    assert_eq!(SECTION_DYNSYM, 11);
    assert_eq!(TAG_NEEDED, 1);
}

#[test]
fn libraries_and_symbols_of_a_64_bit_little_endian_binary() {
    let binary = usual(true, false);
    let dynamic = read_dynamic(&binary.bytes).unwrap();
    assert_eq!(dynamic.libs, names(&["libfoo.so", "libc.so.6"]));
    assert_eq!(dynamic.funcs, names(&["printf", "main"]));
    assert_eq!(dynamic.header.class, 2);
    assert_eq!(dynamic.header.endianess, 1);
}

#[test]
fn libraries_and_symbols_of_a_64_bit_big_endian_binary() {
    let binary = usual(true, true);
    let dynamic = read_dynamic(&binary.bytes).unwrap();
    assert_eq!(dynamic.libs, names(&["libfoo.so", "libc.so.6"]));
    assert_eq!(dynamic.funcs, names(&["printf", "main"]));
    assert_eq!(dynamic.header.endianess, 2);
}

#[test]
fn libraries_and_symbols_of_a_32_bit_little_endian_binary() {
    let binary = usual(false, false);
    let dynamic = read_dynamic(&binary.bytes).unwrap();
    assert_eq!(dynamic.libs, names(&["libfoo.so", "libc.so.6"]));
    assert_eq!(dynamic.funcs, names(&["printf", "main"]));
    assert_eq!(dynamic.header.class, 1);
}

#[test]
fn libraries_and_symbols_of_a_32_bit_big_endian_binary() {
    let binary = usual(false, true);
    let dynamic = read_dynamic(&binary.bytes).unwrap();
    assert_eq!(dynamic.libs, names(&["libfoo.so", "libc.so.6"]));
    assert_eq!(dynamic.funcs, names(&["printf", "main"]));
}

#[test]
fn every_field_of_a_64_bit_header() {
    let binary = usual(true, false);
    let header = ElfHeader::parse(&binary.bytes).unwrap();
    let expected = ElfHeader {
        class: 2,
        endianess: 1,
        header_version: 1,
        abi: 3,
        abi_version: 7,
        file_type: 3,
        machine: 62,
        version: 1,
        entry_point: 0x401000,
        ph_offset: 0,
        sh_offset: binary.table_at as u64,
        flags: 5,
        header_size: 64,
        ph_entry_size: 56,
        ph_num: 9,
        sh_entry_size: 64,
        sh_num: 5,
        sh_str_index: 4,
    };
    assert_eq!(header, expected);
    assert_eq!(ElfHeader32::parse(&binary.bytes), None);
}

#[test]
fn every_field_of_a_32_bit_header() {
    let binary = usual(false, true);
    let header = ElfHeader32::parse(&binary.bytes).unwrap();
    let expected = ElfHeader32 {
        class: 1,
        endianess: 2,
        header_version: 1,
        abi: 3,
        abi_version: 7,
        file_type: 3,
        machine: 62,
        version: 1,
        entry_point: 0x401000,
        ph_offset: 0,
        sh_offset: binary.table_at as u32,
        flags: 5,
        header_size: 52,
        ph_entry_size: 56,
        ph_num: 9,
        sh_entry_size: 40,
        sh_num: 5,
        sh_str_index: 4,
    };
    assert_eq!(header, expected);
    assert_eq!(ElfHeader::parse(&binary.bytes), Some(header.widen()));
    assert_eq!(header.widen().sh_offset, binary.table_at as u64);
    assert_eq!(header.widen().entry_point, 0x401000);
}

#[test]
fn numbers_are_read_in_the_byte_order_of_the_file() {
    let mut bytes = vec![0x7f, b'E', b'L', b'F', 2, 1, 1, 0];
    bytes.resize(64, 0);
    bytes[16] = 0x02;
    bytes[17] = 0x01;
    bytes[40] = 0x08;
    bytes[41] = 0x07;
    bytes[42] = 0x06;
    bytes[43] = 0x05;
    bytes[44] = 0x04;
    bytes[45] = 0x03;
    bytes[46] = 0x02;
    bytes[47] = 0x01;
    bytes[48] = 0x0d;
    bytes[49] = 0x0c;
    bytes[50] = 0x0b;
    bytes[51] = 0x0a;
    let little = ElfHeader::parse(&bytes).unwrap();
    assert_eq!(little.file_type, 0x0102);
    assert_eq!(little.sh_offset, 0x0102030405060708);
    assert_eq!(little.flags, 0x0a0b0c0d);
    bytes[5] = 2;
    let big = ElfHeader::parse(&bytes).unwrap();
    assert_eq!(big.file_type, 0x0201);
    assert_eq!(big.sh_offset, 0x0807060504030201);
    assert_eq!(big.flags, 0x0d0c0b0a);
}

#[test]
fn a_header_needs_all_of_its_bytes() {
    let wide = usual(true, false);
    assert!(ElfHeader::parse(&wide.bytes[..64]).is_some());
    assert_eq!(ElfHeader::parse(&wide.bytes[..63]), None);
    let narrow = usual(false, false);
    assert!(ElfHeader::parse(&narrow.bytes[..52]).is_some());
    assert!(ElfHeader32::parse(&narrow.bytes[..52]).is_some());
    assert_eq!(ElfHeader::parse(&narrow.bytes[..51]), None);
    assert_eq!(ElfHeader32::parse(&narrow.bytes[..51]), None);
}

#[test]
fn a_file_without_a_header_is_reported_as_such() {
    assert_eq!(read_dynamic(b""), Err(ElfError::BadHeader));
    assert_eq!(read_dynamic(b"#!/bin/sh\n"), Err(ElfError::BadHeader));
    let binary = usual(true, false);
    assert_eq!(read_dynamic(&binary.bytes[..63]), Err(ElfError::BadHeader));
    assert_eq!(read_dynamic(&binary.bytes[..6]), Err(ElfError::BadHeader));
    let mut class = binary.bytes.clone();
    class[4] = 3;
    assert_eq!(read_dynamic(&class), Err(ElfError::BadHeader));
}

#[test]
fn a_section_table_that_is_cut_short_is_reported() {
    let binary = usual(true, false);
    let whole = binary.bytes.len();
    assert_eq!(read_dynamic(&binary.bytes[..whole - 1]), Err(ElfError::BadSectionTable));
    assert_eq!(read_dynamic(&binary.bytes[..binary.table_at]), Err(ElfError::BadSectionTable));
    assert_eq!(read_dynamic(&binary.bytes[..64]), Err(ElfError::BadSectionTable));
}

#[test]
fn section_headers_that_are_too_short_are_reported() {
    let mut binary = usual(true, false);
    binary.bytes[58] = 63;
    assert_eq!(read_dynamic(&binary.bytes), Err(ElfError::BadSectionTable));
    let mut narrow = usual(false, false);
    narrow.bytes[46] = 39;
    assert_eq!(read_dynamic(&narrow.bytes), Err(ElfError::BadSectionTable));
}

#[test]
fn a_binary_without_sections_has_no_libraries() {
    let mut bytes = usual(true, false).bytes;
    bytes[60] = 0;
    bytes[61] = 0;
    let dynamic = read_dynamic(&bytes[..64]).unwrap();
    assert!(dynamic.libs.is_empty());
    assert!(dynamic.funcs.is_empty());
    assert_eq!(dynamic.header.sh_num, 0);
}

#[test]
fn a_binary_without_a_dynamic_section_has_no_libraries() {
    let binary = build(true, false, &[Listing::Symbols(vec![b"", b"f"])]);
    let dynamic = read_dynamic(&binary.bytes).unwrap();
    assert!(dynamic.libs.is_empty());
    assert_eq!(dynamic.funcs, names(&["f"]));
    let empty = build(false, true, &[]);
    let dynamic = read_dynamic(&empty.bytes).unwrap();
    assert!(dynamic.libs.is_empty());
    assert!(dynamic.funcs.is_empty());
}

#[test]
fn a_library_that_is_required_twice_is_listed_once() {
    let binary = build(
        true,
        false,
        &[Listing::Needed(vec![b"liba.so", b"libb.so", b"liba.so", b"libc.so", b"libb.so"])],
    );
    let dynamic = read_dynamic(&binary.bytes).unwrap();
    assert_eq!(dynamic.libs, names(&["liba.so", "libb.so", "libc.so"]));
}

#[test]
fn a_symbol_that_occurs_twice_is_listed_twice() {
    let binary = build(false, false, &[Listing::Symbols(vec![b"", b"f", b"g", b"", b"f"])]);
    let dynamic = read_dynamic(&binary.bytes).unwrap();
    assert_eq!(dynamic.funcs, names(&["f", "g", "f"]));
}

#[test]
fn of_two_dynamic_sections_the_later_counts() {
    let binary = build(
        true,
        false,
        &[
            Listing::Needed(vec![b"libold.so"]),
            Listing::Symbols(vec![b"first"]),
            Listing::Needed(vec![b"libnew.so", b"libmore.so"]),
            Listing::Symbols(vec![b"second"]),
        ],
    );
    let dynamic = read_dynamic(&binary.bytes).unwrap();
    assert_eq!(dynamic.libs, names(&["libnew.so", "libmore.so"]));
    assert_eq!(dynamic.funcs, names(&["second"]));
}

#[test]
fn entries_with_other_tags_are_passed_over() {
    let mut binary = build(true, false, &[Listing::Needed(vec![b"liba.so", b"libb.so"])]);
    let header = ElfHeader::parse(&binary.bytes).unwrap();
    let section = read_section(&binary.bytes, &header, 2).unwrap();
    let first = section.offset as usize;
    binary.bytes[first] = 14;
    let dynamic = read_dynamic(&binary.bytes).unwrap();
    assert_eq!(dynamic.libs, names(&["libb.so"]));
}

#[test]
fn a_name_that_is_not_ascii_is_read_as_utf8() {
    let name = "lib\u{e9}t\u{e9}.so";
    let binary = build(true, false, &[Listing::Needed(vec![name.as_bytes()])]);
    let dynamic = read_dynamic(&binary.bytes).unwrap();
    assert_eq!(dynamic.libs, names(&[name]));
    assert_eq!(dynamic.libs[0].chars().count(), 9);
    assert_eq!(dynamic.libs[0].len(), 11);
}

#[test]
fn a_name_that_is_not_utf8_is_reported() {
    let binary = build(true, false, &[Listing::Needed(vec![b"lib\xff.so"])]);
    assert_eq!(read_dynamic(&binary.bytes), Err(ElfError::BadString));
    let binary = build(false, true, &[Listing::Symbols(vec![b"\xc3"])]);
    assert_eq!(read_dynamic(&binary.bytes), Err(ElfError::BadString));
}

#[test]
fn a_name_outside_the_string_table_is_reported() {
    let mut binary = build(true, false, &[Listing::Needed(vec![b"liba.so"])]);
    let header = ElfHeader::parse(&binary.bytes).unwrap();
    let section = read_section(&binary.bytes, &header, 2).unwrap();
    let value_at = section.offset as usize + 8;
    binary.bytes[value_at] = binary.strings_len as u8;
    assert_eq!(read_dynamic(&binary.bytes), Err(ElfError::BadString));
    binary.bytes[value_at] = (binary.strings_len - 1) as u8;
    assert_eq!(read_dynamic(&binary.bytes).unwrap().libs, names(&[""]));
    binary.bytes[value_at + 7] = 0x80;
    assert_eq!(read_dynamic(&binary.bytes), Err(ElfError::BadString));
}

#[test]
fn a_name_that_does_not_end_in_the_table_is_reported() {
    let mut binary = build(true, false, &[Listing::Needed(vec![b"liba.so"])]);
    binary.set_word(1, 5, (binary.strings_len - 1) as u64);
    assert_eq!(read_dynamic(&binary.bytes), Err(ElfError::BadString));
    binary.set_word(1, 5, binary.strings_len as u64);
    assert_eq!(read_dynamic(&binary.bytes).unwrap().libs, names(&["liba.so"]));
}

#[test]
fn a_section_outside_the_file_is_reported() {
    let mut binary = usual(true, false);
    let len = binary.bytes.len() as u64;
    binary.set_word(2, 4, len);
    assert_eq!(read_dynamic(&binary.bytes), Err(ElfError::BadSection));
    let mut binary = usual(true, false);
    binary.set_word(2, 4, u64::MAX);
    assert_eq!(read_dynamic(&binary.bytes), Err(ElfError::BadSection));
    let mut binary = usual(false, false);
    binary.set_word(3, 5, 0xffff_fff0);
    assert_eq!(read_dynamic(&binary.bytes), Err(ElfError::BadSection));
    let mut binary = usual(false, true);
    binary.set_word(1, 4, len);
    assert_eq!(read_dynamic(&binary.bytes), Err(ElfError::BadSection));
}

#[test]
fn a_section_that_is_not_a_whole_number_of_entries_is_reported() {
    let mut binary = usual(true, false);
    binary.set_word(2, 5, 17);
    assert_eq!(read_dynamic(&binary.bytes), Err(ElfError::BadSection));
    let mut binary = usual(false, false);
    binary.set_word(3, 5, 15);
    assert_eq!(read_dynamic(&binary.bytes), Err(ElfError::BadSection));
    let mut binary = usual(false, false);
    binary.set_word(2, 5, 8);
    assert_eq!(read_dynamic(&binary.bytes).unwrap().libs, names(&["libfoo.so"]));
}

#[test]
fn a_link_to_a_section_that_does_not_exist_is_reported() {
    let mut binary = usual(true, false);
    binary.set_link(2, 5);
    assert_eq!(read_dynamic(&binary.bytes), Err(ElfError::BadSection));
    let mut binary = usual(true, false);
    binary.set_link(3, 0xffff_ffff);
    assert_eq!(read_dynamic(&binary.bytes), Err(ElfError::BadSection));
}

#[test]
fn the_first_section_that_cannot_be_read_decides_the_error() {
    let mut binary = build(
        true,
        false,
        &[Listing::Needed(vec![b"lib\xff.so"]), Listing::Symbols(vec![b"f"])],
    );
    binary.set_link(3, 9);
    assert_eq!(read_dynamic(&binary.bytes), Err(ElfError::BadString));
    let mut binary = build(
        true,
        false,
        &[Listing::Symbols(vec![b"f"]), Listing::Needed(vec![b"lib\xff.so"])],
    );
    binary.set_link(2, 9);
    assert_eq!(read_dynamic(&binary.bytes), Err(ElfError::BadSection));
}

#[test]
fn sections_of_other_types_are_not_read() {
    let mut binary = usual(true, false);
    binary.set_type(2, 19);
    binary.set_word(2, 4, u64::MAX);
    let dynamic = read_dynamic(&binary.bytes).unwrap();
    assert!(dynamic.libs.is_empty());
    assert_eq!(dynamic.funcs, names(&["printf", "main"]));
}

#[test]
fn the_readers_of_single_sections() {
    let binary = usual(false, true);
    let header = ElfHeader::parse(&binary.bytes).unwrap();
    assert!(check_sections(&binary.bytes, &header));
    let strings = read_section(&binary.bytes, &header, 1).unwrap();
    let needed = read_section(&binary.bytes, &header, 2).unwrap();
    let symbols = read_section(&binary.bytes, &header, 3).unwrap();
    assert_eq!(
        strings,
        SectionHeader {
            name: 1,
            section_type: 3,
            flags: 0,
            address: 0,
            offset: binary.strings_at as u64,
            size: binary.strings_len as u64,
            link: 0,
            info: 0,
            align: 8,
            entry_size: 0,
        }
    );
    assert_eq!(needed.section_type, SECTION_DYNAMIC);
    assert_eq!(needed.link, 1);
    assert_eq!(needed.size, 24);
    assert_eq!(symbols.section_type, SECTION_DYNSYM);
    assert_eq!(symbols.size, 48);
    assert_eq!(read_section(&binary.bytes, &header, 5), None);
    assert_eq!(read_section(&binary.bytes[..binary.table_at + 100], &header, 1), None);
    assert_eq!(read_text(&binary.bytes[..binary.strings_at + 3], &strings, 1), None);
    assert!(strings.lies_within(&binary.bytes));
    assert!(!strings.lies_within(&binary.bytes[..binary.strings_at + 3]));
    assert_eq!(
        get_dynamic_libs(&binary.bytes, &header, &needed),
        Ok(names(&["libfoo.so", "libc.so.6"]))
    );
    assert_eq!(get_dyn_func(&binary.bytes, &header, &symbols), Ok(names(&["printf", "main"])));
    assert_eq!(read_text(&binary.bytes, &strings, 1), Some("libfoo.so".to_string()));
    assert_eq!(read_text(&binary.bytes, &strings, 4), Some("foo.so".to_string()));
    assert_eq!(read_text(&binary.bytes, &strings, 0), Some(String::new()));
    assert_eq!(read_text(&binary.bytes, &strings, binary.strings_len as u64), None);
    assert_eq!(read_text(&binary.bytes, &strings, u64::MAX), None);
}

#[test]
fn a_header_that_does_not_fit_the_bytes_is_refused() {
    let binary = usual(true, false);
    let mut header = ElfHeader::parse(&binary.bytes).unwrap();
    let needed = read_section(&binary.bytes, &header, 2).unwrap();
    header.sh_offset = u64::MAX;
    assert!(!check_sections(&binary.bytes, &header));
    assert_eq!(get_dynamic_libs(&binary.bytes, &header, &needed), Err(ElfError::BadSectionTable));
    assert_eq!(get_dyn_func(&binary.bytes, &header, &needed), Err(ElfError::BadSectionTable));
}

#[test]
fn the_analysis_of_a_binary_on_its_own() {
    let binary = usual(true, false);
    let data = analyse_elf(&binary.bytes, 1234).unwrap();
    let expected = ElfData {
        size: 1234,
        ph_num: 9,
        sh_num: 5,
        dyn_libs: Vec::new(),
        dyn_funcs: Vec::new(),
    };
    assert_eq!(data, expected);
    assert_eq!(data.duplicate(), expected);
    assert_eq!(analyse_elf(b"\x7fELF\x02\x01", 6), Err(ElfError::BadHeader));
    let broken = build(true, false, &[Listing::Needed(vec![b"\xff"])]);
    assert_eq!(analyse_elf(&broken.bytes, 1), Err(ElfError::BadString));
    let fresh = ElfData::new();
    assert_eq!(fresh.size, 0);
    assert!(fresh.dyn_libs.is_empty() && fresh.dyn_funcs.is_empty());
}

#[test]
fn two_binaries_differ_by_the_numbers_of_their_headers() {
    let first = usual(true, false).bytes;
    let mut more_sections = first.clone();
    more_sections[60] = 6;
    let mut more_programs = first.clone();
    more_programs[56] = 10;
    let mut other_entry = first.clone();
    other_entry[24] = 1;
    assert!(!simple_elf_cmp(&first, &first));
    assert!(simple_elf_cmp(&first, &more_sections));
    assert!(simple_elf_cmp(&more_programs, &first));
    assert!(!simple_elf_cmp(&first, &other_entry));
}

#[test]
fn binaries_of_both_classes_are_compared() {
    let narrow = usual(false, false).bytes;
    let wide = usual(true, true).bytes;
    assert!(!simple_elf_cmp(&narrow, &wide));
    let mut changed = narrow.clone();
    changed[48] = 6;
    assert!(simple_elf_cmp(&changed, &wide));
    assert!(simple_elf_cmp(&narrow, &changed));
    let mut programs = narrow.clone();
    programs[44] = 1;
    assert!(simple_elf_cmp(&programs, &narrow));
}

#[test]
fn a_file_without_a_header_differs_from_one_that_has_one() {
    let first = usual(true, false).bytes;
    assert!(simple_elf_cmp(&first, b"text"));
    assert!(simple_elf_cmp(b"text", &first));
    assert!(simple_elf_cmp(&first[..63], &first));
    assert!(!simple_elf_cmp(b"", b""));
    assert!(!simple_elf_cmp(b"text", b"other text"));
    assert!(!simple_elf_cmp(&first[..63], &first[..10]));
}

/// The required libraries as `xmas_elf` reads them.
fn libraries_by_xmas_elf(bytes: &[u8]) -> Vec<String> {
    let elf = xmas_elf::ElfFile::new(bytes).unwrap();
    let mut libs = Vec::new();
    for section in elf.section_iter() {
        if section.get_type() != Ok(xmas_elf::sections::ShType::Dynamic) {
            continue;
        }
        match section.get_data(&elf).unwrap() {
            xmas_elf::sections::SectionData::Dynamic32(entries) => {
                for entry in entries {
                    if entry.get_tag() == Ok(xmas_elf::dynamic::Tag::Needed) {
                        libs.push(elf.get_dyn_string(entry.get_val().unwrap()).unwrap().to_string());
                    }
                }
            }
            xmas_elf::sections::SectionData::Dynamic64(entries) => {
                for entry in entries {
                    if entry.get_tag() == Ok(xmas_elf::dynamic::Tag::Needed) {
                        let place = entry.get_val().unwrap() as u32;
                        libs.push(elf.get_dyn_string(place).unwrap().to_string());
                    }
                }
            }
            _ => {}
        }
    }
    libs
}

/// The names of the dynamic symbols as `xmas_elf` reads them.
fn symbols_by_xmas_elf(bytes: &[u8]) -> Vec<String> {
    let elf = xmas_elf::ElfFile::new(bytes).unwrap();
    let mut names = Vec::new();
    for section in elf.section_iter() {
        match section.get_data(&elf).unwrap() {
            xmas_elf::sections::SectionData::DynSymbolTable32(entries) => {
                for entry in entries {
                    names.push(entry.get_name(&elf).unwrap().to_string());
                }
            }
            xmas_elf::sections::SectionData::DynSymbolTable64(entries) => {
                for entry in entries {
                    names.push(entry.get_name(&elf).unwrap().to_string());
                }
            }
            _ => {}
        }
    }
    names
}

#[test]
fn the_reader_agrees_with_xmas_elf_on_a_64_bit_binary() {
    if u16::from_ne_bytes([1, 0]) != 1 {
        return;
    }
    let binary = build(
        true,
        false,
        &[
            Listing::Needed(vec![b"libfoo.so", b"libc.so.6", b"libm.so.6"]),
            Listing::Symbols(vec![b"", b"printf", b"main", b"sqrt"]),
        ],
    );
    let dynamic = read_dynamic(&binary.bytes).unwrap();
    assert_eq!(dynamic.libs, libraries_by_xmas_elf(&binary.bytes));
    let named: Vec<String> =
        symbols_by_xmas_elf(&binary.bytes).into_iter().filter(|name| !name.is_empty()).collect();
    assert_eq!(dynamic.funcs, named);
    let header = xmas_elf::ElfFile::new(&binary.bytes).unwrap().header;
    assert_eq!(dynamic.header.sh_num, header.pt2.sh_count());
    assert_eq!(dynamic.header.ph_num, header.pt2.ph_count());
    assert_eq!(dynamic.header.sh_offset, header.pt2.sh_offset());
    assert_eq!(dynamic.header.entry_point, header.pt2.entry_point());
}

#[test]
fn the_reader_agrees_with_xmas_elf_on_a_32_bit_binary() {
    if u16::from_ne_bytes([1, 0]) != 1 {
        return;
    }
    let binary = build(
        false,
        false,
        &[
            Listing::Needed(vec![b"libfoo.so", b"libc.so.6"]),
            Listing::Symbols(vec![b"", b"printf", b"main"]),
        ],
    );
    let dynamic = read_dynamic(&binary.bytes).unwrap();
    assert_eq!(dynamic.libs, libraries_by_xmas_elf(&binary.bytes));
    let named: Vec<String> =
        symbols_by_xmas_elf(&binary.bytes).into_iter().filter(|name| !name.is_empty()).collect();
    assert_eq!(dynamic.funcs, named);
    let header = xmas_elf::ElfFile::new(&binary.bytes).unwrap().header;
    assert_eq!(dynamic.header.sh_num, header.pt2.sh_count());
    assert_eq!(dynamic.header.sh_offset, header.pt2.sh_offset());
}

#[test]
fn the_outcome_of_a_comparison_of_binaries_holds_nothing() {
    assert_eq!(ElfCmpResult {}, ElfCmpResult {});
    assert_eq!(format!("{:?}", ElfCmpResult {}), "ElfCmpResult");
}
