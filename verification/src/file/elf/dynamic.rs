//! The sections of an ELF file that name what the binary needs at load time:
//! the dynamic section, the table of dynamic symbols and their string table.
//!
//! Every offset is held against the length of the file before a byte is
//! read, so that a file that is cut short or otherwise malformed gives an
//! error and nothing else.
use vstd::prelude::*;
use vstd::string::StringSliceAdditionalSpecFns;
use vstd::utf8::{decode_utf8, valid_utf8};
use crate::file::elf::header::{
    header_of, read_u32, read_u64, read_word, u32_at, u64_at, word_at, ElfHeader,
};
use crate::text::{distinct, push_distinct, texts};

verus! {

/// Why a file could not be read as an ELF binary.
#[derive(Debug, Clone, Copy, PartialEq, Eq, Structural)]
pub enum ElfError {
    /// The file does not start with a complete ELF header.
    BadHeader,
    /// The table of section headers does not lie within the file.
    BadSectionTable,
    /// A section that the analysis reads does not lie within the file, is not
    /// a whole number of entries long, or names a string table that does not
    /// exist.
    BadSection,
    /// A name lies outside its string table, does not end within it, or is
    /// not UTF-8.
    BadString,
}

/// One entry of the table of section headers.
#[derive(Debug, Clone, Copy, PartialEq, Eq, Structural)]
pub struct SectionHeader {
    /// Offset of the section's name in the table of section names.
    pub name: u32,
    pub section_type: u32,
    pub flags: u64,
    pub address: u64,
    /// Offset of the section's content in the file.
    pub offset: u64,
    /// Length of the section's content.
    pub size: u64,
    /// Index of a section that this one refers to: for a dynamic section and
    /// for a table of dynamic symbols, their string table.
    pub link: u32,
    pub info: u32,
    pub align: u64,
    pub entry_size: u64,
}

/// Type of the section that lists what the binary needs at load time.
pub const SECTION_DYNAMIC: u32 = 6;

/// Type of the section that lists the dynamic symbols.
pub const SECTION_DYNSYM: u32 = 11;

/// Tag of an entry of the dynamic section that names a required library.
pub const TAG_NEEDED: u64 = 1;

/// Length of a section header.
pub open spec fn section_header_len(wide: bool) -> int {
    if wide {
        64
    } else {
        40
    }
}

/// Length of an entry of the dynamic section.
pub open spec fn dynamic_entry_len(wide: bool) -> int {
    if wide {
        16
    } else {
        8
    }
}

/// Length of an entry of a symbol table.
pub open spec fn symbol_entry_len(wide: bool) -> int {
    if wide {
        24
    } else {
        16
    }
}

/// The section header that starts at `at`.
pub open spec fn section_fields(bytes: Seq<u8>, at: int, big: bool, wide: bool) -> SectionHeader {
    if wide {
        SectionHeader {
            name: u32_at(bytes, at, big),
            section_type: u32_at(bytes, at + 4, big),
            flags: u64_at(bytes, at + 8, big),
            address: u64_at(bytes, at + 16, big),
            offset: u64_at(bytes, at + 24, big),
            size: u64_at(bytes, at + 32, big),
            link: u32_at(bytes, at + 40, big),
            info: u32_at(bytes, at + 44, big),
            align: u64_at(bytes, at + 48, big),
            entry_size: u64_at(bytes, at + 56, big),
        }
    } else {
        SectionHeader {
            name: u32_at(bytes, at, big),
            section_type: u32_at(bytes, at + 4, big),
            flags: u32_at(bytes, at + 8, big) as u64,
            address: u32_at(bytes, at + 12, big) as u64,
            offset: u32_at(bytes, at + 16, big) as u64,
            size: u32_at(bytes, at + 20, big) as u64,
            link: u32_at(bytes, at + 24, big),
            info: u32_at(bytes, at + 28, big),
            align: u32_at(bytes, at + 32, big) as u64,
            entry_size: u32_at(bytes, at + 36, big) as u64,
        }
    }
}

/// Whether the table of section headers that `header` declares lies within
/// the file, with entries that are long enough.
pub open spec fn sections_fit(bytes: Seq<u8>, header: ElfHeader) -> bool {
    header.sh_num == 0 || (header.sh_entry_size >= section_header_len(header.wide())
        && header.sh_offset + header.sh_num * header.sh_entry_size <= bytes.len())
}

/// The section header with the given index.
pub open spec fn section_at(bytes: Seq<u8>, header: ElfHeader, index: int) -> SectionHeader {
    section_fields(
        bytes,
        header.sh_offset + index * header.sh_entry_size,
        header.big(),
        header.wide(),
    )
}

impl SectionHeader {
    /// Whether the section's content lies within a file of `len` bytes.
    pub open spec fn fits(self, len: nat) -> bool {
        self.offset + self.size <= len
    }

    /// Whether the section's content lies within `bytes`.
    pub fn lies_within(&self, bytes: &[u8]) -> (yes: bool)
        ensures
            yes == self.fits(bytes@.len()),
    {
        let len = bytes.len() as u64;
        self.offset <= len && self.size <= len - self.offset
    }
}

/// Whether the table of section headers lies within the file.
pub fn check_sections(bytes: &[u8], header: &ElfHeader) -> (yes: bool)
    ensures
        yes == sections_fit(bytes@, *header),
{
    if header.sh_num == 0 {
        return true;
    }
    let needed: u16 = if header.class == 2 {
        64
    } else {
        40
    };
    if header.sh_entry_size < needed {
        return false;
    }
    assert(header.sh_num * header.sh_entry_size <= 0xffff * 0xffff) by (nonlinear_arith)
        requires
            0 <= header.sh_num <= 0xffff,
            0 <= header.sh_entry_size <= 0xffff,
    ;
    let table_len: u64 = (header.sh_num as u64) * (header.sh_entry_size as u64);
    let len = bytes.len() as u64;
    header.sh_offset <= len && table_len <= len - header.sh_offset
}

/// Reads the section header with the given index. There is none where the
/// table of section headers does not lie within the file or has no entry of
/// that index.
pub fn read_section(bytes: &[u8], header: &ElfHeader, index: u16) -> (section: Option<
    SectionHeader,
>)
    ensures
        section == if sections_fit(bytes@, *header) && index < header.sh_num {
            Some(section_at(bytes@, *header, index as int))
        } else {
            None
        },
{
    if check_sections(bytes, header) && index < header.sh_num {
        Some(section_of(bytes, header, index))
    } else {
        None
    }
}

/// Reads the section header with the given index from a table that lies
/// within the file.
fn section_of(bytes: &[u8], header: &ElfHeader, index: u16) -> (section: SectionHeader)
    requires
        sections_fit(bytes@, *header),
        index < header.sh_num,
    ensures
        section == section_at(bytes@, *header, index as int),
{
    let big = header.endianess == 2;
    let wide = header.class == 2;
    let len = bytes.len();
    assert(0 <= index * header.sh_entry_size && index * header.sh_entry_size
        + header.sh_entry_size <= header.sh_num * header.sh_entry_size) by (nonlinear_arith)
        requires
            0 <= index < header.sh_num,
            header.sh_entry_size >= 0,
    ;
    assert(header.sh_offset + header.sh_num * header.sh_entry_size <= len);
    let start: u64 = header.sh_offset + (index as u64) * (header.sh_entry_size as u64);
    let at = start as usize;
    if wide {
        SectionHeader {
            name: read_u32(bytes, at, big),
            section_type: read_u32(bytes, at + 4, big),
            flags: read_u64(bytes, at + 8, big),
            address: read_u64(bytes, at + 16, big),
            offset: read_u64(bytes, at + 24, big),
            size: read_u64(bytes, at + 32, big),
            link: read_u32(bytes, at + 40, big),
            info: read_u32(bytes, at + 44, big),
            align: read_u64(bytes, at + 48, big),
            entry_size: read_u64(bytes, at + 56, big),
        }
    } else {
        SectionHeader {
            name: read_u32(bytes, at, big),
            section_type: read_u32(bytes, at + 4, big),
            flags: read_u32(bytes, at + 8, big) as u64,
            address: read_u32(bytes, at + 12, big) as u64,
            offset: read_u32(bytes, at + 16, big) as u64,
            size: read_u32(bytes, at + 20, big) as u64,
            link: read_u32(bytes, at + 24, big),
            info: read_u32(bytes, at + 28, big),
            align: read_u32(bytes, at + 32, big) as u64,
            entry_size: read_u32(bytes, at + 36, big) as u64,
        }
    }
}

/// The place of the first zero byte from `at` on and before `limit`.
pub open spec fn end_of_text(bytes: Seq<u8>, at: int, limit: int) -> Option<int>
    decreases limit - at,
{
    if at >= limit {
        None
    } else if bytes[at] == 0 {
        Some(at)
    } else {
        end_of_text(bytes, at + 1, limit)
    }
}

/// The text that starts `at` bytes into the string table `table`: the bytes up
/// to the next zero byte of the table, read as UTF-8. There is none where the
/// table does not lie within the file, where `at` lies outside the table,
/// where no zero byte follows within the table, or where the bytes are not
/// UTF-8.
pub open spec fn text_at(bytes: Seq<u8>, table: SectionHeader, at: u64) -> Option<Seq<char>> {
    if !table.fits(bytes.len()) || at >= table.size {
        None
    } else {
        match end_of_text(bytes, table.offset + at, table.offset + table.size) {
            None => None,
            Some(end) => {
                let raw = bytes.subrange(table.offset + at, end);
                if valid_utf8(raw) {
                    Some(decode_utf8(raw))
                } else {
                    None
                }
            },
        }
    }
}

/// Calls `core::str::from_utf8`: the bytes as a string slice where they are
/// valid UTF-8, and nothing where they are not. The slice that comes back has
/// the very bytes that went in.
#[verifier::external_body]
fn utf8_text(bytes: &[u8]) -> (text: Option<&str>)
    ensures
        text is Some <==> valid_utf8(bytes@),
        text matches Some(s) ==> s.spec_bytes() == bytes@,
{
    core::str::from_utf8(bytes).ok()
}

/// Reads the text that starts `at` bytes into the string table `table`.
pub fn read_text(bytes: &[u8], table: &SectionHeader, at: u64) -> (text: Option<String>)
    ensures
        match text {
            Some(s) => text_at(bytes@, *table, at) == Some(s@),
            None => text_at(bytes@, *table, at) is None,
        },
{
    if !table.lies_within(bytes) || at >= table.size {
        return None;
    }
    let len = bytes.len();
    assert(table.offset + table.size <= len);
    let start = (table.offset + at) as usize;
    let limit = (table.offset + table.size) as usize;
    let mut end = start;
    while end < limit && bytes[end] != 0
        invariant
            start <= end <= limit <= bytes.len(),
            end_of_text(bytes@, start as int, limit as int) == end_of_text(
                bytes@,
                end as int,
                limit as int,
            ),
        decreases limit - end,
    {
        end = end + 1;
    }
    if end >= limit {
        return None;
    }
    assert(end_of_text(bytes@, start as int, limit as int) == Some(end as int));
    match utf8_text(&bytes[start..end]) {
        Some(s) => {
            proof {
                vstd::utf8::encode_utf8_decode_utf8(s@);
            }
            Some(s.to_owned())
        },
        None => None,
    }
}

/// The texts at the given places of a string table, in order; the error where
/// one of them is missing.
pub open spec fn texts_at(bytes: Seq<u8>, table: SectionHeader, places: Seq<u64>) -> Result<
    Seq<Seq<char>>,
    ElfError,
>
    decreases places.len(),
{
    if places.len() == 0 {
        Ok(Seq::empty())
    } else {
        match texts_at(bytes, table, places.drop_last()) {
            Err(error) => Err(error),
            Ok(found) => match text_at(bytes, table, places.last()) {
                None => Err(ElfError::BadString),
                Some(text) => Ok(found.push(text)),
            },
        }
    }
}

/// Reads the texts at the given places of a string table; where `once` is
/// set, a text that occurs again is left out.
fn read_texts(bytes: &[u8], table: &SectionHeader, places: &Vec<u64>, once: bool) -> (result:
    Result<Vec<String>, ElfError>)
    requires
        table.fits(bytes@.len()),
    ensures
        match result {
            Ok(names) => match texts_at(bytes@, *table, places@) {
                Ok(found) => texts(names@) == if once {
                    distinct(found)
                } else {
                    found
                },
                Err(_) => false,
            },
            Err(error) => texts_at(bytes@, *table, places@) == Err::<Seq<Seq<char>>, ElfError>(
                error,
            ),
        },
{
    let mut names: Vec<String> = Vec::new();
    let mut i: usize = 0;
    assert(places@.take(0) =~= Seq::empty());
    assert(texts(names@) =~= Seq::empty());
    while i < places.len()
        invariant
            i <= places.len(),
            table.fits(bytes@.len()),
            match texts_at(bytes@, *table, places@.take(i as int)) {
                Ok(found) => texts(names@) == if once {
                    distinct(found)
                } else {
                    found
                },
                Err(_) => false,
            },
        decreases places.len() - i,
    {
        proof {
            assert(places@.take(i + 1).drop_last() =~= places@.take(i as int));
            assert(places@.take(i + 1).last() == places@[i as int]);
        }
        match read_text(bytes, table, places[i]) {
            None => {
                proof {
                    lemma_texts_at_fails(bytes@, *table, places@, i + 1);
                }
                return Err(ElfError::BadString);
            },
            Some(text) => {
                proof {
                    let found = texts_at(bytes@, *table, places@.take(i as int))->Ok_0;
                    assert(found.push(text@).drop_last() =~= found);
                }
                if once {
                    push_distinct(&mut names, text);
                } else {
                    let ghost before = texts(names@);
                    names.push(text);
                    assert(texts(names@) =~= before.push(text@));
                }
            },
        }
        i = i + 1;
    }
    assert(places@.take(i as int) =~= places@);
    Ok(names)
}

/// An error among the first places is the error of the whole row.
proof fn lemma_texts_at_fails(bytes: Seq<u8>, table: SectionHeader, places: Seq<u64>, k: int)
    requires
        0 <= k <= places.len(),
        texts_at(bytes, table, places.take(k)) is Err,
    ensures
        texts_at(bytes, table, places) == texts_at(bytes, table, places.take(k)),
    decreases places.len() - k,
{
    if k < places.len() {
        assert(places.take(k + 1).drop_last() =~= places.take(k));
        lemma_texts_at_fails(bytes, table, places, k + 1);
    } else {
        assert(places.take(k) =~= places);
    }
}

/// Length of an entry of a table of dynamic symbols (`symbols` set) or of a
/// dynamic section.
pub open spec fn entry_len(wide: bool, symbols: bool) -> int {
    if symbols {
        symbol_entry_len(wide)
    } else {
        dynamic_entry_len(wide)
    }
}

/// The place in the string table that entry `k` of a section refers to, if
/// the entry counts. In a table of dynamic symbols that is the name of a
/// symbol that has one; in a dynamic section, the value of an entry whose tag
/// says that it names a required library.
pub open spec fn place_of_entry(
    bytes: Seq<u8>,
    header: ElfHeader,
    section: SectionHeader,
    symbols: bool,
    k: int,
) -> Option<u64> {
    let at = section.offset + k * entry_len(header.wide(), symbols);
    if symbols {
        let name = u32_at(bytes, at, header.big());
        if name != 0 {
            Some(name as u64)
        } else {
            None
        }
    } else if word_at(bytes, at, header.big(), header.wide()) == TAG_NEEDED {
        Some(
            word_at(
                bytes,
                at + if header.wide() {
                    8int
                } else {
                    4int
                },
                header.big(),
                header.wide(),
            ),
        )
    } else {
        None
    }
}

/// The places that the first `count` entries of a section refer to, in order.
pub open spec fn places_of(
    bytes: Seq<u8>,
    header: ElfHeader,
    section: SectionHeader,
    symbols: bool,
    count: int,
) -> Seq<u64>
    decreases count,
{
    if count <= 0 {
        Seq::empty()
    } else {
        let before = places_of(bytes, header, section, symbols, count - 1);
        match place_of_entry(bytes, header, section, symbols, count - 1) {
            Some(place) => before.push(place),
            None => before,
        }
    }
}

/// The names that a section lists: the required libraries of a dynamic
/// section, each once and in the order of its first mention, or the names of
/// the named symbols of a table of dynamic symbols (`symbols` set). The names
/// are read from the string table that the section links to.
pub open spec fn names_in(
    bytes: Seq<u8>,
    header: ElfHeader,
    section: SectionHeader,
    symbols: bool,
) -> Result<Seq<Seq<char>>, ElfError> {
    let len = entry_len(header.wide(), symbols);
    let table = section_at(bytes, header, section.link as int);
    if !sections_fit(bytes, header) {
        Err(ElfError::BadSectionTable)
    } else if !section.fits(bytes.len()) || (section.size as int) % len != 0 || section.link
        >= header.sh_num || !table.fits(bytes.len()) {
        Err(ElfError::BadSection)
    } else {
        match texts_at(
            bytes,
            table,
            places_of(bytes, header, section, symbols, (section.size as int) / len),
        ) {
            Err(error) => Err(error),
            Ok(found) => Ok(
                if symbols {
                    found
                } else {
                    distinct(found)
                },
            ),
        }
    }
}

/// Reads the names that a section lists.
#[verifier::rlimit(30)]
fn read_names(bytes: &[u8], header: &ElfHeader, section: &SectionHeader, symbols: bool) -> (result:
    Result<Vec<String>, ElfError>)
    ensures
        match result {
            Ok(names) => names_in(bytes@, *header, *section, symbols) == Ok::<
                Seq<Seq<char>>,
                ElfError,
            >(texts(names@)),
            Err(error) => names_in(bytes@, *header, *section, symbols) == Err::<
                Seq<Seq<char>>,
                ElfError,
            >(error),
        },
{
    let wide = header.class == 2;
    let big = header.endianess == 2;
    let len: u64 = if symbols {
        if wide {
            24
        } else {
            16
        }
    } else if wide {
        16
    } else {
        8
    };
    if !check_sections(bytes, header) {
        return Err(ElfError::BadSectionTable);
    }
    if !section.lies_within(bytes) || section.size % len != 0 || section.link
        >= header.sh_num as u32 {
        return Err(ElfError::BadSection);
    }
    let table = section_of(bytes, header, section.link as u16);
    if !table.lies_within(bytes) {
        return Err(ElfError::BadSection);
    }
    let count = section.size / len;
    let total = bytes.len();
    let mut places: Vec<u64> = Vec::new();
    let mut k: u64 = 0;
    let mut at: u64 = section.offset;
    while k < count
        invariant
            k <= count,
            count == section.size / len,
            section.size % len == 0,
            len == entry_len(header.wide(), symbols),
            wide == header.wide(),
            big == header.big(),
            total == bytes.len(),
            section.offset + section.size <= total,
            at == section.offset + k * len,
            places@ == places_of(bytes@, *header, *section, symbols, k as int),
        decreases count - k,
    {
        proof {
            assert(k * len + len <= count * len && (k + 1) * len == k * len + len) by (nonlinear_arith)
                requires
                    0 <= k < count,
                    len > 0,
            ;
            assert(count * len == section.size) by (nonlinear_arith)
                requires
                    count == section.size / len,
                    section.size % len == 0,
                    len > 0,
            ;
        }
        let here = at as usize;
        if symbols {
            let name = read_u32(bytes, here, big);
            if name != 0 {
                places.push(name as u64);
            }
        } else if read_word(bytes, here, big, wide) == TAG_NEEDED {
            let value = if wide {
                read_word(bytes, here + 8, big, wide)
            } else {
                read_word(bytes, here + 4, big, wide)
            };
            places.push(value);
        }
        k = k + 1;
        at = at + len;
    }
    read_texts(bytes, &table, &places, !symbols)
}

/// The libraries that a dynamic section requires, each once and in the order
/// of its first mention.
pub fn get_dynamic_libs(bytes: &[u8], header: &ElfHeader, section: &SectionHeader) -> (result:
    Result<Vec<String>, ElfError>)
    ensures
        match result {
            Ok(libs) => names_in(bytes@, *header, *section, false) == Ok::<
                Seq<Seq<char>>,
                ElfError,
            >(texts(libs@)),
            Err(error) => names_in(bytes@, *header, *section, false) == Err::<
                Seq<Seq<char>>,
                ElfError,
            >(error),
        },
{
    read_names(bytes, header, section, false)
}

/// The names of the named symbols of a table of dynamic symbols, in the order
/// of the table.
pub fn get_dyn_func(bytes: &[u8], header: &ElfHeader, section: &SectionHeader) -> (result: Result<
    Vec<String>,
    ElfError,
>)
    ensures
        match result {
            Ok(funcs) => names_in(bytes@, *header, *section, true) == Ok::<
                Seq<Seq<char>>,
                ElfError,
            >(texts(funcs@)),
            Err(error) => names_in(bytes@, *header, *section, true) == Err::<
                Seq<Seq<char>>,
                ElfError,
            >(error),
        },
{
    read_names(bytes, header, section, true)
}

/// What the header and the sections of a binary say.
#[derive(Debug, PartialEq, Eq)]
pub struct ElfDynamic {
    pub header: ElfHeader,
    /// The required libraries, each once, in the order of their first mention.
    pub libs: Vec<String>,
    /// The names of the dynamic symbols, in the order of their table.
    pub funcs: Vec<String>,
}

/// The mathematical value of an [`ElfDynamic`].
pub ghost struct ElfDynamicView {
    pub header: ElfHeader,
    pub libs: Seq<Seq<char>>,
    pub funcs: Seq<Seq<char>>,
}

impl View for ElfDynamic {
    type V = ElfDynamicView;

    open spec fn view(&self) -> ElfDynamicView {
        ElfDynamicView { header: self.header, libs: texts(self.libs@), funcs: texts(self.funcs@) }
    }
}

/// The libraries and the symbols on record after section `index` has been
/// looked at: a table of dynamic symbols replaces the symbols, a dynamic
/// section replaces the libraries, any other section changes nothing.
#[verifier::opaque]
pub open spec fn scan_section(
    bytes: Seq<u8>,
    header: ElfHeader,
    index: int,
    names: (Seq<Seq<char>>, Seq<Seq<char>>),
) -> Result<(Seq<Seq<char>>, Seq<Seq<char>>), ElfError> {
    let section = section_at(bytes, header, index);
    if section.section_type == SECTION_DYNSYM {
        match names_in(bytes, header, section, true) {
            Err(error) => Err(error),
            Ok(funcs) => Ok((names.0, funcs)),
        }
    } else if section.section_type == SECTION_DYNAMIC {
        match names_in(bytes, header, section, false) {
            Err(error) => Err(error),
            Ok(libs) => Ok((libs, names.1)),
        }
    } else {
        Ok(names)
    }
}

/// The libraries and the symbols that the first `count` sections list. Of two
/// dynamic sections the later one counts, and so of two tables of dynamic
/// symbols; the first section that cannot be read decides the error.
pub open spec fn scan_sections(bytes: Seq<u8>, header: ElfHeader, count: int) -> Result<
    (Seq<Seq<char>>, Seq<Seq<char>>),
    ElfError,
>
    decreases count,
{
    if count <= 0 {
        Ok((Seq::empty(), Seq::empty()))
    } else {
        match scan_sections(bytes, header, count - 1) {
            Err(error) => Err(error),
            Ok(names) => scan_section(bytes, header, count - 1, names),
        }
    }
}

/// Looks at section `index` and brings the libraries and the symbols on
/// record up to date.
fn look_at_section(
    bytes: &[u8],
    header: &ElfHeader,
    index: u16,
    libs: &mut Vec<String>,
    funcs: &mut Vec<String>,
) -> (result: Result<(), ElfError>)
    requires
        sections_fit(bytes@, *header),
        index < header.sh_num,
    ensures
        match result {
            Ok(_) => scan_section(
                bytes@,
                *header,
                index as int,
                (texts(old(libs)@), texts(old(funcs)@)),
            ) == Ok::<(Seq<Seq<char>>, Seq<Seq<char>>), ElfError>(
                (texts(final(libs)@), texts(final(funcs)@)),
            ),
            Err(error) => scan_section(
                bytes@,
                *header,
                index as int,
                (texts(old(libs)@), texts(old(funcs)@)),
            ) == Err::<(Seq<Seq<char>>, Seq<Seq<char>>), ElfError>(error),
        },
{
    reveal(scan_section);
    let section = section_of(bytes, header, index);
    if section.section_type == SECTION_DYNSYM {
        match get_dyn_func(bytes, header, &section) {
            Ok(found) => {
                *funcs = found;
                Ok(())
            },
            Err(error) => Err(error),
        }
    } else if section.section_type == SECTION_DYNAMIC {
        match get_dynamic_libs(bytes, header, &section) {
            Ok(found) => {
                *libs = found;
                Ok(())
            },
            Err(error) => Err(error),
        }
    } else {
        Ok(())
    }
}

/// What a file says as an ELF binary: its header, the libraries that it
/// requires and its dynamic symbols; or the reason why it cannot be read.
pub open spec fn dynamic_of(bytes: Seq<u8>) -> Result<ElfDynamicView, ElfError> {
    match header_of(bytes) {
        None => Err(ElfError::BadHeader),
        Some(header) => if !sections_fit(bytes, header) {
            Err(ElfError::BadSectionTable)
        } else {
            match scan_sections(bytes, header, header.sh_num as int) {
                Err(error) => Err(error),
                Ok(names) => Ok(ElfDynamicView { header, libs: names.0, funcs: names.1 }),
            }
        },
    }
}

/// Reads a file as an ELF binary. A file that is cut short or otherwise
/// malformed gives an error, whatever its bytes are.
#[verifier::rlimit(30)]
pub fn read_dynamic(bytes: &[u8]) -> (result: Result<ElfDynamic, ElfError>)
    ensures
        match result {
            Ok(dynamic) => dynamic_of(bytes@) == Ok::<ElfDynamicView, ElfError>(dynamic@),
            Err(error) => dynamic_of(bytes@) == Err::<ElfDynamicView, ElfError>(error),
        },
{
    let header = match ElfHeader::parse(bytes) {
        Some(header) => header,
        None => {
            return Err(ElfError::BadHeader);
        },
    };
    if !check_sections(bytes, &header) {
        return Err(ElfError::BadSectionTable);
    }
    let mut libs: Vec<String> = Vec::new();
    let mut funcs: Vec<String> = Vec::new();
    let mut index: u16 = 0;
    assert(texts(libs@) =~= Seq::empty());
    assert(texts(funcs@) =~= Seq::empty());
    while index < header.sh_num
        invariant
            index <= header.sh_num,
            header_of(bytes@) == Some(header),
            sections_fit(bytes@, header),
            scan_sections(bytes@, header, index as int) == Ok::<
                (Seq<Seq<char>>, Seq<Seq<char>>),
                ElfError,
            >((texts(libs@), texts(funcs@))),
        decreases header.sh_num - index,
    {
        match look_at_section(bytes, &header, index, &mut libs, &mut funcs) {
            Ok(_) => {},
            Err(error) => {
                proof {
                    lemma_scan_fails(bytes@, header, index + 1, header.sh_num as int);
                }
                return Err(error);
            },
        }
        index = index + 1;
    }
    Ok(ElfDynamic { header, libs, funcs })
}

/// An error among the first sections is the error of the whole scan.
proof fn lemma_scan_fails(bytes: Seq<u8>, header: ElfHeader, k: int, count: int)
    requires
        0 <= k <= count,
        scan_sections(bytes, header, k) is Err,
    ensures
        scan_sections(bytes, header, count) == scan_sections(bytes, header, k),
    decreases count - k,
{
    if k < count {
        lemma_scan_fails(bytes, header, k, count - 1);
    }
}

} // verus!
