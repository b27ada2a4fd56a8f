//! File classification: a type tag from a file's name and its first bytes.
use vstd::prelude::*;

pub mod elf;
pub mod extension;

verus! {

/// The type tag of a file. `Data` is the tag of a file that has not been
/// recognised; `Elf` carries the result of the binary analysis once it has run.
#[derive(Debug, PartialEq, Eq)]
pub enum FileType {
    Data,
    Text,
    SymLink,
    Sh,
    Elf(Option<elf::ElfData>),
    Driver,
    Pe,
    Header,
    Source,
    Markdown,
    Html,
    XHtml,
    Js,
    Php,
    Cgi,
    Asp,
    Aspx,
}

/// The mathematical value of a [`FileType`].
pub ghost enum FileTypeView {
    Data,
    Text,
    SymLink,
    Sh,
    Elf(Option<elf::ElfDataView>),
    Driver,
    Pe,
    Header,
    Source,
    Markdown,
    Html,
    XHtml,
    Js,
    Php,
    Cgi,
    Asp,
    Aspx,
}

impl View for FileType {
    type V = FileTypeView;

    open spec fn view(&self) -> FileTypeView {
        match *self {
            FileType::Data => FileTypeView::Data,
            FileType::Text => FileTypeView::Text,
            FileType::SymLink => FileTypeView::SymLink,
            FileType::Sh => FileTypeView::Sh,
            FileType::Elf(None) => FileTypeView::Elf(None),
            FileType::Elf(Some(data)) => FileTypeView::Elf(Some(data@)),
            FileType::Driver => FileTypeView::Driver,
            FileType::Pe => FileTypeView::Pe,
            FileType::Header => FileTypeView::Header,
            FileType::Source => FileTypeView::Source,
            FileType::Markdown => FileTypeView::Markdown,
            FileType::Html => FileTypeView::Html,
            FileType::XHtml => FileTypeView::XHtml,
            FileType::Js => FileTypeView::Js,
            FileType::Php => FileTypeView::Php,
            FileType::Cgi => FileTypeView::Cgi,
            FileType::Asp => FileTypeView::Asp,
            FileType::Aspx => FileTypeView::Aspx,
        }
    }
}

impl FileType {
    /// A copy of the tag.
    pub fn duplicate(&self) -> (copy: Self)
        ensures
            copy@ == self@,
    {
        match self {
            FileType::Data => FileType::Data,
            FileType::Text => FileType::Text,
            FileType::SymLink => FileType::SymLink,
            FileType::Sh => FileType::Sh,
            FileType::Elf(None) => FileType::Elf(None),
            FileType::Elf(Some(data)) => FileType::Elf(Some(data.duplicate())),
            FileType::Driver => FileType::Driver,
            FileType::Pe => FileType::Pe,
            FileType::Header => FileType::Header,
            FileType::Source => FileType::Source,
            FileType::Markdown => FileType::Markdown,
            FileType::Html => FileType::Html,
            FileType::XHtml => FileType::XHtml,
            FileType::Js => FileType::Js,
            FileType::Php => FileType::Php,
            FileType::Cgi => FileType::Cgi,
            FileType::Asp => FileType::Asp,
            FileType::Aspx => FileType::Aspx,
        }
    }
}

/// The tag that classification gives a file with this name and these bytes:
/// the signature decides first, the extension second.
pub open spec fn classify(file_name: Seq<char>, bytes: Seq<u8>) -> FileTypeView {
    if elf::has_elf_signature(bytes) {
        FileTypeView::Elf(None)
    } else {
        extension::type_of_extension(extension::extension_of(file_name))
    }
}

/// Classifies a file by its first bytes, then by its name.
pub fn check_type(file_name: &str, ptr: &[u8]) -> (file_type: FileType)
    ensures
        file_type@ == classify(file_name@, ptr@),
{
    let mut file_type = FileType::Data;
    elf::check_elf(ptr, &mut file_type);
    extension::check_extension(file_name, &mut file_type);
    file_type
}

/// Classification depends on the name and the bytes alone.
pub proof fn lemma_classify_is_a_function(
    name_a: Seq<char>,
    bytes_a: Seq<u8>,
    name_b: Seq<char>,
    bytes_b: Seq<u8>,
)
    requires
        name_a == name_b,
        bytes_a == bytes_b,
    ensures
        classify(name_a, bytes_a) == classify(name_b, bytes_b),
{
}

/// A file that starts with the ELF signature is an ELF file, whatever its name.
pub proof fn lemma_signature_beats_extension(file_name: Seq<char>, bytes: Seq<u8>)
    requires
        elf::has_elf_signature(bytes),
    ensures
        classify(file_name, bytes) == FileTypeView::Elf(None),
{
}

/// A file without the ELF signature gets the tag of its extension.
pub proof fn lemma_extension_decides_without_signature(file_name: Seq<char>, bytes: Seq<u8>)
    requires
        !elf::has_elf_signature(bytes),
    ensures
        classify(file_name, bytes) == extension::type_of_extension(
            extension::extension_of(file_name),
        ),
{
}

} // verus!
