//! The extension table: a type tag from the part of a name after its last dot.
use vstd::prelude::*;
use crate::file::{FileType, FileTypeView};
use crate::text::after_last;

verus! {

/// The part of `name` after its last `.`; the whole name if it has none.
pub open spec fn extension_of(name: Seq<char>) -> Seq<char> {
    after_last(name, '.')
}

/// The table from extension to type tag.
pub open spec fn type_of_extension(ext: Seq<char>) -> FileTypeView {
    if ext == "txt"@ {
        FileTypeView::Text
    } else if ext == "sh"@ {
        FileTypeView::Sh
    } else if ext == "h"@ || ext == "hpp"@ {
        FileTypeView::Header
    } else if ext == "c"@ || ext == "cpp"@ {
        FileTypeView::Source
    } else if ext == "ko"@ {
        FileTypeView::Driver
    } else if ext == "md"@ || ext == "markdown"@ {
        FileTypeView::Markdown
    } else if ext == "html"@ || ext == "htm"@ {
        FileTypeView::Html
    } else if ext == "xhtml"@ || ext == "xht"@ {
        FileTypeView::XHtml
    } else if ext == "php"@ {
        FileTypeView::Php
    } else if ext == "js"@ {
        FileTypeView::Js
    } else if ext == "asp"@ {
        FileTypeView::Asp
    } else if ext == "aspx"@ {
        FileTypeView::Aspx
    } else {
        FileTypeView::Data
    }
}

/// The characters of `name` after its last dot.
fn extension_chars(name: &str) -> (ext: Vec<char>)
    ensures
        ext@ == extension_of(name@),
{
    let mut ext: Vec<char> = Vec::new();
    for c in it: name.chars()
        invariant
            it.seq() == name@,
            ext@ == extension_of(name@.take(it.index() as int)),
    {
        proof {
            let k = it.index() as int;
            assert(name@.take(k + 1).drop_last() =~= name@.take(k));
            assert(name@.take(k + 1).last() == c);
        }
        if c == '.' {
            ext = Vec::new();
        } else {
            ext.push(c);
        }
    }
    proof {
        assert(name@.take(name@.len() as int) =~= name@);
    }
    ext
}

/// Whether `chars` spells `word`.
fn spells(chars: &Vec<char>, word: &str) -> (same: bool)
    ensures
        same == (chars@ == word@),
{
    let n = word.unicode_len();
    if chars.len() != n {
        return false;
    }
    let mut i: usize = 0;
    while i < n
        invariant
            i <= n,
            n == word@.len(),
            n == chars@.len(),
            forall|k: int| 0 <= k < i ==> chars@[k] == word@[k],
        decreases n - i,
    {
        if chars[i] != word.get_char(i) {
            return false;
        }
        i = i + 1;
    }
    assert(chars@ =~= word@);
    true
}

/// Tags an unrecognised file by the extension of its name. A file that
/// already has a tag keeps it, and so does one whose extension is not in the
/// table.
pub fn check_extension(file_name: &str, file_type: &mut FileType)
    ensures
        old(file_type)@ == FileTypeView::Data ==> final(file_type)@ == type_of_extension(
            extension_of(file_name@),
        ),
        old(file_type)@ != FileTypeView::Data ==> *final(file_type) == *old(file_type),
{
    match file_type {
        FileType::Data => {
            let ext = extension_chars(file_name);
            if spells(&ext, "txt") {
                *file_type = FileType::Text;
            } else if spells(&ext, "sh") {
                *file_type = FileType::Sh;
            } else if spells(&ext, "h") || spells(&ext, "hpp") {
                *file_type = FileType::Header;
            } else if spells(&ext, "c") || spells(&ext, "cpp") {
                *file_type = FileType::Source;
            } else if spells(&ext, "ko") {
                *file_type = FileType::Driver;
            } else if spells(&ext, "md") || spells(&ext, "markdown") {
                *file_type = FileType::Markdown;
            } else if spells(&ext, "html") || spells(&ext, "htm") {
                *file_type = FileType::Html;
            } else if spells(&ext, "xhtml") || spells(&ext, "xht") {
                *file_type = FileType::XHtml;
            } else if spells(&ext, "php") {
                *file_type = FileType::Php;
            } else if spells(&ext, "js") {
                *file_type = FileType::Js;
            } else if spells(&ext, "asp") {
                *file_type = FileType::Asp;
            } else if spells(&ext, "aspx") {
                *file_type = FileType::Aspx;
            }
        },
        _ => {},
    }
}

} // verus!
