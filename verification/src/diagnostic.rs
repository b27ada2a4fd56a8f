//! What an analysis pass has to report beside its result.
use vstd::prelude::*;
use crate::file::elf::ElfError;

verus! {

/// One finding of an analysis pass. None of them stops the pass.
#[derive(Debug, PartialEq, Eq)]
pub enum Diagnostic {
    /// No file of the snapshot has the name of a library that `binary`
    /// requires.
    MissingLibrary { binary: String, library: String },
    /// More than one file of the snapshot has the name of a library that
    /// `binary` requires, so that none of them was chosen.
    AmbiguousLibrary { binary: String, library: String },
    /// `binary` has the signature of an ELF file and could not be read as one.
    MalformedElf { binary: String, error: ElfError },
}

/// The mathematical value of a [`Diagnostic`].
pub ghost enum DiagnosticView {
    MissingLibrary { binary: Seq<char>, library: Seq<char> },
    AmbiguousLibrary { binary: Seq<char>, library: Seq<char> },
    MalformedElf { binary: Seq<char>, error: ElfError },
}

impl View for Diagnostic {
    type V = DiagnosticView;

    open spec fn view(&self) -> DiagnosticView {
        match *self {
            Diagnostic::MissingLibrary { binary, library } => DiagnosticView::MissingLibrary {
                binary: binary@,
                library: library@,
            },
            Diagnostic::AmbiguousLibrary { binary, library } => DiagnosticView::AmbiguousLibrary {
                binary: binary@,
                library: library@,
            },
            Diagnostic::MalformedElf { binary, error } => DiagnosticView::MalformedElf {
                binary: binary@,
                error,
            },
        }
    }
}

/// The values of a row of findings, in order.
pub open spec fn findings(row: Seq<Diagnostic>) -> Seq<DiagnosticView> {
    Seq::new(row.len(), |i: int| row[i]@)
}

/// Appends a finding to a row of findings.
pub fn report(row: &mut Vec<Diagnostic>, finding: Diagnostic)
    ensures
        findings(final(row)@) == findings(old(row)@).push(finding@),
{
    row.push(finding);
    assert(findings(row@) =~= findings(old(row)@).push(finding@));
}

} // verus!
