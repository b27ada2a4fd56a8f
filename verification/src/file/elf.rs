//! ELF binaries: what the analysis of one finds out, within a snapshot or on
//! its own.
use vstd::prelude::*;
use crate::diagnostic::{findings, report, Diagnostic, DiagnosticView};
use crate::file::FileType;
use crate::fstree::node::{ref_views, Node, NodeView};
use crate::text::texts;

pub mod dynamic;
pub mod header;

pub use dynamic::{
    check_sections, dynamic_of, get_dyn_func, get_dynamic_libs, read_dynamic, read_section,
    read_text, ElfDynamic, ElfDynamicView, ElfError, SectionHeader, SECTION_DYNAMIC,
    SECTION_DYNSYM, TAG_NEEDED,
};
pub use header::{
    has_elf_signature, header_of, starts_with_signature, ElfHeader, ElfHeader32, HEADER32_LEN,
    HEADER64_LEN,
};

verus! {

/// The outcome of a comparison of two binaries beyond their shapes. It has
/// nothing in it: `simple_elf_cmp` says all that is compared.
#[derive(Debug, Clone, Copy, PartialEq, Eq, Structural)]
pub struct ElfCmpResult {}

/// What the analysis of one ELF binary found.
#[derive(Debug, PartialEq, Eq)]
pub struct ElfData {
    /// Size of the file in bytes.
    pub size: u64,
    /// Number of program headers that the ELF header declares.
    pub ph_num: u16,
    /// Number of section headers that the ELF header declares.
    pub sh_num: u16,
    /// Each required library that was found exactly once in the snapshot, with
    /// the local path of the node that provides it.
    pub dyn_libs: Vec<(String, String)>,
    /// Names of the dynamic symbols.
    pub dyn_funcs: Vec<String>,
}

/// The mathematical value of an [`ElfData`].
pub ghost struct ElfDataView {
    pub size: u64,
    pub ph_num: u16,
    pub sh_num: u16,
    pub dyn_libs: Seq<(Seq<char>, Seq<char>)>,
    pub dyn_funcs: Seq<Seq<char>>,
}

impl View for ElfData {
    type V = ElfDataView;

    open spec fn view(&self) -> ElfDataView {
        ElfDataView {
            size: self.size,
            ph_num: self.ph_num,
            sh_num: self.sh_num,
            dyn_libs: Seq::new(
                self.dyn_libs.len() as nat,
                |i: int| (self.dyn_libs[i].0@, self.dyn_libs[i].1@),
            ),
            dyn_funcs: Seq::new(self.dyn_funcs.len() as nat, |i: int| self.dyn_funcs[i]@),
        }
    }
}

impl ElfData {
    /// An analysis result with nothing in it.
    pub fn new() -> (data: Self)
        ensures
            data@ == (ElfDataView {
                size: 0,
                ph_num: 0,
                sh_num: 0,
                dyn_libs: Seq::empty(),
                dyn_funcs: Seq::empty(),
            }),
    {
        let data = Self { size: 0, ph_num: 0, sh_num: 0, dyn_libs: Vec::new(), dyn_funcs: Vec::new() };
        assert(data@.dyn_libs =~= Seq::empty());
        assert(data@.dyn_funcs =~= Seq::empty());
        data
    }

    /// A copy of the result.
    pub fn duplicate(&self) -> (copy: Self)
        ensures
            copy@ == self@,
    {
        let mut dyn_libs: Vec<(String, String)> = Vec::new();
        let mut i: usize = 0;
        while i < self.dyn_libs.len()
            invariant
                i <= self.dyn_libs.len(),
                dyn_libs.len() == i,
                forall|k: int|
                    0 <= k < i ==> (#[trigger] dyn_libs[k]).0@ == self.dyn_libs[k].0@
                        && dyn_libs[k].1@ == self.dyn_libs[k].1@,
            decreases self.dyn_libs.len() - i,
        {
            dyn_libs.push((self.dyn_libs[i].0.clone(), self.dyn_libs[i].1.clone()));
            i = i + 1;
        }
        let mut dyn_funcs: Vec<String> = Vec::new();
        let mut j: usize = 0;
        while j < self.dyn_funcs.len()
            invariant
                j <= self.dyn_funcs.len(),
                dyn_funcs.len() == j,
                forall|k: int| 0 <= k < j ==> (#[trigger] dyn_funcs[k])@ == self.dyn_funcs[k]@,
            decreases self.dyn_funcs.len() - j,
        {
            dyn_funcs.push(self.dyn_funcs[j].clone());
            j = j + 1;
        }
        let copy = Self {
            size: self.size,
            ph_num: self.ph_num,
            sh_num: self.sh_num,
            dyn_libs,
            dyn_funcs,
        };
        assert(copy@.dyn_libs =~= self@.dyn_libs);
        assert(copy@.dyn_funcs =~= self@.dyn_funcs);
        copy
    }

    /// The local path of the file that provides the library `name`, where the
    /// library was resolved.
    pub fn find_lib(&self, name: &str) -> (found: Option<&String>)
        ensures
            match found {
                Some(path) => exists|i: int|
                    0 <= i < self@.dyn_libs.len() && (#[trigger] self@.dyn_libs[i]) == (
                        name@,
                        path@,
                    ) && forall|j: int| 0 <= j < i ==> (#[trigger] self@.dyn_libs[j]).0 != name@,
                None => forall|i: int|
                    0 <= i < self@.dyn_libs.len() ==> (#[trigger] self@.dyn_libs[i]).0 != name@,
            },
    {
        let wanted = name.to_owned();
        let mut i: usize = 0;
        while i < self.dyn_libs.len()
            invariant
                i <= self.dyn_libs.len(),
                wanted@ == name@,
                forall|j: int| 0 <= j < i ==> (#[trigger] self@.dyn_libs[j]).0 != name@,
            decreases self.dyn_libs.len() - i,
        {
            if self.dyn_libs[i].0 == wanted {
                assert(self@.dyn_libs[i as int] == (name@, self.dyn_libs[i as int].1@));
                return Some(&self.dyn_libs[i].1);
            }
            i = i + 1;
        }
        None
    }
}

/// Tags an unrecognised file as ELF when its bytes start with the ELF
/// signature. A file that already has a tag keeps it.
pub fn check_elf(ptr: &[u8], file_type: &mut FileType)
    ensures
        old(file_type)@ == crate::file::FileTypeView::Data && has_elf_signature(ptr@)
            ==> final(file_type)@ == crate::file::FileTypeView::Elf(None),
        !(old(file_type)@ == crate::file::FileTypeView::Data && has_elf_signature(ptr@))
            ==> *final(file_type) == *old(file_type),
{
    if starts_with_signature(ptr) {
        match file_type {
            FileType::Data => {
                *file_type = FileType::Elf(None);
            },
            _ => {},
        }
    }
}

/// Whether two files differ in the numbers of program headers or of section
/// headers that their ELF headers declare. Files of either class are
/// compared. A file without a readable header differs from one that has one,
/// and not from another file without.
pub open spec fn shapes_differ(first: Seq<u8>, second: Seq<u8>) -> bool {
    match (header_of(first), header_of(second)) {
        (Some(a), Some(b)) => a.ph_num != b.ph_num || a.sh_num != b.sh_num,
        (None, None) => false,
        _ => true,
    }
}

/// Compares the shapes of two ELF files: `true` where they differ.
pub fn simple_elf_cmp(ptr1: &[u8], ptr2: &[u8]) -> (res: bool)
    ensures
        res == shapes_differ(ptr1@, ptr2@),
{
    match (ElfHeader::parse(ptr1), ElfHeader::parse(ptr2)) {
        (Some(a), Some(b)) => a.ph_num != b.ph_num || a.sh_num != b.sh_num,
        (None, None) => false,
        _ => true,
    }
}

/// The required libraries that can be told apart: each library whose name
/// exactly one file of the snapshot below `head` has, with the local path of
/// that file, in the order of `libs`.
pub open spec fn resolved(head: NodeView, libs: Seq<Seq<char>>) -> Seq<(Seq<char>, Seq<char>)>
    decreases libs.len(),
{
    if libs.len() == 0 {
        Seq::empty()
    } else {
        let found = head.files_named(libs.last());
        if found.len() == 1 {
            resolved(head, libs.drop_last()).push((libs.last(), found[0].local_path))
        } else {
            resolved(head, libs.drop_last())
        }
    }
}

/// The findings on the other required libraries of `binary`: a library whose
/// name no file has is missing, one whose name several files have is
/// ambiguous.
pub open spec fn unresolved(head: NodeView, binary: Seq<char>, libs: Seq<Seq<char>>) -> Seq<
    DiagnosticView,
>
    decreases libs.len(),
{
    if libs.len() == 0 {
        Seq::empty()
    } else {
        let found = head.files_named(libs.last());
        let before = unresolved(head, binary, libs.drop_last());
        if found.len() == 0 {
            before.push(DiagnosticView::MissingLibrary { binary, library: libs.last() })
        } else if found.len() > 1 {
            before.push(DiagnosticView::AmbiguousLibrary { binary, library: libs.last() })
        } else {
            before
        }
    }
}

/// Every required library is accounted for once: it is resolved, or there is
/// a finding on it.
pub proof fn lemma_every_library_is_accounted_for(
    head: NodeView,
    binary: Seq<char>,
    libs: Seq<Seq<char>>,
)
    ensures
        resolved(head, libs).len() + unresolved(head, binary, libs).len() == libs.len(),
    decreases libs.len(),
{
    if libs.len() > 0 {
        lemma_every_library_is_accounted_for(head, binary, libs.drop_last());
    }
}

/// A library is resolved only to a file of the snapshot that has its name.
pub proof fn lemma_resolved_to_a_file_of_that_name(head: NodeView, libs: Seq<Seq<char>>, i: int)
    requires
        0 <= i < resolved(head, libs).len(),
    ensures
        head.files_named(resolved(head, libs)[i].0).len() == 1,
        head.files_named(resolved(head, libs)[i].0)[0].local_path == resolved(head, libs)[i].1,
        head.files_named(resolved(head, libs)[i].0)[0].is_file_named(resolved(head, libs)[i].0),
        head.descendants().contains(head.files_named(resolved(head, libs)[i].0)[0]),
    decreases libs.len(),
{
    if libs.len() > 0 {
        let before = resolved(head, libs.drop_last());
        if i < before.len() {
            lemma_resolved_to_a_file_of_that_name(head, libs.drop_last(), i);
        } else {
            let keep = |node: NodeView| node.is_file_named(libs.last());
            head.descendants().lemma_filter_pred(keep, 0);
            lemma_kept_is_member(head.descendants(), keep, 0);
        }
    }
}

/// What a filter keeps of a row is an item of the row.
proof fn lemma_kept_is_member<A>(row: Seq<A>, keep: spec_fn(A) -> bool, k: int)
    requires
        0 <= k < row.filter(keep).len(),
    ensures
        row.contains(row.filter(keep)[k]),
    decreases row.len(),
{
    reveal(Seq::filter);
    if row.len() > 0 {
        let before = row.drop_last().filter(keep);
        if k < before.len() {
            lemma_kept_is_member(row.drop_last(), keep, k);
            let at = choose|at: int| 0 <= at < row.drop_last().len() && row.drop_last()[at] == before[k];
            assert(row[at] == before[k]);
        } else {
            assert(row[row.len() - 1] == row.filter(keep)[k]);
        }
    }
}

/// The result of the analysis of a binary of `size` bytes within the snapshot
/// below `head`; the error where the file cannot be read as an ELF binary.
pub open spec fn elf_data_of(head: NodeView, bytes: Seq<u8>, size: u64) -> Result<
    ElfDataView,
    ElfError,
> {
    match dynamic_of(bytes) {
        Err(error) => Err(error),
        Ok(dynamic) => Ok(
            ElfDataView {
                size,
                ph_num: dynamic.header.ph_num,
                sh_num: dynamic.header.sh_num,
                dyn_libs: resolved(head, dynamic.libs),
                dyn_funcs: dynamic.funcs,
            },
        ),
    }
}

/// The result of the analysis of a binary on its own: nothing is looked up,
/// so that no library is resolved and no symbol is kept.
pub open spec fn plain_elf_data_of(bytes: Seq<u8>, size: u64) -> Result<ElfDataView, ElfError> {
    match dynamic_of(bytes) {
        Err(error) => Err(error),
        Ok(dynamic) => Ok(
            ElfDataView {
                size,
                ph_num: dynamic.header.ph_num,
                sh_num: dynamic.header.sh_num,
                dyn_libs: Seq::empty(),
                dyn_funcs: Seq::empty(),
            },
        ),
    }
}

/// Analyses a binary on its own: its size and the shape that its header
/// declares, once all of its sections have been read without error.
pub fn analyse_elf(bytes: &[u8], size: u64) -> (result: Result<ElfData, ElfError>)
    ensures
        match result {
            Ok(data) => plain_elf_data_of(bytes@, size) == Ok::<ElfDataView, ElfError>(data@),
            Err(error) => plain_elf_data_of(bytes@, size) == Err::<ElfDataView, ElfError>(error),
        },
{
    match read_dynamic(bytes) {
        Err(error) => Err(error),
        Ok(dynamic) => {
            let mut elf_data = ElfData::new();
            elf_data.size = size;
            elf_data.ph_num = dynamic.header.ph_num;
            elf_data.sh_num = dynamic.header.sh_num;
            assert(elf_data@.dyn_libs =~= Seq::empty());
            assert(elf_data@.dyn_funcs =~= Seq::empty());
            Ok(elf_data)
        },
    }
}

/// Analyses the binary at `path` within the snapshot below `head_node`:
/// reads its required libraries and its dynamic symbols and looks every
/// library up by name among all files of the snapshot. A library that exactly
/// one file provides is resolved to that file; of any other library a finding
/// is appended to `diagnostics`. A file that cannot be read as an ELF binary
/// gives an error and no finding.
pub fn analyse_elf2(
    head_node: &Node,
    path: &str,
    bytes: &[u8],
    size: u64,
    diagnostics: &mut Vec<Diagnostic>,
) -> (result: Result<ElfData, ElfError>)
    ensures
        match result {
            Ok(data) => elf_data_of(head_node@, bytes@, size) == Ok::<ElfDataView, ElfError>(data@)
                && findings(final(diagnostics)@) == findings(old(diagnostics)@) + unresolved(
                head_node@,
                path@,
                dynamic_of(bytes@)->Ok_0.libs,
            ),
            Err(error) => elf_data_of(head_node@, bytes@, size) == Err::<ElfDataView, ElfError>(
                error,
            ) && findings(final(diagnostics)@) == findings(old(diagnostics)@),
        },
{
    let dynamic = match read_dynamic(bytes) {
        Ok(dynamic) => dynamic,
        Err(error) => {
            return Err(error);
        },
    };
    let ghost libs = texts(dynamic.libs@);
    let ghost base = findings(diagnostics@);
    let mut dyn_libs: Vec<(String, String)> = Vec::new();
    let n = dynamic.libs.len();
    let mut i: usize = 0;
    proof {
        assert(libs.take(0) =~= Seq::empty());
        assert(base + Seq::<DiagnosticView>::empty() =~= base);
    }
    while i < n
        invariant
            i <= n,
            n == dynamic.libs.len(),
            libs == texts(dynamic.libs@),
            Seq::new(dyn_libs.len() as nat, |k: int| (dyn_libs[k].0@, dyn_libs[k].1@)) == resolved(
                head_node@,
                libs.take(i as int),
            ),
            findings(diagnostics@) == base + unresolved(head_node@, path@, libs.take(i as int)),
        decreases n - i,
    {
        let lib = &dynamic.libs[i];
        let ghost pairs = Seq::new(dyn_libs.len() as nat, |k: int| (dyn_libs[k].0@, dyn_libs[k].1@));
        proof {
            assert(libs.take(i + 1).drop_last() =~= libs.take(i as int));
            assert(libs.take(i + 1).last() == lib@);
        }
        let node_list = head_node.find_node_by_name_rec(lib.as_str());
        assert(ref_views(node_list@).len() == node_list.len());
        if node_list.len() == 1 {
            let target = node_list[0].local_path();
            assert(ref_views(node_list@)[0] == node_list[0]@);
            dyn_libs.push((lib.clone(), target));
            assert(Seq::new(dyn_libs.len() as nat, |k: int| (dyn_libs[k].0@, dyn_libs[k].1@))
                =~= pairs.push((lib@, target@)));
        } else if node_list.len() == 0 {
            report(
                diagnostics,
                Diagnostic::MissingLibrary { binary: path.to_owned(), library: lib.clone() },
            );
        } else {
            report(
                diagnostics,
                Diagnostic::AmbiguousLibrary { binary: path.to_owned(), library: lib.clone() },
            );
        }
        proof {
            let step = unresolved(head_node@, path@, libs.take(i + 1));
            assert(findings(diagnostics@) =~= base + step);
        }
        i = i + 1;
    }
    assert(libs.take(n as int) =~= libs);
    let elf_data = ElfData {
        size,
        ph_num: dynamic.header.ph_num,
        sh_num: dynamic.header.sh_num,
        dyn_libs,
        dyn_funcs: dynamic.funcs,
    };
    assert(elf_data@.dyn_funcs =~= texts(dynamic.funcs@));
    Ok(elf_data)
}

} // verus!
