//! The snapshot of a directory tree.
use vstd::prelude::*;
use crate::contents::Contents;
use crate::diagnostic::{findings, Diagnostic, DiagnosticView};

pub mod node;

use node::{
    analysed, analysis_findings, hashed, lemma_counts_by_kind, ref_views, saturated, typed, Node,
    NodeView,
};

verus! {

/// A directory tree as it was found under a path of the system.
#[derive(Debug, PartialEq, Eq)]
pub struct FsTree {
    /// Path of the root directory on the system.
    pub path: String,
    /// The root directory.
    pub head_node: Node,
}

/// The mathematical value of an [`FsTree`].
pub ghost struct FsTreeView {
    pub path: Seq<char>,
    pub head_node: NodeView,
}

impl View for FsTree {
    type V = FsTreeView;

    open spec fn view(&self) -> FsTreeView {
        FsTreeView { path: self.path@, head_node: self.head_node@ }
    }
}

impl FsTreeView {
    /// The root is a directory without a parent, and the tree below it is
    /// well formed.
    pub open spec fn well_formed(self) -> bool {
        &&& self.head_node.is_dir()
        &&& self.head_node.parent is None
        &&& self.head_node.well_formed()
    }
}

/// What `count_files` and `count_dirs` give for a well-formed snapshot with
/// no more nodes than a `u64` counts: the number of files and the number of
/// directories below the root, at any depth, which together are the number of
/// nodes below the root. The root is not counted.
pub proof fn lemma_counts_of_a_snapshot(tree: FsTreeView)
    requires
        tree.well_formed(),
        tree.head_node.entries() <= u64::MAX,
    ensures
        saturated(tree.head_node.files().len()) == tree.head_node.entries_of(false),
        saturated(tree.head_node.dirs().len()) == tree.head_node.entries_of(true),
        saturated(tree.head_node.files().len()) + saturated(tree.head_node.dirs().len())
            == tree.head_node.entries(),
{
    lemma_counts_by_kind(tree.head_node);
}

impl FsTree {
    /// The number of directories below the root.
    pub fn count_dirs(&self) -> (count: u64)
        ensures
            count == saturated(self@.head_node.dirs().len()),
    {
        self.head_node.count_dirs_rec()
    }

    /// The number of files of the snapshot.
    pub fn count_files(&self) -> (count: u64)
        ensures
            count == saturated(self@.head_node.files().len()),
    {
        self.head_node.count_files_rec()
    }

    /// Classifies every file whose bytes are in `contents` and that is not
    /// larger than `MAX_FILE_SIZE`. A file that has a type tag keeps it.
    pub fn analyse_files_type(&mut self, contents: &Contents)
        ensures
            final(self)@ == (FsTreeView {
                head_node: typed(old(self)@.head_node, contents@),
                ..old(self)@
            }),
            old(self)@.well_formed() ==> final(self)@.well_formed(),
    {
        self.head_node.analyse_files_type_rec(contents);
    }

    /// Computes the digest of every file whose bytes are in `contents` and
    /// that is not larger than `MAX_FILE_SIZE`.
    pub fn calc_files_hash(&mut self, contents: &Contents)
        ensures
            final(self)@ == (FsTreeView {
                head_node: hashed(old(self)@.head_node, contents@),
                ..old(self)@
            }),
            old(self)@.well_formed() ==> final(self)@.well_formed(),
    {
        self.head_node.calc_files_hash_rec(contents);
    }

    /// The files of the snapshot, in the order of the walk.
    pub fn list_files(&self) -> (files: Vec<&Node>)
        ensures
            ref_views(files@) == self@.head_node.files(),
            files.len() == self@.head_node.files().len(),
    {
        self.head_node.list_files_rec()
    }

    /// Lists what the snapshot holds under `path`. Nothing is listed, and the
    /// snapshot stays as it is.
    #[allow(unused_variables)]
    pub fn list_path(&self, path: &str) {
    }

    /// Analyses every ELF binary whose bytes are in `contents`: its required
    /// libraries are looked up among all files of the snapshot. What comes
    /// back is what there is to report: the libraries that could not be
    /// resolved and the binaries that could not be read.
    pub fn analyse_binaries(&mut self, contents: &Contents) -> (diagnostics: Vec<Diagnostic>)
        ensures
            final(self)@ == (FsTreeView {
                head_node: analysed(old(self)@.head_node, old(self)@.head_node, contents@),
                ..old(self)@
            }),
            old(self)@.well_formed() ==> final(self)@.well_formed(),
            findings(diagnostics@) == analysis_findings(
                old(self)@.head_node,
                old(self)@.head_node,
                contents@,
            ),
    {
        let head_node = self.head_node.duplicate();
        let mut diagnostics: Vec<Diagnostic> = Vec::new();
        assert(findings(diagnostics@) =~= Seq::empty());
        self.head_node.analyse_binaries_rec(&head_node, contents, &mut diagnostics);
        assert(Seq::<DiagnosticView>::empty() + analysis_findings(
            old(self)@.head_node,
            old(self)@.head_node,
            contents@,
        ) =~= analysis_findings(old(self)@.head_node, old(self)@.head_node, contents@));
        diagnostics
    }
}

} // verus!
