//! Trees that can be compared: what is new, removed or modified between two
//! captures of a directory.
use vstd::prelude::*;
use crate::contents::{entry_of, Contents, FileEntryView, MAX_FILE_SIZE};
use crate::diagnostic::{findings, report, Diagnostic, DiagnosticView};
use crate::file::elf::{analyse_elf, dynamic_of, plain_elf_data_of, ElfData};
use crate::file::{check_type, classify, FileType, FileTypeView};
use crate::hash::{content_hash, digest};
use crate::node::{
    descendants_among, differs, gathered, gathered_among, gathered_child, lemma_descendants_step,
    lemma_mapped_among, lemma_mapped_keeps_well_formed, lemma_node_views, lookup, mapped,
    mapped_among, mapped_child, ref_views, with_descendants, NodeType, NodeTypeView, TreeNode,
    TreeNodeView,
};
use crate::fstree::node::saturated;
use crate::text::{after_last, local_path, local_path_of, part_after_last};

verus! {

/// The kinds of difference between two trees.
#[derive(Debug, Hash, Clone, Copy, PartialEq, Eq, Structural)]
pub enum FsUpdate {
    New,
    Removed,
    Moved,
    Modified,
}

/// The differences between two trees. `New` and `Modified` entries are nodes
/// of the second tree, `Removed` entries are nodes of the first. A directory
/// that is new or removed is one entry; what it holds is not listed. Nothing
/// is ever reported as `Moved`: a file that changed place shows as removed
/// from the one directory and new in the other.
pub struct TreeCmpResult<'a> {
    pub new_nodes: Vec<&'a TreeNode>,
    pub removed_nodes: Vec<&'a TreeNode>,
    pub moved_nodes: Vec<&'a TreeNode>,
    pub modified_nodes: Vec<&'a TreeNode>,
    /// The files among the new nodes.
    pub new_files: Vec<&'a TreeNode>,
    /// The directories among the new nodes.
    pub new_dirs: Vec<&'a TreeNode>,
    /// The files among the removed nodes.
    pub removed_files: Vec<&'a TreeNode>,
    /// The directories among the removed nodes.
    pub removed_dirs: Vec<&'a TreeNode>,
    /// A list that the comparison leaves as it finds it: every modified node
    /// is a file, and `modified_nodes` holds them all.
    pub modified_files: Vec<&'a TreeNode>,
}

/// The mathematical value of a [`TreeCmpResult`].
pub ghost struct TreeCmpResultView {
    pub new_nodes: Seq<TreeNodeView>,
    pub removed_nodes: Seq<TreeNodeView>,
    pub moved_nodes: Seq<TreeNodeView>,
    pub modified_nodes: Seq<TreeNodeView>,
    pub new_files: Seq<TreeNodeView>,
    pub new_dirs: Seq<TreeNodeView>,
    pub removed_files: Seq<TreeNodeView>,
    pub removed_dirs: Seq<TreeNodeView>,
    pub modified_files: Seq<TreeNodeView>,
}

impl<'a> View for TreeCmpResult<'a> {
    type V = TreeCmpResultView;

    open spec fn view(&self) -> TreeCmpResultView {
        TreeCmpResultView {
            new_nodes: ref_views(self.new_nodes@),
            removed_nodes: ref_views(self.removed_nodes@),
            moved_nodes: ref_views(self.moved_nodes@),
            modified_nodes: ref_views(self.modified_nodes@),
            new_files: ref_views(self.new_files@),
            new_dirs: ref_views(self.new_dirs@),
            removed_files: ref_views(self.removed_files@),
            removed_dirs: ref_views(self.removed_dirs@),
            modified_files: ref_views(self.modified_files@),
        }
    }
}

impl TreeCmpResultView {
    /// The entries of one kind.
    pub open spec fn of_kind(self, kind: FsUpdate) -> Seq<TreeNodeView> {
        match kind {
            FsUpdate::New => self.new_nodes,
            FsUpdate::Removed => self.removed_nodes,
            FsUpdate::Moved => self.moved_nodes,
            FsUpdate::Modified => self.modified_nodes,
        }
    }

    /// A result without entries.
    pub open spec fn empty() -> Self {
        TreeCmpResultView {
            new_nodes: Seq::empty(),
            removed_nodes: Seq::empty(),
            moved_nodes: Seq::empty(),
            modified_nodes: Seq::empty(),
            new_files: Seq::empty(),
            new_dirs: Seq::empty(),
            removed_files: Seq::empty(),
            removed_dirs: Seq::empty(),
            modified_files: Seq::empty(),
        }
    }

    /// This result with the differences between directory `a` and directory
    /// `b` appended to it.
    pub open spec fn with_updates(self, a: TreeNodeView, b: TreeNodeView) -> Self {
        TreeCmpResultView {
            new_nodes: self.new_nodes + updates(FsUpdate::New, a, b),
            removed_nodes: self.removed_nodes + updates(FsUpdate::Removed, a, b),
            moved_nodes: self.moved_nodes,
            modified_nodes: self.modified_nodes + updates(FsUpdate::Modified, a, b),
            new_files: self.new_files + files_of(updates(FsUpdate::New, a, b)),
            new_dirs: self.new_dirs + dirs_of(updates(FsUpdate::New, a, b)),
            removed_files: self.removed_files + files_of(updates(FsUpdate::Removed, a, b)),
            removed_dirs: self.removed_dirs + dirs_of(updates(FsUpdate::Removed, a, b)),
            modified_files: self.modified_files,
        }
    }
}

/// The files of a row of nodes.
pub open spec fn files_of(nodes: Seq<TreeNodeView>) -> Seq<TreeNodeView> {
    nodes.filter(|node: TreeNodeView| node.is_file())
}

/// The directories of a row of nodes.
pub open spec fn dirs_of(nodes: Seq<TreeNodeView>) -> Seq<TreeNodeView> {
    nodes.filter(|node: TreeNodeView| node.is_dir())
}

/// Whether `entry`, a child of the second directory, has no counterpart among
/// `children`, the children of the first: no file of its name if it is a file,
/// no directory of its name if it is a directory.
pub open spec fn is_unmatched(children: Seq<TreeNodeView>, entry: TreeNodeView) -> bool {
    ||| entry.is_file() && lookup(children, entry.node_name, false) is None
    ||| entry.is_dir() && lookup(children, entry.node_name, true) is None
}

/// The differences of one kind between directory `a` of the first tree and
/// directory `b` of the second, in the order of the walk: child by child of
/// `a`, a subdirectory before the next child, and `b`'s unmatched children
/// last.
pub open spec fn updates(kind: FsUpdate, a: TreeNodeView, b: TreeNodeView) -> Seq<TreeNodeView>
    decreases a, 0int,
{
    updates_among(kind, a.children, b) + if kind == FsUpdate::New {
        b.children.filter(|entry: TreeNodeView| is_unmatched(a.children, entry))
    } else {
        Seq::empty()
    }
}

/// The differences that the children `kids` of the first directory give.
pub open spec fn updates_among(kind: FsUpdate, kids: Seq<TreeNodeView>, b: TreeNodeView) -> Seq<
    TreeNodeView,
>
    decreases kids, 0int,
{
    if kids.len() == 0 {
        Seq::empty()
    } else {
        updates_among(kind, kids.drop_last(), b) + updates_at(kind, kids.last(), b)
    }
}

/// The differences that one child of the first directory gives.
///
/// A file with a counterpart in `b` gives the counterpart where it differs; a
/// file without one is removed. A directory with a counterpart gives the
/// differences between the two; a directory without one is removed, as one
/// entry that stands for all that it holds.
pub open spec fn updates_at(kind: FsUpdate, child: TreeNodeView, b: TreeNodeView) -> Seq<
    TreeNodeView,
>
    decreases child, 1int,
{
    match child.node_type {
        NodeTypeView::File(_) => match lookup(b.children, child.node_name, false) {
            Some(j) => if kind == FsUpdate::Modified && differs(child, b.children[j]) {
                seq![b.children[j]]
            } else {
                Seq::empty()
            },
            None => if kind == FsUpdate::Removed {
                seq![child]
            } else {
                Seq::empty()
            },
        },
        NodeTypeView::Dir => match lookup(b.children, child.node_name, true) {
            Some(j) => updates(kind, child, b.children[j]),
            None => if kind == FsUpdate::Removed {
                seq![child]
            } else {
                Seq::empty()
            },
        },
        _ => Seq::empty(),
    }
}

/// The children of the second directory that have no counterpart among
/// `children`, in their order.
pub open spec fn unmatched(children: Seq<TreeNodeView>, entries: Seq<TreeNodeView>) -> Seq<
    TreeNodeView,
> {
    entries.filter(|entry: TreeNodeView| is_unmatched(children, entry))
}

/// An empty row has no files and no directories.
proof fn lemma_nothing_of_nothing()
    ensures
        files_of(Seq::<TreeNodeView>::empty()) == Seq::<TreeNodeView>::empty(),
        dirs_of(Seq::<TreeNodeView>::empty()) == Seq::<TreeNodeView>::empty(),
{
    reveal(Seq::filter);
    assert(files_of(Seq::<TreeNodeView>::empty()) =~= Seq::empty());
    assert(dirs_of(Seq::<TreeNodeView>::empty()) =~= Seq::empty());
}

/// Filtering a row that grew by one item.
proof fn lemma_filter_push<A>(row: Seq<A>, item: A, keep: spec_fn(A) -> bool)
    ensures
        row.push(item).filter(keep) == if keep(item) {
            row.filter(keep).push(item)
        } else {
            row.filter(keep)
        },
{
    reveal(Seq::filter);
    assert(row.push(item).drop_last() =~= row);
}

impl TreeCmpResultView {
    /// This result with the differences that the children `kids` of the first
    /// directory give appended to it.
    pub open spec fn with_children(self, kids: Seq<TreeNodeView>, b: TreeNodeView) -> Self {
        TreeCmpResultView {
            new_nodes: self.new_nodes + updates_among(FsUpdate::New, kids, b),
            removed_nodes: self.removed_nodes + updates_among(FsUpdate::Removed, kids, b),
            moved_nodes: self.moved_nodes,
            modified_nodes: self.modified_nodes + updates_among(FsUpdate::Modified, kids, b),
            new_files: self.new_files + files_of(updates_among(FsUpdate::New, kids, b)),
            new_dirs: self.new_dirs + dirs_of(updates_among(FsUpdate::New, kids, b)),
            removed_files: self.removed_files + files_of(
                updates_among(FsUpdate::Removed, kids, b),
            ),
            removed_dirs: self.removed_dirs + dirs_of(updates_among(FsUpdate::Removed, kids, b)),
            modified_files: self.modified_files,
        }
    }

    /// This result with the differences that one child of the first directory
    /// gives appended to it.
    pub open spec fn with_child(self, child: TreeNodeView, b: TreeNodeView) -> Self {
        TreeCmpResultView {
            new_nodes: self.new_nodes + updates_at(FsUpdate::New, child, b),
            removed_nodes: self.removed_nodes + updates_at(FsUpdate::Removed, child, b),
            moved_nodes: self.moved_nodes,
            modified_nodes: self.modified_nodes + updates_at(FsUpdate::Modified, child, b),
            new_files: self.new_files + files_of(updates_at(FsUpdate::New, child, b)),
            new_dirs: self.new_dirs + dirs_of(updates_at(FsUpdate::New, child, b)),
            removed_files: self.removed_files + files_of(updates_at(FsUpdate::Removed, child, b)),
            removed_dirs: self.removed_dirs + dirs_of(updates_at(FsUpdate::Removed, child, b)),
            modified_files: self.modified_files,
        }
    }

    /// This result with the unmatched entries `fresh` of the second directory
    /// appended to it.
    pub open spec fn with_new(self, fresh: Seq<TreeNodeView>) -> Self {
        TreeCmpResultView {
            new_nodes: self.new_nodes + fresh,
            new_files: self.new_files + files_of(fresh),
            new_dirs: self.new_dirs + dirs_of(fresh),
            ..self
        }
    }
}

/// Taking one more child of the first directory appends what that child gives.
proof fn lemma_next_child(base: TreeCmpResultView, kids: Seq<TreeNodeView>, b: TreeNodeView, i: int)
    requires
        0 <= i < kids.len(),
    ensures
        base.with_children(kids.take(i + 1), b) == base.with_children(kids.take(i), b).with_child(
            kids[i],
            b,
        ),
{
    let more = kids.take(i + 1);
    assert(more.drop_last() =~= kids.take(i));
    assert(more.last() == kids[i]);
    let new_a = updates_among(FsUpdate::New, kids.take(i), b);
    let new_b = updates_at(FsUpdate::New, kids[i], b);
    Seq::filter_distributes_over_add(new_a, new_b, |node: TreeNodeView| node.is_file());
    Seq::filter_distributes_over_add(new_a, new_b, |node: TreeNodeView| node.is_dir());
    let gone_a = updates_among(FsUpdate::Removed, kids.take(i), b);
    let gone_b = updates_at(FsUpdate::Removed, kids[i], b);
    Seq::filter_distributes_over_add(gone_a, gone_b, |node: TreeNodeView| node.is_file());
    Seq::filter_distributes_over_add(gone_a, gone_b, |node: TreeNodeView| node.is_dir());
    let left = base.with_children(more, b);
    let right = base.with_children(kids.take(i), b).with_child(kids[i], b);
    assert(left.new_nodes =~= right.new_nodes);
    assert(left.removed_nodes =~= right.removed_nodes);
    assert(left.modified_nodes =~= right.modified_nodes);
    assert(left.new_files =~= right.new_files);
    assert(left.new_dirs =~= right.new_dirs);
    assert(left.removed_files =~= right.removed_files);
    assert(left.removed_dirs =~= right.removed_dirs);
    assert(left.modified_files =~= right.modified_files);
}

/// The walk of the children followed by the unmatched entries is the whole
/// comparison of two directories.
proof fn lemma_children_then_new(base: TreeCmpResultView, a: TreeNodeView, b: TreeNodeView)
    ensures
        base.with_children(a.children, b).with_new(unmatched(a.children, b.children))
            == base.with_updates(a, b),
{
    let among = updates_among(FsUpdate::New, a.children, b);
    let fresh = unmatched(a.children, b.children);
    Seq::filter_distributes_over_add(among, fresh, |node: TreeNodeView| node.is_file());
    Seq::filter_distributes_over_add(among, fresh, |node: TreeNodeView| node.is_dir());
    let left = base.with_children(a.children, b).with_new(fresh);
    let right = base.with_updates(a, b);
    assert(updates(FsUpdate::Removed, a, b) =~= updates_among(FsUpdate::Removed, a.children, b));
    assert(updates(FsUpdate::Modified, a, b) =~= updates_among(FsUpdate::Modified, a.children, b));
    assert(left.new_nodes =~= right.new_nodes);
    assert(left.removed_nodes =~= right.removed_nodes);
    assert(left.modified_nodes =~= right.modified_nodes);
    assert(left.new_files =~= right.new_files);
    assert(left.new_dirs =~= right.new_dirs);
    assert(left.removed_files =~= right.removed_files);
    assert(left.removed_dirs =~= right.removed_dirs);
    assert(left.modified_files =~= right.modified_files);
}

/// Whether `first` is the start of `whole`, item by item.
pub open spec fn is_start_of(first: Seq<TreeNodeView>, whole: Seq<TreeNodeView>) -> bool {
    first.len() <= whole.len() && whole.subrange(0, first.len() as int) == first
}

/// A comparison only appends: every list of the result begins with what it
/// held before, and the moved nodes and the list of modified files are what
/// they were.
pub proof fn lemma_comparison_only_appends(
    base: TreeCmpResultView,
    a: TreeNodeView,
    b: TreeNodeView,
)
    ensures
        is_start_of(base.new_nodes, base.with_updates(a, b).new_nodes),
        is_start_of(base.removed_nodes, base.with_updates(a, b).removed_nodes),
        is_start_of(base.modified_nodes, base.with_updates(a, b).modified_nodes),
        is_start_of(base.new_files, base.with_updates(a, b).new_files),
        is_start_of(base.new_dirs, base.with_updates(a, b).new_dirs),
        is_start_of(base.removed_files, base.with_updates(a, b).removed_files),
        is_start_of(base.removed_dirs, base.with_updates(a, b).removed_dirs),
        base.with_updates(a, b).moved_nodes == base.moved_nodes,
        base.with_updates(a, b).modified_files == base.modified_files,
{
    let after = base.with_updates(a, b);
    assert(after.new_nodes.subrange(0, base.new_nodes.len() as int) =~= base.new_nodes);
    assert(after.removed_nodes.subrange(0, base.removed_nodes.len() as int)
        =~= base.removed_nodes);
    assert(after.modified_nodes.subrange(0, base.modified_nodes.len() as int)
        =~= base.modified_nodes);
    assert(after.new_files.subrange(0, base.new_files.len() as int) =~= base.new_files);
    assert(after.new_dirs.subrange(0, base.new_dirs.len() as int) =~= base.new_dirs);
    assert(after.removed_files.subrange(0, base.removed_files.len() as int)
        =~= base.removed_files);
    assert(after.removed_dirs.subrange(0, base.removed_dirs.len() as int) =~= base.removed_dirs);
}

/// Every node of the row is a file or a directory; where `files` is set,
/// every node is a file.
pub open spec fn are_entries(row: Seq<TreeNodeView>, files: bool) -> bool {
    forall|i: int|
        0 <= i < row.len() ==> (#[trigger] row[i]).is_file() || (!files && row[i].is_dir())
}

/// What the first children of a directory give are files and directories,
/// and files alone where they are modified nodes.
proof fn lemma_updates_among_are_entries(kind: FsUpdate, a: TreeNodeView, b: TreeNodeView, k: int)
    requires
        0 <= k <= a.children.len(),
    ensures
        are_entries(updates_among(kind, a.children.take(k), b), kind == FsUpdate::Modified),
    decreases a, k,
{
    let files = kind == FsUpdate::Modified;
    if k > 0 {
        lemma_updates_among_are_entries(kind, a, b, k - 1);
        let child = a.children[k - 1];
        assert(a.children.take(k).drop_last() =~= a.children.take(k - 1));
        assert(a.children.take(k).last() == child);
        let seen = updates_among(kind, a.children.take(k - 1), b);
        let step = updates_at(kind, child, b);
        if child.node_type is File {
            if lookup(b.children, child.node_name, false) is Some {
                let j = lookup(b.children, child.node_name, false)->0;
                assert(crate::node::is_first_named(b.children, child.node_name, false, j));
                assert(b.children[j].is_file());
            }
        } else if child.node_type is Dir {
            if lookup(b.children, child.node_name, true) is Some {
                let j = lookup(b.children, child.node_name, true)->0;
                lemma_updates_are_entries(kind, child, b.children[j]);
            }
        }
        assert(are_entries(step, files));
        assert forall|i: int| 0 <= i < (seen + step).len() implies (#[trigger] (seen + step)[i]).is_file()
            || (!files && (seen + step)[i].is_dir()) by {
            if i < seen.len() {
                assert((seen + step)[i] == seen[i]);
            } else {
                assert((seen + step)[i] == step[i - seen.len()]);
            }
        }
    }
}

/// The differences between two directories are files and directories, and
/// files alone where they are modified nodes.
pub proof fn lemma_updates_are_entries(kind: FsUpdate, a: TreeNodeView, b: TreeNodeView)
    ensures
        are_entries(updates(kind, a, b), kind == FsUpdate::Modified),
    decreases a, a.children.len() + 1,
{
    let files = kind == FsUpdate::Modified;
    lemma_updates_among_are_entries(kind, a, b, a.children.len() as int);
    assert(a.children.take(a.children.len() as int) =~= a.children);
    let among = updates_among(kind, a.children, b);
    let new_here = |entry: TreeNodeView| is_unmatched(a.children, entry);
    let fresh = if kind == FsUpdate::New {
        b.children.filter(new_here)
    } else {
        Seq::empty()
    };
    assert forall|i: int| 0 <= i < fresh.len() implies (#[trigger] fresh[i]).is_file() || (!files
        && fresh[i].is_dir()) by {
        b.children.lemma_filter_pred(new_here, i);
    }
    assert forall|i: int| 0 <= i < (among + fresh).len() implies (#[trigger] (among + fresh)[i]).is_file()
        || (!files && (among + fresh)[i].is_dir()) by {
        if i < among.len() {
            assert((among + fresh)[i] == among[i]);
        } else {
            assert((among + fresh)[i] == fresh[i - among.len()]);
        }
    }
}

/// A row of files and directories has as many files and directories as it
/// has nodes.
proof fn lemma_files_and_dirs_of(row: Seq<TreeNodeView>)
    requires
        are_entries(row, false),
    ensures
        files_of(row).len() + dirs_of(row).len() == row.len(),
    decreases row.len(),
{
    reveal(Seq::filter);
    if row.len() > 0 {
        assert forall|i: int| 0 <= i < row.drop_last().len() implies (#[trigger] row.drop_last()[i]).is_file()
            || row.drop_last()[i].is_dir() by {
            assert(row.drop_last()[i] == row[i]);
        }
        lemma_files_and_dirs_of(row.drop_last());
        assert(row.last() == row[row.len() - 1]);
    }
}

/// A comparison adds as many new nodes as it adds new files and new
/// directories together, and so of the removed nodes; every modified node is
/// a file.
pub proof fn lemma_lists_split_the_buckets(a: TreeNodeView, b: TreeNodeView)
    ensures
        files_of(updates(FsUpdate::New, a, b)).len() + dirs_of(updates(FsUpdate::New, a, b)).len()
            == updates(FsUpdate::New, a, b).len(),
        files_of(updates(FsUpdate::Removed, a, b)).len() + dirs_of(
            updates(FsUpdate::Removed, a, b),
        ).len() == updates(FsUpdate::Removed, a, b).len(),
        are_entries(updates(FsUpdate::Modified, a, b), true),
{
    lemma_updates_are_entries(FsUpdate::New, a, b);
    lemma_updates_are_entries(FsUpdate::Removed, a, b);
    lemma_updates_are_entries(FsUpdate::Modified, a, b);
    lemma_files_and_dirs_of(updates(FsUpdate::New, a, b));
    lemma_files_and_dirs_of(updates(FsUpdate::Removed, a, b));
}

/// A file does not differ from a capture of the same content.
pub proof fn lemma_same_content_does_not_differ(a: TreeNodeView, b: TreeNodeView)
    requires
        a.same_content(b),
    ensures
        !differs(a, b),
{
}

/// In a capture of the same content every file and every directory is found
/// at its own place, and so the other way round.
proof fn lemma_lookup_in_copy(a: TreeNodeView, b: TreeNodeView, i: int, dir: bool)
    requires
        a.well_formed(),
        a.same_content(b),
        0 <= i < a.children.len(),
        a.children[i].is_named(a.children[i].node_name, dir),
    ensures
        lookup(b.children, a.children[i].node_name, dir) == Some(i),
        lookup(a.children, b.children[i].node_name, dir) == Some(i),
{
    let name = a.children[i].node_name;
    assert(a.children[i].same_content(b.children[i]));
    assert forall|j: int| 0 <= j < i implies !(#[trigger] b.children[j]).is_named(name, dir) by {
        assert(a.children[j].same_content(b.children[j]));
        assert(a.children[j].node_name != a.children[i].node_name);
    }
    assert forall|j: int| 0 <= j < i implies !(#[trigger] a.children[j]).is_named(name, dir) by {
        assert(a.children[j].node_name != a.children[i].node_name);
    }
    crate::node::lemma_lookup_found(b.children, name, dir, i);
    crate::node::lemma_lookup_found(a.children, name, dir, i);
}

/// A row of which nothing is kept filters to nothing.
proof fn lemma_filter_nothing<A>(row: Seq<A>, keep: spec_fn(A) -> bool)
    requires
        forall|i: int| 0 <= i < row.len() ==> !keep(#[trigger] row[i]),
    ensures
        row.filter(keep) == Seq::<A>::empty(),
    decreases row.len(),
{
    reveal(Seq::filter);
    if row.len() > 0 {
        lemma_filter_nothing(row.drop_last(), keep);
    }
}

/// The first children of a directory give no difference against a capture of
/// the same content.
proof fn lemma_no_updates_among(kind: FsUpdate, a: TreeNodeView, b: TreeNodeView, k: int)
    requires
        a.well_formed(),
        a.same_content(b),
        0 <= k <= a.children.len(),
    ensures
        updates_among(kind, a.children.take(k), b) == Seq::<TreeNodeView>::empty(),
    decreases a, k,
{
    if k > 0 {
        lemma_no_updates_among(kind, a, b, k - 1);
        let child = a.children[k - 1];
        assert(a.children.take(k).drop_last() =~= a.children.take(k - 1));
        assert(a.children.take(k).last() == child);
        assert(child.same_content(b.children[k - 1]));
        if child.node_type is File {
            lemma_lookup_in_copy(a, b, k - 1, false);
            lemma_same_content_does_not_differ(child, b.children[k - 1]);
        } else if child.node_type is Dir {
            lemma_lookup_in_copy(a, b, k - 1, true);
            lemma_no_updates_between_copies(kind, child, b.children[k - 1]);
        }
        assert(updates_at(kind, child, b) =~= Seq::empty());
        assert(updates_among(kind, a.children.take(k), b) =~= Seq::empty());
    }
}

/// Two captures of the same content show no difference: nothing is new,
/// nothing is removed and nothing is modified, on any level of the tree.
pub proof fn lemma_no_updates_between_copies(kind: FsUpdate, a: TreeNodeView, b: TreeNodeView)
    requires
        a.well_formed(),
        a.same_content(b),
    ensures
        updates(kind, a, b) == Seq::<TreeNodeView>::empty(),
    decreases a, a.children.len() + 1,
{
    lemma_no_updates_among(kind, a, b, a.children.len() as int);
    assert(a.children.take(a.children.len() as int) =~= a.children);
    let new_here = |entry: TreeNodeView| is_unmatched(a.children, entry);
    assert forall|i: int| 0 <= i < b.children.len() implies !new_here(#[trigger] b.children[i]) by {
        assert(a.children[i].same_content(b.children[i]));
        if b.children[i].is_file() {
            lemma_lookup_in_copy(a, b, i, false);
        } else if b.children[i].is_dir() {
            lemma_lookup_in_copy(a, b, i, true);
        }
    }
    lemma_filter_nothing(b.children, new_here);
    assert(updates(kind, a, b) =~= Seq::empty());
}

/// The comparison of two captures of the same content is empty.
pub proof fn lemma_copy_has_no_differences(a: TreeNodeView, b: TreeNodeView)
    requires
        a.well_formed(),
        a.same_content(b),
    ensures
        TreeCmpResultView::empty().with_updates(a, b) == TreeCmpResultView::empty(),
{
    lemma_no_updates_between_copies(FsUpdate::New, a, b);
    lemma_no_updates_between_copies(FsUpdate::Removed, a, b);
    lemma_no_updates_between_copies(FsUpdate::Modified, a, b);
    let none = Seq::<TreeNodeView>::empty();
    lemma_nothing_of_nothing();
    let result = TreeCmpResultView::empty().with_updates(a, b);
    assert(result.new_nodes =~= none);
    assert(result.removed_nodes =~= none);
    assert(result.modified_nodes =~= none);
    assert(result.new_files =~= none);
    assert(result.new_dirs =~= none);
    assert(result.removed_files =~= none);
    assert(result.removed_dirs =~= none);
    assert(result.modified_files =~= none);
}

/// A tree has the same content as itself.
pub proof fn lemma_same_content_as_itself(a: TreeNodeView)
    ensures
        a.same_content(a),
    decreases a,
{
    assert forall|i: int| 0 <= i < a.children.len() implies (#[trigger] a.children[i]).same_content(
        a.children[i],
    ) by {
        lemma_same_content_as_itself(a.children[i]);
    }
}

/// Appends a reference to a row of references.
fn record<'a>(row: &mut Vec<&'a TreeNode>, node: &'a TreeNode)
    ensures
        ref_views(final(row)@) == ref_views(old(row)@).push(node@),
{
    row.push(node);
    assert(ref_views(row@) =~= ref_views(old(row)@).push(node@));
}

impl<'a> TreeCmpResult<'a> {
    /// A result without entries.
    pub fn new() -> (result: Self)
        ensures
            result@ == TreeCmpResultView::empty(),
    {
        let result = TreeCmpResult {
            new_nodes: Vec::new(),
            removed_nodes: Vec::new(),
            moved_nodes: Vec::new(),
            modified_nodes: Vec::new(),
            new_files: Vec::new(),
            new_dirs: Vec::new(),
            removed_files: Vec::new(),
            removed_dirs: Vec::new(),
            modified_files: Vec::new(),
        };
        assert(ref_views(result.new_nodes@) =~= Seq::empty());
        assert(ref_views(result.removed_nodes@) =~= Seq::empty());
        assert(ref_views(result.moved_nodes@) =~= Seq::empty());
        assert(ref_views(result.modified_nodes@) =~= Seq::empty());
        assert(ref_views(result.new_files@) =~= Seq::empty());
        assert(ref_views(result.new_dirs@) =~= Seq::empty());
        assert(ref_views(result.removed_files@) =~= Seq::empty());
        assert(ref_views(result.removed_dirs@) =~= Seq::empty());
        assert(ref_views(result.modified_files@) =~= Seq::empty());
        result
    }

    /// Shows the binaries among the new nodes. Nothing is shown: the result
    /// does not tell binaries from other files.
    pub fn display_new_elf() {
    }

    /// The entries of one kind.
    pub fn fs_updates(&self, kind: FsUpdate) -> (entries: &Vec<&'a TreeNode>)
        ensures
            ref_views(entries@) == self@.of_kind(kind),
            entries.len() == self@.of_kind(kind).len(),
    {
        match kind {
            FsUpdate::New => &self.new_nodes,
            FsUpdate::Removed => &self.removed_nodes,
            FsUpdate::Moved => &self.moved_nodes,
            FsUpdate::Modified => &self.modified_nodes,
        }
    }
}

/// A tree of nodes with the path of its root on the system.
#[derive(Debug, PartialEq, Eq)]
pub struct TreeData {
    pub path: String,
    pub head_node: Option<TreeNode>,
}

/// The mathematical value of a [`TreeData`].
pub ghost struct TreeDataView {
    pub path: Seq<char>,
    pub head_node: Option<TreeNodeView>,
}

impl View for TreeData {
    type V = TreeDataView;

    open spec fn view(&self) -> TreeDataView {
        TreeDataView {
            path: self.path@,
            head_node: match self.head_node {
                Some(node) => Some(node@),
                None => None,
            },
        }
    }
}

/// What the first pass makes of a node: an unrecognised file that is not
/// larger than `MAX_FILE_SIZE` and whose bytes are in the table gets the
/// digest of its bytes and the tag of its name and bytes; any other node
/// stays as it is.
pub open spec fn typed_node(node: TreeNodeView, table: Seq<FileEntryView>) -> TreeNodeView {
    if node.node_type == NodeTypeView::File(FileTypeView::Data) {
        match entry_of(table, node.node_path) {
            Some(entry) => match entry.bytes {
                Some(bytes) => if entry.len <= MAX_FILE_SIZE {
                    TreeNodeView {
                        node_type: NodeTypeView::File(classify(node.node_name, bytes)),
                        node_hash: Some(digest(bytes)),
                        ..node
                    }
                } else {
                    node
                },
                None => node,
            },
            None => node,
        }
    } else {
        node
    }
}

/// The tree below `node` after the first pass.
pub open spec fn typed_tree(node: TreeNodeView, table: Seq<FileEntryView>) -> TreeNodeView {
    mapped(node, |file: TreeNodeView| typed_node(file, table))
}

/// What the second pass makes of a node: a file that has an entry in the
/// table gets the size on record, and an ELF binary that has not been
/// analysed, whose bytes are in the table and can be read, gets the result of
/// its analysis; any other node stays as it is.
pub open spec fn analysed_node(node: TreeNodeView, table: Seq<FileEntryView>) -> TreeNodeView {
    if node.is_file() {
        match entry_of(table, node.node_path) {
            Some(entry) => {
                let sized = TreeNodeView { node_len: Some(entry.len), ..node };
                if node.node_type == NodeTypeView::File(FileTypeView::Elf(None)) {
                    match entry.bytes {
                        Some(bytes) => match plain_elf_data_of(bytes, entry.len) {
                            Ok(data) => TreeNodeView {
                                node_type: NodeTypeView::File(FileTypeView::Elf(Some(data))),
                                ..sized
                            },
                            Err(_) => sized,
                        },
                        None => sized,
                    }
                } else {
                    sized
                }
            },
            None => node,
        }
    } else {
        node
    }
}

/// What the second pass reports of a node: of an ELF binary that cannot be
/// read, that it is malformed.
pub open spec fn node_findings(node: TreeNodeView, table: Seq<FileEntryView>) -> Seq<DiagnosticView> {
    if node.node_type == NodeTypeView::File(FileTypeView::Elf(None)) {
        match entry_of(table, node.node_path) {
            Some(entry) => match entry.bytes {
                Some(bytes) => match dynamic_of(bytes) {
                    Ok(_) => Seq::empty(),
                    Err(error) => seq![
                        DiagnosticView::MalformedElf { binary: node.node_path, error },
                    ],
                },
                None => Seq::empty(),
            },
            None => Seq::empty(),
        }
    } else {
        Seq::empty()
    }
}

/// The tree below `node` after the second pass.
pub open spec fn analysed_tree(node: TreeNodeView, table: Seq<FileEntryView>) -> TreeNodeView {
    mapped(node, |file: TreeNodeView| analysed_node(file, table))
}

/// The findings of the second pass below `node`.
pub open spec fn tree_findings(node: TreeNodeView, table: Seq<FileEntryView>) -> Seq<DiagnosticView> {
    gathered(node, |file: TreeNodeView| node_findings(file, table))
}

/// The node that stands for an entry of a directory: a directory without
/// children or an unrecognised file, named by the last part of its path.
/// There is none for an entry that is neither, nor for a path that does not
/// lie below the root of the tree.
pub open spec fn entry_node(
    root: Seq<char>,
    parent: TreeNodeView,
    entry_path: Seq<char>,
    is_dir: bool,
    is_file: bool,
) -> Option<TreeNodeView> {
    if !is_dir && !is_file {
        None
    } else {
        match local_path(root, entry_path) {
            None => None,
            Some(local) => Some(
                TreeNodeView {
                    node_type: if is_dir {
                        NodeTypeView::Dir
                    } else {
                        NodeTypeView::File(FileTypeView::Data)
                    },
                    node_name: after_last(entry_path, '/'),
                    node_local_path: local,
                    node_path: entry_path,
                    node_hash: None,
                    node_len: None,
                    children: Seq::empty(),
                    parent: Some(parent.node_local_path),
                },
            ),
        }
    }
}

/// The children of `node` that are called `name`, in their order.
pub open spec fn named_children(node: TreeNodeView, name: Seq<char>) -> Seq<TreeNodeView> {
    node.children.filter(|child: TreeNodeView| child.node_name == name)
}

/// Appends to `found` the files below `node`.
fn collect_files<'a>(node: &'a TreeNode, found: &mut Vec<&'a TreeNode>)
    ensures
        ref_views(final(found)@) == ref_views(old(found)@) + node@.files(),
    decreases node,
{
    let ghost keep = |child: TreeNodeView| child.is_file();
    let ghost kids = node@.children;
    let ghost base = ref_views(found@);
    proof {
        lemma_node_views(node.childrens@);
        assert(kids.take(0) =~= Seq::empty());
        assert(descendants_among(kids.take(0)).filter(keep) =~= Seq::empty()) by {
            reveal(Seq::filter);
        }
        assert(base + Seq::<TreeNodeView>::empty() =~= base);
    }
    let n = node.childrens.len();
    let mut i: usize = 0;
    while i < n
        invariant
            i <= n,
            n == node.childrens.len(),
            kids == node@.children,
            kids.len() == n,
            keep == |child: TreeNodeView| child.is_file(),
            forall|k: int| 0 <= k < n ==> (#[trigger] kids[k]) == node.childrens[k]@,
            ref_views(found@) == base + descendants_among(kids.take(i as int)).filter(keep),
        decreases n - i,
    {
        let child = &node.childrens[i];
        let ghost before = ref_views(found@);
        proof {
            lemma_descendants_step(kids, i as int, keep);
            assert(kids[i as int] == child@);
        }
        match &child.node_type {
            NodeType::File(_) => {
                record(found, child);
            },
            NodeType::Dir => {
                collect_files(child, found);
            },
            _ => {},
        }
        proof {
            let step = with_descendants(child@).filter(keep);
            assert(ref_views(found@) =~= before + step);
            assert(before + step =~= base + (descendants_among(kids.take(i as int)).filter(keep)
                + step));
        }
        i = i + 1;
    }
    assert(kids.take(n as int) =~= kids);
}

/// The two passes keep a tree well formed, and they keep what every node is:
/// a file stays a file, and a file that has a tag is not unrecognised
/// afterwards.
pub proof fn lemma_passes_keep_well_formed(node: TreeNodeView, table: Seq<FileEntryView>)
    requires
        node.well_formed(),
    ensures
        typed_tree(node, table).well_formed(),
        analysed_tree(node, table).well_formed(),
{
    lemma_mapped_keeps_well_formed(node, |file: TreeNodeView| typed_node(file, table));
    lemma_mapped_keeps_well_formed(node, |file: TreeNodeView| analysed_node(file, table));
}

/// The first pass changes none but an unrecognised file; the second gives a
/// file its size and changes the tag of none but a binary that waits for its
/// analysis.
pub proof fn lemma_passes_refine(node: TreeNodeView, table: Seq<FileEntryView>)
    ensures
        node.node_type != NodeTypeView::File(FileTypeView::Data) ==> typed_node(node, table)
            == node,
        typed_node(node, table).is_file() == node.is_file(),
        analysed_node(node, table).is_file() == node.is_file(),
        node.node_type != NodeTypeView::File(FileTypeView::Elf(None)) ==> analysed_node(
            node,
            table,
        ).node_type == node.node_type,
        analysed_node(node, table).node_type != node.node_type ==> analysed_node(
            node,
            table,
        ).node_type is File && analysed_node(node, table).node_type->File_0 is Elf
            && analysed_node(node, table).node_type->File_0->Elf_0 is Some,
{
}

/// A file that is on record as larger than `MAX_FILE_SIZE` is left without
/// digest and tag by the first pass.
pub proof fn lemma_large_file_is_skipped(node: TreeNodeView, table: Seq<FileEntryView>)
    requires
        entry_of(table, node.node_path) is Some,
        entry_of(table, node.node_path)->0.len > MAX_FILE_SIZE,
    ensures
        typed_node(node, table) == node,
{
}

/// The digest and the tag for a node that the first pass changes.
fn type_node(node: &TreeNode, contents: &Contents) -> (found: Option<(FileType, u64)>)
    ensures
        typed_node(node@, contents@) == match found {
            Some(pair) => TreeNodeView {
                node_type: NodeTypeView::File(pair.0@),
                node_hash: Some(pair.1),
                ..node@
            },
            None => node@,
        },
{
    match &node.node_type {
        NodeType::File(FileType::Data) => match contents.get(&node.node_path) {
            Some(entry) => match &entry.bytes {
                Some(bytes) => if entry.len <= MAX_FILE_SIZE {
                    let hash = content_hash(bytes.as_slice());
                    let file_type = check_type(node.node_name.as_str(), bytes.as_slice());
                    Some((file_type, hash))
                } else {
                    None
                },
                None => None,
            },
            None => None,
        },
        _ => None,
    }
}

/// The size and, where there is one, the result of the analysis for a node
/// that the second pass changes; what there is to report is appended to
/// `diagnostics`.
fn analyse_one(node: &TreeNode, contents: &Contents, diagnostics: &mut Vec<Diagnostic>) -> (found:
    Option<(u64, Option<ElfData>)>)
    ensures
        analysed_node(node@, contents@) == match found {
            Some((len, Some(data))) => TreeNodeView {
                node_type: NodeTypeView::File(FileTypeView::Elf(Some(data@))),
                node_len: Some(len),
                ..node@
            },
            Some((len, None)) => TreeNodeView { node_len: Some(len), ..node@ },
            None => node@,
        },
        findings(final(diagnostics)@) == findings(old(diagnostics)@) + node_findings(
            node@,
            contents@,
        ),
{
    let ghost reported = findings(diagnostics@);
    assert(reported + Seq::<DiagnosticView>::empty() =~= reported);
    match &node.node_type {
        NodeType::File(file_type) => match contents.get(&node.node_path) {
            Some(entry) => {
                let waiting = match file_type {
                    FileType::Elf(None) => true,
                    _ => false,
                };
                if waiting {
                    match &entry.bytes {
                        Some(bytes) => match analyse_elf(bytes.as_slice(), entry.len) {
                            Ok(data) => Some((entry.len, Some(data))),
                            Err(error) => {
                                report(
                                    diagnostics,
                                    Diagnostic::MalformedElf { binary: node.node_path.clone(), error },
                                );
                                Some((entry.len, None))
                            },
                        },
                        None => Some((entry.len, None)),
                    }
                } else {
                    Some((entry.len, None))
                }
            },
            None => None,
        },
        _ => None,
    }
}

impl TreeData {
    /// A tree with the root directory `head_node`, after the first pass over
    /// it.
    pub fn new(path: &str, head_node: TreeNode, contents: &Contents) -> (tree: Self)
        ensures
            tree@ == (TreeDataView {
                path: path@,
                head_node: Some(typed_tree(head_node@, contents@)),
            }),
    {
        let mut td = TreeData { path: path.to_owned(), head_node: Some(head_node) };
        td.analyse_nodes_type(contents);
        td
    }

    /// The first pass: computes the digest and the tag of every unrecognised
    /// file whose bytes are in `contents`.
    pub fn analyse_nodes_type(&mut self, contents: &Contents)
        ensures
            final(self)@ == (TreeDataView {
                head_node: match old(self)@.head_node {
                    Some(node) => Some(typed_tree(node, contents@)),
                    None => None,
                },
                ..old(self)@
            }),
    {
        match &mut self.head_node {
            Some(node) => {
                Self::analyse_node_type(node, contents);
            },
            None => {},
        }
    }

    /// The second pass: records the size of every file that has an entry in
    /// `contents` and analyses every ELF binary whose bytes are there. What
    /// comes back is what there is to report.
    pub fn analyse_tree(&mut self, contents: &Contents) -> (diagnostics: Vec<Diagnostic>)
        ensures
            final(self)@ == (TreeDataView {
                head_node: match old(self)@.head_node {
                    Some(node) => Some(analysed_tree(node, contents@)),
                    None => None,
                },
                ..old(self)@
            }),
            findings(diagnostics@) == match old(self)@.head_node {
                Some(node) => tree_findings(node, contents@),
                None => Seq::empty(),
            },
    {
        let mut diagnostics: Vec<Diagnostic> = Vec::new();
        assert(findings(diagnostics@) =~= Seq::empty());
        match &mut self.head_node {
            Some(node) => {
                let ghost told = tree_findings(node@, contents@);
                Self::analyse_node(node, contents, &mut diagnostics);
                assert(Seq::<DiagnosticView>::empty() + told =~= told);
            },
            None => {},
        }
        diagnostics
    }

    /// The node of the directory at `path` in a tree rooted at `root_path`:
    /// named by the last part of `path`, without children and without a
    /// parent. There is none where `path` does not begin with `root_path`.
    pub fn create_node(&self, root_path: &str, path: &str) -> (node: Option<TreeNode>)
        ensures
            match node {
                Some(dir) => local_path(root_path@, path@) is Some && dir@ == (TreeNodeView {
                    node_type: NodeTypeView::Dir,
                    node_name: after_last(path@, '/'),
                    node_local_path: local_path(root_path@, path@)->0,
                    node_path: path@,
                    node_hash: None,
                    node_len: None,
                    children: Seq::empty(),
                    parent: None,
                }),
                None => local_path(root_path@, path@) is None,
            },
    {
        match local_path_of(root_path, path) {
            Some(node_local_path) => {
                let node_name = part_after_last(path, '/');
                Some(
                    TreeNode::new(
                        NodeType::Dir,
                        node_name.to_owned(),
                        node_local_path,
                        path.to_owned(),
                        None,
                    ),
                )
            },
            None => None,
        }
    }

    /// Gives `parent` a child for one entry of its directory: a directory
    /// without children where `is_dir` is set, an unrecognised file where
    /// `is_file` is. Nothing is added, and the answer is `false`, for an
    /// entry that is neither and for a path that does not lie below the root
    /// of the tree.
    pub fn handle_dir_entry(
        &self,
        parent: &mut TreeNode,
        entry_path: &str,
        is_dir: bool,
        is_file: bool,
    ) -> (added: bool)
        ensures
            match entry_node(self@.path, old(parent)@, entry_path@, is_dir, is_file) {
                Some(node) => added && final(parent)@ == (TreeNodeView {
                    children: old(parent)@.children.push(node),
                    ..old(parent)@
                }) && (old(parent)@.well_formed() && (forall|i: int|
                    0 <= i < old(parent)@.children.len() ==> (
                    #[trigger] old(parent)@.children[i]).node_name != node.node_name)
                    ==> final(parent)@.well_formed()),
                None => !added && *final(parent) == *old(parent),
            },
    {
        if !is_dir && !is_file {
            return false;
        }
        let node_local_path = match local_path_of(self.path.as_str(), entry_path) {
            Some(local) => local,
            None => {
                return false;
            },
        };
        let node_type = if is_dir {
            NodeType::Dir
        } else {
            NodeType::File(FileType::Data)
        };
        let node = TreeNode::new(
            node_type,
            part_after_last(entry_path, '/').to_owned(),
            node_local_path,
            entry_path.to_owned(),
            Some(parent),
        );
        let ghost kids = parent.childrens@;
        let ghost added_node = node@;
        parent.childrens.push(node);
        proof {
            assert(parent.childrens@.drop_last() =~= kids);
            let before = old(parent)@.children;
            let after = parent@.children;
            assert(after =~= before.push(added_node));
            if old(parent)@.well_formed() && (forall|i: int|
                0 <= i < before.len() ==> (#[trigger] before[i]).node_name
                    != added_node.node_name) {
                assert(added_node.well_formed());
                assert forall|i: int| 0 <= i < after.len() implies (
                #[trigger] after[i]).well_formed() by {
                    if i < before.len() {
                        assert(before[i].well_formed());
                    }
                }
                assert forall|i: int, j: int| 0 <= i < j < after.len() implies (
                #[trigger] after[i]).node_name != (#[trigger] after[j]).node_name by {
                    if j < before.len() {
                        assert(before[i].node_name != before[j].node_name);
                    } else {
                        assert(before[i].node_name != added_node.node_name);
                    }
                }
            }
        }
        true
    }

    /// The children of the root that are called `name`, in their order; none
    /// in a tree without a root.
    pub fn find_nodes_by_name(&self, name: &str) -> (res: Vec<&TreeNode>)
        ensures
            ref_views(res@) == match self@.head_node {
                Some(node) => named_children(node, name@),
                None => Seq::empty(),
            },
            res.len() == ref_views(res@).len(),
    {
        let mut res: Vec<&TreeNode> = Vec::new();
        assert(ref_views(res@) =~= Seq::empty());
        match &self.head_node {
            Some(head_node) => {
                self.find_nodes_by_name_rec(head_node, name, &mut res);
                assert(Seq::<TreeNodeView>::empty() + named_children(head_node@, name@)
                    =~= named_children(head_node@, name@));
            },
            None => {},
        }
        res
    }

    /// Appends to `vec` the children of `node` that are called `name`.
    #[verifier::rlimit(30)]
    pub fn find_nodes_by_name_rec<'a>(
        &self,
        node: &'a TreeNode,
        name: &str,
        vec: &mut Vec<&'a TreeNode>,
    )
        ensures
            ref_views(final(vec)@) == ref_views(old(vec)@) + named_children(node@, name@),
    {
        let wanted = name.to_owned();
        let ghost keep = |child: TreeNodeView| child.node_name == name@;
        let ghost kids = node@.children;
        let ghost base = ref_views(vec@);
        proof {
            lemma_node_views(node.childrens@);
            assert(kids.take(0) =~= Seq::empty());
            assert(kids.take(0).filter(keep) =~= Seq::empty()) by {
                reveal(Seq::filter);
            }
            assert(base + Seq::<TreeNodeView>::empty() =~= base);
        }
        let n = node.childrens.len();
        let mut i: usize = 0;
        while i < n
            invariant
                i <= n,
                n == node.childrens.len(),
                kids == node@.children,
                kids.len() == n,
                wanted@ == name@,
                keep == |child: TreeNodeView| child.node_name == name@,
                forall|k: int| 0 <= k < n ==> (#[trigger] kids[k]) == node.childrens[k]@,
                ref_views(vec@) == base + kids.take(i as int).filter(keep),
            decreases n - i,
        {
            let child = &node.childrens[i];
            proof {
                assert(kids[i as int] == child@);
                assert(kids.take(i + 1) =~= kids.take(i as int).push(child@));
                lemma_filter_push(kids.take(i as int), child@, keep);
            }
            if child.node_name == wanted {
                record(vec, child);
            }
            proof {
                assert(ref_views(vec@) =~= base + kids.take(i + 1).filter(keep));
            }
            i = i + 1;
        }
        assert(kids.take(n as int) =~= kids);
    }

    /// The number of files below `node`; `u64::MAX` if there are more than
    /// that.
    #[verifier::rlimit(30)]
    pub fn count_node_files(&self, node: &TreeNode) -> (count: u64)
        ensures
            count == saturated(node@.files().len()),
        decreases node,
    {
        let ghost keep = |child: TreeNodeView| child.is_file();
        let ghost kids = node@.children;
        proof {
            lemma_node_views(node.childrens@);
            assert(kids.take(0) =~= Seq::empty());
            assert(descendants_among(kids.take(0)).filter(keep) =~= Seq::empty()) by {
                reveal(Seq::filter);
            }
        }
        let n = node.childrens.len();
        let mut count: u64 = 0;
        let mut i: usize = 0;
        while i < n
            invariant
                i <= n,
                n == node.childrens.len(),
                kids == node@.children,
                kids.len() == n,
                keep == |child: TreeNodeView| child.is_file(),
                forall|k: int| 0 <= k < n ==> (#[trigger] kids[k]) == node.childrens[k]@,
                count == saturated(descendants_among(kids.take(i as int)).filter(keep).len()),
            decreases n - i,
        {
            let child = &node.childrens[i];
            let ghost seen = descendants_among(kids.take(i as int)).filter(keep);
            let ghost step = with_descendants(kids[i as int]).filter(keep);
            proof {
                lemma_descendants_step(kids, i as int, keep);
                assert(kids[i as int] == child@);
                assert(descendants_among(kids.take(i + 1)).filter(keep) == seen + step);
                assert((seen + step).len() == seen.len() + step.len());
                assert(seq![kids[i as int]].len() == 1);
                assert(Seq::<TreeNodeView>::empty().len() == 0);
            }
            match &child.node_type {
                NodeType::File(_) => {
                    count = count.saturating_add(1);
                },
                NodeType::Dir => {
                    count = count.saturating_add(self.count_node_files(child));
                },
                _ => {},
            }
            i = i + 1;
        }
        assert(kids.take(n as int) =~= kids);
        count
    }

    /// The number of files of the tree; none in a tree without a root.
    pub fn count_files(&self) -> (count: u64)
        ensures
            count == match self@.head_node {
                Some(node) => saturated(node.files().len()),
                None => 0,
            },
    {
        match &self.head_node {
            Some(head_node) => self.count_node_files(head_node),
            None => 0,
        }
    }

    /// The files of the tree, in the order of the walk.
    pub fn display_files(&self) -> (files: Vec<&TreeNode>)
        ensures
            ref_views(files@) == match self@.head_node {
                Some(node) => node.files(),
                None => Seq::empty(),
            },
            files.len() == ref_views(files@).len(),
    {
        match &self.head_node {
            Some(head_node) => self.display_node_files(head_node),
            None => {
                let files: Vec<&TreeNode> = Vec::new();
                assert(ref_views(files@) =~= Seq::empty());
                files
            },
        }
    }

    /// The files below `node`, in the order of the walk.
    pub fn display_node_files<'a>(&self, node: &'a TreeNode) -> (files: Vec<&'a TreeNode>)
        ensures
            ref_views(files@) == node@.files(),
            files.len() == node@.files().len(),
    {
        let mut files: Vec<&TreeNode> = Vec::new();
        assert(ref_views(files@) =~= Seq::empty());
        collect_files(node, &mut files);
        assert(Seq::<TreeNodeView>::empty() + node@.files() =~= node@.files());
        files
    }

    /// The first pass below `node`.
    pub fn analyse_node_type(node: &mut TreeNode, contents: &Contents)
        ensures
            final(node)@ == typed_tree(old(node)@, contents@),
            old(node)@.well_formed() ==> final(node)@.well_formed(),
        decreases *old(node),
    {
        let ghost change = |file: TreeNodeView| typed_node(file, contents@);
        let ghost kids = node@.children;
        proof {
            lemma_node_views(node.childrens@);
            lemma_mapped_among(kids, change);
            if node@.well_formed() {
                lemma_passes_keep_well_formed(node@, contents@);
            }
        }
        let n = node.childrens.len();
        let mut i: usize = 0;
        while i < n
            invariant
                i <= n,
                n == node.childrens.len(),
                n == old(node).childrens.len(),
                kids == old(node)@.children,
                kids.len() == n,
                change == |file: TreeNodeView| typed_node(file, contents@),
                forall|k: int| 0 <= k < n ==> (#[trigger] kids[k]) == old(node).childrens[k]@,
                node.node_type == old(node).node_type,
                node.node_name == old(node).node_name,
                node.node_local_path == old(node).node_local_path,
                node.node_path == old(node).node_path,
                node.node_hash == old(node).node_hash,
                node.node_len == old(node).node_len,
                node.parent == old(node).parent,
                forall|k: int| i <= k < n ==> node.childrens[k] == old(node).childrens[k],
                forall|k: int|
                    0 <= k < i ==> (#[trigger] node.childrens[k])@ == mapped_child(kids[k], change),
            decreases n - i,
        {
            let is_dir = match &node.childrens[i].node_type {
                NodeType::Dir => true,
                _ => false,
            };
            assert(is_dir == kids[i as int].is_dir());
            if is_dir {
                Self::analyse_node_type(&mut node.childrens[i], contents);
            } else {
                match type_node(&node.childrens[i], contents) {
                    Some((file_type, hash)) => {
                        let child = &mut node.childrens[i];
                        child.node_type = NodeType::File(file_type);
                        child.node_hash = Some(hash);
                    },
                    None => {},
                }
            }
            i = i + 1;
        }
        proof {
            lemma_node_views(node.childrens@);
            assert(node@.children =~= mapped_among(kids, change));
        }
    }

    /// The second pass below `node`; what there is to report is appended to
    /// `diagnostics`.
    #[verifier::rlimit(30)]
    pub fn analyse_node(node: &mut TreeNode, contents: &Contents, diagnostics: &mut Vec<Diagnostic>)
        ensures
            final(node)@ == analysed_tree(old(node)@, contents@),
            old(node)@.well_formed() ==> final(node)@.well_formed(),
            findings(final(diagnostics)@) == findings(old(diagnostics)@) + tree_findings(
                old(node)@,
                contents@,
            ),
        decreases *old(node),
    {
        let ghost change = |file: TreeNodeView| analysed_node(file, contents@);
        let ghost tell = |file: TreeNodeView| node_findings(file, contents@);
        let ghost kids = node@.children;
        let ghost base = findings(diagnostics@);
        proof {
            lemma_node_views(node.childrens@);
            lemma_mapped_among(kids, change);
            if node@.well_formed() {
                lemma_passes_keep_well_formed(node@, contents@);
            }
            assert(kids.take(0) =~= Seq::empty());
            assert(base + Seq::<DiagnosticView>::empty() =~= base);
        }
        let n = node.childrens.len();
        let mut i: usize = 0;
        while i < n
            invariant
                i <= n,
                n == node.childrens.len(),
                n == old(node).childrens.len(),
                kids == old(node)@.children,
                kids.len() == n,
                change == |file: TreeNodeView| analysed_node(file, contents@),
                tell == |file: TreeNodeView| node_findings(file, contents@),
                forall|k: int| 0 <= k < n ==> (#[trigger] kids[k]) == old(node).childrens[k]@,
                node.node_type == old(node).node_type,
                node.node_name == old(node).node_name,
                node.node_local_path == old(node).node_local_path,
                node.node_path == old(node).node_path,
                node.node_hash == old(node).node_hash,
                node.node_len == old(node).node_len,
                node.parent == old(node).parent,
                forall|k: int| i <= k < n ==> node.childrens[k] == old(node).childrens[k],
                forall|k: int|
                    0 <= k < i ==> (#[trigger] node.childrens[k])@ == mapped_child(kids[k], change),
                findings(diagnostics@) == base + gathered_among(kids.take(i as int), tell),
            decreases n - i,
        {
            let ghost reported = findings(diagnostics@);
            proof {
                assert(kids.take(i + 1).drop_last() =~= kids.take(i as int));
                assert(kids.take(i + 1).last() == kids[i as int]);
            }
            let is_dir = match &node.childrens[i].node_type {
                NodeType::Dir => true,
                _ => false,
            };
            assert(is_dir == kids[i as int].is_dir());
            if is_dir {
                Self::analyse_node(&mut node.childrens[i], contents, diagnostics);
            } else {
                match analyse_one(&node.childrens[i], contents, diagnostics) {
                    Some((len, found)) => {
                        let child = &mut node.childrens[i];
                        child.node_len = Some(len);
                        match found {
                            Some(data) => {
                                child.node_type = NodeType::File(FileType::Elf(Some(data)));
                            },
                            None => {},
                        }
                    },
                    None => {},
                }
            }
            proof {
                let step = gathered_child(kids[i as int], tell);
                assert(findings(diagnostics@) =~= reported + step);
                assert(reported + step =~= base + (gathered_among(kids.take(i as int), tell)
                    + step));
            }
            i = i + 1;
        }
        proof {
            lemma_node_views(node.childrens@);
            assert(node@.children =~= mapped_among(kids, change));
            assert(kids.take(n as int) =~= kids);
        }
    }

    /// Compares this tree with `other`: what is new in `other`, what was
    /// removed from this tree, and which files of `other` are modified.
    pub fn compare_tree_data<'a>(&'a self, other: &'a TreeData) -> (result: TreeCmpResult<'a>)
        requires
            self.head_node is Some,
            other.head_node is Some,
        ensures
            result@ == TreeCmpResultView::empty().with_updates(
                self.head_node->0@,
                other.head_node->0@,
            ),
    {
        let mut result = TreeCmpResult::new();
        match (&self.head_node, &other.head_node) {
            (Some(head_node), Some(other_head_node)) => {
                self.compare_node(&mut result, head_node, other_head_node);
            },
            _ => {},
        }
        result
    }

    /// Appends to `result` the differences between directory `node` of the
    /// first tree and directory `other_node` of the second.
    #[verifier::rlimit(30)]
    pub fn compare_node<'a>(
        &self,
        result: &mut TreeCmpResult<'a>,
        node: &'a TreeNode,
        other_node: &'a TreeNode,
    )
        ensures
            final(result)@ == old(result)@.with_updates(node@, other_node@),
        decreases node,
    {
        let ghost a = node@;
        let ghost b = other_node@;
        let ghost base = result@;
        proof {
            lemma_node_views(node.childrens@);
            lemma_node_views(other_node.childrens@);
            assert(a.children.take(0) =~= Seq::empty());
            let start = base.with_children(a.children.take(0), b);
            assert(start.new_nodes =~= base.new_nodes);
            assert(start.removed_nodes =~= base.removed_nodes);
            assert(start.modified_nodes =~= base.modified_nodes);
            lemma_nothing_of_nothing();
            assert(start.new_files =~= base.new_files);
            assert(start.new_dirs =~= base.new_dirs);
            assert(start.removed_files =~= base.removed_files);
            assert(start.removed_dirs =~= base.removed_dirs);
            assert(start.modified_files =~= base.modified_files);
        }
        let n = node.childrens.len();
        let mut i: usize = 0;
        while i < n
            invariant
                i <= n,
                n == node.childrens.len(),
                a == node@,
                b == other_node@,
                a.children.len() == n,
                forall|k: int| 0 <= k < n ==> (#[trigger] a.children[k]) == node.childrens[k]@,
                b.children.len() == other_node.childrens.len(),
                forall|k: int|
                    0 <= k < b.children.len() ==> (#[trigger] b.children[k])
                        == other_node.childrens[k]@,
                result@ == base.with_children(a.children.take(i as int), b),
            decreases n - i,
        {
            let child = &node.childrens[i];
            let ghost before = result@;
            proof {
                lemma_next_child(base, a.children, b, i as int);
                assert(a.children[i as int] == child@);
            }
            match &child.node_type {
                NodeType::File(_) => {
                    match other_node.find_child(&child.node_name, false) {
                        Some(j) => {
                            let found = &other_node.childrens[j];
                            assert(b.children[j as int] == found@);
                            if child.differs_from(found) {
                                record(&mut result.modified_nodes, found);
                            }
                        },
                        None => {
                            record(&mut result.removed_nodes, child);
                            record(&mut result.removed_files, child);
                        },
                    }
                },
                NodeType::Dir => {
                    match other_node.find_child(&child.node_name, true) {
                        Some(j) => {
                            let found = &other_node.childrens[j];
                            assert(b.children[j as int] == found@);
                            self.compare_node(result, child, found);
                        },
                        None => {
                            record(&mut result.removed_nodes, child);
                            record(&mut result.removed_dirs, child);
                        },
                    }
                },
                _ => {},
            }
            proof {
                let after = before.with_child(child@, b);
                lemma_nothing_of_nothing();
                lemma_filter_push(Seq::empty(), child@, |node: TreeNodeView| node.is_file());
                lemma_filter_push(Seq::empty(), child@, |node: TreeNodeView| node.is_dir());
                assert(Seq::<TreeNodeView>::empty().push(child@) =~= seq![child@]);
                assert(result@.new_nodes =~= after.new_nodes);
                assert(result@.removed_nodes =~= after.removed_nodes);
                assert(result@.moved_nodes =~= after.moved_nodes);
                assert(result@.modified_nodes =~= after.modified_nodes);
                assert(result@.new_files =~= after.new_files);
                assert(result@.new_dirs =~= after.new_dirs);
                assert(result@.removed_files =~= after.removed_files);
                assert(result@.removed_dirs =~= after.removed_dirs);
                assert(result@.modified_files =~= after.modified_files);
            }
            i = i + 1;
        }
        let ghost walked = result@;
        proof {
            assert(a.children.take(n as int) =~= a.children);
            assert(b.children.take(0) =~= Seq::empty());
            assert(unmatched(a.children, Seq::empty()) =~= Seq::empty()) by {
                reveal(Seq::filter);
            }
            lemma_nothing_of_nothing();
            let start = walked.with_new(unmatched(a.children, b.children.take(0)));
            assert(start.new_nodes =~= walked.new_nodes);
            assert(start.new_files =~= walked.new_files);
            assert(start.new_dirs =~= walked.new_dirs);
        }
        let m = other_node.childrens.len();
        let mut j: usize = 0;
        while j < m
            invariant
                j <= m,
                m == other_node.childrens.len(),
                a == node@,
                b == other_node@,
                b.children.len() == m,
                forall|k: int| 0 <= k < m ==> (#[trigger] b.children[k]) == other_node.childrens[k]@,
                result@ == walked.with_new(unmatched(a.children, b.children.take(j as int))),
            decreases m - j,
        {
            let entry = &other_node.childrens[j];
            let ghost before = result@;
            let ghost seen = unmatched(a.children, b.children.take(j as int));
            proof {
                assert(b.children[j as int] == entry@);
                assert(b.children.take(j + 1) =~= b.children.take(j as int).push(entry@));
                lemma_filter_push(
                    b.children.take(j as int),
                    entry@,
                    |entry: TreeNodeView| is_unmatched(a.children, entry),
                );
                lemma_filter_push(seen, entry@, |node: TreeNodeView| node.is_file());
                lemma_filter_push(seen, entry@, |node: TreeNodeView| node.is_dir());
            }
            match &entry.node_type {
                NodeType::File(_) => {
                    if node.find_child(&entry.node_name, false).is_none() {
                        record(&mut result.new_nodes, entry);
                        record(&mut result.new_files, entry);
                    }
                },
                NodeType::Dir => {
                    if node.find_child(&entry.node_name, true).is_none() {
                        record(&mut result.new_nodes, entry);
                        record(&mut result.new_dirs, entry);
                    }
                },
                _ => {},
            }
            proof {
                let after = walked.with_new(unmatched(a.children, b.children.take(j + 1)));
                assert(result@.new_nodes =~= after.new_nodes);
                assert(result@.new_files =~= after.new_files);
                assert(result@.new_dirs =~= after.new_dirs);
            }
            j = j + 1;
        }
        proof {
            assert(b.children.take(m as int) =~= b.children);
            lemma_children_then_new(base, a, b);
        }
    }
}

} // verus!
