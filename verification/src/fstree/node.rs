//! The node of a snapshot: a file or a directory with what the analysis
//! passes found out about it.
use vstd::prelude::*;
use crate::contents::{bytes_of, Contents, FileEntryView, MAX_FILE_SIZE};
use crate::diagnostic::{findings, report, Diagnostic, DiagnosticView};
use crate::file::elf::{analyse_elf2, dynamic_of, elf_data_of, unresolved, ElfData};
use crate::file::{check_type, classify, FileType, FileTypeView};
use crate::hash::{content_hash, digest};

verus! {

/// What a node is: a file, with its type tag once it has been classified, or
/// a directory.
#[derive(Debug, PartialEq, Eq)]
pub enum NodeType {
    File(Option<FileType>),
    Dir,
}

/// The mathematical value of a [`NodeType`].
pub ghost enum NodeTypeView {
    File(Option<FileTypeView>),
    Dir,
}

impl View for NodeType {
    type V = NodeTypeView;

    open spec fn view(&self) -> NodeTypeView {
        match *self {
            NodeType::File(None) => NodeTypeView::File(None),
            NodeType::File(Some(file_type)) => NodeTypeView::File(Some(file_type@)),
            NodeType::Dir => NodeTypeView::Dir,
        }
    }
}

/// The fields of a node.
#[derive(Debug, PartialEq, Eq)]
pub struct NodeInner {
    /// Type of the node.
    pub node_type: NodeType,
    /// Name of the file or directory.
    pub name: String,
    /// Path of the node below the root of the snapshot; it starts with `/`.
    pub local_path: String,
    /// Path of the node on the system.
    pub fs_path: String,
    /// Digest of the file's content, once it has been computed.
    pub hash: Option<u64>,
    /// Size in bytes, as it was when the snapshot was built.
    pub len: u64,
    /// Children of a directory, in the order in which they were listed.
    pub childrens: Vec<Node>,
    /// Local path of the directory that holds the node; none for the root.
    pub parent: Option<String>,
}

/// One file or directory of a snapshot. A directory owns its children.
#[derive(Debug, PartialEq, Eq)]
pub struct Node {
    pub inner: NodeInner,
}

/// The mathematical value of a [`Node`].
pub ghost struct NodeView {
    pub node_type: NodeTypeView,
    pub name: Seq<char>,
    pub local_path: Seq<char>,
    pub fs_path: Seq<char>,
    pub hash: Option<u64>,
    pub len: u64,
    pub children: Seq<NodeView>,
    pub parent: Option<Seq<char>>,
}

/// The value of a node: its own fields and the values of its children.
pub open spec fn node_view(node: Node) -> NodeView
    decreases node,
{
    NodeView {
        node_type: node.inner.node_type@,
        name: node.inner.name@,
        local_path: node.inner.local_path@,
        fs_path: node.inner.fs_path@,
        hash: node.inner.hash,
        len: node.inner.len,
        children: node_views(node.inner.childrens@),
        parent: match node.inner.parent {
            Some(path) => Some(path@),
            None => None,
        },
    }
}

/// The values of a row of nodes, in order.
pub open spec fn node_views(nodes: Seq<Node>) -> Seq<NodeView>
    decreases nodes,
{
    if nodes.len() == 0 {
        Seq::empty()
    } else {
        node_views(nodes.drop_last()).push(node_view(nodes.last()))
    }
}

impl View for Node {
    type V = NodeView;

    open spec fn view(&self) -> NodeView {
        node_view(*self)
    }
}

impl View for NodeInner {
    type V = NodeView;

    open spec fn view(&self) -> NodeView {
        NodeView {
            node_type: self.node_type@,
            name: self.name@,
            local_path: self.local_path@,
            fs_path: self.fs_path@,
            hash: self.hash,
            len: self.len,
            children: node_views(self.childrens@),
            parent: match self.parent {
                Some(path) => Some(path@),
                None => None,
            },
        }
    }
}

/// `node_views` keeps the length and works item by item.
pub proof fn lemma_node_views(nodes: Seq<Node>)
    ensures
        node_views(nodes).len() == nodes.len(),
        forall|i: int| 0 <= i < nodes.len() ==> (#[trigger] node_views(nodes)[i]) == nodes[i]@,
    decreases nodes.len(),
{
    if nodes.len() > 0 {
        lemma_node_views(nodes.drop_last());
    }
}

/// The values of the nodes that a row of references points to.
pub open spec fn ref_views(nodes: Seq<&Node>) -> Seq<NodeView> {
    Seq::new(nodes.len(), |i: int| nodes[i]@)
}

/// A count as a `u64`; a count that does not fit is `u64::MAX`.
pub open spec fn saturated(count: nat) -> u64 {
    if count > u64::MAX {
        u64::MAX
    } else {
        count as u64
    }
}

impl NodeView {
    pub open spec fn is_dir(self) -> bool {
        self.node_type is Dir
    }

    pub open spec fn is_file(self) -> bool {
        self.node_type is File
    }

    /// A file that has been classified as an ELF binary.
    pub open spec fn is_elf(self) -> bool {
        self.node_type matches NodeTypeView::File(Some(FileTypeView::Elf(_)))
    }

    /// A file called `name`.
    pub open spec fn is_file_named(self, name: Seq<char>) -> bool {
        self.is_file() && self.name == name
    }

    /// Every node below this one, each directory followed by what is below
    /// it. Only directories have nodes below them.
    pub open spec fn descendants(self) -> Seq<NodeView>
        decreases self, 0int,
    {
        descendants_among(self.children)
    }

    /// The files below this node.
    pub open spec fn files(self) -> Seq<NodeView> {
        self.descendants().filter(|node: NodeView| node.is_file())
    }

    /// The directories below this node.
    pub open spec fn dirs(self) -> Seq<NodeView> {
        self.descendants().filter(|node: NodeView| node.is_dir())
    }

    /// The files below this node that are called `name`.
    pub open spec fn files_named(self, name: Seq<char>) -> Seq<NodeView> {
        self.descendants().filter(|node: NodeView| node.is_file_named(name))
    }
}

impl NodeView {
    /// The tree below the node is a tree of files and directories as a
    /// filesystem has them: a file has no children, no two children of a
    /// directory have the same name, and every child names the directory that
    /// holds it as its parent.
    pub open spec fn well_formed(self) -> bool
        decreases self,
    {
        &&& self.is_file() ==> self.children.len() == 0
        &&& forall|i: int, j: int|
            0 <= i < j < self.children.len() ==> (#[trigger] self.children[i]).name != (
            #[trigger] self.children[j]).name
        &&& forall|i: int|
            0 <= i < self.children.len() ==> (#[trigger] self.children[i]).parent == Some(
                self.local_path,
            )
        &&& forall|i: int|
            0 <= i < self.children.len() ==> (#[trigger] self.children[i]).well_formed()
    }

    /// Whether `kids` can be the children of this node in a well-formed
    /// tree: the node is a directory, the children are well formed and have
    /// different names, and each of them names this node as its parent.
    pub open spec fn accepts(self, kids: Seq<NodeView>) -> bool {
        &&& self.is_dir()
        &&& forall|i: int, j: int|
            0 <= i < j < kids.len() ==> (#[trigger] kids[i]).name != (#[trigger] kids[j]).name
        &&& forall|i: int|
            0 <= i < kids.len() ==> (#[trigger] kids[i]).parent == Some(self.local_path)
        &&& forall|i: int| 0 <= i < kids.len() ==> (#[trigger] kids[i]).well_formed()
    }

    /// The number of nodes below this one, whatever they are.
    pub open spec fn entries(self) -> nat
        decreases self, 0int,
    {
        entries_among(self.children)
    }
}

impl NodeView {
    /// The number of directories (`dirs` set) or of files below this node.
    pub open spec fn entries_of(self, dirs: bool) -> nat
        decreases self, 0int,
    {
        entries_of_among(self.children, dirs)
    }
}

/// The number of directories (`dirs` set) or of files of a row and below
/// them.
pub open spec fn entries_of_among(kids: Seq<NodeView>, dirs: bool) -> nat
    decreases kids, 0int,
{
    if kids.len() == 0 {
        0
    } else {
        entries_of_among(kids.drop_last(), dirs) + (if kids.last().is_dir() == dirs {
            1nat
        } else {
            0nat
        }) + kids.last().entries_of(dirs)
    }
}

/// The number of nodes of a row and below them.
pub open spec fn entries_among(kids: Seq<NodeView>) -> nat
    decreases kids, 0int,
{
    if kids.len() == 0 {
        0
    } else {
        entries_among(kids.drop_last()) + 1 + kids.last().entries()
    }
}

/// Every node of a row is a file or a directory, and none is both.
proof fn lemma_files_and_dirs(row: Seq<NodeView>)
    ensures
        row.filter(|node: NodeView| node.is_file()).len() + row.filter(
            |node: NodeView| node.is_dir(),
        ).len() == row.len(),
    decreases row.len(),
{
    reveal(Seq::filter);
    if row.len() > 0 {
        lemma_files_and_dirs(row.drop_last());
    }
}

/// In a well-formed tree the walk reaches every node below the first
/// children of a directory.
proof fn lemma_walk_reaches_among(node: NodeView, k: int)
    requires
        node.well_formed(),
        0 <= k <= node.children.len(),
    ensures
        descendants_among(node.children.take(k)).len() == entries_among(node.children.take(k)),
    decreases node, k,
{
    if k > 0 {
        lemma_walk_reaches_among(node, k - 1);
        let child = node.children[k - 1];
        assert(node.children.take(k).drop_last() =~= node.children.take(k - 1));
        assert(node.children.take(k).last() == child);
        assert(child.well_formed());
        lemma_walk_reaches_every_entry(child);
        if child.is_dir() {
            assert(with_descendants(child).len() == 1 + child.descendants().len());
        } else {
            assert(child.is_file());
            assert(child.children =~= Seq::empty());
            assert(child.entries() == 0);
            assert(with_descendants(child).len() == 1);
        }
        assert(descendants_among(node.children.take(k)).len() == descendants_among(
            node.children.take(k - 1),
        ).len() + with_descendants(child).len());
    } else {
        assert(node.children.take(0) =~= Seq::empty());
    }
}

/// In a well-formed tree the walk reaches every node.
pub proof fn lemma_walk_reaches_every_entry(node: NodeView)
    requires
        node.well_formed(),
    ensures
        node.descendants().len() == node.entries(),
    decreases node, node.children.len() + 1,
{
    lemma_walk_reaches_among(node, node.children.len() as int);
    assert(node.children.take(node.children.len() as int) =~= node.children);
}

/// In a well-formed tree the walk keeps as many nodes of one kind as there
/// are below the first children of a directory.
proof fn lemma_walk_counts_among(node: NodeView, keep: spec_fn(NodeView) -> bool, dirs: bool, k: int)
    requires
        node.well_formed(),
        forall|other: NodeView| #[trigger] keep(other) == (other.is_dir() == dirs),
        0 <= k <= node.children.len(),
    ensures
        descendants_among(node.children.take(k)).filter(keep).len() == entries_of_among(
            node.children.take(k),
            dirs,
        ),
    decreases node, k,
{
    if k > 0 {
        lemma_walk_counts_among(node, keep, dirs, k - 1);
        let child = node.children[k - 1];
        assert(node.children.take(k).drop_last() =~= node.children.take(k - 1));
        assert(node.children.take(k).last() == child);
        assert(child.well_formed());
        lemma_descendants_step(node.children, k - 1, keep);
        lemma_walk_counts(child, keep, dirs);
        if !child.is_dir() {
            assert(child.children =~= Seq::empty());
            assert(child.entries_of(dirs) == 0);
        }
        assert(seq![child].len() == 1);
        assert(Seq::<NodeView>::empty().len() == 0);
    } else {
        assert(node.children.take(0) =~= Seq::empty());
        assert(descendants_among(node.children.take(0)).filter(keep) =~= Seq::empty()) by {
            reveal(Seq::filter);
        }
    }
}

/// In a well-formed tree the walk keeps as many nodes of one kind as there
/// are below a node.
proof fn lemma_walk_counts(node: NodeView, keep: spec_fn(NodeView) -> bool, dirs: bool)
    requires
        node.well_formed(),
        forall|other: NodeView| #[trigger] keep(other) == (other.is_dir() == dirs),
    ensures
        node.descendants().filter(keep).len() == node.entries_of(dirs),
    decreases node, node.children.len() + 1,
{
    lemma_walk_counts_among(node, keep, dirs, node.children.len() as int);
    assert(node.children.take(node.children.len() as int) =~= node.children);
}

/// The counts of a well-formed snapshot are the numbers of files and of
/// directories that it was given, at any depth: as many files as there are
/// file nodes below the root, as many directories as there are directory
/// nodes below it, and together as many as there are nodes.
pub proof fn lemma_counts_by_kind(node: NodeView)
    requires
        node.well_formed(),
    ensures
        node.files().len() == node.entries_of(false),
        node.dirs().len() == node.entries_of(true),
        node.entries_of(false) + node.entries_of(true) == node.entries(),
{
    lemma_walk_counts(node, |other: NodeView| other.is_file(), false);
    lemma_walk_counts(node, |other: NodeView| other.is_dir(), true);
    lemma_counts_cover_entries(node);
}

/// The files and the directories of a snapshot together are its entries:
/// every node below the root is counted once, at any depth.
pub proof fn lemma_counts_cover_entries(node: NodeView)
    requires
        node.well_formed(),
    ensures
        node.files().len() + node.dirs().len() == node.entries(),
{
    lemma_walk_reaches_every_entry(node);
    lemma_files_and_dirs(node.descendants());
}

/// A file keeps the tag that it has: classification changes none but an
/// unclassified file, and what it gives such a file is a tag.
pub proof fn lemma_classification_refines(file: NodeView, table: Seq<FileEntryView>)
    ensures
        !is_unclassified(file) ==> classified_file(file, table) == file,
        file.is_file() ==> classified_file(file, table).is_file(),
        classified_file(file, table).node_type != file.node_type ==> classified_file(
            file,
            table,
        ).node_type is File && classified_file(file, table).node_type->File_0 is Some,
{
}

/// The analysis of binaries changes none but a binary that waits for it, and
/// what it gives such a binary is the result of its analysis.
pub proof fn lemma_analysis_refines(file: NodeView, head: NodeView, table: Seq<FileEntryView>)
    ensures
        !needs_analysis(file) ==> analysed_file(file, head, table) == file,
        analysed_file(file, head, table) != file ==> analysed_file(file, head, table).is_elf()
            && analysed_file(file, head, table).node_type != NodeTypeView::File(
            Some(FileTypeView::Elf(None)),
        ),
{
}

/// A file that is larger than `MAX_FILE_SIZE` is left without tag and without
/// digest, whatever the table holds.
pub proof fn lemma_large_file_is_skipped(file: NodeView, table: Seq<FileEntryView>)
    requires
        file.len > MAX_FILE_SIZE,
    ensures
        classified_file(file, table) == file,
        hashed_file(file, table) == file,
{
}

/// The digest pass reaches every file below the node it runs on, at any
/// depth: afterwards file `i` of the walk is what `hashed_file` makes of file
/// `i` before. So a file that is not larger than `MAX_FILE_SIZE` and whose
/// bytes are in the table has the digest of its bytes, and any other file has
/// what it had.
pub proof fn lemma_digest_pass_at_any_depth(node: NodeView, table: Seq<FileEntryView>, i: int)
    requires
        0 <= i < node.descendants().len(),
        node.descendants()[i].is_file(),
    ensures
        hashed(node, table).descendants().len() == node.descendants().len(),
        hashed(node, table).descendants()[i] == hashed_file(node.descendants()[i], table),
        node.descendants()[i].len > MAX_FILE_SIZE ==> hashed(node, table).descendants()[i]
            == node.descendants()[i],
        node.descendants()[i].len <= MAX_FILE_SIZE && bytes_of(table, node.descendants()[i].fs_path)
            is Some ==> hashed(node, table).descendants()[i].hash == Some(
            digest(bytes_of(table, node.descendants()[i].fs_path)->0),
        ),
{
    lemma_mapped_descendants(node, |file: NodeView| hashed_file(file, table));
}

/// The classification pass reaches every file below the node it runs on, at
/// any depth: afterwards file `i` of the walk is what `classified_file` makes
/// of file `i` before.
pub proof fn lemma_classification_pass_at_any_depth(
    node: NodeView,
    table: Seq<FileEntryView>,
    i: int,
)
    requires
        0 <= i < node.descendants().len(),
        node.descendants()[i].is_file(),
    ensures
        typed(node, table).descendants().len() == node.descendants().len(),
        typed(node, table).descendants()[i] == classified_file(node.descendants()[i], table),
{
    lemma_mapped_descendants(node, |file: NodeView| classified_file(file, table));
}

/// The digest of a file depends on its bytes alone: two files with the same
/// bytes on record, of whatever name and path and in whatever tables, get the
/// same digest.
pub proof fn lemma_digest_depends_on_the_bytes_alone(
    first: NodeView,
    first_table: Seq<FileEntryView>,
    second: NodeView,
    second_table: Seq<FileEntryView>,
)
    requires
        first.is_file() && first.len <= MAX_FILE_SIZE,
        second.is_file() && second.len <= MAX_FILE_SIZE,
        bytes_of(first_table, first.fs_path) is Some,
        bytes_of(first_table, first.fs_path) == bytes_of(second_table, second.fs_path),
    ensures
        hashed_file(first, first_table).hash == Some(
            digest(bytes_of(first_table, first.fs_path)->0),
        ),
        hashed_file(second, second_table).hash == hashed_file(first, first_table).hash,
{
}

/// A second digest pass over the same table changes nothing, and neither
/// does a second classification pass.
pub proof fn lemma_pass_twice(node: NodeView, table: Seq<FileEntryView>)
    ensures
        hashed(hashed(node, table), table) == hashed(node, table),
        typed(typed(node, table), table) == typed(node, table),
{
    lemma_mapped_twice(node, |file: NodeView| hashed_file(file, table));
    lemma_mapped_twice(node, |file: NodeView| classified_file(file, table));
}

/// A pass that keeps the kind, the name, the paths and the children of every
/// file keeps the tree well formed.
pub proof fn lemma_mapped_keeps_well_formed(node: NodeView, change: spec_fn(NodeView) -> NodeView)
    requires
        node.well_formed(),
        forall|file: NodeView|
            !file.is_dir() ==> {
                let after = #[trigger] change(file);
                &&& after.is_file()
                &&& after.name == file.name
                &&& after.local_path == file.local_path
                &&& after.parent == file.parent
                &&& after.children == file.children
            },
    ensures
        mapped(node, change).well_formed(),
        mapped(node, change).node_type == node.node_type,
        mapped(node, change).name == node.name,
        mapped(node, change).local_path == node.local_path,
        mapped(node, change).parent == node.parent,
        mapped(node, change).children.len() == node.children.len(),
    decreases node,
{
    let after = mapped(node, change);
    lemma_mapped_among(node.children, change);
    assert forall|i: int| 0 <= i < node.children.len() implies {
        &&& (#[trigger] after.children[i]).well_formed()
        &&& after.children[i].name == node.children[i].name
        &&& after.children[i].parent == node.children[i].parent
    } by {
        let child = node.children[i];
        assert(child.well_formed());
        if child.is_dir() {
            lemma_mapped_keeps_well_formed(child, change);
        } else {
            assert(child.is_file());
            assert(change(child).children.len() == 0);
        }
    }
    assert forall|i: int, j: int| 0 <= i < j < after.children.len() implies (
    #[trigger] after.children[i]).name != (#[trigger] after.children[j]).name by {
        assert(node.children[i].name != node.children[j].name);
    }
}

/// The three passes keep a snapshot well formed.
pub proof fn lemma_passes_keep_well_formed(node: NodeView, head: NodeView, table: Seq<FileEntryView>)
    requires
        node.well_formed(),
    ensures
        typed(node, table).well_formed(),
        hashed(node, table).well_formed(),
        analysed(node, head, table).well_formed(),
{
    lemma_mapped_keeps_well_formed(node, |file: NodeView| classified_file(file, table));
    lemma_mapped_keeps_well_formed(node, |file: NodeView| hashed_file(file, table));
    lemma_mapped_keeps_well_formed(node, |file: NodeView| analysed_file(file, head, table));
}

/// The nodes of a row, each followed by what is below it.
pub open spec fn descendants_among(kids: Seq<NodeView>) -> Seq<NodeView>
    decreases kids, 0int,
{
    if kids.len() == 0 {
        Seq::empty()
    } else {
        descendants_among(kids.drop_last()) + with_descendants(kids.last())
    }
}

/// A node followed by what is below it.
pub open spec fn with_descendants(node: NodeView) -> Seq<NodeView>
    decreases node, 1int,
{
    if node.is_dir() {
        seq![node] + node.descendants()
    } else {
        seq![node]
    }
}

/// One more node of a row adds that node and what is below it.
pub proof fn lemma_descendants_step(kids: Seq<NodeView>, i: int, keep: spec_fn(NodeView) -> bool)
    requires
        0 <= i < kids.len(),
    ensures
        descendants_among(kids.take(i + 1)) == descendants_among(kids.take(i)) + with_descendants(
            kids[i],
        ),
        descendants_among(kids.take(i + 1)).filter(keep) == descendants_among(kids.take(i)).filter(
            keep,
        ) + with_descendants(kids[i]).filter(keep),
        with_descendants(kids[i]).filter(keep) == (if keep(kids[i]) {
            seq![kids[i]]
        } else {
            Seq::empty()
        }) + (if kids[i].is_dir() {
            kids[i].descendants().filter(keep)
        } else {
            Seq::empty()
        }),
{
    assert(kids.take(i + 1).drop_last() =~= kids.take(i));
    Seq::filter_distributes_over_add(
        descendants_among(kids.take(i)),
        with_descendants(kids[i]),
        keep,
    );
    let one = seq![kids[i]];
    assert(one.filter(keep) =~= if keep(kids[i]) {
        one
    } else {
        Seq::empty()
    }) by {
        reveal_with_fuel(Seq::filter, 2);
        assert(one.drop_last() =~= Seq::<NodeView>::empty());
    }
    assert(Seq::<NodeView>::empty().filter(keep) =~= Seq::empty()) by {
        reveal(Seq::filter);
    }
    if kids[i].is_dir() {
        Seq::filter_distributes_over_add(one, kids[i].descendants(), keep);
    } else {
        assert(one.filter(keep) + Seq::<NodeView>::empty() =~= one.filter(keep));
    }
}

/// A tree with every file below `node` replaced by what `change` makes of
/// it. Directories stay as they are, but for their children.
pub open spec fn mapped(node: NodeView, change: spec_fn(NodeView) -> NodeView) -> NodeView
    decreases node, 0int,
{
    NodeView { children: mapped_among(node.children, change), ..node }
}

/// A row of nodes, each one changed by `mapped_child`.
pub open spec fn mapped_among(kids: Seq<NodeView>, change: spec_fn(NodeView) -> NodeView) -> Seq<
    NodeView,
>
    decreases kids, 0int,
{
    if kids.len() == 0 {
        Seq::empty()
    } else {
        mapped_among(kids.drop_last(), change).push(mapped_child(kids.last(), change))
    }
}

/// A directory with the files below it changed, or a file changed.
pub open spec fn mapped_child(node: NodeView, change: spec_fn(NodeView) -> NodeView) -> NodeView
    decreases node, 1int,
{
    if node.is_dir() {
        mapped(node, change)
    } else {
        change(node)
    }
}

/// `mapped_among` keeps the length and works item by item.
pub proof fn lemma_mapped_among(kids: Seq<NodeView>, change: spec_fn(NodeView) -> NodeView)
    ensures
        mapped_among(kids, change).len() == kids.len(),
        forall|i: int|
            0 <= i < kids.len() ==> (#[trigger] mapped_among(kids, change)[i]) == mapped_child(
                kids[i],
                change,
            ),
    decreases kids.len(),
{
    if kids.len() > 0 {
        lemma_mapped_among(kids.drop_last(), change);
    }
}

/// What a pass that makes no directory of a file does to the first children
/// of a directory and to all that lies below them: it changes node by node.
proof fn lemma_mapped_descendants_among(
    node: NodeView,
    change: spec_fn(NodeView) -> NodeView,
    k: int,
)
    requires
        forall|file: NodeView| !file.is_dir() ==> !(#[trigger] change(file)).is_dir(),
        0 <= k <= node.children.len(),
    ensures
        descendants_among(mapped_among(node.children, change).take(k)).len() == descendants_among(
            node.children.take(k),
        ).len(),
        forall|i: int|
            0 <= i < descendants_among(node.children.take(k)).len() ==> (
            #[trigger] descendants_among(mapped_among(node.children, change).take(k))[i])
                == mapped_child(descendants_among(node.children.take(k))[i], change),
    decreases node, k,
{
    let kids = node.children;
    let after = mapped_among(kids, change);
    lemma_mapped_among(kids, change);
    if k > 0 {
        lemma_mapped_descendants_among(node, change, k - 1);
        let child = kids[k - 1];
        assert(kids.take(k).drop_last() =~= kids.take(k - 1));
        assert(after.take(k).drop_last() =~= after.take(k - 1));
        assert(after.take(k).last() == mapped_child(child, change));
        let seen = descendants_among(kids.take(k - 1));
        let seen_after = descendants_among(after.take(k - 1));
        let step = with_descendants(child);
        let step_after = with_descendants(mapped_child(child, change));
        assert(descendants_among(kids.take(k)) == seen + step);
        assert(descendants_among(after.take(k)) == seen_after + step_after);
        if child.is_dir() {
            lemma_mapped_descendants(child, change);
            assert(mapped_child(child, change) == mapped(child, change));
            assert(mapped(child, change).is_dir());
            assert(step_after == seq![mapped(child, change)] + mapped(child, change).descendants());
        } else {
            assert(!change(child).is_dir());
            assert(step_after == seq![change(child)]);
        }
        assert(step_after.len() == step.len());
        assert forall|i: int| 0 <= i < step.len() implies (#[trigger] step_after[i]) == mapped_child(
            step[i],
            change,
        ) by {
            if child.is_dir() && i > 0 {
                assert(step[i] == child.descendants()[i - 1]);
                assert(step_after[i] == mapped(child, change).descendants()[i - 1]);
            }
        }
        assert forall|i: int| 0 <= i < (seen + step).len() implies (#[trigger] (seen_after
            + step_after)[i]) == mapped_child((seen + step)[i], change) by {
            if i >= seen.len() {
                assert((seen + step)[i] == step[i - seen.len()]);
                assert((seen_after + step_after)[i] == step_after[i - seen.len()]);
            }
        }
    } else {
        assert(kids.take(0) =~= Seq::empty());
        assert(after.take(0) =~= Seq::empty());
    }
}

/// A pass that makes no directory of a file reaches every node below the
/// node it runs on, at any depth: what lies below afterwards is what lay
/// below before, node by node, each file changed and each directory with the
/// files below it changed.
pub proof fn lemma_mapped_descendants(node: NodeView, change: spec_fn(NodeView) -> NodeView)
    requires
        forall|file: NodeView| !file.is_dir() ==> !(#[trigger] change(file)).is_dir(),
    ensures
        mapped(node, change).descendants().len() == node.descendants().len(),
        forall|i: int|
            0 <= i < node.descendants().len() ==> (#[trigger] mapped(node, change).descendants()[i])
                == mapped_child(node.descendants()[i], change),
    decreases node, node.children.len() + 1,
{
    let n = node.children.len() as int;
    lemma_mapped_among(node.children, change);
    lemma_mapped_descendants_among(node, change, n);
    assert(node.children.take(n) =~= node.children);
    assert(mapped_among(node.children, change).take(n) =~= mapped_among(node.children, change));
}

/// A pass whose change of a file is not changed by a second change is not
/// changed by a second pass.
pub proof fn lemma_mapped_twice(node: NodeView, change: spec_fn(NodeView) -> NodeView)
    requires
        forall|file: NodeView|
            !file.is_dir() ==> !(#[trigger] change(file)).is_dir() && change(change(file))
                == change(file),
    ensures
        mapped(mapped(node, change), change) == mapped(node, change),
    decreases node,
{
    let once = mapped(node, change);
    let twice = mapped(once, change);
    lemma_mapped_among(node.children, change);
    lemma_mapped_among(once.children, change);
    assert forall|i: int| 0 <= i < node.children.len() implies (#[trigger] twice.children[i])
        == once.children[i] by {
        let child = node.children[i];
        if child.is_dir() {
            lemma_mapped_twice(child, change);
        }
    }
    assert(twice.children =~= once.children);
}

/// A file that has no type tag yet, or the tag of an unrecognised file.
pub open spec fn is_unclassified(file: NodeView) -> bool {
    file.node_type == NodeTypeView::File(None) || file.node_type == NodeTypeView::File(
        Some(FileTypeView::Data),
    )
}

/// What classification makes of a file: an unclassified file that is not
/// larger than `MAX_FILE_SIZE` and whose bytes are in the table gets the tag
/// of its name and bytes; any other file stays as it is.
pub open spec fn classified_file(file: NodeView, table: Seq<FileEntryView>) -> NodeView {
    if is_unclassified(file) && file.len <= MAX_FILE_SIZE {
        match bytes_of(table, file.fs_path) {
            Some(bytes) => NodeView {
                node_type: NodeTypeView::File(Some(classify(file.name, bytes))),
                ..file
            },
            None => file,
        }
    } else {
        file
    }
}

/// What digesting makes of a file: a file that is not larger than
/// `MAX_FILE_SIZE` and whose bytes are in the table gets their digest; any
/// other file stays as it is.
pub open spec fn hashed_file(file: NodeView, table: Seq<FileEntryView>) -> NodeView {
    if file.is_file() && file.len <= MAX_FILE_SIZE {
        match bytes_of(table, file.fs_path) {
            Some(bytes) => NodeView { hash: Some(digest(bytes)), ..file },
            None => file,
        }
    } else {
        file
    }
}

/// The tree below `node` after the classification pass.
pub open spec fn typed(node: NodeView, table: Seq<FileEntryView>) -> NodeView {
    mapped(node, |file: NodeView| classified_file(file, table))
}

/// The tree below `node` after the digest pass.
pub open spec fn hashed(node: NodeView, table: Seq<FileEntryView>) -> NodeView {
    mapped(node, |file: NodeView| hashed_file(file, table))
}

/// A file with the tag of an ELF binary that has not been analysed yet.
pub open spec fn needs_analysis(file: NodeView) -> bool {
    file.node_type == NodeTypeView::File(Some(FileTypeView::Elf(None)))
}

/// What the analysis of binaries makes of a file: an ELF binary that has not
/// been analysed, whose bytes are in the table and can be read, gets the
/// result of its analysis within the snapshot below `head`; any other file
/// stays as it is.
pub open spec fn analysed_file(file: NodeView, head: NodeView, table: Seq<FileEntryView>) -> NodeView {
    if needs_analysis(file) {
        match bytes_of(table, file.fs_path) {
            Some(bytes) => match elf_data_of(head, bytes, file.len) {
                Ok(data) => NodeView {
                    node_type: NodeTypeView::File(Some(FileTypeView::Elf(Some(data)))),
                    ..file
                },
                Err(_) => file,
            },
            None => file,
        }
    } else {
        file
    }
}

/// What the analysis of binaries reports of a file: of a binary that can be
/// read, the libraries that could not be resolved; of one that cannot, that
/// it is malformed.
pub open spec fn file_findings(file: NodeView, head: NodeView, table: Seq<FileEntryView>) -> Seq<
    DiagnosticView,
> {
    if needs_analysis(file) {
        match bytes_of(table, file.fs_path) {
            Some(bytes) => match dynamic_of(bytes) {
                Ok(dynamic) => unresolved(head, file.fs_path, dynamic.libs),
                Err(error) => seq![DiagnosticView::MalformedElf { binary: file.fs_path, error }],
            },
            None => Seq::empty(),
        }
    } else {
        Seq::empty()
    }
}

/// The tree below `node` after the analysis of binaries within the snapshot
/// below `head`.
pub open spec fn analysed(node: NodeView, head: NodeView, table: Seq<FileEntryView>) -> NodeView {
    mapped(node, |file: NodeView| analysed_file(file, head, table))
}

/// What `tell` reports of the files below `node`, in the order of the walk.
pub open spec fn gathered(node: NodeView, tell: spec_fn(NodeView) -> Seq<DiagnosticView>) -> Seq<
    DiagnosticView,
>
    decreases node, 0int,
{
    gathered_among(node.children, tell)
}

/// What `tell` reports of a row of nodes and of the files below them.
pub open spec fn gathered_among(
    kids: Seq<NodeView>,
    tell: spec_fn(NodeView) -> Seq<DiagnosticView>,
) -> Seq<DiagnosticView>
    decreases kids, 0int,
{
    if kids.len() == 0 {
        Seq::empty()
    } else {
        gathered_among(kids.drop_last(), tell) + gathered_child(kids.last(), tell)
    }
}

/// What `tell` reports of a file, or of the files below a directory.
pub open spec fn gathered_child(node: NodeView, tell: spec_fn(NodeView) -> Seq<DiagnosticView>) -> Seq<
    DiagnosticView,
>
    decreases node, 1int,
{
    if node.is_dir() {
        gathered(node, tell)
    } else {
        tell(node)
    }
}

/// The findings of the analysis of binaries below `node`.
pub open spec fn analysis_findings(node: NodeView, head: NodeView, table: Seq<FileEntryView>) -> Seq<
    DiagnosticView,
> {
    gathered(node, |file: NodeView| file_findings(file, head, table))
}

/// Appends a reference to a row of references.
fn record<'a>(row: &mut Vec<&'a Node>, node: &'a Node)
    ensures
        ref_views(final(row)@) == ref_views(old(row)@).push(node@),
{
    row.push(node);
    assert(ref_views(row@) =~= ref_views(old(row)@).push(node@));
}

impl NodeInner {
    /// The fields of a node without children or digest. `parent` is the
    /// directory that will hold the node.
    pub fn new(
        name: &str,
        node_type: NodeType,
        local_path: &str,
        fs_path: &str,
        len: u64,
        parent: Option<&Node>,
    ) -> (inner: Self)
        ensures
            inner@ == (NodeView {
                node_type: node_type@,
                name: name@,
                local_path: local_path@,
                fs_path: fs_path@,
                hash: None,
                len,
                children: Seq::empty(),
                parent: match parent {
                    Some(dir) => Some(dir@.local_path),
                    None => None,
                },
            }),
    {
        let parent_path = match parent {
            Some(dir) => Some(dir.inner.local_path.clone()),
            None => None,
        };
        NodeInner {
            node_type,
            name: name.to_owned(),
            local_path: local_path.to_owned(),
            fs_path: fs_path.to_owned(),
            hash: None,
            len,
            childrens: Vec::new(),
            parent: parent_path,
        }
    }
}

impl Node {
    /// A file of `len` bytes that has not been classified yet.
    pub fn new_file(name: &str, local_path: &str, fs_path: &str, len: u64, parent: Option<&Node>) -> (node:
        Self)
        ensures
            node@ == (NodeView {
                node_type: NodeTypeView::File(None),
                name: name@,
                local_path: local_path@,
                fs_path: fs_path@,
                hash: None,
                len,
                children: Seq::empty(),
                parent: match parent {
                    Some(dir) => Some(dir@.local_path),
                    None => None,
                },
            }),
            node@.well_formed(),
    {
        Node { inner: NodeInner::new(name, NodeType::File(None), local_path, fs_path, len, parent) }
    }

    /// A directory without children.
    pub fn new_dir(name: &str, local_path: &str, fs_path: &str, len: u64, parent: Option<&Node>) -> (node:
        Self)
        ensures
            node@ == (NodeView {
                node_type: NodeTypeView::Dir,
                name: name@,
                local_path: local_path@,
                fs_path: fs_path@,
                hash: None,
                len,
                children: Seq::empty(),
                parent: match parent {
                    Some(dir) => Some(dir@.local_path),
                    None => None,
                },
            }),
            node@.well_formed(),
    {
        Node { inner: NodeInner::new(name, NodeType::Dir, local_path, fs_path, len, parent) }
    }

    /// The fields of the node.
    pub fn inner(&self) -> (inner: &NodeInner)
        ensures
            *inner == self.inner,
    {
        &self.inner
    }

    pub fn is_dir(&self) -> (yes: bool)
        ensures
            yes == self@.is_dir(),
    {
        match self.inner.node_type {
            NodeType::Dir => true,
            _ => false,
        }
    }

    pub fn is_file(&self) -> (yes: bool)
        ensures
            yes == self@.is_file(),
    {
        match self.inner.node_type {
            NodeType::File(_) => true,
            _ => false,
        }
    }

    /// Whether the node is a file that has been classified as an ELF binary.
    pub fn is_elf(&self) -> (yes: bool)
        ensures
            yes == self@.is_elf(),
    {
        match self.inner.node_type {
            NodeType::File(Some(FileType::Elf(_))) => true,
            _ => false,
        }
    }

    pub fn len(&self) -> (len: u64)
        ensures
            len == self@.len,
    {
        self.inner.len
    }

    pub fn local_path(&self) -> (path: String)
        ensures
            path@ == self@.local_path,
    {
        self.inner.local_path.clone()
    }

    pub fn name(&self) -> (name: String)
        ensures
            name@ == self@.name,
    {
        self.inner.name.clone()
    }

    /// A copy of the node with everything below it.
    pub fn duplicate(&self) -> (copy: Self)
        ensures
            copy@ == self@,
        decreases self,
    {
        let node_type = match &self.inner.node_type {
            NodeType::File(None) => NodeType::File(None),
            NodeType::File(Some(file_type)) => NodeType::File(Some(file_type.duplicate())),
            NodeType::Dir => NodeType::Dir,
        };
        let parent = match &self.inner.parent {
            Some(path) => Some(path.clone()),
            None => None,
        };
        let mut childrens: Vec<Node> = Vec::new();
        let n = self.inner.childrens.len();
        let mut i: usize = 0;
        while i < n
            invariant
                i <= n,
                n == self.inner.childrens.len(),
                childrens.len() == i,
                forall|k: int| 0 <= k < i ==> (#[trigger] childrens[k])@ == self.inner.childrens[k]@,
            decreases n - i,
        {
            childrens.push(self.inner.childrens[i].duplicate());
            i = i + 1;
        }
        proof {
            lemma_node_views(self.inner.childrens@);
            lemma_node_views(childrens@);
            assert(node_views(childrens@) =~= node_views(self.inner.childrens@));
        }
        Node {
            inner: NodeInner {
                node_type,
                name: self.inner.name.clone(),
                local_path: self.inner.local_path.clone(),
                fs_path: self.inner.fs_path.clone(),
                hash: self.inner.hash,
                len: self.inner.len,
                childrens,
                parent,
            },
        }
    }

    /// Replaces the type of the node and nothing else.
    pub fn set_type(&mut self, node_type: NodeType)
        ensures
            final(self)@ == (NodeView { node_type: node_type@, ..old(self)@ }),
    {
        self.inner.node_type = node_type;
    }

    /// Records the digest of the node and changes nothing else.
    pub fn set_hash(&mut self, hash: u64)
        ensures
            final(self)@ == (NodeView { hash: Some(hash), ..old(self)@ }),
    {
        self.inner.hash = Some(hash);
    }

    /// Gives a directory its children. A file takes none: it is left as it
    /// is, and the answer is `false`.
    pub fn set_childrens(&mut self, childrens: Vec<Node>) -> (done: bool)
        ensures
            done == old(self)@.is_dir(),
            done ==> final(self)@ == (NodeView { children: node_views(childrens@), ..old(self)@ }),
            done && old(self)@.accepts(node_views(childrens@)) ==> final(self)@.well_formed(),
            !done ==> *final(self) == *old(self),
    {
        match self.inner.node_type {
            NodeType::Dir => {
                self.inner.childrens = childrens;
                true
            },
            _ => false,
        }
    }

    /// The number of directories below this node; `u64::MAX` if there are
    /// more than that.
    #[verifier::rlimit(30)]
    pub fn count_dirs_rec(&self) -> (count: u64)
        ensures
            count == saturated(self@.dirs().len()),
        decreases self,
    {
        let ghost keep = |node: NodeView| node.is_dir();
        let ghost kids = self@.children;
        proof {
            lemma_node_views(self.inner.childrens@);
            assert(kids.take(0) =~= Seq::empty());
            assert(descendants_among(kids.take(0)).filter(keep) =~= Seq::empty()) by {
                reveal(Seq::filter);
            }
        }
        let n = self.inner.childrens.len();
        let mut count: u64 = 0;
        let mut i: usize = 0;
        while i < n
            invariant
                i <= n,
                n == self.inner.childrens.len(),
                kids == self@.children,
                kids.len() == n,
                keep == |node: NodeView| node.is_dir(),
                forall|k: int| 0 <= k < n ==> (#[trigger] kids[k]) == self.inner.childrens[k]@,
                count == saturated(descendants_among(kids.take(i as int)).filter(keep).len()),
            decreases n - i,
        {
            let child = &self.inner.childrens[i];
            let ghost seen = descendants_among(kids.take(i as int)).filter(keep);
            let ghost step = with_descendants(kids[i as int]).filter(keep);
            proof {
                lemma_descendants_step(kids, i as int, keep);
                assert(kids[i as int] == child@);
                assert(descendants_among(kids.take(i + 1)).filter(keep) == seen + step);
                assert((seen + step).len() == seen.len() + step.len());
                assert(seq![kids[i as int]].len() == 1);
                assert(Seq::<NodeView>::empty().len() == 0);
            }
            if child.is_dir() {
                count = count.saturating_add(child.count_dirs_rec());
                count = count.saturating_add(1);
            }
            i = i + 1;
        }
        assert(kids.take(n as int) =~= kids);
        count
    }

    /// The number of files below this node; `u64::MAX` if there are more than
    /// that.
    #[verifier::rlimit(30)]
    pub fn count_files_rec(&self) -> (count: u64)
        ensures
            count == saturated(self@.files().len()),
        decreases self,
    {
        let ghost keep = |node: NodeView| node.is_file();
        let ghost kids = self@.children;
        proof {
            lemma_node_views(self.inner.childrens@);
            assert(kids.take(0) =~= Seq::empty());
            assert(descendants_among(kids.take(0)).filter(keep) =~= Seq::empty()) by {
                reveal(Seq::filter);
            }
        }
        let n = self.inner.childrens.len();
        let mut count: u64 = 0;
        let mut i: usize = 0;
        while i < n
            invariant
                i <= n,
                n == self.inner.childrens.len(),
                kids == self@.children,
                kids.len() == n,
                keep == |node: NodeView| node.is_file(),
                forall|k: int| 0 <= k < n ==> (#[trigger] kids[k]) == self.inner.childrens[k]@,
                count == saturated(descendants_among(kids.take(i as int)).filter(keep).len()),
            decreases n - i,
        {
            let child = &self.inner.childrens[i];
            let ghost seen = descendants_among(kids.take(i as int)).filter(keep);
            let ghost step = with_descendants(kids[i as int]).filter(keep);
            proof {
                lemma_descendants_step(kids, i as int, keep);
                assert(kids[i as int] == child@);
                assert(descendants_among(kids.take(i + 1)).filter(keep) == seen + step);
                assert((seen + step).len() == seen.len() + step.len());
                assert(seq![kids[i as int]].len() == 1);
                assert(Seq::<NodeView>::empty().len() == 0);
            }
            if child.is_dir() {
                count = count.saturating_add(child.count_files_rec());
            } else if child.is_file() {
                count = count.saturating_add(1);
            }
            i = i + 1;
        }
        assert(kids.take(n as int) =~= kids);
        count
    }

    /// The files below this node, in the order of the walk.
    pub fn list_files_rec(&self) -> (files: Vec<&Node>)
        ensures
            ref_views(files@) == self@.files(),
            files.len() == self@.files().len(),
    {
        let mut files: Vec<&Node> = Vec::new();
        assert(ref_views(files@) =~= Seq::empty());
        self.collect_files(&mut files);
        assert(Seq::<NodeView>::empty() + self@.files() =~= self@.files());
        files
    }

    /// Appends to `found` the files below this node.
    fn collect_files<'a>(&'a self, found: &mut Vec<&'a Node>)
        ensures
            ref_views(final(found)@) == ref_views(old(found)@) + self@.files(),
        decreases self,
    {
        let ghost keep = |node: NodeView| node.is_file();
        let ghost kids = self@.children;
        let ghost base = ref_views(found@);
        proof {
            lemma_node_views(self.inner.childrens@);
            assert(kids.take(0) =~= Seq::empty());
            assert(descendants_among(kids.take(0)).filter(keep) =~= Seq::empty()) by {
                reveal(Seq::filter);
            }
            assert(base + Seq::<NodeView>::empty() =~= base);
        }
        let n = self.inner.childrens.len();
        let mut i: usize = 0;
        while i < n
            invariant
                i <= n,
                n == self.inner.childrens.len(),
                kids == self@.children,
                kids.len() == n,
                keep == |node: NodeView| node.is_file(),
                forall|k: int| 0 <= k < n ==> (#[trigger] kids[k]) == self.inner.childrens[k]@,
                ref_views(found@) == base + descendants_among(kids.take(i as int)).filter(keep),
            decreases n - i,
        {
            let child = &self.inner.childrens[i];
            let ghost before = ref_views(found@);
            proof {
                lemma_descendants_step(kids, i as int, keep);
                assert(kids[i as int] == child@);
            }
            if child.is_dir() {
                child.collect_files(found);
            } else if child.is_file() {
                record(found, child);
            }
            proof {
                let step = with_descendants(child@).filter(keep);
                assert(ref_views(found@) =~= before + step);
                assert(before + step =~= base + (descendants_among(kids.take(i as int)).filter(keep)
                    + step));
            }
            i = i + 1;
        }
        assert(kids.take(n as int) =~= kids);
    }

    /// Classifies the files below this node whose bytes are in `contents`.
    pub fn analyse_files_type_rec(&mut self, contents: &Contents)
        ensures
            final(self)@ == typed(old(self)@, contents@),
            old(self)@.well_formed() ==> final(self)@.well_formed(),
        decreases *old(self),
    {
        let ghost change = |file: NodeView| classified_file(file, contents@);
        let ghost kids = self@.children;
        proof {
            lemma_node_views(self.inner.childrens@);
            lemma_mapped_among(kids, change);
            if self@.well_formed() {
                lemma_passes_keep_well_formed(self@, self@, contents@);
            }
        }
        let n = self.inner.childrens.len();
        let mut i: usize = 0;
        while i < n
            invariant
                i <= n,
                n == self.inner.childrens.len(),
                n == old(self).inner.childrens.len(),
                kids == old(self)@.children,
                kids.len() == n,
                change == |file: NodeView| classified_file(file, contents@),
                forall|k: int|
                    0 <= k < n ==> (#[trigger] kids[k]) == old(self).inner.childrens[k]@,
                self.inner.node_type == old(self).inner.node_type,
                self.inner.name == old(self).inner.name,
                self.inner.local_path == old(self).inner.local_path,
                self.inner.fs_path == old(self).inner.fs_path,
                self.inner.hash == old(self).inner.hash,
                self.inner.len == old(self).inner.len,
                self.inner.parent == old(self).inner.parent,
                forall|k: int|
                    i <= k < n ==> self.inner.childrens[k] == old(self).inner.childrens[k],
                forall|k: int|
                    0 <= k < i ==> (#[trigger] self.inner.childrens[k])@ == mapped_child(
                        kids[k],
                        change,
                    ),
            decreases n - i,
        {
            if self.inner.childrens[i].is_dir() {
                self.inner.childrens[i].analyse_files_type_rec(contents);
            } else {
                let child = &self.inner.childrens[i];
                let unclassified = match &child.inner.node_type {
                    NodeType::File(None) => true,
                    NodeType::File(Some(FileType::Data)) => true,
                    _ => false,
                };
                assert(unclassified == is_unclassified(child@));
                let mut found: Option<FileType> = None;
                if unclassified && child.inner.len <= MAX_FILE_SIZE {
                    match contents.get(&child.inner.fs_path) {
                        Some(entry) => match &entry.bytes {
                            Some(bytes) => {
                                found = Some(check_type(child.inner.name.as_str(), bytes.as_slice()));
                            },
                            None => {},
                        },
                        None => {},
                    }
                }
                match found {
                    Some(file_type) => {
                        self.inner.childrens[i].set_type(NodeType::File(Some(file_type)));
                    },
                    None => {},
                }
            }
            i = i + 1;
        }
        proof {
            lemma_node_views(self.inner.childrens@);
            assert(self@.children =~= mapped_among(kids, change));
        }
    }

    /// Computes the digest of the files below this node whose bytes are in
    /// `contents`.
    pub fn calc_files_hash_rec(&mut self, contents: &Contents)
        ensures
            final(self)@ == hashed(old(self)@, contents@),
            old(self)@.well_formed() ==> final(self)@.well_formed(),
        decreases *old(self),
    {
        let ghost change = |file: NodeView| hashed_file(file, contents@);
        let ghost kids = self@.children;
        proof {
            lemma_node_views(self.inner.childrens@);
            lemma_mapped_among(kids, change);
            if self@.well_formed() {
                lemma_passes_keep_well_formed(self@, self@, contents@);
            }
        }
        let n = self.inner.childrens.len();
        let mut i: usize = 0;
        while i < n
            invariant
                i <= n,
                n == self.inner.childrens.len(),
                n == old(self).inner.childrens.len(),
                kids == old(self)@.children,
                kids.len() == n,
                change == |file: NodeView| hashed_file(file, contents@),
                forall|k: int|
                    0 <= k < n ==> (#[trigger] kids[k]) == old(self).inner.childrens[k]@,
                self.inner.node_type == old(self).inner.node_type,
                self.inner.name == old(self).inner.name,
                self.inner.local_path == old(self).inner.local_path,
                self.inner.fs_path == old(self).inner.fs_path,
                self.inner.hash == old(self).inner.hash,
                self.inner.len == old(self).inner.len,
                self.inner.parent == old(self).inner.parent,
                forall|k: int|
                    i <= k < n ==> self.inner.childrens[k] == old(self).inner.childrens[k],
                forall|k: int|
                    0 <= k < i ==> (#[trigger] self.inner.childrens[k])@ == mapped_child(
                        kids[k],
                        change,
                    ),
            decreases n - i,
        {
            if self.inner.childrens[i].is_dir() {
                self.inner.childrens[i].calc_files_hash_rec(contents);
            } else {
                let child = &self.inner.childrens[i];
                let mut found: Option<u64> = None;
                if child.is_file() && child.inner.len <= MAX_FILE_SIZE {
                    match contents.get(&child.inner.fs_path) {
                        Some(entry) => match &entry.bytes {
                            Some(bytes) => {
                                found = Some(content_hash(bytes.as_slice()));
                            },
                            None => {},
                        },
                        None => {},
                    }
                }
                match found {
                    Some(hash) => {
                        self.inner.childrens[i].set_hash(hash);
                    },
                    None => {},
                }
            }
            i = i + 1;
        }
        proof {
            lemma_node_views(self.inner.childrens@);
            assert(self@.children =~= mapped_among(kids, change));
        }
    }

    /// Analyses this file, if it is an ELF binary that waits for it and its
    /// bytes are in `contents`. The result comes back where there is one;
    /// what there is to report is appended to `diagnostics`.
    fn analyse_file(
        &self,
        head_node: &Node,
        contents: &Contents,
        diagnostics: &mut Vec<Diagnostic>,
    ) -> (found: Option<ElfData>)
        ensures
            analysed_file(self@, head_node@, contents@) == match found {
                Some(data) => NodeView {
                    node_type: NodeTypeView::File(Some(FileTypeView::Elf(Some(data@)))),
                    ..self@
                },
                None => self@,
            },
            findings(final(diagnostics)@) == findings(old(diagnostics)@) + file_findings(
                self@,
                head_node@,
                contents@,
            ),
    {
        let ghost reported = findings(diagnostics@);
        let waiting = match &self.inner.node_type {
            NodeType::File(Some(FileType::Elf(None))) => true,
            _ => false,
        };
        assert(waiting == needs_analysis(self@));
        let mut found: Option<ElfData> = None;
        if waiting {
            match contents.get(&self.inner.fs_path) {
                Some(entry) => match &entry.bytes {
                    Some(bytes) => {
                        match analyse_elf2(
                            head_node,
                            self.inner.fs_path.as_str(),
                            bytes.as_slice(),
                            self.inner.len,
                            diagnostics,
                        ) {
                            Ok(data) => {
                                found = Some(data);
                            },
                            Err(error) => {
                                report(
                                    diagnostics,
                                    Diagnostic::MalformedElf {
                                        binary: self.inner.fs_path.clone(),
                                        error,
                                    },
                                );
                            },
                        }
                    },
                    None => {},
                },
                None => {},
            }
        }
        assert(findings(diagnostics@) =~= reported + file_findings(
            self@,
            head_node@,
            contents@,
        ));
        found
    }

    /// Analyses the ELF binaries below this node whose bytes are in
    /// `contents`, resolving their required libraries within the snapshot
    /// below `head_node`, and appends what there is to report to
    /// `diagnostics`. A binary that cannot be read stays without a result.
    #[verifier::rlimit(30)]
    pub fn analyse_binaries_rec(
        &mut self,
        head_node: &Node,
        contents: &Contents,
        diagnostics: &mut Vec<Diagnostic>,
    )
        ensures
            final(self)@ == analysed(old(self)@, head_node@, contents@),
            old(self)@.well_formed() ==> final(self)@.well_formed(),
            findings(final(diagnostics)@) == findings(old(diagnostics)@) + analysis_findings(
                old(self)@,
                head_node@,
                contents@,
            ),
        decreases *old(self),
    {
        let ghost change = |file: NodeView| analysed_file(file, head_node@, contents@);
        let ghost tell = |file: NodeView| file_findings(file, head_node@, contents@);
        let ghost kids = self@.children;
        let ghost base = findings(diagnostics@);
        proof {
            lemma_node_views(self.inner.childrens@);
            lemma_mapped_among(kids, change);
            if self@.well_formed() {
                lemma_passes_keep_well_formed(self@, head_node@, contents@);
            }
            assert(kids.take(0) =~= Seq::empty());
            assert(base + Seq::<DiagnosticView>::empty() =~= base);
        }
        let n = self.inner.childrens.len();
        let mut i: usize = 0;
        while i < n
            invariant
                i <= n,
                n == self.inner.childrens.len(),
                n == old(self).inner.childrens.len(),
                kids == old(self)@.children,
                kids.len() == n,
                change == |file: NodeView| analysed_file(file, head_node@, contents@),
                tell == |file: NodeView| file_findings(file, head_node@, contents@),
                forall|k: int|
                    0 <= k < n ==> (#[trigger] kids[k]) == old(self).inner.childrens[k]@,
                self.inner.node_type == old(self).inner.node_type,
                self.inner.name == old(self).inner.name,
                self.inner.local_path == old(self).inner.local_path,
                self.inner.fs_path == old(self).inner.fs_path,
                self.inner.hash == old(self).inner.hash,
                self.inner.len == old(self).inner.len,
                self.inner.parent == old(self).inner.parent,
                forall|k: int|
                    i <= k < n ==> self.inner.childrens[k] == old(self).inner.childrens[k],
                forall|k: int|
                    0 <= k < i ==> (#[trigger] self.inner.childrens[k])@ == mapped_child(
                        kids[k],
                        change,
                    ),
                findings(diagnostics@) == base + gathered_among(kids.take(i as int), tell),
            decreases n - i,
        {
            let ghost reported = findings(diagnostics@);
            proof {
                assert(kids.take(i + 1).drop_last() =~= kids.take(i as int));
                assert(kids.take(i + 1).last() == kids[i as int]);
            }
            if self.inner.childrens[i].is_dir() {
                self.inner.childrens[i].analyse_binaries_rec(head_node, contents, diagnostics);
            } else {
                let found = self.inner.childrens[i].analyse_file(head_node, contents, diagnostics);
                match found {
                    Some(data) => {
                        self.inner.childrens[i].set_type(
                            NodeType::File(Some(FileType::Elf(Some(data)))),
                        );
                    },
                    None => {},
                }
            }
            proof {
                let step = gathered_child(kids[i as int], tell);
                assert(findings(diagnostics@) =~= reported + step);
                assert(reported + step =~= base + (gathered_among(kids.take(i as int), tell)
                    + step));
            }
            i = i + 1;
        }
        proof {
            lemma_node_views(self.inner.childrens@);
            assert(self@.children =~= mapped_among(kids, change));
            assert(kids.take(n as int) =~= kids);
        }
    }

    /// The files below this node that are called `name`, in the order of the
    /// walk.
    pub fn find_node_by_name_rec(&self, name: &str) -> (node_list: Vec<&Node>)
        ensures
            ref_views(node_list@) == self@.files_named(name@),
            node_list.len() == self@.files_named(name@).len(),
    {
        let wanted = name.to_owned();
        let mut node_list: Vec<&Node> = Vec::new();
        assert(ref_views(node_list@) =~= Seq::empty());
        self.collect_named(&wanted, &mut node_list);
        assert(Seq::<NodeView>::empty() + self@.files_named(name@) =~= self@.files_named(name@));
        node_list
    }

    /// Appends to `found` the files below this node that are called `name`.
    fn collect_named<'a>(&'a self, name: &String, found: &mut Vec<&'a Node>)
        ensures
            ref_views(final(found)@) == ref_views(old(found)@) + self@.files_named(name@),
        decreases self,
    {
        let ghost keep = |node: NodeView| node.is_file_named(name@);
        let ghost kids = self@.children;
        let ghost base = ref_views(found@);
        proof {
            lemma_node_views(self.inner.childrens@);
            assert(kids.take(0) =~= Seq::empty());
            assert(descendants_among(kids.take(0)).filter(keep) =~= Seq::empty()) by {
                reveal(Seq::filter);
            }
            assert(base + Seq::<NodeView>::empty() =~= base);
        }
        let n = self.inner.childrens.len();
        let mut i: usize = 0;
        while i < n
            invariant
                i <= n,
                n == self.inner.childrens.len(),
                kids == self@.children,
                kids.len() == n,
                keep == |node: NodeView| node.is_file_named(name@),
                forall|k: int| 0 <= k < n ==> (#[trigger] kids[k]) == self.inner.childrens[k]@,
                ref_views(found@) == base + descendants_among(kids.take(i as int)).filter(keep),
            decreases n - i,
        {
            let child = &self.inner.childrens[i];
            let ghost before = ref_views(found@);
            proof {
                lemma_descendants_step(kids, i as int, keep);
                assert(kids[i as int] == child@);
            }
            if child.is_dir() {
                child.collect_named(name, found);
                assert(child@.files_named(name@) == child@.descendants().filter(keep));
            } else if child.inner.name == *name {
                record(found, child);
            }
            proof {
                let step = with_descendants(child@).filter(keep);
                assert(ref_views(found@) =~= before + step);
                assert(before + step =~= base + (descendants_among(kids.take(i as int)).filter(keep)
                    + step));
            }
            i = i + 1;
        }
        assert(kids.take(n as int) =~= kids);
    }
}

} // verus!
