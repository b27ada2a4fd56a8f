//! The node of a comparable tree, and the test that tells whether a file
//! changed between two trees.
use vstd::prelude::*;
use crate::diagnostic::DiagnosticView;
use crate::file::{FileType, FileTypeView};

verus! {

/// What a node of the tree is.
#[allow(non_camel_case_types)]
#[derive(Debug, PartialEq, Eq)]
pub enum NodeType {
    UNKNOWN,
    File(FileType),
    Dir,
    SYMLINK,
    ELF,
    SH,
    PE,
}

/// The mathematical value of a [`NodeType`].
#[allow(non_camel_case_types)]
pub ghost enum NodeTypeView {
    UNKNOWN,
    File(FileTypeView),
    Dir,
    SYMLINK,
    ELF,
    SH,
    PE,
}

impl View for NodeType {
    type V = NodeTypeView;

    open spec fn view(&self) -> NodeTypeView {
        match *self {
            NodeType::UNKNOWN => NodeTypeView::UNKNOWN,
            NodeType::File(file_type) => NodeTypeView::File(file_type@),
            NodeType::Dir => NodeTypeView::Dir,
            NodeType::SYMLINK => NodeTypeView::SYMLINK,
            NodeType::ELF => NodeTypeView::ELF,
            NodeType::SH => NodeTypeView::SH,
            NodeType::PE => NodeTypeView::PE,
        }
    }
}

/// The verdict on a file that exists in both trees.
#[derive(Debug, Clone, Copy, PartialEq, Eq, Structural)]
pub enum NodeCmp {
    NotModified,
    Modified,
}

/// One file or directory of a tree. A directory owns its children.
#[derive(Debug, PartialEq, Eq)]
pub struct TreeNode {
    /// Type of the node.
    pub node_type: NodeType,
    /// Name of the file or directory.
    pub node_name: String,
    /// Path of the node below the root of the tree; it starts with `/`.
    pub node_local_path: String,
    /// Path of the node on the system.
    pub node_path: String,
    /// Digest of the file's content, once it has been computed.
    pub node_hash: Option<u64>,
    /// Size of the file in bytes, once it has been recorded.
    pub node_len: Option<u64>,
    /// Children of a directory, in the order in which they were added.
    pub childrens: Vec<TreeNode>,
    /// Local path of the directory that holds the node; none for the root.
    pub parent: Option<String>,
}

/// The mathematical value of a [`TreeNode`].
pub ghost struct TreeNodeView {
    pub node_type: NodeTypeView,
    pub node_name: Seq<char>,
    pub node_local_path: Seq<char>,
    pub node_path: Seq<char>,
    pub node_hash: Option<u64>,
    pub node_len: Option<u64>,
    pub children: Seq<TreeNodeView>,
    pub parent: Option<Seq<char>>,
}

/// The value of a node: its own fields and the values of its children.
pub open spec fn node_view(node: TreeNode) -> TreeNodeView
    decreases node,
{
    TreeNodeView {
        node_type: node.node_type@,
        node_name: node.node_name@,
        node_local_path: node.node_local_path@,
        node_path: node.node_path@,
        node_hash: node.node_hash,
        node_len: node.node_len,
        children: node_views(node.childrens@),
        parent: match node.parent {
            Some(path) => Some(path@),
            None => None,
        },
    }
}

/// The values of a row of nodes, in order.
pub open spec fn node_views(nodes: Seq<TreeNode>) -> Seq<TreeNodeView>
    decreases nodes,
{
    if nodes.len() == 0 {
        Seq::empty()
    } else {
        node_views(nodes.drop_last()).push(node_view(nodes.last()))
    }
}

impl View for TreeNode {
    type V = TreeNodeView;

    open spec fn view(&self) -> TreeNodeView {
        node_view(*self)
    }
}

/// `node_views` keeps the length and works item by item.
pub proof fn lemma_node_views(nodes: Seq<TreeNode>)
    ensures
        node_views(nodes).len() == nodes.len(),
        forall|i: int| 0 <= i < nodes.len() ==> (#[trigger] node_views(nodes)[i]) == nodes[i]@,
    decreases nodes.len(),
{
    if nodes.len() > 0 {
        lemma_node_views(nodes.drop_last());
    }
}

/// The values of the nodes that a row of references points to.
pub open spec fn ref_views(nodes: Seq<&TreeNode>) -> Seq<TreeNodeView> {
    Seq::new(nodes.len(), |i: int| nodes[i]@)
}

impl TreeNodeView {
    pub open spec fn is_file(self) -> bool {
        self.node_type is File
    }

    pub open spec fn is_dir(self) -> bool {
        self.node_type is Dir
    }

    /// A file or a directory called `name`.
    pub open spec fn is_entry_named(self, name: Seq<char>) -> bool {
        (self.is_file() || self.is_dir()) && self.node_name == name
    }

    /// A file called `name`, or a directory called `name` where `dir` is set.
    pub open spec fn is_named(self, name: Seq<char>, dir: bool) -> bool {
        self.node_name == name && if dir {
            self.is_dir()
        } else {
            self.is_file()
        }
    }
}

/// `i` is the place of the first file or directory called `name`.
pub open spec fn is_first_entry_named(children: Seq<TreeNodeView>, name: Seq<char>, i: int) -> bool {
    &&& 0 <= i < children.len()
    &&& children[i].is_entry_named(name)
    &&& forall|j: int| 0 <= j < i ==> !(#[trigger] children[j]).is_entry_named(name)
}

/// `i` is the place of the first file (`dir` unset) or directory (`dir` set)
/// called `name`.
pub open spec fn is_first_named(
    children: Seq<TreeNodeView>,
    name: Seq<char>,
    dir: bool,
    i: int,
) -> bool {
    &&& 0 <= i < children.len()
    &&& children[i].is_named(name, dir)
    &&& forall|j: int| 0 <= j < i ==> !(#[trigger] children[j]).is_named(name, dir)
}

/// The place of the first file, or of the first directory, called `name`.
pub open spec fn lookup(children: Seq<TreeNodeView>, name: Seq<char>, dir: bool) -> Option<int> {
    if exists|i: int| is_first_named(children, name, dir, i) {
        Some(choose|i: int| is_first_named(children, name, dir, i))
    } else {
        None
    }
}

/// The first match is the one that `lookup` gives.
pub proof fn lemma_lookup_found(children: Seq<TreeNodeView>, name: Seq<char>, dir: bool, i: int)
    requires
        is_first_named(children, name, dir, i),
    ensures
        lookup(children, name, dir) == Some(i),
{
    let k = choose|k: int| is_first_named(children, name, dir, k);
    assert(is_first_named(children, name, dir, k));
    if k < i {
        assert(!children[k].is_named(name, dir));
    }
    if i < k {
        assert(!children[i].is_named(name, dir));
    }
}

/// Without a match `lookup` gives nothing.
pub proof fn lemma_lookup_missing(children: Seq<TreeNodeView>, name: Seq<char>, dir: bool)
    requires
        forall|j: int| 0 <= j < children.len() ==> !(#[trigger] children[j]).is_named(name, dir),
    ensures
        lookup(children, name, dir) is None,
{
    if exists|i: int| is_first_named(children, name, dir, i) {
        let k = choose|k: int| is_first_named(children, name, dir, k);
        assert(!children[k].is_named(name, dir));
    }
}

impl TreeNodeView {
    /// Every node below this one, each directory followed by what is below
    /// it. Only directories have nodes below them.
    pub open spec fn descendants(self) -> Seq<TreeNodeView>
        decreases self, 0int,
    {
        descendants_among(self.children)
    }

    /// The files below this node.
    pub open spec fn files(self) -> Seq<TreeNodeView> {
        self.descendants().filter(|node: TreeNodeView| node.is_file())
    }
}

/// The nodes of a row, each followed by what is below it.
pub open spec fn descendants_among(kids: Seq<TreeNodeView>) -> Seq<TreeNodeView>
    decreases kids, 0int,
{
    if kids.len() == 0 {
        Seq::empty()
    } else {
        descendants_among(kids.drop_last()) + with_descendants(kids.last())
    }
}

/// A node followed by what is below it.
pub open spec fn with_descendants(node: TreeNodeView) -> Seq<TreeNodeView>
    decreases node, 1int,
{
    if node.is_dir() {
        seq![node] + node.descendants()
    } else {
        seq![node]
    }
}

/// One more node of a row adds that node and what is below it.
pub proof fn lemma_descendants_step(
    kids: Seq<TreeNodeView>,
    i: int,
    keep: spec_fn(TreeNodeView) -> bool,
)
    requires
        0 <= i < kids.len(),
    ensures
        descendants_among(kids.take(i + 1)) == descendants_among(kids.take(i)) + with_descendants(
            kids[i],
        ),
        descendants_among(kids.take(i + 1)).filter(keep) == descendants_among(kids.take(i)).filter(
            keep,
        ) + with_descendants(kids[i]).filter(keep),
        with_descendants(kids[i]).filter(keep) == (if keep(kids[i]) {
            seq![kids[i]]
        } else {
            Seq::empty()
        }) + (if kids[i].is_dir() {
            kids[i].descendants().filter(keep)
        } else {
            Seq::empty()
        }),
{
    assert(kids.take(i + 1).drop_last() =~= kids.take(i));
    Seq::filter_distributes_over_add(
        descendants_among(kids.take(i)),
        with_descendants(kids[i]),
        keep,
    );
    let one = seq![kids[i]];
    assert(one.filter(keep) =~= if keep(kids[i]) {
        one
    } else {
        Seq::empty()
    }) by {
        reveal_with_fuel(Seq::filter, 2);
        assert(one.drop_last() =~= Seq::<TreeNodeView>::empty());
    }
    assert(Seq::<TreeNodeView>::empty().filter(keep) =~= Seq::empty()) by {
        reveal(Seq::filter);
    }
    if kids[i].is_dir() {
        Seq::filter_distributes_over_add(one, kids[i].descendants(), keep);
    } else {
        assert(one.filter(keep) + Seq::<TreeNodeView>::empty() =~= one.filter(keep));
    }
}

/// A tree with every node below `node` that is no directory replaced by what
/// `change` makes of it. Directories stay as they are, but for their
/// children.
pub open spec fn mapped(node: TreeNodeView, change: spec_fn(TreeNodeView) -> TreeNodeView) -> TreeNodeView
    decreases node, 0int,
{
    TreeNodeView { children: mapped_among(node.children, change), ..node }
}

/// A row of nodes, each one changed by `mapped_child`.
pub open spec fn mapped_among(
    kids: Seq<TreeNodeView>,
    change: spec_fn(TreeNodeView) -> TreeNodeView,
) -> Seq<TreeNodeView>
    decreases kids, 0int,
{
    if kids.len() == 0 {
        Seq::empty()
    } else {
        mapped_among(kids.drop_last(), change).push(mapped_child(kids.last(), change))
    }
}

/// A directory with the nodes below it changed, or another node changed.
pub open spec fn mapped_child(
    node: TreeNodeView,
    change: spec_fn(TreeNodeView) -> TreeNodeView,
) -> TreeNodeView
    decreases node, 1int,
{
    if node.is_dir() {
        mapped(node, change)
    } else {
        change(node)
    }
}

/// `mapped_among` keeps the length and works item by item.
pub proof fn lemma_mapped_among(kids: Seq<TreeNodeView>, change: spec_fn(TreeNodeView) -> TreeNodeView)
    ensures
        mapped_among(kids, change).len() == kids.len(),
        forall|i: int|
            0 <= i < kids.len() ==> (#[trigger] mapped_among(kids, change)[i]) == mapped_child(
                kids[i],
                change,
            ),
    decreases kids.len(),
{
    if kids.len() > 0 {
        lemma_mapped_among(kids.drop_last(), change);
    }
}

/// A pass that keeps the name and the children of every node, and makes no
/// directory of what was none, keeps the tree well formed.
pub proof fn lemma_mapped_keeps_well_formed(
    node: TreeNodeView,
    change: spec_fn(TreeNodeView) -> TreeNodeView,
)
    requires
        node.well_formed(),
        forall|other: TreeNodeView|
            !other.is_dir() ==> {
                let after = #[trigger] change(other);
                &&& !after.is_dir()
                &&& after.is_file() == other.is_file()
                &&& after.node_name == other.node_name
                &&& after.children == other.children
            },
    ensures
        mapped(node, change).well_formed(),
        mapped(node, change).node_type == node.node_type,
        mapped(node, change).node_name == node.node_name,
        mapped(node, change).children.len() == node.children.len(),
    decreases node,
{
    let after = mapped(node, change);
    lemma_mapped_among(node.children, change);
    assert forall|i: int| 0 <= i < node.children.len() implies {
        &&& (#[trigger] after.children[i]).well_formed()
        &&& after.children[i].node_name == node.children[i].node_name
    } by {
        let child = node.children[i];
        assert(child.well_formed());
        if child.is_dir() {
            lemma_mapped_keeps_well_formed(child, change);
        }
    }
    assert forall|i: int, j: int| 0 <= i < j < after.children.len() implies (
    #[trigger] after.children[i]).node_name != (#[trigger] after.children[j]).node_name by {
        assert(node.children[i].node_name != node.children[j].node_name);
    }
}

/// What `tell` reports of the nodes below `node` that are no directories, in
/// the order of the walk.
pub open spec fn gathered(
    node: TreeNodeView,
    tell: spec_fn(TreeNodeView) -> Seq<DiagnosticView>,
) -> Seq<DiagnosticView>
    decreases node, 0int,
{
    gathered_among(node.children, tell)
}

/// What `tell` reports of a row of nodes and of what is below them.
pub open spec fn gathered_among(
    kids: Seq<TreeNodeView>,
    tell: spec_fn(TreeNodeView) -> Seq<DiagnosticView>,
) -> Seq<DiagnosticView>
    decreases kids, 0int,
{
    if kids.len() == 0 {
        Seq::empty()
    } else {
        gathered_among(kids.drop_last(), tell) + gathered_child(kids.last(), tell)
    }
}

/// What `tell` reports of a node, or of what is below a directory.
pub open spec fn gathered_child(
    node: TreeNodeView,
    tell: spec_fn(TreeNodeView) -> Seq<DiagnosticView>,
) -> Seq<DiagnosticView>
    decreases node, 1int,
{
    if node.is_dir() {
        gathered(node, tell)
    } else {
        tell(node)
    }
}

impl TreeNodeView {
    /// No two children of a directory of the tree have the same name.
    pub open spec fn well_formed(self) -> bool
        decreases self,
    {
        &&& forall|i: int, j: int|
            0 <= i < j < self.children.len() ==> (#[trigger] self.children[i]).node_name != (
            #[trigger] self.children[j]).node_name
        &&& forall|i: int|
            0 <= i < self.children.len() ==> (#[trigger] self.children[i]).well_formed()
    }

    /// `other` is a capture of the same content: the same names, types,
    /// digests and sizes in the same places. The paths may differ.
    pub open spec fn same_content(self, other: TreeNodeView) -> bool
        decreases self,
    {
        &&& self.node_type == other.node_type
        &&& self.node_name == other.node_name
        &&& self.node_hash == other.node_hash
        &&& self.node_len == other.node_len
        &&& self.children.len() == other.children.len()
        &&& forall|i: int|
            0 <= i < self.children.len() ==> (#[trigger] self.children[i]).same_content(
                other.children[i],
            )
    }
}

/// The shape of a binary: the numbers of program headers and of section
/// headers that its header declares. Only a file that carries the result of
/// the binary analysis has one.
pub open spec fn shape_of(node: TreeNodeView) -> Option<(u16, u16)> {
    match node.node_type {
        NodeTypeView::File(FileTypeView::Elf(Some(data))) => Some((data.ph_num, data.sh_num)),
        _ => None,
    }
}

/// Whether file `b` counts as a changed version of file `a`.
///
/// An ELF file is compared by its size and by its shape, whatever its class:
/// it is changed where `b` has another size, another shape, or none while `a`
/// has one. Any other file is compared by its digest; where a digest is
/// missing on either side the file counts as unchanged.
pub open spec fn differs(a: TreeNodeView, b: TreeNodeView) -> bool {
    match a.node_type {
        NodeTypeView::File(FileTypeView::Elf(_)) => a.node_len != b.node_len || shape_of(a)
            != shape_of(b),
        _ => a.node_hash is Some && b.node_hash is Some && a.node_hash != b.node_hash,
    }
}

/// Whether two optional sizes or digests are the same.
fn same_number(a: &Option<u64>, b: &Option<u64>) -> (same: bool)
    ensures
        same == (*a == *b),
{
    match (a, b) {
        (Some(x), Some(y)) => *x == *y,
        (None, None) => true,
        _ => false,
    }
}

impl TreeNode {
    /// A node without children, digest or size. `parent` is the directory
    /// that will hold it.
    pub fn new(
        node_type: NodeType,
        node_name: String,
        node_local_path: String,
        node_path: String,
        parent: Option<&TreeNode>,
    ) -> (node: Self)
        ensures
            node@ == (TreeNodeView {
                node_type: node_type@,
                node_name: node_name@,
                node_local_path: node_local_path@,
                node_path: node_path@,
                node_hash: None,
                node_len: None,
                children: Seq::empty(),
                parent: match parent {
                    Some(dir) => Some(dir@.node_local_path),
                    None => None,
                },
            }),
    {
        let parent_path = match parent {
            Some(dir) => Some(dir.node_local_path.clone()),
            None => None,
        };
        TreeNode {
            node_type,
            node_name,
            node_local_path,
            node_path,
            node_hash: None,
            node_len: None,
            childrens: Vec::new(),
            parent: parent_path,
        }
    }

    /// Replaces the type of the node and nothing else.
    pub fn set_type(&mut self, node_type: NodeType)
        ensures
            final(self)@ == (TreeNodeView { node_type: node_type@, ..old(self)@ }),
    {
        self.node_type = node_type;
    }

    /// The first child that is a file or a directory and is called `name`.
    pub fn find_node_by_name(&self, name: &str) -> (found: Option<&TreeNode>)
        ensures
            match found {
                Some(child) => exists|i: int|
                    is_first_entry_named(self@.children, name@, i) && child@ == self@.children[i],
                None => forall|i: int|
                    0 <= i < self@.children.len() ==> !(#[trigger] self@.children[i]).is_entry_named(
                        name@,
                    ),
            },
    {
        let wanted = name.to_owned();
        let n = self.childrens.len();
        proof {
            lemma_node_views(self.childrens@);
        }
        let mut i: usize = 0;
        while i < n
            invariant
                i <= n,
                wanted@ == name@,
                n == self.childrens.len(),
                self@.children.len() == n,
                forall|j: int| 0 <= j < n ==> (#[trigger] self@.children[j]) == self.childrens[j]@,
                forall|j: int| 0 <= j < i ==> !(#[trigger] self@.children[j]).is_entry_named(name@),
            decreases n - i,
        {
            let child = &self.childrens[i];
            let is_entry = match child.node_type {
                NodeType::File(_) => true,
                NodeType::Dir => true,
                _ => false,
            };
            assert(self@.children[i as int] == child@);
            assert(is_entry == (child@.is_file() || child@.is_dir()));
            if is_entry && child.node_name == wanted {
                assert(is_first_entry_named(self@.children, name@, i as int));
                return Some(child);
            }
            i = i + 1;
        }
        None
    }

    /// The place of the first child called `name` that is a file, or a
    /// directory where `dir` is set.
    pub fn find_child(&self, name: &String, dir: bool) -> (found: Option<usize>)
        ensures
            match found {
                Some(i) => lookup(self@.children, name@, dir) == Some(i as int) && i
                    < self.childrens.len(),
                None => lookup(self@.children, name@, dir) is None,
            },
    {
        let n = self.childrens.len();
        proof {
            lemma_node_views(self.childrens@);
        }
        let mut i: usize = 0;
        while i < n
            invariant
                i <= n,
                n == self.childrens.len(),
                self@.children.len() == n,
                forall|j: int| 0 <= j < n ==> (#[trigger] self@.children[j]) == self.childrens[j]@,
                forall|j: int| 0 <= j < i ==> !(#[trigger] self@.children[j]).is_named(name@, dir),
            decreases n - i,
        {
            let child = &self.childrens[i];
            let kind_fits = match child.node_type {
                NodeType::File(_) => !dir,
                NodeType::Dir => dir,
                _ => false,
            };
            assert(self@.children[i as int] == child@);
            if kind_fits && child.node_name == *name {
                proof {
                    lemma_lookup_found(self@.children, name@, dir, i as int);
                }
                return Some(i);
            }
            i = i + 1;
        }
        proof {
            lemma_lookup_missing(self@.children, name@, dir);
        }
        None
    }

    /// The shape of the binary, if the node carries the result of the binary
    /// analysis.
    pub fn shape(&self) -> (shape: Option<(u16, u16)>)
        ensures
            shape == shape_of(self@),
    {
        match &self.node_type {
            NodeType::File(FileType::Elf(Some(data))) => Some((data.ph_num, data.sh_num)),
            _ => None,
        }
    }

    /// Tells whether the file `other_node` is a changed version of this file.
    pub fn cmp_node(&self, other_node: &TreeNode) -> (verdict: NodeCmp)
        ensures
            (verdict == NodeCmp::Modified) == differs(self@, other_node@),
    {
        if self.differs_from(other_node) {
            NodeCmp::Modified
        } else {
            NodeCmp::NotModified
        }
    }

    /// Whether the file `other_node` is a changed version of this file.
    pub fn differs_from(&self, other_node: &TreeNode) -> (changed: bool)
        ensures
            changed == differs(self@, other_node@),
    {
        match &self.node_type {
            NodeType::File(FileType::Elf(_)) => {
                if !same_number(&self.node_len, &other_node.node_len) {
                    true
                } else {
                    match (self.shape(), other_node.shape()) {
                        (Some(x), Some(y)) => x.0 != y.0 || x.1 != y.1,
                        (None, None) => false,
                        _ => true,
                    }
                }
            },
            _ => match (&self.node_hash, &other_node.node_hash) {
                (Some(hash), Some(other_hash)) => *hash != *other_hash,
                _ => false,
            },
        }
    }
}

} // verus!
