use fs_analyzer::contents::Contents;
use fs_analyzer::diagnostic::Diagnostic;
use fs_analyzer::file::elf::{analyse_elf2, ElfData, ElfError};
use fs_analyzer::file::FileType;
use fs_analyzer::fstree::node::{Node, NodeInner, NodeType};
use fs_analyzer::fstree::FsTree;

fn dir(name: &str, local: &str, parent: Option<&Node>, children: Vec<Node>) -> Node {
    let path = format!("/snap{}", local);
    let mut node = Node::new_dir(name, local, &path, 4096, parent);
    assert!(node.set_childrens(children));
    node
}

fn file(name: &str, local: &str, len: u64) -> Node {
    let path = format!("/snap{}", local);
    Node::new_file(name, local, &path, len, None)
}

/// root
///   a.txt
///   bin/        app  tool
///   lib/        libfoo.so
///   empty/
///   deep/       one/  two/ three.c
fn fixture() -> FsTree {
    let bin = dir("bin", "/bin", None, vec![file("app", "/bin/app", 10), file("tool", "/bin/tool", 20)]);
    let lib = dir("lib", "/lib", None, vec![file("libfoo.so", "/lib/libfoo.so", 30)]);
    let empty = dir("empty", "/empty", None, vec![]);
    let two = dir("two", "/deep/one/two", None, vec![file("three.c", "/deep/one/two/three.c", 3)]);
    let one = dir("one", "/deep/one", None, vec![two]);
    let deep = dir("deep", "/deep", None, vec![one]);
    let root = dir("snap", "/", None, vec![file("a.txt", "/a.txt", 5), bin, lib, empty, deep]);
    FsTree { path: "/snap".to_string(), head_node: root }
}

fn put32(out: &mut Vec<u8>, value: u32) {
    out.extend_from_slice(&value.to_le_bytes());
}

fn put64(out: &mut Vec<u8>, value: u64) {
    out.extend_from_slice(&value.to_le_bytes());
}

/// A 64-bit little-endian binary that requires the given libraries.
fn binary_that_needs(libs: &[&str]) -> Vec<u8> {
    let mut strings: Vec<u8> = vec![0];
    let mut places = Vec::new();
    for lib in libs {
        places.push(strings.len() as u64);
        strings.extend_from_slice(lib.as_bytes());
        strings.push(0);
    }
    let mut body: Vec<u8> = vec![0; 64];
    let strings_at = body.len() as u64;
    body.extend_from_slice(&strings);
    while body.len() % 8 != 0 {
        body.push(0);
    }
    let needed_at = body.len() as u64;
    for place in &places {
        put64(&mut body, 1);
        put64(&mut body, *place);
    }
    put64(&mut body, 0);
    put64(&mut body, 0);
    let needed_len = body.len() as u64 - needed_at;
    let table_at = body.len() as u64;
    for (section_type, offset, size, link) in
        [(0u32, 0u64, 0u64, 0u32), (3, strings_at, strings.len() as u64, 0), (6, needed_at, needed_len, 1)]
    {
        put32(&mut body, 0);
        put32(&mut body, section_type);
        put64(&mut body, 0);
        put64(&mut body, 0);
        put64(&mut body, offset);
        put64(&mut body, size);
        put32(&mut body, link);
        put32(&mut body, 0);
        put64(&mut body, 8);
        put64(&mut body, 0);
    }
    let mut header: Vec<u8> = vec![0x7f, b'E', b'L', b'F', 2, 1, 1, 0, 0, 0, 0, 0, 0, 0, 0, 0];
    header.extend_from_slice(&3u16.to_le_bytes());
    header.extend_from_slice(&62u16.to_le_bytes());
    put32(&mut header, 1);
    put64(&mut header, 0);
    put64(&mut header, 0);
    put64(&mut header, table_at);
    put32(&mut header, 0);
    for value in [64u16, 56, 2, 64, 3, 0] {
        header.extend_from_slice(&value.to_le_bytes());
    }
    body[..64].copy_from_slice(&header);
    body
}

fn child<'a>(node: &'a Node, name: &str) -> &'a Node {
    node.inner().childrens.iter().find(|child| child.name() == name).unwrap()
}

#[test]
fn files_and_directories_together_are_the_entries() {
    let tree = fixture();
    assert_eq!(tree.count_files(), 5);
    assert_eq!(tree.count_dirs(), 6);
    assert_eq!(tree.count_files() + tree.count_dirs(), 11);
}

#[test]
fn the_counts_of_small_snapshots() {
    let empty = FsTree { path: "/snap".to_string(), head_node: dir("snap", "/", None, vec![]) };
    assert_eq!(empty.count_files(), 0);
    assert_eq!(empty.count_dirs(), 0);
    let one = FsTree {
        path: "/snap".to_string(),
        head_node: dir("snap", "/", None, vec![file("f", "/f", 1)]),
    };
    assert_eq!(one.count_files(), 1);
    assert_eq!(one.count_dirs(), 0);
    let nested = FsTree {
        path: "/snap".to_string(),
        head_node: dir("snap", "/", None, vec![dir("d", "/d", None, vec![dir("e", "/d/e", None, vec![])])]),
    };
    assert_eq!(nested.count_files(), 0);
    assert_eq!(nested.count_dirs(), 2);
}

#[test]
fn the_counts_below_a_directory() {
    let tree = fixture();
    let deep = child(&tree.head_node, "deep");
    assert_eq!(deep.count_files_rec(), 1);
    assert_eq!(deep.count_dirs_rec(), 2);
    let lone = file("f", "/f", 1);
    assert_eq!(lone.count_files_rec(), 0);
    assert_eq!(lone.count_dirs_rec(), 0);
}

#[test]
fn a_row_of_files_at_any_depth_is_counted() {
    for depth in 0..6u64 {
        let mut node = dir("last", "/last", None, vec![file("x", "/x", 1), file("y", "/y", 1)]);
        for _ in 0..depth {
            node = dir("up", "/up", None, vec![node, file("z", "/z", 1)]);
        }
        let tree = FsTree { path: "/snap".to_string(), head_node: dir("snap", "/", None, vec![node]) };
        assert_eq!(tree.count_files(), 2 + depth);
        assert_eq!(tree.count_dirs(), 1 + depth);
    }
}

#[test]
fn the_files_are_listed_in_the_order_of_the_walk() {
    let tree = fixture();
    let listed: Vec<String> = tree.list_files().iter().map(|node| node.local_path()).collect();
    assert_eq!(
        listed,
        vec!["/a.txt", "/bin/app", "/bin/tool", "/lib/libfoo.so", "/deep/one/two/three.c"]
    );
    let below: Vec<String> =
        child(&tree.head_node, "bin").list_files_rec().iter().map(|node| node.name()).collect();
    assert_eq!(below, vec!["app", "tool"]);
}

#[test]
fn what_a_node_says_of_itself() {
    let root = Node::new_dir("snap", "/", "/snap", 4096, None);
    let node = Node::new_file("a.txt", "/a.txt", "/snap/a.txt", 5, Some(&root));
    assert!(node.is_file() && !node.is_dir() && !node.is_elf());
    assert!(root.is_dir() && !root.is_file() && !root.is_elf());
    assert_eq!(node.len(), 5);
    assert_eq!(node.name(), "a.txt");
    assert_eq!(node.local_path(), "/a.txt");
    assert_eq!(node.inner().fs_path, "/snap/a.txt");
    assert_eq!(node.inner().hash, None);
    assert_eq!(node.inner().node_type, NodeType::File(None));
    assert_eq!(node.inner().parent, Some("/".to_string()));
    assert_eq!(root.inner().parent, None);
    assert!(node.inner().childrens.is_empty());
    let inner = NodeInner::new("d", NodeType::Dir, "/d", "/snap/d", 7, Some(&root));
    assert_eq!(inner.name, "d");
    assert_eq!(inner.len, 7);
    assert_eq!(inner.parent, Some("/".to_string()));
}

#[test]
fn the_setters_change_one_field() {
    let mut node = file("app", "/app", 5);
    node.set_type(NodeType::File(Some(FileType::Elf(None))));
    assert!(node.is_elf() && node.is_file());
    node.set_hash(7);
    assert_eq!(node.inner().hash, Some(7));
    assert_eq!(node.name(), "app");
    assert_eq!(node.len(), 5);
    node.set_type(NodeType::File(Some(FileType::Text)));
    assert!(!node.is_elf());
    assert_eq!(node.inner().hash, Some(7));
}

#[test]
fn a_file_takes_no_children() {
    let mut node = file("a", "/a", 1);
    assert!(!node.set_childrens(vec![file("b", "/a/b", 1)]));
    assert!(node.inner().childrens.is_empty());
    assert!(node.is_file());
    let mut holder = Node::new_dir("d", "/d", "/snap/d", 0, None);
    assert!(holder.set_childrens(vec![file("b", "/d/b", 1), file("c", "/d/c", 1)]));
    assert_eq!(holder.inner().childrens.len(), 2);
    assert!(holder.set_childrens(vec![]));
    assert!(holder.inner().childrens.is_empty());
}

#[test]
fn a_copy_of_a_node_is_the_same_tree() {
    let mut tree = fixture();
    let mut contents = Contents::new();
    contents.insert("/snap/bin/app".to_string(), 10, Some(binary_that_needs(&["libfoo.so"])));
    contents.insert("/snap/a.txt".to_string(), 5, Some(b"hello".to_vec()));
    tree.analyse_files_type(&contents);
    tree.calc_files_hash(&contents);
    tree.analyse_binaries(&contents);
    assert_eq!(tree.head_node.duplicate(), tree.head_node);
}

#[test]
fn files_are_found_by_name_in_the_whole_tree() {
    let tree = fixture();
    let found = tree.head_node.find_node_by_name_rec("three.c");
    assert_eq!(found.len(), 1);
    assert_eq!(found[0].local_path(), "/deep/one/two/three.c");
    assert!(tree.head_node.find_node_by_name_rec("missing").is_empty());
    assert!(tree.head_node.find_node_by_name_rec("bin").is_empty());
    assert!(tree.head_node.find_node_by_name_rec("three").is_empty());
    assert!(child(&tree.head_node, "bin").find_node_by_name_rec("libfoo.so").is_empty());
}

#[test]
fn files_of_one_name_are_found_in_the_order_of_the_walk() {
    let first = dir("a", "/a", None, vec![file("same", "/a/same", 1)]);
    let second = dir("b", "/b", None, vec![dir("c", "/b/c", None, vec![file("same", "/b/c/same", 2)])]);
    let root = dir("snap", "/", None, vec![first, file("same", "/same", 3), second]);
    let found: Vec<String> =
        root.find_node_by_name_rec("same").iter().map(|node| node.local_path()).collect();
    assert_eq!(found, vec!["/a/same", "/same", "/b/c/same"]);
}

fn analysed_fixture(libs: &[&str]) -> (FsTree, Vec<Diagnostic>) {
    let mut tree = fixture();
    let mut contents = Contents::new();
    contents.insert("/snap/bin/app".to_string(), 10, Some(binary_that_needs(libs)));
    contents.insert("/snap/bin/tool".to_string(), 20, Some(b"#!/bin/sh".to_vec()));
    tree.analyse_files_type(&contents);
    let diagnostics = tree.analyse_binaries(&contents);
    (tree, diagnostics)
}

fn elf_data_of<'a>(tree: &'a FsTree, dir_name: &str, name: &str) -> &'a ElfData {
    match &child(child(&tree.head_node, dir_name), name).inner().node_type {
        NodeType::File(Some(FileType::Elf(Some(data)))) => data,
        other => panic!("no result of the analysis: {:?}", other),
    }
}

#[test]
fn a_library_that_one_file_provides_is_resolved_to_it() {
    let (tree, diagnostics) = analysed_fixture(&["libfoo.so"]);
    let data = elf_data_of(&tree, "bin", "app");
    assert_eq!(data.find_lib("libfoo.so"), Some(&"/lib/libfoo.so".to_string()));
    assert_eq!(data.dyn_libs, vec![("libfoo.so".to_string(), "/lib/libfoo.so".to_string())]);
    assert_eq!(data.size, 10);
    assert_eq!(data.sh_num, 3);
    assert_eq!(data.ph_num, 2);
    assert!(data.dyn_funcs.is_empty());
    assert!(diagnostics.is_empty());
    assert!(child(child(&tree.head_node, "bin"), "app").is_elf());
    assert!(!child(child(&tree.head_node, "bin"), "tool").is_elf());
}

#[test]
fn a_library_that_no_file_provides_is_reported_as_missing() {
    let mut tree = fixture();
    let bin = dir("bin", "/bin", None, vec![file("app", "/bin/app", 10)]);
    tree.head_node = dir("snap", "/", None, vec![bin]);
    let mut contents = Contents::new();
    contents.insert("/snap/bin/app".to_string(), 10, Some(binary_that_needs(&["libfoo.so"])));
    tree.analyse_files_type(&contents);
    let diagnostics = tree.analyse_binaries(&contents);
    let data = elf_data_of(&tree, "bin", "app");
    assert_eq!(data.find_lib("libfoo.so"), None);
    assert!(data.dyn_libs.is_empty());
    assert_eq!(
        diagnostics,
        vec![Diagnostic::MissingLibrary {
            binary: "/snap/bin/app".to_string(),
            library: "libfoo.so".to_string(),
        }]
    );
}

#[test]
fn a_library_that_two_files_provide_is_left_unresolved() {
    let bin = dir("bin", "/bin", None, vec![file("app", "/bin/app", 10)]);
    let lib = dir("lib", "/lib", None, vec![file("libfoo.so", "/lib/libfoo.so", 30)]);
    let opt = dir("opt", "/opt", None, vec![file("libfoo.so", "/opt/libfoo.so", 31)]);
    let mut tree =
        FsTree { path: "/snap".to_string(), head_node: dir("snap", "/", None, vec![bin, lib, opt]) };
    let mut contents = Contents::new();
    contents.insert("/snap/bin/app".to_string(), 10, Some(binary_that_needs(&["libfoo.so"])));
    tree.analyse_files_type(&contents);
    let diagnostics = tree.analyse_binaries(&contents);
    let data = elf_data_of(&tree, "bin", "app");
    assert_eq!(data.find_lib("libfoo.so"), None);
    assert!(data.dyn_libs.is_empty());
    assert_eq!(
        diagnostics,
        vec![Diagnostic::AmbiguousLibrary {
            binary: "/snap/bin/app".to_string(),
            library: "libfoo.so".to_string(),
        }]
    );
}

#[test]
fn every_library_is_resolved_or_reported() {
    let (tree, diagnostics) = analysed_fixture(&["libnone.so", "libfoo.so", "a.txt", "libgone.so"]);
    let data = elf_data_of(&tree, "bin", "app");
    assert_eq!(
        data.dyn_libs,
        vec![
            ("libfoo.so".to_string(), "/lib/libfoo.so".to_string()),
            ("a.txt".to_string(), "/a.txt".to_string()),
        ]
    );
    assert_eq!(data.find_lib("a.txt"), Some(&"/a.txt".to_string()));
    assert_eq!(data.find_lib("libnone.so"), None);
    assert_eq!(
        diagnostics,
        vec![
            Diagnostic::MissingLibrary {
                binary: "/snap/bin/app".to_string(),
                library: "libnone.so".to_string(),
            },
            Diagnostic::MissingLibrary {
                binary: "/snap/bin/app".to_string(),
                library: "libgone.so".to_string(),
            },
        ]
    );
}

#[test]
fn a_directory_provides_no_library() {
    let (tree, diagnostics) = analysed_fixture(&["lib"]);
    assert!(elf_data_of(&tree, "bin", "app").dyn_libs.is_empty());
    assert_eq!(diagnostics.len(), 1);
}

#[test]
fn a_malformed_binary_does_not_stop_the_pass() {
    let mut tree = fixture();
    let mut broken = binary_that_needs(&["libfoo.so"]);
    broken.truncate(100);
    let mut contents = Contents::new();
    contents.insert("/snap/bin/app".to_string(), 10, Some(broken));
    contents.insert("/snap/bin/tool".to_string(), 20, Some(binary_that_needs(&["libfoo.so"])));
    tree.analyse_files_type(&contents);
    let diagnostics = tree.analyse_binaries(&contents);
    let app = child(child(&tree.head_node, "bin"), "app");
    assert_eq!(app.inner().node_type, NodeType::File(Some(FileType::Elf(None))));
    assert_eq!(
        diagnostics,
        vec![Diagnostic::MalformedElf {
            binary: "/snap/bin/app".to_string(),
            error: ElfError::BadSectionTable,
        }]
    );
    let data = elf_data_of(&tree, "bin", "tool");
    assert_eq!(data.find_lib("libfoo.so"), Some(&"/lib/libfoo.so".to_string()));
    assert_eq!(data.size, 20);
}

#[test]
fn a_binary_that_was_not_read_waits_for_its_analysis() {
    let mut tree = fixture();
    let mut contents = Contents::new();
    contents.insert("/snap/bin/app".to_string(), 10, Some(binary_that_needs(&["libfoo.so"])));
    tree.analyse_files_type(&contents);
    let diagnostics = tree.analyse_binaries(&Contents::new());
    assert!(diagnostics.is_empty());
    let app = child(child(&tree.head_node, "bin"), "app");
    assert_eq!(app.inner().node_type, NodeType::File(Some(FileType::Elf(None))));
    let diagnostics = tree.analyse_binaries(&contents);
    assert!(diagnostics.is_empty());
    assert_eq!(elf_data_of(&tree, "bin", "app").dyn_libs.len(), 1);
}

#[test]
fn the_analysis_of_one_binary_within_a_snapshot() {
    let tree = fixture();
    let mut diagnostics = vec![Diagnostic::MissingLibrary {
        binary: "earlier".to_string(),
        library: "finding".to_string(),
    }];
    let bytes = binary_that_needs(&["libfoo.so", "libbar.so"]);
    let data = analyse_elf2(&tree.head_node, "/snap/bin/app", &bytes, 99, &mut diagnostics).unwrap();
    assert_eq!(data.size, 99);
    assert_eq!(data.dyn_libs, vec![("libfoo.so".to_string(), "/lib/libfoo.so".to_string())]);
    assert_eq!(diagnostics.len(), 2);
    assert_eq!(
        diagnostics[1],
        Diagnostic::MissingLibrary {
            binary: "/snap/bin/app".to_string(),
            library: "libbar.so".to_string(),
        }
    );
    let failed = analyse_elf2(&tree.head_node, "/snap/bin/app", b"\x7fELF", 4, &mut diagnostics);
    assert_eq!(failed, Err(ElfError::BadHeader));
    assert_eq!(diagnostics.len(), 2);
}

#[test]
fn the_passes_leave_names_and_kinds_alone() {
    let (tree, _) = analysed_fixture(&["libfoo.so"]);
    let before = fixture();
    assert_eq!(tree.count_files(), before.count_files());
    assert_eq!(tree.count_dirs(), before.count_dirs());
    let names: Vec<String> = tree.list_files().iter().map(|node| node.local_path()).collect();
    let names_before: Vec<String> = before.list_files().iter().map(|node| node.local_path()).collect();
    assert_eq!(names, names_before);
    assert_eq!(tree.path, "/snap");
}

#[test]
fn listing_a_path_leaves_the_snapshot_as_it_is() {
    let tree = fixture();
    tree.list_path("/bin");
    tree.list_path("/nowhere");
    assert_eq!(tree, fixture());
}
