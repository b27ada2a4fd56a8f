use fs_analyzer::contents::{batches, Contents, MAX_FILE_SIZE};
use fs_analyzer::file::elf::check_elf;
use fs_analyzer::file::extension::check_extension;
use fs_analyzer::file::{check_type, FileType};
use fs_analyzer::fstree::node::{Node, NodeType};
use fs_analyzer::fstree::FsTree;
use fs_analyzer::hash::content_hash;
use siphasher::sip::SipHasher13;
use std::hash::Hasher;

fn elf_start(class: u8, order: u8) -> Vec<u8> {
    vec![0x7f, b'E', b'L', b'F', class, order, 1, 0, 0, 0, 0, 0, 0, 0, 0, 0]
}

#[test]
fn every_extension_of_the_table_has_its_tag() {
    let bytes = b"plain";
    assert_eq!(check_type("notes.txt", bytes), FileType::Text);
    assert_eq!(check_type("run.sh", bytes), FileType::Sh);
    assert_eq!(check_type("api.h", bytes), FileType::Header);
    assert_eq!(check_type("api.hpp", bytes), FileType::Header);
    assert_eq!(check_type("main.c", bytes), FileType::Source);
    assert_eq!(check_type("main.cpp", bytes), FileType::Source);
    assert_eq!(check_type("net.ko", bytes), FileType::Driver);
    assert_eq!(check_type("README.md", bytes), FileType::Markdown);
    assert_eq!(check_type("README.markdown", bytes), FileType::Markdown);
    assert_eq!(check_type("index.html", bytes), FileType::Html);
    assert_eq!(check_type("index.htm", bytes), FileType::Html);
    assert_eq!(check_type("page.xhtml", bytes), FileType::XHtml);
    assert_eq!(check_type("page.xht", bytes), FileType::XHtml);
    assert_eq!(check_type("index.php", bytes), FileType::Php);
    assert_eq!(check_type("app.js", bytes), FileType::Js);
    assert_eq!(check_type("form.asp", bytes), FileType::Asp);
    assert_eq!(check_type("form.aspx", bytes), FileType::Aspx);
}

#[test]
fn an_unknown_extension_leaves_the_file_unrecognised() {
    assert_eq!(check_type("archive.tar", b"data"), FileType::Data);
    assert_eq!(check_type("picture.TXT", b"data"), FileType::Data);
    assert_eq!(check_type("", b""), FileType::Data);
}

#[test]
fn only_the_part_after_the_last_dot_counts() {
    assert_eq!(check_type("archive.txt.c", b""), FileType::Source);
    assert_eq!(check_type("main.c.txt", b""), FileType::Text);
    assert_eq!(check_type("ends.with.dot.", b""), FileType::Data);
    assert_eq!(check_type(".sh", b""), FileType::Sh);
}

#[test]
fn a_name_without_a_dot_is_its_own_extension() {
    assert_eq!(check_type("txt", b""), FileType::Text);
    assert_eq!(check_type("sh", b""), FileType::Sh);
    assert_eq!(check_type("Makefile", b""), FileType::Data);
}

#[test]
fn a_name_that_is_not_ascii_is_read_by_characters() {
    assert_eq!(check_type("caf\u{e9}.md", b""), FileType::Markdown);
    assert_eq!(check_type("notes.t\u{e9}xt", b""), FileType::Data);
}

#[test]
fn the_elf_signature_beats_the_extension() {
    assert_eq!(check_type("program.txt", &elf_start(2, 1)), FileType::Elf(None));
    assert_eq!(check_type("program", &elf_start(1, 1)), FileType::Elf(None));
    assert_eq!(check_type("program.sh", &elf_start(1, 2)), FileType::Elf(None));
    assert_eq!(check_type("program.sh", &elf_start(2, 2)), FileType::Elf(None));
}

#[test]
fn a_class_or_byte_order_out_of_range_is_no_elf_signature() {
    assert_eq!(check_type("program.txt", &elf_start(0, 1)), FileType::Text);
    assert_eq!(check_type("program.txt", &elf_start(3, 1)), FileType::Text);
    assert_eq!(check_type("program.txt", &elf_start(1, 0)), FileType::Text);
    assert_eq!(check_type("program.txt", &elf_start(2, 3)), FileType::Text);
    assert_eq!(check_type("program", &elf_start(2, 3)), FileType::Data);
}

#[test]
fn a_signature_that_is_cut_short_is_none() {
    assert_eq!(check_type("a.txt", &[0x7f, b'E', b'L', b'F']), FileType::Text);
    assert_eq!(check_type("a.txt", &[0x7f, b'E', b'L', b'F', 1]), FileType::Text);
    assert_eq!(check_type("a.txt", &[0x7f, b'E', b'L', b'F', 1, 1]), FileType::Elf(None));
    assert_eq!(check_type("a.txt", &[0x7f, b'E', b'L', b'G', 1, 1]), FileType::Text);
}

#[test]
fn classification_gives_the_same_tag_twice() {
    let bytes = elf_start(2, 1);
    assert_eq!(check_type("a.out", &bytes), check_type("a.out", &bytes));
    assert_eq!(check_type("a.md", b"text"), check_type("a.md", b"text"));
}

#[test]
fn a_file_that_has_a_tag_keeps_it() {
    let mut file_type = FileType::Php;
    check_elf(&elf_start(2, 1), &mut file_type);
    assert_eq!(file_type, FileType::Php);
    check_extension("notes.txt", &mut file_type);
    assert_eq!(file_type, FileType::Php);
    let mut fresh = FileType::Data;
    check_elf(b"no signature", &mut fresh);
    assert_eq!(fresh, FileType::Data);
    check_extension("notes.txt", &mut fresh);
    assert_eq!(fresh, FileType::Text);
}

#[test]
fn equal_contents_have_equal_digests() {
    assert_eq!(content_hash(b"hello"), content_hash(b"hello"));
    assert_eq!(content_hash(b""), content_hash(b""));
}

#[test]
fn the_digest_is_that_of_the_default_hasher() {
    for bytes in [&b""[..], b"hello", b"\0\0\0", b"a longer run of bytes, well over one block"] {
        let mut hasher = std::collections::hash_map::DefaultHasher::new();
        hasher.write(bytes);
        assert_eq!(content_hash(bytes), hasher.finish());
        assert_eq!(content_hash(bytes), SipHasher13::new().hash(bytes));
    }
    assert_eq!(content_hash(b"a"), 4644417185603328019);
}

#[test]
fn one_changed_byte_changes_the_digest() {
    let first = b"hello world".to_vec();
    for at in 0..first.len() {
        let mut second = first.clone();
        second[at] ^= 1;
        assert_ne!(content_hash(&first), content_hash(&second));
    }
    assert_ne!(content_hash(b"ab"), content_hash(b"ba"));
    assert_ne!(content_hash(b"a"), content_hash(b"a\0"));
}

fn snapshot_of_one_file(name: &str, len: u64) -> FsTree {
    let mut root = Node::new_dir("root", "/", "/snap", 0, None);
    let path = format!("/snap/{}", name);
    let local = format!("/{}", name);
    let file = Node::new_file(name, &local, &path, len, Some(&root));
    assert!(root.set_childrens(vec![file]));
    FsTree { path: "/snap".to_string(), head_node: root }
}

#[test]
fn the_passes_fill_in_tag_and_digest() {
    let mut tree = snapshot_of_one_file("notes.txt", 5);
    let mut contents = Contents::new();
    contents.insert("/snap/notes.txt".to_string(), 5, Some(b"hello".to_vec()));
    tree.analyse_files_type(&contents);
    tree.calc_files_hash(&contents);
    let file = &tree.head_node.inner().childrens[0];
    assert_eq!(file.inner().node_type, NodeType::File(Some(FileType::Text)));
    assert_eq!(file.inner().hash, Some(content_hash(b"hello")));
    assert_eq!(tree.head_node.inner().node_type, NodeType::Dir);
    assert_eq!(tree.head_node.inner().hash, None);
}

#[test]
fn a_file_at_the_size_limit_is_digested() {
    let mut tree = snapshot_of_one_file("big.txt", MAX_FILE_SIZE);
    let mut contents = Contents::new();
    contents.insert("/snap/big.txt".to_string(), MAX_FILE_SIZE, Some(b"x".to_vec()));
    tree.analyse_files_type(&contents);
    tree.calc_files_hash(&contents);
    let file = &tree.head_node.inner().childrens[0];
    assert_eq!(file.inner().node_type, NodeType::File(Some(FileType::Text)));
    assert_eq!(file.inner().hash, Some(content_hash(b"x")));
}

#[test]
fn a_file_one_byte_over_the_size_limit_has_no_digest() {
    assert_eq!(MAX_FILE_SIZE, 50_000_000);
    let mut tree = snapshot_of_one_file("big.txt", MAX_FILE_SIZE + 1);
    let mut contents = Contents::new();
    contents.insert("/snap/big.txt".to_string(), MAX_FILE_SIZE + 1, Some(b"x".to_vec()));
    tree.analyse_files_type(&contents);
    tree.calc_files_hash(&contents);
    let file = &tree.head_node.inner().childrens[0];
    assert_eq!(file.inner().node_type, NodeType::File(None));
    assert_eq!(file.inner().hash, None);
}

#[test]
fn a_file_that_was_not_read_stays_as_it_is() {
    let mut tree = snapshot_of_one_file("notes.txt", 5);
    let mut contents = Contents::new();
    contents.insert("/snap/notes.txt".to_string(), 5, None);
    contents.insert("/snap/other.txt".to_string(), 5, Some(b"hello".to_vec()));
    tree.analyse_files_type(&contents);
    tree.calc_files_hash(&contents);
    let file = &tree.head_node.inner().childrens[0];
    assert_eq!(file.inner().node_type, NodeType::File(None));
    assert_eq!(file.inner().hash, None);
}

#[test]
fn a_second_classification_keeps_the_first_tag() {
    let mut tree = snapshot_of_one_file("notes.txt", 5);
    let mut contents = Contents::new();
    contents.insert("/snap/notes.txt".to_string(), 5, Some(b"hello".to_vec()));
    tree.analyse_files_type(&contents);
    let mut changed = Contents::new();
    changed.insert("/snap/notes.txt".to_string(), 5, Some(elf_start(2, 1)));
    tree.analyse_files_type(&changed);
    let file = &tree.head_node.inner().childrens[0];
    assert_eq!(file.inner().node_type, NodeType::File(Some(FileType::Text)));
}

#[test]
fn of_two_entries_for_one_path_the_first_counts() {
    let mut contents = Contents::new();
    contents.insert("/a".to_string(), 1, Some(b"1".to_vec()));
    contents.insert("/b".to_string(), 2, None);
    contents.insert("/a".to_string(), 3, Some(b"333".to_vec()));
    assert_eq!(contents.get(&"/a".to_string()).unwrap().len, 1);
    assert_eq!(contents.get(&"/a".to_string()).unwrap().bytes, Some(b"1".to_vec()));
    assert_eq!(contents.get(&"/b".to_string()).unwrap().bytes, None);
    assert!(contents.get(&"/c".to_string()).is_none());
    assert!(Contents::new().get(&"/a".to_string()).is_none());
}

#[test]
fn a_row_of_files_is_cut_into_runs_that_fit_the_budget() {
    assert_eq!(batches(&vec![], 10), Vec::<usize>::new());
    assert_eq!(batches(&vec![3, 3, 3, 3], 6), vec![2, 4]);
    assert_eq!(batches(&vec![3, 3, 3, 3], 7), vec![2, 4]);
    assert_eq!(batches(&vec![3, 3, 3, 3], 9), vec![3, 4]);
    assert_eq!(batches(&vec![3, 3, 3, 3], 12), vec![4]);
    assert_eq!(batches(&vec![1, 2, 3, 4, 5], 5), vec![2, 3, 4, 5]);
    assert_eq!(batches(&vec![7], 0), vec![1]);
}

#[test]
fn a_file_that_is_heavier_than_the_budget_is_a_run_of_its_own() {
    assert_eq!(batches(&vec![10, 1, 1], 5), vec![1, 3]);
    assert_eq!(batches(&vec![1, 10, 1], 5), vec![1, 2, 3]);
    assert_eq!(batches(&vec![1, 1], 0), vec![1, 2]);
    assert_eq!(batches(&vec![0, 0, 0], 0), vec![3]);
    assert_eq!(batches(&vec![u64::MAX, 1], u64::MAX), vec![2]);
}

#[test]
fn a_file_that_is_too_large_to_be_read_weighs_nothing() {
    let big = MAX_FILE_SIZE + 1;
    assert_eq!(batches(&vec![big, big, 5], 5), vec![3]);
    assert_eq!(batches(&vec![4, big, 2], 5), vec![2, 3]);
    assert_eq!(batches(&vec![MAX_FILE_SIZE, MAX_FILE_SIZE], MAX_FILE_SIZE), vec![1, 2]);
    assert_eq!(batches(&vec![MAX_FILE_SIZE, MAX_FILE_SIZE], 2 * MAX_FILE_SIZE), vec![2]);
}
