//! What was read from the filesystem, handed to the analysis passes as plain
//! values: for each path a size and, where the file was read, its bytes.
use vstd::prelude::*;

verus! {

/// Files larger than this are neither classified nor digested.
pub const MAX_FILE_SIZE: u64 = 50_000_000;

/// What is known of one file.
#[derive(Debug, PartialEq, Eq)]
pub struct FileEntry {
    /// Path of the file on the system.
    pub path: String,
    /// Size of the file in bytes.
    pub len: u64,
    /// The bytes of the file, unless it was left unread.
    pub bytes: Option<Vec<u8>>,
}

/// The mathematical value of a [`FileEntry`].
pub ghost struct FileEntryView {
    pub path: Seq<char>,
    pub len: u64,
    pub bytes: Option<Seq<u8>>,
}

impl View for FileEntry {
    type V = FileEntryView;

    open spec fn view(&self) -> FileEntryView {
        FileEntryView {
            path: self.path@,
            len: self.len,
            bytes: match self.bytes {
                Some(bytes) => Some(bytes@),
                None => None,
            },
        }
    }
}

/// A table of files by path. Of two entries with one path the earlier counts.
#[derive(Debug, PartialEq, Eq)]
pub struct Contents {
    pub files: Vec<FileEntry>,
}

impl View for Contents {
    type V = Seq<FileEntryView>;

    open spec fn view(&self) -> Seq<FileEntryView> {
        Seq::new(self.files.len() as nat, |i: int| self.files[i]@)
    }
}

/// `i` is the place of the first entry for `path`.
pub open spec fn is_first_entry(table: Seq<FileEntryView>, path: Seq<char>, i: int) -> bool {
    &&& 0 <= i < table.len()
    &&& table[i].path == path
    &&& forall|j: int| 0 <= j < i ==> (#[trigger] table[j]).path != path
}

/// The entry for `path`: the first one of the table with that path.
pub open spec fn entry_of(table: Seq<FileEntryView>, path: Seq<char>) -> Option<FileEntryView> {
    if exists|i: int| is_first_entry(table, path, i) {
        Some(table[choose|i: int| is_first_entry(table, path, i)])
    } else {
        None
    }
}

/// The bytes on record for `path`.
pub open spec fn bytes_of(table: Seq<FileEntryView>, path: Seq<char>) -> Option<Seq<u8>> {
    match entry_of(table, path) {
        Some(entry) => entry.bytes,
        None => None,
    }
}

/// The first entry with the path is the entry for it.
pub proof fn lemma_entry_found(table: Seq<FileEntryView>, path: Seq<char>, i: int)
    requires
        is_first_entry(table, path, i),
    ensures
        entry_of(table, path) == Some(table[i]),
{
    let k = choose|k: int| is_first_entry(table, path, k);
    assert(is_first_entry(table, path, k));
    if k < i {
        assert(table[k].path != path);
    }
    if i < k {
        assert(table[i].path != path);
    }
}

/// A path without an entry has none.
pub proof fn lemma_entry_missing(table: Seq<FileEntryView>, path: Seq<char>)
    requires
        forall|j: int| 0 <= j < table.len() ==> (#[trigger] table[j]).path != path,
    ensures
        entry_of(table, path) is None,
{
    if exists|i: int| is_first_entry(table, path, i) {
        let k = choose|k: int| is_first_entry(table, path, k);
        assert(table[k].path != path);
    }
}

impl Contents {
    /// A table without entries.
    pub fn new() -> (contents: Self)
        ensures
            contents@ == Seq::<FileEntryView>::empty(),
    {
        let contents = Contents { files: Vec::new() };
        assert(contents@ =~= Seq::empty());
        contents
    }

    /// Appends an entry. An entry that the table already has for the path
    /// stays the one that counts.
    pub fn insert(&mut self, path: String, len: u64, bytes: Option<Vec<u8>>)
        ensures
            final(self)@ == old(self)@.push(
                FileEntryView {
                    path: path@,
                    len,
                    bytes: match bytes {
                        Some(bytes) => Some(bytes@),
                        None => None,
                    },
                },
            ),
    {
        let entry = FileEntry { path, len, bytes };
        self.files.push(entry);
        assert(self@ =~= old(self)@.push(entry@));
    }

    /// The entry for `path`.
    pub fn get(&self, path: &String) -> (found: Option<&FileEntry>)
        ensures
            match found {
                Some(entry) => entry_of(self@, path@) == Some(entry@),
                None => entry_of(self@, path@) is None,
            },
    {
        let mut i: usize = 0;
        while i < self.files.len()
            invariant
                i <= self.files.len(),
                forall|j: int| 0 <= j < i ==> (#[trigger] self@[j]).path != path@,
            decreases self.files.len() - i,
        {
            if self.files[i].path == *path {
                proof {
                    lemma_entry_found(self@, path@, i as int);
                }
                return Some(&self.files[i]);
            }
            i = i + 1;
        }
        proof {
            lemma_entry_missing(self@, path@);
        }
        None
    }
}

/// What a file of `len` bytes adds to a table of contents: its size, or
/// nothing if it is too large to be read.
pub open spec fn weight(len: u64) -> nat {
    if len <= MAX_FILE_SIZE {
        len as nat
    } else {
        0
    }
}

/// What the files from place `from` up to place `to` add to a table.
pub open spec fn run_weight(sizes: Seq<u64>, from: int, to: int) -> nat
    decreases to - from,
{
    if from >= to {
        0
    } else {
        run_weight(sizes, from, to - 1) + weight(sizes[to - 1])
    }
}

/// Where run `k` of a cutting begins: at the end of the run before it.
pub open spec fn run_start(cuts: Seq<usize>, k: int) -> int {
    if k <= 0 {
        0
    } else {
        cuts[k - 1] as int
    }
}

/// Whether `cuts` are the ends of the runs into which a row of files is cut
/// for a budget of bytes: run after run without a gap, each with at least one
/// file, none heavier than the budget unless it is a single file, and none
/// but the last with room for the file that follows it.
pub open spec fn is_cutting(sizes: Seq<u64>, budget: u64, cuts: Seq<usize>) -> bool {
    &&& sizes.len() == 0 ==> cuts.len() == 0
    &&& sizes.len() > 0 ==> cuts.len() > 0 && cuts.last() == sizes.len()
    &&& forall|k: int|
        0 <= k < cuts.len() ==> run_start(cuts, k) < (#[trigger] cuts[k]) <= sizes.len()
    &&& forall|k: int|
        0 <= k < cuts.len() ==> run_weight(sizes, run_start(cuts, k), (#[trigger] cuts[k]) as int)
            <= budget || cuts[k] == run_start(cuts, k) + 1
    &&& forall|k: int|
        0 <= k < cuts.len() - 1 ==> run_weight(
            sizes,
            run_start(cuts, k),
            (#[trigger] cuts[k]) + 1,
        ) > budget
}

/// Cuts a row of files, given by their sizes, into runs whose contents fit a
/// budget of bytes together: every run takes in as many files as the budget
/// allows, and one at least. What comes back are the ends of the runs.
pub fn batches(sizes: &Vec<u64>, budget: u64) -> (cuts: Vec<usize>)
    ensures
        is_cutting(sizes@, budget, cuts@),
{
    let n = sizes.len();
    let mut cuts: Vec<usize> = Vec::new();
    let mut start: usize = 0;
    let mut held: u64 = 0;
    let mut i: usize = 0;
    while i < n
        invariant
            i <= n,
            n == sizes.len(),
            start <= i,
            i > 0 ==> start < i,
            start == run_start(cuts@, cuts.len() as int),
            held == run_weight(sizes@, start as int, i as int),
            held <= budget || (i == start + 1 && held <= MAX_FILE_SIZE),
            forall|k: int|
                0 <= k < cuts.len() ==> run_start(cuts@, k) < (#[trigger] cuts[k]) <= i,
            forall|k: int|
                0 <= k < cuts.len() ==> run_weight(
                    sizes@,
                    run_start(cuts@, k),
                    (#[trigger] cuts[k]) as int,
                ) <= budget || cuts[k] == run_start(cuts@, k) + 1,
            forall|k: int|
                0 <= k < cuts.len() ==> run_weight(
                    sizes@,
                    run_start(cuts@, k),
                    (#[trigger] cuts[k]) + 1,
                ) > budget,
        decreases n - i,
    {
        let added: u64 = if sizes[i] <= MAX_FILE_SIZE {
            sizes[i]
        } else {
            0
        };
        assert(added == weight(sizes@[i as int]));
        if i > start && (held > budget || added > budget - held) {
            let ghost before = cuts@;
            cuts.push(i);
            proof {
                assert forall|k: int| 0 <= k < cuts.len() implies run_start(cuts@, k) == run_start(
                    before,
                    k,
                ) by {}
                assert(run_weight(sizes@, start as int, i + 1) == held + added);
                assert(run_weight(sizes@, i as int, i as int) == 0);
            }
            start = i;
            held = 0;
        }
        assert(run_weight(sizes@, start as int, i + 1) == held + added);
        held = held + added;
        i = i + 1;
    }
    if n > 0 {
        let ghost before = cuts@;
        cuts.push(n);
        proof {
            assert forall|k: int| 0 <= k < cuts.len() implies run_start(cuts@, k) == run_start(
                before,
                k,
            ) by {}
        }
    }
    cuts
}

} // verus!
