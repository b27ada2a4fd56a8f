//! Rows of strings and their mathematical values.
use vstd::prelude::*;
use vstd::string::{StrSliceExecFns, StringExecFns};

verus! {

/// The part of `text` after its last `mark`; the whole text if it has none.
pub open spec fn after_last(text: Seq<char>, mark: char) -> Seq<char>
    decreases text.len(),
{
    if text.len() == 0 || text.last() == mark {
        Seq::empty()
    } else {
        after_last(text.drop_last(), mark).push(text.last())
    }
}

/// What `after_last` gives, said without recursion: where `start` is the
/// place behind the last `mark` of `text`, or 0 if `text` holds no `mark`,
/// it is `text` from `start` on.
pub proof fn lemma_after_last_is_the_tail(text: Seq<char>, mark: char, start: int)
    requires
        0 <= start <= text.len(),
        start > 0 ==> text[start - 1] == mark,
        forall|k: int| start <= k < text.len() ==> text[k] != mark,
    ensures
        after_last(text, mark) == text.subrange(start, text.len() as int),
    decreases text.len(),
{
    if start == text.len() {
        assert(text.subrange(start, text.len() as int) =~= Seq::empty());
    } else {
        lemma_after_last_is_the_tail(text.drop_last(), mark, start);
        assert(text.drop_last().subrange(start, text.len() - 1).push(text.last())
            =~= text.subrange(start, text.len() as int));
    }
}

/// Whether `text` begins with `start`.
pub open spec fn begins_with(text: Seq<char>, start: Seq<char>) -> bool {
    start.len() <= text.len() && text.subrange(0, start.len() as int) == start
}

/// The path below the root of a tree for the path `path` of the system,
/// where `root` is the path of the root: what follows `root` in `path`, with
/// a `/` in front unless it has one. There is none where `path` does not
/// begin with `root`.
pub open spec fn local_path(root: Seq<char>, path: Seq<char>) -> Option<Seq<char>> {
    if begins_with(path, root) {
        let rest = path.subrange(root.len() as int, path.len() as int);
        if rest.len() > 0 && rest[0] == '/' {
            Some(rest)
        } else {
            Some(seq!['/'] + rest)
        }
    } else {
        None
    }
}

/// The characters of `text`.
fn chars_of(text: &str) -> (chars: Vec<char>)
    ensures
        chars@ == text@,
{
    let mut chars: Vec<char> = Vec::new();
    for c in it: text.chars()
        invariant
            it.seq() == text@,
            chars@ == text@.take(it.index() as int),
    {
        assert(text@.take(it.index() + 1) =~= text@.take(it.index() as int).push(c));
        chars.push(c);
    }
    assert(text@.take(text@.len() as int) =~= text@);
    chars
}

/// The part of `text` after its last `mark`.
pub fn part_after_last<'a>(text: &'a str, mark: char) -> (part: &'a str)
    ensures
        part@ == after_last(text@, mark),
{
    let n = text.unicode_len();
    let mut start: usize = 0;
    let mut k: usize = 0;
    assert(text@.take(0) =~= Seq::empty());
    for c in it: text.chars()
        invariant
            it.seq() == text@,
            n == text@.len(),
            k == it.index(),
            start <= k,
            after_last(text@.take(k as int), mark) == text@.subrange(start as int, k as int),
    {
        proof {
            assert(text@.take(k + 1).drop_last() =~= text@.take(k as int));
            assert(text@.take(k + 1).last() == c);
        }
        if c == mark {
            start = k + 1;
            assert(text@.subrange(start as int, k + 1) =~= Seq::empty());
        } else {
            assert(text@.subrange(start as int, k + 1) =~= text@.subrange(
                start as int,
                k as int,
            ).push(c));
        }
        k = k + 1;
    }
    assert(text@.take(n as int) =~= text@);
    text.substring_char(start, n)
}

/// The path below the root `root` for the path `path` of the system.
pub fn local_path_of(root: &str, path: &str) -> (local: Option<String>)
    ensures
        match local {
            Some(found) => local_path(root@, path@) == Some(found@),
            None => local_path(root@, path@) is None,
        },
{
    let start = chars_of(root);
    let whole = chars_of(path);
    if start.len() > whole.len() {
        return None;
    }
    let mut i: usize = 0;
    while i < start.len()
        invariant
            i <= start.len() <= whole.len(),
            start@ == root@,
            whole@ == path@,
            forall|k: int| 0 <= k < i ==> whole@[k] == start@[k],
        decreases start.len() - i,
    {
        if whole[i] != start[i] {
            assert(path@.subrange(0, root@.len() as int)[i as int] != root@[i as int]);
            return None;
        }
        i = i + 1;
    }
    assert(path@.subrange(0, root@.len() as int) =~= root@);
    let rest = path.substring_char(start.len(), whole.len());
    if start.len() < whole.len() && whole[start.len()] == '/' {
        Some(rest.to_owned())
    } else {
        let mut local = "/".to_owned();
        proof {
            reveal_strlit("/");
            assert("/"@ =~= seq!['/']);
        }
        local.append(rest);
        Some(local)
    }
}

/// The values of a row of strings, in order.
pub open spec fn texts(row: Seq<String>) -> Seq<Seq<char>> {
    Seq::new(row.len(), |i: int| row[i]@)
}

/// A row of texts without its repetitions: of equal items the first stays.
pub open spec fn distinct(row: Seq<Seq<char>>) -> Seq<Seq<char>>
    decreases row.len(),
{
    if row.len() == 0 {
        Seq::empty()
    } else if distinct(row.drop_last()).contains(row.last()) {
        distinct(row.drop_last())
    } else {
        distinct(row.drop_last()).push(row.last())
    }
}

/// Whether `row` holds a string equal to `text`.
pub fn holds(row: &Vec<String>, text: &String) -> (found: bool)
    ensures
        found == texts(row@).contains(text@),
{
    let mut i: usize = 0;
    while i < row.len()
        invariant
            i <= row.len(),
            forall|k: int| 0 <= k < i ==> texts(row@)[k] != text@,
        decreases row.len() - i,
    {
        if row[i] == *text {
            assert(texts(row@)[i as int] == text@);
            return true;
        }
        i = i + 1;
    }
    false
}

/// Appends `text` to `row` unless `row` holds an equal string.
pub fn push_distinct(row: &mut Vec<String>, text: String)
    ensures
        texts(final(row)@) == if texts(old(row)@).contains(text@) {
            texts(old(row)@)
        } else {
            texts(old(row)@).push(text@)
        },
{
    if !holds(row, &text) {
        row.push(text);
        assert(texts(row@) =~= texts(old(row)@).push(text@));
    }
}

} // verus!
