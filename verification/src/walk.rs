//! The decisions of the walk over a directory tree: which entries are
//! passed over, which are gone into, and which files are rewritten.

use crate::text::{has_part, occurs_at, to_chars};
use vstd::prelude::*;

verus! {

/// Whether the walk passes over `path`: it does where the path, taken as
/// text, holds two underscores in a row or the name `node_modules`, wherever
/// in the path that is.
pub open spec fn is_skipped(path: Seq<char>) -> bool {
    has_part(path, "__"@) || has_part(path, "node_modules"@)
}

/// What the walk does with one entry of a directory.
#[derive(Clone, Copy, Debug, PartialEq, Eq)]
pub enum EntryAction {
    /// Pass over it: neither visit it nor go into it.
    Skip,
    /// Go into it and walk its entries.
    Descend,
    /// Hand it to the visitor.
    Visit,
}

/// What the walk does with an entry whose path is `path`, which is a
/// directory or not.
pub open spec fn planned(path: Seq<char>, is_dir: bool) -> EntryAction {
    if is_skipped(path) {
        EntryAction::Skip
    } else if is_dir {
        EntryAction::Descend
    } else {
        EntryAction::Visit
    }
}

/// Whether a file with this extension, if it has one, is rewritten: only
/// `ts` is.
pub open spec fn is_wanted(extension: Option<Seq<char>>) -> bool {
    extension == Some("ts"@)
}

/// Tells whether `part` stands in `text` at position `at`.
fn stands_at(text: &Vec<char>, part: &Vec<char>, at: usize) -> (yes: bool)
    requires
        at + part.len() <= text.len(),
    ensures
        yes == occurs_at(text@, part@, at as int),
{
    let mut i: usize = 0;
    while i < part.len()
        invariant
            i <= part.len(),
            at + part.len() <= text.len(),
            forall|j: int| 0 <= j < i ==> text@[at + j] == part@[j],
        decreases part.len() - i,
    {
        if text[at + i] != part[i] {
            assert(text@.subrange(at as int, at + part.len())[i as int] != part@[i as int]);
            return false;
        }
        i += 1;
    }
    assert(text@.subrange(at as int, at + part.len()) == part@);
    true
}

/// Tells whether `part` stands somewhere in `text`.
pub fn contains_part(text: &str, part: &str) -> (yes: bool)
    ensures
        yes == has_part(text@, part@),
{
    let hay = to_chars(text);
    let needle = to_chars(part);
    if needle.len() > hay.len() {
        return false;
    }
    let last = hay.len() - needle.len();
    let mut at: usize = 0;
    loop
        invariant
            hay@ == text@,
            needle@ == part@,
            last == hay.len() - needle.len(),
            at <= last,
            forall|k: int| 0 <= k < at ==> !occurs_at(hay@, needle@, k),
        decreases last - at,
    {
        if stands_at(&hay, &needle, at) {
            return true;
        }
        if at == last {
            return false;
        }
        at += 1;
    }
}

/// Tells whether the two strings hold the same text.
pub fn same_text(a: &str, b: &str) -> (yes: bool)
    ensures
        yes == (a@ == b@),
{
    let left = to_chars(a);
    let right = to_chars(b);
    if left.len() != right.len() {
        return false;
    }
    assert(left@.subrange(0, left@.len() as int) == left@);
    stands_at(&left, &right, 0)
}

/// Decides what the walk does with one entry of a directory: `path` is the
/// entry's path as text, and `is_dir` says whether it is a directory.
pub fn entry_action(path: &str, is_dir: bool) -> (action: EntryAction)
    ensures
        action == planned(path@, is_dir),
{
    if contains_part(path, "__") || contains_part(path, "node_modules") {
        EntryAction::Skip
    } else if is_dir {
        EntryAction::Descend
    } else {
        EntryAction::Visit
    }
}

/// Decides whether a visited file is rewritten, by its extension: `None`
/// stands for a file that has none.
pub fn wants_file(extension: Option<&str>) -> (yes: bool)
    ensures
        yes == is_wanted(
            match extension {
                Some(e) => Some(e@),
                None => None,
            },
        ),
{
    match extension {
        Some(e) => same_text(e, "ts"),
        None => false,
    }
}

} // verus!
