//! Pruning a tree whose entries arrive in a flat stream.
//!
//! Where a tree is walked by someone else, parents before their children,
//! an excluded directory cannot be kept off a work list. It is remembered
//! instead, and every entry that lies beneath it is turned away, excluded
//! directories among them: while the stream is beneath the remembered
//! directory nothing takes its place.

use crate::paths::path_starts_with;
use crate::paths::starts_with;
use vstd::prelude::*;

verus! {

/// Remembers an excluded directory while the entries of a tree arrive
/// parents first, and turns away whatever lies beneath it.
pub struct Pruner {
    /// The directory that is remembered, if any.
    pub excluded: Option<String>,
}

/// One entry of a stream, as the pruner is told of it.
pub struct Seen {
    pub entry: Seq<char>,
    /// The entry is a directory that some filter excludes.
    pub excluded_directory: bool,
}

/// Whether an entry is, or lies beneath, the directory that is remembered.
pub open spec fn covered(memory: Option<Seq<char>>, entry: Seq<char>) -> bool {
    match memory {
        Some(directory) => path_starts_with(entry, directory),
        None => false,
    }
}

/// The directory that is remembered after an entry was seen: the one
/// before, while the entry lies beneath it; else the entry, where it is an
/// excluded directory.
pub open spec fn remembered(
    before: Option<Seq<char>>,
    entry: Seq<char>,
    excluded_directory: bool,
) -> Option<Seq<char>> {
    if covered(before, entry) {
        before
    } else if excluded_directory {
        Some(entry)
    } else {
        before
    }
}

/// Whether an entry is kept: it is no excluded directory and lies beneath
/// none that is remembered.
pub open spec fn kept(
    before: Option<Seq<char>>,
    entry: Seq<char>,
    excluded_directory: bool,
) -> bool {
    !covered(before, entry) && !excluded_directory
}

/// The directory that is remembered once the first `count` entries of a
/// stream were seen.
pub open spec fn memory_after(stream: Seq<Seen>, count: nat) -> Option<Seq<char>>
    decreases count,
{
    if count == 0 {
        None
    } else {
        let last = stream[count - 1];
        remembered(memory_after(stream, (count - 1) as nat), last.entry, last.excluded_directory)
    }
}

/// Whether the entry at `index` of a stream is kept.
pub open spec fn kept_at(stream: Seq<Seen>, index: int) -> bool {
    kept(memory_after(stream, index as nat), stream[index].entry, stream[index].excluded_directory)
}

/// Whether the entry at `lower` of a stream is, or lies beneath, the entry
/// at `upper`.
pub open spec fn lies_beneath(stream: Seq<Seen>, lower: int, upper: int) -> bool {
    path_starts_with(stream[lower].entry, stream[upper].entry)
}

/// A stream walks a tree parents first: once it has left what lies beneath
/// an entry it does not come back there, and what lies beneath an entry
/// lies beneath all that the entry lies beneath.
pub open spec fn parents_first(stream: Seq<Seen>) -> bool {
    &&& forall|a: int, b: int, c: int|
        #![trigger lies_beneath(stream, c, a), lies_beneath(stream, b, a)]
        0 <= a < b < c < stream.len() && lies_beneath(stream, c, a) ==> lies_beneath(stream, b, a)
    &&& forall|a: int, b: int, c: int|
        #![trigger lies_beneath(stream, b, a), lies_beneath(stream, c, b)]
        0 <= a < b < c < stream.len() && lies_beneath(stream, b, a) && lies_beneath(stream, c, b)
            ==> lies_beneath(stream, c, a)
}

impl Pruner {
    /// The directory that is remembered.
    pub open spec fn memory(&self) -> Option<Seq<char>> {
        match self.excluded {
            Some(directory) => Some(directory@),
            None => None,
        }
    }

    /// A pruner that remembers nothing.
    pub fn new() -> (pruner: Pruner)
        ensures
            pruner.memory() is None,
    {
        Pruner { excluded: None }
    }

    /// Whether the entry is, or lies beneath, the directory that is
    /// remembered. Such an entry is turned away whatever the filters say
    /// of it, so they need not be asked.
    pub fn covers(&self, entry: &str) -> (beneath: bool)
        ensures
            beneath == covered(self.memory(), entry@),
    {
        match &self.excluded {
            Some(directory) => starts_with(entry, directory.as_str()),
            None => false,
        }
    }

    /// Takes the next entry of the tree. `excluded_directory` says that the
    /// entry is a directory that some filter excludes. An entry beneath the
    /// remembered directory is turned away and changes nothing. Any other
    /// entry is kept, unless it is an excluded directory: that one is
    /// turned away and remembered from now on.
    pub fn observe(&mut self, entry: &str, excluded_directory: bool) -> (keep: bool)
        ensures
            final(self).memory() == remembered(old(self).memory(), entry@, excluded_directory),
            keep == kept(old(self).memory(), entry@, excluded_directory),
    {
        if self.covers(entry) {
            return false;
        }
        if excluded_directory {
            self.excluded = Some(entry.to_owned());
            return false;
        }
        true
    }
}

/// What is remembered is an entry that was seen.
pub proof fn lemma_memory_is_an_entry(stream: Seq<Seen>, count: nat)
    requires
        count <= stream.len(),
    ensures
        match memory_after(stream, count) {
            Some(directory) => exists|m: int|
                0 <= m < count && directory == (#[trigger] stream[m]).entry,
            None => true,
        },
    decreases count,
{
    if count > 0 {
        lemma_memory_is_an_entry(stream, (count - 1) as nat);
        let before = memory_after(stream, (count - 1) as nat);
        let last = stream[count - 1];
        if covered(before, last.entry) || !last.excluded_directory {
            if before is Some {
                let m = choose|m: int|
                    0 <= m < count - 1 && before.unwrap() == (#[trigger] stream[m]).entry;
                assert(0 <= m < count && before.unwrap() == stream[m].entry);
            }
        } else {
            assert(memory_after(stream, count) == Some(stream[count - 1].entry));
        }
    }
}

/// From an excluded directory on, as long as the stream has not come to
/// `later`, an entry that `later` lies beneath is remembered.
proof fn lemma_memory_covers(stream: Seq<Seen>, directory: int, later: int, count: nat)
    requires
        parents_first(stream),
        0 <= directory < later < stream.len(),
        stream[directory].excluded_directory,
        lies_beneath(stream, later, directory),
        directory < count <= later,
    ensures
        exists|m: int|
            0 <= m < count && memory_after(stream, count) == Some((#[trigger] stream[m]).entry)
                && lies_beneath(stream, later, m),
    decreases count,
{
    let before = memory_after(stream, (count - 1) as nat);
    let last = stream[count - 1];
    if count - 1 == directory {
        lemma_memory_is_an_entry(stream, (count - 1) as nat);
        if covered(before, last.entry) {
            let m = choose|m: int|
                0 <= m < count - 1 && before.unwrap() == (#[trigger] stream[m]).entry;
            assert(lies_beneath(stream, directory, m));
            assert(lies_beneath(stream, later, m));
            assert(memory_after(stream, count) == Some(stream[m].entry));
        } else {
            assert(memory_after(stream, count) == Some(stream[directory].entry));
        }
    } else {
        lemma_memory_covers(stream, directory, later, (count - 1) as nat);
        let m = choose|m: int|
            0 <= m < count - 1 && before == Some((#[trigger] stream[m]).entry) && lies_beneath(
                stream,
                later,
                m,
            );
        assert(lies_beneath(stream, count - 1, m));
        assert(memory_after(stream, count) == Some(stream[m].entry));
    }
}

/// Pruning. In a stream that walks a tree parents first, an excluded
/// directory is not kept, and no later entry that lies beneath it is kept,
/// whatever lies between them: excluded directories beneath it do not
/// take its place.
pub proof fn lemma_nothing_beneath_an_excluded_directory_is_kept(
    stream: Seq<Seen>,
    directory: int,
    later: int,
)
    requires
        parents_first(stream),
        0 <= directory < later < stream.len(),
        stream[directory].excluded_directory,
        lies_beneath(stream, later, directory),
    ensures
        !kept_at(stream, directory),
        !kept_at(stream, later),
{
    lemma_memory_covers(stream, directory, later, later as nat);
}

} // verus!
