//! The work list of a depth-first walk.
//!
//! A walk of one root keeps the paths that are still to be visited on a
//! stack. The caller takes the top path, looks at it on disk, and reports
//! back: a file is handed to the archive, a directory gives its children to
//! [`Walker::expand`], which leaves out every excluded child and stacks the
//! others. A directory that cannot be listed reports nothing, and its
//! subtree is dropped.
//!
//! Siblings leave the stack in the reverse of the order they were listed
//! in, and a listing's own order is the disk's to choose: the walk promises
//! which paths are visited, not the order among siblings.

use crate::filter::any_excludes;
use crate::filter::excluded_by_any;
use crate::model::filter_views;
use crate::model::string_set;
use crate::model::Filter;
use crate::model::FilterView;
use vstd::prelude::*;

verus! {

/// The state of the walk of one root.
pub struct Walker {
    root_length: usize,
    pending: Vec<String>,
}

/// The value of a [`Walker`].
pub struct WalkerView {
    /// The number of characters of the root that the walk began at.
    pub root_length: nat,
    /// The paths still to be visited; the last one is visited next.
    pub pending: Seq<Seq<char>>,
}

impl View for Walker {
    type V = WalkerView;

    closed spec fn view(&self) -> WalkerView {
        WalkerView { root_length: self.root_length as nat, pending: self.pending.deep_view() }
    }
}

/// The children that no filter excludes, in the order they were listed.
pub open spec fn survivors(
    children: Seq<Seq<char>>,
    filters: Seq<FilterView>,
    present: Set<Seq<char>>,
) -> Seq<Seq<char>> {
    children.filter(|child: Seq<char>| !any_excludes(filters, child, present))
}

impl Walker {
    /// Begins the walk of `root`: the root alone is pending, and its length
    /// is kept for naming what is found beneath it.
    pub fn new(root: String) -> (walker: Walker)
        ensures
            walker@.root_length == root@.len(),
            walker@.pending == seq![root@],
    {
        let root_length = root.as_str().unicode_len();
        let mut pending: Vec<String> = Vec::new();
        pending.push(root);
        assert(pending.deep_view() =~= seq![root@]);
        Walker { root_length, pending }
    }

    /// The number of characters of the root.
    pub fn root_length(&self) -> (length: usize)
        ensures
            length == self@.root_length,
    {
        self.root_length
    }

    /// The number of paths still to be visited.
    pub fn remaining(&self) -> (count: usize)
        ensures
            count == self@.pending.len(),
    {
        self.pending.len()
    }

    /// Takes the path to visit next: the one stacked last. Returns `None`
    /// exactly when nothing is pending, which ends the walk.
    pub fn next(&mut self) -> (path: Option<String>)
        ensures
            final(self)@.root_length == old(self)@.root_length,
            match path {
                Some(p) => old(self)@.pending.len() > 0 && p@ == old(self)@.pending.last()
                    && final(self)@.pending == old(self)@.pending.drop_last(),
                None => old(self)@.pending.len() == 0 && final(self)@ == old(self)@,
            },
    {
        let ghost before = self.pending.deep_view();
        let path = self.pending.pop();
        proof {
            if path.is_some() {
                assert(self.pending.deep_view() =~= before.drop_last());
                assert(before.last() == path.unwrap()@);
            } else {
                assert(self.pending.deep_view() =~= before);
            }
        }
        path
    }

    /// Takes in the listing of the directory that was visited last: each
    /// child that some filter excludes is dropped, with all that lies
    /// beneath it; the others are stacked in the order they were listed.
    /// `present` lists the paths that exist.
    pub fn expand(&mut self, children: &Vec<String>, filters: &Vec<&Filter>, present: &Vec<String>)
        ensures
            final(self)@.root_length == old(self)@.root_length,
            final(self)@.pending == old(self)@.pending + survivors(
                children.deep_view(),
                filter_views(filters@),
                string_set(present@),
            ),
    {
        let ghost before = self.pending.deep_view();
        let ghost listed = children.deep_view();
        let ghost keep = |child: Seq<char>|
            !any_excludes(filter_views(filters@), child, string_set(present@));
        let mut done: usize = 0;
        proof {
            reveal(Seq::filter);
            assert(listed.take(0).filter(keep) =~= Seq::<Seq<char>>::empty());
            assert(self.pending.deep_view() =~= before + listed.take(0).filter(keep));
        }
        while done < children.len()
            invariant
                self.root_length == old(self).root_length,
                done <= children.len(),
                listed == children.deep_view(),
                keep == (|child: Seq<char>|
                    !any_excludes(filter_views(filters@), child, string_set(present@))),
                self.pending.deep_view() == before + listed.take(done as int).filter(keep),
            decreases children.len() - done,
        {
            let child = &children[done];
            assert(child@ == listed[done as int]);
            let excluded = excluded_by_any(filters, child.as_str(), present);
            proof {
                let seen = listed.take(done as int);
                assert(listed.take(done + 1) =~= seen.push(child@));
                seen.lemma_filter_push(child@, keep);
            }
            if !excluded {
                let ghost stacked = self.pending.deep_view();
                self.pending.push(child.clone());
                assert(self.pending.deep_view() =~= stacked.push(child@));
            }
            done += 1;
        }
        proof {
            assert(listed.take(children.len() as int) =~= listed);
        }
    }
}

} // verus!
