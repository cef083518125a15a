//! A model of the disk, and what a walk over it archives.
//!
//! The walk itself is run by a caller who reads a real disk. What can be
//! said of every such walk is said here of a disk held as plain facts:
//! which paths are directories, what each directory lists, which paths
//! exist, and which files cannot be read. A step of the model is a step of
//! [`crate::walker::Walker`]: the last pending path is taken off; a
//! directory leaves behind those of its children that survive the filters,
//! and anything else is handed to the archive.
//!
//! Proved of the model: nothing beneath an excluded directory is archived;
//! a walk that ends archives exactly the readable files it reaches,
//! whatever the order of the listings; on a tree each path is visited at
//! most once; and the walk of a finite tree ends.

use crate::archive::archive_name;
use crate::archive::NameError;
use crate::filter::any_excludes;
use crate::model::FilterView;
use crate::paths::path_file_name;
use crate::walker::survivors;
use vstd::prelude::*;

verus! {

/// The facts of a disk that a walk can observe.
pub struct Disk {
    /// The paths that are directories.
    pub directories: Set<Seq<char>>,
    /// What each directory lists. A directory without a listing cannot be
    /// read, and a walk learns of no child of it.
    pub listings: Map<Seq<char>, Seq<Seq<char>>>,
    /// The paths that exist, as the conditions of filters see them.
    pub present: Set<Seq<char>>,
    /// The files that fail when they are opened or appended.
    pub unreadable: Set<Seq<char>>,
}

/// How far a walk has come.
pub struct Run {
    /// The paths still to be visited; the last one is visited next.
    pub pending: Seq<Seq<char>>,
    /// The files handed to the archive so far, in order.
    pub handed: Seq<Seq<char>>,
    /// The directories visited so far, in order.
    pub listed: Seq<Seq<char>>,
}

impl Run {
    /// Whether the walk has the path pending, has handed it to the archive,
    /// or has listed it.
    pub open spec fn met(self, path: Seq<char>) -> bool {
        self.pending.contains(path) || self.handed.contains(path) || self.listed.contains(path)
    }
}

/// The walk of `root` before its first step.
pub open spec fn begin(root: Seq<char>) -> Run {
    Run { pending: seq![root], handed: Seq::empty(), listed: Seq::empty() }
}

impl Disk {
    /// What the directory lists: nothing where it has no listing.
    pub open spec fn children(self, directory: Seq<char>) -> Seq<Seq<char>> {
        if self.listings.dom().contains(directory) {
            self.listings[directory]
        } else {
            Seq::empty()
        }
    }

    /// The children of the directory that no filter excludes.
    pub open spec fn admitted(self, filters: Seq<FilterView>, directory: Seq<char>) -> Seq<
        Seq<char>,
    > {
        survivors(self.children(directory), filters, self.present)
    }

    /// Whether a walk that visits `directory` goes on to `child`.
    pub open spec fn admits(
        self,
        filters: Seq<FilterView>,
        directory: Seq<char>,
        child: Seq<char>,
    ) -> bool {
        self.directories.contains(directory) && self.admitted(filters, directory).contains(child)
    }

    /// One step of a walk: the visit of the last pending path.
    pub open spec fn step(self, filters: Seq<FilterView>, run: Run) -> Run {
        if run.pending.len() == 0 {
            run
        } else {
            let top = run.pending.last();
            let rest = run.pending.drop_last();
            if self.directories.contains(top) {
                Run {
                    pending: rest + self.admitted(filters, top),
                    handed: run.handed,
                    listed: run.listed.push(top),
                }
            } else {
                Run { pending: rest, handed: run.handed.push(top), listed: run.listed }
            }
        }
    }

    /// Where a walk stands that began at `from` and made `steps` steps.
    pub open spec fn run(self, filters: Seq<FilterView>, from: Run, steps: nat) -> Run
        decreases steps,
    {
        if steps == 0 {
            from
        } else {
            self.run(filters, self.step(filters, from), (steps - 1) as nat)
        }
    }

    /// Where the walk of `root` stands after `steps` steps.
    pub open spec fn walk(self, filters: Seq<FilterView>, root: Seq<char>, steps: nat) -> Run {
        self.run(filters, begin(root), steps)
    }

    /// The files that are in the archive after `steps` steps of the walk of
    /// `root`, where every failure is ignored: those handed to the archive
    /// that can be read.
    pub open spec fn archived(self, filters: Seq<FilterView>, root: Seq<char>, steps: nat) -> Seq<
        Seq<char>,
    > {
        self.walk(filters, root, steps).handed.filter(|p: Seq<char>| !self.unreadable.contains(p))
    }

    /// The names under which those files are stored.
    pub open spec fn stored_names(
        self,
        filters: Seq<FilterView>,
        target_name: Seq<char>,
        root: Seq<char>,
        steps: nat,
    ) -> Set<Seq<char>> {
        Set::new(
            |name: Seq<char>|
                exists|path: Seq<char>|
                    #[trigger] self.archived(filters, root, steps).contains(path) && archive_name(
                        target_name,
                        path,
                        root.len(),
                        path_file_name(path),
                    ) == Ok::<Seq<char>, NameError>(name),
        )
    }

    /// Whether a walk that visits `from` comes to `to` after `hops`
    /// directories, each of which admits the next path.
    pub open spec fn leads_to(
        self,
        filters: Seq<FilterView>,
        from: Seq<char>,
        to: Seq<char>,
        hops: nat,
    ) -> bool
        decreases hops,
    {
        if hops == 0 {
            from == to
        } else {
            exists|via: Seq<char>|
                self.leads_to(filters, from, via, (hops - 1) as nat) && #[trigger] self.admits(
                    filters,
                    via,
                    to,
                )
        }
    }

    /// Whether some number of hops leads from `from` to `to`.
    pub open spec fn reaches(
        self,
        filters: Seq<FilterView>,
        from: Seq<char>,
        to: Seq<char>,
    ) -> bool {
        exists|hops: nat| self.leads_to(filters, from, to, hops)
    }

    /// Whether `entry` lies `depth` listings below `ancestor`, whatever the
    /// filters say of the paths between them.
    pub open spec fn beneath(self, ancestor: Seq<char>, entry: Seq<char>, depth: nat) -> bool
        decreases depth,
    {
        depth > 0 && exists|parent: Seq<char>|
            #[trigger] self.children(parent).contains(entry) && if depth == 1 {
                parent == ancestor
            } else {
                self.beneath(ancestor, parent, (depth - 1) as nat)
            }
    }

    /// No path is listed twice, be it by two directories or by one.
    pub open spec fn is_tree(self) -> bool {
        &&& forall|a: Seq<char>, b: Seq<char>, c: Seq<char>|
            #[trigger] self.children(a).contains(c) && #[trigger] self.children(b).contains(c)
                ==> a == b
        &&& forall|d: Seq<char>| (#[trigger] self.children(d)).no_duplicates()
    }

    /// No directory lists `root`.
    pub open spec fn has_top(self, root: Seq<char>) -> bool {
        forall|d: Seq<char>| !(#[trigger] self.children(d).contains(root))
    }

    /// The two disks hold the same facts, but a directory may list its
    /// children in another order.
    pub open spec fn same_but_for_order(self, other: Disk) -> bool {
        &&& self.directories == other.directories
        &&& self.present == other.present
        &&& self.unreadable == other.unreadable
        &&& forall|d: Seq<char>, c: Seq<char>|
            #![trigger self.children(d).contains(c)]
            #![trigger other.children(d).contains(c)]
            self.children(d).contains(c) == other.children(d).contains(c)
    }

    /// Whether the directories below `path` nest at most `height` deep. A
    /// listing is a finite sequence, so a tree of bounded height is a
    /// finite tree.
    pub open spec fn height_within(self, path: Seq<char>, height: nat) -> bool
        decreases height,
    {
        if self.directories.contains(path) {
            height > 0 && forall|child: Seq<char>| #[trigger]
                self.children(path).contains(child) ==> self.height_within(
                    child,
                    (height - 1) as nat,
                )
        } else {
            true
        }
    }

    /// No path is pending, handed or listed twice, or in two of these ways,
    /// and nothing the walk has met lies beneath a pending path.
    pub open spec fn each_once(self, run: Run) -> bool {
        &&& run.pending.no_duplicates()
        &&& run.handed.no_duplicates()
        &&& run.listed.no_duplicates()
        &&& forall|p: Seq<char>|
            #![trigger run.pending.contains(p)]
            #![trigger run.handed.contains(p)]
            !(run.pending.contains(p) && run.handed.contains(p))
        &&& forall|p: Seq<char>|
            #![trigger run.pending.contains(p)]
            #![trigger run.listed.contains(p)]
            !(run.pending.contains(p) && run.listed.contains(p))
        &&& forall|p: Seq<char>|
            #![trigger run.handed.contains(p)]
            #![trigger run.listed.contains(p)]
            !(run.handed.contains(p) && run.listed.contains(p))
        &&& forall|p: Seq<char>, x: Seq<char>, depth: nat|
            run.pending.contains(p) && run.met(x) ==> !(#[trigger] self.beneath(p, x, depth))
    }

    /// Every pending or handed path is reached from `root`, and nothing
    /// handed is a directory.
    pub open spec fn sound(self, filters: Seq<FilterView>, root: Seq<char>, run: Run) -> bool {
        &&& forall|p: Seq<char>| #[trigger]
            run.pending.contains(p) ==> self.reaches(filters, root, p)
        &&& forall|p: Seq<char>| #[trigger]
            run.handed.contains(p) ==> self.reaches(filters, root, p)
                && !self.directories.contains(p)
    }

    /// Every file reached from `root` is handed already or is still reached
    /// from a pending path.
    pub open spec fn covering(self, filters: Seq<FilterView>, root: Seq<char>, run: Run) -> bool {
        forall|p: Seq<char>|
            #[trigger] self.reaches(filters, root, p) && !self.directories.contains(p)
                ==> run.handed.contains(p) || exists|x: Seq<char>|
                #[trigger] run.pending.contains(x) && self.reaches(filters, x, p)
    }
}

/// A filtered sequence holds exactly the items of the sequence that pass.
pub proof fn lemma_filter_membership<A>(items: Seq<A>, pass: spec_fn(A) -> bool, item: A)
    ensures
        items.filter(pass).contains(item) <==> items.contains(item) && pass(item),
{
    if items.filter(pass).contains(item) {
        items.lemma_filter_contains_rev(pass, item);
        let i = choose|i: int| 0 <= i < items.filter(pass).len() && items.filter(pass)[i] == item;
        items.lemma_filter_pred(pass, i);
    }
    if items.contains(item) && pass(item) {
        let i = choose|i: int| 0 <= i < items.len() && items[i] == item;
        items.lemma_filter_contains(pass, i);
    }
}

/// A directory admits a child exactly when it lists the child and no
/// filter excludes it.
pub proof fn lemma_admits(
    disk: Disk,
    filters: Seq<FilterView>,
    directory: Seq<char>,
    child: Seq<char>,
)
    ensures
        disk.admits(filters, directory, child) <==> disk.directories.contains(directory)
            && disk.children(directory).contains(child) && !any_excludes(
            filters,
            child,
            disk.present,
        ),
{
    lemma_filter_membership(
        disk.children(directory),
        |c: Seq<char>| !any_excludes(filters, c, disk.present),
        child,
    );
}

/// A path that leads somewhere in one hop or more leaves its start through
/// a child that the start admits.
pub proof fn lemma_first_hop(
    disk: Disk,
    filters: Seq<FilterView>,
    from: Seq<char>,
    to: Seq<char>,
    hops: nat,
)
    requires
        hops > 0,
        disk.leads_to(filters, from, to, hops),
    ensures
        exists|child: Seq<char>| #[trigger]
            disk.admits(filters, from, child) && disk.leads_to(
                filters,
                child,
                to,
                (hops - 1) as nat,
            ),
    decreases hops,
{
    let via = choose|via: Seq<char>|
        disk.leads_to(filters, from, via, (hops - 1) as nat) && #[trigger] disk.admits(
            filters,
            via,
            to,
        );
    if hops == 1 {
        assert(from == via);
        assert(disk.leads_to(filters, to, to, 0));
        assert(disk.admits(filters, from, to));
    } else {
        lemma_first_hop(disk, filters, from, via, (hops - 1) as nat);
        let child = choose|child: Seq<char>| #[trigger]
            disk.admits(filters, from, child) && disk.leads_to(
                filters,
                child,
                via,
                (hops - 2) as nat,
            );
        assert(disk.admits(filters, via, to));
        assert(disk.leads_to(filters, child, to, (hops - 1) as nat));
        assert(disk.admits(filters, from, child));
    }
}

/// A step keeps a sound run sound.
pub proof fn lemma_step_sound(disk: Disk, filters: Seq<FilterView>, root: Seq<char>, run: Run)
    requires
        disk.sound(filters, root, run),
    ensures
        disk.sound(filters, root, disk.step(filters, run)),
{
    let next = disk.step(filters, run);
    if run.pending.len() > 0 {
        let top = run.pending.last();
        let rest = run.pending.drop_last();
        assert(run.pending.contains(top));
        assert forall|p: Seq<char>| #[trigger] next.pending.contains(p) implies disk.reaches(
            filters,
            root,
            p,
        ) by {
            let i = choose|i: int| 0 <= i < next.pending.len() && next.pending[i] == p;
            if i < rest.len() {
                assert(run.pending[i] == p);
                assert(run.pending.contains(p));
            } else {
                let kept = disk.admitted(filters, top);
                assert(kept[i - rest.len()] == p);
                assert(kept.contains(p));
                assert(disk.admits(filters, top, p));
                let hops = choose|hops: nat| disk.leads_to(filters, root, top, hops);
                assert(disk.leads_to(filters, root, p, hops + 1));
            }
        }
        assert forall|p: Seq<char>| #[trigger] next.handed.contains(p) implies disk.reaches(
            filters,
            root,
            p,
        ) && !disk.directories.contains(p) by {
            let i = choose|i: int| 0 <= i < next.handed.len() && next.handed[i] == p;
            if i < run.handed.len() {
                assert(run.handed[i] == p);
                assert(run.handed.contains(p));
            }
        }
    }
}

/// A sound run stays sound however many steps are made.
pub proof fn lemma_run_sound(
    disk: Disk,
    filters: Seq<FilterView>,
    root: Seq<char>,
    from: Run,
    steps: nat,
)
    requires
        disk.sound(filters, root, from),
    ensures
        disk.sound(filters, root, disk.run(filters, from, steps)),
    decreases steps,
{
    if steps > 0 {
        lemma_step_sound(disk, filters, root, from);
        lemma_run_sound(disk, filters, root, disk.step(filters, from), (steps - 1) as nat);
    }
}

/// A step keeps a covering run covering.
pub proof fn lemma_step_covering(disk: Disk, filters: Seq<FilterView>, root: Seq<char>, run: Run)
    requires
        disk.covering(filters, root, run),
    ensures
        disk.covering(filters, root, disk.step(filters, run)),
{
    let next = disk.step(filters, run);
    if run.pending.len() > 0 {
        let top = run.pending.last();
        let rest = run.pending.drop_last();
        assert forall|p: Seq<char>|
            #[trigger] disk.reaches(filters, root, p) && !disk.directories.contains(
                p,
            ) implies next.handed.contains(p) || exists|x: Seq<char>|
            #[trigger] next.pending.contains(x) && disk.reaches(filters, x, p) by {
            if run.handed.contains(p) {
                let i = choose|i: int| 0 <= i < run.handed.len() && run.handed[i] == p;
                assert(next.handed[i] == p);
            } else {
                let x = choose|x: Seq<char>|
                    #[trigger] run.pending.contains(x) && disk.reaches(filters, x, p);
                let hops = choose|hops: nat| disk.leads_to(filters, x, p, hops);
                if x == top {
                    if hops == 0 {
                        assert(next.handed.last() == p);
                    } else {
                        lemma_first_hop(disk, filters, top, p, hops);
                        let child = choose|child: Seq<char>| #[trigger]
                            disk.admits(filters, top, child) && disk.leads_to(
                                filters,
                                child,
                                p,
                                (hops - 1) as nat,
                            );
                        let kept = disk.admitted(filters, top);
                        let j = choose|j: int| 0 <= j < kept.len() && kept[j] == child;
                        assert(next.pending[rest.len() + j] == child);
                        assert(next.pending.contains(child));
                        assert(disk.reaches(filters, child, p));
                    }
                } else {
                    let i = choose|i: int| 0 <= i < run.pending.len() && run.pending[i] == x;
                    assert(next.pending[i] == x);
                    assert(next.pending.contains(x));
                }
            }
        }
    }
}

/// A covering run stays covering however many steps are made.
pub proof fn lemma_run_covering(
    disk: Disk,
    filters: Seq<FilterView>,
    root: Seq<char>,
    from: Run,
    steps: nat,
)
    requires
        disk.covering(filters, root, from),
    ensures
        disk.covering(filters, root, disk.run(filters, from, steps)),
    decreases steps,
{
    if steps > 0 {
        lemma_step_covering(disk, filters, root, from);
        lemma_run_covering(disk, filters, root, disk.step(filters, from), (steps - 1) as nat);
    }
}

/// Whatever a walk hands to the archive is a file that the walk reaches
/// from its root through directories that each admit the next path.
pub proof fn lemma_handed_is_reached(
    disk: Disk,
    filters: Seq<FilterView>,
    root: Seq<char>,
    steps: nat,
    path: Seq<char>,
)
    requires
        disk.walk(filters, root, steps).handed.contains(path),
    ensures
        disk.reaches(filters, root, path),
        !disk.directories.contains(path),
{
    assert(disk.leads_to(filters, root, root, 0));
    lemma_run_sound(disk, filters, root, begin(root), steps);
}

/// A walk that has come to its end has handed over every file that it
/// reaches from its root.
pub proof fn lemma_reached_is_handed(
    disk: Disk,
    filters: Seq<FilterView>,
    root: Seq<char>,
    steps: nat,
    path: Seq<char>,
)
    requires
        disk.walk(filters, root, steps).pending.len() == 0,
        disk.reaches(filters, root, path),
        !disk.directories.contains(path),
    ensures
        disk.walk(filters, root, steps).handed.contains(path),
{
    assert(begin(root).pending[0] == root);
    assert(begin(root).pending.contains(root));
    lemma_run_covering(disk, filters, root, begin(root), steps);
}

/// On a tree, a path that the walk reaches has no excluded directory
/// above it, short of the root.
pub proof fn lemma_way_down_is_not_excluded(
    disk: Disk,
    filters: Seq<FilterView>,
    root: Seq<char>,
    directory: Seq<char>,
    entry: Seq<char>,
    hops: nat,
    depth: nat,
)
    requires
        disk.is_tree(),
        disk.has_top(root),
        directory != root,
        disk.leads_to(filters, root, entry, hops),
        disk.beneath(directory, entry, depth),
    ensures
        !any_excludes(filters, directory, disk.present),
    decreases depth,
{
    let parent = choose|parent: Seq<char>|
        #[trigger] disk.children(parent).contains(entry) && if depth == 1 {
            parent == directory
        } else {
            disk.beneath(directory, parent, (depth - 1) as nat)
        };
    if hops == 0 {
        assert(disk.children(parent).contains(root));
    } else {
        let via = choose|via: Seq<char>|
            disk.leads_to(filters, root, via, (hops - 1) as nat) && #[trigger] disk.admits(
                filters,
                via,
                entry,
            );
        lemma_admits(disk, filters, via, entry);
        assert(disk.children(via).contains(entry));
        assert(via == parent);
        if depth == 1 {
            if hops > 1 {
                let above = choose|above: Seq<char>|
                    disk.leads_to(filters, root, above, (hops - 2) as nat)
                        && #[trigger] disk.admits(filters, above, directory);
                lemma_admits(disk, filters, above, directory);
            }
        } else {
            lemma_way_down_is_not_excluded(
                disk,
                filters,
                root,
                directory,
                via,
                (hops - 1) as nat,
                (depth - 1) as nat,
            );
        }
    }
}

/// Pruning. On a tree walked from its top, nothing that lies beneath an
/// excluded directory, at whatever depth, is handed to the archive or
/// stored in it, however many steps the walk makes and whatever the
/// directory holds. The root itself is never put to the filters, so the
/// directory is one below it.
pub proof fn lemma_nothing_beneath_an_excluded_directory_is_archived(
    disk: Disk,
    filters: Seq<FilterView>,
    root: Seq<char>,
    steps: nat,
    directory: Seq<char>,
    entry: Seq<char>,
    depth: nat,
)
    requires
        disk.is_tree(),
        disk.has_top(root),
        directory != root,
        any_excludes(filters, directory, disk.present),
        disk.beneath(directory, entry, depth),
    ensures
        !disk.walk(filters, root, steps).handed.contains(entry),
        !disk.archived(filters, root, steps).contains(entry),
{
    if disk.walk(filters, root, steps).handed.contains(entry) {
        lemma_handed_is_reached(disk, filters, root, steps, entry);
        let hops = choose|hops: nat| disk.leads_to(filters, root, entry, hops);
        lemma_way_down_is_not_excluded(disk, filters, root, directory, entry, hops, depth);
    }
    lemma_filter_membership(
        disk.walk(filters, root, steps).handed,
        |p: Seq<char>| !disk.unreadable.contains(p),
        entry,
    );
}

/// Two disks that differ only in the order of their listings lead a walk
/// to the same paths.
pub proof fn lemma_leads_to_whatever_the_order(
    first: Disk,
    second: Disk,
    filters: Seq<FilterView>,
    from: Seq<char>,
    to: Seq<char>,
    hops: nat,
)
    requires
        first.same_but_for_order(second),
        first.leads_to(filters, from, to, hops),
    ensures
        second.leads_to(filters, from, to, hops),
    decreases hops,
{
    if hops > 0 {
        let via = choose|via: Seq<char>|
            first.leads_to(filters, from, via, (hops - 1) as nat) && #[trigger] first.admits(
                filters,
                via,
                to,
            );
        lemma_leads_to_whatever_the_order(first, second, filters, from, via, (hops - 1) as nat);
        lemma_admits(first, filters, via, to);
        lemma_admits(second, filters, via, to);
        assert(first.children(via).contains(to));
        assert(second.admits(filters, via, to));
    }
}

/// A walk that has come to its end has in its archive, where every failure
/// is ignored, exactly the readable files that it reaches from its root.
pub proof fn lemma_archived_is_reached_and_readable(
    disk: Disk,
    filters: Seq<FilterView>,
    root: Seq<char>,
    steps: nat,
    path: Seq<char>,
)
    requires
        disk.walk(filters, root, steps).pending.len() == 0,
    ensures
        disk.archived(filters, root, steps).contains(path) <==> disk.reaches(filters, root, path)
            && !disk.directories.contains(path) && !disk.unreadable.contains(path),
{
    lemma_filter_membership(
        disk.walk(filters, root, steps).handed,
        |p: Seq<char>| !disk.unreadable.contains(p),
        path,
    );
    if disk.walk(filters, root, steps).handed.contains(path) {
        lemma_handed_is_reached(disk, filters, root, steps, path);
    }
    if disk.reaches(filters, root, path) && !disk.directories.contains(path) {
        lemma_reached_is_handed(disk, filters, root, steps, path);
    }
}

/// Two walks of the same root to their ends, over disks that hold the same
/// facts and differ at most in the order in which directories list their
/// children, with every failure ignored, put the same files into the
/// archive under the same set of names. The order in which they do so may
/// differ.
pub proof fn lemma_names_do_not_depend_on_listing_order(
    first: Disk,
    second: Disk,
    filters: Seq<FilterView>,
    target_name: Seq<char>,
    root: Seq<char>,
    first_steps: nat,
    second_steps: nat,
)
    requires
        first.same_but_for_order(second),
        first.walk(filters, root, first_steps).pending.len() == 0,
        second.walk(filters, root, second_steps).pending.len() == 0,
    ensures
        first.archived(filters, root, first_steps).to_set() == second.archived(
            filters,
            root,
            second_steps,
        ).to_set(),
        first.stored_names(filters, target_name, root, first_steps) == second.stored_names(
            filters,
            target_name,
            root,
            second_steps,
        ),
{
    let one = first.archived(filters, root, first_steps);
    let two = second.archived(filters, root, second_steps);
    assert forall|path: Seq<char>| one.contains(path) == two.contains(path) by {
        lemma_archived_is_reached_and_readable(first, filters, root, first_steps, path);
        lemma_archived_is_reached_and_readable(second, filters, root, second_steps, path);
        if first.reaches(filters, root, path) {
            let hops = choose|hops: nat| first.leads_to(filters, root, path, hops);
            lemma_leads_to_whatever_the_order(first, second, filters, root, path, hops);
        }
        if second.reaches(filters, root, path) {
            let hops = choose|hops: nat| second.leads_to(filters, root, path, hops);
            lemma_leads_to_whatever_the_order(second, first, filters, root, path, hops);
        }
    }
    assert(one.to_set() =~= two.to_set());
    let names_one = first.stored_names(filters, target_name, root, first_steps);
    let names_two = second.stored_names(filters, target_name, root, second_steps);
    assert forall|name: Seq<char>| names_one.contains(name) == names_two.contains(name) by {
        if names_one.contains(name) {
            let path = choose|path: Seq<char>|
                #[trigger] one.contains(path) && archive_name(
                    target_name,
                    path,
                    root.len(),
                    path_file_name(path),
                ) == Ok::<Seq<char>, NameError>(name);
            assert(two.contains(path));
        }
        if names_two.contains(name) {
            let path = choose|path: Seq<char>|
                #[trigger] two.contains(path) && archive_name(
                    target_name,
                    path,
                    root.len(),
                    path_file_name(path),
                ) == Ok::<Seq<char>, NameError>(name);
            assert(one.contains(path));
        }
    }
    assert(names_one =~= names_two);
}

/// Filtering a sequence without duplicates leaves none.
pub proof fn lemma_filter_keeps_distinct<A>(items: Seq<A>, pass: spec_fn(A) -> bool)
    requires
        items.no_duplicates(),
    ensures
        items.filter(pass).no_duplicates(),
    decreases items.len(),
{
    reveal(Seq::filter);
    if items.len() > 0 {
        let front = items.drop_last();
        lemma_filter_keeps_distinct(front, pass);
        if pass(items.last()) {
            if front.filter(pass).contains(items.last()) {
                front.lemma_filter_contains_rev(pass, items.last());
                let i = choose|i: int| 0 <= i < front.len() && front[i] == items.last();
                assert(items[i] == items[items.len() - 1]);
            }
            lemma_push_keeps_distinct(front.filter(pass), items.last());
        }
    }
}

/// A sequence without duplicates has none once an item that it lacks is
/// pushed.
pub proof fn lemma_push_keeps_distinct<A>(items: Seq<A>, item: A)
    requires
        items.no_duplicates(),
        !items.contains(item),
    ensures
        items.push(item).no_duplicates(),
{
    let longer = items.push(item);
    assert forall|i: int, j: int|
        0 <= i < longer.len() && 0 <= j < longer.len() && i != j implies longer[i]
        != longer[j] by {
        if i < items.len() && j < items.len() {
        } else if i < items.len() {
            assert(items.contains(items[i]));
        } else {
            assert(items.contains(items[j]));
        }
    }
}

/// What a directory lists lies one listing beneath it.
pub proof fn lemma_child_is_beneath(disk: Disk, directory: Seq<char>, child: Seq<char>)
    requires
        disk.children(directory).contains(child),
    ensures
        disk.beneath(directory, child, 1),
{
}

/// What lies beneath a child of a directory lies one listing deeper
/// beneath the directory.
pub proof fn lemma_beneath_a_child(
    disk: Disk,
    directory: Seq<char>,
    child: Seq<char>,
    entry: Seq<char>,
    depth: nat,
)
    requires
        disk.children(directory).contains(child),
        disk.beneath(child, entry, depth),
    ensures
        disk.beneath(directory, entry, depth + 1),
    decreases depth,
{
    let parent = choose|parent: Seq<char>|
        #[trigger] disk.children(parent).contains(entry) && if depth == 1 {
            parent == child
        } else {
            disk.beneath(child, parent, (depth - 1) as nat)
        };
    if depth == 1 {
        lemma_child_is_beneath(disk, directory, child);
    } else {
        lemma_beneath_a_child(disk, directory, child, parent, (depth - 1) as nat);
    }
    assert(disk.children(parent).contains(entry) && disk.beneath(directory, parent, depth));
}

/// On a tree, whatever a listed path lies beneath is the directory that
/// lists it, or something that directory lies beneath.
pub proof fn lemma_beneath_goes_through_the_parent(
    disk: Disk,
    ancestor: Seq<char>,
    directory: Seq<char>,
    child: Seq<char>,
    depth: nat,
)
    requires
        disk.is_tree(),
        disk.children(directory).contains(child),
        disk.beneath(ancestor, child, depth),
    ensures
        depth == 1 ==> ancestor == directory,
        depth != 1 ==> disk.beneath(ancestor, directory, (depth - 1) as nat),
{
    let parent = choose|parent: Seq<char>|
        #[trigger] disk.children(parent).contains(child) && if depth == 1 {
            parent == ancestor
        } else {
            disk.beneath(ancestor, parent, (depth - 1) as nat)
        };
    assert(parent == directory);
}

/// On a tree, a step keeps a run in which each path is met once so.
pub proof fn lemma_step_each_once(disk: Disk, filters: Seq<FilterView>, run: Run)
    requires
        disk.is_tree(),
        disk.each_once(run),
    ensures
        disk.each_once(disk.step(filters, run)),
{
    let next = disk.step(filters, run);
    if run.pending.len() > 0 {
        let top = run.pending.last();
        let rest = run.pending.drop_last();
        let last = run.pending.len() - 1;
        assert(run.pending[last] == top);
        assert(run.pending.contains(top));
        assert(run.met(top));
        assert forall|p: Seq<char>| rest.contains(p) implies run.pending.contains(p) && p
            != top by {
            let i = choose|i: int| 0 <= i < rest.len() && rest[i] == p;
            assert(run.pending[i] == p);
        }
        assert(rest.no_duplicates()) by {
            assert forall|i: int, j: int|
                0 <= i < rest.len() && 0 <= j < rest.len() && i != j implies rest[i]
                != rest[j] by {
                assert(run.pending[i] == rest[i] && run.pending[j] == rest[j]);
            }
        }
        if disk.directories.contains(top) {
            let kept = disk.admitted(filters, top);
            let pass = |c: Seq<char>| !any_excludes(filters, c, disk.present);
            lemma_filter_keeps_distinct(disk.children(top), pass);
            assert forall|c: Seq<char>| kept.contains(c) implies disk.children(top).contains(c)
                && disk.beneath(top, c, 1) && !run.met(c) by {
                lemma_filter_membership(disk.children(top), pass, c);
                lemma_child_is_beneath(disk, top, c);
            }
            assert forall|p: Seq<char>| next.pending.contains(p) implies rest.contains(p)
                || kept.contains(p) by {
                let i = choose|i: int| 0 <= i < next.pending.len() && next.pending[i] == p;
                if i < rest.len() {
                    assert(rest[i] == p);
                } else {
                    assert(kept[i - rest.len()] == p);
                }
            }
            assert forall|p: Seq<char>| next.listed.contains(p) implies run.listed.contains(p)
                || p == top by {
                let i = choose|i: int| 0 <= i < next.listed.len() && next.listed[i] == p;
                if i < run.listed.len() {
                    assert(run.listed[i] == p);
                }
            }
            assert(next.pending.no_duplicates()) by {
                assert forall|i: int, j: int|
                    0 <= i < rest.len() && 0 <= j < kept.len() implies rest[i] != kept[j] by {
                    assert(rest.contains(rest[i]));
                    assert(kept.contains(kept[j]));
                }
                vstd::seq_lib::lemma_no_dup_in_concat(rest, kept);
            }
            lemma_push_keeps_distinct(run.listed, top);
            assert forall|p: Seq<char>| next.pending.contains(p) implies !next.handed.contains(
                p,
            ) && !next.listed.contains(p) by {
                if kept.contains(p) {
                    assert(!run.met(p));
                    assert(disk.beneath(top, p, 1));
                } else {
                    assert(rest.contains(p));
                    assert(run.pending.contains(p));
                }
            }
            assert forall|p: Seq<char>, x: Seq<char>, depth: nat|
                next.pending.contains(p) && next.met(x) implies !(#[trigger] disk.beneath(
                p,
                x,
                depth,
            )) by {
                if disk.beneath(p, x, depth) {
                    if kept.contains(x) {
                        lemma_beneath_goes_through_the_parent(disk, p, top, x, depth);
                        if depth != 1 {
                            if kept.contains(p) {
                                lemma_beneath_a_child(disk, top, p, top, (depth - 1) as nat);
                                assert(disk.beneath(top, top, depth));
                            } else {
                                assert(disk.beneath(p, top, (depth - 1) as nat));
                            }
                        }
                    } else {
                        assert(run.met(x));
                        if kept.contains(p) {
                            lemma_beneath_a_child(disk, top, p, x, depth);
                            assert(disk.beneath(top, x, depth + 1));
                        }
                    }
                }
            }
        } else {
            assert forall|p: Seq<char>| next.handed.contains(p) implies run.handed.contains(p)
                || p == top by {
                let i = choose|i: int| 0 <= i < next.handed.len() && next.handed[i] == p;
                if i < run.handed.len() {
                    assert(run.handed[i] == p);
                }
            }
            lemma_push_keeps_distinct(run.handed, top);
            assert forall|p: Seq<char>| next.pending.contains(p) implies !next.handed.contains(
                p,
            ) && !next.listed.contains(p) by {
                assert(rest.contains(p));
                assert(run.pending.contains(p));
            }
        }
    }
}

/// On a tree, a run in which each path is met once stays so however many
/// steps are made.
pub proof fn lemma_run_each_once(disk: Disk, filters: Seq<FilterView>, from: Run, steps: nat)
    requires
        disk.is_tree(),
        disk.each_once(from),
    ensures
        disk.each_once(disk.run(filters, from, steps)),
    decreases steps,
{
    if steps > 0 {
        lemma_step_each_once(disk, filters, from);
        lemma_run_each_once(disk, filters, disk.step(filters, from), (steps - 1) as nat);
    }
}

/// On a tree walked from its top, however many steps the walk makes, no
/// file is handed to the archive twice, no directory is listed twice, and
/// no path is both.
pub proof fn lemma_each_path_is_visited_once(
    disk: Disk,
    filters: Seq<FilterView>,
    root: Seq<char>,
    steps: nat,
)
    requires
        disk.is_tree(),
        disk.has_top(root),
    ensures
        disk.walk(filters, root, steps).handed.no_duplicates(),
        disk.walk(filters, root, steps).listed.no_duplicates(),
        disk.archived(filters, root, steps).no_duplicates(),
        forall|p: Seq<char>|
            !(#[trigger] disk.walk(filters, root, steps).handed.contains(p) && disk.walk(
                filters,
                root,
                steps,
            ).listed.contains(p)),
{
    let start = begin(root);
    assert forall|p: Seq<char>, x: Seq<char>, depth: nat|
        start.pending.contains(p) && start.met(x) implies !(#[trigger] disk.beneath(
        p,
        x,
        depth,
    )) by {
        if disk.beneath(p, x, depth) {
            let parent = choose|parent: Seq<char>|
                #[trigger] disk.children(parent).contains(x) && if depth == 1 {
                    parent == p
                } else {
                    disk.beneath(p, parent, (depth - 1) as nat)
                };
            assert(x == root);
        }
    }
    lemma_run_each_once(disk, filters, start, steps);
    lemma_filter_keeps_distinct(
        disk.walk(filters, root, steps).handed,
        |p: Seq<char>| !disk.unreadable.contains(p),
    );
}

/// Steps add up.
pub proof fn lemma_run_in_two_parts(
    disk: Disk,
    filters: Seq<FilterView>,
    from: Run,
    first: nat,
    second: nat,
)
    ensures
        disk.run(filters, disk.run(filters, from, first), second) == disk.run(
            filters,
            from,
            first + second,
        ),
    decreases first,
{
    if first > 0 {
        lemma_run_in_two_parts(
            disk,
            filters,
            disk.step(filters, from),
            (first - 1) as nat,
            second,
        );
    }
}

/// Where the last `count` pending paths each head a tree of bounded
/// height, some number of steps visits them with all beneath them and
/// leaves the paths before them pending.
pub proof fn lemma_pending_paths_are_worked_off(
    disk: Disk,
    filters: Seq<FilterView>,
    from: Run,
    count: nat,
    height: nat,
) -> (steps: nat)
    requires
        count <= from.pending.len(),
        forall|i: int|
            from.pending.len() - count <= i < from.pending.len() ==> disk.height_within(
                #[trigger] from.pending[i],
                height,
            ),
    ensures
        disk.run(filters, from, steps).pending == from.pending.take(from.pending.len() - count),
    decreases height, count,
{
    if count == 0 {
        assert(from.pending.take(from.pending.len() as int) =~= from.pending);
        0
    } else {
        let top = from.pending.last();
        let rest = from.pending.drop_last();
        let next = disk.step(filters, from);
        assert(disk.height_within(from.pending[from.pending.len() - 1], height));
        let below: nat = if disk.directories.contains(top) {
            let kept = disk.admitted(filters, top);
            assert forall|i: int|
                next.pending.len() - kept.len() <= i < next.pending.len() implies #[trigger]
                disk.height_within(next.pending[i], (height - 1) as nat) by {
                let child = kept[i - rest.len()];
                assert(next.pending[i] == child);
                assert(kept.contains(child));
                lemma_filter_membership(
                    disk.children(top),
                    |c: Seq<char>| !any_excludes(filters, c, disk.present),
                    child,
                );
            }
            let below = lemma_pending_paths_are_worked_off(
                disk,
                filters,
                next,
                kept.len(),
                (height - 1) as nat,
            );
            assert(next.pending.take(next.pending.len() - kept.len()) =~= rest);
            below
        } else {
            0
        };
        let middle = disk.run(filters, next, below);
        assert(middle.pending == rest);
        assert forall|i: int|
            middle.pending.len() - (count - 1) <= i < middle.pending.len() implies #[trigger]
            disk.height_within(middle.pending[i], height) by {
            assert(middle.pending[i] == from.pending[i]);
        }
        let after = lemma_pending_paths_are_worked_off(
            disk,
            filters,
            middle,
            (count - 1) as nat,
            height,
        );
        lemma_run_in_two_parts(disk, filters, next, below, after);
        assert(rest.take(rest.len() - (count - 1)) =~= from.pending.take(
            from.pending.len() - count,
        ));
        assert(disk.run(filters, from, 1 + below + after) == disk.run(
            filters,
            next,
            below + after,
        ));
        1 + below + after
    }
}

/// Termination. The walk of a finite tree ends: where the directories
/// below the root nest at most `height` deep, some number of steps leaves
/// nothing pending.
pub proof fn lemma_walk_of_a_finite_tree_ends(
    disk: Disk,
    filters: Seq<FilterView>,
    root: Seq<char>,
    height: nat,
) -> (steps: nat)
    requires
        disk.height_within(root, height),
    ensures
        disk.walk(filters, root, steps).pending.len() == 0,
{
    let start = begin(root);
    assert(start.pending[0] == root);
    let steps = lemma_pending_paths_are_worked_off(disk, filters, start, 1, height);
    assert(start.pending.take(0).len() == 0);
    steps
}

} // verus!
