//! Archive paths built component by component.
//!
//! Beside cutting a root's length off the front of a path, an entry can be
//! placed by comparing its path with a base, one component at a time: each
//! component that equals the base's at the same position is dropped, and
//! the others are kept in order. An entry of which nothing is left, as the
//! base itself, is placed by its file name.

use crate::archive::NameError;
use crate::paths::components_of;
use crate::paths::file_name_of;
use crate::paths::join;
use crate::paths::path_components;
use crate::paths::path_file_name;
use crate::paths::path_join;
use vstd::prelude::*;

verus! {

/// The components of `target` that differ from the component of `filter`
/// at the same position, or lie past its end, in order.
pub open spec fn unshared(target: Seq<Seq<char>>, filter: Seq<Seq<char>>) -> Seq<Seq<char>>
    decreases target.len(),
{
    if target.len() == 0 {
        target
    } else {
        let last = target.len() - 1;
        let front = unshared(target.drop_last(), filter);
        if last < filter.len() && target[last] == filter[last] {
            front
        } else {
            front.push(target[last])
        }
    }
}

/// The path that results from joining `parts` onto `base`, one after the
/// other.
pub open spec fn joined_onto(base: Seq<char>, parts: Seq<Seq<char>>) -> Seq<char>
    decreases parts.len(),
{
    if parts.len() == 0 {
        base
    } else {
        path_join(joined_onto(base, parts.drop_last()), parts.last())
    }
}

/// Where an entry is stored, given the components that are left of its
/// path and its file name: beneath the target's name, at what is left,
/// or at the file name where nothing is left.
pub open spec fn placed_at(
    target_name: Seq<char>,
    rest: Seq<Seq<char>>,
    file_name: Option<Seq<char>>,
) -> Result<Seq<char>, NameError> {
    let top = path_join(Seq::empty(), target_name);
    if rest.len() > 0 {
        Ok(path_join(top, joined_onto(Seq::empty(), rest)))
    } else {
        match file_name {
            Some(name) => Ok(path_join(top, name)),
            None => Err(NameError::NoFileName),
        }
    }
}

/// Where an entry is stored when it is placed by components: the target's
/// name, then what is left of the entry's path once the components it
/// shares with the target's own path are dropped.
pub open spec fn placed(
    target_name: Seq<char>,
    entry_path: Seq<char>,
    target_path: Seq<char>,
) -> Result<Seq<char>, NameError> {
    placed_at(
        target_name,
        unshared(path_components(entry_path), path_components(target_path)),
        path_file_name(entry_path),
    )
}

/// Whether a computed place is the one that the rule gives.
pub open spec fn places(
    computed: Result<String, NameError>,
    due: Result<Seq<char>, NameError>,
) -> bool {
    match computed {
        Ok(stored) => due == Ok::<Seq<char>, NameError>(stored@),
        Err(error) => due == Err::<Seq<char>, NameError>(error),
    }
}

/// Joins `child` onto `parent`.
pub fn append_paths(parent: &str, child: &str) -> (path: String)
    ensures
        path@ == path_join(parent@, child@),
{
    join(parent, child)
}

/// Drops from `target` each component that `filter` holds at the same
/// position.
pub fn trim_components(target: &Vec<String>, filter: &Vec<String>) -> (kept: Vec<String>)
    ensures
        kept.deep_view() == unshared(target.deep_view(), filter.deep_view()),
{
    let mut kept: Vec<String> = Vec::new();
    let mut i: usize = 0;
    assert(kept.deep_view() =~= unshared(target.deep_view().take(0), filter.deep_view()));
    while i < target.len()
        invariant
            i <= target.len(),
            kept.deep_view() == unshared(target.deep_view().take(i as int), filter.deep_view()),
        decreases target.len() - i,
    {
        let shared = i < filter.len() && target[i] == filter[i];
        proof {
            let seen = target.deep_view().take(i + 1);
            assert(seen.drop_last() =~= target.deep_view().take(i as int));
            assert(seen[i as int] == target@[i as int]@);
            if i < filter.len() {
                assert(filter.deep_view()[i as int] == filter@[i as int]@);
            }
        }
        if !shared {
            let ghost before = kept.deep_view();
            kept.push(target[i].clone());
            assert(kept.deep_view() =~= before.push(target@[i as int]@));
        }
        i += 1;
    }
    assert(target.deep_view().take(target.len() as int) =~= target.deep_view());
    kept
}

/// Joins `parts`, one after the other, onto the empty path.
pub fn join_components(parts: &Vec<String>) -> (path: String)
    ensures
        path@ == joined_onto(Seq::empty(), parts.deep_view()),
{
    let mut path = String::new();
    let mut i: usize = 0;
    while i < parts.len()
        invariant
            i <= parts.len(),
            path@ == joined_onto(Seq::empty(), parts.deep_view().take(i as int)),
        decreases parts.len() - i,
    {
        proof {
            let seen = parts.deep_view().take(i + 1);
            assert(seen.drop_last() =~= parts.deep_view().take(i as int));
            assert(seen.last() == parts@[i as int]@);
        }
        path = join(path.as_str(), parts[i].as_str());
        i += 1;
    }
    assert(parts.deep_view().take(parts.len() as int) =~= parts.deep_view());
    path
}

/// Drops from the path `target` each component that the path `filter` holds
/// at the same position, and joins what is left.
pub fn trim_duplicated(target: &str, filter: &str) -> (rest: String)
    ensures
        rest@ == joined_onto(
            Seq::empty(),
            unshared(path_components(target@), path_components(filter@)),
        ),
{
    let target_parts = components_of(target);
    let filter_parts = components_of(filter);
    let kept = trim_components(&target_parts, &filter_parts);
    join_components(&kept)
}

/// Places an entry beneath the target's name, given the components that
/// are left of its path and its file name.
pub fn place(target_name: &str, rest: &Vec<String>, file_name: Option<&str>) -> (stored: Result<
    String,
    NameError,
>)
    ensures
        places(
            stored,
            placed_at(
                target_name@,
                rest.deep_view(),
                match file_name {
                    Some(n) => Some(n@),
                    None => None,
                },
            ),
        ),
{
    proof {
        reveal_strlit("");
        assert(""@ =~= Seq::<char>::empty());
    }
    let top = join("", target_name);
    if rest.len() > 0 {
        let below = join_components(rest);
        Ok(join(top.as_str(), below.as_str()))
    } else {
        match file_name {
            Some(name) => Ok(join(top.as_str(), name)),
            None => Err(NameError::NoFileName),
        }
    }
}

/// Places the entry at `entry_path` beneath the target's name, by the
/// components it does not share with `target_path`. An entry that shares
/// them all, as the target's own path does, is placed by its file name,
/// and has no place where it has no file name.
pub fn destination(target_name: &str, entry_path: &str, target_path: &str) -> (stored: Result<
    String,
    NameError,
>)
    ensures
        places(stored, placed(target_name@, entry_path@, target_path@)),
{
    let entry_parts = components_of(entry_path);
    let target_parts = components_of(target_path);
    let rest = trim_components(&entry_parts, &target_parts);
    match file_name_of(entry_path) {
        Some(name) => place(target_name, &rest, Some(name.as_str())),
        None => place(target_name, &rest, None),
    }
}

/// Nothing is left of a path that is compared with itself.
pub proof fn lemma_nothing_unshared_with_itself(parts: Seq<Seq<char>>)
    ensures
        unshared(parts, parts).len() == 0,
{
    assert(parts =~= parts.take(parts.len() as int));
    lemma_unshared_of_prefix(parts, parts, parts.len() as int);
}

/// Nothing is left of the front of a path that is compared with the path.
proof fn lemma_unshared_of_prefix(parts: Seq<Seq<char>>, whole: Seq<Seq<char>>, count: int)
    requires
        0 <= count <= whole.len(),
        parts == whole.take(count),
    ensures
        unshared(parts, whole).len() == 0,
    decreases count,
{
    if count > 0 {
        assert(parts.drop_last() =~= whole.take(count - 1));
        lemma_unshared_of_prefix(parts.drop_last(), whole, count - 1);
    }
}

/// A target's own path is placed beneath the target's name at its file
/// name, whatever the path is.
pub proof fn lemma_target_path_is_placed_by_its_file_name(
    target_name: Seq<char>,
    target_path: Seq<char>,
)
    ensures
        placed(target_name, target_path, target_path) == match path_file_name(target_path) {
            Some(name) => Ok::<Seq<char>, NameError>(
                path_join(path_join(Seq::empty(), target_name), name),
            ),
            None => Err::<Seq<char>, NameError>(NameError::NoFileName),
        },
{
    lemma_nothing_unshared_with_itself(path_components(target_path));
}

} // verus!
