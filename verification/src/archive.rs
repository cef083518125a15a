//! Names inside the archive.
//!
//! A file found beneath a root is stored under the target's name followed
//! by what its path holds after the root. A root that is itself a file is
//! stored under the target's name, a slash, and its file name. Lengths are
//! counted in characters.

use crate::paths::file_name_of;
use crate::paths::path_file_name;
use vstd::prelude::*;
use vstd::string::StrSliceExecFns;
use vstd::string::StringExecFns;

verus! {

/// Why a path has no name in the archive.
#[derive(Debug, PartialEq, Eq, Clone, Copy)]
pub enum NameError {
    /// The path is shorter than the root it is said to lie beneath.
    OutsideRoot,
    /// The path is a root and has no final component to name it by.
    NoFileName,
}

/// A file accepted for the archive: where it is read and where it is stored.
pub struct ArchiveEntry {
    pub source: String,
    pub archive_path: String,
}

/// The name in the archive of the file at `path`, found in the walk of a
/// root of `root_length` characters, where `file_name` is the path's final
/// component.
pub open spec fn archive_name(
    target_name: Seq<char>,
    path: Seq<char>,
    root_length: nat,
    file_name: Option<Seq<char>>,
) -> Result<Seq<char>, NameError> {
    if path.len() < root_length {
        Err(NameError::OutsideRoot)
    } else if path.len() == root_length {
        match file_name {
            Some(name) => Ok(target_name + seq!['/'] + name),
            None => Err(NameError::NoFileName),
        }
    } else {
        Ok(target_name + path.skip(root_length as int))
    }
}

/// Whether a computed name is the one that the rule gives.
pub open spec fn names(
    computed: Result<String, NameError>,
    due: Result<Seq<char>, NameError>,
) -> bool {
    match computed {
        Ok(name) => due == Ok::<Seq<char>, NameError>(name@),
        Err(error) => due == Err::<Seq<char>, NameError>(error),
    }
}

/// The name replaces the root. A path is its root followed by a suffix:
/// where the suffix is empty the path is the root itself and is stored
/// under the target's name, a slash and its file name; otherwise it is
/// stored under the target's name followed by the suffix.
pub proof fn lemma_name_replaces_the_root(
    target_name: Seq<char>,
    root: Seq<char>,
    suffix: Seq<char>,
    file_name: Option<Seq<char>>,
)
    ensures
        suffix.len() == 0 && file_name is Some ==> archive_name(
            target_name,
            root + suffix,
            root.len(),
            file_name,
        ) == Ok::<Seq<char>, NameError>(target_name + seq!['/'] + file_name.unwrap()),
        suffix.len() == 0 && file_name is None ==> archive_name(
            target_name,
            root + suffix,
            root.len(),
            file_name,
        ) == Err::<Seq<char>, NameError>(NameError::NoFileName),
        suffix.len() > 0 ==> archive_name(target_name, root + suffix, root.len(), file_name)
            == Ok::<Seq<char>, NameError>(target_name + suffix),
{
    assert((root + suffix).skip(root.len() as int) =~= suffix);
}

/// Below one root, under one target name, two files that differ are stored
/// under names that differ.
pub proof fn lemma_names_differ_below_one_root(
    target_name: Seq<char>,
    root: Seq<char>,
    first: Seq<char>,
    second: Seq<char>,
    first_file_name: Option<Seq<char>>,
    second_file_name: Option<Seq<char>>,
)
    requires
        first.len() > 0,
        second.len() > 0,
        archive_name(target_name, root + first, root.len(), first_file_name) == archive_name(
            target_name,
            root + second,
            root.len(),
            second_file_name,
        ),
    ensures
        root + first == root + second,
{
    lemma_name_replaces_the_root(target_name, root, first, first_file_name);
    lemma_name_replaces_the_root(target_name, root, second, second_file_name);
    let one = target_name + first;
    let two = target_name + second;
    assert(one == two);
    assert(first.len() == second.len()) by {
        assert(one.len() == target_name.len() + first.len());
        assert(two.len() == target_name.len() + second.len());
    }
    assert forall|i: int| 0 <= i < first.len() implies first[i] == second[i] by {
        assert(one[target_name.len() + i] == first[i]);
        assert(two[target_name.len() + i] == second[i]);
    }
    assert(first =~= second);
}

/// Computes the name in the archive from the path and its final component.
pub fn name_in_archive(
    target_name: &str,
    path: &str,
    root_length: usize,
    file_name: Option<&str>,
) -> (name: Result<String, NameError>)
    ensures
        names(
            name,
            archive_name(
                target_name@,
                path@,
                root_length as nat,
                match file_name {
                    Some(n) => Some(n@),
                    None => None,
                },
            ),
        ),
{
    let length = path.unicode_len();
    if length < root_length {
        return Err(NameError::OutsideRoot);
    }
    let mut name = String::from_str(target_name);
    if length == root_length {
        match file_name {
            Some(last) => {
                proof {
                    reveal_strlit("/");
                    assert("/"@ =~= seq!['/']);
                }
                name.append("/");
                name.append(last);
            },
            None => {
                return Err(NameError::NoFileName);
            },
        }
    } else {
        name.append(path.substring_char(root_length, length));
    }
    Ok(name)
}

/// Computes the name in the archive of the file at `path`, found in the
/// walk of a root of `root_length` characters.
pub fn archive_path(target_name: &str, path: &str, root_length: usize) -> (name: Result<
    String,
    NameError,
>)
    ensures
        names(
            name,
            archive_name(target_name@, path@, root_length as nat, path_file_name(path@)),
        ),
{
    match file_name_of(path) {
        Some(last) => name_in_archive(target_name, path, root_length, Some(last.as_str())),
        None => name_in_archive(target_name, path, root_length, None),
    }
}

/// Pairs the file at `path` with its name in the archive.
pub fn archive_entry(target_name: &str, path: String, root_length: usize) -> (entry: Result<
    ArchiveEntry,
    NameError,
>)
    ensures
        match entry {
            Ok(e) => e.source@ == path@ && archive_name(
                target_name@,
                path@,
                root_length as nat,
                path_file_name(path@),
            ) == Ok::<Seq<char>, NameError>(e.archive_path@),
            Err(error) => archive_name(
                target_name@,
                path@,
                root_length as nat,
                path_file_name(path@),
            ) == Err::<Seq<char>, NameError>(error),
        },
{
    match archive_path(target_name, path.as_str(), root_length) {
        Ok(name) => Ok(ArchiveEntry { source: path, archive_path: name }),
        Err(error) => Err(error),
    }
}

} // verus!
