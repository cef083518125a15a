//! Commands to run once the archive is written.
//!
//! A command is a program followed by its arguments. In each argument the
//! placeholder `%archive_path%` stands for the path of the archive.

use vstd::prelude::*;

verus! {

/// What `str::replace` returns: `text` with every match of `pattern`
/// replaced by `with`.
pub uninterp spec fn replaced(text: Seq<char>, pattern: Seq<char>, with: Seq<char>) -> Seq<char>;

/// The words of a command with the archive's path filled in: the program
/// as it is, and each argument with the placeholder replaced.
pub open spec fn filled_in(command: Seq<Seq<char>>, archive_path: Seq<char>) -> Seq<Seq<char>> {
    Seq::new(
        command.len(),
        |i: int|
            if i == 0 {
                command[i]
            } else {
                replaced(command[i], "%archive_path%"@, archive_path)
            },
    )
}

/// Calls `str::replace`. Trusted: the result is `replaced` of the three
/// arguments.
#[verifier::external_body]
fn replace(text: &str, pattern: &str, with: &str) -> (result: String)
    ensures
        result@ == replaced(text@, pattern@, with@),
{
    text.replace(pattern, with)
}

/// Fills the archive's path into the arguments of a command. The first
/// word, the program, is never rewritten. An empty command stays empty:
/// there is nothing to run.
pub fn fill_in(command: &Vec<String>, archive_path: &str) -> (words: Vec<String>)
    ensures
        words.deep_view() == filled_in(command.deep_view(), archive_path@),
{
    let mut words: Vec<String> = Vec::new();
    let mut i: usize = 0;
    while i < command.len()
        invariant
            i <= command.len(),
            words@.len() == i,
            forall|j: int|
                0 <= j < i ==> (#[trigger] words@[j])@ == filled_in(
                    command.deep_view(),
                    archive_path@,
                )[j],
        decreases command.len() - i,
    {
        assert(command.deep_view()[i as int] == command@[i as int]@);
        if i == 0 {
            words.push(command[i].clone());
        } else {
            words.push(replace(command[i].as_str(), "%archive_path%", archive_path));
        }
        i += 1;
    }
    assert(words.deep_view() =~= filled_in(command.deep_view(), archive_path@));
    words
}

} // verus!
