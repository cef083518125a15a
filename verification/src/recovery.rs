//! What is done about a file that could not be archived.
//!
//! Archiving one file is two operations, opening it and appending it. When
//! either fails the operator is asked once and answers with an [`Action`].
//! A retry begins again at the opening; to ignore is to skip the file; to
//! exit ends the run. Nothing is retried unasked, and every failure asks
//! anew.

use vstd::prelude::*;

verus! {

/// The operator's decision about a failure.
#[derive(Debug, PartialEq, Eq, Clone, Copy)]
pub enum Action {
    /// End the run.
    Exit,
    /// Skip the file and go on with the walk.
    IgnoreOrContinue,
    /// Make the failed attempt again.
    Retry,
}

/// Where the archiving of one file stands.
#[derive(Debug, PartialEq, Eq, Clone, Copy)]
pub enum Phase {
    /// The file is to be opened.
    Opening,
    /// The file is open and is to be appended.
    Appending,
    /// The file is in the archive.
    Archived,
    /// The file was given up and the walk goes on.
    Skipped,
    /// The run ends here.
    Aborted,
}

/// How an operation on a file ended.
#[derive(Debug, PartialEq, Eq, Clone, Copy)]
pub enum Outcome {
    Succeeded,
    /// It failed, and the operator answered with this action.
    Failed(Action),
}

/// Counts of the files that were archived and of those that were skipped.
#[derive(Debug, PartialEq, Eq, Clone, Copy)]
pub struct Tally {
    pub completed: u64,
    pub skipped: u64,
}

/// What `str::trim` returns for `text`: the text without its leading and
/// trailing whitespace.
pub uninterp spec fn trimmed(text: Seq<char>) -> Seq<char>;

/// The lower-case form of an upper-case ASCII letter; any other character
/// is left as it is.
pub open spec fn lower(c: char) -> char {
    if 'A' <= c && c <= 'Z' {
        ((c as u8) + 32) as u8 as char
    } else {
        c
    }
}

/// The text with each upper-case ASCII letter made lower-case.
pub open spec fn lowered(text: Seq<char>) -> Seq<char> {
    text.map_values(|c: char| lower(c))
}

/// The action that a normalised answer stands for: `i` ignores, `r`
/// retries, anything else exits.
pub open spec fn action_of(answer: Seq<char>) -> Action {
    if answer == seq!['i'] {
        Action::IgnoreOrContinue
    } else if answer == seq!['r'] {
        Action::Retry
    } else {
        Action::Exit
    }
}

/// The phase that a failure leads to under the operator's action.
pub open spec fn after_failure(action: Action) -> Phase {
    match action {
        Action::Retry => Phase::Opening,
        Action::IgnoreOrContinue => Phase::Skipped,
        Action::Exit => Phase::Aborted,
    }
}

/// The phase that follows `phase` once the operation it stands for has
/// ended in `outcome`. The last three phases are final.
pub open spec fn next_phase(phase: Phase, outcome: Outcome) -> Phase {
    match phase {
        Phase::Opening => match outcome {
            Outcome::Succeeded => Phase::Appending,
            Outcome::Failed(action) => after_failure(action),
        },
        Phase::Appending => match outcome {
            Outcome::Succeeded => Phase::Archived,
            Outcome::Failed(action) => after_failure(action),
        },
        _ => phase,
    }
}

/// One more, unless the count is at its limit.
pub open spec fn bumped(count: u64) -> u64 {
    if count < u64::MAX {
        (count + 1) as u64
    } else {
        count
    }
}

/// Calls `str::trim`. Trusted: the result is `trimmed` of the argument.
#[verifier::external_body]
fn trim(text: &str) -> (inner: String)
    ensures
        inner@ == trimmed(text@),
{
    text.trim().to_string()
}

/// Calls `str::to_ascii_lowercase`. Trusted: the result has each `A` to `Z`
/// of the argument replaced by its lower-case letter and every other
/// character unchanged.
#[verifier::external_body]
fn to_lower(text: &str) -> (small: String)
    ensures
        small@ == lowered(text@),
{
    text.to_ascii_lowercase()
}

/// Reads a normalised answer: one that is trimmed and in lower case.
pub fn action_for(answer: &str) -> (action: Action)
    ensures
        action == action_of(answer@),
{
    let answer = answer.to_owned();
    proof {
        reveal_strlit("i");
        reveal_strlit("r");
        assert("i"@ =~= seq!['i']);
        assert("r"@ =~= seq!['r']);
    }
    if answer == "i".to_owned() {
        Action::IgnoreOrContinue
    } else if answer == "r".to_owned() {
        Action::Retry
    } else {
        Action::Exit
    }
}

/// Reads the operator's answer to a failure. Whitespace around the answer
/// and the case of its letters do not matter.
pub fn resolve(answer: &str) -> (action: Action)
    ensures
        action == action_of(lowered(trimmed(answer@))),
{
    let inner = trim(answer);
    let small = to_lower(inner.as_str());
    action_for(small.as_str())
}

/// Moves the archiving of a file on by one operation.
pub fn advance(phase: Phase, outcome: Outcome) -> (next: Phase)
    ensures
        next == next_phase(phase, outcome),
{
    match phase {
        Phase::Opening => match outcome {
            Outcome::Succeeded => Phase::Appending,
            Outcome::Failed(action) => settle(action),
        },
        Phase::Appending => match outcome {
            Outcome::Succeeded => Phase::Archived,
            Outcome::Failed(action) => settle(action),
        },
        _ => phase,
    }
}

/// Carries out the operator's action on a failed file.
pub fn settle(action: Action) -> (next: Phase)
    ensures
        next == after_failure(action),
{
    match action {
        Action::Retry => Phase::Opening,
        Action::IgnoreOrContinue => Phase::Skipped,
        Action::Exit => Phase::Aborted,
    }
}

impl Tally {
    /// A tally with nothing counted.
    pub fn new() -> (tally: Tally)
        ensures
            tally.completed == 0,
            tally.skipped == 0,
    {
        Tally { completed: 0, skipped: 0 }
    }

    /// Counts a file whose archiving has ended in `phase`: an archived file
    /// as completed, a skipped one as skipped. Other phases count nothing.
    /// A count that has reached the largest number stays there.
    pub fn record(&mut self, phase: Phase)
        ensures
            final(self).completed == if phase == Phase::Archived {
                bumped(old(self).completed)
            } else {
                old(self).completed
            },
            final(self).skipped == if phase == Phase::Skipped {
                bumped(old(self).skipped)
            } else {
                old(self).skipped
            },
    {
        match phase {
            Phase::Archived => {
                if self.completed < u64::MAX {
                    self.completed = self.completed + 1;
                }
            },
            Phase::Skipped => {
                if self.skipped < u64::MAX {
                    self.skipped = self.skipped + 1;
                }
            },
            _ => {},
        }
    }
}

} // verus!
