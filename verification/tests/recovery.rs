use backup_engine::commands::fill_in;
use backup_engine::recovery::action_for;
use backup_engine::recovery::advance;
use backup_engine::recovery::resolve;
use backup_engine::recovery::settle;
use backup_engine::recovery::Action;
use backup_engine::recovery::Outcome;
use backup_engine::recovery::Phase;
use backup_engine::recovery::Tally;

fn strings(items: &[&str]) -> Vec<String> {
    items.iter().map(|s| s.to_string()).collect()
}

#[test]
fn answer_i_ignores() {
    assert_eq!(resolve("i"), Action::IgnoreOrContinue);
    assert_eq!(resolve("I"), Action::IgnoreOrContinue);
    assert_eq!(resolve("i\n"), Action::IgnoreOrContinue);
    assert_eq!(resolve("  I \r\n"), Action::IgnoreOrContinue);
}

#[test]
fn answer_r_retries() {
    assert_eq!(resolve("r"), Action::Retry);
    assert_eq!(resolve("R\n"), Action::Retry);
    assert_eq!(resolve("\t r"), Action::Retry);
}

#[test]
fn any_other_answer_exits() {
    assert_eq!(resolve("e"), Action::Exit);
    assert_eq!(resolve("E\n"), Action::Exit);
    assert_eq!(resolve(""), Action::Exit);
    assert_eq!(resolve("\n"), Action::Exit);
    assert_eq!(resolve("ignore"), Action::Exit);
    assert_eq!(resolve("retry"), Action::Exit);
    assert_eq!(resolve("i r"), Action::Exit);
    assert_eq!(resolve("ı"), Action::Exit);
}

#[test]
fn action_for_reads_a_normalised_answer_as_it_stands() {
    assert_eq!(action_for("i"), Action::IgnoreOrContinue);
    assert_eq!(action_for("r"), Action::Retry);
    assert_eq!(action_for("I"), Action::Exit);
    assert_eq!(action_for("R"), Action::Exit);
    assert_eq!(action_for(" i"), Action::Exit);
    assert_eq!(action_for(""), Action::Exit);
}

#[test]
fn success_moves_from_opening_to_appending_to_archived() {
    assert_eq!(advance(Phase::Opening, Outcome::Succeeded), Phase::Appending);
    assert_eq!(advance(Phase::Appending, Outcome::Succeeded), Phase::Archived);
}

#[test]
fn retry_begins_again_at_the_opening() {
    assert_eq!(advance(Phase::Opening, Outcome::Failed(Action::Retry)), Phase::Opening);
    assert_eq!(advance(Phase::Appending, Outcome::Failed(Action::Retry)), Phase::Opening);
    assert_eq!(settle(Action::Retry), Phase::Opening);
}

#[test]
fn ignore_skips_the_file() {
    assert_eq!(advance(Phase::Opening, Outcome::Failed(Action::IgnoreOrContinue)), Phase::Skipped);
    assert_eq!(
        advance(Phase::Appending, Outcome::Failed(Action::IgnoreOrContinue)),
        Phase::Skipped
    );
    assert_eq!(settle(Action::IgnoreOrContinue), Phase::Skipped);
}

#[test]
fn exit_aborts_the_run() {
    assert_eq!(advance(Phase::Opening, Outcome::Failed(Action::Exit)), Phase::Aborted);
    assert_eq!(advance(Phase::Appending, Outcome::Failed(Action::Exit)), Phase::Aborted);
    assert_eq!(settle(Action::Exit), Phase::Aborted);
}

#[test]
fn final_phases_do_not_move() {
    for phase in [Phase::Archived, Phase::Skipped, Phase::Aborted] {
        assert_eq!(advance(phase, Outcome::Succeeded), phase);
        assert_eq!(advance(phase, Outcome::Failed(Action::Retry)), phase);
        assert_eq!(advance(phase, Outcome::Failed(Action::IgnoreOrContinue)), phase);
        assert_eq!(advance(phase, Outcome::Failed(Action::Exit)), phase);
    }
}

#[test]
fn a_file_that_fails_twice_and_is_retried_is_archived() {
    let mut phase = Phase::Opening;
    let outcomes = [
        Outcome::Failed(Action::Retry),
        Outcome::Succeeded,
        Outcome::Failed(Action::Retry),
        Outcome::Succeeded,
        Outcome::Succeeded,
    ];
    let mut seen = Vec::new();
    for outcome in outcomes {
        phase = advance(phase, outcome);
        seen.push(phase);
    }
    assert_eq!(
        seen,
        vec![Phase::Opening, Phase::Appending, Phase::Opening, Phase::Appending, Phase::Archived]
    );
}

#[test]
fn tally_counts_archived_and_skipped_files_apart() {
    let mut tally = Tally::new();
    assert_eq!(tally, Tally { completed: 0, skipped: 0 });
    tally.record(Phase::Archived);
    tally.record(Phase::Archived);
    tally.record(Phase::Skipped);
    assert_eq!(tally, Tally { completed: 2, skipped: 1 });
    tally.record(Phase::Opening);
    tally.record(Phase::Appending);
    tally.record(Phase::Aborted);
    assert_eq!(tally, Tally { completed: 2, skipped: 1 });
}

#[test]
fn tally_stops_at_the_largest_count() {
    let mut tally = Tally { completed: u64::MAX - 1, skipped: u64::MAX };
    tally.record(Phase::Archived);
    assert_eq!(tally.completed, u64::MAX);
    tally.record(Phase::Archived);
    assert_eq!(tally.completed, u64::MAX);
    tally.record(Phase::Skipped);
    assert_eq!(tally.skipped, u64::MAX);
}

#[test]
fn fill_in_replaces_the_placeholder_in_arguments_only() {
    assert_eq!(
        fill_in(&strings(&["scp", "%archive_path%", "host:/backups/"]), "/tmp/b.tar"),
        strings(&["scp", "/tmp/b.tar", "host:/backups/"])
    );
    assert_eq!(
        fill_in(&strings(&["%archive_path%", "--file=%archive_path%.sig", "x"]), "a.tar"),
        strings(&["%archive_path%", "--file=a.tar.sig", "x"])
    );
    assert_eq!(
        fill_in(&strings(&["echo", "%archive_path% %archive_path%"]), "a"),
        strings(&["echo", "a a"])
    );
}

#[test]
fn fill_in_of_an_empty_command_is_empty() {
    assert!(fill_in(&Vec::new(), "a.tar").is_empty());
    assert_eq!(fill_in(&strings(&["true"]), "a.tar"), strings(&["true"]));
}
