//! The lines that a run reports.

use vstd::prelude::*;
use vstd::string::*;

verus! {

/// The character that stands for a digit.
pub open spec fn digit(value: nat) -> char {
    if value == 0 {
        '0'
    } else if value == 1 {
        '1'
    } else if value == 2 {
        '2'
    } else if value == 3 {
        '3'
    } else if value == 4 {
        '4'
    } else if value == 5 {
        '5'
    } else if value == 6 {
        '6'
    } else if value == 7 {
        '7'
    } else if value == 8 {
        '8'
    } else {
        '9'
    }
}

/// A number in decimal, without sign and without leading zeros.
pub open spec fn decimal(number: nat) -> Seq<char>
    decreases number,
{
    if number < 10 {
        seq![digit(number)]
    } else {
        decimal(number / 10).push(digit(number % 10))
    }
}

fn digit_text(value: usize) -> (text: &'static str)
    requires
        value < 10,
    ensures
        text@ == seq![digit(value as nat)],
{
    proof {
        reveal_strlit("0");
        reveal_strlit("1");
        reveal_strlit("2");
        reveal_strlit("3");
        reveal_strlit("4");
        reveal_strlit("5");
        reveal_strlit("6");
        reveal_strlit("7");
        reveal_strlit("8");
        reveal_strlit("9");
    }
    let text = if value == 0 {
        "0"
    } else if value == 1 {
        "1"
    } else if value == 2 {
        "2"
    } else if value == 3 {
        "3"
    } else if value == 4 {
        "4"
    } else if value == 5 {
        "5"
    } else if value == 6 {
        "6"
    } else if value == 7 {
        "7"
    } else if value == 8 {
        "8"
    } else {
        "9"
    };
    assert(text@ =~= seq![digit(value as nat)]);
    text
}

/// Writes a number in decimal.
pub fn decimal_text(number: usize) -> (text: String)
    ensures
        text@ == decimal(number as nat),
    decreases number,
{
    if number < 10 {
        String::from_str(digit_text(number))
    } else {
        let mut text = decimal_text(number / 10);
        text.append(digit_text(number % 10));
        assert(text@ =~= decimal(number as nat));
        text
    }
}

/// The line of a dry run for the candidate with the given number, counted
/// from one.
pub open spec fn candidate_line(number: nat, path: Seq<char>) -> Seq<char> {
    decimal(number) + "- `"@ + path + "`"@
}

/// The last line of a dry run.
pub open spec fn dry_run_summary(count: nat, source_kind: Seq<char>) -> Seq<char> {
    "Dry run: Would delete "@ + decimal(count) + " already processed "@ + source_kind + " files"@
}

/// What a dry run reports: one numbered line for each candidate, an empty
/// line, and the summary.
pub open spec fn dry_run_lines(paths: Seq<Seq<char>>, source_kind: Seq<char>) -> Seq<Seq<char>> {
    Seq::new(paths.len(), |i: int| candidate_line((i + 1) as nat, paths[i])).push(
        Seq::empty(),
    ).push(dry_run_summary(paths.len(), source_kind))
}

/// Writes the report of a dry run over the candidates' paths, line by line.
pub fn dry_run_report(paths: &Vec<String>, source_kind: &str) -> (lines: Vec<String>)
    ensures
        lines.deep_view() == dry_run_lines(paths.deep_view(), source_kind@),
{
    let ghost shown = paths.deep_view();
    let mut lines: Vec<String> = Vec::new();
    let mut i: usize = 0;
    while i < paths.len()
        invariant
            i <= paths.len(),
            lines@.len() == i,
            shown == paths.deep_view(),
            lines.deep_view() == Seq::new(
                i as nat,
                |k: int| candidate_line((k + 1) as nat, shown[k]),
            ),
        decreases paths.len() - i,
    {
        let ghost before = lines@;
        let ghost written = lines.deep_view();
        let mut line = decimal_text(i + 1);
        line.append("- `");
        line.append(paths[i].as_str());
        line.append("`");
        assert(line@ == candidate_line((i + 1) as nat, shown[i as int]));
        lines.push(line);
        i = i + 1;
        assert forall|k: int| 0 <= k < i implies #[trigger] lines.deep_view()[k] == candidate_line(
            (k + 1) as nat,
            shown[k],
        ) by {
            if k < i - 1 {
                assert(lines@[k] == before[k]);
                assert(written[k] == before[k]@);
            }
        }
    }
    lines.push(String::new());
    let mut summary = String::from_str("Dry run: Would delete ");
    summary.append(decimal_text(paths.len()).as_str());
    summary.append(" already processed ");
    summary.append(source_kind);
    summary.append(" files");
    lines.push(summary);
    assert(lines.deep_view() =~= dry_run_lines(shown, source_kind@));
    lines
}

/// One candidate that could not be removed.
#[derive(Debug, PartialEq, Eq)]
pub struct DeletionFailure {
    /// The place of the candidate among the candidates, counted from zero.
    pub candidate: usize,
    /// Why it could not be removed.
    pub message: String,
}

/// How the removal of the candidates went.
#[derive(Debug, PartialEq, Eq)]
pub struct DeletionSummary {
    /// How many candidates were removed.
    pub succeeded: usize,
    /// The candidates that were not, in the order of the candidates.
    pub failures: Vec<DeletionFailure>,
}

/// A failure as plain values: the place of the candidate and the message.
pub open spec fn failure_view() -> spec_fn(DeletionFailure) -> (int, Seq<char>) {
    |failure: DeletionFailure| (failure.candidate as int, failure.message@)
}

/// The message of a failure.
pub open spec fn message_of() -> spec_fn(DeletionFailure) -> Seq<char> {
    |failure: DeletionFailure| failure.message@
}

/// The failures among the outcomes, each with the place of its outcome and
/// its message, in the order of the outcomes.
pub open spec fn failures_of(outcomes: Seq<Result<(), String>>) -> Seq<(int, Seq<char>)>
    decreases outcomes.len(),
{
    if outcomes.len() == 0 {
        Seq::empty()
    } else {
        let before = failures_of(outcomes.drop_last());
        match outcomes.last() {
            Ok(_) => before,
            Err(message) => before.push((outcomes.len() - 1, message@)),
        }
    }
}

/// Sums up the outcomes of removing the candidates, one outcome for each
/// candidate in their order. A failed removal takes nothing from the others:
/// every outcome is counted, either as a success or as a failure.
pub fn summarize(outcomes: Vec<Result<(), String>>) -> (summary: DeletionSummary)
    ensures
        summary.failures@.map_values(failure_view()) == failures_of(outcomes@),
        summary.succeeded == outcomes@.len() - summary.failures@.len(),
{
    let ghost all = outcomes@;
    let count = outcomes.len();
    let mut failures: Vec<DeletionFailure> = Vec::new();
    let mut succeeded: usize = 0;
    let mut place: usize = 0;
    assert(failures@.map_values(failure_view()) =~= failures_of(all.take(0)));
    for outcome in it: outcomes
        invariant
            all == it.seq(),
            all.len() == count,
            place == it.index(),
            failures@.map_values(failure_view()) == failures_of(all.take(place as int)),
            succeeded + failures@.len() == place,
    {
        assert(all.take(place + 1).drop_last() =~= all.take(place as int));
        match outcome {
            Ok(_) => {
                succeeded = succeeded + 1;
            },
            Err(message) => {
                let failure = DeletionFailure { candidate: place, message };
                proof {
                    failures@.lemma_push_map_commute(failure_view(), failure);
                }
                failures.push(failure);
            },
        }
        place = place + 1;
    }
    assert(all.take(all.len() as int) =~= all);
    DeletionSummary { succeeded, failures }
}

/// What a run reports, line by line: what goes to the standard output and
/// what goes to the standard error stream.
#[derive(Debug, PartialEq, Eq)]
pub struct RunReport {
    pub stdout: Vec<String>,
    pub stderr: Vec<String>,
}

/// The line that tells how many candidates were removed.
pub open spec fn success_line(count: nat) -> Seq<char> {
    "Successfully deleted "@ + decimal(count) + " files"@
}

/// The line that tells how many candidates could not be removed.
pub open spec fn failure_heading(count: nat) -> Seq<char> {
    "Failed to delete "@ + decimal(count) + " files:"@
}

/// The line for one failure.
pub open spec fn failure_line() -> spec_fn(Seq<char>) -> Seq<char> {
    |message: Seq<char>| "- "@ + message
}

/// The lines on the failures: none where nothing failed, else a heading
/// with their number and one line for each message.
pub open spec fn failure_lines(messages: Seq<Seq<char>>) -> Seq<Seq<char>> {
    if messages.len() == 0 {
        Seq::empty()
    } else {
        seq![failure_heading(messages.len())] + messages.map_values(failure_line())
    }
}

/// Writes the report of a live run. The number on the standard output is
/// that of the successes, the one in the heading on the standard error
/// stream that of the failures.
pub fn live_report(summary: &DeletionSummary) -> (report: RunReport)
    ensures
        report.stdout.deep_view() == seq![success_line(summary.succeeded as nat)],
        report.stderr.deep_view() == failure_lines(summary.failures@.map_values(message_of())),
{
    let ghost messages = summary.failures@.map_values(message_of());
    let mut success = String::from_str("Successfully deleted ");
    success.append(decimal_text(summary.succeeded).as_str());
    success.append(" files");
    let mut stdout: Vec<String> = Vec::new();
    stdout.push(success);
    assert(stdout.deep_view() =~= seq![success_line(summary.succeeded as nat)]);
    let mut stderr: Vec<String> = Vec::new();
    if summary.failures.len() > 0 {
        let mut heading = String::from_str("Failed to delete ");
        heading.append(decimal_text(summary.failures.len()).as_str());
        heading.append(" files:");
        stderr.push(heading);
        let mut i: usize = 0;
        while i < summary.failures.len()
            invariant
                i <= summary.failures.len(),
                messages == summary.failures@.map_values(message_of()),
                stderr@.len() == i + 1,
                stderr.deep_view() == seq![failure_heading(messages.len())] + messages.take(
                    i as int,
                ).map_values(failure_line()),
            decreases summary.failures.len() - i,
        {
            let ghost before = stderr@;
            let ghost written = stderr.deep_view();
            let mut line = String::from_str("- ");
            line.append(summary.failures[i].message.as_str());
            stderr.push(line);
            i = i + 1;
            assert forall|k: int| 0 <= k < i + 1 implies #[trigger] stderr.deep_view()[k] == (seq![
                failure_heading(messages.len()),
            ] + messages.take(i as int).map_values(failure_line()))[k] by {
                if k < i {
                    assert(stderr@[k] == before[k]);
                    assert(written[k] == before[k]@);
                }
            }
        }
        assert(messages.take(i as int) =~= messages);
    } else {
        assert(stderr.deep_view() =~= failure_lines(messages));
    }
    RunReport { stdout, stderr }
}

/// A live run that found nothing to remove reports that it deleted 0 files.
pub proof fn lemma_nothing_removed()
    ensures
        failures_of(Seq::empty()) == Seq::<(int, Seq<char>)>::empty(),
        success_line(0) == "Successfully deleted 0 files"@,
{
    reveal_strlit("Successfully deleted ");
    reveal_strlit(" files");
    reveal_strlit("Successfully deleted 0 files");
    assert(success_line(0) =~= "Successfully deleted 0 files"@);
}

} // verus!
