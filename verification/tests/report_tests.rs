use stem_reconcile::report::{
    decimal_text, dry_run_report, live_report, summarize, DeletionFailure, DeletionSummary,
};

fn lines(text: &[&str]) -> Vec<String> {
    text.iter().map(|line| line.to_string()).collect()
}

#[test]
fn decimal_of_small_numbers() {
    assert_eq!(decimal_text(0), "0");
    assert_eq!(decimal_text(7), "7");
    assert_eq!(decimal_text(9), "9");
    assert_eq!(decimal_text(10), "10");
    assert_eq!(decimal_text(42), "42");
    assert_eq!(decimal_text(100), "100");
    assert_eq!(decimal_text(1234567890), "1234567890");
}

#[test]
fn decimal_agrees_with_the_standard_library() {
    for number in (0..2000usize).chain([9_999, 10_000, 65_535, 1_000_000, usize::MAX - 1, usize::MAX]) {
        assert_eq!(decimal_text(number), number.to_string());
    }
}

#[test]
fn dry_run_numbers_candidates_from_one() {
    let paths = lines(&["src/cat.png", "src/dog.png"]);
    assert_eq!(
        dry_run_report(&paths, "png"),
        lines(&[
            "1- `src/cat.png`",
            "2- `src/dog.png`",
            "",
            "Dry run: Would delete 2 already processed png files",
        ])
    );
}

#[test]
fn dry_run_without_candidates() {
    assert_eq!(
        dry_run_report(&Vec::new(), "png"),
        lines(&["", "Dry run: Would delete 0 already processed png files"])
    );
}

#[test]
fn dry_run_names_the_kind_of_source() {
    let paths = lines(&["a.tiff"]);
    assert_eq!(
        dry_run_report(&paths, "tiff"),
        lines(&["1- `a.tiff`", "", "Dry run: Would delete 1 already processed tiff files"])
    );
}

#[test]
fn dry_run_numbers_run_past_nine() {
    let paths: Vec<String> = (0..12).map(|i| format!("f{}.png", i)).collect();
    let report = dry_run_report(&paths, "png");
    assert_eq!(report.len(), 14);
    assert_eq!(report[8], "9- `f8.png`");
    assert_eq!(report[9], "10- `f9.png`");
    assert_eq!(report[11], "12- `f11.png`");
    assert_eq!(report[12], "");
    assert_eq!(report[13], "Dry run: Would delete 12 already processed png files");
}

#[test]
fn summary_counts_every_outcome_once() {
    let outcomes = vec![
        Ok(()),
        Err("permission denied".to_string()),
        Ok(()),
        Ok(()),
        Err("no such file".to_string()),
    ];
    let summary = summarize(outcomes);
    assert_eq!(summary.succeeded, 3);
    assert_eq!(
        summary.failures,
        vec![
            DeletionFailure { candidate: 1, message: "permission denied".to_string() },
            DeletionFailure { candidate: 4, message: "no such file".to_string() },
        ]
    );
}

#[test]
fn successes_are_candidates_less_failures() {
    for failing in 0..=6usize {
        for total in failing..=6usize {
            let outcomes: Vec<Result<(), String>> = (0..total)
                .map(|i| if i < failing { Err(format!("error {}", i)) } else { Ok(()) })
                .collect();
            let summary = summarize(outcomes);
            assert_eq!(summary.failures.len(), failing);
            assert_eq!(summary.succeeded, total - failing);
        }
    }
}

#[test]
fn summary_of_nothing() {
    assert_eq!(summarize(Vec::new()), DeletionSummary { succeeded: 0, failures: Vec::new() });
}

#[test]
fn summary_where_everything_failed() {
    let summary = summarize(vec![Err("a".to_string()), Err("b".to_string())]);
    assert_eq!(summary.succeeded, 0);
    assert_eq!(summary.failures.len(), 2);
    assert_eq!(summary.failures[1], DeletionFailure { candidate: 1, message: "b".to_string() });
}

#[test]
fn live_report_without_failures_writes_no_error_line() {
    let report = live_report(&summarize(vec![Ok(()), Ok(()), Ok(())]));
    assert_eq!(report.stdout, lines(&["Successfully deleted 3 files"]));
    assert!(report.stderr.is_empty());
}

#[test]
fn live_report_lists_each_failure() {
    let outcomes = vec![
        Err("Permission denied (os error 13)".to_string()),
        Ok(()),
        Err("No such file or directory (os error 2)".to_string()),
    ];
    let report = live_report(&summarize(outcomes));
    assert_eq!(report.stdout, lines(&["Successfully deleted 1 files"]));
    assert_eq!(
        report.stderr,
        lines(&[
            "Failed to delete 2 files:",
            "- Permission denied (os error 13)",
            "- No such file or directory (os error 2)",
        ])
    );
}

#[test]
fn live_report_of_nothing_to_delete() {
    let report = live_report(&summarize(Vec::new()));
    assert_eq!(report.stdout, lines(&["Successfully deleted 0 files"]));
    assert!(report.stderr.is_empty());
}

#[test]
fn reported_numbers_add_up_to_the_candidates() {
    let outcomes: Vec<Result<(), String>> =
        (0..25).map(|i| if i % 3 == 0 { Err("busy".to_string()) } else { Ok(()) }).collect();
    let report = live_report(&summarize(outcomes));
    assert_eq!(report.stdout, lines(&["Successfully deleted 16 files"]));
    assert_eq!(report.stderr[0], "Failed to delete 9 files:");
    assert_eq!(report.stderr.len(), 10);
}
