use stem_reconcile::index::DirectoryIndex;
use stem_reconcile::listing::{index_listing, ListedEntry};
use stem_reconcile::reconcile::{deletion_candidates, reconcile, Directory, DirectoryReadError, Plan};
use stem_reconcile::report::{dry_run_report, live_report, summarize};

fn listing(names: &[&str]) -> Vec<ListedEntry<String>> {
    names
        .iter()
        .map(|name| ListedEntry {
            file_name: Some(name.to_string()),
            is_regular_file: true,
            file: name.to_string(),
        })
        .collect()
}

fn index(names: &[&str]) -> DirectoryIndex<String> {
    index_listing(listing(names))
}

fn names(files: &[&str]) -> Vec<String> {
    files.iter().map(|file| file.to_string()).collect()
}

#[test]
fn files_with_a_converted_counterpart_are_candidates() {
    let destination = index(&["cat.avif", "dog.avif"]);
    let source = index(&["cat.png", "dog.png", "bird.png"]);
    assert_eq!(deletion_candidates(&destination, source), names(&["cat.png", "dog.png"]));
}

#[test]
fn file_without_counterpart_is_never_a_candidate() {
    let destination = index(&["cat.avif"]);
    let source = index(&["bird.png", "cat.png", "cats.png", "ca.png"]);
    assert_eq!(deletion_candidates(&destination, source), names(&["cat.png"]));
}

#[test]
fn nothing_matches_an_empty_destination() {
    let destination = index(&[]);
    let source = index(&["cat.png", "dog.png"]);
    assert!(deletion_candidates(&destination, source).is_empty());
}

#[test]
fn nothing_is_selected_from_an_empty_source() {
    let destination = index(&["cat.avif"]);
    let source = index(&[]);
    assert!(deletion_candidates(&destination, source).is_empty());
}

#[test]
fn source_file_matches_whatever_the_case() {
    let destination = index(&["foo.dst"]);
    let source = index(&["Foo.src"]);
    assert_eq!(deletion_candidates(&destination, source), names(&["Foo.src"]));
    let destination = index(&["FOO.dst"]);
    let source = index(&["foo.src", "fOo.other"]);
    assert_eq!(deletion_candidates(&destination, source), names(&["foo.src", "fOo.other"]));
}

#[test]
fn files_of_one_stem_are_all_candidates() {
    let destination = index(&["img.avif"]);
    let source = index(&["img.ext1", "other.ext1", "img.ext2"]);
    assert_eq!(deletion_candidates(&destination, source), names(&["img.ext1", "img.ext2"]));
}

#[test]
fn number_of_destination_files_under_a_key_does_not_matter() {
    let destination = index(&["img.avif", "img.webp", "IMG.jxl"]);
    let source = index(&["img.png"]);
    assert_eq!(deletion_candidates(&destination, source), names(&["img.png"]));
}

#[test]
fn candidates_of_one_key_stay_together_in_collected_order() {
    let destination = index(&["b.avif", "a.avif"]);
    let source = index(&["a.png", "b.png", "c.png", "A.jpg", "b.gif", "a.bmp"]);
    assert_eq!(
        deletion_candidates(&destination, source),
        names(&["a.png", "A.jpg", "a.bmp", "b.png", "b.gif"])
    );
}

#[test]
fn same_convention_in_both_directories_matches_too() {
    let destination = index(&["cat.png"]);
    let source = index(&["cat.png", "dog.png"]);
    assert_eq!(deletion_candidates(&destination, source), names(&["cat.png"]));
}

#[test]
fn entries_that_are_no_regular_files_match_nothing() {
    let mut derived = listing(&["cat.avif", "dog.avif"]);
    derived[1].is_regular_file = false;
    let mut sources = listing(&["cat.png", "dog.png", "cat.gif"]);
    sources[2].is_regular_file = false;
    assert_eq!(
        deletion_candidates(&index_listing(derived), index_listing(sources)),
        names(&["cat.png"])
    );
}

#[test]
fn dry_run_only_reports() {
    let plan: Result<Plan<String>, DirectoryReadError<String>> =
        reconcile(Ok(index(&["cat.avif", "dog.avif"])), Ok(index(&["cat.png", "dog.png", "bird.png"])), true);
    assert_eq!(plan, Ok(Plan::Report(names(&["cat.png", "dog.png"]))));
}

#[test]
fn dry_run_removes_nothing_however_many_candidates() {
    let many: Vec<String> = (0..500).map(|i| format!("file{}.png", i)).collect();
    let derived: Vec<String> = (0..500).map(|i| format!("FILE{}.avif", i)).collect();
    let many: Vec<&str> = many.iter().map(|name| name.as_str()).collect();
    let derived: Vec<&str> = derived.iter().map(|name| name.as_str()).collect();
    let plan: Result<Plan<String>, DirectoryReadError<u8>> =
        reconcile(Ok(index(&derived)), Ok(index(&many)), true);
    match plan {
        Ok(Plan::Report(candidates)) => assert_eq!(candidates.len(), 500),
        other => panic!("a dry run must only report, got {:?}", other),
    }
}

#[test]
fn live_run_is_to_delete_the_candidates() {
    let plan: Result<Plan<String>, DirectoryReadError<String>> =
        reconcile(Ok(index(&["cat.avif", "dog.avif"])), Ok(index(&["cat.png", "dog.png", "bird.png"])), false);
    assert_eq!(plan, Ok(Plan::Delete(names(&["cat.png", "dog.png"]))));
}

#[test]
fn unreadable_destination_ends_the_run() {
    for dry_run in [true, false] {
        let destination: Result<DirectoryIndex<String>, &str> = Err("no such directory");
        let plan = reconcile(destination, Ok(index(&["cat.png"])), dry_run);
        assert_eq!(
            plan,
            Err(DirectoryReadError { directory: Directory::Destination, cause: "no such directory" })
        );
    }
}

#[test]
fn unreadable_source_ends_the_run() {
    for dry_run in [true, false] {
        let source: Result<DirectoryIndex<String>, &str> = Err("permission denied");
        let plan = reconcile(Ok(index(&["cat.avif"])), source, dry_run);
        assert_eq!(
            plan,
            Err(DirectoryReadError { directory: Directory::Source, cause: "permission denied" })
        );
    }
}

#[test]
fn failure_of_the_destination_comes_first() {
    let destination: Result<DirectoryIndex<String>, u32> = Err(1);
    let source: Result<DirectoryIndex<String>, u32> = Err(2);
    assert_eq!(
        reconcile(destination, source, false),
        Err(DirectoryReadError { directory: Directory::Destination, cause: 1 })
    );
}

#[test]
fn example_dry_run_lists_two_candidates() {
    let plan: Result<Plan<String>, DirectoryReadError<String>> =
        reconcile(Ok(index(&["cat.avif", "dog.avif"])), Ok(index(&["cat.png", "dog.png", "bird.png"])), true);
    let candidates = match plan {
        Ok(Plan::Report(candidates)) => candidates,
        other => panic!("expected a report, got {:?}", other),
    };
    let lines = dry_run_report(&candidates, "png");
    assert_eq!(
        lines,
        names(&[
            "1- `cat.png`",
            "2- `dog.png`",
            "",
            "Dry run: Would delete 2 already processed png files",
        ])
    );
    assert!(lines.iter().all(|line| !line.contains("bird")));
}

#[test]
fn second_live_run_finds_nothing() {
    let derived = ["cat.avif", "dog.avif", "IMG.avif"];
    let sources = ["cat.png", "dog.png", "bird.png", "img.png", "img.gif"];
    let first: Result<Plan<String>, DirectoryReadError<String>> =
        reconcile(Ok(index(&derived)), Ok(index(&sources)), false);
    let removed = match first {
        Ok(Plan::Delete(candidates)) => candidates,
        other => panic!("expected removals, got {:?}", other),
    };
    assert_eq!(removed, names(&["cat.png", "dog.png", "img.png", "img.gif"]));
    let outcomes = removed.iter().map(|_| Ok(())).collect();
    assert_eq!(live_report(&summarize(outcomes)).stdout, names(&["Successfully deleted 4 files"]));

    let left: Vec<&str> =
        sources.iter().copied().filter(|name| !removed.iter().any(|gone| gone == name)).collect();
    assert_eq!(left, vec!["bird.png"]);
    let second: Result<Plan<String>, DirectoryReadError<String>> =
        reconcile(Ok(index(&derived)), Ok(index(&left)), false);
    assert_eq!(second, Ok(Plan::Delete(Vec::new())));
    let report = live_report(&summarize(Vec::new()));
    assert_eq!(report.stdout, names(&["Successfully deleted 0 files"]));
    assert!(report.stderr.is_empty());
}

#[test]
fn second_run_on_one_directory_for_both_finds_nothing() {
    let files = ["cat.png", "dog.png"];
    let first: Result<Plan<String>, DirectoryReadError<String>> =
        reconcile(Ok(index(&files)), Ok(index(&files)), false);
    assert_eq!(first, Ok(Plan::Delete(names(&["cat.png", "dog.png"]))));
    let second: Result<Plan<String>, DirectoryReadError<String>> =
        reconcile(Ok(index(&[])), Ok(index(&[])), false);
    assert_eq!(second, Ok(Plan::Delete(Vec::new())));
}
