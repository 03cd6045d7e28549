use transcriber::records::FileRecord;
use transcriber::resolve::{classify, resolve, Decision};

fn rec(name: &str, path: &str, modified: u64, size: u64) -> FileRecord {
    FileRecord::new(name.to_string(), path.to_string(), modified, size)
}

#[test]
fn new_source_without_output_needs_processing() {
    // a.m4a, 5000 bytes, mtime T1, no existing a.txt
    let src = rec("a.m4a", "/src/a.m4a", 100, 5000);
    let outputs: Vec<FileRecord> = Vec::new();
    assert_eq!(classify(&src, &outputs, 0), Decision::NeedsProcessing);
}

#[test]
fn successful_pass_makes_source_stale() {
    // after the pipeline succeeds, a.txt exists with mtime >= T1 and the
    // source is skipped
    let src = rec("a.m4a", "/src/a.m4a", 100, 5000);
    let outputs = vec![rec("a.txt", "/out/a.txt", 150, 42)];
    assert_eq!(classify(&src, &outputs, 0), Decision::SkipStale);
}

#[test]
fn fresher_output_skips_stale() {
    // source mtime T1, output mtime T2 > T1
    let src = rec("a.m4a", "/src/a.m4a", 100, 5000);
    let outputs = vec![rec("a.txt", "/out/a.txt", 200, 42)];
    let cands = resolve(&vec![src], &outputs, "m4a", 0);
    assert_eq!(cands.len(), 1);
    assert_eq!(cands[0].decision, Decision::SkipStale);
}

#[test]
fn equal_timestamps_count_as_up_to_date() {
    let src = rec("a.m4a", "/src/a.m4a", 100, 5000);
    let outputs = vec![rec("a.txt", "/out/a.txt", 100, 42)];
    assert_eq!(classify(&src, &outputs, 0), Decision::SkipStale);
}

#[test]
fn source_newer_than_output_needs_processing() {
    let src = rec("a.m4a", "/src/a.m4a", 300, 5000);
    let outputs = vec![rec("a.txt", "/out/a.txt", 200, 42)];
    assert_eq!(classify(&src, &outputs, 0), Decision::NeedsProcessing);
}

#[test]
fn tiny_source_skips_too_small_even_without_output() {
    // b.mov, 10 bytes, minimum size 9999999, no output at all
    let src = rec("b.mov", "/src/b.mov", 100, 10);
    let outputs: Vec<FileRecord> = Vec::new();
    assert_eq!(classify(&src, &outputs, 9999999), Decision::SkipTooSmall);
}

#[test]
fn size_gate_wins_over_staleness() {
    let src = rec("b.mov", "/src/b.mov", 300, 10);
    let outputs = vec![rec("b.txt", "/out/b.txt", 200, 42)];
    assert_eq!(classify(&src, &outputs, 9999999), Decision::SkipTooSmall);
}

#[test]
fn resolve_drops_other_extensions() {
    let sources = vec![
        rec("a.m4a", "/src/a.m4a", 100, 5000),
        rec("notes.txt", "/src/notes.txt", 100, 5000),
        rec("b.mp3", "/src/b.mp3", 100, 5000),
    ];
    let outputs: Vec<FileRecord> = Vec::new();
    let cands = resolve(&sources, &outputs, "m4a", 0);
    assert_eq!(cands.len(), 1);
    assert_eq!(cands[0].record.name, "a.m4a");
    assert_eq!(cands[0].output_name, "a.txt");
    assert_eq!(cands[0].decision, Decision::NeedsProcessing);
}

#[test]
fn dotless_name_equal_to_extension_matches() {
    // the final dot-segment of "m4a" is "m4a" itself
    let sources = vec![rec("m4a", "/src/m4a", 100, 5000)];
    let outputs: Vec<FileRecord> = Vec::new();
    let cands = resolve(&sources, &outputs, "m4a", 0);
    assert_eq!(cands.len(), 1);
    assert_eq!(cands[0].output_name, ".txt");
}

#[test]
fn second_pass_on_unchanged_tree_selects_nothing() {
    let sources = vec![
        rec("a.m4a", "/src/a.m4a", 100, 5000),
        rec("b.m4a", "/src/b.m4a", 250, 7000),
        rec("c.m4a", "/src/c.m4a", 90, 100),
    ];
    let outputs = vec![rec("b.txt", "/out/b.txt", 200, 42)];
    let first = resolve(&sources, &outputs, "m4a", 500);
    let selected: Vec<String> = first
        .iter()
        .filter(|c| c.decision == Decision::NeedsProcessing)
        .map(|c| c.output_name.clone())
        .collect();
    assert_eq!(selected, vec!["a.txt".to_string(), "b.txt".to_string()]);

    // simulate the completed pass: each selected output now exists, written
    // after its source was modified; untouched outputs keep their record
    let outputs_after = vec![
        rec("a.txt", "/out/a.txt", 400, 10),
        rec("b.txt", "/out/b.txt", 400, 10),
    ];
    let second = resolve(&sources, &outputs_after, "m4a", 500);
    assert_eq!(second.len(), 3);
    assert!(second.iter().all(|c| c.decision != Decision::NeedsProcessing));
}

#[test]
fn failed_pipeline_leaves_source_selected() {
    // the extractor failed, so no output record appeared: the next pass
    // still selects the file
    let src = rec("b.mov", "/src/b.mov", 100, 5000);
    let outputs: Vec<FileRecord> = Vec::new();
    assert_eq!(classify(&src, &outputs, 0), Decision::NeedsProcessing);
    let outputs_after_failure: Vec<FileRecord> = Vec::new();
    assert_eq!(classify(&src, &outputs_after_failure, 0), Decision::NeedsProcessing);
}
