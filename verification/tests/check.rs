use winnow_core::buckets::{default_reject, BucketError};
use winnow_core::check::{check, CheckReport, Level};
use winnow_core::metadata::Metadata;
use winnow_core::model::Session;

const ROOT: &str = "/data/check";

fn has(r: &CheckReport, level: Level, needle: &str) -> bool {
    r.lines.iter().any(|(l, s)| *l == level && s.contains(needle))
}

/// The session over `rels` (relative to the root), as a scan would list them.
fn session(rels: &[&str]) -> Session {
    Session::new(
        ROOT.to_string(),
        true,
        vec![default_reject()],
        vec![0],
        format!("{ROOT}/.winnow.toml"),
        Metadata::empty(),
        rels.iter().map(|r| format!("{ROOT}/{r}")).collect(),
    )
}

/// Parse `csv` as the metadata file and make its keys relative to the root.
fn meta(csv: &str) -> Result<Metadata, String> {
    match Metadata::load_csv("metadata.csv", csv.as_bytes()) {
        Ok(mut m) => {
            m.relativize(ROOT);
            Ok(m)
        }
        Err(e) => Err(e.to_string()),
    }
}

fn run(rels: &[&str], csv: &str, moved: &[&str]) -> CheckReport {
    let s = Ok(session(rels));
    let moved: Vec<String> = moved.iter().map(|m| m.to_string()).collect();
    let path = format!("{ROOT}/metadata.csv");
    check(ROOT, true, true, &s, Some(&path), true, &meta(csv), &moved)
}

const FOUR: [&str; 4] = ["a/x.jpg", "a/y.jpg", "b/x.jpg", "b/z.jpg"];

#[test]
fn good_file_passes_with_useful_notes() {
    let csv = format!("path,conf,label\na/x.jpg,0.9,crack\n{ROOT}/a/y.jpg,0.2,\nb/x.jpg,0.5,ok\n");
    let r = run(&FOUR, &csv, &[]);
    assert!(!r.has_errors(), "{}", r.render());
    assert!(has(&r, Level::Info, "Images with a row: 3 of 4"), "{}", r.render());
    assert!(has(&r, Level::Warn, "'b/z.jpg'"), "{}", r.render());
    assert!(has(&r, Level::Info, "Column 'conf': numeric"), "{}", r.render());
    assert!(has(&r, Level::Info, "Column 'label': text"), "{}", r.render());
}

#[test]
fn wrong_relative_base_is_an_error() {
    let r = run(&FOUR, "path,conf\ndata/a/q.jpg,1\n", &[]);
    assert!(has(&r, Level::Error, "No image matched any row"), "{}", r.render());
}

#[test]
fn flags_ambiguous_names_mixed_columns_orphans_and_missing_path_column() {
    // a/y.jpg was moved into _rejected/a/y.jpg, so the scan no longer sees it.
    let r = run(
        &["a/x.jpg", "b/x.jpg", "b/z.jpg"],
        "img_id,score\nx.jpg,1\nz.jpg,n/a\na/y.jpg,2\ngone.jpg,3\n",
        &["a/y.jpg"],
    );
    assert!(has(&r, Level::Warn, "No path column found"), "{}", r.render());
    assert!(has(&r, Level::Warn, "apply to several images"), "{}", r.render());
    assert!(has(&r, Level::Warn, "'n/a'"), "{}", r.render());
    assert!(has(&r, Level::Info, "1 row(s) belong to images already moved"), "{}", r.render());
    assert!(has(&r, Level::Warn, "'gone.jpg'"), "{}", r.render());
}

#[test]
fn wrong_folder_prefix_is_flagged_even_when_filename_matches() {
    let r = run(&FOUR, "image_path,s\nold/a/y.jpg,1\n", &[]);
    assert!(has(&r, Level::Info, "Path column: 'image_path'"), "{}", r.render());
    assert!(has(&r, Level::Warn, "'old/a/y.jpg' for image 'a/y.jpg'"), "{}", r.render());
}

#[test]
fn missing_and_unsupported_files_are_errors() {
    let s = Ok(session(&FOUR));
    let none: Result<Metadata, String> = Err(String::new());
    let r = check(ROOT, true, true, &s, None, false, &none, &[]);
    assert!(has(&r, Level::Error, "No metadata file"));
    let json = format!("{ROOT}/m.json");
    let r = check(ROOT, true, true, &s, Some(&json), true, &none, &[]);
    assert!(has(&r, Level::Error, "Unsupported"), "{}", r.render());
}

#[test]
fn whole_report_of_a_small_folder() {
    let r = run(&["a.jpg", "b.jpg"], "path,conf\na.jpg,1\nb.jpg,x\n", &[]);
    let text = r.render();
    assert_eq!(
        text,
        format!(
            "      Folder: {ROOT}\n      Images to review: 2 (recursive; bucket folders skipped: _rejected)\n      Metadata: {ROOT}/metadata.csv\n      Path column: 'path'\n      Rows: 2, other columns: conf\n      Images with a row: 2 of 2\nWARN  Column 'conf': 1 numbers but 1 text value(s) such as 'x' — text sorts after all numbers; leave cells blank instead\n      Try: winnow {ROOT} --sort meta:conf --sort-desc\nResult: OK, 1 warning(s)"
        )
    );
    assert_eq!(r.count(Level::Warn), 1);
    assert_eq!(r.count(Level::Info), 7);
}

#[test]
fn early_stops_each_give_one_error() {
    let s = Ok(session(&FOUR));
    let none: Result<Metadata, String> = Err("bad quote".into());
    let r = check("/nope", false, true, &s, None, false, &none, &[]);
    assert_eq!(r.lines.len(), 1);
    assert!(has(&r, Level::Error, "/nope is not a folder"));

    let bad: Result<Session, BucketError> = Err(BucketError::DuplicateKey("1".into()));
    let r = check(ROOT, true, true, &bad, None, false, &none, &[]);
    assert_eq!(r.lines.len(), 1);
    assert!(has(&r, Level::Error, "Bucket config: bucket reuses hotkey '1'"));

    let p = format!("{ROOT}/metadata.TSV");
    let r = check(ROOT, true, false, &s, Some(&p), false, &none, &[]);
    assert!(has(&r, Level::Info, "(top level only;"));
    assert!(has(&r, Level::Error, "metadata.TSV does not exist"));

    let r = check(ROOT, true, true, &s, Some(&p), true, &none, &[]);
    assert!(has(&r, Level::Error, "Could not parse: bad quote"));
    assert!(r.render().ends_with("Result: 1 error(s), 0 warning(s)"));
}

#[test]
fn empty_file_and_duplicates() {
    let r = run(&FOUR, "path,conf\n", &[]);
    assert!(has(&r, Level::Error, "The file has no data rows"));
    let r = run(&FOUR, "path,c\na/x.jpg,1\na/x.jpg,2\n", &[]);
    assert!(has(&r, Level::Warn, "1 path(s) appear on more than one row; the last row wins: 'a/x.jpg'"));
}

#[test]
fn examples_are_sorted_and_capped() {
    let rels = ["a1.jpg", "a2.jpg", "a3.jpg", "a4.jpg", "a5.jpg", "a6.jpg", "a7.jpg", "k.jpg"];
    let r = run(&rels, "path,c\nk.jpg,1\n", &[]);
    assert!(
        has(
            &r,
            Level::Warn,
            "7 image(s) have no row (shown with blank values, sorted last): 'a1.jpg', 'a2.jpg', 'a3.jpg', 'a4.jpg', 'a5.jpg', … (+2)"
        ),
        "{}",
        r.render()
    );
}

#[test]
fn name_only_matches_are_noted() {
    let r = run(&["sub/a.jpg"], "path,c\na.jpg,1\n", &[]);
    assert!(has(&r, Level::Info, "1 image(s) matched by filename only (key without subfolder)"));
    let r = run(&["a.jpg"], "path,c\na.jpg,\n", &[]);
    assert!(has(&r, Level::Warn, "Column 'c': every cell is blank"));
}
