use winnow_core::buckets::{default_reject, discover_buckets, render_buckets, Bucket};
use winnow_core::metadata::Metadata;
use winnow_core::model::{dest_candidate, numbered_dest, ImageItem, Session};
use winnow_core::sortkey::SortKey;

const ROOT: &str = "/data/shots";

/// A session over `names` directly under the root, with the reject bucket.
fn session_with(names: &[&str]) -> Session {
    let paths: Vec<String> = names.iter().map(|n| format!("{ROOT}/{n}")).collect();
    Session::new(
        ROOT.to_string(),
        true,
        vec![default_reject()],
        vec![0],
        format!("{ROOT}/.winnow.toml"),
        Metadata::empty(),
        paths,
    )
}

fn make_session(n: usize) -> Session {
    let names: Vec<String> = (0..n).map(|i| format!("img_{i:03}.jpg")).collect();
    let refs: Vec<&str> = names.iter().map(|s| s.as_str()).collect();
    session_with(&refs)
}

/// Move the current image into bucket `b` the way the app does: plan, then
/// record the move to the planned destination.
fn move_current(s: &mut Session, b: usize) -> Option<String> {
    let (_, to) = s.move_plan(s.index, b)?;
    s.move_current_to(b, to)
}

fn undo(s: &mut Session) -> Option<String> {
    let (_, from) = s.undo_plan()?;
    s.undo(from)
}

fn redo(s: &mut Session) -> Option<String> {
    let (_, _, to) = s.redo_plan()?;
    s.redo(to)
}

fn names(s: &Session) -> Vec<String> {
    s.items.iter().map(|i| i.name()).collect()
}

#[test]
fn model_reject_and_undo_roundtrip() {
    let mut s = make_session(5);
    assert_eq!(s.count(), 5);
    s.set_index(2);
    let rejected = s.current().unwrap().rel_path.clone();

    let msg = move_current(&mut s, 0).unwrap();
    assert!(msg.starts_with("Rejected"));
    assert_eq!(s.count(), 4);
    assert_eq!(s.undo_stack.last().unwrap().to_abs, format!("{ROOT}/_rejected/{rejected}"));
    assert!(!names(&s).contains(&rejected));

    undo(&mut s).unwrap();
    assert_eq!(s.count(), 5);
    assert_eq!(s.items[2].abs_path, format!("{ROOT}/{rejected}"));
    assert!(s.undo_stack.is_empty());

    redo(&mut s).unwrap();
    assert_eq!(s.count(), 4);
    assert_eq!(s.undo_stack.last().unwrap().to_abs, format!("{ROOT}/_rejected/{rejected}"));
}

#[test]
fn model_sort_by_name_desc_and_index_resets() {
    let mut s = make_session(4);
    s.set_index(3);
    let keys: Vec<SortKey> = s.items.iter().map(|it| s.sort_value(it, "name", 0, 0, None)).collect();
    s.apply_sort("name", true, keys);
    assert_eq!(s.index, 0);
    assert_eq!(s.items[0].name(), "img_003.jpg");
    assert_eq!(s.items[3].name(), "img_000.jpg");
}

#[test]
fn move_positions_bulk() {
    let mut s = make_session(6);
    let order = Session::bulk_order(&[0, 2, 4]);
    assert_eq!(order, vec![4, 2, 0]);
    let moved: Vec<(usize, String)> = order.iter().map(|&p| (p, s.move_plan(p, 0).unwrap().1)).collect();
    let n = s.move_positions(moved, 0);
    assert_eq!(n, 3);
    assert_eq!(s.count(), 3);
    let dests: Vec<String> = s.undo_stack.iter().map(|op| op.to_abs.clone()).collect();
    assert_eq!(
        dests,
        vec![
            format!("{ROOT}/_rejected/img_004.jpg"),
            format!("{ROOT}/_rejected/img_002.jpg"),
            format!("{ROOT}/_rejected/img_000.jpg"),
        ]
    );
    assert_eq!(names(&s), vec!["img_001.jpg", "img_003.jpg", "img_005.jpg"]);
}

#[test]
fn model_navigation_clamps() {
    let mut s = make_session(3);
    s.prev();
    assert_eq!(s.index, 0);
    s.set_index(99);
    assert_eq!(s.index, 2);
    s.jump(-10);
    assert_eq!(s.index, 0);
}

#[test]
fn existing_bucket_folders_are_discovered_counted_and_skipped() {
    let mut buckets = vec![default_reject()];
    discover_buckets(vec!["_crack".to_string()], &mut buckets);
    let s = Session::new(
        ROOT.to_string(),
        true,
        buckets,
        vec![0, 2],
        format!("{ROOT}/.winnow.toml"),
        Metadata::empty(),
        vec![format!("{ROOT}/todo.jpg")],
    );
    assert_eq!(s.buckets[1].name, "crack");
    assert_eq!(s.buckets[1].key, "1");
    assert_eq!(s.bucket_counts, vec![0, 2]);
    assert_eq!(s.count(), 1);
}

#[test]
fn add_move_undo_updates_counts_and_config() {
    let mut s = session_with(&["img_0.jpg", "img_1.jpg", "img_2.jpg"]);
    assert!(s.add_bucket("  ", 0).is_err());
    let i = s.add_bucket("crack", 0).ok().unwrap();
    assert!(s.add_bucket("Crack", 0).is_err());
    assert_eq!(s.buckets[i].key, "1");
    assert_eq!(s.buckets[i].folder, "_crack");
    assert!(render_buckets(&s.buckets).contains("name = \"crack\"\nkey = \"1\"\nfolder = \"_crack\""));

    move_current(&mut s, i).unwrap();
    assert_eq!(s.bucket_counts[i], 1);
    undo(&mut s).unwrap();
    assert_eq!(s.bucket_counts[i], 0);
    redo(&mut s).unwrap();
    assert_eq!(s.bucket_counts[i], 1);
    assert_eq!(s.undo_stack.last().unwrap().to_abs, format!("{ROOT}/_crack/img_0.jpg"));
}

#[test]
fn adding_bucket_over_existing_folder_pulls_its_images_from_queue() {
    let mut s = session_with(&["_spall/a.jpg", "b.jpg"]);
    assert_eq!(s.count(), 2);
    assert_eq!(s.planned_dir("spall"), format!("{ROOT}/_spall"));
    let i = s.add_bucket("spall", 1).ok().unwrap();
    assert_eq!(s.count(), 1);
    assert_eq!(s.bucket_counts[i], 1);
    assert_eq!(names(&s), vec!["b.jpg"]);
}

#[test]
fn rename_moves_folder_and_keeps_undo_working() {
    let mut s = session_with(&["a.jpg"]);
    let i = s.add_bucket("crak", 0).ok().unwrap();
    move_current(&mut s, i).unwrap();
    let (name, moved) = s.rename_plan(i, "crack").ok().unwrap();
    assert_eq!(moved, Some((format!("{ROOT}/_crak"), format!("{ROOT}/_crack"))));
    s.rename_bucket(i, name, moved);
    assert_eq!(s.buckets[i].name, "crack");
    assert_eq!(s.buckets[i].folder, "_crack");
    assert_eq!(s.undo_stack[0].to_abs, format!("{ROOT}/_crack/a.jpg"));
    assert_eq!(s.undo_stack[0].bucket_name, "crack");
    assert!(s.rename_plan(0, "nope").is_err());
    undo(&mut s).unwrap();
    assert_eq!(s.items[0].abs_path, format!("{ROOT}/a.jpg"));
    assert_eq!(s.bucket_counts[i], 0);
}

#[test]
fn remove_keeps_files_and_updates_config() {
    let mut s = session_with(&["a.jpg"]);
    let i = s.add_bucket("x", 0).ok().unwrap();
    move_current(&mut s, i).unwrap();
    assert!(s.remove_bucket(0).is_err());
    s.remove_bucket(i).ok().unwrap();
    assert_eq!(s.buckets.len(), 1);
    assert_eq!(s.bucket_counts.len(), 1);
    assert_eq!(s.undo_stack[0].to_abs, format!("{ROOT}/_x/a.jpg"));
    assert!(!render_buckets(&s.buckets).contains("[[bucket]]"));
}

#[test]
fn bucket_names_are_checked() {
    let mut s = session_with(&["a.jpg"]);
    assert_eq!(s.add_bucket("   ", 0).err().unwrap(), "Bucket name is empty");
    assert_eq!(s.add_bucket(".hid", 0).err().unwrap(), "“.hid” can't be used as a folder name");
    assert_eq!(s.add_bucket("a/b", 0).err().unwrap(), "“a/b” can't be used as a folder name");
    assert_eq!(s.add_bucket("REJECT", 0).err().unwrap(), "A bucket named “REJECT” already exists");
    assert_eq!(s.add_bucket("rejected", 0).err().unwrap(), "A bucket named “rejected” already exists");
    assert_eq!(s.add_bucket("  ok  ", 0).ok(), Some(1));
    assert_eq!(s.buckets[1].name, "ok");
    assert!(s.rename_plan(1, "Ok").is_ok());
    assert!(s.rename_plan(1, "reject").is_err());
}

#[test]
fn adding_needs_an_open_folder() {
    let mut s = Session::empty();
    assert_eq!(s.add_bucket("x", 0).err().unwrap(), "Open a folder first");
    assert_eq!(s.buckets.len(), 1);
}

#[test]
fn rename_without_convention_keeps_folder() {
    let mut s = session_with(&["a.jpg"]);
    s.buckets.push(Bucket { name: "odd".into(), key: "".into(), folder: "elsewhere".into(), is_reject: false });
    s.bucket_counts.push(0);
    let (name, moved) = s.rename_plan(1, "new").ok().unwrap();
    assert_eq!(moved, None);
    s.rename_bucket(1, name, moved);
    assert_eq!(s.buckets[1].folder, "elsewhere");
    assert_eq!(s.buckets[1].name, "new");
}

#[test]
fn sortable_keys_list_builtins_then_columns() {
    let mut s = make_session(1);
    s.metadata = Metadata::load_csv("m.csv", b"path,conf,label\nimg_000.jpg,1,x\n").ok().unwrap();
    let keys = s.sortable_keys();
    let ids: Vec<&str> = keys.iter().map(|k| k.0.as_str()).collect();
    assert_eq!(ids, vec!["name", "path", "mtime", "size", "meta:conf", "meta:label"]);
    assert_eq!(keys[2].1, "Date modified");
    assert_eq!(keys[5].1, "[meta] label");
}

#[test]
fn sort_values_by_key() {
    let mut s = session_with(&["Sub/IMG.JPG"]);
    s.metadata = Metadata::load_csv("m.csv", b"path,conf,label\nSub/IMG.JPG,1.5,Crack\n").ok().unwrap();
    let it = &s.items[0];
    assert_eq!(s.sort_value(it, "name", 7, 9, None), SortKey::Text("img.jpg".into()));
    assert_eq!(s.sort_value(it, "path", 7, 9, None), SortKey::Text("sub/img.jpg".into()));
    assert_eq!(s.sort_value(it, "mtime", 7, 9, None), SortKey::Num(7));
    assert_eq!(s.sort_value(it, "size", 7, 9, None), SortKey::Num(9));
    assert_eq!(s.sort_value(it, "bogus", 7, 9, None), SortKey::Text("img.jpg".into()));
    assert_eq!(s.sort_value(it, "meta:label", 7, 9, None), SortKey::Text("crack".into()));
    let bits = 1.5f64.to_bits();
    assert_eq!(s.sort_value(it, "meta:conf", 7, 9, Some(bits)), SortKey::Num(bits));
    assert_eq!(s.sort_value(it, "meta:none", 7, 9, None), SortKey::Missing);
}

#[test]
fn numbered_destinations() {
    assert_eq!(numbered_dest("/r/_rejected/a.jpg", 1), "/r/_rejected/a__1.jpg");
    assert_eq!(numbered_dest("/r/_rejected/noext", 12), "/r/_rejected/noext__12");
    assert_eq!(numbered_dest("a.tar.gz", 2), "a.tar__2.gz");
}

#[test]
fn item_paths_are_relative_with_slashes() {
    let it = ImageItem::new("/data/shots/a\\b.jpg".to_string(), "/data/shots");
    assert_eq!(it.rel_path, "a/b.jpg");
    let outside = ImageItem::new("/other/c.jpg".to_string(), "/data/shots");
    assert_eq!(outside.rel_path, "/other/c.jpg");
    assert_eq!(outside.name(), "c.jpg");
}

#[test]
fn undo_and_redo_without_history_do_nothing() {
    let mut s = make_session(2);
    assert!(s.undo_plan().is_none());
    assert!(s.undo("x".to_string()).is_none());
    assert!(s.redo_plan().is_none());
    assert!(s.redo("x".to_string()).is_none());
    assert_eq!(s.count(), 2);
}

#[test]
fn moves_to_a_missing_bucket_are_refused() {
    let mut s = make_session(2);
    assert!(s.move_plan(0, 5).is_none());
    assert!(s.move_current_to(5, "x".to_string()).is_none());
    assert_eq!(s.move_positions(vec![(0, "x".to_string())], 5), 0);
    assert_eq!(s.count(), 2);
}

#[test]
fn category_move_message_names_the_bucket() {
    let mut s = session_with(&["a.jpg", "b.jpg"]);
    let i = s.add_bucket("crack", 0).ok().unwrap();
    s.next();
    let msg = move_current(&mut s, i).unwrap();
    assert_eq!(msg, "→ crack: b.jpg");
    assert_eq!(s.index, 0);
    assert_eq!(undo(&mut s).unwrap(), "Undo: restored b.jpg");
    assert_eq!(s.index, 1);
    assert_eq!(redo(&mut s).unwrap(), "Redo: crack b.jpg");
    assert_eq!(s.bucket_index_by_name("crack"), Some(1));
    assert_eq!(s.bucket_index_by_name("none"), None);
}

#[test]
fn reverse_sort_keeps_numbers_first_and_blanks_last() {
    // keys: 2.0, "b", missing, 5.0, "a"
    let mut s = make_session(5);
    let keys = vec![
        SortKey::Num(2.0f64.to_bits()),
        SortKey::Text("b".to_string()),
        SortKey::Missing,
        SortKey::Num(5.0f64.to_bits()),
        SortKey::Text("a".to_string()),
    ];
    s.apply_sort("meta:c", true, keys);
    assert_eq!(
        names(&s),
        vec!["img_003.jpg", "img_000.jpg", "img_001.jpg", "img_004.jpg", "img_002.jpg"]
    );
    let keys = vec![
        SortKey::Num(2.0f64.to_bits()),
        SortKey::Missing,
        SortKey::Text("x".to_string()),
    ];
    let mut s = make_session(3);
    s.apply_sort("meta:c", true, keys);
    assert_eq!(names(&s), vec!["img_000.jpg", "img_002.jpg", "img_001.jpg"]);
}

#[test]
fn undoing_a_bulk_move_restores_the_list() {
    let mut s = make_session(6);
    let before: Vec<String> = s.items.iter().map(|i| i.abs_path.clone()).collect();
    let order = Session::bulk_order(&[4, 0, 2, 4]);
    let moved: Vec<(usize, String)> = order.iter().map(|&p| (p, s.move_plan(p, 0).unwrap().1)).collect();
    let n = s.move_positions(moved, 0);
    assert_eq!(n, 3);
    assert_eq!(s.bucket_counts, vec![3]);
    for _ in 0..n {
        assert!(undo(&mut s).is_some());
    }
    let after: Vec<String> = s.items.iter().map(|i| i.abs_path.clone()).collect();
    assert_eq!(after, before);
    assert_eq!(s.bucket_counts, vec![0]);
    assert!(s.undo_stack.is_empty());
    assert!(undo(&mut s).is_none());
}

#[test]
fn destination_attempts_start_with_the_planned_name() {
    assert_eq!(dest_candidate("/r/_rejected/a.jpg", 0), "/r/_rejected/a.jpg");
    assert_eq!(dest_candidate("/r/_rejected/a.jpg", 2), "/r/_rejected/a__2.jpg");
    assert_eq!(dest_candidate("/r/_x/notes", 1), "/r/_x/notes__1");
}
