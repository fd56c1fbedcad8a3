use winnow_core::metadata::{find_metadata, metadata_candidates, Metadata};
use winnow_core::sortkey::{stable_order, SortKey};

/// The number a trimmed cell reads as, as the bits of an `f64`.
fn number_of(cell: &str) -> Option<u64> {
    cell.trim().parse::<f64>().ok().map(f64::to_bits)
}

fn sort_value(m: &Metadata, rel: &str, col: &str) -> SortKey {
    let cell = m.cell_text(rel, col);
    m.sort_value(rel, col, number_of(&cell))
}

#[test]
fn sortkey_orders_num_then_text_then_missing() {
    let v = vec![
        SortKey::Missing,
        SortKey::Text("b".into()),
        SortKey::Num(5.0f64.to_bits()),
        SortKey::Num(2.0f64.to_bits()),
        SortKey::Text("a".into()),
    ];
    let order = stable_order(&v);
    let sorted: Vec<&SortKey> = order.iter().map(|&i| &v[i]).collect();
    assert_eq!(
        sorted,
        vec![
            &SortKey::Num(2.0f64.to_bits()),
            &SortKey::Num(5.0f64.to_bits()),
            &SortKey::Text("a".into()),
            &SortKey::Text("b".into()),
            &SortKey::Missing,
        ]
    );
}

#[test]
fn numbers_sort_as_total_cmp_does() {
    let xs = [3.5f64, -0.0, 0.0, -7.25, f64::INFINITY, f64::NEG_INFINITY, 1e-300, -1e300];
    let v: Vec<SortKey> = xs.iter().map(|x| SortKey::Num(x.to_bits())).collect();
    let order = stable_order(&v);
    let got: Vec<f64> = order.iter().map(|&i| xs[i]).collect();
    let mut want = xs.to_vec();
    want.sort_by(|a, b| a.total_cmp(b));
    assert_eq!(got.iter().map(|x| x.to_bits()).collect::<Vec<_>>(), want.iter().map(|x| x.to_bits()).collect::<Vec<_>>());
}

#[test]
fn equal_keys_keep_their_order() {
    let v = vec![SortKey::Text("b".into()), SortKey::Missing, SortKey::Text("b".into()), SortKey::Missing];
    assert_eq!(stable_order(&v), vec![0, 2, 1, 3]);
}

#[test]
fn loads_csv_and_resolves_paths() {
    let m = Metadata::load_csv("meta.csv", b"path,severity,note\nline12/a.jpg,3,hairline\nline12/b.jpg,,\n")
        .ok()
        .unwrap();
    assert_eq!(m.columns, vec!["severity", "note"]);
    assert_eq!(m.get("line12/a.jpg").unwrap().get("severity").unwrap(), "3");
    // basename fallback
    assert!(m.get("a.jpg").is_some());
    assert_eq!(sort_value(&m, "line12/a.jpg", "severity"), SortKey::Num(3.0f64.to_bits()));
    assert_eq!(sort_value(&m, "line12/b.jpg", "severity"), SortKey::Missing);
    assert_eq!(sort_value(&m, "line12/a.jpg", "note"), SortKey::Text("hairline".into()));
}

#[test]
fn absolute_and_dot_paths_are_made_relative() {
    let mut m = Metadata::load_csv("meta.csv", b"file,score\n/data/set/sub/a.jpg,1\n./b.jpg,2\nc.jpg,3\nc.jpg,4\n")
        .ok()
        .unwrap();
    assert_eq!(m.key_column, "file");
    assert!(m.key_column_recognized);
    assert_eq!(m.duplicate_keys, vec!["c.jpg"]);
    m.relativize("/data/set/");
    assert_eq!(m.row_key("sub/a.jpg"), Some(("sub/a.jpg", true)));
    assert_eq!(m.row_key("b.jpg"), Some(("b.jpg", true)));
    assert_eq!(m.row_key("x/c.jpg"), Some(("c.jpg", false)));
    assert_eq!(m.value("c.jpg", "score"), Some("4"));
}

#[test]
fn tab_separated_files_split_on_tabs() {
    let m = Metadata::load_csv("meta.tsv", b"name\tconf\na.jpg\t0.5\n").ok().unwrap();
    assert_eq!(m.columns, vec!["conf"]);
    assert_eq!(m.value("a.jpg", "conf"), Some("0.5"));
    let m = Metadata::load_csv("meta.TSV", b"name\tconf\na.jpg\t0.5\n").ok().unwrap();
    assert_eq!(m.columns.len(), 0);
}

#[test]
fn first_column_is_the_fallback_path_column() {
    let m = Metadata::load_csv("meta.csv", b" id ,score\nx.jpg,1\n").ok().unwrap();
    assert_eq!(m.key_column, "id");
    assert!(!m.key_column_recognized);
    assert_eq!(m.keys(), vec!["x.jpg"]);
}

#[test]
fn ambiguous_basenames_do_not_match() {
    let m = Metadata::load_csv("meta.csv", b"path,s\nd1/x.jpg,1\nd2/x.jpg,2\n").ok().unwrap();
    assert_eq!(m.row_key("other/x.jpg"), None);
    assert_eq!(m.row_key("d2\\x.jpg"), Some(("d2/x.jpg", true)));
    assert!(!m.is_empty());
    assert!(Metadata::empty().is_empty());
}

#[test]
fn unparsable_csv_is_an_error() {
    assert!(Metadata::load_csv("meta.csv", b"a,b\n\xff,1\n").is_err());
}

#[test]
fn metadata_is_looked_for_in_order() {
    assert_eq!(metadata_candidates("/r"), vec!["/r/metadata.csv", "/r/metadata.tsv"]);
    assert_eq!(find_metadata("/r", &[false, true]), Some("/r/metadata.tsv".to_string()));
    assert_eq!(find_metadata("/r", &[true, true]), Some("/r/metadata.csv".to_string()));
    assert_eq!(find_metadata("/r", &[false, false]), None);
}

#[test]
fn relativize_ignores_a_trailing_slash_on_the_root() {
    let data: &[u8] = b"file,score\n/data/set/sub/a.jpg,1\n/data/set/b.jpg,2\n/other/c.jpg,3\n";
    let mut m1 = Metadata::load_csv("meta.csv", data).ok().unwrap();
    let mut m2 = Metadata::load_csv("meta.csv", data).ok().unwrap();
    m1.relativize("/data/set/");
    m2.relativize("/data/set");
    let mut k1 = m1.keys();
    let mut k2 = m2.keys();
    k1.sort();
    k2.sort();
    assert_eq!(k1, k2);
    assert_eq!(k1, vec!["/other/c.jpg", "b.jpg", "sub/a.jpg"]);
}
