use winnow_core::numeric::is_number;
use winnow_core::paths::path_join;
use winnow_core::text::{sort_strings, str_less, trim_str};

#[test]
fn numbers_are_what_f64_parsing_accepts() {
    let samples = [
        "1", "1.5", "-2", "+3.", ".5", "5.", "1e3", "1E-3", "2e+9", "inf", "-Infinity", "NaN", "nan",
        "infinity", "INF", "", ".", "+", "-", "e5", "1e", "1e+", "1.2.3", "1..2", "abc", "0x10", " 1", "1 ",
        "1_000", "١", "--1", "+-1", "1e1e1", "1.e5", ".e5", "infinit", "nanx", "0", "00.000e-0",
    ];
    for s in samples {
        assert_eq!(is_number(s), s.parse::<f64>().is_ok(), "{s:?}");
    }
}

#[test]
fn strings_sort_by_code_point() {
    let v: Vec<String> = ["b", "B", "a", "ab", "", "é"].iter().map(|s| s.to_string()).collect();
    let mut want = v.clone();
    want.sort();
    assert_eq!(sort_strings(v), want);
    assert!(str_less("a", "b"));
    assert!(!str_less("b", "b"));
}

#[test]
fn trimming_and_joining() {
    assert_eq!(trim_str("  x y\t\n"), "x y");
    assert_eq!(path_join("/a", "b"), "/a/b");
    assert_eq!(path_join("/a/", "b"), "/a/b");
    assert_eq!(path_join("", "b"), "b");
    assert_eq!(path_join("/a", "/b"), "/b");
}
