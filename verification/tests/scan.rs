use winnow_core::scan::{is_image, skip_folder};

#[test]
fn is_image_checks_extension_case_insensitively() {
    assert!(is_image("a/b.JPG"));
    assert!(is_image("x.png"));
    assert!(!is_image("notes.txt"));
    assert!(!is_image("no_ext"));
}

#[test]
fn hidden_and_bucket_folders_are_skipped() {
    let ex = vec!["_rejected".to_string()];
    assert!(skip_folder(".hidden", &ex));
    assert!(skip_folder("_rejected", &ex));
    assert!(!skip_folder("sub", &ex));
    assert!(!skip_folder("_crack", &ex));
}

#[test]
fn image_extensions_cover_the_viewer_formats() {
    for e in ["jpeg", "jpe", "TIFF", "webp", "Ico", "xpm"] {
        assert!(is_image(&format!("p.{e}")), "{e}");
    }
    assert!(!is_image(".jpg"));
    assert!(is_image("dir.jpg/"));
}
