use winnow_core::buckets::{default_reject, Bucket};
use winnow_core::keys::{context_menu, hotkey_target, key_action, mouse_action, Action};
use winnow_core::metadata::Metadata;
use winnow_core::model::Session;
use winnow_core::ui::{
    added_message, chip_markup, chip_tooltip, help_markup, key_label, link_target, linkify_markup, markup_escape,
    remove_question, status_text,
};

fn buckets() -> Vec<Bucket> {
    vec![
        default_reject(),
        Bucket { name: "crack".into(), key: "1".into(), folder: "_crack".into(), is_reject: false },
        Bucket { name: "fence".into(), key: "f".into(), folder: "_fence".into(), is_reject: false },
    ]
}

#[test]
fn markup_is_escaped_like_glib() {
    assert_eq!(markup_escape("a<b>&'\"c"), "a&lt;b&gt;&amp;&#39;&quot;c");
    assert_eq!(markup_escape("tab\tnl\n\u{1}\u{1f}\u{7f}\u{85}\u{9f}é"), "tab\tnl\n&#x1;&#x1f;&#x7f;\u{85}&#x9f;é");
}

#[test]
fn links_in_text_become_anchors() {
    let (m, found) = linkify_markup("see www.example.com/a?b=1&c=2. or https://x.org/<p>");
    assert!(found);
    assert_eq!(
        m,
        "see <a href=\"https://www.example.com/a?b=1&amp;c=2\">www.example.com/a?b=1&amp;c=2</a>. or <a href=\"https://x.org/&lt;p\">https://x.org/&lt;p</a>&gt;"
    );
    let (m, found) = linkify_markup("no  links <here>");
    assert!(!found);
    assert_eq!(m, "no  links &lt;here&gt;");
    assert_eq!(linkify_markup("").0, "");
}

#[test]
fn single_link_values_open_directly() {
    assert_eq!(link_target("  www.a.org  "), Some("https://www.a.org".to_string()));
    assert_eq!(link_target("ftp://h/f"), Some("ftp://h/f".to_string()));
    assert_eq!(link_target("https://a.org b"), None);
    assert_eq!(link_target("plain"), None);
}

#[test]
fn chips_show_key_name_and_count() {
    assert_eq!(key_label("Delete"), "Del");
    assert_eq!(key_label("BackSpace"), "⌫");
    assert_eq!(key_label("1"), "1");
    assert_eq!(chip_markup("Delete", "reject", 3), "<b>Del</b>  reject  <span alpha=\"60%\">3</span>");
    assert_eq!(chip_markup("", "a&b", 0), "a&amp;b  <span alpha=\"60%\">0</span>");
    assert_eq!(chip_tooltip(&default_reject()), "Move to _rejected/");
    assert_eq!(chip_tooltip(&buckets()[1]), "Move to _crack/ · right-click to rename / remove");
}

#[test]
fn messages_for_bucket_edits() {
    assert_eq!(added_message("crack", "1"), "Added bucket “crack” (key 1)");
    assert_eq!(added_message("x", ""), "Added bucket “x” (click its chip)");
    assert_eq!(
        remove_question("x", 2, "_x"),
        "Remove “x”? Its 2 image(s) stay in _x/ and rejoin the queue next time this folder is opened."
    );
}

#[test]
fn status_line_and_title() {
    let s = Session::new(
        "/r".into(),
        true,
        vec![default_reject()],
        vec![0],
        "/r/.winnow.toml".into(),
        Metadata::empty(),
        vec!["/r/a.jpg".into(), "/r/sub/b.jpg".into()],
    );
    let mut s = s;
    s.next();
    assert_eq!(status_text(&s), ("2/2 — sub/b.jpg".to_string(), "2/2 — sub/b.jpg".to_string()));
    let e = Session::empty();
    assert_eq!(status_text(&e).0, "No folder open — press Ctrl+O or “Open”");
    assert_eq!(status_text(&e).1, "winnow");
}

#[test]
fn shortcuts_list_has_a_row_per_bucket() {
    let h = help_markup(&buckets());
    assert!(h.starts_with("<b>Navigation</b>\n  <tt>→ / Space                 </tt> Next image\n"));
    assert!(h.contains("  <tt>Delete / Backspace / x    </tt> Reject → move to _rejected/\n"));
    assert!(h.contains("  <tt>1                         </tt> Move to “crack” (_crack/)\n"));
    assert!(h.contains("<b>Zoom &amp; pan</b>\n"));
    assert!(h.ends_with("  <tt>? / F1                    </tt> This shortcuts list\n"));
}

#[test]
fn keys_map_to_actions() {
    let b = buckets();
    assert_eq!(key_action(false, false, false, Some("1"), &b), Some(Action::MoveCurrent(1)));
    // A bucket hotkey wins over the plain meaning of the key.
    assert_eq!(key_action(false, false, false, Some("f"), &b), Some(Action::MoveCurrent(2)));
    assert_eq!(key_action(false, false, false, Some("a"), &b), Some(Action::ActualSize));
    assert_eq!(key_action(false, false, false, Some("Delete"), &b), Some(Action::MoveCurrent(0)));
    assert_eq!(key_action(false, false, false, Some("BackSpace"), &b), Some(Action::MoveCurrent(0)));
    assert_eq!(key_action(false, false, true, Some("X"), &b), Some(Action::MoveCurrent(0)));
    assert_eq!(key_action(false, false, false, Some("Page_Up"), &b), Some(Action::Jump(-10)));
    assert_eq!(key_action(false, false, false, Some("space"), &b), Some(Action::Next));
    assert_eq!(key_action(false, false, false, Some("q"), &b), None);
    assert_eq!(key_action(false, false, false, None, &b), None);
    assert_eq!(key_action(false, true, false, Some("z"), &b), Some(Action::Undo));
    assert_eq!(key_action(false, true, true, Some("z"), &b), Some(Action::Redo));
    assert_eq!(key_action(false, true, true, Some("c"), &b), Some(Action::CopyPath));
    assert_eq!(key_action(false, true, false, Some("x"), &b), None);
    assert_eq!(key_action(false, true, false, Some("1"), &b), None);
    assert_eq!(key_action(true, false, false, Some("1"), &b), Some(Action::MoveSelection(1)));
    assert_eq!(key_action(true, false, false, Some("Escape"), &b), Some(Action::ToggleView));
    assert_eq!(key_action(true, false, false, Some("KP_Enter"), &b), Some(Action::OpenSelected));
    assert_eq!(key_action(true, true, false, Some("1"), &b), None);
    assert_eq!(hotkey_target(&b, "DELETE"), Some(0));
    assert_eq!(hotkey_target(&b, "7"), None);
}

#[test]
fn mouse_buttons_and_context_menu() {
    assert_eq!(mouse_action(1, 2), Some(Action::Fullscreen));
    assert_eq!(mouse_action(1, 1), None);
    assert_eq!(mouse_action(8, 1), Some(Action::Prev));
    assert_eq!(mouse_action(9, 3), Some(Action::Next));
    let menu = context_menu(&buckets());
    let labels: Vec<&str> = menu.iter().map(|(l, _)| l.as_str()).collect();
    assert_eq!(
        labels,
        vec![
            "Next  →",
            "Previous  ←",
            "",
            "Reject  (Delete)",
            "Move to “crack”  (1)",
            "Move to “fence”  (f)",
            "Undo  (Ctrl+Z)",
            "",
            "Fit to window  (f)",
            "Actual size  (a)",
            "Fullscreen  (F11)",
            "",
            "Copy filename  (Ctrl+C)",
            "Copy path  (Ctrl+Shift+C)",
            "Copy image file  (Ctrl+Shift+X)",
            "",
            "Shortcuts…  (?)",
        ]
    );
    assert_eq!(menu[4].1, Some(Action::MoveCurrent(1)));
    assert_eq!(menu[2].1, None);
}

#[test]
fn text_without_links_is_only_escaped() {
    for t in ["a < b & c", "  two  spaces ", "", "x'y\"z"] {
        let (m, found) = linkify_markup(t);
        assert!(!found);
        assert_eq!(m, markup_escape(t));
    }
}

#[test]
fn bulk_moves_are_reported() {
    let b = buckets();
    assert_eq!(winnow_core::ui::bulk_message(&b[0], 3), "Rejected 3 image(s)");
    assert_eq!(winnow_core::ui::bulk_message(&b[1], 1), "→ crack 1 image(s)");
}

#[test]
fn details_panel_rows_follow_columns() {
    let m = Metadata::load_csv("m.csv", b"path,conf,url\nsub/a.jpg,0.5,www.x.org\n").ok().unwrap();
    let rows = winnow_core::ui::metadata_rows(&m, "sub/a.jpg");
    assert_eq!(
        rows,
        vec![("conf".to_string(), "0.5".to_string()), ("url".to_string(), "www.x.org".to_string())]
    );
    assert!(winnow_core::ui::metadata_rows(&m, "other/b.jpg").is_empty());
    // a row found by file name only
    assert_eq!(winnow_core::ui::metadata_rows(&m, "a.jpg").len(), 2);
}

#[test]
fn launcher_file_names_the_program() {
    let e = winnow_core::launcher::desktop_entry("/usr/bin/winnow");
    assert!(e.starts_with("[Desktop Entry]\nType=Application\n"));
    assert!(e.contains("\nExec=/usr/bin/winnow %f\n"));
    assert!(e.ends_with(&format!("MimeType={}\n", winnow_core::launcher::MIME)));
}

#[test]
fn images_are_found_by_path() {
    let s = Session::new(
        "/r".into(),
        true,
        vec![default_reject()],
        vec![0],
        "/r/.winnow.toml".into(),
        Metadata::empty(),
        vec!["/r/a.jpg".into(), "/r/b.jpg".into(), "/r/a.jpg".into()],
    );
    assert_eq!(s.position_of("/r/a.jpg"), Some(0));
    assert_eq!(s.position_of("/r/b.jpg"), Some(1));
    assert_eq!(s.position_of("/r/c.jpg"), None);
}
