use winnow_core::guide::{guide, skill_markdown, GUIDE, SKILL_DESCRIPTION};

#[test]
fn guide_is_headed_by_the_version() {
    let g = guide("1.2.3");
    assert!(g.starts_with("<!-- winnow 1.2.3 -->\n# Preparing images for review in winnow"));
    assert_eq!(g.len(), "<!-- winnow 1.2.3 -->\n".len() + GUIDE.len());
}

#[test]
fn skill_file_has_front_matter_guide_and_note() {
    let s = skill_markdown("0.1.0");
    let head = format!("---\nname: winnow\ndescription: {SKILL_DESCRIPTION}\n---\n\n<!-- winnow 0.1.0 -->\n");
    assert!(s.starts_with(&head));
    assert!(SKILL_DESCRIPTION.starts_with("How to prepare image folders for review in winnow (the keyboard-driven"));
    assert!(s.contains(GUIDE));
    assert!(s.ends_with(
        "\n_Installed by `winnow --install-skill`; `winnow --agent-help` prints the guide for the installed winnow version. Re-run `winnow --install-skill` after upgrading._\n"
    ));
}
