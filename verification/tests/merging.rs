use tinychange::change::TinyChange;
use tinychange::config::{CommandOpts, Config};
use tinychange::merge::{format_changesets, merge_changelog, MergeError};
use tinychange::naming::NameType;
use tinychange::section::find_section;

fn opts_with(cats: &[&str]) -> CommandOpts {
    let config = Config {
        tinylogs_dir: String::from(".tinychanges"),
        changelog: String::from("CHANGELOG.md"),
        categories: cats.iter().map(|c| String::from(*c)).collect(),
        naming: NameType::Buzzword,
        max_filename_length: Some(127),
    };
    CommandOpts::new(
        true,
        false,
        String::from(".tinychanges"),
        String::from("CHANGELOG.md"),
        String::from("."),
        String::from("tinychange"),
        config,
    )
}

fn change(kind: &str, message: &str, author: &str) -> TinyChange {
    TinyChange {
        kind: String::from(kind),
        message: String::from(message),
        author: String::from(author),
    }
}

fn lines_of(doc: &[&str]) -> Vec<String> {
    doc.iter().map(|l| String::from(*l)).collect()
}

#[test]
fn fresh_changelog_from_one_record() {
    let opts = opts_with(&["Added", "Fixed"]);
    let changes = vec![change("Added", "Support X", "Jo")];
    let text = merge_changelog(&opts, None, &changes).unwrap();
    assert_eq!(text, "# Changelog\n\n## [Unreleased]\n\n### Added\n\n- Support X (by Jo)\n");
}

#[test]
fn merge_keeps_existing_section_and_adds_new_one() {
    let opts = opts_with(&["Added", "Fixed"]);
    let old = String::from(
        "# Changelog\n\n## [Unreleased]\n\n### Fixed\n\n- old fix (by A)\n\n## [0.1.0]\n\n- old release (by B)",
    );
    let changes = vec![change("Added", "Support X", "Jo")];
    let text = merge_changelog(&opts, Some(&old), &changes).unwrap();
    assert_eq!(
        text,
        "# Changelog\n\n## [Unreleased]\n\n### Added\n\n- Support X (by Jo)\n\n### Fixed\n\n- old fix (by A)\n\n## [0.1.0]\n\n- old release (by B)",
    );
}

#[test]
fn noop_merge_returns_document_unchanged() {
    let opts = opts_with(&["Added", "Fixed"]);
    let old = String::from(
        "# Changelog\n\n## [Unreleased]\n\n### Fixed\n\n- old fix (by A)\n\n## [0.1.0]\n\n- old release (by B)",
    );
    let changes: Vec<TinyChange> = vec![];
    let text = merge_changelog(&opts, Some(&old), &changes).unwrap();
    assert_eq!(text, old);
}

#[test]
fn category_order_follows_configuration_not_input() {
    let opts = opts_with(&["A", "B"]);
    let changes = vec![change("B", "second kind", "x"), change("A", "first kind", "y")];
    let text = merge_changelog(&opts, None, &changes).unwrap();
    let pos_a = text.find("### A\n").unwrap();
    let pos_b = text.find("### B\n").unwrap();
    assert!(pos_a < pos_b);
}

#[test]
fn stray_content_in_unreleased_is_refused() {
    let opts = opts_with(&["Added", "Fixed"]);
    let old = String::from(
        "## Unreleased\n### Added\n- a (by x)\n### Other\n- stray (by y)\n### Fixed\n- f (by z)",
    );
    let changes = vec![change("Added", "more", "x")];
    let err = merge_changelog(&opts, Some(&old), &changes).unwrap_err();
    match err {
        MergeError::UnexpectedContent { line, content } => {
            assert_eq!(line, 4);
            assert_eq!(content, "### Other");
        },
        MergeError::NoAnchorSection => panic!("expected the unexpected-content error"),
    }
}

#[test]
fn document_without_anchor_is_refused() {
    let opts = opts_with(&["Added"]);
    let old = String::from("# Release notes\n\nNothing here yet.");
    let changes = vec![change("Added", "Support X", "Jo")];
    let err = merge_changelog(&opts, Some(&old), &changes).unwrap_err();
    assert!(matches!(err, MergeError::NoAnchorSection));
}

#[test]
fn unreleased_section_created_under_changelog_heading() {
    let opts = opts_with(&["Added"]);
    let old = String::from("# Changelog\n\n## [0.1.0]\n\n- old release (by B)");
    let changes = vec![change("Added", "Support X", "Jo")];
    let text = merge_changelog(&opts, Some(&old), &changes).unwrap();
    assert_eq!(
        text,
        "# Changelog\n\n## [Unreleased]\n\n### Added\n\n- Support X (by Jo)\n\n## [0.1.0]\n\n- old release (by B)",
    );
}

#[test]
fn unreleased_heading_matches_case_insensitively_without_brackets() {
    let opts = opts_with(&["Added"]);
    let old = String::from("# Changelog\n\n## unreleased\n\n### Added\n\n- old (by A)");
    let changes = vec![change("Added", "new thing", "B")];
    let text = merge_changelog(&opts, Some(&old), &changes).unwrap();
    assert_eq!(
        text,
        "# Changelog\n\n## unreleased\n\n### Added\n\n- old (by A)\n- new thing (by B)\n",
    );
}

#[test]
fn section_range_ends_before_next_same_depth_heading() {
    let lines = lines_of(&["## [Unreleased]", "### Added", "- existing item", "## [0.1.0]"]);
    let range = find_section(&lines, 0, 4, false, "unreleased");
    assert_eq!(range, Some((0, 3)));
}

#[test]
fn section_range_with_depth_ignored_ends_at_next_heading() {
    let lines = lines_of(&["# Changelog", "intro", "## [0.1.0]", "- item"]);
    let range = find_section(&lines, 0, 4, true, "changelog");
    assert_eq!(range, Some((0, 2)));
}

#[test]
fn section_search_misses_when_no_heading_matches() {
    let lines = lines_of(&["# Changelog", "## [0.1.0]"]);
    assert_eq!(find_section(&lines, 0, 2, false, "unreleased"), None);
}

#[test]
fn empty_categories_render_nothing() {
    let opts = opts_with(&["Added", "Fixed"]);
    let changes: Vec<TinyChange> = vec![];
    assert_eq!(format_changesets(&opts, &changes, None), "");
}

#[test]
fn skipped_category_leaves_no_empty_heading() {
    let opts = opts_with(&["Added", "Fixed", "Removed"]);
    let changes = vec![change("Removed", "the dust", "Jo")];
    let block = format_changesets(&opts, &changes, None);
    assert_eq!(block, "\n### Removed\n\n- the dust (by Jo)\n");
}

#[test]
fn command_opts_expose_their_parts() {
    let opts = opts_with(&["Added"]);
    assert!(opts.silent());
    assert!(!opts.interactive());
    assert_eq!(opts.categories().len(), 1);
    assert_eq!(opts.workdir(), ".");
    assert_eq!(opts.tinychanges_dir(), ".tinychanges");
    assert_eq!(opts.changelog_file(), "CHANGELOG.md");
    assert_eq!(*opts.naming(), NameType::Buzzword);
    assert_eq!(opts.max_filename_length(), Some(127));
    assert_eq!(opts.command_name(), "tinychange");
}

#[test]
fn heading_match_tolerates_brackets_and_spacing() {
    let lines = lines_of(&["##   [  UNRELEASED  ] - upcoming", "- item"]);
    assert_eq!(find_section(&lines, 0, 2, false, "unreleased"), Some((0, 2)));
}

#[test]
fn merge_output_is_a_fixed_point_of_the_empty_merge() {
    let opts = opts_with(&["Added", "Fixed"]);
    let changes = vec![change("Added", "Support X", "Jo"), change("Fixed", "a leak", "B")];
    let first = merge_changelog(&opts, None, &changes).unwrap();
    let none: Vec<TinyChange> = vec![];
    let second = merge_changelog(&opts, Some(&first), &none).unwrap();
    assert_eq!(second, first);
}
