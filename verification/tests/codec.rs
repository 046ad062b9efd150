use tinychange::change::{FormatError, TinyChange};
use tinychange::config::{CommandOpts, Config};
use tinychange::naming::NameType;

fn opts_with(cats: &[&str]) -> CommandOpts {
    let config = Config {
        tinylogs_dir: String::from(".tinychanges"),
        changelog: String::from("CHANGELOG.md"),
        categories: cats.iter().map(|c| String::from(*c)).collect(),
        naming: NameType::Hash,
        max_filename_length: None,
    };
    CommandOpts::new(
        true,
        false,
        String::from(".tinychanges"),
        String::from("CHANGELOG.md"),
        String::from("."),
        String::from("tinychange"),
        config,
    )
}

fn change(kind: &str, message: &str, author: &str) -> TinyChange {
    TinyChange {
        kind: String::from(kind),
        message: String::from(message),
        author: String::from(author),
    }
}

#[test]
fn serialize_exact_form() {
    let c = change("Added", "Support X", "Jo");
    assert_eq!(c.serialize(), "- Author: Jo\n- Kind: Added\n---\nSupport X");
}

#[test]
fn round_trip_single_line() {
    let opts = opts_with(&["Added", "Fixed"]);
    let c = change("Added", "Support X", "Jo");
    let back = TinyChange::deserialize(&opts, c.serialize()).unwrap();
    assert_eq!(back.kind, "Added");
    assert_eq!(back.message, "Support X");
    assert_eq!(back.author, "Jo");
}

#[test]
fn round_trip_multi_line_message() {
    let opts = opts_with(&["Fixed"]);
    let c = change("Fixed", "first line\nsecond line", "A B");
    let back = TinyChange::deserialize(&opts, c.serialize()).unwrap();
    assert_eq!(back.kind, "Fixed");
    assert_eq!(back.message, "first line\nsecond line");
    assert_eq!(back.author, "A B");
}

#[test]
fn decode_normalizes_line_endings() {
    let opts = opts_with(&["Added"]);
    let content = String::from("- Author: Jo\n- Kind: Added\n---\nline one\r\nline two\rline three");
    let c = TinyChange::deserialize(&opts, content).unwrap();
    assert_eq!(c.message, "line one\nline two\nline three");
}

#[test]
fn decode_trims_field_values() {
    let opts = opts_with(&["Added"]);
    let content = String::from("- Author:   Jo  \n- Kind:  Added \n---\n  padded message  ");
    let c = TinyChange::deserialize(&opts, content).unwrap();
    assert_eq!(c.author, "Jo");
    assert_eq!(c.kind, "Added");
    assert_eq!(c.message, "padded message");
}

#[test]
fn decode_allows_blank_lines_between_fields() {
    let opts = opts_with(&["Added"]);
    let content = String::from("- Author: Jo\n\n\n- Kind: Added\n\n---\nmsg");
    let c = TinyChange::deserialize(&opts, content).unwrap();
    assert_eq!(c.author, "Jo");
    assert_eq!(c.kind, "Added");
    assert_eq!(c.message, "msg");
}

#[test]
fn decode_missing_author_line() {
    let opts = opts_with(&["Added"]);
    let r = TinyChange::deserialize(&opts, String::from(""));
    assert!(matches!(r, Err(FormatError::MissingAuthor)));
}

#[test]
fn decode_author_line_without_colon() {
    let opts = opts_with(&["Added"]);
    let r = TinyChange::deserialize(&opts, String::from("- Author Jo\n- Kind: Added\n---\nm"));
    assert!(matches!(r, Err(FormatError::MalformedAuthor)));
}

#[test]
fn decode_wrong_author_label() {
    let opts = opts_with(&["Added"]);
    let r = TinyChange::deserialize(&opts, String::from("- Writer: Jo\n- Kind: Added\n---\nm"));
    match r {
        Err(FormatError::WrongAuthorLabel(label)) => assert_eq!(label, "- Writer"),
        _ => panic!("expected the wrong-author-label error"),
    }
}

#[test]
fn decode_missing_kind_line() {
    let opts = opts_with(&["Added"]);
    let r = TinyChange::deserialize(&opts, String::from("- Author: Jo\n\n"));
    assert!(matches!(r, Err(FormatError::MissingKind)));
}

#[test]
fn decode_kind_line_without_colon() {
    let opts = opts_with(&["Added"]);
    let r = TinyChange::deserialize(&opts, String::from("- Author: Jo\n- Kind Added\n---\nm"));
    assert!(matches!(r, Err(FormatError::MalformedKind)));
}

#[test]
fn decode_wrong_kind_label() {
    let opts = opts_with(&["Added"]);
    let r = TinyChange::deserialize(&opts, String::from("- Author: Jo\n- Type: Added\n---\nm"));
    match r {
        Err(FormatError::WrongKindLabel(label)) => assert_eq!(label, "- Type"),
        _ => panic!("expected the wrong-kind-label error"),
    }
}

#[test]
fn decode_missing_separator() {
    let opts = opts_with(&["Added"]);
    let r = TinyChange::deserialize(&opts, String::from("- Author: Jo\n- Kind: Added\nm"));
    assert!(matches!(r, Err(FormatError::MissingSeparator)));
}

#[test]
fn decode_empty_author() {
    let opts = opts_with(&["Added"]);
    let r = TinyChange::deserialize(&opts, String::from("- Author:   \n- Kind: Added\n---\nm"));
    assert!(matches!(r, Err(FormatError::EmptyAuthor)));
}

#[test]
fn decode_empty_kind() {
    let opts = opts_with(&["Added"]);
    let r = TinyChange::deserialize(&opts, String::from("- Author: Jo\n- Kind:\n---\nm"));
    assert!(matches!(r, Err(FormatError::EmptyKind)));
}

#[test]
fn decode_empty_message() {
    let opts = opts_with(&["Added"]);
    let r = TinyChange::deserialize(&opts, String::from("- Author: Jo\n- Kind: Added\n---\n   "));
    assert!(matches!(r, Err(FormatError::EmptyMessage)));
}

#[test]
fn decode_unknown_kind() {
    let opts = opts_with(&["Added", "Fixed"]);
    let r = TinyChange::deserialize(&opts, String::from("- Author: Jo\n- Kind: Shiny\n---\nm"));
    match r {
        Err(FormatError::UnknownKind(kind)) => assert_eq!(kind, "Shiny"),
        _ => panic!("expected the unknown-kind error"),
    }
}

#[test]
fn markdown_single_line_entry() {
    let c = change("Added", "Support X", "Jo");
    assert_eq!(c.as_markdown().to_string(), "- Support X (by Jo)");
}

#[test]
fn markdown_multi_line_entry() {
    let c = change("Added", "first\nsecond\nthird", "Jo");
    assert_eq!(c.as_markdown().to_string(), "- first\n  second\n  third\n  By: Jo");
}

#[test]
fn decode_accepts_carriage_return_line_endings_throughout() {
    let opts = opts_with(&["Added"]);
    let content = String::from("- Author: Jo\r\n- Kind: Added\r\n---\r\nmsg\r\n");
    let c = TinyChange::deserialize(&opts, content).unwrap();
    assert_eq!(c.author, "Jo");
    assert_eq!(c.kind, "Added");
    assert_eq!(c.message, "msg");
}
