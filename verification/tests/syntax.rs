use todo_plan::parse::reads_as_filelink;
use todo_plan::syntax::{ends_with_bullet_item, id_prefix, is_bullet_item};

#[test]
fn id_prefix_takes_the_leading_digits() {
    assert_eq!(id_prefix("12 boom"), Some("12"));
    assert_eq!(id_prefix("7\ttabbed"), Some("7"));
    assert_eq!(id_prefix("7\u{3000}wide space"), Some("7"));
    assert_eq!(id_prefix("12boom"), None);
    assert_eq!(id_prefix("12"), None);
    assert_eq!(id_prefix(" 12 x"), None);
    assert_eq!(id_prefix("1a b"), None);
    assert_eq!(id_prefix(""), None);
}

#[test]
fn bullet_items_are_recognised() {
    assert!(is_bullet_item("- a"));
    assert!(is_bullet_item("  * a"));
    assert!(is_bullet_item("+\ta"));
    assert!(is_bullet_item("-"));
    assert!(!is_bullet_item("-a"));
    assert!(!is_bullet_item("1. a"));
    assert!(!is_bullet_item("text"));
    assert!(!is_bullet_item("   "));
}

#[test]
fn content_ending_with_a_list_is_seen() {
    assert!(ends_with_bullet_item("intro:\n- alpha\n- beta"));
    assert!(ends_with_bullet_item("- alpha\n  - nested"));
    assert!(ends_with_bullet_item("* star\n+ plus\n\n  \n"));
    assert!(ends_with_bullet_item("x\n-\r\n"));
    assert!(!ends_with_bullet_item("x\n-\r"));
    assert!(!ends_with_bullet_item("intro:\n- alpha\n\noutro"));
    assert!(!ends_with_bullet_item("steps:\n1. first\n2. second"));
    assert!(!ends_with_bullet_item("closed already:\n- alpha\n---"));
    assert!(!ends_with_bullet_item(""));
    assert!(!ends_with_bullet_item("\n\n"));
    assert!(ends_with_bullet_item("intro:\n- alpha\n  more"));
    assert!(ends_with_bullet_item("- alpha\n\n  second paragraph\n"));
    assert!(ends_with_bullet_item("  - indented item"));
    assert!(!ends_with_bullet_item("text\n\n    indented code"));
}

#[test]
fn a_leading_link_reads_as_a_file_reference() {
    assert!(reads_as_filelink("[doc](notes.md)"));
    assert!(reads_as_filelink("[doc](notes.md) and more"));
    assert!(!reads_as_filelink("see [doc](notes.md)"));
    assert!(!reads_as_filelink("plain"));
    assert!(!reads_as_filelink("[doc]"));
}
