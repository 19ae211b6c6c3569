use todo_plan::patch::{replace_range, FileMetaSnapshot};
use todo_plan::source::{extract_md_todo_block, PlanSource, Placement};

fn block_of(content: &str) -> Option<&str> {
    extract_md_todo_block(content).map(|range| &content[range])
}

#[test]
fn takes_the_block_body() {
    assert_eq!(block_of("# P\n\n```md todo\n- a\n```\n\nafter\n"), Some("- a\n"));
    assert_eq!(block_of("```MD TODO plan\n- a\n```\nafter\n"), Some("- a\n"));
    assert_eq!(block_of("# P\n\njust text\n"), None);
    assert_eq!(block_of("```md todoish\n- a\n```\n"), None);
}

#[test]
fn indented_fences_do_not_end_the_block() {
    let content = "```md todo\n- a\n\n  ```rust\n  code\n  ```\n```\nafter\n";
    assert_eq!(block_of(content), Some("- a\n\n  ```rust\n  code\n  ```\n"));
    assert_eq!(block_of("```md todo\n- a\n  ```\n\nafter\n"), Some("- a\n"));
}

#[test]
fn unterminated_block_runs_to_the_end() {
    assert_eq!(block_of("```md todo\n- a\n- b\n"), Some("- a\n- b\n"));
}

#[test]
fn block_fence_takes_unicode_white_space_around_it() {
    assert_eq!(block_of("\u{a0} ```md todo\u{3000}\n- a\n ``` \n"), Some("- a\n"));
}

#[test]
fn opening_a_block_at_the_last_line_gives_an_empty_block() {
    assert_eq!(block_of("text\n```md todo"), Some(""));
    assert_eq!(extract_md_todo_block("text\n```md todo"), Some(15..15));
}

#[test]
fn plan_source_of_a_whole_file_is_the_file() {
    let source = PlanSource::from_content("- a\n- b\n".to_string(), Placement::WholeFile);
    assert_eq!(source.content(), "- a\n- b\n");
    assert_eq!(source.text(), "- a\n- b\n");
    assert_eq!(source.file_range(&(2..3)), 2..3);
}

#[test]
fn plan_source_of_a_code_block_is_its_inner_text() {
    let content = "# P\n\n```md todo\n- a\n```\n";
    let source = PlanSource::from_content(content.to_string(), Placement::CodeBlockInFile);
    assert_eq!(source.text(), "- a\n");
    assert_eq!(source.text_start(), 16);
    let range = source.file_range(&(2..3));
    assert_eq!(range, 18..19);
    assert_eq!(&source.content()[range], "a");
}

#[test]
fn plan_source_without_a_block_has_an_empty_text() {
    let source = PlanSource::from_content("just text\n".to_string(), Placement::CodeBlockInFile);
    assert_eq!(source.text(), "");
    assert_eq!(source.content(), "just text\n");
}

#[test]
fn replace_range_keeps_what_is_around() {
    assert_eq!(replace_range("hello world", 6..11, "there"), "hello there");
    assert_eq!(replace_range("abc", 0..0, "x"), "xabc");
    assert_eq!(replace_range("abc", 3..3, "x"), "abcx");
    assert_eq!(replace_range("aéb", 1..3, "e"), "aeb");
}

#[test]
fn snapshot_keeps_size_and_time() {
    let snapshot = FileMetaSnapshot::new(-5, 42);
    assert_eq!(snapshot.size(), 42);
    assert_eq!(snapshot.modified(), -5);
    assert!(snapshot.matches(&FileMetaSnapshot::new(-5, 42)));
    assert!(!snapshot.matches(&FileMetaSnapshot::new(-5, 43)));
    assert!(!snapshot.matches(&FileMetaSnapshot::new(7, 42)));
}

#[test]
fn replacing_back_restores_the_source() {
    let source = "- parent\n  Desc line\n  - child\n";
    for (range, text) in [(2..8, "renamed"), (11..20, ""), (0..0, "é"), (31..31, "tail")] {
        let patched = replace_range(source, range.clone(), text);
        let back = replace_range(&patched, range.start..range.start + text.len(), &source[range.clone()]);
        assert_eq!(back, source);
    }
}
