use todo_plan::issue::{Issue, IssueContent};
use todo_plan::parse::{parse, IntIdGenerator, ParsedPlan};
use todo_plan::patch::replace_range;
use todo_plan::plan::Plan;

fn parsed_of(src: &str) -> ParsedPlan {
    parse(src, &IntIdGenerator::new(1)).unwrap()
}

fn plan_of(src: &str) -> Plan {
    parsed_of(src).plan
}

fn assert_content(plan: &Plan, id: u64, expected: &str) {
    match &plan.get_issue(&id).unwrap().content {
        IssueContent::Inline(content) => assert_eq!(content, expected),
        other => panic!("expected Inline, got {other:?}"),
    }
}

fn assert_linked(plan: &Plan, id: u64, file: &str, note: Option<&str>) {
    match &plan.get_issue(&id).unwrap().content {
        IssueContent::Linked {
            file: linked_file,
            note: linked_note,
        } => {
            assert_eq!(linked_file.as_str(), file);
            assert_eq!(linked_note.as_deref(), note);
        },
        other => panic!("expected Linked, got {other:?}"),
    }
}

fn ids_of(plan: &Plan) -> Vec<u64> {
    plan.issues().keys().copied().collect()
}

fn set_names_of(plan: &Plan) -> Vec<&str> {
    plan.sets().keys().map(|set_name| set_name.as_str()).collect()
}

fn span_text<'a>(source: &'a str, span: &std::ops::Range<usize>) -> &'a str {
    &source[span.clone()]
}

#[test]
fn plain_issues_and_nesting() {
    let plan = plan_of("- a\n  - aa\n- b\n");
    assert_eq!(ids_of(&plan), vec![1, 2, 3]);
    assert_eq!(*plan.get_issue(&1).unwrap(), Issue::new(1, "a").with_subissue(2));
    assert_eq!(*plan.get_issue(&2).unwrap(), Issue::new(2, "aa").with_parent_id(1));
    assert_eq!(plan.get_issue(&3).unwrap().name, "b");
}

#[test]
fn numeric_id_prefix() {
    let plan = plan_of("- 25 named\n- auto\n");
    assert_eq!(plan.get_issue(&25).unwrap().name, "named");
    assert_eq!(plan.get_issue(&1).unwrap().name, "auto");
}

#[test]
fn heading_markup_stays_out_of_the_set_name() {
    let plan = plan_of("# Mile `1` *и* [ссылка](x.md)\n\n- a\n");
    assert_eq!(set_names_of(&plan), vec!["Mile 1 и ссылка"]);
}

#[test]
fn headings_define_sets() {
    let plan = plan_of("- a\n# Mile 1\n- b\n");
    assert_eq!(set_names_of(&plan), vec!["Mile 1"]);
    // "a" appears before the heading: no set; "b": "Mile 1"
    assert_eq!(
        plan.get_set("Mile 1").unwrap().issues.iter().copied().collect::<Vec<_>>(),
        vec![2]
    );
}

#[test]
fn filelink_issue() {
    let plan = plan_of("- [task K](task-k.md) trailing note\n  second line\n");
    assert_eq!(plan.get_issue(&1).unwrap().name, "task K");
    assert_linked(&plan, 1, "task-k.md", Some("trailing note\nsecond line"));
}

#[test]
fn filelink_subissues_are_not_a_note() {
    let plan = plan_of("- [task K](task-k.md)\n  - subtask\n");
    assert_linked(&plan, 1, "task-k.md", None);
    assert_eq!(plan.get_issue(&2).unwrap().name, "subtask");
}

#[test]
fn description_is_dedented() {
    let plan = plan_of("- g\n\n  Multi line\n  description\n");
    assert_eq!(plan.get_issue(&1).unwrap().name, "g");
    assert_content(&plan, 1, "Multi line\ndescription");
}

#[test]
fn name_ends_at_the_first_line() {
    let plan = plan_of("- task D\n  One line description\n- task E\n");
    assert_eq!(plan.get_issue(&1).unwrap().name, "task D");
    assert_content(&plan, 1, "One line description");
    assert_eq!(plan.get_issue(&2).unwrap().name, "task E");
}

#[test]
fn nested_description_is_dedented_to_its_own_level() {
    let plan = plan_of("- a\n  - b\n    Multi line\n    description\n");
    assert_eq!(plan.get_issue(&2).unwrap().name, "b");
    assert_content(&plan, 2, "Multi line\ndescription");
}

#[test]
fn inline_markup_is_kept_in_the_name() {
    let plan = plan_of("- **bold name** and `code` rest\n");
    assert_eq!(plan.get_issue(&1).unwrap().name, "**bold name** and `code` rest");
}

#[test]
fn name_span_points_at_the_raw_source() {
    let source = "- 25 **bold name** rest\n";
    let parsed = parsed_of(source);
    assert_eq!(span_text(source, &parsed.name_spans[&25]), "**bold name** rest");
}

const NESTED_SOURCE: &str = "- parent\n  Desc line\n  - child\n- next\n";

#[test]
fn issue_span_covers_the_item_with_its_subtree() {
    let parsed = parsed_of(NESTED_SOURCE);
    let span_of = |id: u64| span_text(NESTED_SOURCE, &parsed.issue_spans[&id]);
    assert_eq!(span_of(1), "- parent\n  Desc line\n  - child\n");
    assert_eq!(span_of(2), "- child\n");
    assert_eq!(span_of(3), "- next\n");
}

#[test]
fn content_span_keeps_the_source_indentation() {
    let parsed = parsed_of(NESTED_SOURCE);
    assert_eq!(span_text(NESTED_SOURCE, &parsed.content_spans[&1]), "Desc line");
    assert_eq!(parsed.content_spans.get(&2), None, "an issue without a description");

    let source = "- g\n  Multi\n  line\n";
    let parsed = parsed_of(source);
    // the span carries the indentation; the issue content holds it stripped
    assert_eq!(span_text(source, &parsed.content_spans[&1]), "Multi\n  line");
    assert_content(&parsed.plan, 1, "Multi\nline");
}

#[test]
fn patching_a_span_leaves_the_rest_byte_identical() {
    let parsed = parsed_of(NESTED_SOURCE);

    let renamed = replace_range(NESTED_SOURCE, parsed.name_spans[&2].clone(), "renamed");
    assert_eq!(renamed, "- parent\n  Desc line\n  - renamed\n- next\n");

    let rewritten = replace_range(NESTED_SOURCE, parsed.content_spans[&1].clone(), "New desc");
    assert_eq!(rewritten, "- parent\n  New desc\n  - child\n- next\n");

    let removed = replace_range(NESTED_SOURCE, parsed.issue_spans[&1].clone(), "");
    assert_eq!(removed, "- next\n");
}

#[test]
fn demoted_items_get_no_spans() {
    let source = "- a\n\n  desc\n\n  - sub\n\n  tail\n";
    let parsed = parsed_of(source);
    let ids: Vec<u64> = parsed.issue_spans.keys().copied().collect();
    assert_eq!(ids, vec![1]);
    assert_eq!(parsed.name_spans.len(), 1);
}

#[test]
fn ordered_list_holds_no_issues() {
    let plan = plan_of("Steps:\n1. first\n2. second\n\n- a task\n");
    let names: Vec<&str> = plan.issues().values().map(|issue| issue.name.as_str()).collect();
    assert_eq!(names, vec!["a task"]);
}

#[test]
fn ordered_list_inside_an_item_is_description() {
    let plan = plan_of("- task\n  1. first\n  2. second\n");
    assert_eq!(ids_of(&plan), vec![1]);
    assert_content(&plan, 1, "1. first\n2. second");
}

#[test]
fn bullets_under_an_ordered_list_are_not_issues() {
    let plan = plan_of("1. step\n   - not a task\n     - nor this\n");
    assert_eq!(plan.issues().len(), 0);
}

#[test]
fn a_bullet_list_after_an_ordered_one_still_holds_issues() {
    let plan = plan_of("- task\n  1. step\n\n  - subtask\n");
    assert_eq!(*plan.get_issue(&1).unwrap(), {
        let mut issue = Issue::new(1, "task").with_subissue(2);
        issue.content = IssueContent::Inline("1. step".into());
        issue
    });
    assert_eq!(plan.get_issue(&2).unwrap().name, "subtask");
}

#[test]
fn subissues_are_not_a_description() {
    let plan = plan_of("- a\n  - b\n");
    assert_eq!(plan.get_issue(&1).unwrap().content, IssueContent::Empty);
}

#[test]
fn list_followed_by_description_is_description() {
    let plan = plan_of("- a\n\n  desc1\n\n  - sub\n\n  desc2\n");
    assert_eq!(ids_of(&plan), vec![1], "a list before description content yields no issues");
    assert_content(&plan, 1, "desc1\n\n- sub\n\ndesc2");
}

#[test]
fn only_the_trailing_list_is_subissues() {
    let plan = plan_of("- a\n  - sub1\n\n  desc\n\n  - sub2\n");
    assert_eq!(*plan.get_issue(&1).unwrap(), {
        let mut issue = Issue::new(1, "a").with_subissue(2);
        issue.content = IssueContent::Inline("- sub1\n\ndesc".into());
        issue
    });
    assert_eq!(*plan.get_issue(&2).unwrap(), Issue::new(2, "sub2").with_parent_id(1));
}

#[test]
fn separator_keeps_a_closing_list_in_the_description() {
    let plan = plan_of("- task\n  intro:\n  - alpha\n  - beta\n  ---\n");
    assert_eq!(ids_of(&plan), vec![1], "the closed list yields no issues");
    assert_content(&plan, 1, "intro:\n- alpha\n- beta\n---");
}

#[test]
fn separator_is_shown_wherever_the_file_has_it() {
    assert_content(&plan_of("- task\n\n  ---\n"), 1, "---");
    assert_content(&plan_of("- task\n  ---\n"), 1, "---");
    assert_content(
        &plan_of("- task\n\n  above\n\n  ---\n\n  below\n"),
        1,
        "above\n\n---\n\nbelow",
    );
}

#[test]
fn separator_under_the_name_line_stays_out_of_the_name() {
    let source = "- task\n  ---\n- next\n";
    let parsed = parsed_of(source);
    assert_eq!(parsed.plan.get_issue(&1).unwrap().name, "task");
    assert_eq!(span_text(source, &parsed.name_spans[&1]), "task");
    assert_eq!(parsed.plan.get_issue(&2).unwrap().name, "next");
}

#[test]
fn editing_the_description_takes_its_separator_along() {
    let source = "- task\n  intro:\n  - alpha\n  ---\n- next\n";
    let parsed = parsed_of(source);
    assert_content(&parsed.plan, 1, "intro:\n- alpha\n---");
    assert_eq!(span_text(source, &parsed.content_spans[&1]), "intro:\n  - alpha\n  ---");

    let edited = replace_range(source, parsed.content_spans[&1].clone(), "just text");
    assert_eq!(edited, "- task\n  just text\n- next\n");
}

#[test]
fn demoted_list_drops_its_whole_subtree() {
    let plan = plan_of("- a\n\n  - sub\n    - deep\n\n  tail\n");
    assert_eq!(ids_of(&plan), vec![1]);
    assert_content(&plan, 1, "- sub\n  - deep\n\ntail");
}

#[test]
fn generated_id_skips_the_one_the_source_claims() {
    let plan = plan_of("- 25 named\n- auto\n- 1 explicit\n");
    assert_eq!(plan.get_issue(&25).unwrap().name, "named");
    assert_eq!(plan.get_issue(&2).unwrap().name, "auto");
    assert_eq!(plan.get_issue(&1).unwrap().name, "explicit");
}

#[test]
fn repeated_explicit_id_is_an_error() {
    let Err(error) = parse("- 7 first\n- 7 second\n", &IntIdGenerator::new(1)) else {
        panic!("a repeated id must be rejected");
    };
    assert_eq!(error.message(), "in line 2: issue id `7` is already used by `first`");
}

#[test]
fn repeated_explicit_id_in_a_demoted_list_is_not_an_error() {
    let plan = plan_of("- 7 first\n\n  - 7 sub\n\n  tail\n");
    assert_eq!(plan.issues().len(), 1);
    assert_content(&plan, 7, "- 7 sub\n\ntail");
}

#[test]
fn link_inside_the_name_is_not_a_file_reference() {
    let plan = plan_of("- task B [Mile 2](#mile-2)\n");
    let issue = plan.get_issue(&1).unwrap();
    assert_eq!(issue.name, "task B [Mile 2](#mile-2)");
    assert_eq!(issue.content, IssueContent::Empty);
}
