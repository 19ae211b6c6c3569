use todo_plan::issue::IssueContent;
use todo_plan::parse::{decimal_string, parse, IntIdGenerator};
use todo_plan::rename::renamed_source;
use todo_plan::source::{PlanSource, Placement};

fn issue_ids(src: &str, first: u64) -> Vec<u64> {
    parse(src, &IntIdGenerator::new(first)).unwrap().plan.issues().keys().copied().collect()
}

#[test]
fn spelled_out_ids_are_kept_and_generated_ones_skip_them() {
    assert_eq!(issue_ids("- 3 a\n- b\n- c\n- 2 d\n", 1), vec![3, 1, 4, 2]);
    assert_eq!(issue_ids("- 2 x\n- y\n", 2), vec![2, 3]);
}

#[test]
fn every_issue_is_filed_under_its_own_id() {
    let parsed = parse("- 3 a\n  - b\n- c\n", &IntIdGenerator::new(1)).unwrap();
    for (id, issue) in parsed.plan.issues() {
        assert_eq!(*id, issue.id);
        assert!(parsed.issue_spans.contains_key(id));
        assert!(parsed.name_spans.contains_key(id));
    }
}

#[test]
fn parents_and_subissues_agree() {
    let parsed = parse("- a\n  - b\n    - c\n  - d\n- e\n", &IntIdGenerator::new(1)).unwrap();
    let plan = &parsed.plan;
    for issue in plan.issues().values() {
        if let Some(parent) = issue.parent_id {
            assert!(plan.get_issue(&parent).unwrap().subissues.contains(&issue.id));
        }
        for sub in &issue.subissues {
            assert_eq!(plan.get_issue(sub).unwrap().parent_id, Some(issue.id));
        }
    }
    assert_eq!(plan.get_issue(&1).unwrap().subissues.iter().copied().collect::<Vec<_>>(), vec![2, 4]);
}

#[test]
fn spans_stay_inside_the_source() {
    let source = "- a\n  desc\n  - b\n- c\n";
    let parsed = parse(source, &IntIdGenerator::new(1)).unwrap();
    for span in parsed.issue_spans.values().chain(parsed.name_spans.values()).chain(parsed.content_spans.values()) {
        assert!(span.start <= span.end && span.end <= source.len());
    }
    for (id, span) in parsed.name_spans.iter().chain(parsed.content_spans.iter()) {
        let item = &parsed.issue_spans[id];
        assert!(item.start <= span.start && span.end <= item.end);
    }
}

#[test]
fn running_out_of_ids_is_an_error() {
    let Err(error) = parse("- a\n- b\n", &IntIdGenerator::new(u64::MAX)) else {
        panic!("no id is left for the second item");
    };
    assert_eq!(error.message(), "in line 2: no issue id is left to generate");

    let Err(error) = parse("- 18446744073709551615 a\n- b\n", &IntIdGenerator::new(u64::MAX)) else {
        panic!("the only id left is taken");
    };
    assert_eq!(error.message(), "in line 2: no issue id is left to generate");
}

#[test]
fn an_id_too_large_for_u64_is_no_id() {
    let plan = parse("- 18446744073709551615 max\n", &IntIdGenerator::new(1)).unwrap().plan;
    assert_eq!(plan.get_issue(&u64::MAX).unwrap().name, "max");

    let plan = parse("- 18446744073709551616 big\n", &IntIdGenerator::new(1)).unwrap().plan;
    assert_eq!(plan.get_issue(&1).unwrap().name, "big");
}

#[test]
fn decimal_strings() {
    assert_eq!(decimal_string(0), "0");
    assert_eq!(decimal_string(7), "7");
    assert_eq!(decimal_string(1234567890), "1234567890");
    assert_eq!(decimal_string(u64::MAX), "18446744073709551615");
}

#[test]
fn non_ascii_names_read_back() {
    let plan = parse("- задача\n  описание\n", &IntIdGenerator::new(1)).unwrap().plan;
    let issue = plan.get_issue(&1).unwrap();
    assert_eq!(issue.name, "задача");
    assert_eq!(issue.content, IssueContent::Inline("описание".to_string()));
}

#[test]
fn a_mapped_span_covers_the_same_text_in_the_file() {
    let content = "# Plan\n\n```md todo\n- 4 first\n- second\n```\n";
    let source = PlanSource::from_content(content.to_string(), Placement::CodeBlockInFile);
    let parsed = parse(source.text(), &IntIdGenerator::new(1)).unwrap();
    for span in parsed.name_spans.values() {
        let in_file = source.file_range(span);
        assert_eq!(&source.content()[in_file], &source.text()[span.clone()]);
    }
}

#[test]
fn renaming_to_the_same_name_changes_nothing() {
    let content = "- a\n- b\n";
    let source = PlanSource::from_content(content.to_string(), Placement::WholeFile);
    assert_eq!(renamed_source(&source, "b", "b", 1).unwrap(), content);
}

#[test]
fn a_rename_changes_the_name_bytes_only() {
    let content = "- 3 old name\n  desc\n- other\n";
    let source = PlanSource::from_content(content.to_string(), Placement::WholeFile);
    assert_eq!(renamed_source(&source, "old name", "new", 1).unwrap(), "- 3 new\n  desc\n- other\n");
}

#[test]
fn name_and_item_spans_are_filed_in_issue_order() {
    let source = "- 5 a\n\n  text\n- b\n  - c\n\n  ```\n  code\n  ```\n- [d](d.md)\n";
    let parsed = parse(source, &IntIdGenerator::new(1)).unwrap();
    let ids: Vec<u64> = parsed.plan.issues().keys().copied().collect();
    assert_eq!(parsed.issue_spans.keys().copied().collect::<Vec<_>>(), ids);
    assert_eq!(parsed.name_spans.keys().copied().collect::<Vec<_>>(), ids);
    for (id, issue) in parsed.plan.issues() {
        assert_eq!(&source[parsed.name_spans[id].clone()], issue.name);
    }
}

#[test]
fn a_description_span_exactly_for_issues_with_a_description() {
    let source = "- a\n  about a\n- b\n- [c](c.md)\n- [d](d.md) note\n";
    let parsed = parse(source, &IntIdGenerator::new(1)).unwrap();
    for (id, issue) in parsed.plan.issues() {
        let described = match &issue.content {
            IssueContent::Empty => false,
            IssueContent::Inline(_) => true,
            IssueContent::Linked { note, .. } => note.is_some(),
        };
        assert_eq!(parsed.content_spans.contains_key(id), described, "issue {id}");
    }
    assert_eq!(&source[parsed.content_spans[&1].clone()], "about a");
    assert_eq!(&source[parsed.content_spans[&4].clone()], "note");
}
