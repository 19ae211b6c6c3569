use todo_plan::rename::check_issue_is_new;
use todo_plan::config;
use todo_plan::issue::{DependencyType, Issue, IssueContent, IssueRelation, IssueSet, LinkType, Relation};
use todo_plan::options::{IssueAddOrder, TitleConsist, WorkingMode};
use todo_plan::plan::Plan;

#[test]
fn an_added_issue_is_found_under_its_id() {
    assert!(Plan::default().is_empty());
    let mut plan = Plan::new();
    assert!(plan.is_empty());
    plan.add_issue(Issue::new(5, "five"));
    assert!(!plan.is_empty());
    assert_eq!(plan.get_issue(&5).unwrap().name, "five");
    assert!(plan.get_issue(&6).is_none());
}

#[test]
fn adding_an_issue_again_replaces_it_in_place() {
    let mut plan = Plan::new();
    plan.add_issues(vec![Issue::new(1, "one"), Issue::new(2, "two")]);
    plan.add_issue(Issue::new(1, "uno"));
    let names: Vec<&str> = plan.issues().values().map(|issue| issue.name.as_str()).collect();
    assert_eq!(names, vec!["uno", "two"]);
    assert_eq!(plan.issue_count(), 2);
    assert_eq!(plan.issue_at(1).name, "two");
}

#[test]
fn sets_collect_their_issues() {
    let mut plan = Plan::new();
    plan.add_set(IssueSet::new("s"));
    plan.add_issue_to_set("s", 3);
    plan.add_issue_to_set("s", 3);
    plan.add_issue_to_set("missing", 4);
    assert_eq!(*plan.get_set("s").unwrap(), IssueSet::new("s").with_issue(3));
    assert!(plan.get_set("missing").is_none());
    assert_eq!(plan.find_sets(&3).len(), 1);
    assert!(plan.find_sets(&4).is_empty());
}

#[test]
fn find_issue_takes_the_first_of_a_name() {
    let mut plan = Plan::new();
    plan.add_issues(vec![Issue::new(1, "a"), Issue::new(2, "b"), Issue::new(3, "b")]);
    assert_eq!(plan.find_issue("b").unwrap().id, 2);
    assert!(plan.find_issue("c").is_none());
}

#[test]
fn merge_adds_the_other_plan_in_order() {
    let mut first = Plan::new();
    first.add_issues(vec![Issue::new(1, "a"), Issue::new(2, "b")]);
    first.add_set(IssueSet::new("x").with_issue(1));
    let mut second = Plan::new();
    second.add_issues(vec![Issue::new(3, "c"), Issue::new(1, "A")]);
    second.add_set(IssueSet::new("x").with_issue(3));
    let merged = first.merge(second);
    let names: Vec<&str> = merged.issues().values().map(|issue| issue.name.as_str()).collect();
    assert_eq!(names, vec!["A", "b", "c"]);
    assert_eq!(*merged.get_set("x").unwrap(), IssueSet::new("x").with_issue(3));
}

#[test]
fn issue_builders() {
    let issue = Issue::new(1, "a").with_parent_id(9).with_subissue(2).with_subissue(2);
    assert_eq!(issue.parent_id, Some(9));
    assert_eq!(issue.subissues.len(), 1);
    assert_eq!(Issue::new(1, "a").with_content("c").content, IssueContent::Inline("c".into()));
    assert_eq!(
        Issue::new(1, "a").with_content_file("f.md").content,
        IssueContent::Linked { file: "f.md".into(), note: None }
    );
    assert_eq!(
        Issue::new(1, "a").with_content_file_and_note("f.md", "n").content,
        IssueContent::Linked { file: "f.md".into(), note: Some("n".into()) }
    );
    let mut set = IssueSet::new("s");
    set.add(1).add(2).add(1);
    assert_eq!(set.issues.iter().copied().collect::<Vec<_>>(), vec![1, 2]);
}

#[test]
fn working_mode_flags() {
    assert_eq!(WorkingMode { local: false, global: false }.into_config_option(), None);
    assert_eq!(WorkingMode { local: true, global: true }.into_config_option(), None);
    assert_eq!(WorkingMode { local: true, global: false }.into_config_option(), Some(config::WorkingMode::Local));
    assert_eq!(WorkingMode { local: false, global: true }.into_config_option(), Some(config::WorkingMode::Global));
}

#[test]
fn option_enums_convert() {
    assert_eq!(config::TitleConsist::from(TitleConsist::IdAndName), config::TitleConsist::IdAndName);
    assert_eq!(config::TitleConsist::from(TitleConsist::Id), config::TitleConsist::Id);
    assert_eq!(config::TitleConsist::from(TitleConsist::Name), config::TitleConsist::Name);
    assert_eq!(config::IssueAddOrder::from(IssueAddOrder::First), config::IssueAddOrder::First);
    assert_eq!(config::IssueAddOrder::from(IssueAddOrder::Last), config::IssueAddOrder::Last);
}

#[test]
fn a_cloned_issue_equals_the_original() {
    let mut issue = Issue::new(1, "a").with_content_file_and_note("f.md", "n").with_subissue(2).with_parent_id(7);
    issue.relations.push(IssueRelation {
        to_id: 2,
        relation: Relation { link: LinkType::FinishToStart, dependency: DependencyType::Other("x".into()) },
    });
    assert_eq!(issue.clone(), issue);
    let set = IssueSet::new("s").with_issue(4).with_issue(3);
    assert_eq!(set.clone(), set);
}

#[test]
fn a_taken_name_cannot_be_added() {
    let mut plan = Plan::new();
    plan.add_issue(Issue::new(1, "task 1"));
    assert!(check_issue_is_new(Some(&plan), "task 2", None).is_ok());
    assert!(check_issue_is_new(None, "task 1", None).is_ok());
    assert_eq!(
        check_issue_is_new(Some(&plan), "task 1", None).unwrap_err().message(),
        "issue `task 1` already exists"
    );
    assert_eq!(
        check_issue_is_new(Some(&plan), "task 1", Some("/p/A")).unwrap_err().message(),
        "issue `task 1` in `/p/A` already exists"
    );
}
