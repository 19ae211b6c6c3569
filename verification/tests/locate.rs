use todo_plan::locate::{configured_index_by_id, found_index_by_name};

#[test]
fn a_lookup_by_id_picks_the_first_project_configured_under_it() {
    let ids = vec!["10".to_string(), "work".to_string(), "work".to_string()];
    assert_eq!(configured_index_by_id(&ids, "work"), Some(1));
    assert_eq!(configured_index_by_id(&ids, "10"), Some(0));
    assert_eq!(configured_index_by_id(&ids, "1"), None);
    assert_eq!(configured_index_by_id(&Vec::new(), "work"), None);
}

#[test]
fn a_lookup_by_name_skips_projects_without_a_name() {
    let names = vec![None, Some("home".to_string()), Some("todo".to_string()), Some("home".to_string())];
    assert_eq!(found_index_by_name(&names, "home"), Some(1));
    assert_eq!(found_index_by_name(&names, "todo"), Some(2));
    assert_eq!(found_index_by_name(&names, "Home"), None);
    assert_eq!(found_index_by_name(&names, ""), None);
}
