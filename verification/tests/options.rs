use std::path::PathBuf;

use todo_plan::config::{
    DisplayConfig, DisplayProjectConfig, DisplayProjectTitleConfig, IssueAddOrder as ConfiguredOrder, IssueConfig,
    ListConfig, ListProjectsConfig, SearchConfig, SearchProjectsConfig, TitleConsist as ConfiguredConsist,
};
use todo_plan::options::{
    DisplayOpts, DisplayProjectOpts, DisplayProjectTitleOpts, IssueAddOrder, IssueOpts, ListOpts, ListProjectsOpts,
    SearchOpts, SearchProjectsOpts, TitleConsist,
};

fn title_config() -> DisplayProjectTitleConfig {
    DisplayProjectTitleConfig {
        consist: ConfiguredConsist::Name,
        id_before: Some("[".into()),
        id_after: Some("]".into()),
        name_before: None,
        name_after: None,
        id_and_name_before: None,
        id_and_name_separator: Some(": ".into()),
        id_and_name_after: None,
        show_steps_count: true,
    }
}

fn display_config() -> DisplayConfig {
    DisplayConfig {
        project: DisplayProjectConfig {
            title: title_config(),
            max_steps: Some(5),
            show_substeps: false,
            compact: false,
            separate_projects: true,
        },
    }
}

#[test]
fn no_display_option_keeps_the_configuration() {
    assert_eq!(DisplayOpts::default().override_config(display_config()), display_config());
}

#[test]
fn given_display_options_win() {
    let opts = DisplayOpts {
        project: DisplayProjectOpts {
            project_title: DisplayProjectTitleOpts {
                project_title_consist: Some(TitleConsist::IdAndName),
                project_title_id_before: Some("<".into()),
                project_title_show_steps_count: Some(false),
                ..Default::default()
            },
            project_max_steps: Some(9),
            project_compact: Some(true),
            ..Default::default()
        },
    };
    let config = opts.override_config(display_config());
    let title = &config.project.title;
    assert_eq!(title.consist, ConfiguredConsist::IdAndName);
    assert_eq!(title.id_before.as_deref(), Some("<"));
    assert_eq!(title.id_after.as_deref(), Some("]"));
    assert_eq!(title.id_and_name_separator.as_deref(), Some(": "));
    assert!(!title.show_steps_count);
    assert_eq!(config.project.max_steps, Some(9));
    assert!(config.project.compact);
    assert!(!config.project.show_substeps);
    assert!(config.project.separate_projects);
}

#[test]
fn search_dirs_are_added_to_the_configured_ones() {
    let config = SearchConfig {
        projects: SearchProjectsConfig { enabled: false, dirs: vec![PathBuf::from("a")] },
    };
    let opts = SearchOpts {
        projects: SearchProjectsOpts {
            search_projects_enabled: Some(true),
            search_projects_dir: vec![PathBuf::from("b"), PathBuf::from("c")],
        },
    };
    let config = opts.override_config(config);
    assert!(config.projects.enabled);
    assert_eq!(config.projects.dirs, vec![PathBuf::from("a"), PathBuf::from("b"), PathBuf::from("c")]);
}

#[test]
fn list_and_issue_options() {
    let list = ListConfig { projects: ListProjectsConfig { enabled: true } };
    assert_eq!(ListOpts::default().override_config(list), list);
    let opts = ListOpts { projects: ListProjectsOpts { list_projects_enabled: Some(false) } };
    assert!(!opts.override_config(list).projects.enabled);

    let issue = IssueConfig { add_order: ConfiguredOrder::Last };
    assert_eq!(IssueOpts::default().override_config(issue), issue);
    let opts = IssueOpts { issue_add_order: Some(IssueAddOrder::First) };
    assert_eq!(opts.override_config(issue).add_order, ConfiguredOrder::First);
}
