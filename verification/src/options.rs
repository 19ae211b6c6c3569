//! Command-line options that override the configuration.
use std::path::PathBuf;

use vstd::prelude::*;

use crate::config;

verus! {

#[verifier::external_type_specification]
#[verifier::external_body]
pub struct ExPathBuf(PathBuf);

#[derive(Debug, Default)]
pub struct ConfigOpts {
    pub working_mode: WorkingMode,
    pub source: SourceOpts,
    pub display: DisplayOpts,
    pub search: SearchOpts,
    pub list: ListOpts,
    pub issue: IssueOpts,
}

/// `--local` or `--global`; at most one of them is given.
#[derive(Clone, Copy, Debug, Default)]
pub struct WorkingMode {
    /// Work in local mode.
    pub local: bool,
    /// Work in global mode.
    pub global: bool,
}

impl WorkingMode {
    /// The mode the flags ask for: none when neither or both are set.
    pub fn into_config_option(self) -> (mode: Option<config::WorkingMode>)
        ensures
            mode == (if self.local == self.global {
                None
            } else if self.local {
                Some(config::WorkingMode::Local)
            } else {
                Some(config::WorkingMode::Global)
            }),
    {
        if self.local == self.global {
            return None;
        }
        Some(
            if self.local {
                config::WorkingMode::Local
            } else {
                config::WorkingMode::Global
            },
        )
    }
}

#[derive(Debug, Default)]
pub struct SourceOpts {
    pub use_manifest_file_by_default: Option<bool>,
    pub manifest_filename_regex: Option<String>,
    pub manifest_filename_example: Option<String>,
    pub issues_filename_regex: Option<String>,
    pub issues_filename_example: Option<String>,
    pub project_config_file: Option<PathBuf>,
    pub projects_root_dir: Option<PathBuf>,
}

#[derive(Debug, Default)]
pub struct DisplayOpts {
    pub project: DisplayProjectOpts,
}

#[derive(Debug, Default)]
pub struct DisplayProjectOpts {
    pub project_title: DisplayProjectTitleOpts,
    pub project_max_steps: Option<usize>,
    pub project_show_substeps: Option<bool>,
    pub project_compact: Option<bool>,
    pub separate_projects: Option<bool>,
}

#[derive(Debug, Default)]
pub struct DisplayProjectTitleOpts {
    pub project_title_consist: Option<TitleConsist>,
    pub project_title_id_before: Option<String>,
    pub project_title_id_after: Option<String>,
    pub project_title_name_before: Option<String>,
    pub project_title_name_after: Option<String>,
    pub project_title_id_and_name_before: Option<String>,
    pub project_title_id_and_name_separator: Option<String>,
    pub project_title_id_and_name_after: Option<String>,
    pub project_title_show_steps_count: Option<bool>,
}

/// `value` when it is given, `default` otherwise.
pub open spec fn given_or<T>(value: Option<T>, default: T) -> T {
    match value {
        Some(v) => v,
        None => default,
    }
}

/// `value` when it is given, `default` otherwise.
pub open spec fn given_or_else<T>(value: Option<T>, default: Option<T>) -> Option<T> {
    match value {
        Some(v) => Some(v),
        None => default,
    }
}

pub open spec fn consist_of(value: TitleConsist) -> config::TitleConsist {
    match value {
        TitleConsist::Id => config::TitleConsist::Id,
        TitleConsist::Name => config::TitleConsist::Name,
        TitleConsist::IdAndName => config::TitleConsist::IdAndName,
    }
}

fn or_string(value: Option<String>, default: Option<String>) -> (r: Option<String>)
    ensures
        r == given_or_else(value, default),
{
    match value {
        Some(v) => Some(v),
        None => default,
    }
}

impl DisplayProjectTitleOpts {
    /// The title settings with every option that is given taking the place of
    /// the configured value.
    pub fn override_config(self, config: config::DisplayProjectTitleConfig) -> (overridden: config::DisplayProjectTitleConfig)
        ensures
            overridden.consist == match self.project_title_consist {
                Some(c) => consist_of(c),
                None => config.consist,
            },
            overridden.id_before == given_or_else(self.project_title_id_before, config.id_before),
            overridden.id_after == given_or_else(self.project_title_id_after, config.id_after),
            overridden.name_before == given_or_else(self.project_title_name_before, config.name_before),
            overridden.name_after == given_or_else(self.project_title_name_after, config.name_after),
            overridden.id_and_name_before == given_or_else(
                self.project_title_id_and_name_before,
                config.id_and_name_before,
            ),
            overridden.id_and_name_separator == given_or_else(
                self.project_title_id_and_name_separator,
                config.id_and_name_separator,
            ),
            overridden.id_and_name_after == given_or_else(
                self.project_title_id_and_name_after,
                config.id_and_name_after,
            ),
            overridden.show_steps_count == given_or(self.project_title_show_steps_count, config.show_steps_count),
    {
        let DisplayProjectTitleOpts {
            project_title_consist,
            project_title_id_before,
            project_title_id_after,
            project_title_name_before,
            project_title_name_after,
            project_title_id_and_name_before,
            project_title_id_and_name_separator,
            project_title_id_and_name_after,
            project_title_show_steps_count,
        } = self;
        config::DisplayProjectTitleConfig {
            consist: match project_title_consist {
                Some(c) => config::TitleConsist::from(c),
                None => config.consist,
            },
            id_before: or_string(project_title_id_before, config.id_before),
            id_after: or_string(project_title_id_after, config.id_after),
            name_before: or_string(project_title_name_before, config.name_before),
            name_after: or_string(project_title_name_after, config.name_after),
            id_and_name_before: or_string(project_title_id_and_name_before, config.id_and_name_before),
            id_and_name_separator: or_string(project_title_id_and_name_separator, config.id_and_name_separator),
            id_and_name_after: or_string(project_title_id_and_name_after, config.id_and_name_after),
            show_steps_count: match project_title_show_steps_count {
                Some(v) => v,
                None => config.show_steps_count,
            },
        }
    }
}

impl DisplayProjectOpts {
    /// The project display settings with every option that is given taking the
    /// place of the configured value.
    pub fn override_config(self, config: config::DisplayProjectConfig) -> (overridden: config::DisplayProjectConfig)
        ensures
            overridden.title.consist == match self.project_title.project_title_consist {
                Some(c) => consist_of(c),
                None => config.title.consist,
            },
            overridden.title.show_steps_count == given_or(
                self.project_title.project_title_show_steps_count,
                config.title.show_steps_count,
            ),
            overridden.title.id_before == given_or_else(self.project_title.project_title_id_before, config.title.id_before),
            overridden.title.id_after == given_or_else(self.project_title.project_title_id_after, config.title.id_after),
            overridden.title.name_before == given_or_else(
                self.project_title.project_title_name_before,
                config.title.name_before,
            ),
            overridden.title.name_after == given_or_else(self.project_title.project_title_name_after, config.title.name_after),
            overridden.title.id_and_name_before == given_or_else(
                self.project_title.project_title_id_and_name_before,
                config.title.id_and_name_before,
            ),
            overridden.title.id_and_name_separator == given_or_else(
                self.project_title.project_title_id_and_name_separator,
                config.title.id_and_name_separator,
            ),
            overridden.title.id_and_name_after == given_or_else(
                self.project_title.project_title_id_and_name_after,
                config.title.id_and_name_after,
            ),
            overridden.max_steps == given_or_else(self.project_max_steps, config.max_steps),
            overridden.show_substeps == given_or(self.project_show_substeps, config.show_substeps),
            overridden.compact == given_or(self.project_compact, config.compact),
            overridden.separate_projects == given_or(self.separate_projects, config.separate_projects),
    {
        let DisplayProjectOpts {
            project_title,
            project_max_steps,
            project_show_substeps,
            project_compact,
            separate_projects,
        } = self;
        config::DisplayProjectConfig {
            title: project_title.override_config(config.title),
            max_steps: match project_max_steps {
                Some(v) => Some(v),
                None => config.max_steps,
            },
            show_substeps: match project_show_substeps {
                Some(v) => v,
                None => config.show_substeps,
            },
            compact: match project_compact {
                Some(v) => v,
                None => config.compact,
            },
            separate_projects: match separate_projects {
                Some(v) => v,
                None => config.separate_projects,
            },
        }
    }
}

impl DisplayOpts {
    /// The display settings with the given project options applied.
    pub fn override_config(self, config: config::DisplayConfig) -> (overridden: config::DisplayConfig)
        ensures
            overridden.project.max_steps == given_or_else(self.project.project_max_steps, config.project.max_steps),
            overridden.project.show_substeps == given_or(self.project.project_show_substeps, config.project.show_substeps),
            overridden.project.compact == given_or(self.project.project_compact, config.project.compact),
            overridden.project.separate_projects == given_or(
                self.project.separate_projects,
                config.project.separate_projects,
            ),
            overridden.project.title.consist == match self.project.project_title.project_title_consist {
                Some(c) => consist_of(c),
                None => config.project.title.consist,
            },
            overridden.project.title.show_steps_count == given_or(
                self.project.project_title.project_title_show_steps_count,
                config.project.title.show_steps_count,
            ),
            overridden.project.title.id_before == given_or_else(
                self.project.project_title.project_title_id_before,
                config.project.title.id_before,
            ),
            overridden.project.title.id_after == given_or_else(
                self.project.project_title.project_title_id_after,
                config.project.title.id_after,
            ),
            overridden.project.title.name_before == given_or_else(
                self.project.project_title.project_title_name_before,
                config.project.title.name_before,
            ),
            overridden.project.title.name_after == given_or_else(
                self.project.project_title.project_title_name_after,
                config.project.title.name_after,
            ),
            overridden.project.title.id_and_name_before == given_or_else(
                self.project.project_title.project_title_id_and_name_before,
                config.project.title.id_and_name_before,
            ),
            overridden.project.title.id_and_name_separator == given_or_else(
                self.project.project_title.project_title_id_and_name_separator,
                config.project.title.id_and_name_separator,
            ),
            overridden.project.title.id_and_name_after == given_or_else(
                self.project.project_title.project_title_id_and_name_after,
                config.project.title.id_and_name_after,
            ),
    {
        let DisplayOpts { project } = self;
        config::DisplayConfig { project: project.override_config(config.project) }
    }
}

#[derive(Debug, Clone, Copy, PartialEq, Eq)]
pub enum TitleConsist {
    Id,
    Name,
    IdAndName,
}

impl From<TitleConsist> for config::TitleConsist {
    fn from(value: TitleConsist) -> (consist: Self) {
        match value {
            TitleConsist::Id => config::TitleConsist::Id,
            TitleConsist::Name => config::TitleConsist::Name,
            TitleConsist::IdAndName => config::TitleConsist::IdAndName,
        }
    }
}

impl vstd::std_specs::convert::FromSpecImpl<TitleConsist> for config::TitleConsist {
    open spec fn obeys_from_spec() -> bool {
        true
    }

    open spec fn from_spec(value: TitleConsist) -> Self {
        match value {
            TitleConsist::Id => config::TitleConsist::Id,
            TitleConsist::Name => config::TitleConsist::Name,
            TitleConsist::IdAndName => config::TitleConsist::IdAndName,
        }
    }
}

#[derive(Debug, Default)]
pub struct SearchOpts {
    pub projects: SearchProjectsOpts,
}

#[derive(Debug, Default)]
pub struct SearchProjectsOpts {
    pub search_projects_enabled: Option<bool>,
    pub search_projects_dir: Vec<PathBuf>,
}

impl SearchProjectsOpts {
    /// The search settings: the flag when it is given, and the configured
    /// directories followed by the given ones.
    pub fn override_config(self, config: config::SearchProjectsConfig) -> (overridden: config::SearchProjectsConfig)
        ensures
            overridden.enabled == given_or(self.search_projects_enabled, config.enabled),
            overridden.dirs@ == config.dirs@ + self.search_projects_dir@,
    {
        let SearchProjectsOpts { search_projects_enabled, search_projects_dir } = self;
        let config::SearchProjectsConfig { enabled, dirs } = config;
        let mut dirs = dirs;
        let ghost start = dirs@;
        let ghost added = search_projects_dir@;
        for dir in it: search_projects_dir
            invariant
                added == it.seq(),
                dirs@ == start + added.take(it.index() as int),
        {
            dirs.push(dir);
            assert(added.take(it.index() + 1) =~= added.take(it.index() as int).push(dir));
        }
        assert(added.take(added.len() as int) =~= added);
        config::SearchProjectsConfig {
            enabled: match search_projects_enabled {
                Some(v) => v,
                None => enabled,
            },
            dirs,
        }
    }
}

impl SearchOpts {
    /// The search settings with the given project options applied.
    pub fn override_config(self, config: config::SearchConfig) -> (overridden: config::SearchConfig)
        ensures
            overridden.projects.enabled == given_or(self.projects.search_projects_enabled, config.projects.enabled),
            overridden.projects.dirs@ == config.projects.dirs@ + self.projects.search_projects_dir@,
    {
        let SearchOpts { projects } = self;
        config::SearchConfig { projects: projects.override_config(config.projects) }
    }
}

#[derive(Debug, Default)]
pub struct ListOpts {
    pub projects: ListProjectsOpts,
}

#[derive(Debug, Default)]
pub struct ListProjectsOpts {
    pub list_projects_enabled: Option<bool>,
}

impl ListProjectsOpts {
    /// The listing flag when it is given, the configured one otherwise.
    pub fn override_config(self, config: config::ListProjectsConfig) -> (overridden: config::ListProjectsConfig)
        ensures
            overridden.enabled == given_or(self.list_projects_enabled, config.enabled),
    {
        config::ListProjectsConfig {
            enabled: match self.list_projects_enabled {
                Some(v) => v,
                None => config.enabled,
            },
        }
    }
}

impl ListOpts {
    /// The list settings with the given project options applied.
    pub fn override_config(self, config: config::ListConfig) -> (overridden: config::ListConfig)
        ensures
            overridden.projects.enabled == given_or(self.projects.list_projects_enabled, config.projects.enabled),
    {
        config::ListConfig { projects: self.projects.override_config(config.projects) }
    }
}

#[derive(Debug, Default)]
pub struct IssueOpts {
    pub issue_add_order: Option<IssueAddOrder>,
}

pub open spec fn add_order_of(value: IssueAddOrder) -> config::IssueAddOrder {
    match value {
        IssueAddOrder::First => config::IssueAddOrder::First,
        IssueAddOrder::Last => config::IssueAddOrder::Last,
    }
}

impl IssueOpts {
    /// The order for new issues when it is given, the configured one otherwise.
    pub fn override_config(self, config: config::IssueConfig) -> (overridden: config::IssueConfig)
        ensures
            overridden.add_order == match self.issue_add_order {
                Some(o) => add_order_of(o),
                None => config.add_order,
            },
    {
        config::IssueConfig {
            add_order: match self.issue_add_order {
                Some(o) => config::IssueAddOrder::from(o),
                None => config.add_order,
            },
        }
    }
}

#[derive(Debug, Clone, Copy, PartialEq, Eq)]
pub enum IssueAddOrder {
    First,
    Last,
}

impl From<IssueAddOrder> for config::IssueAddOrder {
    fn from(value: IssueAddOrder) -> (order: Self) {
        match value {
            IssueAddOrder::First => config::IssueAddOrder::First,
            IssueAddOrder::Last => config::IssueAddOrder::Last,
        }
    }
}

impl vstd::std_specs::convert::FromSpecImpl<IssueAddOrder> for config::IssueAddOrder {
    open spec fn obeys_from_spec() -> bool {
        true
    }

    open spec fn from_spec(value: IssueAddOrder) -> Self {
        match value {
            IssueAddOrder::First => config::IssueAddOrder::First,
            IssueAddOrder::Last => config::IssueAddOrder::Last,
        }
    }
}

} // verus!
