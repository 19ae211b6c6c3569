//! The settings that command-line options override.
use std::path::PathBuf;

use vstd::prelude::*;

verus! {

/// Whether projects are looked for locally or in the configured roots.
#[derive(Debug, Clone, Copy, PartialEq, Eq)]
pub enum WorkingMode {
    Local,
    Global,
}

/// What a project title shows.
#[derive(Debug, Clone, Copy, PartialEq, Eq)]
pub enum TitleConsist {
    Id,
    Name,
    IdAndName,
}

/// Where a new issue is added.
#[derive(Debug, Clone, Copy, PartialEq, Eq)]
pub enum IssueAddOrder {
    First,
    Last,
}

/// How a project title is shown.
#[derive(Debug, Clone, PartialEq, Eq)]
pub struct DisplayProjectTitleConfig {
    pub consist: TitleConsist,
    pub id_before: Option<String>,
    pub id_after: Option<String>,
    pub name_before: Option<String>,
    pub name_after: Option<String>,
    pub id_and_name_before: Option<String>,
    pub id_and_name_separator: Option<String>,
    pub id_and_name_after: Option<String>,
    pub show_steps_count: bool,
}

/// How a project is shown.
#[derive(Debug, Clone, PartialEq, Eq)]
pub struct DisplayProjectConfig {
    pub title: DisplayProjectTitleConfig,
    pub max_steps: Option<usize>,
    pub show_substeps: bool,
    pub compact: bool,
    pub separate_projects: bool,
}

#[derive(Debug, Clone, PartialEq, Eq)]
pub struct DisplayConfig {
    pub project: DisplayProjectConfig,
}

/// Whether, and where, projects are searched for.
#[derive(Debug)]
pub struct SearchProjectsConfig {
    pub enabled: bool,
    pub dirs: Vec<PathBuf>,
}

#[derive(Debug)]
pub struct SearchConfig {
    pub projects: SearchProjectsConfig,
}

#[derive(Debug, Clone, Copy, PartialEq, Eq)]
pub struct ListProjectsConfig {
    pub enabled: bool,
}

#[derive(Debug, Clone, Copy, PartialEq, Eq)]
pub struct ListConfig {
    pub projects: ListProjectsConfig,
}

#[derive(Debug, Clone, Copy, PartialEq, Eq)]
pub struct IssueConfig {
    pub add_order: IssueAddOrder,
}

} // verus!
