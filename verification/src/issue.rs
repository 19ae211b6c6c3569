//! Issues, their content and relations, and named sets of issues.
use indexmap::IndexSet;
use vstd::prelude::*;
use vstd::string::*;

use crate::collections::{id_set_clone, id_set_insert, id_set_items, id_set_new, items_insert};

verus! {

#[derive(Debug, Copy, Clone, Eq, PartialEq, Hash)]
pub enum LinkType {
    FinishToStart,
    StartToStart,
    FinishToFinish,
    StartToFinish,
}

#[derive(Debug, Eq, PartialEq, Hash)]
pub enum DependencyType {
    Before,
    After,
    Blocks,
    IsBlockedBy,
    Contains,
    IsContainedIn,
    RelatesTo,
    AssociatedWith,
    Other(String),
}

pub enum DependencyView {
    Before,
    After,
    Blocks,
    IsBlockedBy,
    Contains,
    IsContainedIn,
    RelatesTo,
    AssociatedWith,
    Other(Seq<char>),
}

impl View for DependencyType {
    type V = DependencyView;

    open spec fn view(&self) -> DependencyView {
        match self {
            DependencyType::Before => DependencyView::Before,
            DependencyType::After => DependencyView::After,
            DependencyType::Blocks => DependencyView::Blocks,
            DependencyType::IsBlockedBy => DependencyView::IsBlockedBy,
            DependencyType::Contains => DependencyView::Contains,
            DependencyType::IsContainedIn => DependencyView::IsContainedIn,
            DependencyType::RelatesTo => DependencyView::RelatesTo,
            DependencyType::AssociatedWith => DependencyView::AssociatedWith,
            DependencyType::Other(name) => DependencyView::Other(name@),
        }
    }
}

impl Clone for DependencyType {
    fn clone(&self) -> (copy: Self)
        ensures
            copy@ == self@,
    {
        match self {
            DependencyType::Before => DependencyType::Before,
            DependencyType::After => DependencyType::After,
            DependencyType::Blocks => DependencyType::Blocks,
            DependencyType::IsBlockedBy => DependencyType::IsBlockedBy,
            DependencyType::Contains => DependencyType::Contains,
            DependencyType::IsContainedIn => DependencyType::IsContainedIn,
            DependencyType::RelatesTo => DependencyType::RelatesTo,
            DependencyType::AssociatedWith => DependencyType::AssociatedWith,
            DependencyType::Other(name) => DependencyType::Other(name.clone()),
        }
    }
}

#[derive(Debug, Eq, PartialEq)]
pub struct Relation {
    pub link: LinkType,
    pub dependency: DependencyType,
}

pub struct RelationView {
    pub link: LinkType,
    pub dependency: DependencyView,
}

impl View for Relation {
    type V = RelationView;

    open spec fn view(&self) -> RelationView {
        RelationView { link: self.link, dependency: self.dependency@ }
    }
}

impl Clone for Relation {
    fn clone(&self) -> (copy: Self)
        ensures
            copy@ == self@,
    {
        Relation { link: self.link, dependency: self.dependency.clone() }
    }
}

#[derive(Debug, Eq, PartialEq)]
pub struct IssueRelation {
    pub to_id: u64,
    pub relation: Relation,
}

pub struct IssueRelationView {
    pub to_id: u64,
    pub relation: RelationView,
}

impl View for IssueRelation {
    type V = IssueRelationView;

    open spec fn view(&self) -> IssueRelationView {
        IssueRelationView { to_id: self.to_id, relation: self.relation@ }
    }
}

impl Clone for IssueRelation {
    fn clone(&self) -> (copy: Self)
        ensures
            copy@ == self@,
    {
        IssueRelation { to_id: self.to_id, relation: self.relation.clone() }
    }
}

/// What an issue says beyond its name: nothing, an inline description, or a
/// file it refers to together with an optional note.
#[derive(Debug, Default, PartialEq, Eq)]
pub enum IssueContent {
    #[default]
    Empty,
    Inline(String),
    Linked { file: String, note: Option<String> },
}

pub enum ContentView {
    Empty,
    Inline(Seq<char>),
    Linked { file: Seq<char>, note: Option<Seq<char>> },
}

pub open spec fn opt_text(s: Option<String>) -> Option<Seq<char>> {
    match s {
        Some(t) => Some(t@),
        None => None,
    }
}

impl Clone for IssueContent {
    fn clone(&self) -> (copy: Self)
        ensures
            copy@ == self@,
    {
        match self {
            IssueContent::Empty => IssueContent::Empty,
            IssueContent::Inline(text) => IssueContent::Inline(text.clone()),
            IssueContent::Linked { file, note } => IssueContent::Linked {
                file: file.clone(),
                note: match note {
                    Some(n) => Some(n.clone()),
                    None => None,
                },
            },
        }
    }
}

impl View for IssueContent {
    type V = ContentView;

    open spec fn view(&self) -> ContentView {
        match self {
            IssueContent::Empty => ContentView::Empty,
            IssueContent::Inline(text) => ContentView::Inline(text@),
            IssueContent::Linked { file, note } => ContentView::Linked {
                file: file@,
                note: opt_text(*note),
            },
        }
    }
}

#[derive(Debug, PartialEq, Eq)]
pub struct Issue {
    pub id: u64,
    pub parent_id: Option<u64>,
    pub name: String,
    pub content: IssueContent,
    pub subissues: IndexSet<u64>,
    pub relations: Vec<IssueRelation>,
}

pub struct IssueView {
    pub id: u64,
    pub parent_id: Option<u64>,
    pub name: Seq<char>,
    pub content: ContentView,
    pub subissues: Seq<u64>,
    pub relations: Seq<IssueRelationView>,
}

pub open spec fn relations_view(relations: Seq<IssueRelation>) -> Seq<IssueRelationView> {
    Seq::new(relations.len(), |i: int| relations[i]@)
}

impl View for Issue {
    type V = IssueView;

    open spec fn view(&self) -> IssueView {
        IssueView {
            id: self.id,
            parent_id: self.parent_id,
            name: self.name@,
            content: self.content@,
            subissues: id_set_items(self.subissues),
            relations: relations_view(self.relations@),
        }
    }
}

impl Clone for Issue {
    fn clone(&self) -> (copy: Self)
        ensures
            copy@ == self@,
    {
        let mut relations: Vec<IssueRelation> = Vec::new();
        let n = self.relations.len();
        let mut i: usize = 0;
        while i < n
            invariant
                n == self.relations@.len(),
                i <= n,
                relations@.len() == i,
                relations_view(relations@) == relations_view(self.relations@).take(i as int),
            decreases n - i,
        {
            let copy = self.relations[i].clone();
            assert(copy@ == self.relations@[i as int]@);
            relations.push(copy);
            assert(relations@[i as int]@ == self.relations@[i as int]@);
            assert(relations_view(relations@) =~= relations_view(self.relations@).take(i + 1));
            i = i + 1;
        }
        assert(relations_view(self.relations@).take(n as int) =~= relations_view(self.relations@));
        Issue {
            id: self.id,
            parent_id: self.parent_id,
            name: self.name.clone(),
            content: self.content.clone(),
            subissues: id_set_clone(&self.subissues),
            relations,
        }
    }
}

impl Issue {
    pub fn new(id: u64, name: &str) -> (issue: Self)
        ensures
            issue@ == (IssueView {
                id,
                parent_id: None,
                name: name@,
                content: ContentView::Empty,
                subissues: Seq::empty(),
                relations: Seq::empty(),
            }),
    {
        let relations: Vec<IssueRelation> = Vec::new();
        assert(relations_view(relations@) =~= Seq::<IssueRelationView>::empty());
        Issue {
            id,
            parent_id: None,
            name: String::from_str(name),
            content: IssueContent::Empty,
            subissues: id_set_new(),
            relations,
        }
    }

    pub fn with_parent_id(self, parent_id: u64) -> (issue: Self)
        ensures
            issue@ == (IssueView { parent_id: Some(parent_id), ..self@ }),
    {
        let mut issue = self;
        issue.parent_id = Some(parent_id);
        issue
    }

    pub fn with_content(self, content: &str) -> (issue: Self)
        ensures
            issue@ == (IssueView { content: ContentView::Inline(content@), ..self@ }),
    {
        let mut issue = self;
        issue.content = IssueContent::Inline(String::from_str(content));
        issue
    }

    pub fn with_content_file(self, path: &str) -> (issue: Self)
        ensures
            issue@ == (IssueView { content: ContentView::Linked { file: path@, note: None }, ..self@ }),
    {
        let mut issue = self;
        issue.content = IssueContent::Linked { file: String::from_str(path), note: None };
        issue
    }

    pub fn with_content_file_and_note(self, path: &str, note: &str) -> (issue: Self)
        ensures
            issue@ == (IssueView {
                content: ContentView::Linked { file: path@, note: Some(note@) },
                ..self@
            }),
    {
        let mut issue = self;
        issue.content = IssueContent::Linked {
            file: String::from_str(path),
            note: Some(String::from_str(note)),
        };
        issue
    }

    pub fn with_subissue(self, subissue_id: u64) -> (issue: Self)
        ensures
            issue@ == (IssueView { subissues: items_insert(self@.subissues, subissue_id), ..self@ }),
    {
        let mut issue = self;
        id_set_insert(&mut issue.subissues, subissue_id);
        issue
    }
}

/// A named group of issues, in the order they joined it.
#[derive(Debug, PartialEq, Eq)]
pub struct IssueSet {
    pub name: String,
    pub issues: IndexSet<u64>,
}

pub struct SetView {
    pub name: Seq<char>,
    pub issues: Seq<u64>,
}

impl View for IssueSet {
    type V = SetView;

    open spec fn view(&self) -> SetView {
        SetView { name: self.name@, issues: id_set_items(self.issues) }
    }
}

impl IssueSet {
    pub fn new(name: &str) -> (set: Self)
        ensures
            set@ == (SetView { name: name@, issues: Seq::empty() }),
    {
        IssueSet { name: String::from_str(name), issues: id_set_new() }
    }

    pub fn with_issue(self, issue_id: u64) -> (set: Self)
        ensures
            set@ == (SetView { issues: items_insert(self@.issues, issue_id), ..self@ }),
    {
        let mut set = self;
        set.add(issue_id);
        set
    }

    pub fn add(&mut self, issue_id: u64) -> (this: &mut Self)
        ensures
            this@ == (SetView { issues: items_insert(old(self)@.issues, issue_id), ..old(self)@ }),
            *final(self) == *final(this),
    {
        id_set_insert(&mut self.issues, issue_id);
        self
    }

}

impl Clone for IssueSet {
    fn clone(&self) -> (copy: Self)
        ensures
            copy@ == self@,
    {
        IssueSet { name: self.name.clone(), issues: id_set_clone(&self.issues) }
    }
}

} // verus!
