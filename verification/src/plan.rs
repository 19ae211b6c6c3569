//! A plan: issues by id and named sets of issues, both in insertion order.
use indexmap::IndexMap;
use vstd::prelude::*;
use vstd::string::*;

use crate::collections::{
    entries_insert, entries_insert_all, issue_map_entries, issue_map_extend, issue_map_get,
    issue_map_get_index, issue_map_insert, issue_map_len, issue_map_new, key_index,
    lemma_insert_all_map, lemma_insert_map, lemma_key_index_bounds, lemma_key_index_map,
    map_entries, set_map_entries, set_map_extend, set_map_get, set_map_get_index, set_map_insert,
    set_map_len, set_map_new, items_insert,
};
use crate::issue::{Issue, IssueSet, IssueView, SetView};

verus! {

pub struct Plan {
    issues: IndexMap<u64, Issue>,
    sets: IndexMap<String, IssueSet>,
}

pub struct PlanView {
    pub issues: Seq<(u64, IssueView)>,
    pub sets: Seq<(Seq<char>, SetView)>,
}

pub open spec fn issue_view(issue: Issue) -> IssueView {
    issue@
}

pub open spec fn set_view(set: IssueSet) -> SetView {
    set@
}

/// `id` added to the set named `name`, when there is one.
pub open spec fn sets_add_issue(sets: Seq<(Seq<char>, SetView)>, name: Seq<char>, id: u64) -> Seq<(Seq<char>, SetView)> {
    match key_index(sets, name) {
        Some(i) => sets.update(i, (sets[i].0, SetView { issues: items_insert(sets[i].1.issues, id), ..sets[i].1 })),
        None => sets,
    }
}

/// Index of the first issue named `name`.
pub open spec fn first_named(issues: Seq<(u64, IssueView)>, name: Seq<char>) -> Option<int>
    decreases issues.len(),
{
    if issues.len() == 0 {
        None
    } else if issues.last().1.name == name && first_named(issues.drop_last(), name) is None {
        Some(issues.len() - 1)
    } else {
        first_named(issues.drop_last(), name)
    }
}

/// The sets, in order, that hold `id`.
pub open spec fn sets_holding(sets: Seq<(Seq<char>, SetView)>, id: u64) -> Seq<SetView>
    decreases sets.len(),
{
    if sets.len() == 0 {
        Seq::empty()
    } else if sets.last().1.issues.contains(id) {
        sets_holding(sets.drop_last(), id).push(sets.last().1)
    } else {
        sets_holding(sets.drop_last(), id)
    }
}

impl Plan {
    pub closed spec fn issue_map(self) -> IndexMap<u64, Issue> {
        self.issues
    }

    pub closed spec fn set_map(self) -> IndexMap<String, IssueSet> {
        self.sets
    }
}

impl View for Plan {
    type V = PlanView;

    open spec fn view(&self) -> PlanView {
        PlanView {
            issues: map_entries(issue_map_entries(self.issue_map()), |i: Issue| issue_view(i)),
            sets: map_entries(set_map_entries(self.set_map()), |s: IssueSet| set_view(s)),
        }
    }
}

impl Plan {
    pub fn new() -> (plan: Self)
        ensures
            plan@.issues.len() == 0,
            plan@.sets.len() == 0,
    {
        Plan { issues: issue_map_new(), sets: set_map_new() }
    }

    pub fn is_empty(&self) -> (empty: bool)
        ensures
            empty == (self@.issues.len() == 0 && self@.sets.len() == 0),
    {
        issue_map_len(&self.issues) == 0 && set_map_len(&self.sets) == 0
    }

    pub fn get_issue(&self, id: &u64) -> (found: Option<&Issue>)
        ensures
            match key_index(self@.issues, *id) {
                Some(i) => found matches Some(issue) && issue@ == self@.issues[i].1,
                None => found is None,
            },
    {
        proof {
            lemma_key_index_map(issue_map_entries(self.issues), |i: Issue| issue_view(i), *id);
            lemma_key_index_bounds(issue_map_entries(self.issues), *id);
        }
        issue_map_get(&self.issues, *id)
    }

    pub fn get_set(&self, name: &str) -> (found: Option<&IssueSet>)
        ensures
            match key_index(self@.sets, name@) {
                Some(i) => found matches Some(set) && set@ == self@.sets[i].1,
                None => found is None,
            },
    {
        proof {
            lemma_key_index_map(set_map_entries(self.sets), |s: IssueSet| set_view(s), name@);
            lemma_key_index_bounds(set_map_entries(self.sets), name@);
        }
        set_map_get(&self.sets, name)
    }

    pub fn issues(&self) -> (issues: &IndexMap<u64, Issue>)
        ensures
            *issues == self.issue_map(),
    {
        &self.issues
    }

    pub fn sets(&self) -> (sets: &IndexMap<String, IssueSet>)
        ensures
            *sets == self.set_map(),
    {
        &self.sets
    }

    /// Number of issues.
    pub fn issue_count(&self) -> (n: usize)
        ensures
            n == self@.issues.len(),
    {
        issue_map_len(&self.issues)
    }

    /// The issue at position `index`, in insertion order.
    pub fn issue_at(&self, index: usize) -> (issue: &Issue)
        requires
            index < self@.issues.len(),
        ensures
            issue@ == self@.issues[index as int].1,
    {
        issue_map_get_index(&self.issues, index)
    }

    pub fn add_issue(&mut self, issue: Issue)
        ensures
            final(self)@.issues == entries_insert(old(self)@.issues, issue.id, issue@),
            final(self)@.sets == old(self)@.sets,
    {
        proof {
            lemma_insert_map(issue_map_entries(self.issues), |i: Issue| issue_view(i), issue.id, issue);
        }
        let id = issue.id;
        issue_map_insert(&mut self.issues, id, issue);
    }

    pub fn add_set(&mut self, set: IssueSet)
        ensures
            final(self)@.sets == entries_insert(old(self)@.sets, set.name@, set@),
            final(self)@.issues == old(self)@.issues,
    {
        proof {
            lemma_insert_map(set_map_entries(self.sets), |s: IssueSet| set_view(s), set.name@, set);
        }
        let name = set.name.clone();
        set_map_insert(&mut self.sets, name, set);
    }

    /// Add `issue_id` to the set named `set_name`, if there is one.
    pub fn add_issue_to_set(&mut self, set_name: &str, issue_id: u64)
        ensures
            final(self)@.issues == old(self)@.issues,
            final(self)@.sets == sets_add_issue(old(self)@.sets, set_name@, issue_id),
    {
        proof {
            lemma_key_index_map(set_map_entries(self.sets), |s: IssueSet| set_view(s), set_name@);
            lemma_key_index_bounds(set_map_entries(self.sets), set_name@);
        }
        let found = set_map_get(&self.sets, set_name);
        match found {
            Some(set) => {
                let mut updated = set.clone();
                updated.add(issue_id);
                proof {
                    lemma_insert_map(set_map_entries(self.sets), |s: IssueSet| set_view(s), set_name@, updated);
                }
                set_map_insert(&mut self.sets, String::from_str(set_name), updated);
                assert(self@.sets =~= sets_add_issue(old(self)@.sets, set_name@, issue_id));
            },
            None => {},
        }
    }

    pub fn add_issues(&mut self, issues: Vec<Issue>)
        ensures
            final(self)@.issues == entries_insert_all(
                old(self)@.issues,
                Seq::new(issues@.len(), |i: int| (issues@[i].id, issues@[i]@)),
            ),
            final(self)@.sets == old(self)@.sets,
    {
        let ghost all = Seq::new(issues@.len(), |i: int| (issues@[i].id, issues@[i]@));
        let ghost start = old(self)@.issues;
        assert(all.skip(0) =~= all);
        for issue in it: issues
            invariant
                self@.sets == old(self)@.sets,
                all == Seq::new(it.seq().len(), |i: int| (it.seq()[i].id, it.seq()[i]@)),
                entries_insert_all(start, all) == entries_insert_all(self@.issues, all.skip(it.index() as int)),
        {
            assert(all.skip(it.index() as int).drop_first() =~= all.skip(it.index() + 1));
            self.add_issue(issue);
        }
        assert(all.skip(all.len() as int) =~= Seq::<(u64, IssueView)>::empty());
    }

    /// The first issue named `name`.
    pub fn find_issue(&self, name: &str) -> (found: Option<&Issue>)
        ensures
            match first_named(self@.issues, name@) {
                Some(i) => found matches Some(issue) && issue@ == self@.issues[i].1,
                None => found is None,
            },
    {
        let n = issue_map_len(&self.issues);
        let mut i: usize = 0;
        while i < n
            invariant
                n == self@.issues.len(),
                i <= n,
                first_named(self@.issues.take(i as int), name@) is None,
            decreases n - i,
        {
            let issue = issue_map_get_index(&self.issues, i);
            assert(self@.issues.take(i + 1).drop_last() =~= self@.issues.take(i as int));
            if issue.name == String::from_str(name) {
                proof {
                    lemma_first_named_prefix(self@.issues, i as int + 1, name@);
                }
                return Some(issue);
            }
            i = i + 1;
        }
        assert(self@.issues.take(n as int) =~= self@.issues);
        None
    }

    /// The sets, in order, that hold `issue_id`.
    pub fn find_sets(&self, issue_id: &u64) -> (found: Vec<&IssueSet>)
        ensures
            Seq::new(found@.len(), |i: int| found@[i]@) == sets_holding(self@.sets, *issue_id),
    {
        let n = set_map_len(&self.sets);
        let mut found: Vec<&IssueSet> = Vec::new();
        let mut i: usize = 0;
        while i < n
            invariant
                n == self@.sets.len(),
                i <= n,
                Seq::new(found@.len(), |j: int| found@[j]@) == sets_holding(self@.sets.take(i as int), *issue_id),
            decreases n - i,
        {
            let set = set_map_get_index(&self.sets, i);
            assert(self@.sets.take(i + 1).drop_last() =~= self@.sets.take(i as int));
            if crate::collections::id_set_contains(&set.issues, *issue_id) {
                found.push(set);
                assert(Seq::new(found@.len(), |j: int| found@[j]@) =~= sets_holding(self@.sets.take(i + 1), *issue_id));
            }
            i = i + 1;
        }
        assert(self@.sets.take(n as int) =~= self@.sets);
        found
    }

    /// The issues and sets of `other` added to these, in order: an id or a set
    /// name already present keeps its place and takes the value from `other`.
    pub fn merge(self, other: Self) -> (merged: Self)
        ensures
            merged@.issues == entries_insert_all(self@.issues, other@.issues),
            merged@.sets == entries_insert_all(self@.sets, other@.sets),
    {
        proof {
            lemma_insert_all_map(issue_map_entries(self.issues), issue_map_entries(other.issues), |i: Issue| issue_view(i));
            lemma_insert_all_map(set_map_entries(self.sets), set_map_entries(other.sets), |s: IssueSet| set_view(s));
        }
        let Plan { issues: mut issues, sets: mut sets } = self;
        let Plan { issues: other_issues, sets: other_sets } = other;
        issue_map_extend(&mut issues, other_issues);
        set_map_extend(&mut sets, other_sets);
        Plan { issues, sets }
    }
}

impl Default for Plan {
    fn default() -> (plan: Self)
        ensures
            plan@.issues.len() == 0,
            plan@.sets.len() == 0,
    {
        Plan::new()
    }
}

/// `find_issue` looks names up exactly: the issue it picks is named exactly
/// `name` and no issue before it is; it picks none exactly when no issue is
/// named `name`.
pub proof fn lemma_first_named_is_exact(issues: Seq<(u64, IssueView)>, name: Seq<char>)
    ensures
        match first_named(issues, name) {
            Some(i) => 0 <= i < issues.len() && issues[i].1.name == name && forall|j: int|
                0 <= j < i ==> (#[trigger] issues[j]).1.name != name,
            None => forall|j: int| 0 <= j < issues.len() ==> (#[trigger] issues[j]).1.name != name,
        },
        (first_named(issues, name) is Some) == exists|j: int| 0 <= j < issues.len() && (#[trigger] issues[j]).1.name == name,
    decreases issues.len(),
{
    if issues.len() > 0 {
        let init = issues.drop_last();
        lemma_first_named_is_exact(init, name);
        assert forall|j: int| 0 <= j < init.len() implies (#[trigger] init[j]) == issues[j] by {}
        match first_named(issues, name) {
            Some(i) => {
                if i < init.len() {
                    assert(first_named(init, name) == Some(i));
                    assert(issues[i] == init[i]);
                    assert forall|j: int| 0 <= j < i implies (#[trigger] issues[j]).1.name != name by {
                        assert(init[j] == issues[j]);
                    }
                } else {
                    assert(first_named(init, name) is None);
                    assert forall|j: int| 0 <= j < i implies (#[trigger] issues[j]).1.name != name by {
                        assert(init[j] == issues[j]);
                    }
                }
            },
            None => {
                assert(first_named(init, name) is None);
                assert(issues.last().1.name != name);
                assert forall|j: int| 0 <= j < issues.len() implies (#[trigger] issues[j]).1.name != name by {
                    if j < init.len() {
                        assert(init[j] == issues[j]);
                    }
                }
            },
        }
        if exists|j: int| 0 <= j < issues.len() && (#[trigger] issues[j]).1.name == name {
            let j = choose|j: int| 0 <= j < issues.len() && (#[trigger] issues[j]).1.name == name;
            if j < init.len() {
                assert(init[j].1.name == name);
            }
        }
        if exists|j: int| 0 <= j < init.len() && (#[trigger] init[j]).1.name == name {
            let j = choose|j: int| 0 <= j < init.len() && (#[trigger] init[j]).1.name == name;
            assert(issues[j].1.name == name);
        }
    }
}

proof fn lemma_first_named_prefix(issues: Seq<(u64, IssueView)>, k: int, name: Seq<char>)
    requires
        0 < k <= issues.len(),
        first_named(issues.take(k - 1), name) is None,
        issues[k - 1].1.name == name,
    ensures
        first_named(issues, name) == Some(k - 1),
    decreases issues.len(),
{
    if k < issues.len() {
        assert(issues.drop_last().take(k - 1) =~= issues.take(k - 1));
        lemma_first_named_prefix(issues.drop_last(), k, name);
    } else {
        assert(issues.drop_last() =~= issues.take(k - 1));
    }
}

} // verus!
