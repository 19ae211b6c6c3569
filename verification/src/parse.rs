//! CommonMark reader: parse a markdown source into a [`ParsedPlan`].
//!
//! Mapping:
//! - bullet list items (`-`/`*`/`+`) → issues; an ordered list (`1.`/`1)`) is
//!   ordinary content, and so is everything nested under it
//! - ATX headings (`#`) → sets (name = `/`-joined heading stack; an issue
//!   belongs to the heading scope active when it appears)
//! - first line of an item → issue name (numeric prefix → id); a `[name](file)`
//!   link opening that line → `IssueContent::Linked`
//! - rest of that line's block, plus the following direct-child blocks → the
//!   description, dedented to the item's content indent
//! - nested lists closing an item → its subissues; a nested list with
//!   description content after it stays part of that description
//! - thematic break (`---`) → ignored between issues; indented to an item's
//!   content it is description text, and it ends the subissues
//!
//! An id spelled out in the source is never handed to another issue: generated
//! ids skip the ones the source already claims, and spelling the same id out
//! twice is a [`ParseError`].
use std::collections::{HashMap, HashSet};
use std::ops::Range;

use indexmap::{IndexMap, IndexSet};
use vstd::prelude::*;
use vstd::string::*;
use vstd::utf8::{encode_scalar, encode_utf8};

use crate::collections::{
    entries_insert, id_set_clone, id_set_insert, id_set_items, id_set_new, items_insert,
    name_set_get, name_set_items, name_set_len, span_map_entries, span_map_insert, span_map_new,
};
use crate::issue::{
    relations_view, Issue, IssueContent, IssueRelation, IssueRelationView, IssueSet, IssueView, SetView,
};
use crate::markdown::{
    balanced, commonmark_events, markdown_events, open_blocks, MdEvent, OpenBlock, MdEventView, ENABLE_FOOTNOTES,
    ENABLE_STRIKETHROUGH, ENABLE_TABLES,
};
use crate::plan::{sets_add_issue, Plan, PlanView};
use crate::assignment::lemma_ids_distinct;
use crate::nesting::{lemma_spans_nested, spans_nested};
use crate::closing::{
    block_lists, lemma_closed_items_named, lemma_step_tracks_blocks, list_flags, names_pending, tracks_blocks,
};
use crate::spans::{keys_of, lemma_parsed_plan_names_keyed, lemma_parsed_plan_spans, spans_describe};
use crate::plan_shape::{distinct_ids, lemma_build_parents_agree, lemma_build_spans_within, parents_agree, spans_within};
use crate::reader::{ChildBlock, RawView, Reader, raw_wf, raws_view, reader_wf, read_events, RawItem};
use crate::text::{lemma_encode_concat, line_at, newline_count, span_in, span_text, text_of_span, Span};

verus! {

/// The block is a nested list that produced item `k`.
pub open spec fn covers(b: ChildBlock, k: int) -> bool {
    match b {
        ChildBlock::List { items, .. } => items.start <= k < items.end,
        ChildBlock::Description(_) => false,
    }
}

/// Whether item `k` was produced by a list that the item `r` demoted into its
/// description.
pub open spec fn demotes(r: RawView, k: int) -> bool {
    exists|j: int| 0 <= j < r.subissue_split && covers(#[trigger] r.children[j], k)
}

/// Item `k` belongs to a list demoted to description text: it is no issue.
pub open spec fn is_demoted(raws: Seq<RawView>, k: int) -> bool {
    exists|i: int| 0 <= i < raws.len() && demotes(#[trigger] raws[i], k)
}

pub open spec fn demoted_flags(raws: Seq<RawView>) -> Seq<bool> {
    Seq::new(raws.len(), |k: int| is_demoted(raws, k))
}

spec fn demoted_before(raws: Seq<RawView>, i: int, x: int) -> bool {
    exists|a: int| 0 <= a < i && demotes(#[trigger] raws[a], x)
}

spec fn listed_before(r: RawView, j: int, x: int) -> bool {
    exists|b: int| 0 <= b < j && covers(#[trigger] r.children[b], x)
}

/// Flags the items a demoted list produced: they are description text, not
/// issues.
fn demoted_items(raw_items: &Vec<RawItem>, Ghost(len): Ghost<int>) -> (dropped: Vec<bool>)
    requires
        forall|i: int| 0 <= i < raw_items@.len() ==> raw_wf(#[trigger] raw_items@[i]@, len, i, raw_items@.len() as int),
    ensures
        dropped@ == demoted_flags(Seq::new(raw_items@.len(), |i: int| raw_items@[i]@)),
{
    let ghost raws = Seq::new(raw_items@.len(), |i: int| raw_items@[i]@);
    let n = raw_items.len();
    let mut dropped: Vec<bool> = Vec::new();
    let mut k: usize = 0;
    while k < n
        invariant
            n == raw_items@.len(),
            k <= n,
            dropped@.len() == k,
            forall|x: int| 0 <= x < k ==> !#[trigger] dropped@[x],
        decreases n - k,
    {
        dropped.push(false);
        k = k + 1;
    }
    let mut i: usize = 0;
    while i < n
        invariant
            n == raw_items@.len(),
            raws == Seq::new(raw_items@.len(), |i: int| raw_items@[i]@),
            forall|x: int| 0 <= x < n ==> raw_wf(#[trigger] raws[x], len, x, n as int),
            i <= n,
            dropped@.len() == n,
            forall|x: int| 0 <= x < n ==> #[trigger] dropped@[x] == demoted_before(raws, i as int, x),
        decreases n - i,
    {
        let raw = &raw_items[i];
        assert(raw@ == raws[i as int]);
        assert(raw_wf(raws[i as int], len, i as int, n as int));
        let split = raw.subissue_split;
        let mut j: usize = 0;
        while j < split
            invariant
                n == raw_items@.len(),
                raw@ == raws[i as int],
                raw_wf(raws[i as int], len, i as int, n as int),
                split == raw@.subissue_split,
                i < n,
                j <= split,
                dropped@.len() == n,
                forall|x: int| 0 <= x < n ==> #[trigger] dropped@[x] == (demoted_before(raws, i as int, x) || listed_before(raws[i as int], j as int, x)),
            decreases split - j,
        {
            match &raw.children[j] {
                ChildBlock::List { items, .. } => {
                    let ghost blk = raws[i as int].children[j as int];
                    assert(blk matches ChildBlock::List { items: it, .. } && it == *items);
                    let mut x = items.start;
                    while x < items.end
                        invariant
                            n == raw_items@.len(),
                            blk matches ChildBlock::List { items: it, .. } && it == *items,
                            span_in(*items, n as int),
                            items.start <= x <= items.end,
                            dropped@.len() == n,
                            forall|y: int| 0 <= y < n ==> #[trigger] dropped@[y] == (demoted_before(raws, i as int, y)
                                || listed_before(raws[i as int], j as int, y) || (items.start <= y < x)),
                        decreases items.end - x,
                    {
                        dropped.set(x, true);
                        x = x + 1;
                    }
                },
                ChildBlock::Description(_) => {},
            }
            assert forall|y: int| 0 <= y < n implies #[trigger] dropped@[y] == (demoted_before(raws, i as int, y)
                || listed_before(raws[i as int], j + 1, y)) by {
                if listed_before(raws[i as int], j + 1, y) && !listed_before(raws[i as int], j as int, y) {
                    let b = choose|b: int| 0 <= b < j + 1 && covers(#[trigger] raws[i as int].children[b], y);
                    assert(b == j);
                }
                if covers(raws[i as int].children[j as int], y) {
                    assert(listed_before(raws[i as int], j + 1, y));
                }
            }
            j = j + 1;
        }
        assert forall|y: int| 0 <= y < n implies #[trigger] dropped@[y] == demoted_before(raws, i + 1, y) by {
            if listed_before(raws[i as int], split as int, y) {
                let b = choose|b: int| 0 <= b < split && covers(#[trigger] raws[i as int].children[b], y);
                assert(demotes(raws[i as int], y));
                assert(demoted_before(raws, i + 1, y));
            }
            if demoted_before(raws, i + 1, y) && !demoted_before(raws, i as int, y) {
                let a = choose|a: int| 0 <= a < i + 1 && demotes(#[trigger] raws[a], y);
                assert(a == i);
                let b = choose|b: int| 0 <= b < raws[a].subissue_split && covers(#[trigger] raws[a].children[b], y);
                assert(listed_before(raws[i as int], split as int, y));
            }
        }
        i = i + 1;
    }
    assert(dropped@ =~= demoted_flags(raws));
    dropped
}


/// A source that spells the same issue id out twice, or one that leaves no id
/// to generate.
#[derive(Debug)]
pub enum ParseError {
    /// The item opening in `line` spells out `id`, which an earlier issue named
    /// `owner` already took.
    DuplicateId { line: usize, id: String, owner: String },
    /// The item opening in `line` needs a generated id, and every id from the
    /// generator's position up to `u64::MAX` is taken.
    IdsExhausted { line: usize },
}

pub enum ParseErrorView {
    DuplicateId { line: usize, id: Seq<char>, owner: Seq<char> },
    IdsExhausted { line: usize },
}

impl View for ParseError {
    type V = ParseErrorView;

    open spec fn view(&self) -> ParseErrorView {
        match self {
            ParseError::DuplicateId { line, id, owner } => ParseErrorView::DuplicateId {
                line: *line,
                id: id@,
                owner: owner@,
            },
            ParseError::IdsExhausted { line } => ParseErrorView::IdsExhausted { line: *line },
        }
    }
}

/// How an error reads: the line it was found in, then what is wrong there.
pub open spec fn error_message(e: ParseErrorView) -> Seq<char> {
    match e {
        ParseErrorView::DuplicateId { line, id, owner } => "in line "@ + decimal_chars(line as nat)
            + ": issue id `"@ + id + "` is already used by `"@ + owner + "`"@,
        ParseErrorView::IdsExhausted { line } => "in line "@ + decimal_chars(line as nat)
            + ": no issue id is left to generate"@,
    }
}

impl ParseError {
    /// The error as a sentence.
    pub fn message(&self) -> (text: String)
        ensures
            text@ == error_message(self@),
    {
        match self {
            ParseError::DuplicateId { line, id, owner } => {
                let mut text = String::from_str("in line ");
                text.append(decimal_string(*line as u64).as_str());
                text.append(": issue id `");
                text.append(id.as_str());
                text.append("` is already used by `");
                text.append(owner.as_str());
                text.append("`");
                text
            },
            ParseError::IdsExhausted { line } => {
                let mut text = String::from_str("in line ");
                text.append(decimal_string(*line as u64).as_str());
                text.append(": no issue id is left to generate");
                text
            },
        }
    }
}

/// `n` written in decimal digits.
pub open spec fn decimal_chars(n: nat) -> Seq<char>
    decreases n,
{
    if n < 10 {
        seq![(48 + n) as char]
    } else {
        decimal_chars(n / 10).push((48 + n % 10) as char)
    }
}

/// The one-digit string of `d`.
fn digit_str(d: u64) -> (text: &'static str)
    requires
        d < 10,
    ensures
        text@ == seq![(48 + d) as char],
{
    proof {
        reveal_strlit("0");
        reveal_strlit("1");
        reveal_strlit("2");
        reveal_strlit("3");
        reveal_strlit("4");
        reveal_strlit("5");
        reveal_strlit("6");
        reveal_strlit("7");
        reveal_strlit("8");
        reveal_strlit("9");
    }
    if d == 0 {
        "0"
    } else if d == 1 {
        "1"
    } else if d == 2 {
        "2"
    } else if d == 3 {
        "3"
    } else if d == 4 {
        "4"
    } else if d == 5 {
        "5"
    } else if d == 6 {
        "6"
    } else if d == 7 {
        "7"
    } else if d == 8 {
        "8"
    } else {
        "9"
    }
}

fn push_decimal(n: u64, out: &mut String)
    ensures
        final(out)@ == old(out)@ + decimal_chars(n as nat),
    decreases n,
{
    if n >= 10 {
        push_decimal(n / 10, out);
    }
    out.append(digit_str(n % 10));
    assert(out@ =~= old(out)@ + decimal_chars(n as nat));
}

/// `n` written in decimal.
pub fn decimal_string(n: u64) -> (text: String)
    ensures
        text@ == decimal_chars(n as nat),
{
    let mut text = String::new();
    push_decimal(n, &mut text);
    assert(text@ =~= decimal_chars(n as nat));
    text
}

/// The name an item was given: the text of its name span.
pub open spec fn name_text(r: RawView, src: Seq<u8>) -> Seq<char> {
    match r.name_span {
        Some(sp) => span_text(src, sp),
        None => Seq::empty(),
    }
}

fn name_of(raw: &RawItem, src: &[u8]) -> (name: String)
    requires
        raw@.name_span matches Some(sp) ==> span_in(sp, src@.len() as int),
    ensures
        name@ == name_text(raw@, src@),
{
    match raw.name_span {
        Some(sp) => text_of_span(src, sp),
        None => String::new(),
    }
}

/// The ids the kept items spell out.
pub open spec fn reserved_ids(raws: Seq<RawView>, dropped: Seq<bool>) -> Set<u64> {
    Set::new(|id: u64| exists|i: int| 0 <= i < raws.len() && !dropped[i] && raws[i].id_override == Some(id))
}

/// The first id at or after `c` that is neither reserved nor assigned.
pub open spec fn next_free(c: int, reserved: Set<u64>, assigned: Map<u64, usize>) -> Option<u64>
    decreases u64::MAX + 1 - c,
{
    if c < 0 || c > u64::MAX {
        None
    } else if !reserved.contains(c as u64) && !assigned.contains_key(c as u64) {
        Some(c as u64)
    } else {
        next_free(c + 1, reserved, assigned)
    }
}

/// The generator's position, the ids handed out so far (with the item that
/// took each), and the id of every item read so far.
pub struct IdState {
    pub counter: int,
    pub assigned: Map<u64, usize>,
    pub ids: Seq<Option<u64>>,
}

pub open spec fn line_of(src: Seq<u8>, offset: usize) -> usize {
    (newline_count(src.take(offset as int)) + 1) as usize
}

/// What item `i` does to the id assignment.
pub open spec fn assign_one(
    st: IdState,
    raws: Seq<RawView>,
    dropped: Seq<bool>,
    src: Seq<u8>,
    reserved: Set<u64>,
    i: int,
) -> Result<IdState, ParseErrorView> {
    if dropped[i] {
        Ok(IdState { ids: st.ids.push(None), ..st })
    } else {
        match raws[i].id_override {
            Some(id) => if st.assigned.contains_key(id) {
                Err(ParseErrorView::DuplicateId {
                    line: line_of(src, raws[i].item_range.start),
                    id: decimal_chars(id as nat),
                    owner: name_text(raws[st.assigned[id] as int], src),
                })
            } else {
                Ok(IdState { assigned: st.assigned.insert(id, i as usize), ids: st.ids.push(Some(id)), ..st })
            },
            None => match next_free(st.counter, reserved, st.assigned) {
                Some(id) => Ok(IdState {
                    counter: id + 1,
                    assigned: st.assigned.insert(id, i as usize),
                    ids: st.ids.push(Some(id)),
                }),
                None => Err(ParseErrorView::IdsExhausted { line: line_of(src, raws[i].item_range.start) }),
            },
        }
    }
}

/// The id assignment over the first `n` items.
pub open spec fn assign_upto(
    raws: Seq<RawView>,
    dropped: Seq<bool>,
    src: Seq<u8>,
    start: u64,
    n: int,
) -> Result<IdState, ParseErrorView>
    decreases n,
{
    if n <= 0 {
        Ok(IdState { counter: start as int, assigned: Map::empty(), ids: Seq::empty() })
    } else {
        match assign_upto(raws, dropped, src, start, n - 1) {
            Err(e) => Err(e),
            Ok(st) => assign_one(st, raws, dropped, src, reserved_ids(raws, dropped), n - 1),
        }
    }
}

/// Ids of the items that stay, `None` for the ones demoted into a description.
/// Ids the source spells out are reserved up front, so a generated one never
/// takes an id claimed further down; spelling the same id out twice is an
/// error.
pub open spec fn assign_ids_spec(
    raws: Seq<RawView>,
    dropped: Seq<bool>,
    src: Seq<u8>,
    start: u64,
) -> Result<Seq<Option<u64>>, ParseErrorView> {
    match assign_upto(raws, dropped, src, start, raws.len() as int) {
        Ok(st) => Ok(st.ids),
        Err(e) => Err(e),
    }
}

proof fn lemma_assign_len(raws: Seq<RawView>, dropped: Seq<bool>, src: Seq<u8>, start: u64, n: int)
    requires
        0 <= n,
    ensures
        assign_upto(raws, dropped, src, start, n) matches Ok(st) ==> st.ids.len() == n,
    decreases n,
{
    if n > 0 {
        lemma_assign_len(raws, dropped, src, start, n - 1);
    }
}

pub(crate) proof fn lemma_assign_err_stays(raws: Seq<RawView>, dropped: Seq<bool>, src: Seq<u8>, start: u64, i: int, n: int)
    requires
        0 <= i <= n,
        assign_upto(raws, dropped, src, start, i) is Err,
    ensures
        assign_upto(raws, dropped, src, start, n) == assign_upto(raws, dropped, src, start, i),
    decreases n - i,
{
    if n > i {
        lemma_assign_err_stays(raws, dropped, src, start, i, n - 1);
    }
}

fn assign_ids(
    raw_items: &Vec<RawItem>,
    dropped: &Vec<bool>,
    src: &[u8],
    start: u64,
    Ghost(raws): Ghost<Seq<RawView>>,
) -> (r: Result<Vec<Option<u64>>, ParseError>)
    requires
        raws == Seq::new(raw_items@.len(), |i: int| raw_items@[i]@),
        dropped@.len() == raws.len(),
        src@.len() < usize::MAX,
        forall|i: int| 0 <= i < raws.len() ==> raw_wf(#[trigger] raws[i], src@.len() as int, i, raws.len() as int),
    ensures
        match assign_ids_spec(raws, dropped@, src@, start) {
            Ok(ids) => r matches Ok(v) && v@ == ids,
            Err(e) => r matches Err(x) && x@ == e,
        },
{
    broadcast use vstd::std_specs::hash::group_hash_axioms;

    let n = raw_items.len();
    let ghost reserved_set = reserved_ids(raws, dropped@);
    let mut reserved: HashSet<u64> = HashSet::new();
    let mut i: usize = 0;
    while i < n
        invariant
            n == raws.len(),
            raws == Seq::new(raw_items@.len(), |i: int| raw_items@[i]@),
            dropped@.len() == n,
            i <= n,
            forall|id: u64| reserved@.contains(id) <==> exists|k: int| 0 <= k < i && !dropped@[k] && raws[k].id_override == Some(id),
        decreases n - i,
    {
        assert(raw_items@[i as int]@ == raws[i as int]);
        if !dropped[i] {
            match raw_items[i].id_override {
                Some(id) => {
                    reserved.insert(id);
                },
                None => {},
            }
        }
        i = i + 1;
        assert forall|id: u64| reserved@.contains(id) <==> exists|k: int| 0 <= k < i && !dropped@[k] && raws[k].id_override == Some(id) by {
            if reserved@.contains(id) && !(exists|k: int| 0 <= k < i - 1 && !dropped@[k] && raws[k].id_override == Some(id)) {
                assert(!dropped@[i - 1] && raws[i - 1].id_override == Some(id));
            }
        }
    }
    assert(reserved@ =~= reserved_set);
    let mut assigned: HashMap<u64, usize> = HashMap::new();
    let mut ids: Vec<Option<u64>> = Vec::new();
    let mut counter: u128 = start as u128;
    let mut i: usize = 0;
    while i < n
        invariant
            n == raws.len(),
            raws == Seq::new(raw_items@.len(), |i: int| raw_items@[i]@),
            dropped@.len() == n,
            src@.len() < usize::MAX,
            forall|k: int| 0 <= k < raws.len() ==> raw_wf(#[trigger] raws[k], src@.len() as int, k, raws.len() as int),
            reserved@ == reserved_set,
            reserved_set == reserved_ids(raws, dropped@),
            i <= n,
            counter <= u64::MAX + 1,
            forall|id: u64| assigned@.contains_key(id) ==> assigned@[id] < i,
            assign_upto(raws, dropped@, src@, start, i as int) == Ok::<IdState, ParseErrorView>(IdState {
                counter: counter as int,
                assigned: assigned@,
                ids: ids@,
            }),
        decreases n - i,
    {
        let raw = &raw_items[i];
        assert(raw@ == raws[i as int]);
        assert(raw_wf(raws[i as int], src@.len() as int, i as int, n as int));
        if dropped[i] {
            ids.push(None);
        } else {
            match raw.id_override {
                Some(id) => {
                    match assigned.get(&id) {
                        Some(owner) => {
                            let owner = *owner;
                            assert(raw_wf(raws[owner as int], src@.len() as int, owner as int, n as int));
                            let line = line_at(src, raw.item_range.start);
                            let owner_name = name_of(&raw_items[owner], src);
                            proof {
                                lemma_assign_err_stays(raws, dropped@, src@, start, i as int + 1, n as int);
                            }
                            return Err(ParseError::DuplicateId { line, id: decimal_string(id), owner: owner_name });
                        },
                        None => {},
                    }
                    assigned.insert(id, i);
                    ids.push(Some(id));
                },
                None => {
                    let ghost st_counter = counter as int;
                    let mut c = counter;
                    let mut found: Option<u64> = None;
                    while c <= u64::MAX as u128
                        invariant_except_break
                            st_counter <= c <= u64::MAX + 1,
                            found is None,
                            next_free(c as int, reserved_set, assigned@) == next_free(st_counter, reserved_set, assigned@),
                        invariant
                            reserved@ == reserved_set,
                        ensures
                            match found {
                                Some(id) => next_free(st_counter, reserved_set, assigned@) == Some(id),
                                None => next_free(st_counter, reserved_set, assigned@) is None,
                            },
                        decreases u64::MAX + 1 - c,
                    {
                        let candidate = c as u64;
                        if !reserved.contains(&candidate) && !assigned.contains_key(&candidate) {
                            found = Some(candidate);
                            break;
                        }
                        c = c + 1;
                    }
                    match found {
                        Some(id) => {
                            assert(next_free(st_counter, reserved_set, assigned@) == Some(id));
                            counter = id as u128 + 1;
                            assigned.insert(id, i);
                            ids.push(Some(id));
                        },
                        None => {
                            let line = line_at(src, raw.item_range.start);
                            proof {
                                lemma_assign_err_stays(raws, dropped@, src@, start, i as int + 1, n as int);
                            }
                            return Err(ParseError::IdsExhausted { line });
                        },
                    }
                },
            }
        }
        i = i + 1;
    }
    Ok(ids)
}

/// A parsed plan together with the byte spans its issues occupy in the source,
/// so an edit can rewrite one issue and leave the rest of the file
/// byte-identical.
///
/// The spans describe the source it was parsed from: they go stale as soon as
/// that text, or `plan`, changes.
pub struct ParsedPlan {
    pub plan: Plan,
    /// The whole list item, its subissues and description included.
    pub issue_spans: IndexMap<u64, Range<usize>>,
    /// The name alone, as written: markup and all, without the id prefix.
    pub name_spans: IndexMap<u64, Range<usize>>,
    /// The description as written, still carrying the item's indentation that
    /// the issue content holds stripped. Absent for an issue without one.
    pub content_spans: IndexMap<u64, Range<usize>>,
}

pub struct ParsedView {
    pub plan: PlanView,
    pub issue_spans: Seq<(u64, Range<usize>)>,
    pub name_spans: Seq<(u64, Range<usize>)>,
    pub content_spans: Seq<(u64, Range<usize>)>,
}

impl View for ParsedPlan {
    type V = ParsedView;

    open spec fn view(&self) -> ParsedView {
        ParsedView {
            plan: self.plan@,
            issue_spans: span_map_entries(self.issue_spans),
            name_spans: span_map_entries(self.name_spans),
            content_spans: span_map_entries(self.content_spans),
        }
    }
}

pub open spec fn range_of(sp: Span) -> Range<usize> {
    Range { start: sp.start, end: sp.end }
}

/// The ids, in order, of the kept items among the first `n` whose parent is
/// item `p`: the subissues of `p`.
pub open spec fn child_ids(raws: Seq<RawView>, ids: Seq<Option<u64>>, p: int, n: int) -> Seq<u64>
    decreases n,
{
    if n <= 0 {
        Seq::empty()
    } else {
        let prev = child_ids(raws, ids, p, n - 1);
        match (raws[n - 1].parent_idx, ids[n - 1]) {
            (Some(q), Some(id)) => if q == p {
                items_insert(prev, id)
            } else {
                prev
            },
            _ => prev,
        }
    }
}

/// The id of the item's parent, when it has one that is kept.
pub open spec fn parent_id_of(raw: RawView, ids: Seq<Option<u64>>) -> Option<u64> {
    match raw.parent_idx {
        Some(p) => ids[p as int],
        None => None,
    }
}

/// The issue item `k` becomes under `id`.
pub open spec fn issue_of(raws: Seq<RawView>, ids: Seq<Option<u64>>, src: Seq<u8>, k: int, id: u64) -> IssueView {
    IssueView {
        id,
        parent_id: parent_id_of(raws[k], ids),
        name: name_text(raws[k], src),
        content: raws[k].content,
        subissues: child_ids(raws, ids, k, raws.len() as int),
        relations: Seq::empty(),
    }
}

/// One empty set per name, in order.
pub open spec fn sets_of(names: Seq<Seq<char>>) -> Seq<(Seq<char>, SetView)>
    decreases names.len(),
{
    if names.len() == 0 {
        Seq::empty()
    } else {
        entries_insert(sets_of(names.drop_last()), names.last(), SetView { name: names.last(), issues: Seq::empty() })
    }
}

pub open spec fn insert_span(entries: Seq<(u64, Range<usize>)>, id: u64, sp: Option<Span>) -> Seq<(u64, Range<usize>)> {
    match sp {
        Some(s) => entries_insert(entries, id, range_of(s)),
        None => entries,
    }
}

/// The plan and spans of the first `n` items: each kept item becomes an issue
/// under its id, joins the set of its heading scope, and leaves its spans.
pub open spec fn build_upto(
    raws: Seq<RawView>,
    ids: Seq<Option<u64>>,
    names: Seq<Seq<char>>,
    src: Seq<u8>,
    n: int,
) -> ParsedView
    decreases n,
{
    if n <= 0 {
        ParsedView {
            plan: PlanView { issues: Seq::empty(), sets: sets_of(names) },
            issue_spans: Seq::empty(),
            name_spans: Seq::empty(),
            content_spans: Seq::empty(),
        }
    } else {
        let prev = build_upto(raws, ids, names, src, n - 1);
        let k = n - 1;
        match ids[k] {
            None => prev,
            Some(id) => ParsedView {
                plan: PlanView {
                    issues: entries_insert(prev.plan.issues, id, issue_of(raws, ids, src, k, id)),
                    sets: match raws[k].set_name {
                        Some(name) => sets_add_issue(prev.plan.sets, name, id),
                        None => prev.plan.sets,
                    },
                },
                issue_spans: entries_insert(prev.issue_spans, id, range_of(raws[k].item_range)),
                name_spans: insert_span(prev.name_spans, id, raws[k].name_span),
                content_spans: insert_span(prev.content_spans, id, raws[k].content_span),
            },
        }
    }
}

/// Turn the read items into a plan, skipping the ones without an id: those a
/// demoted list produced.
fn build_plan(
    raw_items: Vec<RawItem>,
    ids: &Vec<Option<u64>>,
    set_names: &IndexSet<String>,
    src: &[u8],
) -> (parsed: ParsedPlan)
    requires
        ids@.len() == raw_items@.len(),
        forall|i: int| 0 <= i < raw_items@.len() ==> raw_wf(#[trigger] raw_items@[i]@, src@.len() as int, i, raw_items@.len() as int),
    ensures
        parsed@ == build_upto(raws_view(raw_items@), ids@, name_set_items(*set_names), src@, raw_items@.len() as int),
{
    let ghost raws = raws_view(raw_items@);
    let ghost names = name_set_items(*set_names);
    let n = raw_items.len();

    let mut children: Vec<IndexSet<u64>> = Vec::new();
    let mut k: usize = 0;
    while k < n
        invariant
            k <= n,
            children@.len() == k,
            forall|p: int| 0 <= p < k ==> id_set_items(#[trigger] children@[p]) == Seq::<u64>::empty(),
        decreases n - k,
    {
        children.push(id_set_new());
        k = k + 1;
    }
    let mut k: usize = 0;
    while k < n
        invariant
            n == raw_items@.len(),
            raws == raws_view(raw_items@),
            ids@.len() == n,
            forall|i: int| 0 <= i < n ==> raw_wf(#[trigger] raws[i], src@.len() as int, i, n as int),
            k <= n,
            children@.len() == n,
            forall|p: int| 0 <= p < n ==> id_set_items(#[trigger] children@[p]) == child_ids(raws, ids@, p, k as int),
        decreases n - k,
    {
        let raw = &raw_items[k];
        assert(raw@ == raws[k as int]);
        assert(raw_wf(raws[k as int], src@.len() as int, k as int, n as int));
        match (raw.parent_idx, ids[k]) {
            (Some(p), Some(id)) => {
                id_set_insert(&mut children[p], id);
            },
            _ => {},
        }
        k = k + 1;
    }

    let mut plan = Plan::new();
    let count = name_set_len(set_names);
    let mut i: usize = 0;
    assert(names.take(0) =~= Seq::<Seq<char>>::empty());
    assert(plan@.issues =~= Seq::<(u64, IssueView)>::empty());
    while i < count
        invariant
            count == names.len(),
            names == name_set_items(*set_names),
            i <= count,
            plan@.issues == Seq::<(u64, IssueView)>::empty(),
            plan@.sets == sets_of(names.take(i as int)),
        decreases count - i,
    {
        let name = name_set_get(set_names, i);
        plan.add_set(IssueSet::new(name.as_str()));
        assert(names.take(i + 1).drop_last() =~= names.take(i as int));
        i = i + 1;
    }
    assert(names.take(count as int) =~= names);

    let mut issue_spans = span_map_new();
    let mut name_spans = span_map_new();
    let mut content_spans = span_map_new();
    let ghost all = raw_items@;
    let mut k: usize = 0;
    for raw in it: raw_items
        invariant
            k == it.index(),
            n == all.len(),
            raws == raws_view(all),
            it.seq() == all,
            ids@.len() == n,
            forall|i: int| 0 <= i < n ==> raw_wf(#[trigger] raws[i], src@.len() as int, i, n as int),
            children@.len() == n,
            forall|p: int| 0 <= p < n ==> id_set_items(#[trigger] children@[p]) == child_ids(raws, ids@, p, n as int),
            (ParsedView {
                plan: plan@,
                issue_spans: span_map_entries(issue_spans),
                name_spans: span_map_entries(name_spans),
                content_spans: span_map_entries(content_spans),
            }) == build_upto(raws, ids@, names, src@, it.index() as int),
    {
        assert(raw@ == raws[k as int]);
        assert(raw_wf(raws[k as int], src@.len() as int, k as int, n as int));
        match ids[k] {
            None => {},
            Some(id) => {
                let name = name_of(&raw, src);
                let parent_id = match raw.parent_idx {
                    Some(p) => ids[p],
                    None => None,
                };
                let relations: Vec<IssueRelation> = Vec::new();
                assert(relations_view(relations@) =~= Seq::<IssueRelationView>::empty());
                let issue = Issue {
                    id,
                    parent_id,
                    name,
                    content: raw.content,
                    subissues: id_set_clone(&children[k]),
                    relations,
                };
                assert(issue@ == issue_of(raws, ids@, src@, k as int, id));
                plan.add_issue(issue);
                span_map_insert(&mut issue_spans, id, raw.item_range.start..raw.item_range.end);
                match raw.name_span {
                    Some(sp) => span_map_insert(&mut name_spans, id, sp.start..sp.end),
                    None => {},
                }
                match raw.content_span {
                    Some(sp) => span_map_insert(&mut content_spans, id, sp.start..sp.end),
                    None => {},
                }
                match raw.set_name {
                    Some(set_name) => plan.add_issue_to_set(set_name.as_str(), id),
                    None => {},
                }
            },
        }
        k = k + 1;
    }
    ParsedPlan { plan, issue_spans, name_spans, content_spans }
}

/// Hands out issue ids counting up from a first one.
pub struct IntIdGenerator {
    first: u64,
}

impl IntIdGenerator {
    pub closed spec fn first_id(self) -> u64 {
        self.first
    }

    pub fn new(first: u64) -> (generator: Self)
        ensures
            generator.first_id() == first,
    {
        IntIdGenerator { first }
    }

    /// The id handed out first.
    pub fn first(&self) -> (first: u64)
        ensures
            first == self.first_id(),
    {
        self.first
    }
}

pub open spec fn events_view(events: Seq<MdEvent>) -> Seq<MdEventView> {
    Seq::new(events.len(), |i: int| events[i]@)
}

/// The plan that the events read over `src` describe, ids generated from
/// `start`: the events drive the reader; the items that demoted lists produced
/// drop out; ids are assigned; the kept items become the plan.
pub open spec fn plan_of_events(src: Seq<u8>, events: Seq<MdEventView>, start: u64) -> Result<ParsedView, ParseErrorView> {
    let r = read_events(src, events);
    match assign_ids_spec(r.raw_items, demoted_flags(r.raw_items), src, start) {
        Ok(ids) => Ok(build_upto(r.raw_items, ids, r.sets.names, src, r.raw_items.len() as int)),
        Err(e) => Err(e),
    }
}

/// The CommonMark extensions a plan is read with: tables, strikethrough and
/// footnotes, as GitHub-flavoured markdown has them.
pub const GFM_OPTIONS: u32 = ENABLE_TABLES | ENABLE_STRIKETHROUGH | ENABLE_FOOTNOTES;

/// The plan that the CommonMark source `source` describes.
pub open spec fn parse_spec(source: Seq<char>, start: u64) -> Result<ParsedView, ParseErrorView> {
    plan_of_events(encode_utf8(source), commonmark_events(source, GFM_OPTIONS), start)
}

/// Read the plan out of `events`, the CommonMark events of `source`.
pub fn parse_events(source: &str, events: &Vec<MdEvent>, id_gen: &IntIdGenerator) -> (parsed: Result<ParsedPlan, ParseError>)
    requires
        source.spec_bytes().len() < usize::MAX,
    ensures
        match plan_of_events(source.spec_bytes(), events_view(events@), id_gen.first_id()) {
            Ok(v) => parsed matches Ok(p) && p@ == v,
            Err(e) => parsed matches Err(x) && x@ == e,
        },
        parsed matches Ok(p) ==> spans_within(p@.issue_spans, source.spec_bytes().len() as int)
            && spans_within(p@.name_spans, source.spec_bytes().len() as int)
            && spans_within(p@.content_spans, source.spec_bytes().len() as int),
        parsed matches Ok(p) ==> parents_agree(p@.plan.issues),
        parsed matches Ok(p) ==> spans_nested(p@),
        parsed matches Ok(p) ==> spans_describe(p@, source.spec_bytes()),
        balanced(events_view(events@)) ==> (parsed matches Ok(p) ==> keys_of(p@.name_spans) == keys_of(p@.plan.issues)),
{
    let src = source.as_bytes();
    let ghost evs = events_view(events@);
    let ghost len = src@.len() as int;
    let mut reader = Reader::new();
    let n = events.len();
    let mut i: usize = 0;
    assert(evs.take(0) =~= Seq::<MdEventView>::empty());
    assert(list_flags(reader@.list_stack) =~= block_lists(Seq::<OpenBlock>::empty()));
    while i < n
        invariant
            n == events@.len(),
            evs == events_view(events@),
            len == src@.len(),
            i <= n,
            reader@ == read_events(src@, evs.take(i as int)),
            reader_wf(reader@, len),
            open_blocks(evs.take(i as int)) matches Some(b) ==> tracks_blocks(reader@, b) && names_pending(reader@),
        decreases n - i,
    {
        let ghost before = reader@;
        reader.step(src, &events[i]);
        assert(evs.take(i + 1).drop_last() =~= evs.take(i as int));
        proof {
            assert(evs[i as int] == events@[i as int]@);
            assert(reader@.raw_items.len() == reader.raw_items@.len());
            assert(reader.raw_items@.len() == reader.raw_items.len());
            if open_blocks(evs.take(i as int)) is Some {
                lemma_step_tracks_blocks(before, src@, evs[i as int], open_blocks(evs.take(i as int))->Some_0);
            }
        }
        i = i + 1;
    }
    assert(evs.take(n as int) =~= evs);
    let item_count = reader.raw_items.len();
    proof {
        assert(reader@.raw_items.len() == item_count);
        lemma_spans_nested(src@, evs, id_gen.first_id());
        lemma_parsed_plan_spans(src@, evs, id_gen.first_id());
        if balanced(evs) {
            lemma_closed_items_named(reader@);
            lemma_parsed_plan_names_keyed(src@, evs, id_gen.first_id());
        }
    }
    let Reader { raw_items, sets, .. } = reader;
    let ghost raws = raws_view(raw_items@);
    assert forall|i: int| 0 <= i < raw_items@.len() implies raw_wf(#[trigger] raw_items@[i]@, len, i, raw_items@.len() as int) by {
        assert(raws[i] == raw_items@[i]@);
    }
    let dropped = demoted_items(&raw_items, Ghost(len));
    proof {
        lemma_assign_len(raws, dropped@, src@, id_gen.first_id(), raws.len() as int);
    }
    match assign_ids(&raw_items, &dropped, src, id_gen.first(), Ghost(raws)) {
        Ok(ids) => {
            proof {
                lemma_build_spans_within(raws, ids@, name_set_items(sets.names), src@, raws.len() as int, len);
                lemma_ids_distinct(raws, dropped@, src@, id_gen.first_id());
                assert(distinct_ids(ids@)) by {
                    assert forall|i: int, j: int|
                        0 <= i < j < ids@.len() && #[trigger] ids@[i] is Some && #[trigger] ids@[j] is Some implies ids@[i]
                        != ids@[j] by {
                        assert(!dropped@[i] && !dropped@[j]);
                    }
                }
                assert forall|k: int| 0 <= k < raws.len() implies (#[trigger] raws[k].parent_idx matches Some(p) ==> p < k) by {
                    assert(raw_wf(raws[k], len, k, raws.len() as int));
                }
                lemma_build_parents_agree(raws, ids@, name_set_items(sets.names), src@);
            }
            Ok(build_plan(raw_items, &ids, &sets.names, src))
        },
        Err(e) => Err(e),
    }
}

/// Parse the CommonMark `source` into a plan with the byte spans of its issues.
pub fn parse(source: &str, id_gen: &IntIdGenerator) -> (parsed: Result<ParsedPlan, ParseError>)
    requires
        source.spec_bytes().len() < usize::MAX,
    ensures
        match parse_spec(source@, id_gen.first_id()) {
            Ok(v) => parsed matches Ok(p) && p@ == v,
            Err(e) => parsed matches Err(x) && x@ == e,
        },
        parsed matches Ok(p) ==> spans_within(p@.issue_spans, source.spec_bytes().len() as int)
            && spans_within(p@.name_spans, source.spec_bytes().len() as int)
            && spans_within(p@.content_spans, source.spec_bytes().len() as int),
        parsed matches Ok(p) ==> parents_agree(p@.plan.issues),
        parsed matches Ok(p) ==> spans_nested(p@),
        parsed matches Ok(p) ==> spans_describe(p@, source.spec_bytes()),
        parsed matches Ok(p) ==> keys_of(p@.name_spans) == keys_of(p@.plan.issues),
{
    let events = markdown_events(source, GFM_OPTIONS);
    assert(events_view(events@) =~= commonmark_events(source@, GFM_OPTIONS));
    parse_events(source, &events, id_gen)
}

/// `- ` and a name, encoded, are two bytes longer than the name.
proof fn lemma_dash_prefix_len(name: Seq<char>)
    ensures
        encode_utf8("- "@ + name).len() == encode_utf8(name).len() + 2,
{
    reveal_strlit("- ");
    lemma_encode_concat("- "@, name);
    assert("- "@ =~= seq!['-', ' ']);
    let dash = seq!['-', ' '];
    assert(dash.drop_first().drop_first() =~= Seq::<char>::empty());
    assert(dash.drop_first()[0] == ' ');
    assert((' ' as u32) == 32);
    assert(encode_scalar(' ' as u32).len() == 1);
    assert(encode_utf8(Seq::<char>::empty()).len() == 0);
    assert(encode_utf8(dash.drop_first()) == encode_scalar(' ' as u32) + encode_utf8(Seq::<char>::empty()));
    assert(encode_utf8(dash.drop_first()).len() == 1);
    assert(encode_utf8(dash).len() == 2);
}

/// The first issue of the plan that `- {name}` reads as refers to a file.
pub open spec fn reads_as_filelink_spec(name: Seq<char>) -> bool {
    match parse_spec("- "@ + name, 1) {
        Ok(v) => v.plan.issues.len() > 0 && v.plan.issues[0].1.content is Linked,
        Err(_) => false,
    }
}

/// Would `name`, written as an issue name, read back as a reference to a file
/// rather than as plain text? Asks the reader itself, so the two cannot drift.
pub fn reads_as_filelink(name: &str) -> (links: bool)
    requires
        name.spec_bytes().len() + 2 < usize::MAX,
    ensures
        links == reads_as_filelink_spec(name@),
{
    let mut text = String::from_str("- ");
    text.append(name);
    proof {
        lemma_dash_prefix_len(name@);
    }
    match parse(text.as_str(), &IntIdGenerator::new(1)) {
        Ok(parsed) => {
            if parsed.plan.issue_count() == 0 {
                return false;
            }
            match &parsed.plan.issue_at(0).content {
                IssueContent::Linked { .. } => true,
                _ => false,
            }
        },
        Err(_) => false,
    }
}

/// `- {name}` on a line of its own reads back as exactly one issue, named
/// `name`, with no content.
pub open spec fn reads_back_as_name_spec(name: Seq<char>) -> bool {
    match parse_spec("- "@ + name + "\n"@, 1) {
        Ok(v) => v.plan.issues.len() == 1 && v.plan.issues[0].1.name == name && v.plan.issues[0].1.content
            is Empty,
        Err(_) => false,
    }
}

/// `- `, a name and a line feed, encoded, are three bytes longer than the
/// name.
proof fn lemma_item_line_len(name: Seq<char>)
    ensures
        encode_utf8("- "@ + name + "\n"@).len() == encode_utf8(name).len() + 3,
{
    lemma_dash_prefix_len(name);
    reveal_strlit("\n");
    lemma_encode_concat("- "@ + name, "\n"@);
    let nl = seq!['\n'];
    assert("\n"@ =~= nl);
    assert(nl.drop_first() =~= Seq::<char>::empty());
    assert(('\n' as u32) == 10);
    assert(encode_scalar('\n' as u32).len() == 1);
    assert(encode_utf8(Seq::<char>::empty()).len() == 0);
    assert(encode_utf8(nl) == encode_scalar('\n' as u32) + encode_utf8(Seq::<char>::empty()));
}

/// Would `name`, written as the first line of an issue item, read back as one
/// issue of exactly that name and nothing else? Asks the reader itself.
pub fn reads_back_as_name(name: &str) -> (same: bool)
    requires
        name.spec_bytes().len() + 3 < usize::MAX,
    ensures
        same == reads_back_as_name_spec(name@),
{
    let mut text = String::from_str("- ");
    text.append(name);
    text.append("\n");
    proof {
        lemma_item_line_len(name@);
    }
    match parse(text.as_str(), &IntIdGenerator::new(1)) {
        Ok(parsed) => {
            if parsed.plan.issue_count() != 1 {
                return false;
            }
            let issue = parsed.plan.issue_at(0);
            if issue.name != String::from_str(name) {
                return false;
            }
            match &issue.content {
                IssueContent::Empty => true,
                _ => false,
            }
        },
        Err(_) => false,
    }
}

} // verus!
