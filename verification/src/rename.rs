//! Editing a plan in place: checking a new issue name, and renaming an issue by
//! patching only its name in the file.
use vstd::prelude::*;
use vstd::string::*;
use vstd::utf8::*;

use crate::collections::{key_index, span_map_get};
use crate::issue::IssueView;
use crate::plan::{first_named, Plan};
use crate::parse::{
    error_message, parse, parse_spec, reads_as_filelink, reads_as_filelink_spec, reads_back_as_name,
    reads_back_as_name_spec, IntIdGenerator,
    ParseError, ParseErrorView,
};
use crate::patch::replace_range;
use crate::source::{PlanSource, PlanSourceView};
use crate::syntax::{chars_of, id_prefix, id_prefix_of, is_blank, is_white_space, white_space};

verus! {

/// Where a new issue goes among the others.
#[derive(Debug, Clone, Copy, Eq, PartialEq)]
pub enum Order {
    First,
    Last,
}

/// Why a text cannot be an issue name.
#[derive(Debug)]
pub enum NameError {
    Empty,
    Multiline,
    /// It opens with this `<digits><space>` prefix.
    IdPrefix { prefix: String },
    Filelink,
    /// It would read back as something else than one issue of this name.
    Misread,
}

pub enum NameErrorView {
    Empty,
    Multiline,
    IdPrefix { prefix: Seq<char> },
    Filelink,
    Misread,
}

impl View for NameError {
    type V = NameErrorView;

    open spec fn view(&self) -> NameErrorView {
        match self {
            NameError::Empty => NameErrorView::Empty,
            NameError::Multiline => NameErrorView::Multiline,
            NameError::IdPrefix { prefix } => NameErrorView::IdPrefix { prefix: prefix@ },
            NameError::Filelink => NameErrorView::Filelink,
            NameError::Misread => NameErrorView::Misread,
        }
    }
}

/// What keeps `name` from reading back as the name it is: an issue name is
/// written as the first line of its list item.
pub open spec fn name_error(name: Seq<char>) -> Option<NameErrorView> {
    if is_blank(name) {
        Some(NameErrorView::Empty)
    } else if name.contains('\n') || name.contains('\r') {
        Some(NameErrorView::Multiline)
    } else {
        match id_prefix_of(name) {
            Some(prefix) => Some(NameErrorView::IdPrefix { prefix }),
            None => if reads_as_filelink_spec(name) {
                Some(NameErrorView::Filelink)
            } else if !reads_back_as_name_spec(name) {
                Some(NameErrorView::Misread)
            } else {
                None
            },
        }
    }
}

pub open spec fn name_error_message(e: NameErrorView) -> Seq<char> {
    "invalid issue name: "@ + match e {
        NameErrorView::Empty => "must not be empty"@,
        NameErrorView::Multiline => "must be a single line"@,
        NameErrorView::IdPrefix { prefix } => "must not start with `"@ + prefix
            + "` — it would be read back as an issue id"@,
        NameErrorView::Filelink => "must not open with a `[...](...)` link — it would be read back as a file reference"@,
        NameErrorView::Misread => "it would not be read back as written"@,
    }
}

impl NameError {
    /// The error as a sentence.
    pub fn message(&self) -> (text: String)
        ensures
            text@ == name_error_message(self@),
    {
        let mut text = String::from_str("invalid issue name: ");
        match self {
            NameError::Empty => text.append("must not be empty"),
            NameError::Multiline => text.append("must be a single line"),
            NameError::IdPrefix { prefix } => {
                text.append("must not start with `");
                text.append(prefix.as_str());
                text.append("` — it would be read back as an issue id");
            },
            NameError::Filelink => text.append(
                "must not open with a `[...](...)` link — it would be read back as a file reference",
            ),
            NameError::Misread => text.append("it would not be read back as written"),
        }
        text
    }
}

/// An issue name is written back as the first line of its list item, so it
/// has to survive a round trip through the reader: it holds something besides
/// white space, keeps to one line, opens with no id and with no file link, and
/// `- {name}`, written as a line of its own, reads back as one issue of exactly
/// that name, with no content.
pub fn check_issue_name(name: &str) -> (checked: Result<(), NameError>)
    requires
        name.spec_bytes().len() + 3 < usize::MAX,
    ensures
        match name_error(name@) {
            Some(e) => checked matches Err(x) && x@ == e,
            None => checked is Ok,
        },
{
    let chars = chars_of(name);
    let n = chars.len();
    let mut blank = true;
    let mut multiline = false;
    let mut i: usize = 0;
    while i < n
        invariant
            chars@ == name@,
            n == name@.len(),
            i <= n,
            blank == (forall|j: int| 0 <= j < i ==> is_white_space(#[trigger] name@[j])),
            multiline == (exists|j: int| 0 <= j < i && (#[trigger] name@[j] == '\n' || name@[j] == '\r')),
        decreases n - i,
    {
        let c = chars[i];
        if !white_space(c) {
            blank = false;
        }
        if c == '\n' || c == '\r' {
            multiline = true;
        }
        i = i + 1;
    }
    proof {
        if name@.contains('\n') {
            let j = choose|j: int| 0 <= j < name@.len() && name@[j] == '\n';
            assert(name@[j] == '\n');
        }
        if name@.contains('\r') {
            let j = choose|j: int| 0 <= j < name@.len() && name@[j] == '\r';
            assert(name@[j] == '\r');
        }
        if multiline {
            let j = choose|j: int| 0 <= j < n && (#[trigger] name@[j] == '\n' || name@[j] == '\r');
            assert(name@[j] == '\n' ==> name@.contains('\n'));
            assert(name@[j] == '\r' ==> name@.contains('\r'));
        }
    }
    if blank {
        return Err(NameError::Empty);
    }
    if multiline {
        return Err(NameError::Multiline);
    }
    match id_prefix(name) {
        Some(prefix) => Err(NameError::IdPrefix { prefix: String::from_str(prefix) }),
        None => if reads_as_filelink(name) {
            Err(NameError::Filelink)
        } else if !reads_back_as_name(name) {
            Err(NameError::Misread)
        } else {
            Ok(())
        },
    }
}

/// Why an issue could not be renamed.
#[derive(Debug)]
pub enum RenameError {
    /// The plan does not read.
    Parse(ParseError),
    /// No issue has the name.
    NotFound { target: String },
    /// More than one issue has the name.
    Ambiguous { target: String },
    /// Another issue has the new name already.
    AlreadyExists { name: String },
    /// The issue's name cannot be located in the file.
    NoNameSpan { target: String },
}

pub enum RenameErrorView {
    Parse(ParseErrorView),
    NotFound { target: Seq<char> },
    Ambiguous { target: Seq<char> },
    AlreadyExists { name: Seq<char> },
    NoNameSpan { target: Seq<char> },
}

impl View for RenameError {
    type V = RenameErrorView;

    open spec fn view(&self) -> RenameErrorView {
        match self {
            RenameError::Parse(e) => RenameErrorView::Parse(e@),
            RenameError::NotFound { target } => RenameErrorView::NotFound { target: target@ },
            RenameError::Ambiguous { target } => RenameErrorView::Ambiguous { target: target@ },
            RenameError::AlreadyExists { name } => RenameErrorView::AlreadyExists { name: name@ },
            RenameError::NoNameSpan { target } => RenameErrorView::NoNameSpan { target: target@ },
        }
    }
}

pub open spec fn rename_error_message(e: RenameErrorView) -> Seq<char> {
    match e {
        RenameErrorView::Parse(p) => error_message(p),
        RenameErrorView::NotFound { target } => "issue `"@ + target + "` not found"@,
        RenameErrorView::Ambiguous { target } => "issue `"@ + target + "` is ambiguous; specify a unique name"@,
        RenameErrorView::AlreadyExists { name } => "issue `"@ + name + "` already exists"@,
        RenameErrorView::NoNameSpan { target } => "issue `"@ + target + "` has no name span"@,
    }
}

impl RenameError {
    /// The error as a sentence.
    pub fn message(&self) -> (text: String)
        ensures
            text@ == rename_error_message(self@),
    {
        match self {
            RenameError::Parse(e) => e.message(),
            RenameError::NotFound { target } => {
                let mut text = String::from_str("issue `");
                text.append(target.as_str());
                text.append("` not found");
                text
            },
            RenameError::Ambiguous { target } => {
                let mut text = String::from_str("issue `");
                text.append(target.as_str());
                text.append("` is ambiguous; specify a unique name");
                text
            },
            RenameError::AlreadyExists { name } => {
                let mut text = String::from_str("issue `");
                text.append(name.as_str());
                text.append("` already exists");
                text
            },
            RenameError::NoNameSpan { target } => {
                let mut text = String::from_str("issue `");
                text.append(target.as_str());
                text.append("` has no name span");
                text
            },
        }
    }
}

/// The plan text of `s`, as characters.
pub open spec fn plan_text(s: PlanSourceView) -> Seq<char> {
    decode_utf8(encode_utf8(s.content).subrange(s.start as int, s.end as int))
}

/// The ids, in order, of the issues named `name`.
pub open spec fn named_ids(issues: Seq<(u64, IssueView)>, name: Seq<char>) -> Seq<u64>
    decreases issues.len(),
{
    if issues.len() == 0 {
        Seq::empty()
    } else if issues.last().1.name == name {
        named_ids(issues.drop_last(), name).push(issues.last().1.id)
    } else {
        named_ids(issues.drop_last(), name)
    }
}

/// The file `s` with the name of the issue named `target` replaced by
/// `new_name`, ids generated from `start`: the one issue of that name is
/// found, no other issue may carry the new name, and only the bytes of the
/// name change. Renaming an issue to its own name changes nothing.
pub open spec fn rename_outcome(
    s: PlanSourceView,
    target: Seq<char>,
    new_name: Seq<char>,
    start: u64,
) -> Result<Seq<u8>, RenameErrorView> {
    let bytes = encode_utf8(s.content);
    match parse_spec(plan_text(s), start) {
        Err(e) => Err(RenameErrorView::Parse(e)),
        Ok(p) => {
            let matching = named_ids(p.plan.issues, target);
            if matching.len() == 0 {
                Err(RenameErrorView::NotFound { target })
            } else if matching.len() > 1 {
                Err(RenameErrorView::Ambiguous { target })
            } else if new_name == target {
                Ok(bytes)
            } else if named_ids(p.plan.issues, new_name).len() > 0 {
                Err(RenameErrorView::AlreadyExists { name: new_name })
            } else {
                match key_index(p.name_spans, matching[0]) {
                    None => Err(RenameErrorView::NoNameSpan { target }),
                    Some(k) => {
                        let fs = s.start + p.name_spans[k].1.start;
                        let fe = s.start + p.name_spans[k].1.end;
                        if fs <= fe <= usize::MAX && is_char_boundary(bytes, fs) && is_char_boundary(bytes, fe) {
                            Ok(bytes.subrange(0, fs) + encode_utf8(new_name) + bytes.subrange(fe, bytes.len() as int))
                        } else {
                            Err(RenameErrorView::NoNameSpan { target })
                        }
                    },
                }
            }
        },
    }
}

/// Issue `i` is the one issue named `name`.
pub open spec fn only_named(issues: Seq<(u64, IssueView)>, name: Seq<char>, i: int) -> bool {
    &&& 0 <= i < issues.len()
    &&& issues[i].1.name == name
    &&& forall|j: int| 0 <= j < issues.len() && j != i ==> (#[trigger] issues[j]).1.name != name
}

proof fn lemma_named_ids_count(issues: Seq<(u64, IssueView)>, name: Seq<char>)
    ensures
        (named_ids(issues, name).len() == 0) == forall|j: int| 0 <= j < issues.len() ==> (#[trigger] issues[j]).1.name != name,
        (named_ids(issues, name).len() == 1) == exists|i: int| only_named(issues, name, i),
    decreases issues.len(),
{
    if issues.len() > 0 {
        let init = issues.drop_last();
        let last = issues.len() - 1;
        lemma_named_ids_count(init, name);
        assert forall|j: int| 0 <= j < init.len() implies (#[trigger] init[j]) == issues[j] by {}
        if forall|j: int| 0 <= j < issues.len() ==> (#[trigger] issues[j]).1.name != name {
            assert(issues[last].1.name != name);
            assert forall|j: int| 0 <= j < init.len() implies (#[trigger] init[j]).1.name != name by {
                assert(issues[j].1.name != name);
            }
        }
        if named_ids(issues, name).len() == 0 {
            assert(issues[last].1.name != name);
            assert forall|j: int| 0 <= j < issues.len() implies (#[trigger] issues[j]).1.name != name by {
                if j < init.len() {
                    assert(init[j].1.name != name);
                }
            }
        }
        if named_ids(issues, name).len() == 1 {
            if issues[last].1.name == name {
                assert(named_ids(init, name).len() == 0);
                assert forall|j: int| 0 <= j < issues.len() && j != last implies (#[trigger] issues[j]).1.name != name by {
                    assert(init[j].1.name != name);
                }
                assert(only_named(issues, name, last));
            } else {
                let i = choose|i: int| only_named(init, name, i);
                assert forall|j: int| 0 <= j < issues.len() && j != i implies (#[trigger] issues[j]).1.name != name by {
                    if j < init.len() {
                        assert(init[j].1.name != name);
                    }
                }
                assert(only_named(issues, name, i));
            }
        }
        if exists|i: int| only_named(issues, name, i) {
            let i = choose|i: int| only_named(issues, name, i);
            if i == last {
                assert forall|j: int| 0 <= j < init.len() implies (#[trigger] init[j]).1.name != name by {
                    assert(issues[j].1.name != name);
                }
            } else {
                assert(issues[last].1.name != name);
                assert forall|j: int| 0 <= j < init.len() && j != i implies (#[trigger] init[j]).1.name != name by {
                    assert(issues[j].1.name != name);
                }
                assert(only_named(init, name, i));
            }
        }
    }
}

/// A rename succeeds only on the one issue named `target`, and a rename to
/// another name succeeds only if no issue of the plan, wherever it stands,
/// already has that name; when one has, and the target is found once, the
/// rename is refused as one to a name already taken.
pub proof fn lemma_rename_keeps_names_unique(s: PlanSourceView, target: Seq<char>, new_name: Seq<char>, start: u64)
    ensures
        parse_spec(plan_text(s), start) matches Ok(p) ==> {
            let issues = p.plan.issues;
            &&& rename_outcome(s, target, new_name, start) is Ok ==> exists|i: int| only_named(issues, target, i)
            &&& (rename_outcome(s, target, new_name, start) is Ok && new_name != target) ==> forall|j: int|
                0 <= j < issues.len() ==> (#[trigger] issues[j]).1.name != new_name
            &&& (new_name != target && (exists|i: int| only_named(issues, target, i)) && exists|j: int|
                0 <= j < issues.len() && (#[trigger] issues[j]).1.name == new_name) ==> rename_outcome(
                s,
                target,
                new_name,
                start,
            ) == Err::<Seq<u8>, RenameErrorView>(RenameErrorView::AlreadyExists { name: new_name })
        },
{
    match parse_spec(plan_text(s), start) {
        Ok(p) => {
            lemma_named_ids_count(p.plan.issues, target);
            lemma_named_ids_count(p.plan.issues, new_name);
        },
        Err(_) => {},
    }
}

/// Rename the issue named `target` to `new_name` in the file of `source`,
/// patching only the name's bytes: the rest of the file stays byte-identical.
/// Renaming an issue to its own name leaves the file as it is.
pub fn renamed_source(source: &PlanSource, target: &str, new_name: &str, start_id: u64) -> (patched: Result<String, RenameError>)
    requires
        encode_utf8(source@.content).len() < usize::MAX,
    ensures
        match rename_outcome(source@, target@, new_name@, start_id) {
            Ok(bytes) => patched matches Ok(text) && encode_utf8(text@) == bytes,
            Err(e) => patched matches Err(x) && x@ == e,
        },
{
    broadcast use encode_utf8_decode_utf8;

    let text = source.text();
    proof {
        assert(decode_utf8(encode_utf8(text@)) == text@);
        assert(plan_text(source@) == text@);
    }
    let parsed = match parse(text, &IntIdGenerator::new(start_id)) {
        Ok(parsed) => parsed,
        Err(e) => {
            return Err(RenameError::Parse(e));
        },
    };
    let ghost issues = parsed.plan@.issues;
    let target_name = String::from_str(target);
    let wanted_name = String::from_str(new_name);
    let n = parsed.plan.issue_count();
    let mut matching: Vec<u64> = Vec::new();
    let mut taken: Vec<u64> = Vec::new();
    let mut i: usize = 0;
    while i < n
        invariant
            n == issues.len(),
            issues == parsed.plan@.issues,
            target_name@ == target@,
            wanted_name@ == new_name@,
            i <= n,
            matching@ == named_ids(issues.take(i as int), target@),
            taken@ == named_ids(issues.take(i as int), new_name@),
        decreases n - i,
    {
        let issue = parsed.plan.issue_at(i);
        assert(issues.take(i + 1).drop_last() =~= issues.take(i as int));
        if issue.name == target_name {
            matching.push(issue.id);
        }
        if issue.name == wanted_name {
            taken.push(issue.id);
        }
        i = i + 1;
    }
    assert(issues.take(n as int) =~= issues);
    if matching.len() == 0 {
        return Err(RenameError::NotFound { target: target_name });
    }
    if matching.len() > 1 {
        return Err(RenameError::Ambiguous { target: target_name });
    }
    if target_name == wanted_name {
        return Ok(String::from_str(source.content()));
    }
    if taken.len() > 0 {
        return Err(RenameError::AlreadyExists { name: wanted_name });
    }
    let id = matching[0];
    let span = match span_map_get(&parsed.name_spans, id) {
        Some(span) => span,
        None => {
            return Err(RenameError::NoNameSpan { target: target_name });
        },
    };
    let offset = source.text_start();
    if span.start > span.end || span.end > usize::MAX - offset {
        return Err(RenameError::NoNameSpan { target: target_name });
    }
    let range = source.file_range(span);
    let content = source.content();
    if !content.is_char_boundary(range.start) || !content.is_char_boundary(range.end) {
        return Err(RenameError::NoNameSpan { target: target_name });
    }
    proof {
        broadcast use encode_utf8_valid_utf8;
        if range.end > content.spec_bytes().len() {
            assert(!is_char_boundary(content.spec_bytes(), range.end as int));
        }
    }
    Ok(replace_range(content, range, new_name))
}

/// Renaming an issue to the name it has leaves the file as it is.
pub proof fn lemma_rename_to_own_name_is_noop(s: PlanSourceView, name: Seq<char>, start: u64)
    ensures
        rename_outcome(s, name, name, start) matches Ok(bytes) ==> bytes == encode_utf8(s.content),
{
}

/// A rename that succeeds changes the bytes of one issue name and nothing
/// else: the file is the part before the name span, the new name, and the part
/// after it.
pub proof fn lemma_rename_patches_only_the_name(s: PlanSourceView, target: Seq<char>, new_name: Seq<char>, start: u64)
    ensures
        rename_outcome(s, target, new_name, start) matches Ok(bytes) ==> exists|fs: int, fe: int|
            0 <= fs <= fe <= encode_utf8(s.content).len() && bytes == encode_utf8(s.content).subrange(0, fs)
                + (if new_name == target { encode_utf8(s.content).subrange(fs, fe) } else { encode_utf8(new_name) })
                + encode_utf8(s.content).subrange(fe, encode_utf8(s.content).len() as int),
{
    broadcast use encode_utf8_valid_utf8, is_char_boundary_start_end_of_seq;

    let b = encode_utf8(s.content);
    match rename_outcome(s, target, new_name, start) {
        Ok(bytes) => {
            if new_name == target {
                assert(b.subrange(0, 0) + b.subrange(0, 0) + b.subrange(0, b.len() as int) =~= b);
                assert(bytes == b);
                assert(0 <= 0int <= 0int <= b.len());
            } else {
                let p = parse_spec(plan_text(s), start)->Ok_0;
                let k = key_index(p.name_spans, named_ids(p.plan.issues, target)[0])->Some_0;
                let fs = s.start + p.name_spans[k].1.start;
                let fe = s.start + p.name_spans[k].1.end;
                assert(is_char_boundary(b, fe));
                assert(fe <= b.len());
                assert(0 <= fs <= fe <= b.len());
            }
        },
        Err(_) => {},
    }
}

/// A new issue's name is taken already: by the issue of that name in the
/// project kept in `root_dir`, when the project has one.
#[derive(Debug)]
pub struct AlreadyExists {
    pub name: String,
    pub root_dir: Option<String>,
}

pub open spec fn already_exists_message(name: Seq<char>, root_dir: Option<Seq<char>>) -> Seq<char> {
    match root_dir {
        Some(dir) => "issue `"@ + name + "` in `"@ + dir + "` already exists"@,
        None => "issue `"@ + name + "` already exists"@,
    }
}

impl AlreadyExists {
    /// The error as a sentence.
    pub fn message(&self) -> (text: String)
        ensures
            text@ == already_exists_message(self.name@, crate::issue::opt_text(self.root_dir)),
    {
        let mut text = String::from_str("issue `");
        text.append(self.name.as_str());
        match &self.root_dir {
            Some(dir) => {
                text.append("` in `");
                text.append(dir.as_str());
                text.append("` already exists");
            },
            None => text.append("` already exists"),
        }
        text
    }
}

/// Before an issue named `name` is added to a project whose plan is `plan`
/// (none when the project has no plan file yet), no issue of the plan may
/// carry that name.
pub fn check_issue_is_new(plan: Option<&Plan>, name: &str, root_dir: Option<&str>) -> (checked: Result<(), AlreadyExists>)
    ensures
        match plan {
            Some(p) => first_named(p@.issues, name@) is Some,
            None => false,
        } <==> checked is Err,
        checked matches Err(e) ==> e.name@ == name@ && crate::issue::opt_text(e.root_dir) == match root_dir {
            Some(dir) => Some(dir@),
            None => None::<Seq<char>>,
        },
{
    let taken = match plan {
        Some(p) => p.find_issue(name).is_some(),
        None => false,
    };
    if taken {
        Err(AlreadyExists {
            name: String::from_str(name),
            root_dir: match root_dir {
                Some(dir) => Some(String::from_str(dir)),
                None => None,
            },
        })
    } else {
        Ok(())
    }
}

} // verus!
