//! The file a plan lives in, and the byte range its markdown occupies there:
//! the whole file, or the inner text of a ` ```md todo ` block.
use std::ops::Range;

use vstd::prelude::*;
use vstd::string::*;
use vstd::utf8::*;

verus! {

/// Width in bytes of the UTF-8 encoding of a Unicode `White_Space` character
/// starting at `i` and ending at or before `e`; 0 when none starts there.
pub open spec fn white_space_width(b: Seq<u8>, i: int, e: int) -> int {
    if 0 <= i < e && ((9 <= b[i] <= 13) || b[i] == 32) {
        1
    } else if 0 <= i && i + 1 < e && b[i] == 0xC2 && (b[i + 1] == 0x85 || b[i + 1] == 0xA0) {
        2
    } else if 0 <= i && i + 2 < e && ((b[i] == 0xE1 && b[i + 1] == 0x9A && b[i + 2] == 0x80) || (b[i]
        == 0xE2 && b[i + 1] == 0x80 && ((0x80 <= b[i + 2] <= 0x8A) || b[i + 2] == 0xA8 || b[i + 2]
        == 0xA9 || b[i + 2] == 0xAF)) || (b[i] == 0xE2 && b[i + 1] == 0x81 && b[i + 2] == 0x9F) || (
    b[i] == 0xE3 && b[i + 1] == 0x80 && b[i + 2] == 0x80)) {
        3
    } else {
        0
    }
}

/// Width in bytes of a `White_Space` character ending at `e` and starting at
/// or after `s`; 0 when none ends there.
pub open spec fn white_space_width_before(b: Seq<u8>, s: int, e: int) -> int {
    if s <= e - 1 && white_space_width(b, e - 1, e) == 1 {
        1
    } else if s <= e - 2 && white_space_width(b, e - 2, e) == 2 {
        2
    } else if s <= e - 3 && white_space_width(b, e - 3, e) == 3 {
        3
    } else {
        0
    }
}

/// Start of `b[s..e]` past its leading white space.
pub open spec fn trim_front(b: Seq<u8>, s: int, e: int) -> int
    decreases e - s,
{
    if s < e && white_space_width(b, s, e) > 0 {
        trim_front(b, s + white_space_width(b, s, e), e)
    } else {
        s
    }
}

/// End of `b[s..e]` before its trailing white space.
pub open spec fn trim_back(b: Seq<u8>, s: int, e: int) -> int
    decreases e - s,
{
    if s < e && white_space_width_before(b, s, e) > 0 {
        trim_back(b, s, e - white_space_width_before(b, s, e))
    } else {
        e
    }
}

proof fn lemma_trim_bounds(b: Seq<u8>, s: int, e: int)
    requires
        0 <= s <= e,
    ensures
        s <= trim_front(b, s, e) <= e,
        trim_front(b, s, e) <= trim_back(b, trim_front(b, s, e), e) <= e,
    decreases e - s,
{
    if s < e && white_space_width(b, s, e) > 0 {
        lemma_trim_bounds(b, s + white_space_width(b, s, e), e);
    } else {
        lemma_trim_back_bounds(b, s, e);
    }
}

proof fn lemma_trim_back_bounds(b: Seq<u8>, s: int, e: int)
    requires
        s <= e,
    ensures
        s <= trim_back(b, s, e) <= e,
    decreases e - s,
{
    if s < e && white_space_width_before(b, s, e) > 0 {
        lemma_trim_back_bounds(b, s, e - white_space_width_before(b, s, e));
    }
}

fn white_space_width_at(b: &[u8], i: usize, e: usize) -> (w: usize)
    requires
        e <= b@.len(),
    ensures
        w == white_space_width(b@, i as int, e as int),
{
    if i >= e {
        return 0;
    }
    let b0 = b[i];
    if (9 <= b0 && b0 <= 13) || b0 == 32 {
        return 1;
    }
    if e - i < 2 {
        return 0;
    }
    let b1 = b[i + 1];
    if b0 == 0xC2 && (b1 == 0x85 || b1 == 0xA0) {
        return 2;
    }
    if e - i < 3 {
        return 0;
    }
    let b2 = b[i + 2];
    if (b0 == 0xE1 && b1 == 0x9A && b2 == 0x80) || (b0 == 0xE2 && b1 == 0x80 && ((0x80 <= b2 && b2
        <= 0x8A) || b2 == 0xA8 || b2 == 0xA9 || b2 == 0xAF)) || (b0 == 0xE2 && b1 == 0x81 && b2
        == 0x9F) || (b0 == 0xE3 && b1 == 0x80 && b2 == 0x80) {
        3
    } else {
        0
    }
}

fn white_space_width_ending(b: &[u8], s: usize, e: usize) -> (w: usize)
    requires
        s <= e <= b@.len(),
    ensures
        w == white_space_width_before(b@, s as int, e as int),
{
    if e - s >= 1 && white_space_width_at(b, e - 1, e) == 1 {
        1
    } else if e - s >= 2 && white_space_width_at(b, e - 2, e) == 2 {
        2
    } else if e - s >= 3 && white_space_width_at(b, e - 3, e) == 3 {
        3
    } else {
        0
    }
}

/// `b[s..e]` with the white space on both ends cut off, as `str::trim` cuts it.
fn trim_unicode(b: &[u8], s: usize, e: usize) -> (r: (usize, usize))
    requires
        s <= e <= b@.len(),
    ensures
        r.0 == trim_front(b@, s as int, e as int),
        r.1 == trim_back(b@, r.0 as int, e as int),
        s <= r.0 <= r.1 <= e,
{
    proof {
        lemma_trim_bounds(b@, s as int, e as int);
    }
    let mut front = s;
    loop
        invariant
            s <= front <= e <= b@.len(),
            trim_front(b@, front as int, e as int) == trim_front(b@, s as int, e as int),
        ensures
            front == trim_front(b@, s as int, e as int),
        decreases e - front,
    {
        let w = white_space_width_at(b, front, e);
        if front >= e || w == 0 {
            break;
        }
        front = front + w;
    }
    let mut back = e;
    proof {
        lemma_trim_bounds(b@, front as int, e as int);
    }
    loop
        invariant
            s <= front <= back <= e <= b@.len(),
            trim_back(b@, front as int, back as int) == trim_back(b@, front as int, e as int),
            front == trim_front(b@, s as int, e as int),
        ensures
            back == trim_back(b@, front as int, e as int),
            front <= back,
        decreases back - front,
    {
        let w = white_space_width_ending(b, front, back);
        if front >= back || w == 0 {
            break;
        }
        back = back - w;
    }
    (front, back)
}

/// Index just past the first line feed at or after `i`, or the end of `b`.
pub open spec fn line_end_from(b: Seq<u8>, i: int) -> int
    decreases b.len() - i,
{
    if i < 0 || i >= b.len() {
        b.len() as int
    } else if b[i] == 10 {
        i + 1
    } else {
        line_end_from(b, i + 1)
    }
}

pub proof fn lemma_line_end_bounds(b: Seq<u8>, i: int)
    requires
        0 <= i < b.len(),
    ensures
        i < line_end_from(b, i) <= b.len(),
        line_end_from(b, i) < b.len() ==> b[line_end_from(b, i) - 1] == 10,
        line_end_from(b, i) == b.len() ==> (b[b.len() - 1] == 10 || forall|j: int| i <= j < b.len() ==> #[trigger] b[j] != 10),
    decreases b.len() - i,
{
    reveal_with_fuel(line_end_from, 2);
    if b[i] != 10 && i + 1 < b.len() {
        lemma_line_end_bounds(b, i + 1);
    }
}

/// The opening fence of the plan block, ` ```md todo `.
pub open spec fn md_todo_fence() -> Seq<u8> {
    seq![96u8, 96u8, 96u8, 109u8, 100u8, 32u8, 116u8, 111u8, 100u8, 111u8]
}

pub open spec fn ascii_lower(x: u8) -> u8 {
    if 65 <= x <= 90 {
        (x + 32) as u8
    } else {
        x
    }
}

/// The fence `b[s..e]` opens the plan block: ` ```md todo `, in any ASCII case,
/// alone or followed by a space and more words.
pub open spec fn opens_block(b: Seq<u8>, s: int, e: int) -> bool {
    &&& e - s >= 10
    &&& forall|i: int| 0 <= i < 10 ==> ascii_lower(#[trigger] b[s + i]) == md_todo_fence()[i]
    &&& (e - s == 10 || b[s + 10] == 32)
}

/// The fence `b[s..e]` is a code fence: it opens with three backticks.
pub open spec fn is_fence(b: Seq<u8>, s: int, e: int) -> bool {
    e - s >= 3 && b[s] == 96 && b[s + 1] == 96 && b[s + 2] == 96
}

/// Walks the lines from `off` on. Outside the block, a line whose fence opens
/// it starts the block on the next line. Inside, a bare fence closes the block
/// unless an inner fence with an info string (`open.1` of them) is still open.
pub open spec fn scan_block(b: Seq<u8>, off: int, open: Option<(int, nat)>) -> Option<(int, int)>
    decreases b.len() - off,
{
    if off < 0 || off >= b.len() {
        match open {
            Some((start, _)) => Some((start, b.len() as int)),
            None => None,
        }
    } else {
        let le = line_end_from(b, off);
        proof {
            lemma_line_end_bounds(b, off);
        }
        let fs = trim_front(b, off, le);
        let fe = trim_back(b, fs, le);
        match open {
            None => if opens_block(b, fs, fe) {
                scan_block(b, le, Some((le, 0nat)))
            } else {
                scan_block(b, le, None)
            },
            Some((start, inner)) => if is_fence(b, fs, fe) {
                if fe - fs > 3 {
                    scan_block(b, le, Some((start, inner + 1)))
                } else if inner == 0 {
                    Some((start, off))
                } else {
                    scan_block(b, le, Some((start, (inner - 1) as nat)))
                }
            } else {
                scan_block(b, le, open)
            },
        }
    }
}

/// `i` starts a line of `b`, or ends `b`.
pub open spec fn at_line_start(b: Seq<u8>, i: int) -> bool {
    i == 0 || i == b.len() || (0 < i < b.len() && b[i - 1] == 10)
}

proof fn lemma_scan_bounds(b: Seq<u8>, off: int, open: Option<(int, nat)>)
    requires
        0 <= off <= b.len(),
        at_line_start(b, off),
        open matches Some((s, _)) ==> s <= off && at_line_start(b, s),
    ensures
        scan_block(b, off, open) matches Some((s, e)) ==> 0 <= s <= e <= b.len() && at_line_start(b, s)
            && at_line_start(b, e),
    decreases b.len() - off,
{
    if off < b.len() {
        let le = line_end_from(b, off);
        lemma_line_end_bounds(b, off);
        lemma_trim_bounds(b, off, le);
        let fs = trim_front(b, off, le);
        let fe = trim_back(b, fs, le);
        match open {
            None => {
                lemma_scan_bounds(b, le, if opens_block(b, fs, fe) { Some((le, 0nat)) } else { None });
            },
            Some((start, inner)) => if is_fence(b, fs, fe) {
                if fe - fs > 3 {
                    lemma_scan_bounds(b, le, Some((start, inner + 1)));
                } else if inner != 0 {
                    lemma_scan_bounds(b, le, Some((start, (inner - 1) as nat)));
                }
            } else {
                lemma_scan_bounds(b, le, open);
            },
        }
    }
}

/// The ` ```md todo ` block of `content`, as its byte range.
pub open spec fn md_todo_block(content: Seq<u8>) -> Option<Range<usize>> {
    match scan_block(content, 0, None) {
        Some((s, e)) => Some(Range { start: s as usize, end: e as usize }),
        None => None,
    }
}

/// Does the trimmed line `b[s..e]` open the plan block?
fn opens_md_todo_block(b: &[u8], s: usize, e: usize) -> (opens: bool)
    requires
        s <= e <= b@.len(),
    ensures
        opens == opens_block(b@, s as int, e as int),
{
    if e - s < 10 {
        return false;
    }
    let fence: [u8; 10] = [96, 96, 96, 109, 100, 32, 116, 111, 100, 111];
    assert(fence@ =~= md_todo_fence());
    let mut i: usize = 0;
    while i < 10
        invariant
            s + 10 <= e <= b@.len(),
            fence@ == md_todo_fence(),
            i <= 10,
            forall|j: int| 0 <= j < i ==> ascii_lower(#[trigger] b@[s + j]) == md_todo_fence()[j],
        decreases 10 - i,
    {
        let x = b[s + i];
        let lower = if 65 <= x && x <= 90 { x + 32 } else { x };
        if lower != fence[i] {
            assert(ascii_lower(b@[s + i]) != md_todo_fence()[i as int]);
            return false;
        }
        i = i + 1;
    }
    e - s == 10 || b[s + 10] == 32
}

/// Byte range of the inner text of the ` ```md todo ` fenced block of
/// `content`; `None` when there is no such block. An indented fence counts as
/// well as one at the line start, and a fence with an info string inside the
/// block opens a nested block rather than closing it. An unterminated block
/// runs to the end of `content`.
pub fn extract_md_todo_block(content: &str) -> (block: Option<Range<usize>>)
    ensures
        block == md_todo_block(content.spec_bytes()),
        block matches Some(r) ==> r.start <= r.end <= content.spec_bytes().len()
            && at_line_start(content.spec_bytes(), r.start as int)
            && at_line_start(content.spec_bytes(), r.end as int),
{
    let b = content.as_bytes();
    let len = b.len();
    let mut offset: usize = 0;
    let mut block_start: Option<usize> = None;
    let mut inner: usize = 0;
    proof {
        lemma_scan_bounds(b@, 0, None);
    }
    while offset < len
        invariant
            b@ == content.spec_bytes(),
            len == b@.len(),
            offset <= len,
            at_line_start(b@, offset as int),
            inner <= offset,
            block_start matches Some(s) ==> s <= offset && at_line_start(b@, s as int),
            scan_block(b@, offset as int, match block_start {
                Some(s) => Some((s as int, inner as nat)),
                None => None,
            }) == scan_block(b@, 0, None),
        decreases len - offset,
    {
        proof {
            lemma_line_end_bounds(b@, offset as int);
        }
        let mut line_end = offset;
        while line_end < len && b[line_end] != 10
            invariant
                offset <= line_end <= len == b@.len(),
                line_end_from(b@, line_end as int) == line_end_from(b@, offset as int),
            decreases len - line_end,
        {
            line_end = line_end + 1;
        }
        if line_end < len {
            line_end = line_end + 1;
        }
        let (fs, fe) = trim_unicode(b, offset, line_end);
        match block_start {
            None => {
                if opens_md_todo_block(b, fs, fe) {
                    block_start = Some(line_end);
                    inner = 0;
                }
            },
            Some(start) => {
                if fe - fs >= 3 && b[fs] == 96 && b[fs + 1] == 96 && b[fs + 2] == 96 {
                    if fe - fs > 3 {
                        inner = inner + 1;
                    } else if inner == 0 {
                        return Some(start..offset);
                    } else {
                        inner = inner - 1;
                    }
                }
            },
        }
        offset = line_end;
    }
    match block_start {
        Some(start) => Some(start..len),
        None => None,
    }
}

/// In valid UTF-8, the byte after an ASCII byte that starts a character
/// starts one too.
proof fn lemma_boundary_after_ascii(b: Seq<u8>, k: int)
    requires
        valid_utf8(b),
        0 <= k < b.len(),
        is_char_boundary(b, k),
        b[k] <= 0x7f,
    ensures
        is_char_boundary(b, k + 1),
    decreases b.len(),
{
    let tail = pop_first_scalar(b);
    let l = length_of_first_scalar(b);
    if k == 0 {
        assert(l == 1);
        assert(is_char_boundary(tail, 0));
    } else {
        assert(tail.len() == b.len() - l);
        assert(tail[k - l] == b[k]);
        lemma_boundary_after_ascii(tail, k - l);
    }
}

/// A line start of valid UTF-8 is a character boundary.
pub proof fn lemma_line_start_boundary(b: Seq<u8>, i: int)
    requires
        valid_utf8(b),
        at_line_start(b, i),
    ensures
        is_char_boundary(b, i),
{
    broadcast use is_char_boundary_start_end_of_seq;

    if 0 < i < b.len() {
        is_char_boundary_iff_not_is_continuation_byte(b, i - 1);
        lemma_boundary_after_ascii(b, i - 1);
    }
}

/// A boundary `e` of valid UTF-8 is still one in the part that starts at the
/// boundary `s`.
pub proof fn lemma_boundary_in_rest(b: Seq<u8>, s: int, e: int)
    requires
        valid_utf8(b),
        0 <= s <= e <= b.len(),
        is_char_boundary(b, s),
        is_char_boundary(b, e),
    ensures
        valid_utf8(b.subrange(s, b.len() as int)),
        is_char_boundary(b.subrange(s, b.len() as int), e - s),
{
    broadcast use is_char_boundary_start_end_of_seq;

    let rest = b.subrange(s, b.len() as int);
    valid_utf8_split(b, s);
    if e < b.len() {
        is_char_boundary_iff_not_is_continuation_byte(b, e);
        is_char_boundary_iff_not_is_continuation_byte(rest, e - s);
    } else {
        assert(rest.len() == e - s);
    }
}

/// Where a plan is kept in its file.
#[derive(Clone, Copy, Debug, PartialEq, Eq)]
pub enum Placement {
    /// The whole file is the plan.
    WholeFile,
    /// The plan is the ` ```md todo ` block of the file.
    CodeBlockInFile,
}

/// The file a plan lives in, together with the byte range its markdown
/// occupies: the whole file, or the inner text of the ` ```md todo ` block.
pub struct PlanSource {
    content: String,
    span: Range<usize>,
}

pub struct PlanSourceView {
    pub content: Seq<char>,
    pub start: usize,
    pub end: usize,
}

impl View for PlanSource {
    type V = PlanSourceView;

    closed spec fn view(&self) -> PlanSourceView {
        PlanSourceView { content: self.content@, start: self.span.start, end: self.span.end }
    }
}

/// The byte range of the plan in `content` kept as `placement` says: the whole
/// of it, or its plan block (an empty range at the start when it has none).
pub open spec fn plan_span(content: Seq<char>, placement: Placement) -> (usize, usize) {
    match placement {
        Placement::WholeFile => (0, encode_utf8(content).len() as usize),
        Placement::CodeBlockInFile => match md_todo_block(encode_utf8(content)) {
            Some(r) => (r.start, r.end),
            None => (0, 0),
        },
    }
}

impl PlanSource {
    /// The span lies in the content and cuts it at character boundaries.
    #[verifier::type_invariant]
    spec fn well_formed(self) -> bool {
        let b = encode_utf8(self.content@);
        &&& self.span.start <= self.span.end <= b.len()
        &&& is_char_boundary(b, self.span.start as int)
        &&& is_char_boundary(b, self.span.end as int)
    }

    /// The plan held in `content`, a file's text, kept there as `placement`
    /// says. A file carrying no plan block yields an empty plan text.
    pub fn from_content(content: String, placement: Placement) -> (source: Self)
        requires
            encode_utf8(content@).len() <= usize::MAX,
        ensures
            source@.content == content@,
            (source@.start, source@.end) == plan_span(content@, placement),
    {
        broadcast use encode_utf8_valid_utf8, is_char_boundary_start_end_of_seq;

        let len = content.as_str().len();
        let span = match placement {
            Placement::WholeFile => 0..len,
            Placement::CodeBlockInFile => match extract_md_todo_block(content.as_str()) {
                Some(r) => r,
                None => 0..0,
            },
        };
        proof {
            let b = encode_utf8(content@);
            lemma_line_start_boundary(b, span.start as int);
            lemma_line_start_boundary(b, span.end as int);
        }
        PlanSource { content, span }
    }

    /// The whole file.
    pub fn content(&self) -> (content: &str)
        ensures
            content@ == self@.content,
    {
        self.content.as_str()
    }

    /// The plan markdown itself: what the reader reads.
    pub fn text(&self) -> (text: &str)
        ensures
            self@.start <= self@.end <= encode_utf8(self@.content).len(),
            text.spec_bytes() == encode_utf8(self@.content).subrange(self@.start as int, self@.end as int),
    {
        proof {
            use_type_invariant(self);
            broadcast use encode_utf8_valid_utf8;
            lemma_boundary_in_rest(encode_utf8(self.content@), self.span.start as int, self.span.end as int);
        }
        let whole = self.content.as_str();
        let (_, rest) = whole.split_at(self.span.start);
        let (text, _) = rest.split_at(self.span.end - self.span.start);
        proof {
            let b = encode_utf8(self.content@);
            assert(b.subrange(self.span.start as int, b.len() as int).subrange(0, self.span.end - self.span.start)
                =~= b.subrange(self.span.start as int, self.span.end as int));
        }
        text
    }

    /// Byte offset in the file at which the plan text starts.
    pub fn text_start(&self) -> (start: usize)
        ensures
            start == self@.start,
    {
        self.span.start
    }

    /// Map a range within the plan text onto the whole file.
    pub fn file_range(&self, range: &Range<usize>) -> (mapped: Range<usize>)
        requires
            self@.start + range.start <= usize::MAX,
            self@.start + range.end <= usize::MAX,
        ensures
            mapped.start == self@.start + range.start,
            mapped.end == self@.start + range.end,
    {
        self.span.start + range.start..self.span.start + range.end
    }
}

/// A range of the plan text, mapped onto the file by `file_range`, covers the
/// same bytes in the file.
pub proof fn lemma_file_range_covers_text(s: PlanSourceView, start: int, end: int)
    requires
        s.start <= s.end <= encode_utf8(s.content).len(),
        0 <= start <= end <= s.end - s.start,
    ensures
        encode_utf8(s.content).subrange(s.start + start, s.start + end) == encode_utf8(s.content).subrange(
            s.start as int,
            s.end as int,
        ).subrange(start, end),
{
    let b = encode_utf8(s.content);
    assert(b.subrange(s.start + start, s.start + end) =~= b.subrange(s.start as int, s.end as int).subrange(start, end));
}

} // verus!
