//! Byte-level scanning helpers over a markdown source: trimming, line
//! boundaries, indentation and the `<digits><space>` id prefix.
use vstd::prelude::*;
use vstd::utf8::*;

verus! {

/// A byte span `start..end` of the source.
#[derive(Clone, Copy, Debug, PartialEq, Eq)]
pub struct Span {
    pub start: usize,
    pub end: usize,
}

/// The span lies inside a source of `len` bytes and is not reversed.
pub open spec fn span_in(sp: Span, len: int) -> bool {
    sp.start <= sp.end <= len
}

/// The bytes `u8::is_ascii_whitespace` accepts: space, tab, LF, FF, CR.
pub open spec fn is_ascii_ws(b: u8) -> bool {
    b == 32 || b == 9 || b == 10 || b == 12 || b == 13
}

pub open spec fn is_ascii_digit(b: u8) -> bool {
    48 <= b <= 57
}

/// Bullet markers that open an issue item: `-`, `*`, `+`.
pub open spec fn is_marker_byte(b: u8) -> bool {
    b == 45 || b == 42 || b == 43
}

/// First index at or after `s` (and before `e`) that is not ASCII whitespace.
pub open spec fn trim_start_at(src: Seq<u8>, s: int, e: int) -> int
    decreases e - s,
{
    if s < e && is_ascii_ws(src[s]) {
        trim_start_at(src, s + 1, e)
    } else {
        s
    }
}

/// Last end at or before `e` (and after `s`) not preceded by ASCII whitespace.
pub open spec fn trim_end_at(src: Seq<u8>, s: int, e: int) -> int
    decreases e - s,
{
    if e > s && is_ascii_ws(src[e - 1]) {
        trim_end_at(src, s, e - 1)
    } else {
        e
    }
}

/// `sp` with leading and trailing ASCII whitespace removed.
pub open spec fn trimmed(src: Seq<u8>, sp: Span) -> Span {
    let s = trim_start_at(src, sp.start as int, sp.end as int);
    Span { start: s as usize, end: trim_end_at(src, s, sp.end as int) as usize }
}

proof fn lemma_trim_start_bounds(src: Seq<u8>, s: int, e: int)
    ensures
        s <= e ==> s <= trim_start_at(src, s, e) <= e,
        s > e ==> trim_start_at(src, s, e) == s,
    decreases e - s,
{
    if s < e && is_ascii_ws(src[s]) {
        lemma_trim_start_bounds(src, s + 1, e);
    }
}

proof fn lemma_trim_end_bounds(src: Seq<u8>, s: int, e: int)
    ensures
        s <= e ==> s <= trim_end_at(src, s, e) <= e,
        s > e ==> trim_end_at(src, s, e) == e,
    decreases e - s,
{
    if e > s && is_ascii_ws(src[e - 1]) {
        lemma_trim_end_bounds(src, s, e - 1);
    }
}

/// Trimming never widens a span, and keeps a forward span forward.
pub proof fn lemma_trimmed_within(src: Seq<u8>, sp: Span)
    ensures
        sp.start <= sp.end ==> sp.start <= trimmed(src, sp).start <= trimmed(src, sp).end <= sp.end,
        sp.start > sp.end ==> trimmed(src, sp) == sp,
{
    lemma_trim_start_bounds(src, sp.start as int, sp.end as int);
    let s = trim_start_at(src, sp.start as int, sp.end as int);
    lemma_trim_end_bounds(src, s, sp.end as int);
}

/// Trim `sp` to non-whitespace bounds.
pub fn trim_span(src: &[u8], sp: Span) -> (r: Span)
    requires
        sp.end <= src@.len(),
    ensures
        r == trimmed(src@, sp),
        sp.start <= sp.end ==> sp.start <= r.start <= r.end <= sp.end,
        sp.start > sp.end ==> r == sp,
{
    proof {
        lemma_trimmed_within(src@, sp);
    }
    let mut start = sp.start;
    let end0 = sp.end;
    while start < end0 && (src[start] == 32 || src[start] == 9 || src[start] == 10 || src[start] == 12 || src[start] == 13)
        invariant
            sp.end <= src@.len(),
            end0 == sp.end,
            sp.start <= sp.end ==> sp.start <= start <= sp.end,
            sp.start > sp.end ==> start == sp.start,
            trim_start_at(src@, start as int, end0 as int) == trim_start_at(src@, sp.start as int, sp.end as int),
        decreases end0 - start,
    {
        start = start + 1;
    }
    let mut end = end0;
    while end > start && (src[end - 1] == 32 || src[end - 1] == 9 || src[end - 1] == 10 || src[end - 1] == 12 || src[end - 1] == 13)
        invariant
            end0 <= src@.len(),
            start <= end0 ==> start <= end <= end0,
            start > end0 ==> end == end0,
            trim_end_at(src@, start as int, end as int) == trim_end_at(src@, start as int, end0 as int),
        decreases end,
    {
        end = end - 1;
    }
    Span { start, end }
}

/// Index of the first `\n` in `src[s..e]`, or `e` when there is none.
pub open spec fn first_newline(src: Seq<u8>, s: int, e: int) -> int
    decreases e - s,
{
    if s >= e {
        e
    } else if src[s] == 10 {
        s
    } else {
        first_newline(src, s + 1, e)
    }
}

pub proof fn lemma_first_newline_bounds(src: Seq<u8>, s: int, e: int)
    ensures
        s <= e ==> s <= first_newline(src, s, e) <= e,
    decreases e - s,
{
    if s < e && src[s] != 10 {
        lemma_first_newline_bounds(src, s + 1, e);
    }
}

/// End of the first line of `sp`; the line break itself is not included.
pub fn first_line_end(src: &[u8], sp: Span) -> (r: usize)
    requires
        span_in(sp, src@.len() as int),
    ensures
        r == first_newline(src@, sp.start as int, sp.end as int),
        sp.start <= r <= sp.end,
{
    proof {
        lemma_first_newline_bounds(src@, sp.start as int, sp.end as int);
    }
    let mut i = sp.start;
    while i < sp.end && src[i] != 10
        invariant
            span_in(sp, src@.len() as int),
            sp.start <= i <= sp.end,
            first_newline(src@, i as int, sp.end as int) == first_newline(src@, sp.start as int, sp.end as int),
        decreases sp.end - i,
    {
        i = i + 1;
    }
    i
}

/// Number of `\n` bytes in `s`.
pub open spec fn newline_count(s: Seq<u8>) -> nat
    decreases s.len(),
{
    if s.len() == 0 {
        0
    } else {
        newline_count(s.drop_last()) + if s.last() == 10 { 1nat } else { 0nat }
    }
}

proof fn lemma_newline_count_le(s: Seq<u8>)
    ensures
        newline_count(s) <= s.len(),
    decreases s.len(),
{
    if s.len() > 0 {
        lemma_newline_count_le(s.drop_last());
    }
}

/// 1-based number of the line `offset` falls on.
pub fn line_at(src: &[u8], offset: usize) -> (line: usize)
    requires
        offset < usize::MAX,
        offset <= src@.len(),
    ensures
        line == newline_count(src@.take(offset as int)) + 1,
{
    let mut count: usize = 0;
    let mut i: usize = 0;
    while i < offset
        invariant
            offset <= src@.len(),
            i <= offset,
            count == newline_count(src@.take(i as int)),
            count <= i,
        decreases offset - i,
    {
        assert(src@.take(i + 1).drop_last() =~= src@.take(i as int));
        if src[i] == 10 {
            count = count + 1;
        }
        i = i + 1;
    }
    count + 1
}

/// Start of the line `offset` belongs to: just past the last `\n` before it.
pub open spec fn line_start(src: Seq<u8>, offset: int) -> int
    decreases offset,
{
    if offset <= 0 {
        0
    } else if src[offset - 1] == 10 {
        offset
    } else {
        line_start(src, offset - 1)
    }
}

proof fn lemma_line_start_bounds(src: Seq<u8>, offset: int)
    requires
        offset >= 0,
    ensures
        0 <= line_start(src, offset) <= offset,
    decreases offset,
{
    if offset > 0 && src[offset - 1] != 10 {
        lemma_line_start_bounds(src, offset - 1);
    }
}

/// Indent of the line `content_start` belongs to: the column at which an item's
/// content, and every continuation line of it, begins.
pub fn content_indent(src: &[u8], content_start: usize) -> (indent: usize)
    requires
        content_start <= src@.len(),
    ensures
        indent == content_start - line_start(src@, content_start as int),
{
    proof {
        lemma_line_start_bounds(src@, content_start as int);
    }
    let mut i = content_start;
    while i > 0 && src[i - 1] != 10
        invariant
            i <= content_start <= src@.len(),
            line_start(src@, i as int) == line_start(src@, content_start as int),
        decreases i,
    {
        i = i - 1;
    }
    content_start - i
}

/// Offset just past a bullet marker at `offset`, if one stands there.
pub open spec fn past_marker(src: Seq<u8>, offset: int) -> int {
    if 0 <= offset < src.len() && is_marker_byte(src[offset]) {
        offset + 1
    } else {
        offset
    }
}

/// Offset just past the spaces and tabs starting at `offset`.
pub open spec fn past_blanks(src: Seq<u8>, offset: int) -> int
    decreases src.len() - offset,
{
    if 0 <= offset < src.len() && (src[offset] == 32 || src[offset] == 9) {
        past_blanks(src, offset + 1)
    } else {
        offset
    }
}

proof fn lemma_past_blanks_bounds(src: Seq<u8>, offset: int)
    requires
        0 <= offset <= src.len(),
    ensures
        offset <= past_blanks(src, offset) <= src.len(),
    decreases src.len() - offset,
{
    if offset < src.len() && (src[offset] == 32 || src[offset] == 9) {
        lemma_past_blanks_bounds(src, offset + 1);
    }
}

proof fn lemma_past_blanks_run(src: Seq<u8>, offset: int)
    requires
        0 <= offset <= src.len(),
    ensures
        offset <= past_blanks(src, offset) <= src.len(),
        forall|k: int| offset <= k < past_blanks(src, offset) ==> src[k] == 32 || src[k] == 9,
        past_blanks(src, offset) == src.len() || !(src[past_blanks(src, offset)] == 32 || src[past_blanks(src, offset)] == 9),
    decreases src.len() - offset,
{
    if offset < src.len() && (src[offset] == 32 || src[offset] == 9) {
        lemma_past_blanks_run(src, offset + 1);
    }
}

/// An item's content starts past its bullet marker, whichever of `-`, `*`
/// and `+` it is, and past the spaces and tabs after it: every byte skipped
/// after the marker is a space or a tab, and the content starts at the end
/// of the source or at a byte that is neither. An item opening with no
/// bullet marker skips only blanks.
pub proof fn lemma_content_starts_past_marker_and_blanks(src: Seq<u8>, item_start: int)
    requires
        0 <= item_start <= src.len(),
    ensures
        ({
            let marked = item_start < src.len() && (src[item_start] == 45 || src[item_start] == 42
                || src[item_start] == 43);
            let after = if marked { item_start + 1 } else { item_start };
            let c = content_start_of(src, item_start);
            &&& after <= c <= src.len()
            &&& forall|k: int| after <= k < c ==> src[k] == 32 || src[k] == 9
            &&& c == src.len() || !(src[c] == 32 || src[c] == 9)
        }),
{
    lemma_past_blanks_run(src, past_marker(src, item_start));
}

/// Offset an item's content starts at: past its bullet marker and the blanks
/// separating it from the content.
pub open spec fn content_start_of(src: Seq<u8>, item_start: int) -> int {
    past_blanks(src, past_marker(src, item_start))
}

pub fn item_content_start(src: &[u8], item_start: usize) -> (offset: usize)
    requires
        item_start <= src@.len(),
    ensures
        offset == content_start_of(src@, item_start as int),
        item_start <= offset <= src@.len(),
{
    let mut offset = item_start;
    if offset < src.len() && (src[offset] == 45 || src[offset] == 42 || src[offset] == 43) {
        offset = offset + 1;
    }
    proof {
        lemma_past_blanks_bounds(src@, offset as int);
    }
    while offset < src.len() && (src[offset] == 32 || src[offset] == 9)
        invariant
            item_start <= offset <= src@.len(),
            past_blanks(src@, offset as int) == content_start_of(src@, item_start as int),
        decreases src@.len() - offset,
    {
        offset = offset + 1;
    }
    offset
}


/// First index at or after `i` (below `limit`) that is not a space.
pub open spec fn space_run(line: Seq<u8>, i: int, limit: int) -> int
    decreases limit - i,
{
    if i < limit && line[i] == 32 {
        space_run(line, i + 1, limit)
    } else {
        i
    }
}

/// `line` with up to `indent` leading spaces stripped.
pub open spec fn strip_indent(line: Seq<u8>, indent: nat) -> Seq<u8> {
    let limit = if indent < line.len() { indent as int } else { line.len() as int };
    line.skip(space_run(line, 0, limit))
}

/// The lines of `t` as `str::lines` yields them (split at `\n`, a `\r` right
/// before a `\n` dropped, no empty last line), each stripped of up to `indent`
/// leading spaces, joined with `\n`.
pub open spec fn dedent(t: Seq<u8>, indent: nat) -> Seq<u8>
    decreases t.len(),
{
    if t.len() == 0 {
        seq![]
    } else {
        let nl = first_newline(t, 0, t.len() as int);
        proof {
            lemma_first_newline_bounds(t, 0, t.len() as int);
        }
        let raw = t.take(nl);
        let line = if nl < t.len() && raw.len() > 0 && raw.last() == 13 {
            raw.drop_last()
        } else {
            raw
        };
        if nl + 1 < t.len() {
            strip_indent(line, indent) + seq![10u8] + dedent(t.skip(nl + 1), indent)
        } else {
            strip_indent(line, indent)
        }
    }
}

proof fn lemma_first_newline_shift(src: Seq<u8>, a: int, i: int, e: int)
    requires
        0 <= a <= i <= e <= src.len(),
    ensures
        first_newline(src.subrange(a, e), i - a, e - a) == first_newline(src, i, e) - a,
    decreases e - i,
{
    if i < e && src[i] != 10 {
        lemma_first_newline_shift(src, a, i + 1, e);
    }
}

proof fn lemma_space_run_shift(src: Seq<u8>, a: int, i: int, limit: int, e: int)
    requires
        0 <= a <= i,
        a + limit <= e <= src.len(),
        i <= a + limit,
    ensures
        space_run(src.subrange(a, e), i - a, limit) == space_run(src, i, a + limit) - a,
    decreases a + limit - i,
{
    if i < a + limit && src[i] == 32 {
        lemma_space_run_shift(src, a, i + 1, limit, e);
    }
}

proof fn lemma_space_run_bounds(line: Seq<u8>, i: int, limit: int)
    requires
        i <= limit,
    ensures
        i <= space_run(line, i, limit) <= limit,
    decreases limit - i,
{
    if i < limit && line[i] == 32 {
        lemma_space_run_bounds(line, i + 1, limit);
    }
}

/// Copy `src[from..to]` onto the end of `out`.
fn push_bytes(out: &mut Vec<u8>, src: &[u8], from: usize, to: usize)
    requires
        from <= to <= src@.len(),
    ensures
        final(out)@ == old(out)@ + src@.subrange(from as int, to as int),
{
    let mut j = from;
    while j < to
        invariant
            from <= j <= to <= src@.len(),
            out@ == old(out)@ + src@.subrange(from as int, j as int),
        decreases to - j,
    {
        out.push(src[j]);
        j = j + 1;
        assert(out@ =~= old(out)@ + src@.subrange(from as int, j as int));
    }
}

/// Strip up to `indent` leading spaces from each line of `src[sp]`, joining the
/// lines with `\n`.
pub fn dedent_lines(src: &[u8], sp: Span, indent: usize) -> (out: Vec<u8>)
    requires
        span_in(sp, src@.len() as int),
    ensures
        out@ == dedent(src@.subrange(sp.start as int, sp.end as int), indent as nat),
{
    let mut out: Vec<u8> = Vec::new();
    let mut pos = sp.start;
    let e = sp.end;
    while pos < e
        invariant
            span_in(sp, src@.len() as int),
            e == sp.end,
            sp.start <= pos <= e,
            dedent(src@.subrange(sp.start as int, e as int), indent as nat)
                == out@ + dedent(src@.subrange(pos as int, e as int), indent as nat),
        decreases e - pos,
    {
        let ghost t = src@.subrange(pos as int, e as int);
        let nl = first_line_end(src, Span { start: pos, end: e });
        proof {
            lemma_first_newline_shift(src@, pos as int, pos as int, e as int);
            assert(first_newline(t, 0, t.len() as int) == nl - pos);
        }
        let line_end = if nl < e && nl > pos && src[nl - 1] == 13 { nl - 1 } else { nl };
        let ghost raw = t.take(nl - pos);
        let ghost line = if nl < e && raw.len() > 0 && raw.last() == 13 { raw.drop_last() } else { raw };
        assert(line =~= src@.subrange(pos as int, line_end as int));
        let limit = if indent < line_end - pos { indent } else { line_end - pos };
        let mut k = pos;
        proof {
            lemma_space_run_bounds(src@, pos as int, pos + limit);
        }
        while k < pos + limit && src[k] == 32
            invariant
                pos <= k <= pos + limit,
                pos + limit <= line_end <= src@.len(),
                space_run(src@, k as int, pos + limit) == space_run(src@, pos as int, pos + limit),
            decreases pos + limit - k,
        {
            k = k + 1;
        }
        proof {
            lemma_space_run_shift(src@, pos as int, pos as int, limit as int, line_end as int);
            assert(space_run(line, 0, limit as int) == k - pos);
            assert(strip_indent(line, indent as nat) =~= src@.subrange(k as int, line_end as int));
        }
        push_bytes(&mut out, src, k, line_end);
        if nl < e && e - nl > 1 {
            out.push(10);
            proof {
                assert(t.skip(nl - pos + 1) =~= src@.subrange(nl + 1, e as int));
            }
            pos = nl + 1;
        } else {
            proof {
                assert(src@.subrange(e as int, e as int) =~= Seq::<u8>::empty());
            }
            pos = e;
        }
    }
    proof {
        assert(src@.subrange(pos as int, e as int) =~= Seq::<u8>::empty());
    }
    out
}

/// Index just past the run of ASCII digits starting at `i` (before `e`).
pub open spec fn digit_run(src: Seq<u8>, i: int, e: int) -> int
    decreases e - i,
{
    if i < e && is_ascii_digit(src[i]) {
        digit_run(src, i + 1, e)
    } else {
        i
    }
}

/// The UTF-8 encoding of a character with the Unicode `White_Space` property
/// starts at `i` and ends before `e`.
pub open spec fn whitespace_char_at(src: Seq<u8>, i: int, e: int) -> bool {
    ||| (i < e && ((9 <= src[i] <= 13) || src[i] == 32))
    ||| (i + 1 < e && src[i] == 0xC2 && (src[i + 1] == 0x85 || src[i + 1] == 0xA0))
    ||| (i + 2 < e && src[i] == 0xE1 && src[i + 1] == 0x9A && src[i + 2] == 0x80)
    ||| (i + 2 < e && src[i] == 0xE2 && src[i + 1] == 0x80 && ((0x80 <= src[i + 2] <= 0x8A)
        || src[i + 2] == 0xA8 || src[i + 2] == 0xA9 || src[i + 2] == 0xAF))
    ||| (i + 2 < e && src[i] == 0xE2 && src[i + 1] == 0x81 && src[i + 2] == 0x9F)
    ||| (i + 2 < e && src[i] == 0xE3 && src[i + 1] == 0x80 && src[i + 2] == 0x80)
}

/// Decimal value of a run of ASCII digits.
pub open spec fn digits_value(d: Seq<u8>) -> nat
    decreases d.len(),
{
    if d.len() == 0 {
        0
    } else {
        digits_value(d.drop_last()) * 10 + (d.last() - 48) as nat
    }
}

/// Split the `<digits><whitespace>` id prefix off the name in `range`: the
/// trimmed name span, and the id when the prefix is there and fits in a `u64`.
pub open spec fn split_id(src: Seq<u8>, range: Span) -> (Option<u64>, Span) {
    let sp = trimmed(src, range);
    let k = digit_run(src, sp.start as int, sp.end as int);
    if k > sp.start && whitespace_char_at(src, k, sp.end as int) {
        let v = digits_value(src.subrange(sp.start as int, k));
        (
            if v <= u64::MAX { Some(v as u64) } else { None },
            trimmed(src, Span { start: k as usize, end: sp.end }),
        )
    } else {
        (None, sp)
    }
}

/// The id prefix split off a forward span leaves a name span inside it.
pub proof fn lemma_split_id_within(src: Seq<u8>, range: Span)
    requires
        range.start <= range.end,
    ensures
        range.start <= split_id(src, range).1.start <= split_id(src, range).1.end <= range.end,
{
    lemma_trimmed_within(src, range);
    let sp = trimmed(src, range);
    lemma_digit_run_bounds(src, sp.start as int, sp.end as int);
    let k = digit_run(src, sp.start as int, sp.end as int);
    lemma_trimmed_within(src, Span { start: k as usize, end: sp.end });
}

/// `sp` cut to lie inside `outer`.
pub open spec fn clamp_into(sp: Span, outer: Span) -> Span {
    let s = if sp.start < outer.start {
        outer.start
    } else if sp.start > outer.end {
        outer.end
    } else {
        sp.start
    };
    let e = if sp.end < s {
        s
    } else if sp.end > outer.end {
        outer.end
    } else {
        sp.end
    };
    Span { start: s, end: e }
}

/// Cut `sp` to lie inside `outer`, a forward span.
pub fn clamp_span_into(sp: Span, outer: Span) -> (r: Span)
    requires
        outer.start <= outer.end,
    ensures
        r == clamp_into(sp, outer),
        outer.start <= r.start <= r.end <= outer.end,
{
    let s = if sp.start < outer.start {
        outer.start
    } else if sp.start > outer.end {
        outer.end
    } else {
        sp.start
    };
    let e = if sp.end < s {
        s
    } else if sp.end > outer.end {
        outer.end
    } else {
        sp.end
    };
    Span { start: s, end: e }
}

proof fn lemma_digit_run_bounds(src: Seq<u8>, i: int, e: int)
    requires
        i <= e,
    ensures
        i <= digit_run(src, i, e) <= e,
        forall|j: int| i <= j < digit_run(src, i, e) ==> is_ascii_digit(#[trigger] src[j]),
    decreases e - i,
{
    if i < e && is_ascii_digit(src[i]) {
        lemma_digit_run_bounds(src, i + 1, e);
    }
}

fn is_whitespace_char_at(src: &[u8], i: usize, e: usize) -> (b: bool)
    requires
        e <= src@.len(),
    ensures
        b == whitespace_char_at(src@, i as int, e as int),
{
    if i >= e {
        return false;
    }
    let b0 = src[i];
    if (9 <= b0 && b0 <= 13) || b0 == 32 {
        return true;
    }
    if i + 1 >= e {
        return false;
    }
    let b1 = src[i + 1];
    if b0 == 0xC2 {
        return b1 == 0x85 || b1 == 0xA0;
    }
    if i + 2 >= e {
        return false;
    }
    let b2 = src[i + 2];
    (b0 == 0xE1 && b1 == 0x9A && b2 == 0x80) || (b0 == 0xE2 && b1 == 0x80 && ((0x80 <= b2
        && b2 <= 0x8A) || b2 == 0xA8 || b2 == 0xA9 || b2 == 0xAF)) || (b0 == 0xE2 && b1 == 0x81
        && b2 == 0x9F) || (b0 == 0xE3 && b1 == 0x80 && b2 == 0x80)
}

/// The `u64` the ASCII digits `src[from..to]` spell, when it fits.
fn parse_digits(src: &[u8], from: usize, to: usize) -> (v: Option<u64>)
    requires
        from <= to <= src@.len(),
        forall|j: int| from <= j < to ==> is_ascii_digit(#[trigger] src@[j]),
    ensures
        v == if digits_value(src@.subrange(from as int, to as int)) <= u64::MAX {
            Some(digits_value(src@.subrange(from as int, to as int)) as u64)
        } else {
            None::<u64>
        },
{
    let mut acc: u64 = 0;
    let mut fits = true;
    let mut j = from;
    while j < to
        invariant
            from <= j <= to <= src@.len(),
            forall|x: int| from <= x < to ==> is_ascii_digit(#[trigger] src@[x]),
            fits ==> acc == digits_value(src@.subrange(from as int, j as int)),
            !fits ==> digits_value(src@.subrange(from as int, j as int)) > u64::MAX,
        decreases to - j,
    {
        let ghost prev = src@.subrange(from as int, j as int);
        let d = src[j] - 48;
        assert(src@.subrange(from as int, j + 1).drop_last() =~= prev);
        assert(is_ascii_digit(src@[j as int]));
        if fits {
            match acc.checked_mul(10) {
                Some(m) => match m.checked_add(d as u64) {
                    Some(n) => {
                        acc = n;
                    },
                    None => {
                        fits = false;
                    },
                },
                None => {
                    fits = false;
                },
            }
        }
        j = j + 1;
    }
    if fits {
        Some(acc)
    } else {
        None
    }
}

/// Trim `range` to non-whitespace bounds; a `<digits><whitespace>` prefix is
/// consumed as the id.
pub fn split_id_prefix(src: &[u8], range: Span) -> (r: (Option<u64>, Span))
    requires
        span_in(range, src@.len() as int),
    ensures
        r == split_id(src@, range),
        span_in(r.1, src@.len() as int),
        range.start <= r.1.start,
        r.1.end <= range.end,
{
    let sp = trim_span(src, range);
    let mut k = sp.start;
    proof {
        lemma_digit_run_bounds(src@, sp.start as int, sp.end as int);
    }
    while k < sp.end && 48 <= src[k] && src[k] <= 57
        invariant
            span_in(sp, src@.len() as int),
            sp.start <= k <= sp.end,
            digit_run(src@, k as int, sp.end as int) == digit_run(src@, sp.start as int, sp.end as int),
        decreases sp.end - k,
    {
        k = k + 1;
    }
    if k > sp.start && is_whitespace_char_at(src, k, sp.end) {
        let id = parse_digits(src, sp.start, k);
        let rest = trim_span(src, Span { start: k, end: sp.end });
        (id, rest)
    } else {
        (None, sp)
    }
}

/// Text of `bytes` with every invalid UTF-8 sequence replaced by U+FFFD.
pub uninterp spec fn utf8_lossy(bytes: Seq<u8>) -> Seq<char>;

/// Calls `String::from_utf8_lossy`. Claims that its result is a function of the
/// bytes alone, and, as its documentation says, that valid UTF-8 decodes to
/// exactly the characters it encodes.
#[verifier::external_body]
pub(crate) fn decode_lossy(bytes: &[u8]) -> (text: String)
    ensures
        text@ == utf8_lossy(bytes@),
        valid_utf8(bytes@) ==> text@ == decode_utf8(bytes@),
{
    String::from_utf8_lossy(bytes).into_owned()
}

/// The bytes of `src[sp]` as text.
pub open spec fn span_text(src: Seq<u8>, sp: Span) -> Seq<char> {
    utf8_lossy(src.subrange(sp.start as int, sp.end as int))
}

pub fn text_of_span(src: &[u8], sp: Span) -> (text: String)
    requires
        span_in(sp, src@.len() as int),
    ensures
        text@ == span_text(src@, sp),
{
    let mut bytes: Vec<u8> = Vec::new();
    push_bytes(&mut bytes, src, sp.start, sp.end);
    assert(bytes@ =~= src@.subrange(sp.start as int, sp.end as int));
    decode_lossy(bytes.as_slice())
}

/// The encoding of joined text is the encodings joined.
pub proof fn lemma_encode_concat(a: Seq<char>, b: Seq<char>)
    ensures
        encode_utf8(a + b) == encode_utf8(a) + encode_utf8(b),
    decreases a.len(),
{
    if a.len() > 0 {
        assert((a + b).drop_first() =~= a.drop_first() + b);
        lemma_encode_concat(a.drop_first(), b);
        assert(encode_utf8(a + b) =~= encode_utf8(a) + encode_utf8(b));
    } else {
        assert(a + b =~= b);
    }
}

} // verus!
