//! What a line of plan markdown reads as: an issue item, an id prefix.
use vstd::prelude::*;
use vstd::string::*;

verus! {

/// Characters with the Unicode `White_Space` property: the ones
/// `char::is_whitespace` accepts.
pub open spec fn is_white_space(c: char) -> bool {
    let u = c as u32;
    ||| 9 <= u <= 13
    ||| u == 32
    ||| u == 0x85
    ||| u == 0xA0
    ||| u == 0x1680
    ||| 0x2000 <= u <= 0x200A
    ||| u == 0x2028
    ||| u == 0x2029
    ||| u == 0x202F
    ||| u == 0x205F
    ||| u == 0x3000
}

pub fn white_space(c: char) -> (b: bool)
    ensures
        b == is_white_space(c),
{
    let u = c as u32;
    (9 <= u && u <= 13) || u == 32 || u == 0x85 || u == 0xA0 || u == 0x1680 || (0x2000 <= u && u
        <= 0x200A) || u == 0x2028 || u == 0x2029 || u == 0x202F || u == 0x205F || u == 0x3000
}

/// The characters of `s`, in order.
pub fn chars_of(s: &str) -> (chars: Vec<char>)
    ensures
        chars@ == s@,
{
    broadcast use vstd::string::group_string_axioms;

    let mut chars: Vec<char> = Vec::new();
    for c in it: s.chars()
        invariant
            chars@ == it.seq().take(it.index() as int),
    {
        chars.push(c);
        assert(chars@ =~= it.seq().take(it.index() + 1));
    }
    chars
}

pub open spec fn is_digit_char(c: char) -> bool {
    48 <= c as u32 <= 57
}

/// Index of the first white-space character of `s` at or after `i`.
pub open spec fn white_space_from(s: Seq<char>, i: int) -> Option<int>
    decreases s.len() - i,
{
    if i < 0 || i >= s.len() {
        None
    } else if is_white_space(s[i]) {
        Some(i)
    } else {
        white_space_from(s, i + 1)
    }
}

/// The `<digits><white space>` prefix `name` opens with: the digits before its
/// first white-space character, when there are some and nothing else.
pub open spec fn id_prefix_of(name: Seq<char>) -> Option<Seq<char>> {
    match white_space_from(name, 0) {
        Some(k) => if k > 0 && forall|i: int| 0 <= i < k ==> is_digit_char(#[trigger] name[i]) {
            Some(name.take(k))
        } else {
            None
        },
        None => None,
    }
}

proof fn lemma_white_space_from_bounds(s: Seq<char>, i: int)
    requires
        0 <= i,
    ensures
        white_space_from(s, i) matches Some(k) ==> i <= k < s.len() && is_white_space(s[k]),
        white_space_from(s, i) is None ==> forall|j: int| i <= j < s.len() ==> !is_white_space(#[trigger] s[j]),
        forall|j: int| i <= j < s.len() && (white_space_from(s, i) matches Some(k) ==> j < k)
            ==> !is_white_space(#[trigger] s[j]),
    decreases s.len() - i,
{
    if i < s.len() && !is_white_space(s[i]) {
        lemma_white_space_from_bounds(s, i + 1);
    }
}

/// The `<digits><space>` prefix `name` opens with, if any: a reader takes it
/// as the issue id rather than as part of the name.
pub fn id_prefix(name: &str) -> (prefix: Option<&str>)
    ensures
        match id_prefix_of(name@) {
            Some(p) => prefix matches Some(x) && x@ == p,
            None => prefix is None,
        },
{
    let chars = chars_of(name);
    let n = chars.len();
    let mut k: usize = 0;
    proof {
        lemma_white_space_from_bounds(name@, 0);
    }
    while k < n && !white_space(chars[k])
        invariant
            chars@ == name@,
            n == name@.len(),
            k <= n,
            white_space_from(name@, k as int) == white_space_from(name@, 0),
        decreases n - k,
    {
        k = k + 1;
    }
    if k == n || k == 0 {
        return None;
    }
    let mut i: usize = 0;
    while i < k
        invariant
            chars@ == name@,
            k < n == name@.len(),
            white_space_from(name@, 0) == Some(k as int),
            i <= k,
            forall|j: int| 0 <= j < i ==> is_digit_char(#[trigger] name@[j]),
        decreases k - i,
    {
        let u = chars[i] as u32;
        if !(48 <= u && u <= 57) {
            assert(!is_digit_char(name@[i as int]));
            return None;
        }
        i = i + 1;
    }
    Some(name.substring_char(0, k))
}

/// Bullet markers that open an issue item: `-`, `*`, `+`.
pub open spec fn is_marker_char(c: char) -> bool {
    c == '-' || c == '*' || c == '+'
}

/// Index of the first character of `s` at or after `i` that is not white space.
pub open spec fn skip_white_space(s: Seq<char>, i: int) -> int
    decreases s.len() - i,
{
    if 0 <= i < s.len() && is_white_space(s[i]) {
        skip_white_space(s, i + 1)
    } else {
        i
    }
}

/// `line` opens a bullet list item: past its leading white space stands a
/// bullet marker, followed by the end of the line, a space or a tab.
pub open spec fn is_bullet_line(line: Seq<char>) -> bool {
    let t = skip_white_space(line, 0);
    &&& t < line.len()
    &&& is_marker_char(line[t])
    &&& (t + 1 == line.len() || line[t + 1] == ' ' || line[t + 1] == '\t')
}

proof fn lemma_skip_bounds(s: Seq<char>, i: int)
    requires
        0 <= i <= s.len(),
    ensures
        i <= skip_white_space(s, i) <= s.len(),
        forall|j: int| i <= j < skip_white_space(s, i) ==> is_white_space(#[trigger] s[j]),
        skip_white_space(s, i) < s.len() ==> !is_white_space(s[skip_white_space(s, i)]),
    decreases s.len() - i,
{
    if i < s.len() && is_white_space(s[i]) {
        lemma_skip_bounds(s, i + 1);
    }
}

/// Whether `chars[from..to]` is a bullet line.
fn bullet_range(chars: &Vec<char>, from: usize, to: usize) -> (b: bool)
    requires
        from <= to <= chars@.len(),
    ensures
        b == is_bullet_line(chars@.subrange(from as int, to as int)),
{
    let ghost line = chars@.subrange(from as int, to as int);
    let mut t = from;
    proof {
        lemma_skip_bounds(line, 0);
    }
    while t < to && white_space(chars[t])
        invariant
            from <= t <= to <= chars@.len(),
            line == chars@.subrange(from as int, to as int),
            skip_white_space(line, t - from) == skip_white_space(line, 0),
        decreases to - t,
    {
        t = t + 1;
    }
    if t == to {
        return false;
    }
    let c = chars[t];
    if !(c == '-' || c == '*' || c == '+') {
        return false;
    }
    t + 1 == to || chars[t + 1] == ' ' || chars[t + 1] == '\t'
}

/// Does `line` open a bullet list item: the markup a reader takes for an issue?
pub fn is_bullet_item(line: &str) -> (b: bool)
    ensures
        b == is_bullet_line(line@),
{
    let chars = chars_of(line);
    assert(chars@.subrange(0, chars@.len() as int) =~= line@);
    bullet_range(&chars, 0, chars.len())
}

/// Every character is white space.
pub open spec fn is_blank(s: Seq<char>) -> bool {
    forall|i: int| 0 <= i < s.len() ==> is_white_space(#[trigger] s[i])
}

/// Index of the last line feed of `s` before `e`.
pub open spec fn last_newline_before(s: Seq<char>, e: int) -> Option<int>
    decreases e,
{
    if e <= 0 {
        None
    } else if s[e - 1] == '\n' {
        Some(e - 1)
    } else {
        last_newline_before(s, e - 1)
    }
}

proof fn lemma_last_newline_bounds(s: Seq<char>, e: int)
    requires
        0 <= e <= s.len(),
    ensures
        last_newline_before(s, e) matches Some(j) ==> 0 <= j < e && s[j] == '\n',
    decreases e,
{
    if e > 0 && s[e - 1] != '\n' {
        lemma_last_newline_bounds(s, e - 1);
    }
}

/// The line is empty or opens with white space: blank, or indented so that it
/// goes on with a list item above it rather than opening a block of its own.
pub open spec fn continues_above(line: Seq<char>) -> bool {
    line.len() == 0 || is_white_space(line[0])
}

/// Over the lines of `s[..e]`, read as `str::lines` splits them (a line ending
/// at a line feed loses its `\r`; `terminated` says that the last one does),
/// the last block is a bullet list: going up from the last line past blank and
/// indented lines, the first line that is neither, or an indented bullet line
/// on the way, is a bullet line.
pub open spec fn bullet_tail(s: Seq<char>, e: int, terminated: bool) -> bool
    decreases e,
{
    if e < 0 {
        false
    } else {
        let j = last_newline_before(s, e);
        let start = match j {
            Some(j) => j + 1,
            None => 0,
        };
        let end = if terminated && e > start && s[e - 1] == '\r' { e - 1 } else { e };
        let line = s.subrange(start, end);
        if is_bullet_line(line) {
            true
        } else if continues_above(line) {
            match j {
                Some(j) => if 0 <= j < e {
                    bullet_tail(s, j, true)
                } else {
                    false
                },
                None => false,
            }
        } else {
            false
        }
    }
}

/// Would the last block of `content` read back as a list of issues rather than
/// as description text? A writer has to close such content with a `---`.
pub fn ends_with_bullet_item(content: &str) -> (b: bool)
    ensures
        b == bullet_tail(content@, content@.len() as int, false),
{
    let chars = chars_of(content);
    let mut e = chars.len();
    let mut terminated = false;
    loop
        invariant
            chars@ == content@,
            e <= chars@.len(),
            bullet_tail(content@, e as int, terminated) == bullet_tail(content@, content@.len() as int, false),
        decreases e,
    {
        proof {
            lemma_last_newline_bounds(content@, e as int);
        }
        let mut k = e;
        while k > 0 && chars[k - 1] != '\n'
            invariant
                chars@ == content@,
                k <= e <= chars@.len(),
                last_newline_before(content@, k as int) == last_newline_before(content@, e as int),
            decreases k,
        {
            k = k - 1;
        }
        let start = k;
        let end = if terminated && e > start && chars[e - 1] == '\r' { e - 1 } else { e };
        if bullet_range(&chars, start, end) {
            return true;
        }
        if !(start == end || white_space(chars[start])) {
            assert(!continues_above(chars@.subrange(start as int, end as int)));
            return false;
        }
        if k == 0 {
            return false;
        }
        e = k - 1;
        terminated = true;
    }
}

} // verus!
