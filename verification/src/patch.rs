//! In-place source patching: an edit rewrites only the affected byte span,
//! leaving the rest of the source byte-identical.
use std::ops::Range;

use vstd::prelude::*;
use vstd::string::*;
use vstd::utf8::*;

use crate::source::lemma_boundary_in_rest;
use crate::text::lemma_encode_concat;

verus! {

/// Replace `source[range]` with `replacement`, returning the new string.
pub fn replace_range(source: &str, range: Range<usize>, replacement: &str) -> (patched: String)
    requires
        range.start <= range.end <= source.spec_bytes().len(),
        is_char_boundary(source.spec_bytes(), range.start as int),
        is_char_boundary(source.spec_bytes(), range.end as int),
    ensures
        encode_utf8(patched@) == replaced(
            source.spec_bytes(),
            range.start as int,
            range.end as int,
            replacement.spec_bytes(),
        ),
{
    let ghost b = source.spec_bytes();
    proof {
        broadcast use encode_utf8_valid_utf8;
        lemma_boundary_in_rest(b, range.start as int, range.end as int);
    }
    let (head, rest) = source.split_at(range.start);
    let (_, tail) = rest.split_at(range.end - range.start);
    let mut patched = String::from_str(head);
    patched.append(replacement);
    patched.append(tail);
    proof {
        lemma_encode_concat(head@ + replacement@, tail@);
        lemma_encode_concat(head@, replacement@);
        assert(b.subrange(range.start as int, b.len() as int).subrange(range.end - range.start, b.len() - range.start)
            =~= b.subrange(range.end as int, b.len() as int));
    }
    patched
}

/// The bytes of `b` with `b[start..end]` replaced by `x`, as `replace_range`
/// produces them.
pub open spec fn replaced(b: Seq<u8>, start: int, end: int, x: Seq<u8>) -> Seq<u8> {
    b.subrange(0, start) + x + b.subrange(end, b.len() as int)
}

/// Replacing the inserted text back with what it replaced restores the source,
/// and that second replacement is itself one `replace_range` accepts: the
/// inserted text starts and ends at character boundaries of the patched text.
pub proof fn lemma_replace_back(b: Seq<u8>, start: int, end: int, x: Seq<u8>)
    requires
        0 <= start <= end <= b.len(),
        valid_utf8(b),
        is_char_boundary(b, start),
        is_char_boundary(b, end),
        valid_utf8(x),
    ensures
        replaced(b, start, end, x).len() == b.len() - (end - start) + x.len(),
        valid_utf8(replaced(b, start, end, x)),
        is_char_boundary(replaced(b, start, end, x), start),
        is_char_boundary(replaced(b, start, end, x), start + x.len()),
        replaced(replaced(b, start, end, x), start, start + x.len(), b.subrange(start, end)) == b,
{
    broadcast use is_char_boundary_start_end_of_seq, valid_utf8_concat;

    let head = b.subrange(0, start);
    let tail = b.subrange(end, b.len() as int);
    let t = replaced(b, start, end, x);
    valid_utf8_split(b, start);
    valid_utf8_split(b, end);
    assert(valid_utf8(head + x));
    assert(valid_utf8(t));
    if end < b.len() {
        is_char_boundary_iff_not_is_continuation_byte(b, end);
    }
    if x.len() > 0 {
        is_char_boundary_iff_not_is_continuation_byte(x, 0);
        assert(t[start] == x[0]);
        is_char_boundary_iff_not_is_continuation_byte(t, start);
    } else if end < b.len() {
        assert(t[start] == b[end]);
        is_char_boundary_iff_not_is_continuation_byte(t, start);
    } else {
        assert(t.len() == start);
    }
    if end < b.len() {
        assert(t[start + x.len()] == b[end]);
        is_char_boundary_iff_not_is_continuation_byte(t, start + x.len());
    } else {
        assert(t.len() == start + x.len());
    }
    assert(replaced(t, start, start + x.len(), b.subrange(start, end)) =~= b);
}

/// Captured file metadata, modification time and size: a best-effort guard
/// against overwriting an edit made by someone else between reading a file and
/// writing it back. Two writes landing within one filesystem timestamp tick
/// that leave the size equal look unchanged, and the check cannot be atomic
/// with the write that follows it: it narrows the window rather than closing
/// it.
#[derive(Clone, Copy, Debug)]
pub struct FileMetaSnapshot {
    /// Modification time, in nanoseconds from the Unix epoch (negative before it).
    modified: i128,
    len: u64,
}

pub struct SnapshotView {
    pub modified: i128,
    pub len: u64,
}

impl View for FileMetaSnapshot {
    type V = SnapshotView;

    closed spec fn view(&self) -> SnapshotView {
        SnapshotView { modified: self.modified, len: self.len }
    }
}

impl FileMetaSnapshot {
    /// Metadata of a file modified `modified` nanoseconds from the Unix epoch,
    /// `len` bytes long.
    pub fn new(modified: i128, len: u64) -> (snapshot: Self)
        ensures
            snapshot@ == (SnapshotView { modified, len }),
    {
        FileMetaSnapshot { modified, len }
    }

    /// Modification time, in nanoseconds from the Unix epoch.
    pub fn modified(&self) -> (modified: i128)
        ensures
            modified == self@.modified,
    {
        self.modified
    }

    /// Size of the file when it was captured.
    pub fn size(&self) -> (len: u64)
        ensures
            len == self@.len,
    {
        self.len
    }

    /// The file still carries the metadata captured here: same modification
    /// time, same size.
    pub fn matches(&self, current: &FileMetaSnapshot) -> (unchanged: bool)
        ensures
            unchanged == (self@ == current@),
    {
        self.modified == current.modified && self.len == current.len
    }
}

} // verus!
