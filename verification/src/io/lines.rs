//! The text lines at the front of a recording.

use vstd::prelude::*;
use vstd::slice::slice_subrange;
use vstd::utf8::{decode_utf8, valid_utf8};

verus! {

/// The text that ill-formed bytes stand for, each ill-formed part replaced by U+FFFD.
pub uninterp spec fn utf8_lossy(bytes: Seq<u8>) -> Seq<char>;

/// The text that a run of bytes stands for.
pub open spec fn text_in(bytes: Seq<u8>) -> Seq<char> {
    if valid_utf8(bytes) {
        decode_utf8(bytes)
    } else {
        utf8_lossy(bytes)
    }
}

/// Decodes bytes as text: `String::from_utf8_lossy`, which documents that well-formed UTF-8 is
/// decoded as it is. What stands in for ill-formed parts is only named.
#[verifier::external_body]
pub(crate) fn text_of(bytes: &[u8]) -> (text: String)
    ensures
        valid_utf8(bytes@) ==> text@ == decode_utf8(bytes@),
        !valid_utf8(bytes@) ==> text@ == utf8_lossy(bytes@),
{
    String::from_utf8_lossy(bytes).into_owned()
}

/// A text in quotation marks, with its special characters escaped.
pub uninterp spec fn quoted_text(text: Seq<char>) -> Seq<char>;

/// Quotes a text: the `Debug` form of `str`. The form is only named.
#[verifier::external_body]
pub(crate) fn quoted(text: &str) -> (form: String)
    ensures
        form@ == quoted_text(text@),
{
    format!("{:?}", text)
}

/// The first place at or after `at` past a line feed, or the length.
pub open spec fn line_end(data: Seq<u8>, at: int) -> int
    decreases data.len() - at,
{
    if at >= data.len() {
        data.len() as int
    } else if data[at] == 0x0A {
        at + 1
    } else {
        line_end(data, at + 1)
    }
}

pub proof fn line_end_moves(data: Seq<u8>, at: int)
    requires
        0 <= at < data.len(),
    ensures
        at < line_end(data, at) <= data.len(),
    decreases data.len() - at,
{
    reveal_with_fuel(line_end, 2);
    if data[at] != 0x0A && at + 1 < data.len() {
        line_end_moves(data, at + 1);
    }
}

/// The lines from `at` on that start with `mark`, up to the line `stop` if there is one. No line is
/// empty, so none is an empty `stop`.
pub open spec fn marked_lines(data: Seq<u8>, mark: u8, stop: Seq<u8>, at: int) -> Seq<Seq<u8>>
    decreases data.len() - at,
    via marked_lines_end
{
    if 0 <= at < data.len() && data[at] == mark {
        let line = data.subrange(at, line_end(data, at));
        if line == stop {
            seq![line]
        } else {
            seq![line] + marked_lines(data, mark, stop, line_end(data, at))
        }
    } else {
        Seq::empty()
    }
}

#[via_fn]
proof fn marked_lines_end(data: Seq<u8>, mark: u8, stop: Seq<u8>, at: int) {
    if 0 <= at < data.len() {
        line_end_moves(data, at);
    }
}

/// Where the lines that start with `mark` end, up to the line `stop` if there is one.
pub open spec fn marked_end(data: Seq<u8>, mark: u8, stop: Seq<u8>, at: int) -> int
    decreases data.len() - at,
    via marked_end_ends
{
    if 0 <= at < data.len() && data[at] == mark {
        if data.subrange(at, line_end(data, at)) == stop {
            line_end(data, at)
        } else {
            marked_end(data, mark, stop, line_end(data, at))
        }
    } else {
        at
    }
}

#[via_fn]
proof fn marked_end_ends(data: Seq<u8>, mark: u8, stop: Seq<u8>, at: int) {
    if 0 <= at < data.len() {
        line_end_moves(data, at);
    }
}

fn same_bytes(a: &[u8], b: &[u8]) -> (same: bool)
    ensures
        same == (a@ == b@),
{
    if a.len() != b.len() {
        return false;
    }
    let n: usize = a.len();
    for i in 0..n
        invariant
            n == a@.len(),
            n == b@.len(),
            forall|j: int| 0 <= j < i ==> a@[j] == b@[j],
    {
        if a[i] != b[i] {
            return false;
        }
    }
    assert(a@ =~= b@);
    true
}

/// Splits the lines that start with `mark` off the front of a recording, up to the line `stop` if
/// there is one. The second value is where they end.
pub fn marked(data: &[u8], mark: u8, stop: &[u8]) -> (split: (Vec<String>, usize))
    ensures
        split.1 == marked_end(data@, mark, stop@, 0),
        split.1 <= data@.len(),
        split.0@.len() == marked_lines(data@, mark, stop@, 0).len(),
        forall|i: int|
            0 <= i < split.0@.len() ==> #[trigger] split.0@[i]@ == text_in(
                marked_lines(data@, mark, stop@, 0)[i],
            ),
{
    let mut lines: Vec<String> = Vec::new();
    let ghost all = marked_lines(data@, mark, stop@, 0);
    let ghost mut seen = Seq::<Seq<u8>>::empty();
    let mut at: usize = 0;
    assert(seen + all =~= all);
    while at < data.len() && data[at] == mark
        invariant
            at <= data@.len(),
            marked_end(data@, mark, stop@, 0) == marked_end(data@, mark, stop@, at as int),
            all == marked_lines(data@, mark, stop@, 0),
            all == seen + marked_lines(data@, mark, stop@, at as int),
            lines@.len() == seen.len(),
            forall|i: int| 0 <= i < lines@.len() ==> #[trigger] lines@[i]@ == text_in(seen[i]),
        decreases data@.len() - at,
    {
        proof {
            line_end_moves(data@, at as int);
        }
        let mut end: usize = at;
        while end < data.len() && data[end] != 0x0A
            invariant
                at <= end <= data@.len(),
                line_end(data@, at as int) == line_end(data@, end as int),
            decreases data@.len() - end,
        {
            end += 1;
        }
        if end < data.len() {
            end += 1;
        }
        let bytes = slice_subrange(data, at, end);
        lines.push(text_of(bytes));
        if same_bytes(bytes, stop) {
            assert(all =~= seen.push(bytes@));
            return (lines, end);
        }
        proof {
            let rest = marked_lines(data@, mark, stop@, end as int);
            assert(seen + (seq![bytes@] + rest) =~= seen.push(bytes@) + rest);
            seen = seen.push(bytes@);
        }
        at = end;
    }
    assert(seen + Seq::<Seq<u8>>::empty() =~= seen);
    (lines, at)
}

/// The texts of a run of strings.
pub open spec fn texts(lines: Seq<String>) -> Seq<Seq<char>> {
    Seq::new(lines.len(), |i: int| lines[i]@)
}

} // verus!
