//! The streams an AEDAT 4 header declares.
//!
//! The header carries a small XML document listing numbered stream nodes, each with its type
//! identifier and, for pixel streams, its resolution. It is scanned for those three attributes.

use vstd::prelude::*;
use vstd::slice::slice_subrange;

use crate::chars::{
    char_at, chars_of, find_char, find_text, join3, parse_i64, parse_size, parsed, parsed_signed,
    spells, text_at,
};

verus! {

/// What a stream carries.
#[derive(Clone, Copy, Debug, PartialEq, Eq, Structural)]
pub enum Kind {
    Events,
    Frames,
    Imu,
    Other,
}

/// The kind a type identifier names.
pub open spec fn kind_named(identifier: Seq<char>) -> Kind {
    if identifier == "EVTS"@ {
        Kind::Events
    } else if identifier == "FRME"@ {
        Kind::Frames
    } else if identifier == "IMUS"@ {
        Kind::Imu
    } else {
        Kind::Other
    }
}

impl Kind {
    pub fn from_identifier(identifier: &[char]) -> (kind: Self)
        ensures
            kind == kind_named(identifier@),
    {
        if spells(identifier, "EVTS") {
            Kind::Events
        } else if spells(identifier, "FRME") {
            Kind::Frames
        } else if spells(identifier, "IMUS") {
            Kind::Imu
        } else {
            Kind::Other
        }
    }
}

/// A stream the header declares.
#[derive(Clone, Copy, Debug)]
pub struct Stream {
    pub id: i32,
    pub kind: Kind,
    pub size: Option<(usize, usize)>,
}

/// What a stream node's opening tag begins with.
pub open spec fn node_text() -> Seq<char> {
    "<node name=\""@
}

/// The numbered nodes at or after `at`: where each name starts, and the number it is.
pub open spec fn numbered_nodes(info: Seq<char>, at: int) -> Seq<(int, int)>
    decreases info.len() - at,
{
    match find_text(info, node_text(), at) {
        Some(found) => {
            let start = found + node_text().len();
            let end = find_char(info, '"', start);
            if found < at || start <= at || start > info.len() || end >= info.len() {
                Seq::empty()
            } else {
                match parsed_signed(
                    info.subrange(start, end),
                    i32::MIN as int,
                    i32::MAX as int,
                ) {
                    Some(id) => seq![(start, id)] + numbered_nodes(info, start),
                    None => numbered_nodes(info, start),
                }
            }
        },
        None => Seq::empty(),
    }
}

/// The text of the element whose `key` attribute is `key`.
pub open spec fn attribute_of(block: Seq<char>, key: Seq<char>) -> Option<Seq<char>> {
    match find_text(block, "key=\""@ + key + "\""@, 0) {
        Some(at) => {
            let open = find_char(block, '>', at) + 1;
            let close = find_char(block, '<', open);
            if open > block.len() || close >= block.len() {
                None
            } else {
                Some(block.subrange(open, close))
            }
        },
        None => None,
    }
}

/// The size an attribute gives.
pub open spec fn size_attribute(block: Seq<char>, key: Seq<char>) -> Option<usize> {
    match attribute_of(block, key) {
        Some(text) => match parsed(text, usize::MAX as int) {
            Some(v) => Some(v as usize),
            None => None,
        },
        None => None,
    }
}

/// The resolution a block declares: both of its dimensions, or nothing.
pub open spec fn declared_size(block: Seq<char>) -> Option<(usize, usize)> {
    match (size_attribute(block, "sizeX"@), size_attribute(block, "sizeY"@)) {
        (Some(w), Some(h)) => Some((w, h)),
        _ => None,
    }
}

/// The stream that the block of text of a numbered node describes.
pub open spec fn described(id: int, block: Seq<char>) -> Stream {
    Stream {
        id: id as i32,
        kind: kind_named(
            match attribute_of(block, "typeIdentifier"@) {
                Some(text) => text,
                None => Seq::empty(),
            },
        ),
        size: declared_size(block),
    }
}

/// The streams of numbered nodes: the block of each runs to the next.
pub open spec fn streams_of(info: Seq<char>, nodes: Seq<(int, int)>) -> Seq<Stream> {
    Seq::new(
        nodes.len(),
        |i: int|
            described(
                nodes[i].1,
                info.subrange(
                    nodes[i].0,
                    if i + 1 < nodes.len() {
                        nodes[i + 1].0
                    } else {
                        info.len() as int
                    },
                ),
            ),
    )
}

/// The streams a document declares.
pub open spec fn declared_streams(info: Seq<char>) -> Seq<Stream> {
    streams_of(info, numbered_nodes(info, 0))
}

fn attribute<'a>(block: &'a [char], key: &str) -> (text: Option<&'a [char]>)
    ensures
        match text {
            Some(t) => attribute_of(block@, key@) == Some(t@),
            None => attribute_of(block@, key@) is None,
        },
{
    let wanted = join3("key=\"", key, "\"");
    let pattern = chars_of(wanted.as_str());
    let at = match text_at(block, &pattern, 0) {
        Some(at) => at,
        None => {
            return None;
        },
    };
    let bracket = char_at(block, '>', at);
    if bracket >= block.len() {
        return None;
    }
    let open: usize = bracket + 1;
    let close = char_at(block, '<', open);
    if close >= block.len() {
        return None;
    }
    Some(slice_subrange(block, open, close))
}

fn size_of(block: &[char], key: &str) -> (size: Option<usize>)
    ensures
        size == size_attribute(block@, key@),
{
    match attribute(block, key) {
        Some(text) => parse_size(text),
        None => None,
    }
}

fn describe(id: i32, block: &[char]) -> (stream: Stream)
    ensures
        stream == described(id as int, block@),
{
    let kind = match attribute(block, "typeIdentifier") {
        Some(text) => Kind::from_identifier(text),
        None => {
            let nothing: Vec<char> = Vec::new();
            assert(nothing@ =~= Seq::<char>::empty());
            Kind::from_identifier(&nothing)
        },
    };
    let size = match (size_of(block, "sizeX"), size_of(block, "sizeY")) {
        (Some(w), Some(h)) => Some((w, h)),
        _ => None,
    };
    Stream { id, kind, size }
}

/// Numbered nodes as plain numbers.
pub open spec fn as_nodes(marks: Seq<(usize, i32)>) -> Seq<(int, int)> {
    Seq::new(marks.len(), |i: int| (marks[i].0 as int, marks[i].1 as int))
}

/// The numbered nodes of a document, in order of appearance.
fn find_nodes(info: &[char]) -> (marks: Vec<(usize, i32)>)
    ensures
        as_nodes(marks@) == numbered_nodes(info@, 0),
        forall|i: int| 0 <= i < marks@.len() ==> (#[trigger] marks@[i]).0 <= info@.len(),
        forall|i: int, j: int|
            0 <= i < j < marks@.len() ==> (#[trigger] marks@[i]).0 < (#[trigger] marks@[j]).0,
{
    let node = chars_of("<node name=\"");
    proof {
        reveal_strlit("<node name=\"");
    }
    let mut marks: Vec<(usize, i32)> = Vec::new();
    let n: usize = info.len();
    let mut at: usize = 0;
    assert(as_nodes(marks@) =~= Seq::<(int, int)>::empty());
    loop
        invariant
            at <= n,
            n == info@.len(),
            node@ == node_text(),
            node@.len() == 12,
            as_nodes(marks@) + numbered_nodes(info@, at as int) == numbered_nodes(info@, 0),
            forall|i: int| 0 <= i < marks@.len() ==> (#[trigger] marks@[i]).0 <= at,
            forall|i: int, j: int|
                0 <= i < j < marks@.len() ==> (#[trigger] marks@[i]).0 < (#[trigger] marks@[j]).0,
        ensures
            numbered_nodes(info@, at as int) == Seq::<(int, int)>::empty(),
            as_nodes(marks@) + numbered_nodes(info@, at as int) == numbered_nodes(info@, 0),
            at <= info@.len(),
            forall|i: int| 0 <= i < marks@.len() ==> (#[trigger] marks@[i]).0 <= at,
            forall|i: int, j: int|
                0 <= i < j < marks@.len() ==> (#[trigger] marks@[i]).0 < (#[trigger] marks@[j]).0,
        decreases info@.len() - at,
    {
        let found = match text_at(info, &node, at) {
            Some(found) => found,
            None => {
                break;
            },
        };
        let start: usize = found + node.len();
        let end = char_at(info, '"', start);
        if end >= n {
            break;
        }
        let name = slice_subrange(info, start, end);
        let ghost before = marks@;
        match parse_i64(name, i32::MIN as i64, i32::MAX as i64) {
            Some(id) => {
                marks.push((start, id as i32));
                assert(as_nodes(marks@) =~= as_nodes(before).push((start as int, id as int)));
                assert(as_nodes(marks@) + numbered_nodes(info@, start as int) =~= as_nodes(before)
                    + (seq![(start as int, id as int)] + numbered_nodes(info@, start as int)));
            },
            None => {},
        }
        at = start;
    }
    assert(as_nodes(marks@) =~= as_nodes(marks@) + numbered_nodes(info@, at as int));
    marks
}

/// The streams a document declares, in the order they appear.
pub fn parse_streams(info: &str) -> (streams: Vec<Stream>)
    ensures
        streams@ == declared_streams(info@),
{
    let text = chars_of(info);
    let marks = find_nodes(&text);
    let mut streams: Vec<Stream> = Vec::new();
    let ghost nodes = numbered_nodes(info@, 0);
    let mut i: usize = 0;
    while i < marks.len()
        invariant
            i <= marks@.len(),
            text@ == info@,
            nodes == as_nodes(marks@),
            nodes == numbered_nodes(info@, 0),
            forall|k: int| 0 <= k < marks@.len() ==> (#[trigger] marks@[k]).0 <= info@.len(),
            forall|k: int, j: int|
                0 <= k < j < marks@.len() ==> (#[trigger] marks@[k]).0 < (#[trigger] marks@[j]).0,
            streams@ == streams_of(info@, nodes).take(i as int),
        decreases marks@.len() - i,
    {
        let (start, id) = marks[i];
        let end: usize = if i + 1 < marks.len() {
            marks[i + 1].0
        } else {
            text.len()
        };
        assert(nodes[i as int] == (start as int, id as int));
        assert(i + 1 < marks@.len() ==> nodes[i + 1].0 == marks@[i + 1].0);
        let block = slice_subrange(text.as_slice(), start, end);
        streams.push(describe(id, block));
        assert(streams@ =~= streams_of(info@, nodes).take(i + 1));
        i += 1;
    }
    assert(streams_of(info@, nodes).take(i as int) =~= streams_of(info@, nodes));
    streams
}

} // verus!
