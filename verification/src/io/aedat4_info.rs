//! The document in an AEDAT 4 header that declares the single stream of events.

use vstd::prelude::*;
use vstd::string::*;

use crate::chars::{
    all_digits, decimal, decimal_round_trip, decimal_short, decimal_string, digits_value,
    find_char, find_text, is_digit, parsed, parsed_signed,
};
use crate::io::aedat4_streams::{
    attribute_of, declared_size, declared_streams, described, kind_named, node_text, numbered_nodes,
    streams_of, Kind, Stream,
};
use crate::io::compression::Compression;

verus! {

/// The name of a scheme.
pub open spec fn scheme_name(c: Compression) -> Seq<char> {
    match c {
        Compression::Uncompressed => "NONE"@,
        Compression::Lz4 => "LZ4"@,
        Compression::Zstd => "ZSTD"@,
    }
}

/// The document piece by piece.
pub open spec fn info_pieces(width: int, height: int, c: Compression) -> Seq<Seq<char>> {
    seq![
        "<?xml version=\"1.0\" encoding=\"UTF-8\" standalone=\"yes\"?>\n"@,
        "<dv version=\"2.0\">\n"@,
        "    <node name=\"outInfo\" path=\"/outInfo/\">\n"@,
        "        <node name=\"0\" path=\"/outInfo/0/\">\n"@,
        "            <attr key=\"compression\" type=\"string\">"@,
        scheme_name(c),
        "</attr>\n"@,
        "            <attr key=\"originalModuleName\" type=\"string\">eventcv</attr>\n"@,
        "            <attr key=\"originalOutputName\" type=\"string\">events</attr>\n"@,
        "            <attr key=\"typeDescription\" type=\"string\">Event data.</attr>\n"@,
        "            <attr key=\"typeIdentifier\" type=\"string\">EVTS</attr>\n"@,
        "            <node name=\"info\" path=\"/outInfo/0/info/\">\n"@,
        "                <attr key=\"sizeX\" type=\"int\">"@,
        decimal(width as nat),
        "</attr>\n"@,
        "                <attr key=\"sizeY\" type=\"int\">"@,
        decimal(height as nat),
        "</attr>\n"@,
        "                <attr key=\"source\" type=\"string\">eventcv</attr>\n"@,
        "            </node>\n"@,
        "        </node>\n"@,
        "    </node>\n"@,
        "</dv>\n"@,
    ]
}

/// Pieces of text one after the other.
pub open spec fn spliced(pieces: Seq<Seq<char>>) -> Seq<char>
    decreases pieces.len(),
{
    if pieces.len() == 0 {
        Seq::empty()
    } else {
        spliced(pieces.drop_last()) + pieces.last()
    }
}

/// The document declaring the single stream of events.
#[verifier::opaque]
pub open spec fn info_document(width: int, height: int, c: Compression) -> Seq<char> {
    spliced(info_pieces(width, height, c))
}

/// Adds a piece to a document.
fn add_piece(text: &mut String, piece: &str, Ghost(pieces): Ghost<Seq<Seq<char>>>, Ghost(k): Ghost<
    int,
>)
    requires
        0 <= k < pieces.len(),
        old(text)@ == spliced(pieces.take(k)),
        piece@ == pieces[k],
    ensures
        final(text)@ == spliced(pieces.take(k + 1)),
{
    text.append(piece);
    assert(pieces.take(k + 1).drop_last() =~= pieces.take(k));
}

/// Writes the document declaring the single stream of events.
pub fn info_node(width: usize, height: usize, compression: Compression) -> (info: String)
    ensures
        info@ == info_document(width as int, height as int, compression),
{
    let name = match compression {
        Compression::Uncompressed => "NONE",
        Compression::Lz4 => "LZ4",
        Compression::Zstd => "ZSTD",
    };
    let w = decimal_string(width as u64);
    let h = decimal_string(height as u64);
    let ghost pieces = info_pieces(width as int, height as int, compression);
    let mut info = String::new();
    assert(pieces.take(0) =~= Seq::<Seq<char>>::empty());
    add_piece(
        &mut info,
        "<?xml version=\"1.0\" encoding=\"UTF-8\" standalone=\"yes\"?>\n",
        Ghost(pieces),
        Ghost(0),
    );
    add_piece(
        &mut info,
        "<dv version=\"2.0\">\n",
        Ghost(pieces),
        Ghost(1),
    );
    add_piece(
        &mut info,
        "    <node name=\"outInfo\" path=\"/outInfo/\">\n",
        Ghost(pieces),
        Ghost(2),
    );
    add_piece(
        &mut info,
        "        <node name=\"0\" path=\"/outInfo/0/\">\n",
        Ghost(pieces),
        Ghost(3),
    );
    add_piece(
        &mut info,
        "            <attr key=\"compression\" type=\"string\">",
        Ghost(pieces),
        Ghost(4),
    );
    add_piece(
        &mut info,
        name,
        Ghost(pieces),
        Ghost(5),
    );
    add_piece(
        &mut info,
        "</attr>\n",
        Ghost(pieces),
        Ghost(6),
    );
    add_piece(
        &mut info,
        "            <attr key=\"originalModuleName\" type=\"string\">eventcv</attr>\n",
        Ghost(pieces),
        Ghost(7),
    );
    add_piece(
        &mut info,
        "            <attr key=\"originalOutputName\" type=\"string\">events</attr>\n",
        Ghost(pieces),
        Ghost(8),
    );
    add_piece(
        &mut info,
        "            <attr key=\"typeDescription\" type=\"string\">Event data.</attr>\n",
        Ghost(pieces),
        Ghost(9),
    );
    add_piece(
        &mut info,
        "            <attr key=\"typeIdentifier\" type=\"string\">EVTS</attr>\n",
        Ghost(pieces),
        Ghost(10),
    );
    add_piece(
        &mut info,
        "            <node name=\"info\" path=\"/outInfo/0/info/\">\n",
        Ghost(pieces),
        Ghost(11),
    );
    add_piece(
        &mut info,
        "                <attr key=\"sizeX\" type=\"int\">",
        Ghost(pieces),
        Ghost(12),
    );
    add_piece(
        &mut info,
        w.as_str(),
        Ghost(pieces),
        Ghost(13),
    );
    add_piece(
        &mut info,
        "</attr>\n",
        Ghost(pieces),
        Ghost(14),
    );
    add_piece(
        &mut info,
        "                <attr key=\"sizeY\" type=\"int\">",
        Ghost(pieces),
        Ghost(15),
    );
    add_piece(
        &mut info,
        h.as_str(),
        Ghost(pieces),
        Ghost(16),
    );
    add_piece(
        &mut info,
        "</attr>\n",
        Ghost(pieces),
        Ghost(17),
    );
    add_piece(
        &mut info,
        "                <attr key=\"source\" type=\"string\">eventcv</attr>\n",
        Ghost(pieces),
        Ghost(18),
    );
    add_piece(
        &mut info,
        "            </node>\n",
        Ghost(pieces),
        Ghost(19),
    );
    add_piece(
        &mut info,
        "        </node>\n",
        Ghost(pieces),
        Ghost(20),
    );
    add_piece(
        &mut info,
        "    </node>\n",
        Ghost(pieces),
        Ghost(21),
    );
    add_piece(
        &mut info,
        "</dv>\n",
        Ghost(pieces),
        Ghost(22),
    );
    assert(pieces.take(23) =~= pieces);
    reveal(info_document);
    info
}

/// A text stands at a place of another.
spec fn stands(s: Seq<char>, at: int, p: Seq<char>) -> bool {
    &&& 0 <= at
    &&& at + p.len() <= s.len()
    &&& s.subrange(at, at + p.len()) == p
}

/// No node starts between two places.
spec fn node_free(p: Seq<char>, a: int, b: int) -> bool {
    forall|i: int| a <= i < b ==> (#[trigger] p[i] == '<' ==> i + 1 < p.len() && p[i + 1] != 'n')
}

/// No key whose fifth letter is `x` stands from a place on.
spec fn key_free(p: Seq<char>, x: char, a: int) -> bool {
    forall|i: int| a <= i < p.len() ==> (#[trigger] p[i] == 'k' ==> i + 9 < p.len() && p[i + 9] != x)
}

/// A character does not occur between two places.
spec fn lacks(p: Seq<char>, c: char, a: int, b: int) -> bool {
    forall|i: int| a <= i < b ==> #[trigger] p[i] != c
}

proof fn char_of(s: Seq<char>, at: int, p: Seq<char>, i: int)
    requires
        stands(s, at, p),
        0 <= i < p.len(),
    ensures
        s[at + i] == p[i],
{
    assert(s.subrange(at, at + p.len())[i] == s[at + i]);
}

/// A search moves past places where the text does not stand.
proof fn search_past(s: Seq<char>, text: Seq<char>, a: int, b: int)
    requires
        0 <= a <= b <= s.len(),
        forall|i: int|
            a <= i < b && i + text.len() <= s.len() ==> #[trigger] s.subrange(i, i + text.len())
                != text,
    ensures
        find_text(s, text, a) == find_text(s, text, b),
    decreases b - a,
{
    if a < b {
        search_past(s, text, a + 1, b);
        if a + text.len() <= s.len() {
            assert(s.subrange(a, a + text.len()) != text);
        }
    }
}

proof fn node_text_starts()
    ensures
        node_text().len() == 12,
        node_text()[0] == '<',
        node_text()[1] == 'n',
{
    reveal_strlit("<node name=\"");
}

/// A search for a node moves past a piece without one.
proof fn past_piece(s: Seq<char>, at: int, p: Seq<char>, a: int, b: int)
    requires
        stands(s, at, p),
        0 <= a <= b <= p.len(),
        node_free(p, a, b),
    ensures
        find_text(s, node_text(), at + a) == find_text(s, node_text(), at + b),
{
    node_text_starts();
    let text = node_text();
    assert forall|i: int| at + a <= i < at + b && i + text.len() <= s.len() implies #[trigger]
        s.subrange(i, i + text.len()) != text by {
        char_of(s, at, p, i - at);
        let here = s.subrange(i, i + text.len());
        assert(here[0] == p[i - at]);
        if p[i - at] == '<' {
            char_of(s, at, p, i - at + 1);
            assert(here[1] == p[i - at + 1]);
        }
    }
    search_past(s, text, at + a, at + b);
}

/// A search for a node finds the one in a piece.
proof fn at_node(s: Seq<char>, at: int, p: Seq<char>, h: int)
    requires
        stands(s, at, p),
        0 <= h,
        h + 12 <= p.len(),
        p.subrange(h, h + 12) == node_text(),
    ensures
        find_text(s, node_text(), at + h) == Some(at + h),
{
    node_text_starts();
    assert(s.subrange(at + h, at + h + 12) =~= s.subrange(at, at + p.len()).subrange(h, h + 12));
}

/// A search for a key moves past a piece without one of that letter.
proof fn past_keys(s: Seq<char>, at: int, p: Seq<char>, text: Seq<char>, a: int)
    requires
        stands(s, at, p),
        0 <= a <= p.len(),
        text.len() > 9,
        text[0] == 'k',
        key_free(p, text[9], a),
    ensures
        find_text(s, text, at + a) == find_text(s, text, at + p.len()),
{
    assert forall|i: int| at + a <= i < at + p.len() && i + text.len() <= s.len() implies #[trigger]
        s.subrange(i, i + text.len()) != text by {
        char_of(s, at, p, i - at);
        let here = s.subrange(i, i + text.len());
        assert(here[0] == p[i - at]);
        if p[i - at] == 'k' {
            char_of(s, at, p, i - at + 9);
            assert(here[9] == p[i - at + 9]);
        }
    }
    search_past(s, text, at + a, (at + p.len()) as int);
}

/// A search for a key moves up to the one in a piece and finds it.
proof fn at_key(s: Seq<char>, at: int, p: Seq<char>, text: Seq<char>, h: int)
    requires
        stands(s, at, p),
        0 <= h,
        h + text.len() <= p.len(),
        text.len() > 0,
        text[0] == 'k',
        lacks(p, 'k', 0, h),
        p.subrange(h, h + text.len()) == text,
    ensures
        find_text(s, text, at) == Some(at + h),
{
    assert forall|i: int| at <= i < at + h && i + text.len() <= s.len() implies #[trigger]
        s.subrange(i, i + text.len()) != text by {
        char_of(s, at, p, i - at);
        assert(s.subrange(i, i + text.len())[0] == p[i - at]);
    }
    search_past(s, text, at, at + h);
    assert(s.subrange(at + h, at + h + text.len()) =~= s.subrange(at, at + p.len()).subrange(
        h,
        h + text.len(),
    ));
}

/// A search for a character moves past a piece without it.
proof fn past_chars(s: Seq<char>, at: int, p: Seq<char>, c: char, a: int, b: int)
    requires
        stands(s, at, p),
        0 <= a <= b <= p.len(),
        lacks(p, c, a, b),
    ensures
        find_char(s, c, at + a) == find_char(s, c, at + b),
    decreases b - a,
{
    if a < b {
        char_of(s, at, p, a);
        past_chars(s, at, p, c, a + 1, b);
    }
}

/// Where the `k`-th piece starts.
spec fn piece_start(pieces: Seq<Seq<char>>, k: int) -> int {
    spliced(pieces.take(k)).len() as int
}

/// Every piece stands where it starts.
proof fn piece_stands(pieces: Seq<Seq<char>>, k: int)
    requires
        0 <= k < pieces.len(),
    ensures
        stands(spliced(pieces), piece_start(pieces, k), pieces[k]),
        piece_start(pieces, k + 1) == piece_start(pieces, k) + pieces[k].len(),
    decreases pieces.len(),
{
    let rest = pieces.drop_last();
    assert(pieces.take(k + 1).drop_last() =~= pieces.take(k));
    assert(pieces.take(k + 1).last() == pieces[k]);
    let at = piece_start(pieces, k);
    if k == pieces.len() - 1 {
        assert(pieces.take(k) =~= rest);
        assert(spliced(pieces).subrange(at, at + pieces[k].len()) =~= pieces[k]);
    } else {
        piece_stands(rest, k);
        assert(rest.take(k) =~= pieces.take(k));
        assert(spliced(pieces).subrange(at, at + pieces[k].len()) =~= spliced(rest).subrange(
            at,
            at + pieces[k].len(),
        ));
    }
}

proof fn xml_facts()
    ensures
        "<?xml version=\"1.0\" encoding=\"UTF-8\" standalone=\"yes\"?>\n"@.len() == 56,
        node_free("<?xml version=\"1.0\" encoding=\"UTF-8\" standalone=\"yes\"?>\n"@, 0, 56),
{
    reveal_strlit("<?xml version=\"1.0\" encoding=\"UTF-8\" standalone=\"yes\"?>\n");
}

proof fn dv_facts()
    ensures
        "<dv version=\"2.0\">\n"@.len() == 19,
        node_free("<dv version=\"2.0\">\n"@, 0, 19),
{
    reveal_strlit("<dv version=\"2.0\">\n");
}

proof fn out_info_facts()
    ensures
        "    <node name=\"outInfo\" path=\"/outInfo/\">\n"@.len() == 43,
        node_free("    <node name=\"outInfo\" path=\"/outInfo/\">\n"@, 0, 4),
        node_free("    <node name=\"outInfo\" path=\"/outInfo/\">\n"@, 16, 43),
        lacks("    <node name=\"outInfo\" path=\"/outInfo/\">\n"@, '"', 16, 23),
        "    <node name=\"outInfo\" path=\"/outInfo/\">\n"@[23] == '"',
{
    reveal_strlit("    <node name=\"outInfo\" path=\"/outInfo/\">\n");
}

proof fn stream_node_facts()
    ensures
        "        <node name=\"0\" path=\"/outInfo/0/\">\n"@.len() == 43,
        node_free("        <node name=\"0\" path=\"/outInfo/0/\">\n"@, 0, 8),
        node_free("        <node name=\"0\" path=\"/outInfo/0/\">\n"@, 20, 43),
        lacks("        <node name=\"0\" path=\"/outInfo/0/\">\n"@, '"', 20, 21),
        "        <node name=\"0\" path=\"/outInfo/0/\">\n"@[21] == '"',
{
    reveal_strlit("        <node name=\"0\" path=\"/outInfo/0/\">\n");
}

proof fn scheme_open_facts()
    ensures
        "            <attr key=\"compression\" type=\"string\">"@.len() == 50,
        node_free("            <attr key=\"compression\" type=\"string\">"@, 0, 50),
{
    reveal_strlit("            <attr key=\"compression\" type=\"string\">");
}

proof fn close_facts()
    ensures
        "</attr>\n"@.len() == 8,
        node_free("</attr>\n"@, 0, 8),
{
    reveal_strlit("</attr>\n");
}

proof fn module_facts()
    ensures
        "            <attr key=\"originalModuleName\" type=\"string\">eventcv</attr>\n"@.len() == 72,
        node_free("            <attr key=\"originalModuleName\" type=\"string\">eventcv</attr>\n"@, 0, 72),
{
    reveal_strlit("            <attr key=\"originalModuleName\" type=\"string\">eventcv</attr>\n");
}

proof fn output_facts()
    ensures
        "            <attr key=\"originalOutputName\" type=\"string\">events</attr>\n"@.len() == 71,
        node_free("            <attr key=\"originalOutputName\" type=\"string\">events</attr>\n"@, 0, 71),
{
    reveal_strlit("            <attr key=\"originalOutputName\" type=\"string\">events</attr>\n");
}

proof fn description_facts()
    ensures
        "            <attr key=\"typeDescription\" type=\"string\">Event data.</attr>\n"@.len() == 73,
        node_free("            <attr key=\"typeDescription\" type=\"string\">Event data.</attr>\n"@, 0, 73),
{
    reveal_strlit("            <attr key=\"typeDescription\" type=\"string\">Event data.</attr>\n");
}

proof fn identifier_facts()
    ensures
        "            <attr key=\"typeIdentifier\" type=\"string\">EVTS</attr>\n"@.len() == 65,
        node_free("            <attr key=\"typeIdentifier\" type=\"string\">EVTS</attr>\n"@, 0, 65),
{
    reveal_strlit("            <attr key=\"typeIdentifier\" type=\"string\">EVTS</attr>\n");
}

proof fn info_node_facts()
    ensures
        "            <node name=\"info\" path=\"/outInfo/0/info/\">\n"@.len() == 55,
        node_free("            <node name=\"info\" path=\"/outInfo/0/info/\">\n"@, 0, 12),
        node_free("            <node name=\"info\" path=\"/outInfo/0/info/\">\n"@, 24, 55),
        lacks("            <node name=\"info\" path=\"/outInfo/0/info/\">\n"@, '"', 24, 28),
        "            <node name=\"info\" path=\"/outInfo/0/info/\">\n"@[28] == '"',
{
    reveal_strlit("            <node name=\"info\" path=\"/outInfo/0/info/\">\n");
}

proof fn width_open_facts()
    ensures
        "                <attr key=\"sizeX\" type=\"int\">"@.len() == 45,
        node_free("                <attr key=\"sizeX\" type=\"int\">"@, 0, 45),
{
    reveal_strlit("                <attr key=\"sizeX\" type=\"int\">");
}

proof fn height_open_facts()
    ensures
        "                <attr key=\"sizeY\" type=\"int\">"@.len() == 45,
        node_free("                <attr key=\"sizeY\" type=\"int\">"@, 0, 45),
{
    reveal_strlit("                <attr key=\"sizeY\" type=\"int\">");
}

proof fn source_facts()
    ensures
        "                <attr key=\"source\" type=\"string\">eventcv</attr>\n"@.len() == 64,
        node_free("                <attr key=\"source\" type=\"string\">eventcv</attr>\n"@, 0, 64),
{
    reveal_strlit("                <attr key=\"source\" type=\"string\">eventcv</attr>\n");
}

proof fn end_info_facts()
    ensures
        "            </node>\n"@.len() == 20,
        node_free("            </node>\n"@, 0, 20),
{
    reveal_strlit("            </node>\n");
}

proof fn end_stream_facts()
    ensures
        "        </node>\n"@.len() == 16,
        node_free("        </node>\n"@, 0, 16),
{
    reveal_strlit("        </node>\n");
}

proof fn end_out_facts()
    ensures
        "    </node>\n"@.len() == 12,
        node_free("    </node>\n"@, 0, 12),
{
    reveal_strlit("    </node>\n");
}

proof fn end_dv_facts()
    ensures
        "</dv>\n"@.len() == 6,
        node_free("</dv>\n"@, 0, 6),
{
    reveal_strlit("</dv>\n");
}

proof fn out_info_named()
    ensures
        "    <node name=\"outInfo\" path=\"/outInfo/\">\n"@.subrange(4, 16) == node_text(),
        "    <node name=\"outInfo\" path=\"/outInfo/\">\n"@.subrange(16, 23) == "outInfo"@,
{
    reveal_strlit("    <node name=\"outInfo\" path=\"/outInfo/\">\n");
    reveal_strlit("<node name=\"");
    reveal_strlit("outInfo");
    assert("    <node name=\"outInfo\" path=\"/outInfo/\">\n"@.subrange(4, 16) =~= node_text());
    assert("    <node name=\"outInfo\" path=\"/outInfo/\">\n"@.subrange(16, 23) =~= "outInfo"@);
}

proof fn stream_node_named()
    ensures
        "        <node name=\"0\" path=\"/outInfo/0/\">\n"@.subrange(8, 20) == node_text(),
        "        <node name=\"0\" path=\"/outInfo/0/\">\n"@.subrange(20, 21) == "0"@,
{
    reveal_strlit("        <node name=\"0\" path=\"/outInfo/0/\">\n");
    reveal_strlit("<node name=\"");
    reveal_strlit("0");
    assert("        <node name=\"0\" path=\"/outInfo/0/\">\n"@.subrange(8, 20) =~= node_text());
    assert("        <node name=\"0\" path=\"/outInfo/0/\">\n"@.subrange(20, 21) =~= "0"@);
}

proof fn info_node_named()
    ensures
        "            <node name=\"info\" path=\"/outInfo/0/info/\">\n"@.subrange(12, 24) == node_text(),
        "            <node name=\"info\" path=\"/outInfo/0/info/\">\n"@.subrange(24, 28) == "info"@,
{
    reveal_strlit("            <node name=\"info\" path=\"/outInfo/0/info/\">\n");
    reveal_strlit("<node name=\"");
    reveal_strlit("info");
    assert("            <node name=\"info\" path=\"/outInfo/0/info/\">\n"@.subrange(12, 24) =~= node_text());
    assert("            <node name=\"info\" path=\"/outInfo/0/info/\">\n"@.subrange(24, 28) =~= "info"@);
}

proof fn stream_node_keys()
    ensures
        key_free("        <node name=\"0\" path=\"/outInfo/0/\">\n"@, 'I', 20),
        key_free("        <node name=\"0\" path=\"/outInfo/0/\">\n"@, 'X', 20),
        key_free("        <node name=\"0\" path=\"/outInfo/0/\">\n"@, 'Y', 20),
{
    reveal_strlit("        <node name=\"0\" path=\"/outInfo/0/\">\n");
}

proof fn scheme_open_keys()
    ensures
        key_free("            <attr key=\"compression\" type=\"string\">"@, 'I', 0),
        key_free("            <attr key=\"compression\" type=\"string\">"@, 'X', 0),
        key_free("            <attr key=\"compression\" type=\"string\">"@, 'Y', 0),
{
    reveal_strlit("            <attr key=\"compression\" type=\"string\">");
}

proof fn close_keys()
    ensures
        key_free("</attr>\n"@, 'I', 0),
        key_free("</attr>\n"@, 'X', 0),
        key_free("</attr>\n"@, 'Y', 0),
{
    reveal_strlit("</attr>\n");
}

proof fn module_keys()
    ensures
        key_free("            <attr key=\"originalModuleName\" type=\"string\">eventcv</attr>\n"@, 'I', 0),
        key_free("            <attr key=\"originalModuleName\" type=\"string\">eventcv</attr>\n"@, 'X', 0),
        key_free("            <attr key=\"originalModuleName\" type=\"string\">eventcv</attr>\n"@, 'Y', 0),
{
    reveal_strlit("            <attr key=\"originalModuleName\" type=\"string\">eventcv</attr>\n");
}

proof fn output_keys()
    ensures
        key_free("            <attr key=\"originalOutputName\" type=\"string\">events</attr>\n"@, 'I', 0),
        key_free("            <attr key=\"originalOutputName\" type=\"string\">events</attr>\n"@, 'X', 0),
        key_free("            <attr key=\"originalOutputName\" type=\"string\">events</attr>\n"@, 'Y', 0),
{
    reveal_strlit("            <attr key=\"originalOutputName\" type=\"string\">events</attr>\n");
}

proof fn description_keys()
    ensures
        key_free("            <attr key=\"typeDescription\" type=\"string\">Event data.</attr>\n"@, 'I', 0),
        key_free("            <attr key=\"typeDescription\" type=\"string\">Event data.</attr>\n"@, 'X', 0),
        key_free("            <attr key=\"typeDescription\" type=\"string\">Event data.</attr>\n"@, 'Y', 0),
{
    reveal_strlit("            <attr key=\"typeDescription\" type=\"string\">Event data.</attr>\n");
}

proof fn identifier_keys()
    ensures
        key_free("            <attr key=\"typeIdentifier\" type=\"string\">EVTS</attr>\n"@, 'X', 0),
        key_free("            <attr key=\"typeIdentifier\" type=\"string\">EVTS</attr>\n"@, 'Y', 0),
{
    reveal_strlit("            <attr key=\"typeIdentifier\" type=\"string\">EVTS</attr>\n");
}

proof fn info_node_keys()
    ensures
        key_free("            <node name=\"info\" path=\"/outInfo/0/info/\">\n"@, 'X', 0),
        key_free("            <node name=\"info\" path=\"/outInfo/0/info/\">\n"@, 'Y', 0),
{
    reveal_strlit("            <node name=\"info\" path=\"/outInfo/0/info/\">\n");
}

proof fn width_open_keys()
    ensures
        key_free("                <attr key=\"sizeX\" type=\"int\">"@, 'Y', 0),
{
    reveal_strlit("                <attr key=\"sizeX\" type=\"int\">");
}

proof fn identifier_key()
    ensures
        lacks("            <attr key=\"typeIdentifier\" type=\"string\">EVTS</attr>\n"@, 'k', 0, 18),
        "            <attr key=\"typeIdentifier\" type=\"string\">EVTS</attr>\n"@.subrange(18, 38) == "key=\""@ + "typeIdentifier"@ + "\""@,
        lacks("            <attr key=\"typeIdentifier\" type=\"string\">EVTS</attr>\n"@, '>', 18, 52),
        "            <attr key=\"typeIdentifier\" type=\"string\">EVTS</attr>\n"@[52] == '>',
        ("key=\""@ + "typeIdentifier"@ + "\""@).len() == 20,
        ("key=\""@ + "typeIdentifier"@ + "\""@)[0] == 'k',
        ("key=\""@ + "typeIdentifier"@ + "\""@)[9] == 'I',
{
    reveal_strlit("            <attr key=\"typeIdentifier\" type=\"string\">EVTS</attr>\n");
    reveal_strlit("key=\"");
    reveal_strlit("typeIdentifier");
    reveal_strlit("\"");
    assert("            <attr key=\"typeIdentifier\" type=\"string\">EVTS</attr>\n"@.subrange(18, 38) =~= "key=\""@ + "typeIdentifier"@ + "\""@);
}

proof fn width_open_key()
    ensures
        lacks("                <attr key=\"sizeX\" type=\"int\">"@, 'k', 0, 22),
        "                <attr key=\"sizeX\" type=\"int\">"@.subrange(22, 33) == "key=\""@ + "sizeX"@ + "\""@,
        lacks("                <attr key=\"sizeX\" type=\"int\">"@, '>', 22, 44),
        "                <attr key=\"sizeX\" type=\"int\">"@[44] == '>',
        ("key=\""@ + "sizeX"@ + "\""@).len() == 11,
        ("key=\""@ + "sizeX"@ + "\""@)[0] == 'k',
        ("key=\""@ + "sizeX"@ + "\""@)[9] == 'X',
{
    reveal_strlit("                <attr key=\"sizeX\" type=\"int\">");
    reveal_strlit("key=\"");
    reveal_strlit("sizeX");
    reveal_strlit("\"");
    assert("                <attr key=\"sizeX\" type=\"int\">"@.subrange(22, 33) =~= "key=\""@ + "sizeX"@ + "\""@);
}

proof fn height_open_key()
    ensures
        lacks("                <attr key=\"sizeY\" type=\"int\">"@, 'k', 0, 22),
        "                <attr key=\"sizeY\" type=\"int\">"@.subrange(22, 33) == "key=\""@ + "sizeY"@ + "\""@,
        lacks("                <attr key=\"sizeY\" type=\"int\">"@, '>', 22, 44),
        "                <attr key=\"sizeY\" type=\"int\">"@[44] == '>',
        ("key=\""@ + "sizeY"@ + "\""@).len() == 11,
        ("key=\""@ + "sizeY"@ + "\""@)[0] == 'k',
        ("key=\""@ + "sizeY"@ + "\""@)[9] == 'Y',
{
    reveal_strlit("                <attr key=\"sizeY\" type=\"int\">");
    reveal_strlit("key=\"");
    reveal_strlit("sizeY");
    reveal_strlit("\"");
    assert("                <attr key=\"sizeY\" type=\"int\">"@.subrange(22, 33) =~= "key=\""@ + "sizeY"@ + "\""@);
}

proof fn identifier_value()
    ensures
        lacks("            <attr key=\"typeIdentifier\" type=\"string\">EVTS</attr>\n"@, '<', 53, 57),
        "            <attr key=\"typeIdentifier\" type=\"string\">EVTS</attr>\n"@[57] == '<',
        "            <attr key=\"typeIdentifier\" type=\"string\">EVTS</attr>\n"@.subrange(53, 57) == "EVTS"@,
{
    reveal_strlit("            <attr key=\"typeIdentifier\" type=\"string\">EVTS</attr>\n");
    reveal_strlit("EVTS");
    assert("            <attr key=\"typeIdentifier\" type=\"string\">EVTS</attr>\n"@.subrange(53, 57) =~= "EVTS"@);
}

/// The names of schemes hold no markup.
proof fn scheme_facts(c: Compression)
    ensures
        scheme_name(c).len() <= 4,
        node_free(scheme_name(c), 0, scheme_name(c).len() as int),
        forall|x: char| #[trigger] key_free(scheme_name(c), x, 0),
{
    reveal_strlit("NONE");
    reveal_strlit("LZ4");
    reveal_strlit("ZSTD");
}

/// Digits are no markup.
proof fn digits_facts(n: u64)
    ensures
        1 <= decimal(n as nat).len() <= 20,
        node_free(decimal(n as nat), 0, decimal(n as nat).len() as int),
        forall|x: char| #[trigger] key_free(decimal(n as nat), x, 0),
        lacks(decimal(n as nat), '<', 0, decimal(n as nat).len() as int),
{
    decimal_short(n);
    decimal_round_trip(n as nat);
    let d = decimal(n as nat);
    assert forall|i: int| 0 <= i < d.len() implies '0' <= #[trigger] d[i] <= '9' by {
        assert(is_digit(d[i]));
    }
}

proof fn spliced_len(pieces: Seq<Seq<char>>, n: int)
    requires
        forall|i: int| 0 <= i < pieces.len() ==> (#[trigger] pieces[i]).len() <= n,
        n >= 0,
    ensures
        spliced(pieces).len() <= n * pieces.len(),
    decreases pieces.len(),
{
    if pieces.len() > 0 {
        let rest = pieces.drop_last();
        assert forall|i: int| 0 <= i < rest.len() implies (#[trigger] rest[i]).len() <= n by {
            assert(rest[i] == pieces[i]);
        }
        spliced_len(rest, n);
        assert(pieces[pieces.len() - 1].len() <= n);
        assert(n * (pieces.len() - 1) + n == n * pieces.len()) by (nonlinear_arith);
    }
}

/// The document is short.
pub proof fn info_len(width: usize, height: usize, c: Compression)
    ensures
        info_document(width as int, height as int, c).len() <= 2000,
{
    let pieces = info_pieces(width as int, height as int, c);
    xml_facts();
    dv_facts();
    out_info_facts();
    stream_node_facts();
    scheme_open_facts();
    close_facts();
    module_facts();
    output_facts();
    description_facts();
    identifier_facts();
    info_node_facts();
    width_open_facts();
    height_open_facts();
    source_facts();
    end_info_facts();
    end_stream_facts();
    end_out_facts();
    end_dv_facts();
    scheme_facts(c);
    digits_facts(width as u64);
    digits_facts(height as u64);
    assert forall|i: int| 0 <= i < pieces.len() implies (#[trigger] pieces[i]).len() <= 80 by {}
    spliced_len(pieces, 80);
    reveal(info_document);
}

/// The start of the name of the stream's node.
spec fn stream_name_at(pieces: Seq<Seq<char>>) -> int {
    piece_start(pieces, 3) + 20
}

/// A search for a node from the start finds the outermost one.
proof fn first_node(width: usize, height: usize, c: Compression)
    ensures
        ({
            let pieces = info_pieces(width as int, height as int, c);
            find_text(spliced(pieces), node_text(), 0) == Some(piece_start(pieces, 2) + 4)
        }),
{
    let pieces = info_pieces(width as int, height as int, c);
    let s = spliced(pieces);
    xml_facts();
    dv_facts();
    out_info_facts();
    out_info_named();
    piece_stands(pieces, 0);
    piece_stands(pieces, 1);
    piece_stands(pieces, 2);
    assert(pieces.take(0) =~= Seq::<Seq<char>>::empty());
    past_piece(s, piece_start(pieces, 0), pieces[0], 0, pieces[0].len() as int);
    past_piece(s, piece_start(pieces, 1), pieces[1], 0, pieces[1].len() as int);
    past_piece(s, piece_start(pieces, 2), pieces[2], 0, 4);
    at_node(s, piece_start(pieces, 2), pieces[2], 4);
}

/// The next node is the stream's.
proof fn second_node(width: usize, height: usize, c: Compression)
    ensures
        ({
            let pieces = info_pieces(width as int, height as int, c);
            find_text(spliced(pieces), node_text(), piece_start(pieces, 2) + 16) == Some(
                piece_start(pieces, 3) + 8,
            )
        }),
{
    let pieces = info_pieces(width as int, height as int, c);
    let s = spliced(pieces);
    out_info_facts();
    stream_node_facts();
    stream_node_named();
    piece_stands(pieces, 2);
    piece_stands(pieces, 3);
    past_piece(s, piece_start(pieces, 2), pieces[2], 16, pieces[2].len() as int);
    past_piece(s, piece_start(pieces, 3), pieces[3], 0, 8);
    at_node(s, piece_start(pieces, 3), pieces[3], 8);
}

/// The next node holds the resolution.
proof fn third_node(width: usize, height: usize, c: Compression)
    ensures
        ({
            let pieces = info_pieces(width as int, height as int, c);
            find_text(spliced(pieces), node_text(), piece_start(pieces, 3) + 20) == Some(
                piece_start(pieces, 11) + 12,
            )
        }),
{
    let pieces = info_pieces(width as int, height as int, c);
    let s = spliced(pieces);
    stream_node_facts();
    scheme_open_facts();
    scheme_facts(c);
    close_facts();
    module_facts();
    output_facts();
    description_facts();
    identifier_facts();
    info_node_facts();
    info_node_named();
    piece_stands(pieces, 3);
    piece_stands(pieces, 4);
    piece_stands(pieces, 5);
    piece_stands(pieces, 6);
    piece_stands(pieces, 7);
    piece_stands(pieces, 8);
    piece_stands(pieces, 9);
    piece_stands(pieces, 10);
    piece_stands(pieces, 11);
    past_piece(s, piece_start(pieces, 3), pieces[3], 20, pieces[3].len() as int);
    past_piece(s, piece_start(pieces, 4), pieces[4], 0, pieces[4].len() as int);
    past_piece(s, piece_start(pieces, 5), pieces[5], 0, pieces[5].len() as int);
    past_piece(s, piece_start(pieces, 6), pieces[6], 0, pieces[6].len() as int);
    past_piece(s, piece_start(pieces, 7), pieces[7], 0, pieces[7].len() as int);
    past_piece(s, piece_start(pieces, 8), pieces[8], 0, pieces[8].len() as int);
    past_piece(s, piece_start(pieces, 9), pieces[9], 0, pieces[9].len() as int);
    past_piece(s, piece_start(pieces, 10), pieces[10], 0, pieces[10].len() as int);
    past_piece(s, piece_start(pieces, 11), pieces[11], 0, 12);
    at_node(s, piece_start(pieces, 11), pieces[11], 12);
}

/// There are no more nodes.
proof fn no_more_nodes(width: usize, height: usize, c: Compression)
    ensures
        ({
            let pieces = info_pieces(width as int, height as int, c);
            find_text(spliced(pieces), node_text(), piece_start(pieces, 11) + 24) is None
        }),
{
    let pieces = info_pieces(width as int, height as int, c);
    let s = spliced(pieces);
    info_node_facts();
    width_open_facts();
    digits_facts(width as u64);
    close_facts();
    height_open_facts();
    digits_facts(height as u64);
    source_facts();
    end_info_facts();
    end_stream_facts();
    end_out_facts();
    end_dv_facts();
    node_text_starts();
    piece_stands(pieces, 11);
    piece_stands(pieces, 12);
    piece_stands(pieces, 13);
    piece_stands(pieces, 14);
    piece_stands(pieces, 15);
    piece_stands(pieces, 16);
    piece_stands(pieces, 17);
    piece_stands(pieces, 18);
    piece_stands(pieces, 19);
    piece_stands(pieces, 20);
    piece_stands(pieces, 21);
    piece_stands(pieces, 22);
    past_piece(s, piece_start(pieces, 11), pieces[11], 24, pieces[11].len() as int);
    past_piece(s, piece_start(pieces, 12), pieces[12], 0, pieces[12].len() as int);
    past_piece(s, piece_start(pieces, 13), pieces[13], 0, pieces[13].len() as int);
    past_piece(s, piece_start(pieces, 14), pieces[14], 0, pieces[14].len() as int);
    past_piece(s, piece_start(pieces, 15), pieces[15], 0, pieces[15].len() as int);
    past_piece(s, piece_start(pieces, 16), pieces[16], 0, pieces[16].len() as int);
    past_piece(s, piece_start(pieces, 17), pieces[17], 0, pieces[17].len() as int);
    past_piece(s, piece_start(pieces, 18), pieces[18], 0, pieces[18].len() as int);
    past_piece(s, piece_start(pieces, 19), pieces[19], 0, pieces[19].len() as int);
    past_piece(s, piece_start(pieces, 20), pieces[20], 0, pieces[20].len() as int);
    past_piece(s, piece_start(pieces, 21), pieces[21], 0, pieces[21].len() as int);
    past_piece(s, piece_start(pieces, 22), pieces[22], 0, pieces[22].len() as int);
    assert(pieces.take(23) =~= pieces);
}

/// The name of a node runs to the next quotation mark.
proof fn node_name(s: Seq<char>, at: int, p: Seq<char>, a: int, b: int)
    requires
        stands(s, at, p),
        0 <= a <= b < p.len(),
        lacks(p, '"', a, b),
        p[b] == '"',
    ensures
        find_char(s, '"', at + a) == at + b,
        s.subrange(at + a, at + b) == p.subrange(a, b),
        at + b < s.len(),
{
    past_chars(s, at, p, '"', a, b);
    char_of(s, at, p, b);
    assert(s.subrange(at + a, at + b) =~= s.subrange(at, at + p.len()).subrange(a, b));
}

proof fn names_parse()
    ensures
        parsed_signed("outInfo"@, i32::MIN as int, i32::MAX as int) is None,
        parsed_signed("info"@, i32::MIN as int, i32::MAX as int) is None,
        parsed_signed("0"@, i32::MIN as int, i32::MAX as int) == Some(0int),
{
    reveal_strlit("outInfo");
    reveal_strlit("info");
    reveal_strlit("0");
    assert(!is_digit("outInfo"@[0]));
    assert(!is_digit("info"@[0]));
    let zero = "0"@;
    assert(all_digits(zero));
    reveal_with_fuel(digits_value, 2);
    assert(zero.drop_last() =~= Seq::<char>::empty());
}

/// The document has one numbered node.
proof fn nodes_found(width: usize, height: usize, c: Compression)
    ensures
        ({
            let pieces = info_pieces(width as int, height as int, c);
            numbered_nodes(spliced(pieces), 0) == seq![(stream_name_at(pieces), 0int)]
        }),
{
    let pieces = info_pieces(width as int, height as int, c);
    let s = spliced(pieces);
    first_node(width, height, c);
    second_node(width, height, c);
    third_node(width, height, c);
    no_more_nodes(width, height, c);
    node_text_starts();
    names_parse();
    out_info_facts();
    out_info_named();
    stream_node_facts();
    stream_node_named();
    info_node_facts();
    info_node_named();
    piece_stands(pieces, 2);
    piece_stands(pieces, 3);
    piece_stands(pieces, 11);
    node_name(s, piece_start(pieces, 2), pieces[2], 16, 23);
    node_name(s, piece_start(pieces, 3), pieces[3], 20, 21);
    node_name(s, piece_start(pieces, 11), pieces[11], 24, 28);
    let a1 = piece_start(pieces, 2) + 16;
    let a2 = piece_start(pieces, 3) + 20;
    let a3 = piece_start(pieces, 11) + 24;
    starts_rise(pieces);
    assert(numbered_nodes(s, a3) =~= Seq::<(int, int)>::empty());
    assert(numbered_nodes(s, a2) == numbered_nodes(s, a3));
    assert(numbered_nodes(s, a1) =~= seq![(a2, 0int)]);
    assert(numbered_nodes(s, 0) == numbered_nodes(s, a1));
}

proof fn starts_rise(pieces: Seq<Seq<char>>)
    requires
        pieces.len() == 23,
    ensures
        0 <= piece_start(pieces, 2),
        piece_start(pieces, 2) + pieces[2].len() == piece_start(pieces, 3),
        piece_start(pieces, 3) + pieces[3].len() <= piece_start(pieces, 11),
        piece_start(pieces, 11) + pieces[11].len() <= spliced(pieces).len(),
{
    piece_stands(pieces, 2);
    piece_stands(pieces, 3);
    piece_stands(pieces, 4);
    piece_stands(pieces, 5);
    piece_stands(pieces, 6);
    piece_stands(pieces, 7);
    piece_stands(pieces, 8);
    piece_stands(pieces, 9);
    piece_stands(pieces, 10);
    piece_stands(pieces, 11);
}

/// A piece stands in the block of text of the stream.
proof fn stands_in_block(s: Seq<char>, start: int, at: int, p: Seq<char>)
    requires
        stands(s, at, p),
        0 <= start <= at,
    ensures
        stands(s.subrange(start, s.len() as int), at - start, p),
{
    let block = s.subrange(start, s.len() as int);
    assert(block.subrange(at - start, at - start + p.len()) =~= s.subrange(at, at + p.len()));
}

/// The rest of the stream's own piece opens its block.
proof fn block_opens(s: Seq<char>, at: int, p: Seq<char>, a: int)
    requires
        stands(s, at, p),
        0 <= a <= p.len(),
    ensures
        stands(s.subrange(at + a, s.len() as int), 0, p.skip(a)),
{
    let block = s.subrange(at + a, s.len() as int);
    assert(block.subrange(0, p.len() - a) =~= s.subrange(at, at + p.len()).skip(a));
}

proof fn key_free_rest(p: Seq<char>, x: char, a: int)
    requires
        key_free(p, x, a),
        0 <= a <= p.len(),
    ensures
        key_free(p.skip(a), x, 0),
{
    let rest = p.skip(a);
    assert forall|i: int| 0 <= i < rest.len() && #[trigger] rest[i] == 'k' implies i + 9 < rest.len()
        && rest[i + 9] != x by {
        assert(rest[i] == p[i + a]);
        assert(rest[i + 9] == p[i + a + 9]);
    }
}

/// The block of text of the stream.
spec fn stream_block(width: usize, height: usize, c: Compression) -> Seq<char> {
    let pieces = info_pieces(width as int, height as int, c);
    let s = spliced(pieces);
    s.subrange(stream_name_at(pieces), s.len() as int)
}

/// Where a piece stands in the block.
spec fn block_place(width: usize, height: usize, c: Compression, k: int) -> int {
    let pieces = info_pieces(width as int, height as int, c);
    piece_start(pieces, k) - stream_name_at(pieces)
}

proof fn block_piece(width: usize, height: usize, c: Compression, k: int)
    requires
        4 <= k < 23,
    ensures
        stands(
            stream_block(width, height, c),
            block_place(width, height, c, k),
            info_pieces(width as int, height as int, c)[k],
        ),
        block_place(width, height, c, k + 1) == block_place(width, height, c, k) + info_pieces(
            width as int,
            height as int,
            c,
        )[k].len(),
    decreases k,
{
    let pieces = info_pieces(width as int, height as int, c);
    stream_node_facts();
    piece_stands(pieces, 3);
    piece_stands(pieces, k);
    if k > 4 {
        block_piece(width, height, c, k - 1);
    }
    stands_in_block(
        spliced(pieces),
        stream_name_at(pieces),
        piece_start(pieces, k),
        pieces[k],
    );
}

/// A search for a key moves past the first pieces of the block.
proof fn keys_before(width: usize, height: usize, c: Compression, text: Seq<char>)
    requires
        text.len() > 9,
        text[0] == 'k',
        text[9] == 'I' || text[9] == 'X' || text[9] == 'Y',
    ensures
        find_text(stream_block(width, height, c), text, 0) == find_text(
            stream_block(width, height, c),
            text,
            block_place(width, height, c, 10),
        ),
{
    let pieces = info_pieces(width as int, height as int, c);
    let block = stream_block(width, height, c);
    stream_node_facts();
    stream_node_keys();
    scheme_open_keys();
    scheme_facts(c);
    close_keys();
    module_keys();
    output_keys();
    description_keys();
    piece_stands(pieces, 3);
    block_opens(spliced(pieces), piece_start(pieces, 3), pieces[3], 20);
    key_free_rest(pieces[3], text[9], 20);
    past_keys(block, 0, pieces[3].skip(20), text, 0);
    assert(block_place(width, height, c, 4) == pieces[3].len() - 20);
    assert(key_free(scheme_name(c), text[9], 0));
    block_piece(width, height, c, 4);
    past_keys(block, block_place(width, height, c, 4), pieces[4], text, 0);
    block_piece(width, height, c, 5);
    past_keys(block, block_place(width, height, c, 5), pieces[5], text, 0);
    block_piece(width, height, c, 6);
    past_keys(block, block_place(width, height, c, 6), pieces[6], text, 0);
    block_piece(width, height, c, 7);
    past_keys(block, block_place(width, height, c, 7), pieces[7], text, 0);
    block_piece(width, height, c, 8);
    past_keys(block, block_place(width, height, c, 8), pieces[8], text, 0);
    block_piece(width, height, c, 9);
    past_keys(block, block_place(width, height, c, 9), pieces[9], text, 0);
}

/// The type of the stream.
proof fn type_found(width: usize, height: usize, c: Compression)
    ensures
        attribute_of(stream_block(width, height, c), "typeIdentifier"@) == Some("EVTS"@),
{
    let pieces = info_pieces(width as int, height as int, c);
    let block = stream_block(width, height, c);
    let text = "key=\""@ + "typeIdentifier"@ + "\""@;
    identifier_key();
    identifier_facts();
    identifier_value();
    keys_before(width, height, c, text);
    block_piece(width, height, c, 10);
    let at = block_place(width, height, c, 10);
    at_key(block, at, pieces[10], text, 18);
    past_chars(block, at, pieces[10], '>', 18, 52);
    char_of(block, at, pieces[10], 52);
    past_chars(block, at, pieces[10], '<', 53, 57);
    char_of(block, at, pieces[10], 57);
    assert(block.subrange(at + 53, at + 57) =~= block.subrange(
        at,
        at + pieces[10].len(),
    ).subrange(53, 57));
}

/// The text between an opening tag and the markup after the next piece.
proof fn value_found(block: Seq<char>, at: int, p: Seq<char>, h: int, value: Seq<char>, next: Seq<char>)
    requires
        stands(block, at, p),
        0 <= h < p.len(),
        lacks(p, '>', h, p.len() - 1),
        p[p.len() - 1] == '>',
        stands(block, (at + p.len()) as int, value),
        lacks(value, '<', 0, value.len() as int),
        stands(block, (at + p.len() + value.len()) as int, next),
        next.len() > 0,
        next[0] == '<',
    ensures
        find_char(block, '>', at + h) == at + p.len() - 1,
        find_char(block, '<', (at + p.len()) as int) == at + p.len() + value.len(),
        block.subrange((at + p.len()) as int, (at + p.len() + value.len()) as int) == value,
        at + p.len() + value.len() < block.len(),
{
    past_chars(block, at, p, '>', h, p.len() - 1);
    char_of(block, at, p, p.len() - 1);
    past_chars(block, (at + p.len()) as int, value, '<', 0, value.len() as int);
    char_of(block, (at + p.len() + value.len()) as int, next, 0);
}

proof fn close_starts()
    ensures
        "</attr>\n"@.len() > 0,
        "</attr>\n"@[0] == '<',
{
    reveal_strlit("</attr>\n");
}

/// The width of the sensor.
proof fn width_found(width: usize, height: usize, c: Compression)
    ensures
        attribute_of(stream_block(width, height, c), "sizeX"@) == Some(decimal(width as nat)),
{
    let pieces = info_pieces(width as int, height as int, c);
    let block = stream_block(width, height, c);
    let text = "key=\""@ + "sizeX"@ + "\""@;
    width_open_key();
    width_open_facts();
    identifier_keys();
    info_node_keys();
    digits_facts(width as u64);
    close_starts();
    keys_before(width, height, c, text);
    block_piece(width, height, c, 10);
    past_keys(block, block_place(width, height, c, 10), pieces[10], text, 0);
    block_piece(width, height, c, 11);
    past_keys(block, block_place(width, height, c, 11), pieces[11], text, 0);
    block_piece(width, height, c, 12);
    block_piece(width, height, c, 13);
    block_piece(width, height, c, 14);
    let at = block_place(width, height, c, 12);
    at_key(block, at, pieces[12], text, 22);
    value_found(block, at, pieces[12], 22, pieces[13], pieces[14]);
}

/// The height of the sensor.
proof fn height_found(width: usize, height: usize, c: Compression)
    ensures
        attribute_of(stream_block(width, height, c), "sizeY"@) == Some(decimal(height as nat)),
{
    let pieces = info_pieces(width as int, height as int, c);
    let block = stream_block(width, height, c);
    let text = "key=\""@ + "sizeY"@ + "\""@;
    height_open_key();
    height_open_facts();
    identifier_keys();
    info_node_keys();
    width_open_keys();
    digits_facts(width as u64);
    digits_facts(height as u64);
    close_keys();
    close_starts();
    keys_before(width, height, c, text);
    assert(key_free(decimal(width as nat), text[9], 0));
    block_piece(width, height, c, 10);
    past_keys(block, block_place(width, height, c, 10), pieces[10], text, 0);
    block_piece(width, height, c, 11);
    past_keys(block, block_place(width, height, c, 11), pieces[11], text, 0);
    block_piece(width, height, c, 12);
    past_keys(block, block_place(width, height, c, 12), pieces[12], text, 0);
    block_piece(width, height, c, 13);
    past_keys(block, block_place(width, height, c, 13), pieces[13], text, 0);
    block_piece(width, height, c, 14);
    past_keys(block, block_place(width, height, c, 14), pieces[14], text, 0);
    block_piece(width, height, c, 15);
    block_piece(width, height, c, 16);
    block_piece(width, height, c, 17);
    let at = block_place(width, height, c, 15);
    at_key(block, at, pieces[15], text, 22);
    value_found(block, at, pieces[15], 22, pieces[16], pieces[17]);
}

proof fn size_reads(n: usize)
    ensures
        parsed(decimal(n as nat), usize::MAX as int) == Some(n as int),
{
    decimal_round_trip(n as nat);
    let d = decimal(n as nat);
    assert(is_digit(d[0]));
}

/// Reading the document back gives the one stream it declares: events from a sensor of the given
/// size.
pub proof fn document_reads(width: usize, height: usize, c: Compression)
    ensures
        declared_streams(info_document(width as int, height as int, c)) == seq![
            Stream { id: 0, kind: Kind::Events, size: Some((width, height)) },
        ],
{
    let pieces = info_pieces(width as int, height as int, c);
    let s = spliced(pieces);
    reveal(info_document);
    nodes_found(width, height, c);
    let nodes = numbered_nodes(s, 0);
    type_found(width, height, c);
    width_found(width, height, c);
    height_found(width, height, c);
    size_reads(width);
    size_reads(height);
    let block = stream_block(width, height, c);
    assert(kind_named("EVTS"@) == Kind::Events);
    assert(declared_size(block) == Some((width, height)));
    assert(described(0, block) == (Stream {
        id: 0,
        kind: Kind::Events,
        size: Some((width, height)),
    }));
    assert(streams_of(s, nodes) =~= seq![
        Stream { id: 0, kind: Kind::Events, size: Some((width, height)) },
    ]);
}

} // verus!
