//! What settings, keys and limits come to.

use vstd::prelude::*;

use crate::chars::{decimal, decimal_round_trip, find_char, find_text, trim, trim_end, trim_start, whitespace};
use crate::chars_laws::{first_char, first_text, stands_at};
use crate::io::aedat::capped;
use crate::io::aedat4::{pictured, Aedat4SliceSource, Picture, Window};
use crate::io::aedat_header::{
    after_last_dot, chip_named, key_in_header, key_in_line, quoted_from, scale_setting,
};
use crate::io::bag::{events_before, topic_or_default, BagReader};
use crate::io::h5_layout::{
    base_of, best_field, field_called, field_columns, named_columns, FieldInfo,
};
use crate::io::npz::{events_of_records, n_imagenet_outcome, NImageNetEvent};
use crate::io::text_columns::{key_column, keyed, ColumnMap, EventKeys, Role};
use crate::io::IoError;
use crate::representation::count::count_samples;
use crate::representation::{EventFrameData, normalized};
use crate::stream::{kept, EventStream, RawEvent};

verus! {

/// A limit keeps the first events, as many as it says or as there are.
pub proof fn limit_keeps_the_first(events: Seq<RawEvent>, max: Option<usize>, i: int)
    ensures
        max is None ==> capped(events, max) == events,
        max matches Some(n) ==> capped(events, max).len() == (if n < events.len() {
            n as int
        } else {
            events.len() as int
        }),
        0 <= i < capped(events, max).len() ==> capped(events, max)[i] == events[i],
{
}

/// An index window ends with the recording, and one that ends before it begins is empty.
pub proof fn index_window_is_held(source: Aedat4SliceSource, i0: usize, i1: usize, i: usize)
    ensures
        source.index_window(i0, i1) matches Window::Index(a, b) && (a <= i < b <==> i0 <= i < i1 && i
            < source.event_count()) && a <= b,
{
}

/// Frames as plain values are the frames, one by one.
pub proof fn pictures_one_by_one(frames: Seq<(i64, Picture)>, i: int)
    requires
        0 <= i < frames.len(),
    ensures
        pictured(frames).len() == frames.len(),
        pictured(frames)[i].t == frames[i].0,
        pictured(frames)[i].width == frames[i].1.width,
        pictured(frames)[i].height == frames[i].1.height,
        pictured(frames)[i].channels == frames[i].1.channels,
        pictured(frames)[i].samples == frames[i].1.samples@,
{
}

/// The last part of a class path follows its last full stop.
pub proof fn class_name_is_last(path: Seq<char>, name: Seq<char>)
    requires
        forall|i: int| 0 <= i < name.len() ==> #[trigger] name[i] != '.',
    ensures
        after_last_dot(path + seq!['.'] + name) == name,
        after_last_dot(name) == name,
    decreases name.len(),
{
    let s = path + seq!['.'] + name;
    if name.len() == 0 {
        assert(s.last() == '.');
        assert(after_last_dot(s) =~= name);
    } else {
        let rest = name.drop_last();
        assert forall|i: int| 0 <= i < rest.len() implies #[trigger] rest[i] != '.' by {
            assert(rest[i] == name[i]);
        }
        class_name_is_last(path, rest);
        assert(s.drop_last() =~= path + seq!['.'] + rest);
        assert(s.last() == name[name.len() - 1]);
        assert(name.last() == name[name.len() - 1]);
        assert(rest.push(name.last()) =~= name);
    }
}

/// A quoted text is what stands between its marker and the next quotation mark.
pub proof fn quoted_is_between(s: Seq<char>, marker: Seq<char>, at: int, found: int, end: int)
    requires
        0 <= at <= found,
        stands_at(s, marker, found),
        forall|i: int| at <= i < found ==> !#[trigger] stands_at(s, marker, i),
        found + marker.len() <= end < s.len(),
        s[end] == '"',
        forall|i: int| found + marker.len() <= i < end ==> #[trigger] s[i] != '"',
    ensures
        quoted_from(s, marker, at) == Some((s.subrange(found + marker.len(), end), end + 1)),
{
    first_text(s, marker, at);
    let k = find_text(s, marker, at);
    assert(k == Some(found)) by {
        if let Some(f) = k {
            if f < found {
                assert(stands_at(s, marker, f));
            }
        }
    }
    let start = found + marker.len();
    first_char(s, '"', start);
    let f = find_char(s, '"', start);
    if f < end {
        assert(s[f] != '"');
    }
}

/// The value of a key is the quoted text after the first mention of the key; lines before one that
/// mentions it do not count.
pub proof fn value_follows_its_key(
    header: Seq<Seq<char>>,
    key: Seq<char>,
    k: int,
    value: Seq<char>,
    next: int,
    end: int,
)
    requires
        0 <= k < header.len(),
        forall|i: int| 0 <= i < k ==> key_in_line(#[trigger] header[i], key, 0) is None,
        quoted_from(header[k], "key=\""@, 0) == Some((key, next)),
        quoted_from(header[k], "value=\""@, next) == Some((value, end)),
    ensures
        key_in_header(header, key, 0) == Some(value),
{
    passes_lines(header, key, 0, k);
}

proof fn passes_lines(header: Seq<Seq<char>>, key: Seq<char>, i: int, k: int)
    requires
        0 <= i <= k < header.len(),
        forall|j: int| 0 <= j < k ==> key_in_line(#[trigger] header[j], key, 0) is None,
    ensures
        key_in_header(header, key, i) == key_in_header(header, key, k),
    decreases k - i,
{
    if i < k {
        assert(key_in_line(header[i], key, 0) is None);
        passes_lines(header, key, i + 1, k);
    }
}

/// A full-scale setting is the number that the header gives, at most three, and zero if it gives
/// none.
pub proof fn setting_is_held(header: Seq<Seq<char>>, setting: Seq<char>, v: usize)
    requires
        chip_named(header) is Some,
    ensures
        ({
            let key = chip_named(header)->0 + ".IMU."@ + setting;
            &&& key_in_header(header, key, 0) == Some(decimal(v as nat)) ==> scale_setting(
                header,
                setting,
            ) == (if v < 3 {
                v as int
            } else {
                3
            })
            &&& key_in_header(header, key, 0) is None ==> scale_setting(header, setting) == 0
        }),
{
    let d = decimal(v as nat);
    decimal_round_trip(v as nat);
    assert(crate::chars::is_digit(d[0]) && crate::chars::is_digit(d[d.len() - 1]));
    assert(!whitespace(d[0]) && !whitespace(d[d.len() - 1]));
    assert(trim_start(d) == d);
    assert(trim_end(d) == d);
    assert(trim(d) == d);
}

/// A bag is read on the topic that was asked for, or else on that of the left camera; its sensor is
/// what it was before, or what was asked for, or what the message says.
pub proof fn bag_settings(reader: BagReader, d: Seq<u8>, topic: &str)
    ensures
        topic_or_default(Some(topic)) == topic@,
        topic_or_default(None) == "/davis/left/events"@,
        reader.size() matches Some(size) ==> reader.size_for(d) == size,
        reader.size() is None && reader.sensor() is Some ==> reader.size_for(d) == (
            (reader.sensor()->0).0 as int,
            (reader.sensor()->0).1 as int,
        ),
        reader.size() is None && reader.sensor() is None ==> reader.size_for(d)
            == crate::io::bag::array_size(d),
{
}

/// As many more events come before a chunk than before the last one as that one holds.
pub proof fn chunks_add_up(sizes: Seq<usize>, k: int)
    requires
        0 <= k < sizes.len(),
    ensures
        events_before(sizes, 0) == 0,
        events_before(sizes, k + 1) - events_before(sizes, k) == sizes[k],
{
}

/// Every key names its own column.
pub proof fn keys_name_their_columns(
    keys: EventKeys,
    header: Option<Seq<char>>,
    map: ColumnMap,
    fields: Seq<FieldInfo>,
)
    requires
        fields.len() <= usize::MAX,
    ensures
        keyed(keys, header, map) ==> key_column(keys.x@, header) == Some(map.x as int) && key_column(
            keys.y@,
            header,
        ) == Some(map.y as int) && key_column(keys.t@, header) == Some(map.t as int) && key_column(
            keys.p@,
            header,
        ) == Some(map.p as int),
        named_columns(fields, keys) matches Some(c) ==> {
            &&& field_called(fields, base_of(keys.x@), 0) == Some(c.x as int)
            &&& field_called(fields, base_of(keys.y@), 0) == Some(c.y as int)
            &&& field_called(fields, base_of(keys.t@), 0) == Some(c.t as int)
            &&& field_called(fields, base_of(keys.p@), 0) == Some(c.p as int)
        },
        field_columns(fields) matches Some(c) ==> {
            &&& best_field(fields, Role::X, fields.len() as int) == Some(c.x as int)
            &&& best_field(fields, Role::Y, fields.len() as int) == Some(c.y as int)
            &&& best_field(fields, Role::T, fields.len() as int) == Some(c.t as int)
            &&& best_field(fields, Role::P, fields.len() as int) == Some(c.p as int)
        },
{
    crate::io::layout_laws::named_field_is_first(fields, base_of(keys.x@), 0);
    crate::io::layout_laws::named_field_is_first(fields, base_of(keys.y@), 0);
    crate::io::layout_laws::named_field_is_first(fields, base_of(keys.t@), 0);
    crate::io::layout_laws::named_field_is_first(fields, base_of(keys.p@), 0);
    crate::io::layout_laws::best_field_serves(fields, Role::X, fields.len() as int);
    crate::io::layout_laws::best_field_serves(fields, Role::Y, fields.len() as int);
    crate::io::layout_laws::best_field_serves(fields, Role::T, fields.len() as int);
    crate::io::layout_laws::best_field_serves(fields, Role::P, fields.len() as int);
}

/// Records are read on a sensor of 640 by 480 unless another is asked for.
pub proof fn records_on_their_sensor(
    shape: Seq<u64>,
    list: Vec<NImageNetEvent>,
    sensor: Option<(usize, usize)>,
    stream: Result<EventStream, IoError>,
)
    requires
        shape.len() == 1,
        shape[0] <= usize::MAX,
        n_imagenet_outcome(
            shape,
            Ok::<(Vec<NImageNetEvent>, Option<String>), String>((list, None::<String>)),
            sensor,
            stream,
        ),
    ensures
        stream is Ok,
        sensor is None ==> stream->Ok_0.width() == 640 && stream->Ok_0.height() == 480,
        sensor matches Some(size) ==> stream->Ok_0.width() == size.0 && stream->Ok_0.height()
            == size.1,
        stream->Ok_0.events() == kept(
            events_of_records(list@),
            stream->Ok_0.width(),
            stream->Ok_0.height(),
        ),
{
}

/// Counts are shown as they are, or as levels if that was asked for.
pub proof fn counts_as_shown(data: EventFrameData, counts: Seq<u64>, normalize: bool)
    requires
        count_samples(data, counts, normalize),
    ensures
        !normalize ==> (data matches EventFrameData::U64(v) && v@ == counts),
        normalize ==> (data matches EventFrameData::U8(v) && v@ == normalized(counts)),
{
}

} // verus!
