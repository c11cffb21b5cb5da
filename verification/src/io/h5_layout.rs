//! Where the events of an HDF5 file are: in four datasets, or in the fields of a compound one.
//!
//! The file is opened and its datasets are listed by the caller.

use vstd::arithmetic::power2::pow2;
use vstd::prelude::*;
use vstd::string::*;

use crate::bytes::{signed, signed64};
use crate::chars::{chars_of, join2, join3, lowered, same, string_of};
use crate::io::lines::{quoted, quoted_text, texts};
use crate::io::text_columns::{fit, role_rank, EventKeys, Role};
use crate::io::IoError;

verus! {

/// What is known of a dataset: its path, how many dimensions it has and how long the first is, and
/// whether its elements are records.
#[derive(Debug)]
pub struct DatasetInfo {
    pub name: String,
    pub dimensions: usize,
    pub len: usize,
    pub compound: bool,
}

/// The place of the last slash in the first `n` characters.
pub open spec fn last_slash(s: Seq<char>, n: int) -> Option<int>
    decreases n,
{
    if n <= 0 {
        None
    } else if s[n - 1] == '/' {
        Some(n - 1)
    } else {
        last_slash(s, n - 1)
    }
}

/// The last part of a path.
pub open spec fn base_of(s: Seq<char>) -> Seq<char> {
    match last_slash(s, s.len() as int) {
        Some(at) => s.subrange(at + 1, s.len() as int),
        None => s,
    }
}

/// What comes before the last part of a path.
pub open spec fn parent_of(s: Seq<char>) -> Seq<char> {
    match last_slash(s, s.len() as int) {
        Some(at) => s.subrange(0, at),
        None => Seq::empty(),
    }
}

/// The last part of a path, and what comes before it.
pub fn split_path(name: &[char]) -> (parts: (Vec<char>, Vec<char>))
    ensures
        parts.0@ == base_of(name@),
        parts.1@ == parent_of(name@),
{
    let n: usize = name.len();
    let mut at: usize = n;
    while at > 0 && name[at - 1] != '/'
        invariant
            at <= n,
            n == name@.len(),
            last_slash(name@, n as int) == last_slash(name@, at as int),
        decreases at,
    {
        at -= 1;
    }
    if at == 0 {
        let parts = (vstd::slice::slice_to_vec(name), Vec::new());
        assert(parts.1@ =~= parent_of(name@));
        parts
    } else {
        (
            vstd::slice::slice_to_vec(vstd::slice::slice_subrange(name, at, n)),
            vstd::slice::slice_to_vec(vstd::slice::slice_subrange(name, 0, at - 1)),
        )
    }
}

/// How well a dataset serves as a column of a group.
pub open spec fn column_rank(d: DatasetInfo, parent: Seq<char>, role: Role) -> Option<int> {
    if d.dimensions == 1 && !d.compound && parent_of(d.name@) == parent {
        fit(role, lowered(base_of(d.name@)))
    } else {
        None
    }
}

/// The best dataset for a column of a group among the first `n`: of equally good ones the first.
pub open spec fn best_column(
    ds: Seq<DatasetInfo>,
    parent: Seq<char>,
    role: Role,
    n: int,
) -> Option<int>
    decreases n,
{
    if n <= 0 {
        None
    } else {
        let before = best_column(ds, parent, role, n - 1);
        let rank = column_rank(ds[n - 1], parent, role);
        match (rank, before) {
            (None, _) => before,
            (Some(r), None) => Some(n - 1),
            (Some(r), Some(b)) => if r < column_rank(ds[b], parent, role)->0 {
                Some(n - 1)
            } else {
                before
            },
        }
    }
}

/// Four columns, each by the number of its dataset.
#[derive(Clone, Copy, Debug, PartialEq, Eq, Structural)]
pub struct Columns {
    pub x: usize,
    pub y: usize,
    pub t: usize,
    pub p: usize,
}

/// The columns of a group, if it has all four and they are equally long.
pub open spec fn group_columns(ds: Seq<DatasetInfo>, parent: Seq<char>) -> Option<Columns> {
    let n = ds.len() as int;
    match (
        best_column(ds, parent, Role::X, n),
        best_column(ds, parent, Role::Y, n),
        best_column(ds, parent, Role::T, n),
        best_column(ds, parent, Role::P, n),
    ) {
        (Some(x), Some(y), Some(t), Some(p)) => if ds[y].len == ds[x].len && ds[t].len == ds[x].len
            && ds[p].len == ds[x].len {
            Some(Columns { x: x as usize, y: y as usize, t: t as usize, p: p as usize })
        } else {
            None
        },
        _ => None,
    }
}

/// How many slashes a path has.
pub open spec fn slashes(s: Seq<char>) -> nat
    decreases s.len(),
{
    if s.len() == 0 {
        0
    } else {
        slashes(s.drop_last()) + if s.last() == '/' {
            1nat
        } else {
            0
        }
    }
}

/// Whether a group is preferred: it has more events, or as many and lies less deep.
pub open spec fn preferred(len: int, depth: int, best_len: int, best_depth: int) -> bool {
    len > best_len || (len == best_len && depth < best_depth)
}

/// The dataset, among the first `n`, whose group is preferred; of equally good ones the first.
pub open spec fn best_group(ds: Seq<DatasetInfo>, n: int) -> Option<int>
    decreases n,
{
    if n <= 0 {
        None
    } else {
        let before = best_group(ds, n - 1);
        let parent = parent_of(ds[n - 1].name@);
        match group_columns(ds, parent) {
            None => before,
            Some(c) => match before {
                None => Some(n - 1),
                Some(b) => {
                    let other = parent_of(ds[b].name@);
                    if preferred(
                        ds[c.x as int].len as int,
                        slashes(parent) as int,
                        ds[group_columns(ds, other)->0.x as int].len as int,
                        slashes(other) as int,
                    ) {
                        Some(n - 1)
                    } else {
                        before
                    }
                },
            },
        }
    }
}

fn find_column(ds: &[DatasetInfo], parent: &Vec<char>, role: Role) -> (column: Option<usize>)
    ensures
        match column {
            Some(c) => c < ds@.len() && best_column(ds@, parent@, role, ds@.len() as int) == Some(
                c as int,
            ),
            None => best_column(ds@, parent@, role, ds@.len() as int) is None,
        },
{
    let n: usize = ds.len();
    let mut best: Option<(usize, usize)> = None;
    for i in 0..n
        invariant
            n == ds@.len(),
            match best {
                Some((c, r)) => {
                    &&& c < i
                    &&& best_column(ds@, parent@, role, i as int) == Some(c as int)
                    &&& column_rank(ds@[c as int], parent@, role) == Some(r as int)
                },
                None => best_column(ds@, parent@, role, i as int) is None,
            },
    {
        if ds[i].dimensions == 1 && !ds[i].compound {
            let (base, own) = split_path(&chars_of(ds[i].name.as_str()));
            if same(&own, parent) {
                if let Some(rank) = role_rank(role, &base) {
                    let better = match best {
                        Some((_, r)) => rank < r,
                        None => true,
                    };
                    if better {
                        best = Some((i, rank));
                    }
                }
            }
        }
    }
    match best {
        Some((c, _)) => Some(c),
        None => None,
    }
}

fn columns_in(ds: &[DatasetInfo], parent: &Vec<char>) -> (columns: Option<Columns>)
    ensures
        columns == group_columns(ds@, parent@),
        columns matches Some(c) ==> c.x < ds@.len(),
{
    let x = find_column(ds, parent, Role::X);
    let y = find_column(ds, parent, Role::Y);
    let t = find_column(ds, parent, Role::T);
    let p = find_column(ds, parent, Role::P);
    match (x, y, t, p) {
        (Some(x), Some(y), Some(t), Some(p)) => {
            let len = ds[x].len;
            if ds[y].len == len && ds[t].len == len && ds[p].len == len {
                Some(Columns { x, y, t, p })
            } else {
                None
            }
        },
        _ => None,
    }
}

fn depth_of(path: &Vec<char>) -> (depth: usize)
    ensures
        depth == slashes(path@),
        depth <= path@.len(),
{
    let n: usize = path.len();
    let mut depth: usize = 0;
    assert(path@.take(0) =~= Seq::<char>::empty());
    for i in 0..n
        invariant
            n == path@.len(),
            depth == slashes(path@.take(i as int)),
            depth <= i,
    {
        assert(path@.take(i + 1).drop_last() =~= path@.take(i as int));
        if path[i] == '/' {
            depth += 1;
        }
    }
    assert(path@.take(n as int) =~= path@);
    depth
}

/// Finds four datasets of one dimension whose names are those of the columns, in one group and
/// equally long. The group with the most events is taken, of those the one that lies least deep, and
/// of those the first.
pub fn detect_separate(ds: &[DatasetInfo]) -> (columns: Option<Columns>)
    ensures
        columns == match best_group(ds@, ds@.len() as int) {
            Some(b) => group_columns(ds@, parent_of(ds@[b].name@)),
            None => None,
        },
{
    let n: usize = ds.len();
    let mut best: Option<(usize, usize, Columns)> = None;
    for i in 0..n
        invariant
            n == ds@.len(),
            match best {
                Some((len, depth, c)) => {
                    &&& best_group(ds@, i as int) matches Some(b) && {
                        let parent = parent_of(ds@[b].name@);
                        &&& 0 <= b < i
                        &&& group_columns(ds@, parent) == Some(c)
                        &&& c.x < ds@.len()
                        &&& len == ds@[c.x as int].len
                        &&& depth == slashes(parent)
                    }
                },
                None => best_group(ds@, i as int) is None,
            },
    {
        let (_, parent) = split_path(&chars_of(ds[i].name.as_str()));
        if let Some(columns) = columns_in(ds, &parent) {
            let len = ds[columns.x].len;
            let depth = depth_of(&parent);
            let better = match best {
                Some((best_len, best_depth, _)) => len > best_len || (len == best_len && depth
                    < best_depth),
                None => true,
            };
            if better {
                best = Some((len, depth, columns));
            }
        }
    }
    match best {
        Some((_, _, columns)) => Some(columns),
        None => None,
    }
}

/// A field of a record: its name, where it lies, and what it is.
#[derive(Debug)]
pub struct FieldInfo {
    pub name: String,
    pub offset: usize,
    pub kind: ScalarKind,
}

/// The best field for a column among the first `n`: of equally good ones the first.
pub open spec fn best_field(fields: Seq<FieldInfo>, role: Role, n: int) -> Option<int>
    decreases n,
{
    if n <= 0 {
        None
    } else {
        let before = best_field(fields, role, n - 1);
        let rank = fit(role, lowered(fields[n - 1].name@));
        match (rank, before) {
            (None, _) => before,
            (Some(r), None) => Some(n - 1),
            (Some(r), Some(b)) => if r < fit(role, lowered(fields[b].name@))->0 {
                Some(n - 1)
            } else {
                before
            },
        }
    }
}

fn find_field(fields: &[FieldInfo], role: Role) -> (field: Option<usize>)
    ensures
        match field {
            Some(f) => f < fields@.len() && best_field(fields@, role, fields@.len() as int) == Some(
                f as int,
            ),
            None => best_field(fields@, role, fields@.len() as int) is None,
        },
{
    let n: usize = fields.len();
    let mut best: Option<(usize, usize)> = None;
    for i in 0..n
        invariant
            n == fields@.len(),
            match best {
                Some((c, r)) => {
                    &&& c < i
                    &&& best_field(fields@, role, i as int) == Some(c as int)
                    &&& fit(role, lowered(fields@[c as int].name@)) == Some(r as int)
                },
                None => best_field(fields@, role, i as int) is None,
            },
    {
        if let Some(rank) = role_rank(role, &chars_of(fields[i].name.as_str())) {
            let better = match best {
                Some((_, r)) => rank < r,
                None => true,
            };
            if better {
                best = Some((i, rank));
            }
        }
    }
    match best {
        Some((c, _)) => Some(c),
        None => None,
    }
}

/// The fields of a record that are the columns, if it has all four.
pub open spec fn field_columns(fields: Seq<FieldInfo>) -> Option<Columns> {
    let n = fields.len() as int;
    match (
        best_field(fields, Role::X, n),
        best_field(fields, Role::Y, n),
        best_field(fields, Role::T, n),
        best_field(fields, Role::P, n),
    ) {
        (Some(x), Some(y), Some(t), Some(p)) => Some(
            Columns { x: x as usize, y: y as usize, t: t as usize, p: p as usize },
        ),
        _ => None,
    }
}

/// Finds the columns among the fields of a record.
pub fn detect_compound(fields: &[FieldInfo]) -> (columns: Option<Columns>)
    ensures
        columns == field_columns(fields@),
{
    match (
        find_field(fields, Role::X),
        find_field(fields, Role::Y),
        find_field(fields, Role::T),
        find_field(fields, Role::P),
    ) {
        (Some(x), Some(y), Some(t), Some(p)) => Some(Columns { x, y, t, p }),
        _ => None,
    }
}

/// The first field from `k` on with a name.
pub open spec fn field_called(fields: Seq<FieldInfo>, name: Seq<char>, k: int) -> Option<int>
    decreases fields.len() - k,
{
    if k >= fields.len() {
        None
    } else if fields[k].name@ == name {
        Some(k)
    } else {
        field_called(fields, name, k + 1)
    }
}

fn find_named(fields: &[FieldInfo], name: &Vec<char>) -> (field: Option<usize>)
    ensures
        match field {
            Some(f) => field_called(fields@, name@, 0) == Some(f as int),
            None => field_called(fields@, name@, 0) is None,
        },
{
    let n: usize = fields.len();
    let mut k: usize = 0;
    while k < n
        invariant
            k <= n,
            n == fields@.len(),
            field_called(fields@, name@, 0) == field_called(fields@, name@, k as int),
        decreases n - k,
    {
        if same(&chars_of(fields[k].name.as_str()), name) {
            return Some(k);
        }
        k += 1;
    }
    None
}

/// The four keys, as texts: x, y, t and p.
pub open spec fn key_texts(keys: EventKeys) -> Seq<Seq<char>> {
    seq![keys.x@, keys.y@, keys.t@, keys.p@]
}

/// Whether all keys lie in one compound dataset.
pub open spec fn one_parent(keys: EventKeys) -> bool {
    forall|i: int|
        0 <= i < 4 ==> parent_of(#[trigger] key_texts(keys)[i]) == parent_of(keys.x@)
}

/// How named columns are found.
#[derive(Debug)]
pub enum NamedColumns {
    /// Each key is a dataset.
    Separate,
    /// The keys are fields of a compound dataset.
    Fields { dataset: String },
}

/// Decides how named columns are found, given which keys are datasets.
pub fn resolve_named_columns(keys: &EventKeys, found: [bool; 4]) -> (named: Result<
    NamedColumns,
    IoError,
>)
    ensures
        ({
            let separate = found@[0] && found@[1] && found@[2] && found@[3];
            match named {
                Ok(NamedColumns::Separate) => separate,
                Ok(NamedColumns::Fields { dataset }) => !separate && one_parent(*keys) && dataset@
                    == parent_of(keys.x@),
                Err(IoError::Format(m)) => !separate && !one_parent(*keys) && m@
                    == "keys must be four separate dataset paths or four fields of the same compound dataset"@,
                Err(_) => false,
            }
        }),
{
    if found[0] && found[1] && found[2] && found[3] {
        return Ok(NamedColumns::Separate);
    }
    let (_, parent) = split_path(&chars_of(keys.x.as_str()));
    let (_, y) = split_path(&chars_of(keys.y.as_str()));
    let (_, t) = split_path(&chars_of(keys.t.as_str()));
    let (_, p) = split_path(&chars_of(keys.p.as_str()));
    let ghost all = key_texts(*keys);
    assert(all[0] == keys.x@ && all[1] == keys.y@ && all[2] == keys.t@ && all[3] == keys.p@);
    if same(&y, &parent) && same(&t, &parent) && same(&p, &parent) {
        Ok(NamedColumns::Fields { dataset: string_of(&parent) })
    } else {
        Err(
            IoError::Format(
                "keys must be four separate dataset paths or four fields of the same compound dataset".to_owned(),
            ),
        )
    }
}

/// The complaint about a compound dataset that is not there.
pub fn missing_dataset(dataset: &str) -> (error: IoError)
    ensures
        error matches IoError::Format(m) && m@ == "no dataset '"@ + dataset@
            + "' for the named keys"@,
{
    IoError::Format(join3("no dataset '", dataset, "' for the named keys"))
}

/// The fields of a record that keys name, if all are there.
pub open spec fn named_columns(fields: Seq<FieldInfo>, keys: EventKeys) -> Option<Columns> {
    match (
        field_called(fields, base_of(keys.x@), 0),
        field_called(fields, base_of(keys.y@), 0),
        field_called(fields, base_of(keys.t@), 0),
        field_called(fields, base_of(keys.p@), 0),
    ) {
        (Some(x), Some(y), Some(t), Some(p)) => Some(
            Columns { x: x as usize, y: y as usize, t: t as usize, p: p as usize },
        ),
        _ => None,
    }
}

/// The complaint about fields that a compound dataset does not have.
pub open spec fn missing_fields(dataset: Seq<char>, keys: EventKeys) -> Seq<char> {
    "compound dataset '"@ + dataset + "' has no fields ["@ + quoted_text(base_of(keys.x@)) + ", "@
        + quoted_text(base_of(keys.y@)) + ", "@ + quoted_text(base_of(keys.t@)) + ", "@
        + quoted_text(base_of(keys.p@)) + "]"@
}

/// The fields of a compound dataset that keys name; `None` for the fields of a dataset that is not
/// compound.
pub fn with_fields(fields: Option<&[FieldInfo]>, dataset: &str, keys: &EventKeys) -> (columns:
    Result<Columns, IoError>)
    ensures
        match columns {
            Ok(c) => fields matches Some(f) && named_columns(f@, *keys) == Some(c),
            Err(IoError::Format(m)) => !(fields matches Some(f) && named_columns(f@, *keys) is Some)
                && m@ == missing_fields(dataset@, *keys),
            Err(_) => false,
        },
{
    let (x, _) = split_path(&chars_of(keys.x.as_str()));
    let (y, _) = split_path(&chars_of(keys.y.as_str()));
    let (t, _) = split_path(&chars_of(keys.t.as_str()));
    let (p, _) = split_path(&chars_of(keys.p.as_str()));
    if let Some(list) = fields {
        match (
            find_named(list, &x),
            find_named(list, &y),
            find_named(list, &t),
            find_named(list, &p),
        ) {
            (Some(x), Some(y), Some(t), Some(p)) => {
                return Ok(Columns { x, y, t, p });
            },
            _ => {},
        }
    }
    let mut text = join3("compound dataset '", dataset, "' has no fields [");
    text.append(quoted(string_of(&x).as_str()).as_str());
    text.append(", ");
    text.append(quoted(string_of(&y).as_str()).as_str());
    text.append(", ");
    text.append(quoted(string_of(&t).as_str()).as_str());
    text.append(", ");
    text.append(quoted(string_of(&p).as_str()).as_str());
    text.append("]");
    assert(text@ =~= missing_fields(dataset@, *keys));
    Err(IoError::Format(text))
}

/// The listing of the first `n` datasets.
pub open spec fn listing(described: Seq<Seq<char>>, n: int) -> Seq<char>
    decreases n,
{
    if n <= 0 {
        Seq::empty()
    } else {
        listing(described, n - 1) + "\n  "@ + described[n - 1]
    }
}

/// What to do when the columns cannot be found.
pub open spec fn naming_advice() -> Seq<char> {
    "\nPass keys={\"x\": \u{2026}, \"y\": \u{2026}, \"t\": \u{2026}, \"p\": \u{2026}} to name "@
        + "them explicitly (an HDF5 value is a dataset path, or `dataset/field` for a compound "@
        + "dataset)."@
}

/// The complaint about columns that cannot be found. Each dataset is described by its name, its type
/// and its shape.
pub open spec fn unresolved(described: Seq<Seq<char>>) -> Seq<char> {
    "could not identify the x/y/t/p event columns. Datasets present:"@ + (if described.len() == 0 {
        " (none)"@
    } else {
        listing(described, described.len() as int)
    }) + naming_advice()
}

/// The complaint about columns that cannot be found.
pub fn unresolved_message(described: &[String]) -> (text: String)
    ensures
        text@ == unresolved(texts(described@)),
{
    let n: usize = described.len();
    let mut list = String::new();
    for i in 0..n
        invariant
            n == described@.len(),
            list@ == listing(texts(described@), i as int),
    {
        list = join3(list.as_str(), "\n  ", described[i].as_str());
    }
    if n == 0 {
        list = " (none)".to_owned();
    }
    let mut text = join2(
        "could not identify the x/y/t/p event columns. Datasets present:",
        list.as_str(),
    );
    text.append(
        "\nPass keys={\"x\": \u{2026}, \"y\": \u{2026}, \"t\": \u{2026}, \"p\": \u{2026}} to name ",
    );
    text.append(
        "them explicitly (an HDF5 value is a dataset path, or `dataset/field` for a compound ",
    );
    text.append("dataset).");
    assert(text@ =~= unresolved(texts(described@)));
    text
}

/// The type of a field of a record.
#[derive(Clone, Copy, Debug, PartialEq, Eq, Structural)]
pub enum ScalarKind {
    /// An unsigned integer of 1, 2, 4 or 8 bytes.
    Unsigned { size: usize },
    /// A signed integer of 1, 2, 4 or 8 bytes.
    Signed { size: usize },
    /// A number with a fraction, of 4 or 8 bytes.
    Float { size: usize },
    Boolean,
    /// Anything else; it reads as zero.
    Other,
}

/// How many bytes a field takes.
pub open spec fn scalar_size(kind: ScalarKind) -> int {
    match kind {
        ScalarKind::Unsigned { size } => size as int,
        ScalarKind::Signed { size } => size as int,
        ScalarKind::Float { size } => size as int,
        ScalarKind::Boolean => 1,
        ScalarKind::Other => 0,
    }
}

/// Whether a field has a size that is known.
pub open spec fn scalar_known(kind: ScalarKind) -> bool {
    match kind {
        ScalarKind::Unsigned { size } => size == 1 || size == 2 || size == 4 || size == 8,
        ScalarKind::Signed { size } => size == 1 || size == 2 || size == 4 || size == 8,
        ScalarKind::Float { size } => size == 4 || size == 8,
        _ => true,
    }
}

/// The unsigned value of some bytes, the most significant first or last.
pub open spec fn unsigned_of(b: Seq<u8>, at: int, size: int, big: bool) -> int
    decreases size,
{
    if size <= 0 {
        0
    } else if big {
        unsigned_of(b, at, size - 1, big) * 0x100 + b[at + size - 1]
    } else {
        unsigned_of(b, at + 1, size - 1, big) * 0x100 + b[at]
    }
}

/// A number with a fraction as an integer: toward zero, and held within 64 bits. `e` is its exponent
/// and `m` its significand, of `bits` bits after the point.
pub open spec fn truncated(negative: bool, e: int, m: int, bits: int) -> int {
    if e < 0 {
        0
    } else if e >= 63 {
        if negative {
            i64::MIN as int
        } else {
            i64::MAX as int
        }
    } else {
        let magnitude = if e <= bits {
            m / (pow2((bits - e) as nat) as int)
        } else {
            m * (pow2((e - bits) as nat) as int)
        };
        if negative {
            -magnitude
        } else {
            magnitude
        }
    }
}

/// The integer of a number with a fraction, given by its bit pattern; what is not a number is zero.
pub open spec fn float_value(pattern: int, size: int) -> int {
    if size == 4 {
        let e = pattern / 0x80_0000 % 0x100;
        let f = pattern % 0x80_0000;
        if e == 0xFF && f != 0 {
            0
        } else {
            truncated(pattern >= 0x8000_0000, e - 127, 0x80_0000 + f, 23)
        }
    } else {
        let e = pattern / 0x10_0000_0000_0000 % 0x800;
        let f = pattern % 0x10_0000_0000_0000;
        if e == 0x7FF && f != 0 {
            0
        } else {
            truncated(
                pattern >= 0x8000_0000_0000_0000,
                e - 1023,
                0x10_0000_0000_0000 + f,
                52,
            )
        }
    }
}

/// The value of a field.
pub open spec fn scalar_value(b: Seq<u8>, at: int, kind: ScalarKind, big: bool) -> int {
    match kind {
        ScalarKind::Unsigned { size } => signed(
            unsigned_of(b, at, size as int, big),
            0x8000_0000_0000_0000,
        ),
        ScalarKind::Signed { size } => {
            let v = unsigned_of(b, at, size as int, big);
            if size == 1 {
                signed(v, 0x80)
            } else if size == 2 {
                signed(v, 0x8000)
            } else if size == 4 {
                signed(v, 0x8000_0000)
            } else {
                signed(v, 0x8000_0000_0000_0000)
            }
        },
        ScalarKind::Float { size } => float_value(
            unsigned_of(b, at, size as int, big),
            size as int,
        ),
        ScalarKind::Boolean => if b[at] != 0 {
            1
        } else {
            0
        },
        ScalarKind::Other => 0,
    }
}

/// The largest value of so many bytes, and one more.
pub open spec fn size_limit(size: int) -> int
    decreases size,
{
    if size <= 0 {
        1
    } else {
        0x100 * size_limit(size - 1)
    }
}

proof fn unsigned_fits(b: Seq<u8>, at: int, size: int, big: bool)
    requires
        0 <= size,
    ensures
        0 <= unsigned_of(b, at, size, big) < size_limit(size),
    decreases size,
{
    if size > 0 {
        if big {
            unsigned_fits(b, at, size - 1, big);
        } else {
            unsigned_fits(b, at + 1, size - 1, big);
        }
    }
}

proof fn size_limits()
    ensures
        size_limit(1) == 0x100,
        size_limit(2) == 0x1_0000,
        size_limit(4) == 0x1_0000_0000,
        size_limit(8) == 0x1_0000_0000_0000_0000,
{
    reveal_with_fuel(size_limit, 10);
}

fn read_unsigned(b: &[u8], at: usize, size: usize, big: bool) -> (value: u64)
    requires
        size == 1 || size == 2 || size == 4 || size == 8,
        at + size <= b@.len(),
    ensures
        value == unsigned_of(b@, at as int, size as int, big),
{
    let mut value: u64 = 0;
    let mut k: usize = 0;
    let n: usize = b.len();
    assert(at + size <= n);
    let end: usize = at + size;
    if big {
        while k < size
            invariant
                k <= size,
                size <= 8,
                end == at + size,
                end <= b@.len(),
                big,
                value == unsigned_of(b@, at as int, k as int, true),
            decreases size - k,
        {
            proof {
                unsigned_fits(b@, at as int, k as int, true);
                unsigned_fits(b@, at as int, k + 1, true);
                limit_small(k + 1);
            }
            value = value * 0x100 + b[at + k] as u64;
            k += 1;
        }
    } else {
        while k < size
            invariant
                k <= size,
                size <= 8,
                end == at + size,
                end <= b@.len(),
                !big,
                value == unsigned_of(b@, at + size - k, k as int, false),
            decreases size - k,
        {
            proof {
                unsigned_fits(b@, at + size - k, k as int, false);
                unsigned_fits(b@, at + size - k - 1, k + 1, false);
                limit_small(k + 1);
            }
            value = value * 0x100 + b[end - k - 1] as u64;
            k += 1;
        }
    }
    value
}

proof fn limit_small(size: int)
    requires
        0 <= size <= 8,
    ensures
        size_limit(size) <= 0x1_0000_0000_0000_0000,
{
    reveal_with_fuel(size_limit, 10);
}

fn power(n: u64) -> (p: u64)
    requires
        n <= 62,
    ensures
        p == pow2(n as nat),
        1 <= p <= 0x4000_0000_0000_0000,
{
    proof {
        vstd::arithmetic::power2::lemma2_to64();
        vstd::arithmetic::power2::lemma2_to64_rest();
    }
    let mut p: u64 = 1;
    let mut i: u64 = 0;
    while i < n
        invariant
            i <= n,
            n <= 62,
            p == pow2(i as nat),
            1 <= p,
            pow2(62) == 0x4000_0000_0000_0000,
            p <= pow2(62),
        decreases n - i,
    {
        proof {
            vstd::arithmetic::power2::lemma_pow2_unfold((i + 1) as nat);
            if i + 1 < 62 {
                vstd::arithmetic::power2::lemma_pow2_strictly_increases((i + 1) as nat, 62);
            }
        }
        p = p * 2;
        i += 1;
    }
    p
}

fn truncate(negative: bool, e: i64, m: u64, bits: u64) -> (value: i64)
    requires
        bits == 23 || bits == 52,
        m < 0x20_0000_0000_0000,
        bits == 23 ==> m < 0x100_0000,
    ensures
        value == truncated(negative, e as int, m as int, bits as int),
{
    if e < 0 {
        return 0;
    }
    if e >= 63 {
        return if negative {
            i64::MIN
        } else {
            i64::MAX
        };
    }
    let e = e as u64;
    let magnitude: u64 = if e <= bits {
        let unit = power(bits - e);
        proof {
            assert(m as int / (unit as int) <= m) by (nonlinear_arith)
                requires
                    unit >= 1,
                    m >= 0,
            ;
        }
        m / unit
    } else {
        let unit = power(e - bits);
        proof {
            vstd::arithmetic::power2::lemma2_to64();
            vstd::arithmetic::power2::lemma2_to64_rest();
            if bits == 23 {
                if e - bits < 39 {
                    vstd::arithmetic::power2::lemma_pow2_strictly_increases(
                        (e - bits) as nat,
                        39,
                    );
                }
                assert(m * unit < 0x8000_0000_0000_0000) by (nonlinear_arith)
                    requires
                        0 <= m < 0x100_0000,
                        0 <= unit <= 0x80_0000_0000,
                ;
            } else {
                if e - bits < 10 {
                    vstd::arithmetic::power2::lemma_pow2_strictly_increases(
                        (e - bits) as nat,
                        10,
                    );
                }
                assert(m * unit < 0x8000_0000_0000_0000) by (nonlinear_arith)
                    requires
                        0 <= m < 0x20_0000_0000_0000,
                        0 <= unit <= 0x400,
                ;
            }
        }
        m * unit
    };
    if negative {
        -(magnitude as i64)
    } else {
        magnitude as i64
    }
}

fn float_to_int(pattern: u64, size: usize) -> (value: i64)
    requires
        size == 4 || size == 8,
        size == 4 ==> pattern < 0x1_0000_0000,
    ensures
        value == float_value(pattern as int, size as int),
{
    if size == 4 {
        let e: u64 = pattern / 0x80_0000 % 0x100;
        let f: u64 = pattern % 0x80_0000;
        if e == 0xFF && f != 0 {
            0
        } else {
            truncate(pattern >= 0x8000_0000, e as i64 - 127, 0x80_0000 + f, 23)
        }
    } else {
        let e: u64 = pattern / 0x10_0000_0000_0000 % 0x800;
        let f: u64 = pattern % 0x10_0000_0000_0000;
        if e == 0x7FF && f != 0 {
            0
        } else {
            truncate(
                pattern >= 0x8000_0000_0000_0000,
                e as i64 - 1023,
                0x10_0000_0000_0000 + f,
                52,
            )
        }
    }
}

/// Decodes a field that starts at `at` as a 64-bit integer. Values that are larger wrap, and
/// fractions are cut off.
pub fn decode_scalar(b: &[u8], at: usize, kind: ScalarKind, big: bool) -> (value: i64)
    requires
        scalar_known(kind),
        at + scalar_size(kind) <= b@.len(),
    ensures
        value == scalar_value(b@, at as int, kind, big),
{
    proof {
        size_limits();
    }
    match kind {
        ScalarKind::Unsigned { size } => {
            let v = read_unsigned(b, at, size, big);
            signed64(v)
        },
        ScalarKind::Signed { size } => {
            let v = read_unsigned(b, at, size, big);
            proof {
                unsigned_fits(b@, at as int, size as int, big);
            }
            if size == 1 {
                if v >= 0x80 {
                    v as i64 - 0x100
                } else {
                    v as i64
                }
            } else if size == 2 {
                if v >= 0x8000 {
                    v as i64 - 0x1_0000
                } else {
                    v as i64
                }
            } else if size == 4 {
                if v >= 0x8000_0000 {
                    v as i64 - 0x1_0000_0000
                } else {
                    v as i64
                }
            } else {
                signed64(v)
            }
        },
        ScalarKind::Float { size } => {
            let v = read_unsigned(b, at, size, big);
            proof {
                unsigned_fits(b@, at as int, size as int, big);
            }
            float_to_int(v, size)
        },
        ScalarKind::Boolean => if b[at] != 0 {
            1
        } else {
            0
        },
        ScalarKind::Other => 0,
    }
}

/// Decodes a field of every record.
pub fn decode_column(
    records: &[u8],
    record_size: usize,
    offset: usize,
    kind: ScalarKind,
    big: bool,
) -> (values: Vec<i64>)
    requires
        record_size > 0,
        scalar_known(kind),
        offset + scalar_size(kind) <= record_size,
    ensures
        values@.len() == records@.len() / (record_size as nat),
        forall|i: int|
            0 <= i < values@.len() ==> #[trigger] values@[i] == scalar_value(
                records@,
                i * record_size + offset,
                kind,
                big,
            ),
{
    let n: usize = records.len() / record_size;
    let mut values: Vec<i64> = Vec::with_capacity(n);
    for i in 0..n
        invariant
            record_size > 0,
            scalar_known(kind),
            offset + scalar_size(kind) <= record_size,
            n == records@.len() / (record_size as nat),
            values@.len() == i,
            forall|j: int|
                0 <= j < i ==> #[trigger] values@[j] == scalar_value(
                    records@,
                    j * record_size + offset,
                    kind,
                    big,
                ),
    {
        let ghost len = records@.len() as int;
        proof {
            assert(i * record_size + record_size <= len && 0 <= i * record_size)
                by (nonlinear_arith)
                requires
                    0 <= i < n,
                    n == len / (record_size as int),
                    record_size > 0,
                    len >= 0,
            ;
        }
        let length: usize = records.len();
        assert(i * record_size + record_size <= length);
        let at: usize = i * record_size + offset;
        values.push(decode_scalar(records, at, kind, big));
    }
    values
}

} // verus!
