//! The columns of a text recording: fields, headers, and which column holds what.

use vstd::prelude::*;
use vstd::slice::slice_subrange;

use crate::chars::{
    chars_of, is_digit, is_whitespace, join3, join5, lowered, parse_size, parsed, same, spells,
    string_of, to_lower, whitespace,
};
use crate::io::lines::{quoted, quoted_text};
use crate::io::IoError;

verus! {

/// Unit of a timestamp column. Events are kept in microseconds.
#[derive(Clone, Copy, Debug, PartialEq, Eq, Structural)]
pub enum TimeUnit {
    Seconds,
    Milliseconds,
    Microseconds,
    Nanoseconds,
}

/// A value kept within the range of a 64-bit integer.
pub open spec fn saturated(v: int) -> int {
    if v < i64::MIN {
        i64::MIN as int
    } else if v > i64::MAX {
        i64::MAX as int
    } else {
        v
    }
}

/// A value divided by a thousand, towards zero.
pub open spec fn thousandth(v: int) -> int {
    if v >= 0 {
        v / 1000
    } else {
        -((-v) / 1000)
    }
}

impl TimeUnit {
    /// The unit of an integer column that spans `span`: the finest one in which the recording
    /// lasts a second.
    pub open spec fn inferred(span: int) -> TimeUnit {
        if span >= 1_000_000_000 {
            TimeUnit::Nanoseconds
        } else if span >= 1_000_000 {
            TimeUnit::Microseconds
        } else if span >= 1_000 {
            TimeUnit::Milliseconds
        } else {
            TimeUnit::Seconds
        }
    }

    /// A value of this unit in microseconds, kept within range.
    pub open spec fn scaled(self, value: int) -> int {
        saturated(
            match self {
                TimeUnit::Seconds => value * 1_000_000,
                TimeUnit::Milliseconds => value * 1_000,
                TimeUnit::Microseconds => value,
                TimeUnit::Nanoseconds => thousandth(value),
            },
        )
    }

    /// Guesses the unit of an integer timestamp column from its span.
    pub fn infer_from_span(span: i64) -> (unit: TimeUnit)
        ensures
            unit == TimeUnit::inferred(span as int),
    {
        if span >= 1_000_000_000 {
            TimeUnit::Nanoseconds
        } else if span >= 1_000_000 {
            TimeUnit::Microseconds
        } else if span >= 1_000 {
            TimeUnit::Milliseconds
        } else {
            TimeUnit::Seconds
        }
    }

    /// Converts an integer timestamp to microseconds, saturating.
    pub fn microseconds_from_int(self, value: i64) -> (us: i64)
        ensures
            us == self.scaled(value as int),
    {
        let wide: i128 = match self {
            TimeUnit::Seconds => value as i128 * 1_000_000,
            TimeUnit::Milliseconds => value as i128 * 1_000,
            TimeUnit::Microseconds => value as i128,
            TimeUnit::Nanoseconds => if value >= 0 {
                (value / 1000) as i128
            } else {
                let magnitude: u64 = (-(value as i128)) as u64;
                -((magnitude / 1000) as i128)
            },
        };
        if wide < i64::MIN as i128 {
            i64::MIN
        } else if wide > i64::MAX as i128 {
            i64::MAX
        } else {
            wide as i64
        }
    }
}

/// Column order of each line.
#[derive(Clone, Copy, Debug, PartialEq, Eq, Structural)]
pub enum ColumnOrder {
    /// `t x y p`.
    Txyp,
    /// `x y t p`.
    Xytp,
}

impl Default for ColumnOrder {
    fn default() -> (order: Self)
        ensures
            order == ColumnOrder::Txyp,
    {
        ColumnOrder::Txyp
    }
}

/// The field of each event column within a row.
#[derive(Clone, Copy, Debug, PartialEq, Eq, Structural)]
pub struct ColumnMap {
    pub t: usize,
    pub x: usize,
    pub y: usize,
    pub p: usize,
}

/// The layout of a positional order.
pub open spec fn ordered(order: ColumnOrder) -> ColumnMap {
    match order {
        ColumnOrder::Txyp => ColumnMap { t: 0, x: 1, y: 2, p: 3 },
        ColumnOrder::Xytp => ColumnMap { t: 2, x: 0, y: 1, p: 3 },
    }
}

impl ColumnMap {
    /// The layout of a positional order.
    pub fn from_order(order: ColumnOrder) -> (map: Self)
        ensures
            map == ordered(order),
    {
        match order {
            ColumnOrder::Txyp => ColumnMap { t: 0, x: 1, y: 2, p: 3 },
            ColumnOrder::Xytp => ColumnMap { t: 2, x: 0, y: 1, p: 3 },
        }
    }
}

/// Explicit names of the four columns: each an index or a header name.
#[derive(Debug)]
pub struct EventKeys {
    pub x: String,
    pub y: String,
    pub t: String,
    pub p: String,
}

/// Whether a character separates fields.
pub open spec fn separates(c: char) -> bool {
    c == ',' || whitespace(c)
}

/// Where the field that starts at `at` ends.
pub open spec fn field_end(s: Seq<char>, at: int) -> int
    decreases s.len() - at,
{
    if at >= s.len() {
        s.len() as int
    } else if separates(s[at]) {
        at
    } else {
        field_end(s, at + 1)
    }
}

proof fn field_end_bounds(s: Seq<char>, at: int)
    requires
        0 <= at < s.len(),
        !separates(s[at]),
    ensures
        at < field_end(s, at) <= s.len(),
    decreases s.len() - at,
{
    reveal_with_fuel(field_end, 2);
    if at + 1 < s.len() && !separates(s[at + 1]) {
        field_end_bounds(s, at + 1);
    }
}

/// The fields of a line from `at` on, without empty ones.
pub open spec fn fields_from(s: Seq<char>, at: int) -> Seq<Seq<char>>
    decreases s.len() - at,
    via fields_end
{
    if at < 0 || at >= s.len() {
        Seq::empty()
    } else if separates(s[at]) {
        fields_from(s, at + 1)
    } else {
        seq![s.subrange(at, field_end(s, at))] + fields_from(s, field_end(s, at))
    }
}

#[via_fn]
proof fn fields_end(s: Seq<char>, at: int) {
    if 0 <= at < s.len() && !separates(s[at]) {
        field_end_bounds(s, at);
    }
}

/// The fields of a line.
pub open spec fn fields(s: Seq<char>) -> Seq<Seq<char>> {
    fields_from(s, 0)
}

/// Texts as sequences of characters.
pub open spec fn views(v: Seq<Vec<char>>) -> Seq<Seq<char>> {
    Seq::new(v.len(), |i: int| v[i]@)
}

/// Splits a line into fields on commas or white space.
pub fn split_fields(s: &[char]) -> (found: Vec<Vec<char>>)
    ensures
        views(found@) == fields(s@),
{
    let n: usize = s.len();
    let mut found: Vec<Vec<char>> = Vec::new();
    let mut at: usize = 0;
    assert(views(found@) =~= Seq::<Seq<char>>::empty());
    assert(views(found@) + fields_from(s@, 0) =~= fields(s@));
    while at < n
        invariant
            at <= n,
            n == s@.len(),
            views(found@) + fields_from(s@, at as int) == fields(s@),
        decreases n - at,
    {
        if s[at] == ',' || is_whitespace(s[at]) {
            at += 1;
        } else {
            proof {
                field_end_bounds(s@, at as int);
            }
            let mut end: usize = at;
            while end < n && !(s[end] == ',' || is_whitespace(s[end]))
                invariant
                    at <= end <= n,
                    n == s@.len(),
                    field_end(s@, at as int) == field_end(s@, end as int),
                decreases n - end,
            {
                end += 1;
            }
            let ghost before = found@;
            let field = vstd::slice::slice_to_vec(slice_subrange(s, at, end));
            found.push(field);
            proof {
                let piece = s@.subrange(at as int, end as int);
                assert(views(found@) =~= views(before).push(piece));
                assert(views(before).push(piece) + fields_from(s@, end as int) =~= views(before) + (
                seq![piece] + fields_from(s@, end as int)));
            }
            at = end;
        }
    }
    assert(views(found@) =~= views(found@) + fields_from(s@, at as int));
    found
}

/// Where the run of digits that starts at `at` ends.
pub open spec fn digits_end(s: Seq<char>, at: int) -> int
    decreases s.len() - at,
{
    if at < 0 || at >= s.len() || !is_digit(s[at]) {
        at
    } else {
        digits_end(s, at + 1)
    }
}

/// Whether a text from `at` on is an exponent: a letter, an optional sign, and digits.
pub open spec fn is_exponent(s: Seq<char>, at: int) -> bool {
    let start = if at + 1 < s.len() && (s[at + 1] == '+' || s[at + 1] == '-') {
        at + 2
    } else {
        at + 1
    };
    &&& s[at] == 'e' || s[at] == 'E'
    &&& start < s.len()
    &&& digits_end(s, start) == s.len()
}

/// Whether a text is an unsigned decimal number.
pub open spec fn is_decimal(s: Seq<char>) -> bool {
    let whole = digits_end(s, 0);
    let end = if whole < s.len() && s[whole] == '.' {
        digits_end(s, whole + 1)
    } else {
        whole
    };
    &&& whole > 0 || end > whole + 1
    &&& end == s.len() || is_exponent(s, end)
}

/// Whether a text is a number in the notation of floating point numbers.
pub open spec fn is_number(s: Seq<char>) -> bool {
    let u = if s.len() > 0 && (s[0] == '+' || s[0] == '-') {
        s.skip(1)
    } else {
        s
    };
    ||| lowered(u) == "inf"@
    ||| lowered(u) == "infinity"@
    ||| lowered(u) == "nan"@
    ||| is_decimal(u)
}

fn past_digits(s: &[char], at: usize) -> (end: usize)
    requires
        at <= s@.len(),
    ensures
        end == digits_end(s@, at as int),
        at <= end <= s@.len(),
{
    let mut end: usize = at;
    while end < s.len() && '0' <= s[end] && s[end] <= '9'
        invariant
            at <= end <= s@.len(),
            digits_end(s@, at as int) == digits_end(s@, end as int),
        decreases s@.len() - end,
    {
        end += 1;
    }
    end
}

/// Whether a text is a number in the notation of floating point numbers.
pub fn reads_as_number(s: &[char]) -> (yes: bool)
    ensures
        yes == is_number(s@),
{
    let n: usize = s.len();
    let start: usize = if n > 0 && (s[0] == '+' || s[0] == '-') {
        1
    } else {
        0
    };
    let u = slice_subrange(s, start, n);
    assert(start == 1 ==> u@ =~= s@.skip(1));
    assert(start == 0 ==> u@ =~= s@);
    let low = to_lower(u);
    if spells(&low, "inf") || spells(&low, "infinity") || spells(&low, "nan") {
        return true;
    }
    let m: usize = u.len();
    let whole = past_digits(u, 0);
    let end: usize = if whole < m && u[whole] == '.' {
        past_digits(u, whole + 1)
    } else {
        whole
    };
    if whole == 0 && end <= whole + 1 {
        return false;
    }
    if end == m {
        return true;
    }
    if u[end] != 'e' && u[end] != 'E' {
        return false;
    }
    let from: usize = if end + 1 < m && (u[end + 1] == '+' || u[end + 1] == '-') {
        end + 2
    } else {
        end + 1
    };
    from < m && past_digits(u, from) == m
}

/// Whether a line is a column header: some field is not a number.
pub open spec fn is_header(s: Seq<char>) -> bool {
    exists|i: int| 0 <= i < fields(s).len() && !is_number(#[trigger] fields(s)[i])
}

pub fn is_header_line(line: &[char]) -> (yes: bool)
    ensures
        yes == is_header(line@),
{
    let found = split_fields(line);
    let n: usize = found.len();
    for i in 0..n
        invariant
            n == found@.len(),
            views(found@) == fields(line@),
            forall|j: int| 0 <= j < i ==> is_number(#[trigger] fields(line@)[j]),
    {
        assert(views(found@)[i as int] == found@[i as int]@);
        if !reads_as_number(&found[i]) {
            return true;
        }
    }
    false
}

/// What a column holds.
#[derive(Clone, Copy, Debug, PartialEq, Eq, Structural)]
pub enum Role {
    X,
    Y,
    T,
    P,
}

/// How well a lower-case name fits a role: the first spelling fits best.
pub open spec fn fit(role: Role, name: Seq<char>) -> Option<int> {
    match role {
        Role::X => if name == "x"@ {
            Some(0)
        } else if name == "xs"@ {
            Some(1)
        } else if name == "x_coordinates"@ {
            Some(2)
        } else {
            None
        },
        Role::Y => if name == "y"@ {
            Some(0)
        } else if name == "ys"@ {
            Some(1)
        } else if name == "y_coordinates"@ {
            Some(2)
        } else {
            None
        },
        Role::T => if name == "t"@ {
            Some(0)
        } else if name == "ts"@ {
            Some(1)
        } else if name == "timestamp"@ {
            Some(2)
        } else if name == "timestamps"@ {
            Some(3)
        } else {
            None
        },
        Role::P => if name == "p"@ {
            Some(0)
        } else if name == "ps"@ {
            Some(1)
        } else if name == "polarity"@ {
            Some(2)
        } else if name == "polarities"@ {
            Some(3)
        } else {
            None
        },
    }
}

/// The role a column name has, in whatever case it is written.
pub open spec fn role_named(name: Seq<char>) -> Option<Role> {
    let low = lowered(name);
    if fit(Role::X, low) is Some {
        Some(Role::X)
    } else if fit(Role::Y, low) is Some {
        Some(Role::Y)
    } else if fit(Role::T, low) is Some {
        Some(Role::T)
    } else if fit(Role::P, low) is Some {
        Some(Role::P)
    } else {
        None
    }
}

/// How well a name fits a role.
pub fn role_rank(role: Role, name: &[char]) -> (rank: Option<usize>)
    ensures
        match rank {
            Some(r) => fit(role, lowered(name@)) == Some(r as int),
            None => fit(role, lowered(name@)) is None,
        },
{
    let low = to_lower(name);
    match role {
        Role::X => if spells(&low, "x") {
            Some(0)
        } else if spells(&low, "xs") {
            Some(1)
        } else if spells(&low, "x_coordinates") {
            Some(2)
        } else {
            None
        },
        Role::Y => if spells(&low, "y") {
            Some(0)
        } else if spells(&low, "ys") {
            Some(1)
        } else if spells(&low, "y_coordinates") {
            Some(2)
        } else {
            None
        },
        Role::T => if spells(&low, "t") {
            Some(0)
        } else if spells(&low, "ts") {
            Some(1)
        } else if spells(&low, "timestamp") {
            Some(2)
        } else if spells(&low, "timestamps") {
            Some(3)
        } else {
            None
        },
        Role::P => if spells(&low, "p") {
            Some(0)
        } else if spells(&low, "ps") {
            Some(1)
        } else if spells(&low, "polarity") {
            Some(2)
        } else if spells(&low, "polarities") {
            Some(3)
        } else {
            None
        },
    }
}

/// The role a column name has.
pub fn role_of(name: &[char]) -> (role: Option<Role>)
    ensures
        role == role_named(name@),
{
    if role_rank(Role::X, name).is_some() {
        Some(Role::X)
    } else if role_rank(Role::Y, name).is_some() {
        Some(Role::Y)
    } else if role_rank(Role::T, name).is_some() {
        Some(Role::T)
    } else if role_rank(Role::P, name).is_some() {
        Some(Role::P)
    } else {
        None
    }
}

/// The first column from `k` on with a role.
pub open spec fn column_of(names: Seq<Seq<char>>, role: Role, k: int) -> Option<int>
    decreases names.len() - k,
{
    if k < 0 || k >= names.len() {
        None
    } else if role_named(names[k]) == Some(role) {
        Some(k)
    } else {
        column_of(names, role, k + 1)
    }
}

/// The layout that a header names, if it names all four columns.
pub open spec fn header_layout(line: Seq<char>) -> Option<ColumnMap> {
    let names = fields(line);
    match (
        column_of(names, Role::X, 0),
        column_of(names, Role::Y, 0),
        column_of(names, Role::T, 0),
        column_of(names, Role::P, 0),
    ) {
        (Some(x), Some(y), Some(t), Some(p)) => Some(
            ColumnMap { x: x as usize, y: y as usize, t: t as usize, p: p as usize },
        ),
        _ => None,
    }
}

fn find_column(names: &Vec<Vec<char>>, role: Role) -> (column: Option<usize>)
    ensures
        match column {
            Some(k) => column_of(views(names@), role, 0) == Some(k as int),
            None => column_of(views(names@), role, 0) is None,
        },
{
    let n: usize = names.len();
    let mut k: usize = 0;
    while k < n
        invariant
            k <= n,
            n == names@.len(),
            column_of(views(names@), role, 0) == column_of(views(names@), role, k as int),
        decreases n - k,
    {
        assert(views(names@)[k as int] == names@[k as int]@);
        if let Some(found) = role_of(&names[k]) {
            if found == role {
                return Some(k);
            }
        }
        k += 1;
    }
    None
}

/// The layout that a header names.
pub fn header_map(line: &[char]) -> (map: Option<ColumnMap>)
    ensures
        map == header_layout(line@),
{
    let names = split_fields(line);
    let x = find_column(&names, Role::X);
    let y = find_column(&names, Role::Y);
    let t = find_column(&names, Role::T);
    let p = find_column(&names, Role::P);
    match (x, y, t, p) {
        (Some(x), Some(y), Some(t), Some(p)) => Some(ColumnMap { x, y, t, p }),
        _ => None,
    }
}

/// The first column from `k` on with a name, in whatever case.
pub open spec fn column_called(names: Seq<Seq<char>>, name: Seq<char>, k: int) -> Option<int>
    decreases names.len() - k,
{
    if k < 0 || k >= names.len() {
        None
    } else if lowered(names[k]) == lowered(name) {
        Some(k)
    } else {
        column_called(names, name, k + 1)
    }
}

/// The column that a key names: an index, or a name of the header.
pub open spec fn key_column(key: Seq<char>, header: Option<Seq<char>>) -> Option<int> {
    match parsed(key, usize::MAX as int) {
        Some(index) => Some(index),
        None => match header {
            Some(line) => column_called(fields(line), key, 0),
            None => None,
        },
    }
}

/// The complaint about a key that names no column.
pub open spec fn key_message(field: Seq<char>, key: Seq<char>) -> Seq<char> {
    "text key for '"@ + field + "' ("@ + quoted_text(key)
        + ") is neither a column index nor a header name"@
}

fn resolve_key(key: &str, field: &str, header: Option<&[char]>) -> (column: Result<usize, IoError>)
    ensures
        ({
            let line = match header {
                Some(h) => Some(h@),
                None => None,
            };
            match column {
                Ok(k) => key_column(key@, line) == Some(k as int),
                Err(IoError::Format(m)) => key_column(key@, line) is None && m@ == key_message(
                    field@,
                    key@,
                ),
                Err(_) => false,
            }
        }),
{
    let text = chars_of(key);
    if let Some(index) = parse_size(&text) {
        return Ok(index);
    }
    if let Some(line) = header {
        let names = split_fields(line);
        let low = to_lower(&text);
        let n: usize = names.len();
        let mut k: usize = 0;
        while k < n
            invariant
                k <= n,
                n == names@.len(),
                views(names@) == fields(line@),
                low@ == lowered(key@),
                header == Some(line),
                parsed(key@, usize::MAX as int) is None,
                column_called(fields(line@), key@, 0) == column_called(
                    fields(line@),
                    key@,
                    k as int,
                ),
            decreases n - k,
        {
            assert(views(names@)[k as int] == names@[k as int]@);
            let name = to_lower(&names[k]);
            if same(&name, &low) {
                assert(lowered(fields(line@)[k as int]) == lowered(key@));
                return Ok(k);
            }
            k += 1;
        }
    }
    let form = quoted(key);
    Err(
        IoError::Format(
            join5(
                "text key for '",
                field,
                "' (",
                form.as_str(),
                ") is neither a column index nor a header name",
            ),
        ),
    )
}

/// The layout that explicit keys give, or the complaint about the first that names no column.
pub open spec fn keyed(keys: EventKeys, header: Option<Seq<char>>, map: ColumnMap) -> bool {
    &&& key_column(keys.x@, header) == Some(map.x as int)
    &&& key_column(keys.y@, header) == Some(map.y as int)
    &&& key_column(keys.t@, header) == Some(map.t as int)
    &&& key_column(keys.p@, header) == Some(map.p as int)
}

pub open spec fn key_fault(keys: EventKeys, header: Option<Seq<char>>, m: Seq<char>) -> bool {
    if key_column(keys.x@, header) is None {
        m == key_message("x"@, keys.x@)
    } else if key_column(keys.y@, header) is None {
        m == key_message("y"@, keys.y@)
    } else if key_column(keys.t@, header) is None {
        m == key_message("t"@, keys.t@)
    } else {
        key_column(keys.p@, header) is None && m == key_message("p"@, keys.p@)
    }
}

/// The layout that explicit keys give.
pub fn keys_map(keys: &EventKeys, header: Option<&[char]>) -> (map: Result<ColumnMap, IoError>)
    ensures
        ({
            let line = match header {
                Some(h) => Some(h@),
                None => None,
            };
            match map {
                Ok(m) => keyed(*keys, line, m),
                Err(IoError::Format(m)) => key_fault(*keys, line, m@),
                Err(_) => false,
            }
        }),
{
    let x = match resolve_key(keys.x.as_str(), "x", header) {
        Ok(x) => x,
        Err(error) => {
            return Err(error);
        },
    };
    let y = match resolve_key(keys.y.as_str(), "y", header) {
        Ok(y) => y,
        Err(error) => {
            return Err(error);
        },
    };
    let t = match resolve_key(keys.t.as_str(), "t", header) {
        Ok(t) => t,
        Err(error) => {
            return Err(error);
        },
    };
    let p = match resolve_key(keys.p.as_str(), "p", header) {
        Ok(p) => p,
        Err(error) => {
            return Err(error);
        },
    };
    Ok(ColumnMap { t, x, y, p })
}

/// The header of a recording: its first line, if that is one.
pub open spec fn header_line(first: Option<Seq<char>>) -> Option<Seq<char>> {
    match first {
        Some(line) => if is_header(line) {
            Some(line)
        } else {
            None
        },
        None => None,
    }
}

/// The complaint about a header that does not name all columns.
pub open spec fn header_message(line: Seq<char>) -> Seq<char> {
    "text header "@ + quoted_text(line)
        + " does not name all of x/y/t/p; pass order= or keys= to map the columns"@
}

/// Resolves the layout of a recording, and whether its first line is a header. Keys win; else a
/// header is matched by name; else the positional order holds.
pub fn resolve_column_map(
    first_line: Option<&[char]>,
    order: ColumnOrder,
    keys: Option<&EventKeys>,
) -> (resolved: Result<(ColumnMap, bool), IoError>)
    ensures
        ({
            let first = match first_line {
                Some(line) => Some(line@),
                None => None,
            };
            let header = header_line(first);
            match resolved {
                Ok((map, has_header)) => {
                    &&& has_header == (header is Some)
                    &&& match keys {
                        Some(k) => keyed(*k, header, map),
                        None => match header {
                            Some(line) => header_layout(line) == Some(map),
                            None => map == ordered(order),
                        },
                    }
                },
                Err(IoError::Format(m)) => match keys {
                    Some(k) => key_fault(*k, header, m@),
                    None => match header {
                        Some(line) => header_layout(line) is None && m@ == header_message(line),
                        None => false,
                    },
                },
                Err(_) => false,
            }
        }),
{
    let header = match first_line {
        Some(line) => if is_header_line(line) {
            Some(line)
        } else {
            None
        },
        None => None,
    };
    let has_header = header.is_some();
    match keys {
        Some(keys) => match keys_map(keys, header) {
            Ok(map) => Ok((map, has_header)),
            Err(error) => Err(error),
        },
        None => match header {
            Some(line) => match header_map(line) {
                Some(map) => Ok((map, true)),
                None => {
                    let text = string_of(line);
                    let form = quoted(text.as_str());
                    Err(
                        IoError::Format(
                            join3(
                                "text header ",
                                form.as_str(),
                                " does not name all of x/y/t/p; pass order= or keys= to map the columns",
                            ),
                        ),
                    )
                },
            },
            None => Ok((ColumnMap::from_order(order), false)),
        },
    }
}

} // verus!
