//! What the columns of text, HDF5 and NumPy recordings mean.

use vstd::arithmetic::power2::{lemma_pow2_adds, lemma_pow2_pos, pow2};
use vstd::prelude::*;

use crate::bytes::{be32, le16, le32, le64};
use crate::chars::{decimal, lowered, signed_decimal};
use crate::floats::{is_fractional, is_nan, larger, order, smaller, INFINITY, NEG_INFINITY};
use crate::io::h5::{before_time, pixel_count, top_of};
use crate::io::h5_layout::{float_value, scalar_value, truncated, unsigned_of, ScalarKind};
use crate::io::npz::extent_of;
use crate::io::text::{exact_event, kept_rows, reach, row_kept, scan_rows, RawRow, TextRow};
use crate::io::text_columns::{column_of, fields, header_layout, role_named, Role, TimeUnit};
use crate::places::{are_items, are_places, places_agree, places_push};
use crate::stream::RawEvent;

verus! {

/// A time is the same number of microseconds in whichever unit it is written, and a nanosecond
/// column is cut to whole ones.
pub proof fn units_agree(seconds: int, rest: int)
    requires
        i64::MIN <= seconds * 1_000_000 <= i64::MAX,
        0 <= rest < 1000,
        seconds >= 0,
    ensures
        TimeUnit::Seconds.scaled(seconds) == seconds * 1_000_000,
        TimeUnit::Milliseconds.scaled(seconds * 1_000) == seconds * 1_000_000,
        TimeUnit::Microseconds.scaled(seconds * 1_000_000) == seconds * 1_000_000,
        TimeUnit::Nanoseconds.scaled(seconds * 1_000_000_000 + rest) == seconds * 1_000_000,
        TimeUnit::Nanoseconds.scaled(-(seconds * 1_000_000_000 + rest)) == -(seconds * 1_000_000),
{
}

/// Times keep their order in every unit, and stay in range.
pub proof fn units_keep_order(unit: TimeUnit, a: int, b: int)
    requires
        a <= b,
    ensures
        i64::MIN <= unit.scaled(a) <= unit.scaled(b) <= i64::MAX,
{
}

/// The unit that is guessed makes a recording last a second or more, if it has any length; and the
/// next finer unit would not.
pub proof fn guessed_unit_lasts_a_second(span: int)
    requires
        1 <= span <= i64::MAX,
    ensures
        ({
            let unit = TimeUnit::inferred(span);
            &&& unit.scaled(span) >= 1_000_000
            &&& unit is Seconds ==> TimeUnit::Milliseconds.scaled(span) < 1_000_000
            &&& unit is Milliseconds ==> TimeUnit::Microseconds.scaled(span) < 1_000_000
            &&& unit is Microseconds ==> TimeUnit::Nanoseconds.scaled(span) < 1_000_000
        }),
{
}

/// The names that a column can have, in whatever case they are written.
pub proof fn column_names(name: Seq<char>)
    ensures
        ({
            let low = lowered(name);
            &&& role_named(name) == Some(Role::X) <==> low == "x"@ || low == "xs"@ || low
                == "x_coordinates"@
            &&& role_named(name) == Some(Role::Y) <==> low == "y"@ || low == "ys"@ || low
                == "y_coordinates"@
            &&& role_named(name) == Some(Role::T) <==> low == "t"@ || low == "ts"@ || low
                == "timestamp"@ || low == "timestamps"@
            &&& role_named(name) == Some(Role::P) <==> low == "p"@ || low == "ps"@ || low
                == "polarity"@ || low == "polarities"@
        }),
{
    reveal_strlit("x");
    reveal_strlit("xs");
    reveal_strlit("x_coordinates");
    reveal_strlit("y");
    reveal_strlit("ys");
    reveal_strlit("y_coordinates");
    reveal_strlit("t");
    reveal_strlit("ts");
    reveal_strlit("timestamp");
    reveal_strlit("timestamps");
    reveal_strlit("p");
    reveal_strlit("ps");
    reveal_strlit("polarity");
    reveal_strlit("polarities");
    let low = lowered(name);
    let first = low[0];
    assert((low == "x"@ || low == "xs"@ || low == "x_coordinates"@) ==> first == 'x');
    assert((low == "y"@ || low == "ys"@ || low == "y_coordinates"@) ==> first == 'y');
    assert((low == "t"@ || low == "ts"@ || low == "timestamp"@ || low == "timestamps"@) ==> first
        == 't');
    assert((low == "p"@ || low == "ps"@ || low == "polarity"@ || low == "polarities"@) ==> first
        == 'p');
}

/// Whether a column is the first with a role.
pub open spec fn is_first_named(names: Seq<Seq<char>>, role: Role, k: int) -> bool {
    &&& 0 <= k < names.len()
    &&& role_named(names[k]) == Some(role)
    &&& forall|j: int| 0 <= j < k ==> role_named(#[trigger] names[j]) != Some(role)
}

/// Whether no column has a role.
pub open spec fn lacks(names: Seq<Seq<char>>, role: Role) -> bool {
    forall|j: int| 0 <= j < names.len() ==> role_named(#[trigger] names[j]) != Some(role)
}

proof fn column_found(names: Seq<Seq<char>>, role: Role, k: int)
    requires
        0 <= k <= names.len(),
        forall|j: int| 0 <= j < k ==> role_named(#[trigger] names[j]) != Some(role),
    ensures
        match column_of(names, role, k) {
            Some(c) => is_first_named(names, role, c),
            None => forall|j: int|
                0 <= j < names.len() ==> role_named(#[trigger] names[j]) != Some(role),
        },
    decreases names.len() - k,
{
    if k < names.len() && role_named(names[k]) != Some(role) {
        column_found(names, role, k + 1);
    }
}

/// A header gives each event column the first field that is named for it, and says nothing if one
/// is not named.
pub proof fn header_places(line: Seq<char>)
    requires
        fields(line).len() <= usize::MAX,
    ensures
        match header_layout(line) {
            Some(map) => {
                &&& is_first_named(fields(line), Role::X, map.x as int)
                &&& is_first_named(fields(line), Role::Y, map.y as int)
                &&& is_first_named(fields(line), Role::T, map.t as int)
                &&& is_first_named(fields(line), Role::P, map.p as int)
            },
            None => exists|role: Role| #[trigger] lacks(fields(line), role),
        },
{
    let names = fields(line);
    column_found(names, Role::X, 0);
    column_found(names, Role::Y, 0);
    column_found(names, Role::T, 0);
    column_found(names, Role::P, 0);
    if header_layout(line) is None {
        let role = if column_of(names, Role::X, 0) is None {
            Role::X
        } else if column_of(names, Role::Y, 0) is None {
            Role::Y
        } else if column_of(names, Role::T, 0) is None {
            Role::T
        } else {
            Role::P
        };
        assert(lacks(names, role));
    }
}

/// The sensor that is inferred from rows holds them all and is no larger than it must be.
pub proof fn sensor_holds_rows(rows: Seq<RawRow>)
    requires
        rows.len() > 0,
    ensures
        forall|i: int|
            0 <= i < rows.len() ==> (#[trigger] rows[i]).x <= reach(rows).0 && rows[i].y <= reach(
                rows,
            ).1,
        exists|i: int| 0 <= i < rows.len() && (#[trigger] rows[i]).x == reach(rows).0,
        exists|i: int| 0 <= i < rows.len() && (#[trigger] rows[i]).y == reach(rows).1,
    decreases rows.len(),
{
    let rest = rows.drop_last();
    let n = rest.len() as int;
    assert(rows.last() == rows[n]);
    if rest.len() > 0 {
        sensor_holds_rows(rest);
        assert forall|i: int| 0 <= i < rows.len() implies (#[trigger] rows[i]).x <= reach(rows).0
            && rows[i].y <= reach(rows).1 by {
            if i < n {
                assert(rest[i] == rows[i]);
            }
        }
        let i = choose|i: int| 0 <= i < rest.len() && (#[trigger] rest[i]).x == reach(rest).0;
        let j = choose|j: int| 0 <= j < rest.len() && (#[trigger] rest[j]).y == reach(rest).1;
        assert(rows[i] == rest[i] && rows[j] == rest[j]);
    } else {
        assert(reach(rest) == (-1int, -1int));
    }
}

/// The extent that is inferred from coordinates is one more than the largest of them.
pub proof fn extent_holds(values: Seq<u16>)
    requires
        values.len() > 0,
    ensures
        forall|i: int| 0 <= i < values.len() ==> #[trigger] values[i] < extent_of(values),
        exists|i: int| 0 <= i < values.len() && #[trigger] values[i] + 1 == extent_of(values),
    decreases values.len(),
{
    let rest = values.drop_last();
    let n = rest.len() as int;
    assert(values.last() == values[n]);
    if rest.len() > 0 {
        extent_holds(rest);
        assert forall|i: int| 0 <= i < values.len() implies #[trigger] values[i] < extent_of(
            values,
        ) by {
            if i < n {
                assert(rest[i] == values[i]);
            }
        }
        let i = choose|i: int| 0 <= i < rest.len() && #[trigger] rest[i] + 1 == extent_of(rest);
        assert(values[i] == rest[i]);
        assert(values[n] + 1 == extent_of(values) || values[i] + 1 == extent_of(values));
    } else {
        assert(crate::io::npz::peak(rest) == -1);
        assert(values[n] + 1 == extent_of(values));
    }
}

/// The top of a column is the largest of its coordinates, and zero if none is above.
pub proof fn top_holds(values: Seq<i64>)
    ensures
        top_of(values) >= 0,
        forall|i: int| 0 <= i < values.len() ==> #[trigger] values[i] <= top_of(values),
        top_of(values) == 0 || exists|i: int|
            0 <= i < values.len() && #[trigger] values[i] == top_of(values),
    decreases values.len(),
{
    if values.len() > 0 {
        let rest = values.drop_last();
        let n = rest.len() as int;
        assert(values.last() == values[n]);
        top_holds(rest);
        assert forall|i: int| 0 <= i < values.len() implies #[trigger] values[i] <= top_of(
            values,
        ) by {
            if i < n {
                assert(rest[i] == values[i]);
            }
        }
        if values.last() > top_of(rest) {
            assert(values[n] == top_of(values));
        } else if top_of(rest) != 0 {
            let i = choose|i: int| 0 <= i < rest.len() && #[trigger] rest[i] == top_of(rest);
            assert(values[i] == top_of(values));
        }
    }
}

/// The rows that are kept are exactly those on the sensor that was asked for, in their order.
pub proof fn kept_rows_listed(sensor: Option<(usize, usize)>, rows: Seq<RawRow>) -> (places: Seq<
    int,
>)
    ensures
        are_places(
            places,
            rows.len() as int,
            |i: int|
                sensor is None || (rows[i].x < (sensor->0).0 && rows[i].y < (sensor->0).1),
        ),
        are_items(kept_rows(sensor, rows), rows, places),
    decreases rows.len(),
{
    let holds = |i: int| sensor is None || (rows[i].x < (sensor->0).0 && rows[i].y < (sensor->0).1);
    if rows.len() == 0 {
        Seq::empty()
    } else {
        let rest = rows.drop_last();
        let n = rest.len() as int;
        let before = kept_rows_listed(sensor, rest);
        let held = |i: int|
            sensor is None || (rest[i].x < (sensor->0).0 && rest[i].y < (sensor->0).1);
        places_agree(before, n, held, holds);
        places_push(before, n, holds);
        assert(rows.last() == rows[n]);
        assert(row_kept(sensor, rows[n]) == holds(n));
        if holds(n) {
            before.push(n)
        } else {
            before
        }
    }
}

/// What a scan finds: the farthest column and row and the first and last time of the rows on the
/// sensor; the first and last time of all rows; and whether one of them has a fraction.
#[verifier::spinoff_prover]
#[verifier::rlimit(40)]
pub proof fn scan_finds(sensor: Option<(usize, usize)>, starts: Seq<u64>, rows: Seq<RawRow>)
    requires
        starts.len() == rows.len(),
        forall|i: int| 0 <= i < rows.len() ==> !is_nan((#[trigger] rows[i]).t),
    ensures
        ({
            let s = scan_rows(sensor, starts, rows);
            let kept = kept_rows(sensor, rows);
            &&& forall|i: int|
                0 <= i < kept.len() ==> (#[trigger] kept[i]).x <= s.max_x && kept[i].y <= s.max_y
                    && order(s.min_t) <= order(kept[i].t) <= order(s.max_t)
            &&& s.max_x == 0 || exists|i: int|
                0 <= i < kept.len() && (#[trigger] kept[i]).x == s.max_x
            &&& s.max_y == 0 || exists|i: int|
                0 <= i < kept.len() && (#[trigger] kept[i]).y == s.max_y
            &&& s.min_t == INFINITY || exists|i: int|
                0 <= i < kept.len() && (#[trigger] kept[i]).t == s.min_t
            &&& s.max_t == NEG_INFINITY || exists|i: int|
                0 <= i < kept.len() && (#[trigger] kept[i]).t == s.max_t
            &&& forall|i: int|
                0 <= i < rows.len() ==> order(s.all_min) <= order((#[trigger] rows[i]).t) <= order(
                    s.all_max,
                )
            &&& s.all_min == INFINITY || exists|i: int|
                0 <= i < rows.len() && (#[trigger] rows[i]).t == s.all_min
            &&& s.all_max == NEG_INFINITY || exists|i: int|
                0 <= i < rows.len() && (#[trigger] rows[i]).t == s.all_max
            &&& s.fractional <==> exists|i: int|
                0 <= i < rows.len() && is_fractional((#[trigger] rows[i]).t)
        }),
    decreases rows.len(),
{
    if rows.len() > 0 {
        let n = rows.len() - 1;
        let rest = rows.drop_last();
        let before = scan_rows(sensor, starts.drop_last(), rest);
        let now = scan_rows(sensor, starts, rows);
        let held = kept_rows(sensor, rest);
        let kept = kept_rows(sensor, rows);
        let row = rows[n];
        assert(rows.last() == row);
        assert forall|i: int| 0 <= i < rest.len() implies !is_nan((#[trigger] rest[i]).t) by {
            assert(rest[i] == rows[i]);
        }
        scan_finds(sensor, starts.drop_last(), rest);
        scan_numbers(sensor, starts.drop_last(), rest);
        assert(!is_nan(row.t));
        assert forall|i: int| 0 <= i < rows.len() implies order(now.all_min) <= order(
            (#[trigger] rows[i]).t,
        ) <= order(now.all_max) by {
            if i < n {
                assert(rest[i] == rows[i]);
            }
        }
        if now.all_min == before.all_min && before.all_min != INFINITY {
            let i = choose|i: int| 0 <= i < rest.len() && (#[trigger] rest[i]).t == before.all_min;
            assert(rows[i] == rest[i]);
        }
        if now.all_max == before.all_max && before.all_max != NEG_INFINITY {
            let i = choose|i: int| 0 <= i < rest.len() && (#[trigger] rest[i]).t == before.all_max;
            assert(rows[i] == rest[i]);
        }
        if before.fractional {
            let i = choose|i: int| 0 <= i < rest.len() && is_fractional((#[trigger] rest[i]).t);
            assert(rows[i] == rest[i]);
        }
        if exists|i: int| 0 <= i < rows.len() && is_fractional((#[trigger] rows[i]).t) {
            let i = choose|i: int| 0 <= i < rows.len() && is_fractional((#[trigger] rows[i]).t);
            if i < n {
                assert(rest[i] == rows[i]);
            }
        }
        if row_kept(sensor, row) {
            assert(kept == held.push(row));
            let m = held.len() as int;
            assert(kept[m] == row);
            assert forall|i: int| 0 <= i < kept.len() implies (#[trigger] kept[i]).x <= now.max_x
                && kept[i].y <= now.max_y && order(now.min_t) <= order(kept[i].t) <= order(
                now.max_t,
            ) by {
                if i < m {
                    assert(held[i] == kept[i]);
                }
            }
            if now.max_x == before.max_x && before.max_x != 0 {
                let i = choose|i: int| 0 <= i < held.len() && (#[trigger] held[i]).x == before.max_x;
                assert(kept[i] == held[i]);
            }
            if now.max_y == before.max_y && before.max_y != 0 {
                let i = choose|i: int| 0 <= i < held.len() && (#[trigger] held[i]).y == before.max_y;
                assert(kept[i] == held[i]);
            }
            if now.min_t == before.min_t && before.min_t != INFINITY {
                let i = choose|i: int| 0 <= i < held.len() && (#[trigger] held[i]).t == before.min_t;
                assert(kept[i] == held[i]);
            }
            if now.max_t == before.max_t && before.max_t != NEG_INFINITY {
                let i = choose|i: int| 0 <= i < held.len() && (#[trigger] held[i]).t == before.max_t;
                assert(kept[i] == held[i]);
            }
        } else {
            assert(kept == held);
        }
    }
}

proof fn scan_numbers(sensor: Option<(usize, usize)>, starts: Seq<u64>, rows: Seq<RawRow>)
    requires
        starts.len() == rows.len(),
        forall|i: int| 0 <= i < rows.len() ==> !is_nan((#[trigger] rows[i]).t),
    ensures
        ({
            let s = scan_rows(sensor, starts, rows);
            !is_nan(s.all_min) && !is_nan(s.all_max) && !is_nan(s.min_t) && !is_nan(s.max_t)
        }),
    decreases rows.len(),
{
    if rows.len() > 0 {
        let rest = rows.drop_last();
        assert forall|i: int| 0 <= i < rest.len() implies !is_nan((#[trigger] rest[i]).t) by {
            assert(rest[i] == rows[i]);
        }
        scan_numbers(sensor, starts.drop_last(), rest);
        assert(!is_nan(rows[rows.len() - 1].t));
    }
}

/// The smaller and the larger of two numbers are the two of them, in order; what is not a number
/// gives way.
pub proof fn smaller_and_larger(a: u64, b: u64)
    ensures
        !is_nan(a) && !is_nan(b) ==> order(smaller(a, b)) <= order(larger(a, b)),
        !is_nan(a) && !is_nan(b) ==> order(smaller(a, b)) <= order(a) <= order(larger(a, b)),
        !is_nan(a) && !is_nan(b) ==> order(smaller(a, b)) <= order(b) <= order(larger(a, b)),
        smaller(a, b) == a || smaller(a, b) == b,
        larger(a, b) == a || larger(a, b) == b,
        is_nan(b) ==> smaller(a, b) == a && larger(a, b) == a,
        is_nan(a) && !is_nan(b) ==> smaller(a, b) == b && larger(a, b) == b,
{
}

/// An unsigned field is the number its bytes spell, the least significant first or the most.
pub proof fn unsigned_spells(b: Seq<u8>, at: int)
    ensures
        unsigned_of(b, at, 1, false) == b[at],
        unsigned_of(b, at, 1, true) == b[at],
        unsigned_of(b, at, 2, false) == le16(b, at),
        unsigned_of(b, at, 2, true) == 0x100 * b[at] + b[at + 1],
        unsigned_of(b, at, 4, false) == le32(b, at),
        unsigned_of(b, at, 4, true) == be32(b, at),
        unsigned_of(b, at, 8, false) == le64(b, at),
        unsigned_of(b, at, 8, true) == 0x1_0000_0000 * be32(b, at) + be32(b, at + 4),
{
    reveal_with_fuel(unsigned_of, 9);
}

/// A signed field is the number whose two's complement its bytes spell: the one in range that is
/// congruent to them.
pub proof fn signed_spells(b: Seq<u8>, at: int, size: usize, big: bool)
    requires
        size == 1 || size == 2 || size == 4 || size == 8,
    ensures
        ({
            let half = if size == 1 {
                0x80int
            } else if size == 2 {
                0x8000
            } else if size == 4 {
                0x8000_0000
            } else {
                0x8000_0000_0000_0000
            };
            let v = scalar_value(b, at, ScalarKind::Signed { size }, big);
            let u = unsigned_of(b, at, size as int, big);
            &&& -half <= v < half
            &&& v == u || v == u - 2 * half
            &&& size < 8 ==> scalar_value(b, at, ScalarKind::Unsigned { size }, big) == u
        }),
{
    unsigned_spells(b, at);
}

/// A field with a truth value is one where its byte is not zero.
pub proof fn boolean_spells(b: Seq<u8>, at: int, big: bool)
    ensures
        scalar_value(b, at, ScalarKind::Boolean, big) == (if b[at] == 0 {
            0int
        } else {
            1
        }),
{
}

/// A number with a fraction becomes the integer next to it toward zero: its magnitude times two to
/// the bits after the point is no more than the significand times two to the exponent, and would be
/// more if it were one larger.
pub proof fn truncates_toward_zero(negative: bool, e: int, m: int, bits: int)
    requires
        0 <= e < 63,
        0 <= m,
        0 <= bits,
    ensures
        ({
            let v = truncated(negative, e, m, bits);
            let magnitude = if negative {
                -v
            } else {
                v
            };
            &&& magnitude >= 0
            &&& magnitude * pow2(bits as nat) <= m * pow2(e as nat) < (magnitude + 1) * pow2(
                bits as nat,
            )
        }),
{
    lemma_pow2_pos(bits as nat);
    lemma_pow2_pos(e as nat);
    let pe = pow2(e as nat) as int;
    let pb = pow2(bits as nat) as int;
    if e <= bits {
        let d = pow2((bits - e) as nat) as int;
        lemma_pow2_pos((bits - e) as nat);
        lemma_pow2_adds((bits - e) as nat, e as nat);
        let q = m / d;
        assert(q >= 0 && q * d <= m < q * d + d) by (nonlinear_arith)
            requires
                q == m / d,
                d > 0,
                m >= 0,
        ;
        assert(q * pb <= m * pe < (q + 1) * pb) by (nonlinear_arith)
            requires
                q * d <= m < q * d + d,
                pb == d * pe,
                pe > 0,
        ;
    } else {
        let d = pow2((e - bits) as nat) as int;
        lemma_pow2_pos((e - bits) as nat);
        lemma_pow2_adds((e - bits) as nat, bits as nat);
        assert(m * d >= 0 && (m * d) * pb == m * pe && m * pe < (m * d + 1) * pb) by (nonlinear_arith)
            requires
                pe == d * pb,
                pb > 0,
                d > 0,
                m >= 0,
        ;
    }
}

/// The bits of a double precision number are a sign, eleven bits of exponent and 52 of fraction; of
/// a single precision one, a sign, eight and 23. Below one it is zero, and so is what is not a
/// number.
pub proof fn float_bits(negative: bool, e: int, f: int)
    ensures
        0 <= e < 0x800 && 0 <= f < 0x10_0000_0000_0000 ==> ({
            let v = float_value(
                (if negative {
                    0x8000_0000_0000_0000int
                } else {
                    0
                }) + e * 0x10_0000_0000_0000 + f,
                8,
            );
            &&& e == 0x7FF && f != 0 ==> v == 0
            &&& !(e == 0x7FF && f != 0) ==> v == truncated(
                negative,
                e - 1023,
                0x10_0000_0000_0000 + f,
                52,
            )
            &&& e < 1023 ==> v == 0
        }),
        0 <= e < 0x100 && 0 <= f < 0x80_0000 ==> ({
            let v = float_value(
                (if negative {
                    0x8000_0000int
                } else {
                    0
                }) + e * 0x80_0000 + f,
                4,
            );
            &&& e == 0xFF && f != 0 ==> v == 0
            &&& !(e == 0xFF && f != 0) ==> v == truncated(negative, e - 127, 0x80_0000 + f, 23)
            &&& e < 127 ==> v == 0
        }),
{
    if 0 <= e < 0x800 && 0 <= f < 0x10_0000_0000_0000 {
        let p = (if negative {
            0x8000_0000_0000_0000int
        } else {
            0
        }) + e * 0x10_0000_0000_0000 + f;
        assert(p / 0x10_0000_0000_0000 == e + (if negative {
            0x800int
        } else {
            0
        }));
        assert(p % 0x10_0000_0000_0000 == f);
    }
    if 0 <= e < 0x100 && 0 <= f < 0x80_0000 {
        let p = (if negative {
            0x8000_0000int
        } else {
            0
        }) + e * 0x80_0000 + f;
        assert(p / 0x80_0000 == e + (if negative {
            0x100int
        } else {
            0
        }));
        assert(p % 0x80_0000 == f);
    }
}

/// The count of a pixel grows by the number of events at it.
pub proof fn counts_grow(
    start: u64,
    xs: Seq<usize>,
    ys: Seq<usize>,
    width: int,
    height: int,
    x: int,
    y: int,
    n: int,
) -> (places: Seq<int>)
    requires
        0 <= x < width,
        0 <= y < height,
        0 <= n <= xs.len(),
        start + n <= u64::MAX,
    ensures
        are_places(places, n, |i: int| xs[i] == x && ys[i] == y),
        pixel_count(start, xs, ys, width, height, y * width + x, n) == start + places.len(),
        places.len() <= n,
    decreases n,
{
    let holds = |i: int| xs[i] == x && ys[i] == y;
    if n == 0 {
        Seq::empty()
    } else {
        let before = counts_grow(start, xs, ys, width, height, x, y, n - 1);
        places_push(before, n - 1, holds);
        if xs[n - 1] < width && ys[n - 1] < height {
            crate::representation::frame_laws::pixel_place(
                xs[n - 1] as int,
                ys[n - 1] as int,
                x,
                y,
                width,
            );
        }
        if holds(n - 1) {
            before.push(n - 1)
        } else {
            before
        }
    }
}

/// A window of a recording ends before the first event at or after its end.
pub proof fn window_ends_there(rows: Seq<RawEvent>, t: int, i: int)
    requires
        0 <= i <= rows.len(),
    ensures
        i <= before_time(rows, t, i) <= rows.len(),
        forall|j: int| i <= j < before_time(rows, t, i) ==> (#[trigger] rows[j]).t < t,
        before_time(rows, t, i) < rows.len() ==> rows[before_time(rows, t, i)].t >= t,
    decreases rows.len() - i,
{
    if i < rows.len() && rows[i].t < t {
        window_ends_there(rows, t, i + 1);
    }
}

/// A row of integers is the event that its columns spell; a polarity above zero is positive.
pub proof fn row_is_an_event(row: TextRow, x: u16, y: u16, t: i64, v: i32)
    requires
        row.x@ == decimal(x as nat),
        row.y@ == decimal(y as nat),
        row.p@ == signed_decimal(v as int),
    ensures
        exact_event(row, t) == (RawEvent { x, y, t, p: v > 0 }),
{
    crate::chars_laws::numbers_read_back(x as int, 0, 0xFFFF);
    crate::chars_laws::numbers_read_back(y as int, 0, 0xFFFF);
    crate::chars_laws::numbers_read_back(v as int, i32::MIN as int, i32::MAX as int);
}

/// A finite number has an exponent below the highest, and a positive one a pattern between zero and
/// infinity.
pub proof fn positive_patterns(bits: u64)
    ensures
        crate::representation::surfaces::is_positive(bits) <==> 0 < bits < INFINITY,
        crate::representation::masks::is_percentage(bits) <==> bits <= 0x4059_0000_0000_0000 || bits
            == 0x8000_0000_0000_0000,
{
}

/// A number from one on has a fraction if and only if no integer, times two to as many places as its
/// exponent leaves after the point, is its significand.
#[verifier::spinoff_prover]
#[verifier::rlimit(40)]
pub proof fn fraction_is_what_is_left(bits: u64, e: int, f: int)
    requires
        0 <= e < 52,
        0 <= f < 0x10_0000_0000_0000,
        bits == (e + 1023) * 0x10_0000_0000_0000 + f,
    ensures
        is_fractional(bits) <==> forall|v: int|
            #[trigger] (v * pow2((52 - e) as nat)) != 0x10_0000_0000_0000 + f,
{
    let d = pow2((52 - e) as nat) as int;
    let m = 0x10_0000_0000_0000 + f;
    lemma_pow2_pos((52 - e) as nat);
    lemma_pow2_adds((52 - e) as nat, e as nat);
    assert(pow2(52) == 0x10_0000_0000_0000) by {
        vstd::arithmetic::power2::lemma2_to64();
        vstd::arithmetic::power2::lemma2_to64_rest();
    }
    let pe = pow2(e as nat) as int;
    assert(bits as int / 0x10_0000_0000_0000 == e + 1023);
    assert(bits as int % 0x10_0000_0000_0000 == f);
    assert(m == d * pe + f);
    vstd::arithmetic::div_mod::lemma_mod_multiples_vanish(pe, f, d);
    assert(d * pe + f == pe * d + f) by (nonlinear_arith);
    assert(m % d == f % d);
    if f % d == 0 {
        vstd::arithmetic::div_mod::lemma_fundamental_div_mod(m, d);
        assert((m / d) * d == d * (m / d)) by (nonlinear_arith);
        assert((m / d) * pow2((52 - e) as nat) == m);
    } else {
        assert forall|v: int| #[trigger] (v * pow2((52 - e) as nat)) != m by {
            if v * d == m {
                vstd::arithmetic::div_mod::lemma_mod_multiples_basic(v, d);
            }
        }
    }
}

} // verus!
