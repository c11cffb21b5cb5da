//! What trimming, searching and reading numbers do to a text.

use vstd::prelude::*;

use crate::chars::{
    all_digits, decimal, decimal_round_trip, digits_value, find_char, find_text, find_whitespace,
    is_digit, lowered, parsed, parsed_signed, power_of_ten, signed_decimal, strip_run, trim, trim_end,
    trim_start, whitespace,
};

verus! {

/// Trimming takes white space off both ends, all of it and nothing else.
pub proof fn trim_takes_white_space(s: Seq<char>) -> (ends: (int, int))
    ensures
        0 <= ends.0 <= ends.1 <= s.len(),
        trim(s) == s.subrange(ends.0, ends.1),
        forall|i: int| 0 <= i < ends.0 || ends.1 <= i < s.len() ==> whitespace(#[trigger] s[i]),
        trim(s).len() > 0 ==> !whitespace(trim(s)[0]) && !whitespace(trim(s)[trim(s).len() - 1]),
{
    let a = start_of(s);
    let rest = trim_start(s);
    let b = end_of(rest);
    assert(trim(s) =~= s.subrange(a, a + b));
    assert forall|i: int| 0 <= i < a || a + b <= i < s.len() implies whitespace(#[trigger] s[i]) by {
        if a + b <= i {
            assert(rest[i - a] == s[i]);
        }
    }
    if trim(s).len() > 0 {
        assert(trim(s)[0] == rest[0]);
    }
    (a, a + b)
}

proof fn start_of(s: Seq<char>) -> (a: int)
    ensures
        0 <= a <= s.len(),
        trim_start(s) == s.subrange(a, s.len() as int),
        forall|i: int| 0 <= i < a ==> whitespace(#[trigger] s[i]),
        trim_start(s).len() > 0 ==> !whitespace(trim_start(s)[0]),
    decreases s.len(),
{
    if s.len() > 0 && whitespace(s[0]) {
        let rest = s.skip(1);
        let a = start_of(rest);
        assert(trim_start(s) =~= s.subrange(a + 1, s.len() as int));
        assert forall|i: int| 0 <= i < a + 1 implies whitespace(#[trigger] s[i]) by {
            if i > 0 {
                assert(rest[i - 1] == s[i]);
            }
        }
        a + 1
    } else {
        assert(s =~= s.subrange(0, s.len() as int));
        0
    }
}

proof fn end_of(s: Seq<char>) -> (b: int)
    ensures
        0 <= b <= s.len(),
        trim_end(s) == s.subrange(0, b),
        forall|i: int| b <= i < s.len() ==> whitespace(#[trigger] s[i]),
        trim_end(s).len() > 0 ==> !whitespace(trim_end(s)[trim_end(s).len() - 1]),
    decreases s.len(),
{
    if s.len() > 0 && whitespace(s.last()) {
        let rest = s.drop_last();
        let b = end_of(rest);
        assert(trim_end(s) =~= s.subrange(0, b));
        assert forall|i: int| b <= i < s.len() implies whitespace(#[trigger] s[i]) by {
            if i < rest.len() {
                assert(rest[i] == s[i]);
            }
        }
        b
    } else {
        assert(s =~= s.subrange(0, s.len() as int));
        s.len() as int
    }
}

/// Stripping a mark takes the run of it off the front, all of it and nothing else.
pub proof fn strip_takes_the_run(s: Seq<char>, c: char) -> (a: int)
    ensures
        0 <= a <= s.len(),
        strip_run(s, c) == s.subrange(a, s.len() as int),
        forall|i: int| 0 <= i < a ==> #[trigger] s[i] == c,
        strip_run(s, c).len() > 0 ==> strip_run(s, c)[0] != c,
    decreases s.len(),
{
    if s.len() > 0 && s[0] == c {
        let rest = s.skip(1);
        let a = strip_takes_the_run(rest, c);
        assert(strip_run(s, c) =~= s.subrange(a + 1, s.len() as int));
        assert forall|i: int| 0 <= i < a + 1 implies #[trigger] s[i] == c by {
            if i > 0 {
                assert(rest[i - 1] == s[i]);
            }
        }
        a + 1
    } else {
        assert(s =~= s.subrange(0, s.len() as int));
        0
    }
}

/// The white space that is found is the first.
pub proof fn first_white_space(s: Seq<char>, at: int)
    requires
        0 <= at <= s.len(),
    ensures
        at <= find_whitespace(s, at) <= s.len(),
        forall|i: int| at <= i < find_whitespace(s, at) ==> !whitespace(#[trigger] s[i]),
        find_whitespace(s, at) < s.len() ==> whitespace(s[find_whitespace(s, at)]),
    decreases s.len() - at,
{
    if at < s.len() && !whitespace(s[at]) {
        first_white_space(s, at + 1);
    }
}

/// The character that is found is the first.
pub proof fn first_char(s: Seq<char>, c: char, at: int)
    requires
        0 <= at <= s.len(),
    ensures
        at <= find_char(s, c, at) <= s.len(),
        forall|i: int| at <= i < find_char(s, c, at) ==> #[trigger] s[i] != c,
        find_char(s, c, at) < s.len() ==> s[find_char(s, c, at)] == c,
    decreases s.len() - at,
{
    if at < s.len() && s[at] != c {
        first_char(s, c, at + 1);
    }
}

/// Whether a text stands at a place of another.
pub open spec fn stands_at(s: Seq<char>, text: Seq<char>, at: int) -> bool {
    &&& 0 <= at
    &&& at + text.len() <= s.len()
    &&& forall|i: int| 0 <= i < text.len() ==> s[at + i] == #[trigger] text[i]
}

/// The place that is found is the first at which a text stands.
pub proof fn first_text(s: Seq<char>, text: Seq<char>, at: int)
    requires
        0 <= at,
    ensures
        match find_text(s, text, at) {
            Some(k) => at <= k && stands_at(s, text, k) && forall|i: int|
                at <= i < k ==> !#[trigger] stands_at(s, text, i),
            None => forall|i: int| at <= i ==> !#[trigger] stands_at(s, text, i),
        },
    decreases s.len() - at + 1,
{
    if at + text.len() <= s.len() {
        let piece = s.subrange(at, at + text.len());
        if piece == text {
            assert forall|i: int| 0 <= i < text.len() implies s[at + i] == #[trigger] text[i] by {
                assert(piece[i] == s[at + i]);
            }
        } else {
            if stands_at(s, text, at) {
                assert(piece =~= text);
            }
            first_text(s, text, at + 1);
        }
    }
}

/// A digit counts ten times what the one after it counts.
pub proof fn digits_by_place(s: Seq<char>, d: char)
    requires
        s.len() >= 0,
        all_digits(s),
        is_digit(d),
    ensures
        digits_value(seq![d] + s) == (d as u32 - '0' as u32) * power_of_ten(s.len()) + digits_value(s),
    decreases s.len(),
{
    let all = seq![d] + s;
    if s.len() == 0 {
        assert(all.drop_last() =~= Seq::<char>::empty());
        assert(all.last() == d);
        assert(digits_value(Seq::<char>::empty()) == 0);
        assert(power_of_ten(0) == 1);
    } else {
        let rest = s.drop_last();
        assert forall|i: int| 0 <= i < rest.len() implies is_digit(#[trigger] rest[i]) by {
            assert(rest[i] == s[i]);
        }
        digits_by_place(rest, d);
        assert(all.drop_last() =~= seq![d] + rest);
        assert(all.last() == s.last());
        let v = d as u32 - '0' as u32;
        let p = power_of_ten(rest.len()) as int;
        assert(power_of_ten(s.len()) == 10 * p);
        assert(10 * (v * p) == v * (10 * p)) by (nonlinear_arith);
    }
}

/// A number reads back from its decimal form, with a sign or without, as long as it is in range.
pub proof fn numbers_read_back(n: int, min: int, max: int)
    requires
        min <= n <= max,
    ensures
        parsed_signed(signed_decimal(n), min, max) == Some(n),
        n >= 0 ==> parsed(decimal(n as nat), max) == Some(n),
        n >= 0 ==> parsed(seq!['+'] + decimal(n as nat), max) == Some(n),
{
    if n >= 0 {
        decimal_round_trip(n as nat);
        let d = decimal(n as nat);
        assert(is_digit(d[0]));
        assert((seq!['+'] + d).skip(1) =~= d);
    } else {
        decimal_round_trip((-n) as nat);
        let d = decimal((-n) as nat);
        assert((seq!['-'] + d).skip(1) =~= d);
    }
}

/// What is not a run of digits after an optional sign is no number, nor is one out of range.
pub proof fn other_texts_are_no_numbers(s: Seq<char>, max: int, i: int)
    ensures
        s.len() == 0 ==> parsed(s, max) is None,
        0 < i < s.len() && !is_digit(s[i]) ==> parsed(s, max) is None,
        s.len() > 0 && !is_digit(s[0]) && s[0] != '+' ==> parsed(s, max) is None,
        parsed(s, max) matches Some(v) ==> 0 <= v <= max,
{
    let digits = if s.len() > 0 && s[0] == '+' {
        s.skip(1)
    } else {
        s
    };
    if 0 < i < s.len() && !is_digit(s[i]) {
        if s[0] == '+' {
            assert(digits[i - 1] == s[i]);
        } else {
            assert(digits[i] == s[i]);
        }
    }
    if s.len() > 0 && !is_digit(s[0]) && s[0] != '+' {
        assert(digits[0] == s[0]);
    }
}

/// Lower-casing changes the 26 letters from `A` to `Z` and no other character.
pub proof fn lowering_changes_letters(s: Seq<char>, i: int)
    requires
        0 <= i < s.len(),
    ensures
        lowered(s).len() == s.len(),
        'A' <= s[i] <= 'Z' ==> lowered(s)[i] as u32 == s[i] as u32 + 32,
        !('A' <= s[i] <= 'Z') ==> lowered(s)[i] == s[i],
{
}

} // verus!
