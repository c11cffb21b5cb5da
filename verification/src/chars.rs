//! Text as sequences of characters: trimming, splitting, and decimal numbers.

use vstd::prelude::*;
use vstd::slice::slice_subrange;
use vstd::string::*;

verus! {

/// Appends a character to a string: `String::push`, which documents exactly that.
pub assume_specification[ String::push ](s: &mut String, c: char)
    ensures
        final(s)@ == old(s)@.push(c),
;

/// Characters with the Unicode `White_Space` property.
pub open spec fn whitespace(c: char) -> bool {
    let v = c as u32;
    ||| 0x09 <= v <= 0x0D
    ||| v == 0x20
    ||| v == 0x85
    ||| v == 0xA0
    ||| v == 0x1680
    ||| 0x2000 <= v <= 0x200A
    ||| v == 0x2028
    ||| v == 0x2029
    ||| v == 0x202F
    ||| v == 0x205F
    ||| v == 0x3000
}

/// The lower-case form of an ASCII letter; any other character as it is.
pub open spec fn lower(c: char) -> char {
    if 'A' <= c <= 'Z' {
        (c as u32 + 32) as char
    } else {
        c
    }
}

/// ASCII lower-casing of a text.
pub open spec fn lowered(s: Seq<char>) -> Seq<char> {
    Seq::new(s.len(), |i: int| lower(s[i]))
}

/// `s` without its leading white space.
pub open spec fn trim_start(s: Seq<char>) -> Seq<char>
    decreases s.len(),
{
    if s.len() > 0 && whitespace(s[0]) {
        trim_start(s.skip(1))
    } else {
        s
    }
}

/// `s` without its trailing white space.
pub open spec fn trim_end(s: Seq<char>) -> Seq<char>
    decreases s.len(),
{
    if s.len() > 0 && whitespace(s.last()) {
        trim_end(s.drop_last())
    } else {
        s
    }
}

/// `s` without white space at either end.
pub open spec fn trim(s: Seq<char>) -> Seq<char> {
    trim_end(trim_start(s))
}

/// `s` without its leading run of `c`.
pub open spec fn strip_run(s: Seq<char>, c: char) -> Seq<char>
    decreases s.len(),
{
    if s.len() > 0 && s[0] == c {
        strip_run(s.skip(1), c)
    } else {
        s
    }
}

/// The first place at or after `at` holding white space, or the length.
pub open spec fn find_whitespace(s: Seq<char>, at: int) -> int
    decreases s.len() - at,
{
    if at >= s.len() {
        s.len() as int
    } else if whitespace(s[at]) {
        at
    } else {
        find_whitespace(s, at + 1)
    }
}

/// The first place at or after `at` holding `c`, or the length.
pub open spec fn find_char(s: Seq<char>, c: char, at: int) -> int
    decreases s.len() - at,
{
    if at >= s.len() {
        s.len() as int
    } else if s[at] == c {
        at
    } else {
        find_char(s, c, at + 1)
    }
}

/// The first place at or after `at` where `text` stands, if any.
pub open spec fn find_text(s: Seq<char>, text: Seq<char>, at: int) -> Option<int>
    decreases s.len() - at + 1,
{
    if at < 0 || at + text.len() > s.len() {
        None
    } else if s.subrange(at, at + text.len()) == text {
        Some(at)
    } else {
        find_text(s, text, at + 1)
    }
}

/// Whether a text begins with another.
pub open spec fn begins(s: Seq<char>, prefix: Seq<char>) -> bool {
    prefix.len() <= s.len() && s.take(prefix.len() as int) == prefix
}

pub open spec fn is_digit(c: char) -> bool {
    '0' <= c <= '9'
}

pub open spec fn all_digits(s: Seq<char>) -> bool {
    forall|i: int| 0 <= i < s.len() ==> is_digit(#[trigger] s[i])
}

/// The value of a run of decimal digits.
pub open spec fn digits_value(s: Seq<char>) -> nat
    decreases s.len(),
{
    if s.len() == 0 {
        0
    } else {
        10 * digits_value(s.drop_last()) + (s.last() as u32 - '0' as u32) as nat
    }
}

/// The number a text spells: an optional `+`, then at least one digit, and no more than `max`.
pub open spec fn parsed(s: Seq<char>, max: int) -> Option<int> {
    let digits = if s.len() > 0 && s[0] == '+' {
        s.skip(1)
    } else {
        s
    };
    if digits.len() > 0 && all_digits(digits) && digits_value(digits) <= max {
        Some(digits_value(digits) as int)
    } else {
        None
    }
}

/// The signed number a text spells: an optional sign, then at least one digit.
pub open spec fn parsed_signed(s: Seq<char>, min: int, max: int) -> Option<int> {
    if s.len() > 0 && s[0] == '-' {
        let digits = s.skip(1);
        if digits.len() > 0 && all_digits(digits) && -digits_value(digits) >= min {
            Some(-digits_value(digits))
        } else {
            None
        }
    } else {
        parsed(s, max)
    }
}

/// The decimal digit of a value below ten.
pub open spec fn digit_char(d: nat) -> char {
    ('0' as u32 + d) as char
}

/// A number in decimal.
pub open spec fn decimal(n: nat) -> Seq<char>
    decreases n,
{
    if n < 10 {
        seq![digit_char(n)]
    } else {
        decimal(n / 10).push(digit_char(n % 10))
    }
}

/// A signed number in decimal.
pub open spec fn signed_decimal(n: int) -> Seq<char> {
    if n < 0 {
        seq!['-'] + decimal((-n) as nat)
    } else {
        decimal(n as nat)
    }
}

/// Reading back the decimal form of a number gives the number.
pub proof fn decimal_round_trip(n: nat)
    ensures
        decimal(n).len() > 0,
        all_digits(decimal(n)),
        digits_value(decimal(n)) == n,
        parsed(decimal(n), n as int) == Some(n as int),
    decreases n,
{
    if n < 10 {
        assert(decimal(n).drop_last() =~= Seq::<char>::empty());
        assert(digits_value(Seq::<char>::empty()) == 0);
        assert(decimal(n).last() == digit_char(n));
    } else {
        decimal_round_trip(n / 10);
        assert(decimal(n).drop_last() =~= decimal(n / 10));
    }
    assert(is_digit(decimal(n)[0]));
}

pub open spec fn power_of_ten(k: nat) -> nat
    decreases k,
{
    if k == 0 {
        1
    } else {
        10 * power_of_ten((k - 1) as nat)
    }
}

/// A number below a power of ten has no more digits than that.
pub proof fn decimal_len(n: nat, k: nat)
    requires
        k >= 1,
        n < power_of_ten(k),
    ensures
        1 <= decimal(n).len() <= k,
    decreases k,
{
    if n >= 10 {
        if k == 1 {
            assert(power_of_ten(0) == 1);
        }
        decimal_len(n / 10, (k - 1) as nat);
    }
}

/// A machine integer has at most twenty digits.
pub proof fn decimal_short(n: u64)
    ensures
        1 <= decimal(n as nat).len() <= 20,
{
    reveal_with_fuel(power_of_ten, 21);
    decimal_len(n as nat, 20);
}

/// Trimming the front is skipping some characters.
pub proof fn trim_start_at(s: Seq<char>, k: int)
    requires
        0 <= k <= s.len(),
        forall|i: int| 0 <= i < k ==> whitespace(#[trigger] s[i]),
        k == s.len() || !whitespace(s[k]),
    ensures
        trim_start(s) == s.skip(k),
    decreases k,
{
    if k > 0 {
        assert(s.len() > 0 && whitespace(s[0]));
        trim_start_at(s.skip(1), k - 1);
        assert(s.skip(1).skip(k - 1) =~= s.skip(k));
    } else {
        assert(s.skip(0) =~= s);
    }
}

/// Trimming the back is taking some characters.
pub proof fn trim_end_at(s: Seq<char>, k: int)
    requires
        0 <= k <= s.len(),
        forall|i: int| k <= i < s.len() ==> whitespace(#[trigger] s[i]),
        k == 0 || !whitespace(s[k - 1]),
    ensures
        trim_end(s) == s.take(k),
    decreases s.len() - k,
{
    if k < s.len() {
        assert(whitespace(s[s.len() - 1]));
        trim_end_at(s.drop_last(), k);
        assert(s.drop_last().take(k) =~= s.take(k));
    } else {
        assert(s.take(k) =~= s);
    }
}

/// Stripping a run is skipping some characters.
pub proof fn strip_run_at(s: Seq<char>, c: char, k: int)
    requires
        0 <= k <= s.len(),
        forall|i: int| 0 <= i < k ==> #[trigger] s[i] == c,
        k == s.len() || s[k] != c,
    ensures
        strip_run(s, c) == s.skip(k),
    decreases k,
{
    if k > 0 {
        assert(s.len() > 0 && s[0] == c);
        strip_run_at(s.skip(1), c, k - 1);
        assert(s.skip(1).skip(k - 1) =~= s.skip(k));
    } else {
        assert(s.skip(0) =~= s);
    }
}

/// The characters of a string.
pub fn chars_of(s: &str) -> (chars: Vec<char>)
    ensures
        chars@ == s@,
{
    let mut chars: Vec<char> = Vec::new();
    for c in it: s.chars()
        invariant
            chars@ == it.seq().take(it.index()),
            it.seq() == s@,
    {
        chars.push(c);
        assert(it.seq().take(it.index() + 1) =~= it.seq().take(it.index()).push(c));
    }
    assert(s@.take(s@.len() as int) =~= s@);
    chars
}

/// The string of a run of characters.
pub fn string_of(chars: &[char]) -> (s: String)
    ensures
        s@ == chars@,
{
    let mut s = String::new();
    for i in 0..chars.len()
        invariant
            s@ == chars@.take(i as int),
    {
        s.push(chars[i]);
        assert(chars@.take(i + 1) =~= chars@.take(i as int).push(chars@[i as int]));
    }
    assert(chars@.take(chars@.len() as int) =~= chars@);
    s
}

/// Whether a character is white space.
pub fn is_whitespace(c: char) -> (yes: bool)
    ensures
        yes == whitespace(c),
{
    let v: u32 = c as u32;
    (0x09 <= v && v <= 0x0D) || v == 0x20 || v == 0x85 || v == 0xA0 || v == 0x1680 || (0x2000 <= v
        && v <= 0x200A) || v == 0x2028 || v == 0x2029 || v == 0x202F || v == 0x205F || v == 0x3000
}

/// ASCII lower-casing.
pub fn to_lower(s: &[char]) -> (out: Vec<char>)
    ensures
        out@ == lowered(s@),
{
    let mut out: Vec<char> = Vec::with_capacity(s.len());
    for i in 0..s.len()
        invariant
            out@.len() == i,
            forall|j: int| 0 <= j < i ==> #[trigger] out@[j] == lower(s@[j]),
    {
        let c = s[i];
        let d = if 'A' <= c && c <= 'Z' {
            (c as u8 + 32) as char
        } else {
            c
        };
        out.push(d);
    }
    assert(out@ =~= lowered(s@));
    out
}

/// `s` without white space at either end.
pub fn trimmed(s: &[char]) -> (out: &[char])
    ensures
        out@ == trim(s@),
{
    let mut start: usize = 0;
    while start < s.len() && is_whitespace(s[start])
        invariant
            start <= s@.len(),
            forall|i: int| 0 <= i < start ==> whitespace(#[trigger] s@[i]),
        decreases s@.len() - start,
    {
        start += 1;
    }
    proof {
        trim_start_at(s@, start as int);
    }
    let mut end: usize = s.len();
    while end > start && is_whitespace(s[end - 1])
        invariant
            start <= end <= s@.len(),
            forall|i: int| end <= i < s@.len() ==> whitespace(#[trigger] s@[i]),
        decreases end,
    {
        end -= 1;
    }
    proof {
        let front = s@.skip(start as int);
        assert forall|i: int| end - start <= i < front.len() implies whitespace(
            #[trigger] front[i],
        ) by {
            assert(front[i] == s@[i + start]);
        }
        trim_end_at(front, end - start);
        assert(front.take(end - start) =~= s@.subrange(start as int, end as int));
    }
    slice_subrange(s, start, end)
}

/// `s` without white space at its end.
pub fn trimmed_end(s: &[char]) -> (out: &[char])
    ensures
        out@ == trim_end(s@),
{
    let mut end: usize = s.len();
    while end > 0 && is_whitespace(s[end - 1])
        invariant
            end <= s@.len(),
            forall|i: int| end <= i < s@.len() ==> whitespace(#[trigger] s@[i]),
        decreases end,
    {
        end -= 1;
    }
    proof {
        trim_end_at(s@, end as int);
        assert(s@.take(end as int) =~= s@.subrange(0, end as int));
    }
    slice_subrange(s, 0, end)
}

/// `s` without its leading run of `c`.
pub fn without_run(s: &[char], c: char) -> (out: &[char])
    ensures
        out@ == strip_run(s@, c),
{
    let mut start: usize = 0;
    while start < s.len() && s[start] == c
        invariant
            start <= s@.len(),
            forall|i: int| 0 <= i < start ==> #[trigger] s@[i] == c,
        decreases s@.len() - start,
    {
        start += 1;
    }
    proof {
        strip_run_at(s@, c, start as int);
        assert(s@.skip(start as int) =~= s@.subrange(start as int, s@.len() as int));
    }
    slice_subrange(s, start, s.len())
}

/// The first place holding white space, or the length.
pub fn whitespace_at(s: &[char]) -> (at: usize)
    ensures
        at == find_whitespace(s@, 0),
        at <= s@.len(),
{
    let mut at: usize = 0;
    while at < s.len() && !is_whitespace(s[at])
        invariant
            at <= s@.len(),
            find_whitespace(s@, 0) == find_whitespace(s@, at as int),
        decreases s@.len() - at,
    {
        at += 1;
    }
    at
}

/// The first place at or after `from` holding `c`, or the length.
pub fn char_at(s: &[char], c: char, from: usize) -> (at: usize)
    requires
        from <= s@.len(),
    ensures
        at == find_char(s@, c, from as int),
        from <= at <= s@.len(),
        at < s@.len() ==> s@[at as int] == c,
{
    let mut at: usize = from;
    while at < s.len() && s[at] != c
        invariant
            from <= at <= s@.len(),
            find_char(s@, c, from as int) == find_char(s@, c, at as int),
        decreases s@.len() - at,
    {
        at += 1;
    }
    at
}

/// The first place at or after `from` where `text` stands, if any.
pub fn text_at(s: &[char], text: &[char], from: usize) -> (at: Option<usize>)
    requires
        from <= s@.len(),
    ensures
        match at {
            Some(i) => find_text(s@, text@, from as int) == Some(i as int) && from <= i && i
                + text@.len() <= s@.len(),
            None => find_text(s@, text@, from as int) is None,
        },
{
    let n: usize = s.len();
    let width: usize = text.len();
    if width > n || from > n - width {
        return None;
    }
    let mut at: usize = from;
    while at < n - width
        invariant
            from <= at <= n - width,
            n == s@.len(),
            width == text@.len(),
            width <= n,
            find_text(s@, text@, from as int) == find_text(s@, text@, at as int),
        decreases n - at,
    {
        if same(slice_subrange(s, at, at + width), text) {
            return Some(at);
        }
        at += 1;
    }
    if same(slice_subrange(s, at, at + width), text) {
        Some(at)
    } else {
        assert(find_text(s@, text@, at + 1) is None);
        None
    }
}

/// Whether two runs of characters are the same.
pub fn same(a: &[char], b: &[char]) -> (yes: bool)
    ensures
        yes == (a@ == b@),
{
    if a.len() != b.len() {
        return false;
    }
    for i in 0..a.len()
        invariant
            a@.len() == b@.len(),
            forall|j: int| 0 <= j < i ==> #[trigger] a@[j] == b@[j],
    {
        if a[i] != b[i] {
            return false;
        }
    }
    assert(a@ =~= b@);
    true
}

/// Whether a run of characters spells `text`.
pub fn spells(s: &[char], text: &str) -> (yes: bool)
    ensures
        yes == (s@ == text@),
{
    let wanted = chars_of(text);
    same(s, &wanted)
}

/// Whether a run of characters begins with `prefix`.
pub fn begins_with(s: &[char], prefix: &str) -> (yes: bool)
    ensures
        yes == begins(s@, prefix@),
{
    let wanted = chars_of(prefix);
    if wanted.len() > s.len() {
        return false;
    }
    assert(s@.subrange(0, wanted@.len() as int) =~= s@.take(wanted@.len() as int));
    same(slice_subrange(s, 0, wanted.len()), &wanted)
}

/// The number a text spells, if it is one and no more than `max`.
pub fn parse_u64(s: &[char], max: u64) -> (value: Option<u64>)
    ensures
        match value {
            Some(v) => parsed(s@, max as int) == Some(v as int),
            None => parsed(s@, max as int) is None,
        },
{
    let start: usize = if s.len() > 0 && s[0] == '+' {
        1
    } else {
        0
    };
    let ghost digits = if start == 1 {
        s@.skip(1)
    } else {
        s@
    };
    if s.len() == start {
        return None;
    }
    let mut value: u64 = 0;
    let mut fits: bool = true;
    let mut at: usize = start;
    assert(digits.take(0) =~= Seq::<char>::empty());
    while at < s.len()
        invariant
            start <= at <= s@.len(),
            start <= 1,
            digits == (if start == 1 {
                s@.skip(1)
            } else {
                s@
            }),
            digits.len() == s@.len() - start,
            s@.len() > start,
            (start == 1) == (s@[0] == '+'),
            forall|i: int| 0 <= i < at - start ==> is_digit(#[trigger] digits[i]),
            fits ==> value == digits_value(digits.take(at - start)) && value <= max,
            !fits ==> digits_value(digits.take(at - start)) > max,
        decreases s@.len() - at,
    {
        let c = s[at];
        assert(c == digits[at - start]);
        if !('0' <= c && c <= '9') {
            assert(!all_digits(digits));
            return None;
        }
        let d: u64 = (c as u32 - '0' as u32) as u64;
        proof {
            let next = digits.take(at + 1 - start);
            assert(next.drop_last() =~= digits.take(at - start));
            assert(next.last() == c);
        }
        if fits {
            if d > max || value > max / 10 || 10 * value > max - d {
                fits = false;
            } else {
                value = 10 * value + d;
            }
        }
        at += 1;
    }
    proof {
        assert(digits.take(at - start) =~= digits);
    }
    if fits {
        Some(value)
    } else {
        None
    }
}

/// The signed number a text spells, if it is one between `min` and `max`.
pub fn parse_i64(s: &[char], min: i64, max: i64) -> (value: Option<i64>)
    requires
        min <= 0 <= max,
    ensures
        match value {
            Some(v) => parsed_signed(s@, min as int, max as int) == Some(v as int),
            None => parsed_signed(s@, min as int, max as int) is None,
        },
{
    if s.len() > 0 && s[0] == '-' {
        let rest = slice_subrange(s, 1, s.len());
        assert(rest@ =~= s@.skip(1));
        if rest.len() > 0 && rest[0] == '+' {
            assert(!is_digit(rest@[0]));
            return None;
        }
        match parse_u64(rest, (-(min as i128)) as u64) {
            Some(v) => Some((-(v as i128)) as i64),
            None => None,
        }
    } else {
        match parse_u64(s, max as u64) {
            Some(v) => Some(v as i64),
            None => None,
        }
    }
}

/// A number that fits a machine word.
pub fn parse_size(s: &[char]) -> (value: Option<usize>)
    ensures
        match value {
            Some(v) => parsed(s@, usize::MAX as int) == Some(v as int),
            None => parsed(s@, usize::MAX as int) is None,
        },
{
    match parse_u64(s, usize::MAX as u64) {
        Some(v) => Some(v as usize),
        None => None,
    }
}

/// A number in decimal.
pub fn decimal_string(n: u64) -> (s: String)
    ensures
        s@ == decimal(n as nat),
    decreases n,
{
    if n < 10 {
        let mut s = String::new();
        s.push(('0' as u8 + n as u8) as char);
        assert(s@ =~= decimal(n as nat));
        s
    } else {
        let mut s = decimal_string(n / 10);
        s.push(('0' as u8 + (n % 10) as u8) as char);
        s
    }
}

/// A signed number in decimal.
pub fn signed_decimal_string(n: i64) -> (s: String)
    ensures
        s@ == signed_decimal(n as int),
{
    if n < 0 {
        let mut s = String::new();
        s.push('-');
        let magnitude: u64 = (-(n as i128)) as u64;
        let digits = decimal_string(magnitude);
        s.append(digits.as_str());
        assert(s@ =~= signed_decimal(n as int));
        s
    } else {
        decimal_string(n as u64)
    }
}

/// Two texts, one after the other.
pub fn join2(a: &str, b: &str) -> (s: String)
    ensures
        s@ == a@ + b@,
{
    let mut s = a.to_owned();
    s.append(b);
    s
}

/// Three texts, one after the other.
pub fn join3(a: &str, b: &str, c: &str) -> (s: String)
    ensures
        s@ == a@ + b@ + c@,
{
    let mut s = join2(a, b);
    s.append(c);
    s
}

/// Five texts, one after the other.
pub fn join5(a: &str, b: &str, c: &str, d: &str, e: &str) -> (s: String)
    ensures
        s@ == a@ + b@ + c@ + d@ + e@,
{
    let mut s = join3(a, b, c);
    s.append(d);
    s.append(e);
    s
}

} // verus!
