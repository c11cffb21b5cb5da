//! The texts of NumPy array headers: which can be taken apart in reasonable time, and without a
//! number that is too large.
//!
//! A header is a Python literal. The parser of such literals goes over a nested value again at each
//! level, so the effort doubles or trebles with each; and the sizes of an array are multiplied. What
//! is said of a text here bounds both, without taking the text apart.

use vstd::prelude::*;

verus! {

/// The most levels of brackets of a header that is taken apart.
pub const DEEPEST: u8 = 8;

/// What is known of a text up to some place.
pub ghost struct Scan {
    /// The quote that ends the string around the place.
    pub quote: Option<u8>,
    /// A backslash came before. From there on it is not told what is within a string: all brackets
    /// count as opened, none as closed, and all numbers count.
    pub loose: bool,
    /// How many brackets are open.
    pub depth: int,
    /// The most brackets that were open at a time.
    pub deepest: int,
    /// Whether the place is within a word or a number.
    pub word: bool,
    /// The number around the place, as far as it has been read.
    pub number: Option<int>,
    /// Whether that number has letters.
    pub hex: bool,
    /// A bound on what the numbers before make if sums of them are multiplied.
    pub product: int,
}

/// Before a text.
pub open spec fn fresh() -> Scan {
    Scan {
        quote: None,
        loose: false,
        depth: 0,
        deepest: 0,
        word: false,
        number: None,
        hex: false,
        product: 1,
    }
}

pub open spec fn is_digit(b: u8) -> bool {
    0x30 <= b <= 0x39
}

pub open spec fn is_capital(b: u8) -> bool {
    0x41 <= b <= 0x5A
}

pub open spec fn is_small(b: u8) -> bool {
    0x61 <= b <= 0x7A
}

/// A letter, a digit or an underscore.
pub open spec fn is_word(b: u8) -> bool {
    is_digit(b) || is_capital(b) || is_small(b) || b == 0x5F
}

pub open spec fn is_opening(b: u8) -> bool {
    b == 0x28 || b == 0x5B || b == 0x7B
}

pub open spec fn is_closing(b: u8) -> bool {
    b == 0x29 || b == 0x5D || b == 0x7D
}

pub open spec fn is_quote(b: u8) -> bool {
    b == 0x22 || b == 0x27
}

pub open spec fn is_sign(b: u8) -> bool {
    b == 0x2B || b == 0x2D
}

/// What a letter or digit stands for in base sixteen; zero if nothing.
pub open spec fn digit_value(b: u8) -> int {
    if is_digit(b) {
        b - 0x30
    } else if 0x41 <= b <= 0x46 {
        b - 0x41 + 10
    } else if 0x61 <= b <= 0x66 {
        b - 0x61 + 10
    } else {
        0
    }
}

/// What a number counts for in a product: a size of zero leaves the others as they are.
pub open spec fn factor(number: Option<int>) -> int {
    match number {
        Some(v) => if v > 1 {
            v
        } else {
            1
        },
        None => 1,
    }
}

/// A bound on the product, with the number around the place.
pub open spec fn weight(s: Scan) -> int {
    s.product * factor(s.number)
}

/// The number around the place has ended.
pub open spec fn ended(s: Scan) -> Scan {
    Scan { word: false, number: None, hex: false, product: weight(s), ..s }
}

/// One more letter, digit or underscore. A number starts with a digit. Letters in it make its base
/// sixteen: of the prefixes of numbers that base is the largest.
pub open spec fn word_step(s: Scan, b: u8) -> Scan {
    match s.number {
        Some(v) => if b == 0x5F {
            s
        } else if is_digit(b) && !s.hex {
            Scan { number: Some(10 * v + digit_value(b)), ..s }
        } else {
            Scan { number: Some(16 * v + digit_value(b)), hex: true, ..s }
        },
        None => if !s.word && is_digit(b) {
            Scan { word: true, number: Some(digit_value(b)), hex: false, ..s }
        } else {
            Scan { word: true, ..s }
        },
    }
}

/// One more byte that is none of a word. A sum is at most twice the product of its parts, or of
/// those that are not zero.
pub open spec fn mark_step(s: Scan, b: u8) -> Scan {
    if is_opening(b) {
        Scan {
            depth: s.depth + 1,
            deepest: if s.deepest > s.depth {
                s.deepest
            } else {
                s.depth + 1
            },
            ..s
        }
    } else if is_closing(b) && !s.loose && s.depth > 0 {
        Scan { depth: s.depth - 1, ..s }
    } else if is_quote(b) && !s.loose {
        Scan { quote: Some(b), ..s }
    } else if is_sign(b) {
        Scan { product: 2 * s.product, ..s }
    } else {
        s
    }
}

/// One more byte.
pub open spec fn step(s: Scan, b: u8) -> Scan {
    if b == 0x5C {
        Scan { quote: None, loose: true, ..ended(s) }
    } else if s.quote is Some {
        if s.quote == Some(b) {
            Scan { quote: None, ..s }
        } else {
            s
        }
    } else if is_word(b) {
        word_step(s, b)
    } else {
        mark_step(ended(s), b)
    }
}

/// What is known of a text.
pub open spec fn scan(text: Seq<u8>) -> Scan
    decreases text.len(),
{
    if text.len() == 0 {
        fresh()
    } else {
        step(scan(text.drop_last()), text.last())
    }
}

pub open spec fn within(s: Scan) -> bool {
    s.deepest <= DEEPEST && weight(s) <= u64::MAX
}

/// Whether a header is not nested deeply, and has no sizes whose product is too large: the product
/// of all its numbers but zeros, outside strings, fits in 64 bits.
pub open spec fn tame_header(text: Seq<u8>) -> bool {
    within(scan(text))
}

/// What holds of all scans.
spec fn sound(s: Scan) -> bool {
    &&& 1 <= s.product
    &&& 0 <= s.depth <= s.deepest
    &&& s.number matches Some(v) ==> 0 <= v
    &&& s.quote is Some ==> s.number is None
}

proof fn weight_grows(product: int, f: int, g: int)
    requires
        1 <= product,
        1 <= f <= g,
    ensures
        1 <= product <= product * f <= product * g,
{
    assert(product <= product * f) by (nonlinear_arith)
        requires
            1 <= product,
            1 <= f,
    ;
    assert(product * f <= product * g) by (nonlinear_arith)
        requires
            1 <= product,
            f <= g,
    ;
}

/// What is out of bounds stays so.
proof fn step_grows(s: Scan, b: u8)
    requires
        sound(s),
    ensures
        sound(step(s, b)),
        s.deepest <= step(s, b).deepest,
        weight(s) <= weight(step(s, b)),
{
    let next = step(s, b);
    weight_grows(s.product, 1, factor(s.number));
    if s.quote is None && is_word(b) {
        weight_grows(s.product, factor(s.number), factor(next.number));
    }
}

proof fn scan_grows(text: Seq<u8>, n: int)
    requires
        0 <= n <= text.len(),
    ensures
        sound(scan(text)),
        scan(text.take(n)).deepest <= scan(text).deepest,
        weight(scan(text.take(n))) <= weight(scan(text)),
    decreases text.len(),
{
    if n == text.len() {
        assert(text.take(n) =~= text);
        if n > 0 {
            scan_grows(text.drop_last(), 0);
            step_grows(scan(text.drop_last()), text.last());
        }
    } else {
        assert(text.drop_last().take(n) =~= text.take(n));
        scan_grows(text.drop_last(), n);
        step_grows(scan(text.drop_last()), text.last());
    }
}

/// A scan that has stayed in bounds.
struct Scanner {
    quote: Option<u8>,
    loose: bool,
    depth: u8,
    deepest: u8,
    word: bool,
    number: Option<u64>,
    hex: bool,
    product: u64,
}

impl View for Scanner {
    type V = Scan;

    closed spec fn view(&self) -> Scan {
        Scan {
            quote: self.quote,
            loose: self.loose,
            depth: self.depth as int,
            deepest: self.deepest as int,
            word: self.word,
            number: match self.number {
                Some(v) => Some(v as int),
                None => None,
            },
            hex: self.hex,
            product: self.product as int,
        }
    }
}

fn value_of(b: u8) -> (value: u64)
    ensures
        value == digit_value(b),
        value < 16,
{
    if 0x30 <= b && b <= 0x39 {
        (b - 0x30) as u64
    } else if 0x41 <= b && b <= 0x46 {
        (b - 0x41) as u64 + 10
    } else if 0x61 <= b && b <= 0x66 {
        (b - 0x61) as u64 + 10
    } else {
        0
    }
}

impl Scanner {
    /// Ends the number around the place.
    fn end_number(&mut self)
        requires
            sound(old(self)@),
            within(old(self)@),
        ensures
            final(self)@ == ended(old(self)@),
    {
        let product = match self.number {
            Some(v) => if v > 1 {
                self.product * v
            } else {
                self.product
            },
            None => self.product,
        };
        self.product = product;
        self.word = false;
        self.number = None;
        self.hex = false;
    }

    /// Takes a digit into the number around the place, if its weight stays in bounds.
    fn take_digit(&mut self, number: u64, base: u64, b: u8) -> (fits: bool)
        requires
            sound(old(self)@),
            old(self)@.number == Some(number as int),
            base == 10 || base == 16,
        ensures
            fits == (old(self)@.product * factor(Some(base * number + digit_value(b)))
                <= u64::MAX),
            fits ==> final(self)@ == (Scan {
                number: Some(base * number + digit_value(b)),
                ..old(self)@
            }),
            !fits ==> final(self)@ == old(self)@,
    {
        let value = base as u128 * number as u128 + value_of(b) as u128;
        let ghost product = self.product as int;
        proof {
            weight_grows(product, 1, factor(Some(value as int)));
            assert(product * value <= 0xFFFF_FFFF_FFFF_FFFF * value) by (nonlinear_arith)
                requires
                    product <= 0xFFFF_FFFF_FFFF_FFFF,
                    0 <= value,
            ;
            assert(product * factor(Some(value as int)) >= value) by (nonlinear_arith)
                requires
                    1 <= product,
                    factor(Some(value as int)) >= value,
                    value >= 0,
            ;
        }
        if value > u64::MAX as u128 {
            return false;
        }
        if value > 1 && self.product as u128 * value > u64::MAX as u128 {
            return false;
        }
        self.number = Some(value as u64);
        true
    }

    /// Takes one more byte, if the scan stays in bounds.
    fn take(&mut self, b: u8) -> (fits: bool)
        requires
            sound(old(self)@),
            within(old(self)@),
        ensures
            fits == within(step(old(self)@, b)),
            fits ==> final(self)@ == step(old(self)@, b),
    {
        proof {
            weight_grows(self.product as int, 1, factor(self@.number));
        }
        if b == 0x5C {
            self.end_number();
            self.quote = None;
            self.loose = true;
            return true;
        }
        if let Some(quote) = self.quote {
            if quote == b {
                self.quote = None;
            }
            return true;
        }
        let digit = 0x30 <= b && b <= 0x39;
        let letter = 0x41 <= b && b <= 0x5A || 0x61 <= b && b <= 0x7A;
        if digit || letter || b == 0x5F {
            return self.take_word(b);
        }
        self.end_number();
        if b == 0x28 || b == 0x5B || b == 0x7B {
            self.depth += 1;
            if self.deepest < self.depth {
                self.deepest = self.depth;
            }
            return self.deepest <= DEEPEST;
        }
        if b == 0x29 || b == 0x5D || b == 0x7D {
            if !self.loose && self.depth > 0 {
                self.depth -= 1;
            }
        } else if b == 0x22 || b == 0x27 {
            if !self.loose {
                self.quote = Some(b);
            }
        } else if b == 0x2B || b == 0x2D {
            if self.product > u64::MAX / 2 {
                return false;
            }
            self.product *= 2;
        }
        true
    }

    /// Takes one more letter, digit or underscore, if the scan stays in bounds.
    fn take_word(&mut self, b: u8) -> (fits: bool)
        requires
            sound(old(self)@),
            within(old(self)@),
            old(self)@.quote is None,
            is_word(b),
        ensures
            fits == within(word_step(old(self)@, b)),
            fits ==> final(self)@ == word_step(old(self)@, b),
    {
        let digit = 0x30 <= b && b <= 0x39;
        match self.number {
            Some(number) => {
                if b == 0x5F {
                    true
                } else if digit && !self.hex {
                    self.take_digit(number, 10, b)
                } else {
                    let fits = self.take_digit(number, 16, b);
                    self.hex = true;
                    fits
                }
            },
            None => {
                if !self.word && digit {
                    self.word = true;
                    self.hex = false;
                    self.number = Some(0);
                    self.take_digit(0, 10, b)
                } else {
                    self.word = true;
                    true
                }
            },
        }
    }
}

/// Tells whether a header is not nested deeply, and has no sizes whose product is too large.
pub fn is_tame(text: &[u8]) -> (yes: bool)
    ensures
        yes == tame_header(text@),
{
    let mut scanner = Scanner {
        quote: None,
        loose: false,
        depth: 0,
        deepest: 0,
        word: false,
        number: None,
        hex: false,
        product: 1,
    };
    assert(scanner@ == scan(text@.take(0)));
    for i in 0..text.len()
        invariant
            scanner@ == scan(text@.take(i as int)),
            within(scanner@),
    {
        proof {
            scan_grows(text@.take(i as int), 0);
            assert(text@.take(i + 1).drop_last() =~= text@.take(i as int));
            assert(scan(text@.take(i + 1)) == step(scanner@, text@[i as int]));
            scan_grows(text@, i + 1);
        }
        if !scanner.take(text[i]) {
            return false;
        }
    }
    assert(text@.take(text@.len() as int) =~= text@);
    true
}

} // verus!
