//! The interpreter of number tokens: integers in four radices, and the
//! grammar of floating-point literals.
use crate::error::{Failure, ParserError};
use crate::text::chars_of;
use vstd::prelude::*;
use vstd::wrapping::i64_specs;
use vstd::wrapping::u64_specs;

verus! {

/// A floating-point literal, taken apart: the digits before and behind the
/// decimal point and those of the exponent, each digit as its value, and the
/// two signs. The library does no arithmetic on floating-point numbers: what
/// number the literal stands for is for the host to compute.
#[derive(Debug)]
pub struct FloatLiteral {
    pub negative: bool,
    pub whole: Vec<u8>,
    pub fraction: Vec<u8>,
    pub exponent_negative: bool,
    pub exponent: Vec<u8>,
}

/// A floating-point literal as contracts see it.
pub struct FloatParts {
    pub negative: bool,
    pub whole: Seq<u8>,
    pub fraction: Seq<u8>,
    pub exponent_negative: bool,
    pub exponent: Seq<u8>,
}

impl View for FloatLiteral {
    type V = FloatParts;

    open spec fn view(&self) -> FloatParts {
        FloatParts {
            negative: self.negative,
            whole: self.whole@,
            fraction: self.fraction@,
            exponent_negative: self.exponent_negative,
            exponent: self.exponent@,
        }
    }
}

/// What a number token stands for.
#[derive(Debug)]
pub enum Number {
    Int(i64),
    Float(FloatLiteral),
}

/// What a number token stands for, as contracts see it.
pub enum NumberView {
    Int(i64),
    Float(FloatParts),
}

impl View for Number {
    type V = NumberView;

    open spec fn view(&self) -> NumberView {
        match self {
            Number::Int(i) => NumberView::Int(*i),
            Number::Float(f) => NumberView::Float(f@),
        }
    }
}

/// The radix of an integer literal.
#[derive(Debug, Clone, Copy, PartialEq, Eq, Structural)]
pub enum Radix {
    Binary,
    Octal,
    Decimal,
    Hex,
}

impl Radix {
    /// The base.
    pub open spec fn base(self) -> u64 {
        match self {
            Radix::Binary => 2,
            Radix::Octal => 8,
            Radix::Decimal => 10,
            Radix::Hex => 16,
        }
    }

    /// The value of `c` as a digit of this radix, or `None` where it is none.
    pub open spec fn digit(self, c: char) -> Option<u64> {
        if '0' <= c <= '9' && (c as int) - ('0' as int) < (self.base() as int) {
            Some((c as int - '0' as int) as u64)
        } else if self == Radix::Hex && 'a' <= c <= 'f' {
            Some((c as int - 'a' as int + 10) as u64)
        } else if self == Radix::Hex && 'A' <= c <= 'F' {
            Some((c as int - 'A' as int + 10) as u64)
        } else {
            None
        }
    }

    /// The error for `c`, which is no digit of this radix, at column `pos` of
    /// line `line`.
    pub open spec fn invalid(self, c: char, line: int, pos: int) -> Failure {
        match self {
            Radix::Binary => Failure::IntegerInvalidBinary(c, line, pos),
            Radix::Octal => Failure::IntegerInvalidOctal(c, line, pos),
            Radix::Decimal => Failure::IntegerInvalidDecimal(c, line, pos),
            Radix::Hex => Failure::IntegerInvalidHex(c, line, pos),
        }
    }
}

/// A decimal digit.
pub open spec fn is_digit(c: char) -> bool {
    '0' <= c <= '9'
}

/// The value of a decimal digit.
pub open spec fn digit_of(c: char) -> int {
    c as int - '0' as int
}

/// A letter that ends a floating-point literal.
pub open spec fn is_suffix(c: char) -> bool {
    c == 'f' || c == 'F' || c == 'd' || c == 'D'
}

/// Whether the literal `s`, whose first character behind the sign is at
/// index `b`, is hexadecimal: it starts with `0x` or `0X`.
pub open spec fn is_hex_text(s: Seq<char>, b: int) -> bool {
    b + 1 < s.len() && s[b] == '0' && (s[b + 1] == 'x' || s[b + 1] == 'X')
}

/// Whether the number token `s`, whose first character behind the sign is
/// at index `b`, is a floating-point literal: it holds a `.`, an `e` or an
/// `E`, or ends in one of the suffixes `f`, `F`, `d`, `D`. In a hexadecimal
/// literal the last letter is a digit and no suffix.
pub open spec fn is_float_text(s: Seq<char>, b: int) -> bool {
    s.contains('.') || s.contains('e') || s.contains('E') || (s.len() > 0 && is_suffix(s.last())
        && !is_hex_text(s, b))
}

/// The number that the digits of `s` from index `from` up to `to` stand for
/// in `radix`, continuing from `start`; the accumulator has 64 bits and
/// wraps. The first character that is no digit of `radix` is an error.
pub open spec fn digits_value(
    s: Seq<char>,
    from: int,
    to: int,
    radix: Radix,
    start: u64,
    line: int,
    pos: int,
) -> Result<u64, Failure>
    decreases to - from,
{
    if to <= from {
        Ok(start)
    } else {
        match digits_value(s, from, to - 1, radix, start, line, pos) {
            Ok(high) => match radix.digit(s[to - 1]) {
                Some(d) => Ok(
                    u64_specs::wrapping_add(u64_specs::wrapping_mul(high, radix.base()), d),
                ),
                None => Err(radix.invalid(s[to - 1], line, pos + to - 1)),
            },
            Err(e) => Err(e),
        }
    }
}

/// The 64 bits of `magnitude` as a signed integer, negated, wrapping, where
/// `negative` is set.
pub open spec fn signed(magnitude: u64, negative: bool) -> i64 {
    if negative {
        i64_specs::wrapping_sub(0, magnitude as i64)
    } else {
        magnitude as i64
    }
}

/// The integer with digits in `radix` from index `from` on.
pub open spec fn integer_from(
    s: Seq<char>,
    from: int,
    radix: Radix,
    start: u64,
    negative: bool,
    line: int,
    pos: int,
) -> Result<NumberView, Failure> {
    match digits_value(s, from, s.len() as int, radix, start, line, pos) {
        Ok(magnitude) => Ok(NumberView::Int(signed(magnitude, negative))),
        Err(e) => Err(e),
    }
}

/// The integer literal `s`, whose first character behind the sign is at
/// index `b`. `0x` and `0X` start a hexadecimal literal, `0b` and `0B` a
/// binary one, `0o`, `0O` and `0` before an octal digit an octal one; what
/// does not start with `0`, and `0` alone, is decimal.
pub open spec fn integer(s: Seq<char>, b: int, negative: bool, line: int, pos: int) -> Result<
    NumberView,
    Failure,
> {
    let first = s[b];
    if first == '0' {
        if s.len() == b + 1 {
            Ok(NumberView::Int(0))
        } else {
            let t = s[b + 1];
            if t == 'x' || t == 'X' {
                integer_from(s, b + 2, Radix::Hex, 0, negative, line, pos)
            } else if t == 'b' || t == 'B' {
                integer_from(s, b + 2, Radix::Binary, 0, negative, line, pos)
            } else if t == 'o' || t == 'O' {
                integer_from(s, b + 2, Radix::Octal, 0, negative, line, pos)
            } else if '0' <= t <= '7' {
                integer_from(s, b + 2, Radix::Octal, digit_of(t) as u64, negative, line, pos)
            } else {
                Err(Failure::IntegerInvalidOctal(t, line, pos + b + 1))
            }
        }
    } else if is_digit(first) {
        integer_from(s, b + 1, Radix::Decimal, digit_of(first) as u64, negative, line, pos)
    } else {
        Err(Failure::IntegerInvalidDecimal(first, line, pos + b))
    }
}

/// The index of the first character from `i` on that is no decimal digit, or
/// the length of `s`.
pub open spec fn digits_end(s: Seq<char>, i: int) -> int
    decreases s.len() - i,
{
    if 0 <= i < s.len() && is_digit(s[i]) {
        digits_end(s, i + 1)
    } else {
        i
    }
}

/// The values of the decimal digits of `s` from index `from` up to `to`.
pub open spec fn digit_values(s: Seq<char>, from: int, to: int) -> Seq<u8> {
    Seq::new((to - from) as nat, |k: int| digit_of(s[from + k]) as u8)
}

/// The end of a floating-point literal: nothing may stand at index `after`.
pub open spec fn float_end(s: Seq<char>, after: int, parts: FloatParts, line: int, pos: int)
    -> Result<NumberView, Failure> {
    if after < s.len() {
        Err(Failure::UnexpectedChar(s[after], line, pos + after))
    } else {
        Ok(NumberView::Float(parts))
    }
}

/// The exponent of a floating-point literal, from index `x` behind its `e`
/// on: a sign or a digit, then digits, then nothing or a suffix.
pub open spec fn float_exponent(s: Seq<char>, x: int, parts: FloatParts, line: int, pos: int)
    -> Result<NumberView, Failure> {
    if x >= s.len() {
        Err(Failure::UnexpectedEOL(line, pos + x))
    } else if s[x] == '+' || s[x] == '-' || is_digit(s[x]) {
        let from = if is_digit(s[x]) {
            x
        } else {
            x + 1
        };
        let end = digits_end(s, from);
        let full = FloatParts {
            exponent_negative: s[x] == '-',
            exponent: digit_values(s, from, end),
            ..parts
        };
        if end >= s.len() {
            Ok(NumberView::Float(full))
        } else if is_suffix(s[end]) {
            float_end(s, end + 1, full, line, pos)
        } else {
            Err(Failure::UnexpectedChar(s[end], line, pos + end))
        }
    } else {
        Err(Failure::UnexpectedChar(s[x], line, pos + x))
    }
}

/// The floating-point literal `s`, whose first character behind the sign is
/// at index `b`: digits, at most one `.` among them, then an exponent, a
/// suffix, both or neither.
pub open spec fn float_literal(s: Seq<char>, b: int, negative: bool, line: int, pos: int)
    -> Result<NumberView, Failure> {
    let w = digits_end(s, b);
    if w == b && s[b] != '.' {
        Err(Failure::UnexpectedChar(s[b], line, pos + b))
    } else {
        let pointed = w < s.len() && s[w] == '.';
        let m = if pointed {
            digits_end(s, w + 1)
        } else {
            w
        };
        let parts = FloatParts {
            negative,
            whole: digit_values(s, b, w),
            fraction: if pointed {
                digit_values(s, w + 1, m)
            } else {
                Seq::empty()
            },
            exponent_negative: false,
            exponent: Seq::empty(),
        };
        if m >= s.len() {
            Ok(NumberView::Float(parts))
        } else if is_suffix(s[m]) {
            float_end(s, m + 1, parts, line, pos)
        } else if s[m] == 'e' || s[m] == 'E' {
            float_exponent(s, m + 1, parts, line, pos)
        } else {
            Err(Failure::UnexpectedChar(s[m], line, pos + m))
        }
    }
}

/// What the number token `s` stands for, which starts at column `pos` of
/// line `line`. An error is reported at the column of the character it is
/// about; a sign with nothing behind it is `UnexpectedEOL` behind the sign.
#[verifier::opaque]
pub open spec fn number(s: Seq<char>, line: int, pos: int) -> Result<NumberView, Failure> {
    if s.len() == 0 {
        Ok(NumberView::Int(0))
    } else {
        let negative = s[0] == '-';
        let b: int = if negative || s[0] == '+' {
            1
        } else {
            0
        };
        if b >= s.len() {
            Err(Failure::UnexpectedEOL(line, pos + 1))
        } else if is_float_text(s, b) {
            float_literal(s, b, negative, line, pos)
        } else {
            integer(s, b, negative, line, pos)
        }
    }
}

/// Where the digits up to some index cannot be read, more of them cannot
/// either, for the same reason.
pub proof fn lemma_digits_value_fails(
    s: Seq<char>,
    from: int,
    mid: int,
    to: int,
    radix: Radix,
    start: u64,
    line: int,
    pos: int,
)
    requires
        mid <= to,
        digits_value(s, from, mid, radix, start, line, pos) is Err,
    ensures
        digits_value(s, from, to, radix, start, line, pos) == digits_value(
            s,
            from,
            mid,
            radix,
            start,
            line,
            pos,
        ),
    decreases to - mid,
{
    if mid < to {
        lemma_digits_value_fails(s, from, mid, to - 1, radix, start, line, pos);
    }
}

/// Whether `c` occurs in `chars`.
fn has_char(chars: &Vec<char>, c: char) -> (b: bool)
    ensures
        b == chars@.contains(c),
{
    let mut i: usize = 0;
    while i < chars.len()
        invariant
            i <= chars.len(),
            forall|k: int| 0 <= k < i ==> chars@[k] != c,
        decreases chars.len() - i,
    {
        if chars[i] == c {
            return true;
        }
        i += 1;
    }
    false
}

/// Whether `c` ends a floating-point literal.
fn ends_float(c: char) -> (b: bool)
    ensures
        b == is_suffix(c),
{
    c == 'f' || c == 'F' || c == 'd' || c == 'D'
}

/// The value of `c` as a digit of `radix`.
fn radix_digit(radix: Radix, c: char) -> (r: Option<u64>)
    ensures
        r == radix.digit(c),
{
    let base: u32 = match radix {
        Radix::Binary => 2,
        Radix::Octal => 8,
        Radix::Decimal => 10,
        Radix::Hex => 16,
    };
    if c >= '0' && c <= '9' && (c as u32) - ('0' as u32) < base {
        Some((c as u32 - '0' as u32) as u64)
    } else if base == 16 && c >= 'a' && c <= 'f' {
        Some((c as u32 - 'a' as u32 + 10) as u64)
    } else if base == 16 && c >= 'A' && c <= 'F' {
        Some((c as u32 - 'A' as u32 + 10) as u64)
    } else {
        None
    }
}

/// Reads the digits of an integer literal from index `from` on.
fn parse_digits(
    chars: &Vec<char>,
    from: usize,
    radix: Radix,
    start: u64,
    negative: bool,
    line: usize,
    pos: usize,
) -> (r: Result<Number, ParserError>)
    requires
        from <= chars.len(),
        pos + chars.len() <= usize::MAX,
    ensures
        match r {
            Ok(n) => integer_from(
                chars@,
                from as int,
                radix,
                start,
                negative,
                line as int,
                pos as int,
            ) == Ok::<NumberView, Failure>(n@),
            Err(e) => integer_from(
                chars@,
                from as int,
                radix,
                start,
                negative,
                line as int,
                pos as int,
            ) == Err::<NumberView, Failure>(e@),
        },
{
    let base: u64 = match radix {
        Radix::Binary => 2,
        Radix::Octal => 8,
        Radix::Decimal => 10,
        Radix::Hex => 16,
    };
    let mut num = start;
    let mut k = from;
    while k < chars.len()
        invariant
            from <= k <= chars.len(),
            pos + chars.len() <= usize::MAX,
            base == radix.base(),
            digits_value(chars@, from as int, k as int, radix, start, line as int, pos as int)
                == Ok::<u64, Failure>(num),
        decreases chars.len() - k,
    {
        let c = chars[k];
        match radix_digit(radix, c) {
            Some(d) => {
                num = num.wrapping_mul(base).wrapping_add(d);
            },
            None => {
                proof {
                    lemma_digits_value_fails(
                        chars@,
                        from as int,
                        k + 1,
                        chars@.len() as int,
                        radix,
                        start,
                        line as int,
                        pos as int,
                    );
                }
                return Err(
                    match radix {
                        Radix::Binary => ParserError::IntegerInvalidBinary(c, line, pos + k),
                        Radix::Octal => ParserError::IntegerInvalidOctal(c, line, pos + k),
                        Radix::Decimal => ParserError::IntegerInvalidDecimal(c, line, pos + k),
                        Radix::Hex => ParserError::IntegerInvalidHex(c, line, pos + k),
                    },
                );
            },
        }
        k += 1;
    }
    let bits = #[verifier::truncate]
    (num as i64);
    if negative {
        Ok(Number::Int(0i64.wrapping_sub(bits)))
    } else {
        Ok(Number::Int(bits))
    }
}

/// Reads an integer literal whose first character behind the sign is at
/// index `b`.
fn parse_integer(chars: &Vec<char>, b: usize, negative: bool, line: usize, pos: usize) -> (r:
    Result<Number, ParserError>)
    requires
        b < chars.len(),
        pos + chars.len() <= usize::MAX,
    ensures
        match r {
            Ok(n) => integer(chars@, b as int, negative, line as int, pos as int) == Ok::<
                NumberView,
                Failure,
            >(n@),
            Err(e) => integer(chars@, b as int, negative, line as int, pos as int) == Err::<
                NumberView,
                Failure,
            >(e@),
        },
{
    let first = chars[b];
    if first == '0' {
        if chars.len() == b + 1 {
            return Ok(Number::Int(0));
        }
        let t = chars[b + 1];
        if t == 'x' || t == 'X' {
            parse_digits(chars, b + 2, Radix::Hex, 0, negative, line, pos)
        } else if t == 'b' || t == 'B' {
            parse_digits(chars, b + 2, Radix::Binary, 0, negative, line, pos)
        } else if t == 'o' || t == 'O' {
            parse_digits(chars, b + 2, Radix::Octal, 0, negative, line, pos)
        } else if t >= '0' && t <= '7' {
            let d = (t as u32 - '0' as u32) as u64;
            parse_digits(chars, b + 2, Radix::Octal, d, negative, line, pos)
        } else {
            Err(ParserError::IntegerInvalidOctal(t, line, pos + b + 1))
        }
    } else if first >= '0' && first <= '9' {
        let d = (first as u32 - '0' as u32) as u64;
        parse_digits(chars, b + 1, Radix::Decimal, d, negative, line, pos)
    } else {
        Err(ParserError::IntegerInvalidDecimal(first, line, pos + b))
    }
}

/// Reads decimal digits from index `from` on, and returns their values with
/// the index behind them.
fn read_digits(chars: &Vec<char>, from: usize) -> (r: (Vec<u8>, usize))
    requires
        from <= chars.len(),
    ensures
        r.1 == digits_end(chars@, from as int),
        from <= r.1 <= chars.len(),
        r.0@ == digit_values(chars@, from as int, r.1 as int),
{
    let mut digits: Vec<u8> = Vec::new();
    let mut k = from;
    while k < chars.len() && chars[k] >= '0' && chars[k] <= '9'
        invariant
            from <= k <= chars.len(),
            digits_end(chars@, from as int) == digits_end(chars@, k as int),
            digits@ == digit_values(chars@, from as int, k as int),
        decreases chars.len() - k,
    {
        digits.push((chars[k] as u32 - '0' as u32) as u8);
        k += 1;
        assert(digits@ =~= digit_values(chars@, from as int, k as int));
    }
    (digits, k)
}

/// Ends a floating-point literal at index `after`.
fn parse_float_end(
    chars: &Vec<char>,
    after: usize,
    parts: FloatLiteral,
    line: usize,
    pos: usize,
) -> (r: Result<Number, ParserError>)
    requires
        after <= chars.len(),
        pos + chars.len() <= usize::MAX,
    ensures
        match r {
            Ok(n) => float_end(chars@, after as int, parts@, line as int, pos as int) == Ok::<
                NumberView,
                Failure,
            >(n@),
            Err(e) => float_end(chars@, after as int, parts@, line as int, pos as int) == Err::<
                NumberView,
                Failure,
            >(e@),
        },
{
    if after < chars.len() {
        Err(ParserError::UnexpectedChar(chars[after], line, pos + after))
    } else {
        Ok(Number::Float(parts))
    }
}

/// Reads the exponent of a floating-point literal from index `x` on.
fn parse_float_exponent(
    chars: &Vec<char>,
    x: usize,
    parts: FloatLiteral,
    line: usize,
    pos: usize,
) -> (r: Result<Number, ParserError>)
    requires
        x <= chars.len(),
        pos + chars.len() <= usize::MAX,
    ensures
        match r {
            Ok(n) => float_exponent(chars@, x as int, parts@, line as int, pos as int) == Ok::<
                NumberView,
                Failure,
            >(n@),
            Err(e) => float_exponent(chars@, x as int, parts@, line as int, pos as int) == Err::<
                NumberView,
                Failure,
            >(e@),
        },
{
    if x >= chars.len() {
        return Err(ParserError::UnexpectedEOL(line, pos + x));
    }
    let c = chars[x];
    let digit = c >= '0' && c <= '9';
    if c == '+' || c == '-' || digit {
        let from = if digit {
            x
        } else {
            x + 1
        };
        let (exponent, end) = read_digits(chars, from);
        let full = FloatLiteral {
            negative: parts.negative,
            whole: parts.whole,
            fraction: parts.fraction,
            exponent_negative: c == '-',
            exponent,
        };
        if end >= chars.len() {
            Ok(Number::Float(full))
        } else if ends_float(chars[end]) {
            parse_float_end(chars, end + 1, full, line, pos)
        } else {
            Err(ParserError::UnexpectedChar(chars[end], line, pos + end))
        }
    } else {
        Err(ParserError::UnexpectedChar(c, line, pos + x))
    }
}

/// Reads a floating-point literal whose first character behind the sign is
/// at index `b`.
fn parse_float(chars: &Vec<char>, b: usize, negative: bool, line: usize, pos: usize) -> (r: Result<
    Number,
    ParserError,
>)
    requires
        b < chars.len(),
        pos + chars.len() <= usize::MAX,
    ensures
        match r {
            Ok(n) => float_literal(chars@, b as int, negative, line as int, pos as int) == Ok::<
                NumberView,
                Failure,
            >(n@),
            Err(e) => float_literal(chars@, b as int, negative, line as int, pos as int) == Err::<
                NumberView,
                Failure,
            >(e@),
        },
{
    let (whole, w) = read_digits(chars, b);
    if w == b && chars[b] != '.' {
        return Err(ParserError::UnexpectedChar(chars[b], line, pos + b));
    }
    let pointed = w < chars.len() && chars[w] == '.';
    let mut fraction: Vec<u8> = Vec::new();
    let mut m = w;
    if pointed {
        let (digits, end) = read_digits(chars, w + 1);
        fraction = digits;
        m = end;
    }
    let parts = FloatLiteral {
        negative,
        whole,
        fraction,
        exponent_negative: false,
        exponent: Vec::new(),
    };
    if m >= chars.len() {
        Ok(Number::Float(parts))
    } else if ends_float(chars[m]) {
        parse_float_end(chars, m + 1, parts, line, pos)
    } else if chars[m] == 'e' || chars[m] == 'E' {
        parse_float_exponent(chars, m + 1, parts, line, pos)
    } else {
        Err(ParserError::UnexpectedChar(chars[m], line, pos + m))
    }
}

/// Interprets the number token `str`, which starts at column `pos` of line
/// `line`: an integer, or a floating-point literal taken apart.
pub fn parse_num(str: &std::string::String, line: usize, pos: usize) -> (r: Result<
    Number,
    ParserError,
>)
    requires
        pos + str@.len() <= usize::MAX,
    ensures
        match r {
            Ok(n) => number(str@, line as int, pos as int) == Ok::<NumberView, Failure>(n@),
            Err(e) => number(str@, line as int, pos as int) == Err::<NumberView, Failure>(e@),
        },
{
    proof {
        reveal(number);
    }
    let chars = chars_of(str.as_str());
    if chars.len() == 0 {
        return Ok(Number::Int(0));
    }
    let negative = chars[0] == '-';
    let b: usize = if negative || chars[0] == '+' {
        1
    } else {
        0
    };
    if b >= chars.len() {
        return Err(ParserError::UnexpectedEOL(line, pos + 1));
    }
    let last = chars[chars.len() - 1];
    let hex = b + 1 < chars.len() && chars[b] == '0' && (chars[b + 1] == 'x' || chars[b + 1]
        == 'X');
    let float = has_char(&chars, '.') || has_char(&chars, 'e') || has_char(&chars, 'E') || (
    ends_float(last) && !hex);
    if float {
        parse_float(&chars, b, negative, line, pos)
    } else {
        parse_integer(&chars, b, negative, line, pos)
    }
}

} // verus!
