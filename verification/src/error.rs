//! What parsing can fail with.
use vstd::prelude::*;

verus! {

/// A parse error: its kind, the offending text or character where there is
/// one, and the line and column, both counted from 1, that it is reported at.
#[derive(Debug)]
pub enum ParserError {
    EmptyString,
    KeyExists(String, usize, usize),
    BadBeginning(String, usize, usize),
    UnexpectedEOL(usize, usize),
    UnexpectedEndOfTokens(),
    ExpectedChar(char, usize, usize),
    ExpectedWord(String, usize, usize),
    UnexpectedChar(char, usize, usize),
    UnexpectedToken(String, usize, usize),
    StringUnicode(char, usize, usize),
    StringEscapeChar(char, usize, usize),
    IntegerInvalidDecimal(char, usize, usize),
    IntegerInvalidBinary(char, usize, usize),
    IntegerInvalidOctal(char, usize, usize),
    IntegerInvalidHex(char, usize, usize),
    Test,
}

/// A parse error as contracts see it: text as its characters, positions as
/// mathematical integers.
pub enum Failure {
    EmptyString,
    KeyExists(Seq<char>, int, int),
    BadBeginning(Seq<char>, int, int),
    UnexpectedEOL(int, int),
    UnexpectedEndOfTokens,
    ExpectedChar(char, int, int),
    ExpectedWord(Seq<char>, int, int),
    UnexpectedChar(char, int, int),
    UnexpectedToken(Seq<char>, int, int),
    StringUnicode(char, int, int),
    StringEscapeChar(char, int, int),
    IntegerInvalidDecimal(char, int, int),
    IntegerInvalidBinary(char, int, int),
    IntegerInvalidOctal(char, int, int),
    IntegerInvalidHex(char, int, int),
    Test,
}

impl View for ParserError {
    type V = Failure;

    open spec fn view(&self) -> Failure {
        match self {
            ParserError::EmptyString => Failure::EmptyString,
            ParserError::KeyExists(s, l, p) => Failure::KeyExists(s@, *l as int, *p as int),
            ParserError::BadBeginning(s, l, p) => Failure::BadBeginning(s@, *l as int, *p as int),
            ParserError::UnexpectedEOL(l, p) => Failure::UnexpectedEOL(*l as int, *p as int),
            ParserError::UnexpectedEndOfTokens() => Failure::UnexpectedEndOfTokens,
            ParserError::ExpectedChar(c, l, p) => Failure::ExpectedChar(*c, *l as int, *p as int),
            ParserError::ExpectedWord(s, l, p) => Failure::ExpectedWord(s@, *l as int, *p as int),
            ParserError::UnexpectedChar(c, l, p) => Failure::UnexpectedChar(
                *c,
                *l as int,
                *p as int,
            ),
            ParserError::UnexpectedToken(s, l, p) => Failure::UnexpectedToken(
                s@,
                *l as int,
                *p as int,
            ),
            ParserError::StringUnicode(c, l, p) => Failure::StringUnicode(*c, *l as int, *p as int),
            ParserError::StringEscapeChar(c, l, p) => Failure::StringEscapeChar(
                *c,
                *l as int,
                *p as int,
            ),
            ParserError::IntegerInvalidDecimal(c, l, p) => Failure::IntegerInvalidDecimal(
                *c,
                *l as int,
                *p as int,
            ),
            ParserError::IntegerInvalidBinary(c, l, p) => Failure::IntegerInvalidBinary(
                *c,
                *l as int,
                *p as int,
            ),
            ParserError::IntegerInvalidOctal(c, l, p) => Failure::IntegerInvalidOctal(
                *c,
                *l as int,
                *p as int,
            ),
            ParserError::IntegerInvalidHex(c, l, p) => Failure::IntegerInvalidHex(
                *c,
                *l as int,
                *p as int,
            ),
            ParserError::Test => Failure::Test,
        }
    }
}

} // verus!
