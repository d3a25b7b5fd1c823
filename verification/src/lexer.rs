//! The lexer: text to tokens, each with the line and column it starts at.
use crate::error::{Failure, ParserError};
use vstd::prelude::*;

verus! {

/// Whether a character is numeric by Unicode's categories, as
/// `char::is_numeric` finds it. The library asks this of the characters
/// beyond ASCII only.
pub uninterp spec fn unicode_numeric(c: char) -> bool;

/// Whether a character is alphabetic or numeric by Unicode's properties, as
/// `char::is_alphanumeric` finds it. The library asks this of the characters
/// beyond ASCII only.
pub uninterp spec fn unicode_alphanumeric(c: char) -> bool;

/// `char::is_numeric`, under the name `unicode_numeric`.
pub assume_specification[ char::is_numeric ](c: char) -> (b: bool)
    ensures
        b == unicode_numeric(c),
;

/// `char::is_alphanumeric`, under the name `unicode_alphanumeric`.
pub assume_specification[ char::is_alphanumeric ](c: char) -> (b: bool)
    ensures
        b == unicode_alphanumeric(c),
;

/// Whether `code` is a Unicode scalar value: a code point that is no
/// surrogate.
pub open spec fn is_scalar(code: int) -> bool {
    0 <= code <= 0xD7FF || 0xE000 <= code <= 0x10FFFF
}

/// `char::from_u32`: the character with the code `i` where `i` is a Unicode
/// scalar value, `None` where it is not.
pub assume_specification[ char::from_u32 ](i: u32) -> (r: Option<char>)
    ensures
        r == (if is_scalar(i as int) {
            Some(i as char)
        } else {
            None
        }),
;

/// The kinds of token.
#[derive(Debug, Clone, Copy, PartialEq, Eq, Structural)]
pub enum TokenType {
    /// `{`
    OBrk,
    /// `}`
    CBrk,
    /// `[`
    OSBrk,
    /// `]`
    CSBrk,
    /// `:`
    Colon,
    /// `,`
    Comma,
    True,
    False,
    Null,
    /// A number, uninterpreted: the characters as they stand in the text.
    Number,
    /// A string literal, its escapes resolved.
    String,
}

/// A token: its kind, its text, and where it starts.
#[derive(Debug)]
pub struct Token {
    pub value: std::string::String,
    pub typ: TokenType,
    pub line: usize,
    pub pos: usize,
}

/// A token as contracts see it.
pub struct Tok {
    pub value: Seq<char>,
    pub typ: TokenType,
    pub line: int,
    pub pos: int,
}

impl View for Token {
    type V = Tok;

    open spec fn view(&self) -> Tok {
        Tok { value: self.value@, typ: self.typ, line: self.line as int, pos: self.pos as int }
    }
}

/// The tokens as contracts see them.
pub open spec fn toks(tokens: Seq<Token>) -> Seq<Tok> {
    tokens.map_values(|t: Token| t@)
}

impl Token {
    /// A token of kind `typ` with the text `value` that starts at column
    /// `pos` of line `line`.
    pub fn new(value: std::string::String, typ: TokenType, line: usize, pos: usize) -> (t: Self)
        ensures
            t@ == (Tok { value: value@, typ, line: line as int, pos: pos as int }),
    {
        Self { value, typ, line, pos }
    }

    /// As `new`, from a string slice.
    pub fn new_str(value: &str, typ: TokenType, line: usize, pos: usize) -> (t: Self)
        ensures
            t@ == (Tok { value: value@, typ, line: line as int, pos: pos as int }),
    {
        Self::new(value.to_owned(), typ, line, pos)
    }

    /// As `new`, with a text of the one character `value`.
    pub fn new_ch(value: char, typ: TokenType, line: usize, pos: usize) -> (t: Self)
        ensures
            t@ == (Tok { value: seq![value], typ, line: line as int, pos: pos as int }),
    {
        let mut text = std::string::String::new();
        text.push(value);
        assert(text@ =~= seq![value]);
        Self::new(text, typ, line, pos)
    }
}

/// The line, counted from 1, of the character at index `i` of `text`: one
/// more than the number of newlines before it.
pub open spec fn line_of(text: Seq<char>, i: int) -> int
    decreases i,
{
    if i <= 0 {
        1
    } else {
        line_of(text, i - 1) + if text[i - 1] == '\n' {
            1int
        } else {
            0int
        }
    }
}

/// The column, counted from 1, of the character at index `i` of `text`: its
/// distance from the last newline before it, or from the start of the text.
pub open spec fn column_of(text: Seq<char>, i: int) -> int
    decreases i,
{
    if i <= 0 {
        1
    } else if text[i - 1] == '\n' {
        1
    } else {
        column_of(text, i - 1) + 1
    }
}

/// Lines and columns are at least 1 and at most one more than the index.
pub proof fn lemma_position_bounds(text: Seq<char>, i: int)
    requires
        0 <= i,
    ensures
        1 <= line_of(text, i) <= i + 1,
        1 <= column_of(text, i) <= i + 1,
    decreases i,
{
    if i > 0 {
        lemma_position_bounds(text, i - 1);
    }
}

/// A place in a text while it is read: the line of the next character, and
/// the column of the character read last on that line, 0 at its start.
#[derive(Debug, Clone, Copy)]
pub struct Position {
    pub line: usize,
    pub pos: usize,
}

impl Position {
    /// The place before the first character.
    pub fn new() -> (p: Self)
        ensures
            p.line == 1,
            p.pos == 0,
    {
        Self { line: 1, pos: 0 }
    }

    /// `self` is the place before the character at index `at` of `text`.
    pub open spec fn tracks(self, text: Seq<char>, at: int) -> bool {
        self.line == line_of(text, at) && self.pos + 1 == column_of(text, at)
    }
}

/// The characters that stand between tokens.
pub open spec fn is_blank(c: char) -> bool {
    c == ' ' || c == '\t' || c == '\n'
}

/// Whether a character is numeric: one of the ten digits among the
/// characters of ASCII, and beyond them what Unicode counts as numeric.
pub open spec fn numeric(c: char) -> bool {
    if (c as int) < 128 {
        '0' <= c <= '9'
    } else {
        unicode_numeric(c)
    }
}

/// Whether a character is alphabetic or numeric: a letter or a digit among
/// the characters of ASCII, and beyond them what Unicode counts as such.
pub open spec fn alphanumeric(c: char) -> bool {
    if (c as int) < 128 {
        '0' <= c <= '9' || 'a' <= c <= 'z' || 'A' <= c <= 'Z'
    } else {
        unicode_alphanumeric(c)
    }
}

/// A number token starts with such a character.
pub open spec fn number_starts(c: char) -> bool {
    numeric(c) || c == '-' || c == '+'
}

/// A number token goes on with such a character.
pub open spec fn number_continues(c: char) -> bool {
    alphanumeric(c) || c == '.' || c == '+' || c == '-'
}

/// The index of the first character from `i` on that is not blank, or the
/// length of the text.
pub open spec fn skip_blanks(text: Seq<char>, i: int) -> int
    decreases text.len() - i,
{
    if 0 <= i < text.len() && is_blank(text[i]) {
        skip_blanks(text, i + 1)
    } else {
        i
    }
}

/// The index of the first character from `i` on that a number token does not
/// go on with, or the length of the text.
pub open spec fn number_end(text: Seq<char>, i: int) -> int
    decreases text.len() - i,
{
    if 0 <= i < text.len() && number_continues(text[i]) {
        number_end(text, i + 1)
    } else {
        i
    }
}

/// The index behind the first newline from `i` on, or the length of the text.
pub open spec fn line_comment_end(text: Seq<char>, i: int) -> int
    decreases text.len() - i,
{
    if 0 <= i < text.len() {
        if text[i] == '\n' {
            i + 1
        } else {
            line_comment_end(text, i + 1)
        }
    } else {
        i
    }
}

/// The index behind the first `*/` from `i` on, or `None` where there is none.
pub open spec fn block_comment_end(text: Seq<char>, i: int) -> Option<int>
    decreases text.len() - i,
{
    if 0 <= i && i + 1 < text.len() {
        if text[i] == '*' && text[i + 1] == '/' {
            Some(i + 2)
        } else {
            block_comment_end(text, i + 1)
        }
    } else {
        None
    }
}

/// The value of a hexadecimal digit, or `None` for another character.
pub open spec fn hex_value(c: char) -> Option<int> {
    if '0' <= c <= '9' {
        Some(c as int - '0' as int)
    } else if 'a' <= c <= 'f' {
        Some(c as int - 'a' as int + 10)
    } else if 'A' <= c <= 'F' {
        Some(c as int - 'A' as int + 10)
    } else {
        None
    }
}

/// The number that the `n` hexadecimal digits from index `i` on stand for.
/// It fails at the first of them that is missing, with `UnexpectedEOL`, or
/// that is no hexadecimal digit, with `StringUnicode`.
pub open spec fn hex_code(text: Seq<char>, i: int, n: nat) -> Result<int, Failure>
    decreases n,
{
    if n == 0 {
        Ok(0)
    } else {
        match hex_code(text, i, (n - 1) as nat) {
            Ok(high) => {
                let j = i + n - 1;
                if j >= text.len() {
                    Err(Failure::UnexpectedEOL(line_of(text, j), column_of(text, j)))
                } else {
                    match hex_value(text[j]) {
                        Some(d) => Ok(high * 16 + d),
                        None => Err(
                            Failure::StringUnicode(text[j], line_of(text, j), column_of(text, j)),
                        ),
                    }
                }
            },
            Err(e) => Err(e),
        }
    }
}

/// The character that `\x` or `\u` with the `n` hexadecimal digits from
/// index `i` on stands for, and the index behind the digits. A code that is
/// no Unicode scalar value fails with `StringUnicode` at the last digit.
pub open spec fn hex_escape(text: Seq<char>, i: int, n: nat) -> Result<(char, int), Failure> {
    match hex_code(text, i, n) {
        Ok(code) => if is_scalar(code) {
            Ok((code as char, i + n))
        } else {
            Err(
                Failure::StringUnicode(
                    text[i + n - 1],
                    line_of(text, i + n - 1),
                    column_of(text, i + n - 1),
                ),
            )
        },
        Err(e) => Err(e),
    }
}

/// The character that the one-letter escape `c` stands for.
pub open spec fn simple_escape(c: char) -> Option<char> {
    if c == '"' {
        Some('"')
    } else if c == '\'' {
        Some('\'')
    } else if c == '\\' {
        Some('\\')
    } else if c == 'n' {
        Some('\n')
    } else if c == 't' {
        Some('\t')
    } else if c == 'v' {
        Some('\x0B')
    } else if c == 'r' {
        Some('\r')
    } else if c == '0' {
        Some('\0')
    } else if c == 'b' {
        Some('\x08')
    } else if c == 'f' {
        Some('\x0C')
    } else {
        None
    }
}

/// How many characters the escape with the letter `c` takes behind its
/// backslash.
pub open spec fn escape_width(c: char) -> int {
    if c == 'x' {
        3
    } else if c == 'u' {
        5
    } else {
        1
    }
}

/// The character that the escape stands for whose letter is at index `i`,
/// right behind the backslash. A missing letter fails with `UnexpectedEOL`,
/// an unknown one with `StringEscapeChar`.
pub open spec fn scan_escape(text: Seq<char>, i: int) -> Result<char, Failure> {
    if i >= text.len() {
        Err(Failure::UnexpectedEOL(line_of(text, i), column_of(text, i)))
    } else if text[i] == 'x' {
        match hex_escape(text, i + 1, 2) {
            Ok((c, _)) => Ok(c),
            Err(e) => Err(e),
        }
    } else if text[i] == 'u' {
        match hex_escape(text, i + 1, 4) {
            Ok((c, _)) => Ok(c),
            Err(e) => Err(e),
        }
    } else {
        match simple_escape(text[i]) {
            Some(c) => Ok(c),
            None => Err(
                Failure::StringEscapeChar(text[i], line_of(text, i), column_of(text, i)),
            ),
        }
    }
}

/// The content of the string literal whose first character behind the
/// opening quote is at index `i`, and the index behind its closing quote.
/// Where the text ends before a closing quote, the literal ends with it.
pub open spec fn scan_string(text: Seq<char>, i: int) -> Result<(Seq<char>, int), Failure>
    decreases text.len() - i,
{
    if !(0 <= i < text.len()) {
        Ok((Seq::empty(), i))
    } else if text[i] == '"' {
        Ok((Seq::empty(), i + 1))
    } else if text[i] == '\\' {
        match scan_escape(text, i + 1) {
            Ok(c) => {
                let next = i + 1 + escape_width(text[i + 1]);
                match scan_string(text, next) {
                    Ok((rest, end)) => Ok((seq![c] + rest, end)),
                    Err(e) => Err(e),
                }
            },
            Err(e) => Err(e),
        }
    } else {
        match scan_string(text, i + 1) {
            Ok((rest, end)) => Ok((seq![text[i]] + rest, end)),
            Err(e) => Err(e),
        }
    }
}

/// What the lexer finds at a character that is not blank.
pub enum Step {
    /// A token, and the index behind it.
    Token(Tok, int),
    /// A comment, and the index behind it.
    Skip(int),
    /// An error.
    Fail(Failure),
}

/// The keyword `word` of kind `typ` at index `j`: the characters of the text
/// from there must be those of the word. Where they are not, `ExpectedWord`
/// is reported at the last character that the word would have covered, or at
/// the last of the text where it ends before.
pub open spec fn scan_keyword(text: Seq<char>, j: int, word: Seq<char>, typ: TokenType) -> Step {
    if j + word.len() <= text.len() && text.subrange(j, j + word.len()) == word {
        Step::Token(
            Tok { value: word, typ, line: line_of(text, j), pos: column_of(text, j) },
            j + word.len(),
        )
    } else {
        let last = if j + word.len() <= text.len() {
            j + word.len() - 1
        } else {
            text.len() - 1
        };
        Step::Fail(Failure::ExpectedWord(word, line_of(text, last), column_of(text, last)))
    }
}

/// The comment whose `/` is at index `j`. `//` runs to the end of the line,
/// `/*` to the next `*/`; without one it fails with `UnexpectedEndOfTokens`.
/// A `/` at the end of the text fails with `UnexpectedEOL`, one before
/// another character with `UnexpectedChar` at that character.
pub open spec fn scan_comment(text: Seq<char>, j: int) -> Step {
    if j + 1 >= text.len() {
        Step::Fail(Failure::UnexpectedEOL(line_of(text, j), column_of(text, j)))
    } else if text[j + 1] == '/' {
        Step::Skip(line_comment_end(text, j + 2))
    } else if text[j + 1] == '*' {
        match block_comment_end(text, j + 2) {
            Some(end) => Step::Skip(end),
            None => Step::Fail(Failure::UnexpectedEndOfTokens),
        }
    } else {
        Step::Fail(
            Failure::UnexpectedChar(text[j + 1], line_of(text, j + 1), column_of(text, j + 1)),
        )
    }
}

/// The characters of `true`.
pub open spec fn word_true() -> Seq<char> {
    seq!['t', 'r', 'u', 'e']
}

/// The characters of `false`.
pub open spec fn word_false() -> Seq<char> {
    seq!['f', 'a', 'l', 's', 'e']
}

/// The characters of `null`.
pub open spec fn word_null() -> Seq<char> {
    seq!['n', 'u', 'l', 'l']
}

/// The kind of the token that consists of the one character `c`.
pub open spec fn punctuation(c: char) -> Option<TokenType> {
    if c == '{' {
        Some(TokenType::OBrk)
    } else if c == '}' {
        Some(TokenType::CBrk)
    } else if c == '[' {
        Some(TokenType::OSBrk)
    } else if c == ']' {
        Some(TokenType::CSBrk)
    } else if c == ':' {
        Some(TokenType::Colon)
    } else if c == ',' {
        Some(TokenType::Comma)
    } else {
        None
    }
}

/// What stands at index `j` of `text`, where a character stands that is not
/// blank.
pub open spec fn scan_token(text: Seq<char>, j: int) -> Step {
    let c = text[j];
    let line = line_of(text, j);
    let pos = column_of(text, j);
    if punctuation(c) is Some {
        Step::Token(Tok { value: seq![c], typ: punctuation(c)->Some_0, line, pos }, j + 1)
    } else if c == 't' {
        scan_keyword(text, j, word_true(), TokenType::True)
    } else if c == 'f' {
        scan_keyword(text, j, word_false(), TokenType::False)
    } else if c == 'n' {
        scan_keyword(text, j, word_null(), TokenType::Null)
    } else if c == '"' {
        match scan_string(text, j + 1) {
            Ok((content, end)) => Step::Token(
                Tok { value: content, typ: TokenType::String, line, pos },
                end,
            ),
            Err(e) => Step::Fail(e),
        }
    } else if c == '/' {
        scan_comment(text, j)
    } else if number_starts(c) {
        let end = number_end(text, j + 1);
        Step::Token(Tok { value: text.subrange(j, end), typ: TokenType::Number, line, pos }, end)
    } else {
        Step::Fail(Failure::UnexpectedChar(c, line, pos))
    }
}

/// The index behind what `scan_token` finds at `j`, where it finds something.
pub open spec fn step_end(step: Step) -> int {
    match step {
        Step::Token(_, end) => end,
        Step::Skip(end) => end,
        Step::Fail(_) => 0,
    }
}

/// `tokens` before what `rest` holds, or the error of `rest`.
pub open spec fn prepend(tokens: Seq<Tok>, rest: Result<Seq<Tok>, Failure>) -> Result<
    Seq<Tok>,
    Failure,
> {
    match rest {
        Ok(more) => Ok(tokens + more),
        Err(e) => Err(e),
    }
}

/// The tokens of `text` from index `i` on, or the first error.
pub open spec fn lex_from(text: Seq<char>, i: int) -> Result<Seq<Tok>, Failure>
    decreases text.len() - i,
    when 0 <= i
    via lex_from_decreases
{
    let j = skip_blanks(text, i);
    if j >= text.len() {
        Ok(Seq::empty())
    } else {
        match scan_token(text, j) {
            Step::Token(t, end) => prepend(seq![t], lex_from(text, end)),
            Step::Skip(end) => lex_from(text, end),
            Step::Fail(e) => Err(e),
        }
    }
}

#[via_fn]
proof fn lex_from_decreases(text: Seq<char>, i: int) {
    let j = skip_blanks(text, i);
    lemma_skip_blanks(text, i);
    if j < text.len() {
        lemma_scan_token_advances(text, j);
    }
}

/// The tokens of `text`, or the first error.
pub open spec fn lex(text: Seq<char>) -> Result<Seq<Tok>, Failure> {
    lex_from(text, 0)
}

/// `skip_blanks` stops in the text at a character that is not blank, or at
/// its end, and passes blanks only.
pub proof fn lemma_skip_blanks(text: Seq<char>, i: int)
    requires
        0 <= i,
    ensures
        i <= skip_blanks(text, i),
        i <= text.len() ==> skip_blanks(text, i) <= text.len(),
        skip_blanks(text, i) < text.len() ==> !is_blank(text[skip_blanks(text, i)]),
    decreases text.len() - i,
{
    if i < text.len() && is_blank(text[i]) {
        lemma_skip_blanks(text, i + 1);
    }
}

/// `number_end` stops in the text or at its end.
pub proof fn lemma_number_end(text: Seq<char>, i: int)
    requires
        0 <= i <= text.len(),
    ensures
        i <= number_end(text, i) <= text.len(),
    decreases text.len() - i,
{
    if i < text.len() && number_continues(text[i]) {
        lemma_number_end(text, i + 1);
    }
}

/// `line_comment_end` stops in the text or at its end.
pub proof fn lemma_line_comment_end(text: Seq<char>, i: int)
    requires
        0 <= i <= text.len(),
    ensures
        i <= line_comment_end(text, i) <= text.len(),
    decreases text.len() - i,
{
    if i < text.len() && text[i] != '\n' {
        lemma_line_comment_end(text, i + 1);
    }
}

/// `block_comment_end` stops in the text or at its end.
pub proof fn lemma_block_comment_end(text: Seq<char>, i: int)
    requires
        0 <= i,
    ensures
        block_comment_end(text, i) is Some ==> i + 2 <= block_comment_end(text, i)->Some_0
            <= text.len(),
    decreases text.len() - i,
{
    if i + 1 < text.len() && !(text[i] == '*' && text[i + 1] == '/') {
        lemma_block_comment_end(text, i + 1);
    }
}

/// A string literal ends in the text or at its end.
pub proof fn lemma_scan_string(text: Seq<char>, i: int)
    requires
        0 <= i <= text.len(),
    ensures
        scan_string(text, i) is Ok ==> i <= scan_string(text, i)->Ok_0.1 <= text.len(),
    decreases text.len() - i,
{
    if i < text.len() && text[i] != '"' {
        if text[i] == '\\' {
            if scan_escape(text, i + 1) is Ok {
                lemma_scan_escape(text, i + 1);
                lemma_scan_string(text, i + 1 + escape_width(text[i + 1]));
            }
        } else {
            lemma_scan_string(text, i + 1);
        }
    }
}

/// Where `n` hexadecimal digits are read, they are there.
pub proof fn lemma_hex_code(text: Seq<char>, i: int, n: nat)
    requires
        0 <= i,
    ensures
        hex_code(text, i, n) is Ok && n > 0 ==> i + n <= text.len(),
        hex_code(text, i, n) is Ok ==> 0 <= hex_code(text, i, n)->Ok_0 < pow16(n),
    decreases n,
{
    if n > 0 {
        lemma_hex_code(text, i, (n - 1) as nat);
        if hex_code(text, i, n) is Ok {
            let j = i + n - 1;
            let d = hex_value(text[j])->Some_0;
            assert(0 <= d < 16);
        }
    }
}

/// Where the first `m` digits cannot be read, more of them cannot either, for
/// the same reason.
pub proof fn lemma_hex_code_fails(text: Seq<char>, i: int, m: nat, n: nat)
    requires
        m <= n,
        hex_code(text, i, m) is Err,
    ensures
        hex_code(text, i, n) == hex_code(text, i, m),
    decreases n - m,
{
    if m < n {
        lemma_hex_code_fails(text, i, m, (n - 1) as nat);
    }
}

/// 16 to the `n`.
pub open spec fn pow16(n: nat) -> int
    decreases n,
{
    if n == 0 {
        1
    } else {
        16 * pow16((n - 1) as nat)
    }
}

/// An escape that is read lies in the text with all it takes.
pub proof fn lemma_scan_escape(text: Seq<char>, i: int)
    requires
        0 <= i,
    ensures
        scan_escape(text, i) is Ok ==> i + escape_width(text[i]) <= text.len(),
{
    if i < text.len() {
        if text[i] == 'x' {
            lemma_hex_code(text, i + 1, 2);
        } else if text[i] == 'u' {
            lemma_hex_code(text, i + 1, 4);
        }
    }
}

/// What stands at `j` ends behind `j`, in the text or at its end.
pub proof fn lemma_scan_token_advances(text: Seq<char>, j: int)
    requires
        0 <= j < text.len(),
    ensures
        !(scan_token(text, j) is Fail) ==> j < step_end(scan_token(text, j)) <= text.len(),
{
    let c = text[j];
    if punctuation(c) is Some {
    } else if c == 't' || c == 'f' || c == 'n' {
    } else if c == '"' {
        lemma_scan_string(text, j + 1);
    } else if c == '/' {
        if j + 1 < text.len() {
            if text[j + 1] == '/' {
                lemma_line_comment_end(text, j + 2);
            } else if text[j + 1] == '*' {
                lemma_block_comment_end(text, j + 2);
            }
        }
    } else if number_starts(c) {
        lemma_number_end(text, j + 1);
    }
}

/// Whether `c` is numeric.
fn is_numeric_char(c: char) -> (b: bool)
    ensures
        b == numeric(c),
{
    if (c as u32) < 128 {
        c >= '0' && c <= '9'
    } else {
        c.is_numeric()
    }
}

/// Whether `c` is alphabetic or numeric.
fn is_alphanumeric_char(c: char) -> (b: bool)
    ensures
        b == alphanumeric(c),
{
    if (c as u32) < 128 {
        (c >= '0' && c <= '9') || (c >= 'a' && c <= 'z') || (c >= 'A' && c <= 'Z')
    } else {
        c.is_alphanumeric()
    }
}

/// Passes the character at index `at`.
fn advance(chars: &Vec<char>, at: &mut usize, pos: &mut Position)
    requires
        *old(at) < chars.len() < usize::MAX,
        old(pos).tracks(chars@, *old(at) as int),
    ensures
        *final(at) == *old(at) + 1,
        final(pos).tracks(chars@, *final(at) as int),
{
    proof {
        lemma_position_bounds(chars@, *at as int);
        lemma_position_bounds(chars@, *at + 1);
    }
    if chars[*at] == '\n' {
        pos.line += 1;
        pos.pos = 0;
    } else {
        pos.pos += 1;
    }
    *at += 1;
}

/// Passes blanks and the character behind them, which it returns with
/// `false`; `true` where the text ends first. `pos` is then the place of the
/// character returned.
pub fn eat_whitespace(chars: &Vec<char>, at: &mut usize, pos: &mut Position) -> (r: (bool, char))
    requires
        *old(at) <= chars.len() < usize::MAX,
        old(pos).tracks(chars@, *old(at) as int),
    ensures
        final(pos).tracks(chars@, *final(at) as int),
        r.0 == (skip_blanks(chars@, *old(at) as int) >= chars@.len()),
        r.0 ==> *final(at) == chars.len() && r.1 == '\0',
        !r.0 ==> {
            let j = skip_blanks(chars@, *old(at) as int);
            &&& *final(at) == j + 1
            &&& r.1 == chars@[j]
            &&& final(pos).line == line_of(chars@, j)
            &&& final(pos).pos == column_of(chars@, j)
        },
{
    while *at < chars.len()
        invariant
            *at <= chars.len() < usize::MAX,
            pos.tracks(chars@, *at as int),
            skip_blanks(chars@, *old(at) as int) == skip_blanks(chars@, *at as int),
        decreases chars.len() - *at,
    {
        let c = chars[*at];
        if c != ' ' && c != '\t' && c != '\n' {
            advance(chars, at, pos);
            return (false, c);
        }
        advance(chars, at, pos);
    }
    (true, '\0')
}

/// The value of the hexadecimal digit `c`.
fn hex_digit(c: char) -> (r: Option<u32>)
    ensures
        match r {
            Some(d) => hex_value(c) == Some(d as int) && d < 16,
            None => hex_value(c) is None,
        },
{
    if c >= '0' && c <= '9' {
        Some(c as u32 - '0' as u32)
    } else if c >= 'a' && c <= 'f' {
        Some(c as u32 - 'a' as u32 + 10)
    } else if c >= 'A' && c <= 'F' {
        Some(c as u32 - 'A' as u32 + 10)
    } else {
        None
    }
}

/// Reads the `n` hexadecimal digits of a `\x` or `\u` escape.
fn parse_hex_escape(chars: &Vec<char>, at: &mut usize, pos: &mut Position, n: usize) -> (r: Result<
    char,
    ParserError,
>)
    requires
        *old(at) <= chars.len() < usize::MAX,
        old(pos).tracks(chars@, *old(at) as int),
        n == 2 || n == 4,
    ensures
        match r {
            Ok(c) => hex_escape(chars@, *old(at) as int, n as nat) == Ok::<(char, int), Failure>(
                (c, *final(at) as int),
            ) && *old(at) <= *final(at) <= chars.len() && final(pos).tracks(
                chars@,
                *final(at) as int,
            ),
            Err(e) => hex_escape(chars@, *old(at) as int, n as nat) == Err::<(char, int), Failure>(
                e@,
            ),
        },
{
    let ghost start = *at as int;
    let mut code: u32 = 0;
    let mut k: usize = 0;
    let mut last = ' ';
    let mut last_line: usize = 0;
    let mut last_pos: usize = 0;
    while k < n
        invariant
            k <= n <= 4,
            0 <= start == *old(at),
            *at == start + k,
            *at <= chars.len() < usize::MAX,
            pos.tracks(chars@, *at as int),
            hex_code(chars@, start, k as nat) == Ok::<int, Failure>(code as int),
            code < pow16(k as nat),
            k > 0 ==> last == chars@[start + k - 1] && last_line == line_of(chars@, start + k - 1)
                && last_pos == column_of(chars@, start + k - 1),
        decreases n - k,
    {
        proof {
            lemma_position_bounds(chars@, *at as int);
            reveal_with_fuel(pow16, 5);
        }
        if *at >= chars.len() {
            proof {
                assert(hex_code(chars@, start, (k + 1) as nat) is Err);
                lemma_hex_code_fails(chars@, start, (k + 1) as nat, n as nat);
            }
            return Err(ParserError::UnexpectedEOL(pos.line, pos.pos + 1));
        }
        let c = chars[*at];
        last = c;
        last_line = pos.line;
        last_pos = pos.pos + 1;
        match hex_digit(c) {
            Some(d) => {
                code = code * 16 + d;
            },
            None => {
                proof {
                    assert(hex_code(chars@, start, (k + 1) as nat) is Err);
                    lemma_hex_code_fails(chars@, start, (k + 1) as nat, n as nat);
                }
                return Err(ParserError::StringUnicode(c, pos.line, pos.pos + 1));
            },
        }
        advance(chars, at, pos);
        k += 1;
    }
    proof {
        reveal_with_fuel(pow16, 5);
    }
    match char::from_u32(code) {
        Some(c) => Ok(c),
        None => Err(ParserError::StringUnicode(last, last_line, last_pos)),
    }
}

/// `text` before what `rest` holds, or the error of `rest`.
pub open spec fn prepend_chars(text: Seq<char>, rest: Result<(Seq<char>, int), Failure>) -> Result<
    (Seq<char>, int),
    Failure,
> {
    match rest {
        Ok((more, end)) => Ok((text + more, end)),
        Err(e) => Err(e),
    }
}

/// Reads an escape from behind its backslash, and returns the character it
/// stands for.
fn parse_escape(chars: &Vec<char>, at: &mut usize, pos: &mut Position) -> (r: Result<
    char,
    ParserError,
>)
    requires
        *old(at) <= chars.len() < usize::MAX,
        old(pos).tracks(chars@, *old(at) as int),
    ensures
        match r {
            Ok(c) => scan_escape(chars@, *old(at) as int) == Ok::<char, Failure>(c) && *final(at)
                == *old(at) + escape_width(chars@[*old(at) as int]) && *final(at) <= chars.len()
                && final(pos).tracks(chars@, *final(at) as int),
            Err(e) => scan_escape(chars@, *old(at) as int) == Err::<char, Failure>(e@),
        },
{
    proof {
        lemma_position_bounds(chars@, *at as int);
    }
    if *at >= chars.len() {
        return Err(ParserError::UnexpectedEOL(pos.line, pos.pos + 1));
    }
    let esc = chars[*at];
    let esc_line = pos.line;
    let esc_pos = pos.pos + 1;
    advance(chars, at, pos);
    if esc == 'x' {
        parse_hex_escape(chars, at, pos, 2)
    } else if esc == 'u' {
        parse_hex_escape(chars, at, pos, 4)
    } else {
        let resolved = match esc {
            '"' => Some('"'),
            '\'' => Some('\''),
            '\\' => Some('\\'),
            'n' => Some('\n'),
            't' => Some('\t'),
            'v' => Some('\x0B'),
            'r' => Some('\r'),
            '0' => Some('\0'),
            'b' => Some('\x08'),
            'f' => Some('\x0C'),
            _ => None,
        };
        match resolved {
            Some(c) => Ok(c),
            None => Err(ParserError::StringEscapeChar(esc, esc_line, esc_pos)),
        }
    }
}

/// Reads a string literal from behind its opening quote to its closing
/// quote, and returns its content with the escapes resolved.
pub fn parse_string(chars: &Vec<char>, at: &mut usize, pos: &mut Position) -> (r: Result<
    std::string::String,
    ParserError,
>)
    requires
        *old(at) <= chars.len() < usize::MAX,
        old(pos).tracks(chars@, *old(at) as int),
    ensures
        match r {
            Ok(s) => scan_string(chars@, *old(at) as int) == Ok::<(Seq<char>, int), Failure>(
                (s@, *final(at) as int),
            ) && *old(at) <= *final(at) <= chars.len() && final(pos).tracks(
                chars@,
                *final(at) as int,
            ),
            Err(e) => scan_string(chars@, *old(at) as int) == Err::<(Seq<char>, int), Failure>(e@),
        },
{
    let ghost start = *at as int;
    let mut key = std::string::String::new();
    proof {
        let rest = scan_string(chars@, start);
        if rest is Ok {
            assert(key@ + rest->Ok_0.0 =~= rest->Ok_0.0);
        }
    }
    loop
        invariant
            0 <= start == *old(at) <= *at <= chars.len() < usize::MAX,
            pos.tracks(chars@, *at as int),
            scan_string(chars@, start) == prepend_chars(key@, scan_string(chars@, *at as int)),
        decreases chars.len() - *at,
    {
        let ghost here = *at as int;
        let ghost so_far = key@;
        if *at >= chars.len() {
            assert(so_far + Seq::<char>::empty() =~= so_far);
            return Ok(key);
        }
        let ch = chars[*at];
        advance(chars, at, pos);
        if ch == '"' {
            assert(so_far + Seq::<char>::empty() =~= so_far);
            return Ok(key);
        }
        let resolved = if ch == '\\' {
            match parse_escape(chars, at, pos) {
                Ok(c) => c,
                Err(e) => {
                    return Err(e);
                },
            }
        } else {
            ch
        };
        key.push(resolved);
        proof {
            let rest = scan_string(chars@, *at as int);
            assert(scan_string(chars@, here) == prepend_chars(seq![resolved], rest));
            if rest is Ok {
                assert(so_far + (seq![resolved] + rest->Ok_0.0) =~= so_far.push(resolved)
                    + rest->Ok_0.0);
            }
        }
    }
}

/// Reads the keyword `word`, whose first letter at index `*at - 1` has just
/// been read.
fn parse_keyword(
    chars: &Vec<char>,
    at: &mut usize,
    pos: &mut Position,
    word: &str,
    typ: TokenType,
) -> (r: Result<Token, ParserError>)
    requires
        0 < *old(at) <= chars.len() < usize::MAX,
        old(pos).tracks(chars@, *old(at) as int),
        old(pos).line == line_of(chars@, *old(at) - 1),
        old(pos).pos == column_of(chars@, *old(at) - 1),
        1 <= word@.len() <= 5,
    ensures
        match r {
            Ok(t) => scan_keyword(chars@, *old(at) - 1, word@, typ) == Step::Token(
                t@,
                *final(at) as int,
            ) && *old(at) <= *final(at) <= chars.len() && final(pos).tracks(
                chars@,
                *final(at) as int,
            ),
            Err(e) => scan_keyword(chars@, *old(at) - 1, word@, typ) == Step::Fail(e@),
        },
{
    let j = *at - 1;
    let n = word.unicode_len();
    let line = pos.line;
    let col = pos.pos;
    let mut same = n <= chars.len() - j;
    let mut k: usize = 0;
    while same && k < n
        invariant
            k <= n,
            n == word@.len(),
            j < chars.len() < usize::MAX,
            same ==> j + n <= chars.len(),
            same ==> forall|m: int| 0 <= m < k ==> chars@[j + m] == word@[m],
            !same ==> !(j + n <= chars@.len() && chars@.subrange(j as int, j + n) == word@),
        decreases n - k, same as int,
    {
        if chars[j + k] != word.get_char(k) {
            same = false;
            assert(chars@.subrange(j as int, j + n)[k as int] == chars@[j + k]);
        } else {
            k += 1;
        }
    }
    if same {
        assert(chars@.subrange(j as int, j + n) =~= word@);
        while *at < j + n
            invariant
                *old(at) <= *at,
                j < *at <= j + n <= chars.len() < usize::MAX,
                pos.tracks(chars@, *at as int),
            decreases j + n - *at,
        {
            advance(chars, at, pos);
        }
        Ok(Token::new_str(word, typ, line, col))
    } else {
        let last = if n <= chars.len() - j {
            j + n - 1
        } else {
            chars.len() - 1
        };
        if last == j {
            Err(ParserError::ExpectedWord(word.to_owned(), line, col))
        } else {
            while *at < last
                invariant
                    j < *at <= last < chars.len() < usize::MAX,
                    pos.tracks(chars@, *at as int),
                decreases last - *at,
            {
                advance(chars, at, pos);
            }
            proof {
                lemma_position_bounds(chars@, last as int);
            }
            Err(ParserError::ExpectedWord(word.to_owned(), pos.line, pos.pos + 1))
        }
    }
}

/// Passes the comment whose `/` at index `*at - 1` has just been read.
fn parse_comment(chars: &Vec<char>, at: &mut usize, pos: &mut Position) -> (r: Result<
    (),
    ParserError,
>)
    requires
        0 < *old(at) <= chars.len() < usize::MAX,
        old(pos).tracks(chars@, *old(at) as int),
        old(pos).line == line_of(chars@, *old(at) - 1),
        old(pos).pos == column_of(chars@, *old(at) - 1),
    ensures
        match r {
            Ok(_) => scan_comment(chars@, *old(at) - 1) == Step::Skip(*final(at) as int)
                && *old(at) <= *final(at) <= chars.len() && final(pos).tracks(
                chars@,
                *final(at) as int,
            ),
            Err(e) => scan_comment(chars@, *old(at) - 1) == Step::Fail(e@),
        },
{
    let ghost j = *at - 1;
    if *at >= chars.len() {
        return Err(ParserError::UnexpectedEOL(pos.line, pos.pos));
    }
    proof {
        lemma_position_bounds(chars@, *at as int);
    }
    let ch = chars[*at];
    if ch == '/' {
        advance(chars, at, pos);
        while *at < chars.len()
            invariant
                *at <= chars.len() < usize::MAX,
                pos.tracks(chars@, *at as int),
                line_comment_end(chars@, j + 2) == line_comment_end(chars@, *at as int),
                0 <= j == *old(at) - 1,
                j + 2 <= *at,
                chars@[j + 1] == '/',
                j + 1 < chars.len(),
            decreases chars.len() - *at,
        {
            let c = chars[*at];
            advance(chars, at, pos);
            if c == '\n' {
                assert(line_comment_end(chars@, *at - 1) == *at);
                return Ok(());
            }
        }
        Ok(())
    } else if ch == '*' {
        advance(chars, at, pos);
        while *at + 1 < chars.len()
            invariant
                *at <= chars.len() < usize::MAX,
                pos.tracks(chars@, *at as int),
                block_comment_end(chars@, j + 2) == block_comment_end(chars@, *at as int),
                0 <= j == *old(at) - 1,
                j + 2 <= *at,
                chars@[j + 1] == '*',
                j + 1 < chars.len(),
            decreases chars.len() - *at,
        {
            if chars[*at] == '*' && chars[*at + 1] == '/' {
                assert(block_comment_end(chars@, *at as int) == Some(*at + 2));
                advance(chars, at, pos);
                advance(chars, at, pos);
                return Ok(());
            }
            advance(chars, at, pos);
        }
        Err(ParserError::UnexpectedEndOfTokens())
    } else {
        Err(ParserError::UnexpectedChar(ch, pos.line, pos.pos + 1))
    }
}

/// Reads the number token whose first character `first` at index `*at - 1`
/// has just been read.
fn parse_number_token(chars: &Vec<char>, at: &mut usize, pos: &mut Position, first: char) -> (t:
    Token)
    requires
        0 < *old(at) <= chars.len() < usize::MAX,
        old(pos).tracks(chars@, *old(at) as int),
        old(pos).line == line_of(chars@, *old(at) - 1),
        old(pos).pos == column_of(chars@, *old(at) - 1),
        first == chars@[*old(at) - 1],
    ensures
        *final(at) == number_end(chars@, *old(at) as int),
        *old(at) <= *final(at) <= chars.len(),
        final(pos).tracks(chars@, *final(at) as int),
        t@ == (Tok {
            value: chars@.subrange(*old(at) - 1, *final(at) as int),
            typ: TokenType::Number,
            line: line_of(chars@, *old(at) - 1),
            pos: column_of(chars@, *old(at) - 1),
        }),
        t.pos + t.value@.len() <= usize::MAX,
{
    let ghost j = *at - 1;
    let line = pos.line;
    let col = pos.pos;
    let mut text = std::string::String::new();
    text.push(first);
    assert(text@ =~= chars@.subrange(j, *at as int));
    while *at < chars.len() && (is_alphanumeric_char(chars[*at]) || chars[*at] == '.' || chars[*at]
        == '+' || chars[*at] == '-')
        invariant
            0 <= j == *old(at) - 1 < *at <= chars.len() < usize::MAX,
            pos.tracks(chars@, *at as int),
            number_end(chars@, j + 1) == number_end(chars@, *at as int),
            text@ == chars@.subrange(j, *at as int),
        decreases chars.len() - *at,
    {
        text.push(chars[*at]);
        advance(chars, at, pos);
        assert(text@ =~= chars@.subrange(j, *at as int));
    }
    proof {
        lemma_position_bounds(chars@, j);
    }
    Token::new(text, TokenType::Number, line, col)
}

/// Every number token among `tokens` ends at a column that a machine word
/// holds.
pub open spec fn numbers_fit(tokens: Seq<Tok>) -> bool {
    forall|k: int|
        0 <= k < tokens.len() && (#[trigger] tokens[k]).typ == TokenType::Number ==> tokens[k].pos
            + tokens[k].value.len() <= usize::MAX
}

/// Reads what stands at index `*at - 1`, whose first character `ch` has just
/// been read: a token, or a comment, for which it returns `None`.
fn next_token(chars: &Vec<char>, at: &mut usize, pos: &mut Position, ch: char) -> (r: Result<
    Option<Token>,
    ParserError,
>)
    requires
        0 < *old(at) <= chars.len() < usize::MAX,
        old(pos).tracks(chars@, *old(at) as int),
        old(pos).line == line_of(chars@, *old(at) - 1),
        old(pos).pos == column_of(chars@, *old(at) - 1),
        ch == chars@[*old(at) - 1],
    ensures
        match r {
            Ok(Some(t)) => scan_token(chars@, *old(at) - 1) == Step::Token(t@, *final(at) as int)
                && (t.typ == TokenType::Number ==> t.pos + t.value@.len() <= usize::MAX),
            Ok(None) => scan_token(chars@, *old(at) - 1) == Step::Skip(*final(at) as int),
            Err(e) => scan_token(chars@, *old(at) - 1) == Step::Fail(e@),
        },
        r is Ok ==> *old(at) <= *final(at) <= chars.len() && final(pos).tracks(
            chars@,
            *final(at) as int,
        ),
{
    let line = pos.line;
    let col = pos.pos;
    let kind = match ch {
        '{' => Some(TokenType::OBrk),
        '}' => Some(TokenType::CBrk),
        '[' => Some(TokenType::OSBrk),
        ']' => Some(TokenType::CSBrk),
        ':' => Some(TokenType::Colon),
        ',' => Some(TokenType::Comma),
        _ => None,
    };
    match kind {
        Some(typ) => Ok(Some(Token::new_ch(ch, typ, line, col))),
        None => {
            if ch == 't' {
                proof {
                    reveal_strlit("true");
                    assert("true"@ =~= word_true());
                }
                match parse_keyword(chars, at, pos, "true", TokenType::True) {
                    Ok(t) => Ok(Some(t)),
                    Err(e) => Err(e),
                }
            } else if ch == 'f' {
                proof {
                    reveal_strlit("false");
                    assert("false"@ =~= word_false());
                }
                match parse_keyword(chars, at, pos, "false", TokenType::False) {
                    Ok(t) => Ok(Some(t)),
                    Err(e) => Err(e),
                }
            } else if ch == 'n' {
                proof {
                    reveal_strlit("null");
                    assert("null"@ =~= word_null());
                }
                match parse_keyword(chars, at, pos, "null", TokenType::Null) {
                    Ok(t) => Ok(Some(t)),
                    Err(e) => Err(e),
                }
            } else if ch == '"' {
                match parse_string(chars, at, pos) {
                    Ok(text) => Ok(Some(Token::new(text, TokenType::String, line, col))),
                    Err(e) => Err(e),
                }
            } else if ch == '/' {
                match parse_comment(chars, at, pos) {
                    Ok(_) => Ok(None),
                    Err(e) => Err(e),
                }
            } else if is_numeric_char(ch) || ch == '-' || ch == '+' {
                Ok(Some(parse_number_token(chars, at, pos, ch)))
            } else {
                Err(ParserError::UnexpectedChar(ch, line, col))
            }
        },
    }
}

/// The tokens of a text, in order, or the first lexical error.
pub fn lexer(chars: &Vec<char>) -> (r: Result<Vec<Token>, ParserError>)
    requires
        chars.len() < usize::MAX,
    ensures
        match r {
            Ok(tokens) => lex(chars@) == Ok::<Seq<Tok>, Failure>(toks(tokens@)) && numbers_fit(
                toks(tokens@),
            ),
            Err(e) => lex(chars@) == Err::<Seq<Tok>, Failure>(e@),
        },
{
    let mut tokens: Vec<Token> = Vec::new();
    let mut at: usize = 0;
    let mut pos = Position::new();
    assert(toks(tokens@) =~= Seq::<Tok>::empty());
    proof {
        let rest = lex_from(chars@, 0);
        if rest is Ok {
            assert(Seq::<Tok>::empty() + rest->Ok_0 =~= rest->Ok_0);
        }
    }
    loop
        invariant
            at <= chars.len() < usize::MAX,
            pos.tracks(chars@, at as int),
            lex(chars@) == prepend(toks(tokens@), lex_from(chars@, at as int)),
            numbers_fit(toks(tokens@)),
        decreases chars.len() - at,
    {
        let ghost start = at as int;
        let ghost before = toks(tokens@);
        proof {
            lemma_skip_blanks(chars@, start);
        }
        let (failed, ch) = eat_whitespace(chars, &mut at, &mut pos);
        if failed {
            assert(before + Seq::<Tok>::empty() =~= before);
            return Ok(tokens);
        }
        let ghost j = at - 1;
        proof {
            lemma_scan_token_advances(chars@, j);
        }
        match next_token(chars, &mut at, &mut pos, ch) {
            Ok(Some(t)) => {
                let ghost tv = t@;
                tokens.push(t);
                proof {
                    assert(toks(tokens@) =~= before.push(tv));
                    let rest = lex_from(chars@, at as int);
                    if rest is Ok {
                        assert(before + (seq![tv] + rest->Ok_0) =~= before.push(tv) + rest->Ok_0);
                    }
                }
            },
            Ok(None) => {},
            Err(e) => {
                return Err(e);
            },
        }
    }
}

} // verus!
