//! What the lexer finds in the compact text of a tree.
use crate::error::Failure;
use crate::lexer::{
    column_of, hex_code, hex_escape, hex_value, is_blank, is_scalar, lex_from, line_of,
    number_continues, number_end, prepend, prepend_chars, punctuation, scan_escape, scan_keyword,
    scan_string, scan_token, simple_escape, skip_blanks, word_false, word_null, word_true, Step,
    Tok, TokenType,
};
use crate::number::is_digit;
use crate::text::{decimal, escape, escape_char, hex_char, int_text, quoted};
use crate::tree::{closer, compact, compact_entries, compact_entry, compact_more, opener, Json};
use vstd::prelude::*;

verus! {

/// A token without its place.
pub struct Shape {
    pub typ: TokenType,
    pub value: Seq<char>,
}

/// The shape of `t`.
pub open spec fn shape(t: Tok) -> Shape {
    Shape { typ: t.typ, value: t.value }
}

/// The shapes of `tokens`.
pub open spec fn shapes(tokens: Seq<Tok>) -> Seq<Shape> {
    tokens.map_values(|t: Tok| shape(t))
}

/// `text` stands in `whole` from index `i` on.
pub open spec fn at(whole: Seq<char>, i: int, text: Seq<char>) -> bool {
    0 <= i && i + text.len() <= whole.len() && forall|k: int|
        0 <= k < text.len() ==> whole[i + k] == #[trigger] text[k]
}

/// A number token that ends before index `e` of `whole` ends there: the text
/// ends at `e`, or goes on with a character that a number does not go on
/// with.
pub open spec fn follows(whole: Seq<char>, e: int) -> bool {
    e >= whole.len() || !number_continues(whole[e])
}

/// Reading `whole` from index `i` gives tokens of the shapes `found` and
/// goes on at index `e`.
pub open spec fn reads(whole: Seq<char>, i: int, e: int, found: Seq<Shape>) -> bool {
    exists|tokens: Seq<Tok>| #[trigger]
        shapes(tokens) == found && lex_from(whole, i) == prepend(tokens, lex_from(whole, e))
}

/// Where a text of two parts stands, each part stands.
pub proof fn lemma_at_parts(whole: Seq<char>, i: int, a: Seq<char>, b: Seq<char>)
    requires
        at(whole, i, a + b),
    ensures
        at(whole, i, a),
        at(whole, i + a.len(), b),
{
    let ab = a + b;
    assert forall|k: int| 0 <= k < a.len() implies whole[i + k] == #[trigger] a[k] by {
        assert(ab[k] == a[k]);
    }
    assert forall|k: int| 0 <= k < b.len() implies whole[i + a.len() + k] == #[trigger] b[k] by {
        assert(ab[a.len() + k] == b[k]);
    }
}

/// Nothing is read where nothing stands.
pub proof fn lemma_reads_nothing(whole: Seq<char>, i: int)
    ensures
        reads(whole, i, i, Seq::empty()),
{
    let tokens = Seq::<Tok>::empty();
    assert(shapes(tokens) =~= Seq::<Shape>::empty());
    let rest = lex_from(whole, i);
    if rest is Ok {
        assert(tokens + rest->Ok_0 =~= rest->Ok_0);
    }
    assert(lex_from(whole, i) == prepend(tokens, lex_from(whole, i)));
}

/// What is read in two steps is read.
pub proof fn lemma_reads_both(
    whole: Seq<char>,
    i: int,
    m: int,
    e: int,
    first: Seq<Shape>,
    second: Seq<Shape>,
)
    requires
        reads(whole, i, m, first),
        reads(whole, m, e, second),
    ensures
        reads(whole, i, e, first + second),
{
    let a = choose|tokens: Seq<Tok>| #[trigger]
        shapes(tokens) == first && lex_from(whole, i) == prepend(tokens, lex_from(whole, m));
    let b = choose|tokens: Seq<Tok>| #[trigger]
        shapes(tokens) == second && lex_from(whole, m) == prepend(tokens, lex_from(whole, e));
    let ab = a + b;
    assert(shapes(ab) =~= first + second);
    let rest = lex_from(whole, e);
    if rest is Ok {
        assert(a + (b + rest->Ok_0) =~= ab + rest->Ok_0);
    }
    assert(lex_from(whole, i) == prepend(ab, lex_from(whole, e)));
}

/// A token that stands at `i`, where no blank stands, is read.
pub proof fn lemma_reads_token(whole: Seq<char>, i: int, t: Tok, e: int)
    requires
        0 <= i < whole.len(),
        !is_blank(whole[i]),
        scan_token(whole, i) == Step::Token(t, e),
    ensures
        reads(whole, i, e, seq![shape(t)]),
{
    let tokens = seq![t];
    assert(shapes(tokens) =~= seq![shape(t)]);
    assert(skip_blanks(whole, i) == i);
    crate::lexer::lemma_scan_token_advances(whole, i);
    assert(lex_from(whole, i) == prepend(tokens, lex_from(whole, e)));
}

/// A character of punctuation is read as its token.
pub proof fn lemma_reads_punctuation(whole: Seq<char>, i: int, c: char)
    requires
        0 <= i < whole.len(),
        whole[i] == c,
        punctuation(c) is Some,
    ensures
        reads(whole, i, i + 1, seq![Shape { typ: punctuation(c)->Some_0, value: seq![c] }]),
{
    let t = Tok {
        value: seq![c],
        typ: punctuation(c)->Some_0,
        line: line_of(whole, i),
        pos: column_of(whole, i),
    };
    lemma_reads_token(whole, i, t, i + 1);
}

/// A keyword is read as its token.
pub proof fn lemma_reads_keyword(whole: Seq<char>, i: int, word: Seq<char>, typ: TokenType)
    requires
        at(whole, i, word),
        (word == word_true() && typ == TokenType::True) || (word == word_false() && typ
            == TokenType::False) || (word == word_null() && typ == TokenType::Null),
    ensures
        reads(whole, i, i + word.len(), seq![Shape { typ, value: word }]),
{
    assert(whole.subrange(i, i + word.len()) =~= word);
    assert(whole[i] == word[0]);
    let t = Tok { value: word, typ, line: line_of(whole, i), pos: column_of(whole, i) };
    assert(scan_keyword(whole, i, word, typ) == Step::Token(t, i + word.len()));
    lemma_reads_token(whole, i, t, i + word.len());
}

/// The text of a number as the lexer takes it: a digit or a sign, then
/// characters that a number goes on with.
pub open spec fn number_text(t: Seq<char>) -> bool {
    &&& t.len() > 0
    &&& is_digit(t[0]) || t[0] == '-' || t[0] == '+'
    &&& forall|k: int| 1 <= k < t.len() ==> number_continues(#[trigger] t[k])
}

/// A number token runs as far as its characters go.
proof fn lemma_number_runs(whole: Seq<char>, k: int, e: int)
    requires
        0 <= k <= e <= whole.len(),
        forall|m: int| k <= m < e ==> number_continues(#[trigger] whole[m]),
        follows(whole, e),
    ensures
        number_end(whole, k) == e,
    decreases e - k,
{
    if k < e {
        assert(number_continues(whole[k]));
        lemma_number_runs(whole, k + 1, e);
    }
}

/// The text of a number is read as a number token.
pub proof fn lemma_reads_number(whole: Seq<char>, i: int, t: Seq<char>)
    requires
        number_text(t),
        at(whole, i, t),
        follows(whole, i + t.len()),
    ensures
        reads(whole, i, i + t.len(), seq![Shape { typ: TokenType::Number, value: t }]),
{
    let e = i + t.len();
    assert(whole[i] == t[0]);
    assert forall|m: int| i + 1 <= m < e implies number_continues(#[trigger] whole[m]) by {
        assert(whole[i + (m - i)] == t[m - i]);
    }
    lemma_number_runs(whole, i + 1, e);
    assert(whole.subrange(i, e) =~= t);
    let c = whole[i];
    assert(is_digit(c) ==> crate::lexer::numeric(c));
    let tok = Tok {
        value: t,
        typ: TokenType::Number,
        line: line_of(whole, i),
        pos: column_of(whole, i),
    };
    assert(scan_token(whole, i) == Step::Token(tok, e));
    lemma_reads_token(whole, i, tok, e);
}

/// The digits of a number in decimal are digits.
pub proof fn lemma_decimal_is_digits(n: nat)
    ensures
        decimal(n).len() > 0,
        forall|k: int| 0 <= k < decimal(n).len() ==> is_digit(#[trigger] decimal(n)[k]),
    decreases n,
{
    if n >= 10 {
        lemma_decimal_is_digits(n / 10);
    }
}

/// An integer in decimal is the text of a number.
pub proof fn lemma_int_text_is_number_text(i: int)
    requires
    ensures
        number_text(int_text(i)),
        is_digit(int_text(i).last()),
        forall|k: int| 0 <= k < int_text(i).len() ==> is_digit(#[trigger] int_text(i)[k]) || (k == 0 && int_text(i)[k] == '-'),
{
    let t = int_text(i);
    if i < 0 {
        lemma_decimal_is_digits((-i) as nat);
        let d = decimal((-i) as nat);
        assert forall|k: int| 0 <= k < t.len() implies is_digit(#[trigger] t[k]) || (k == 0
            && t[k] == '-') by {
            if k > 0 {
                assert(t[k] == d[k - 1]);
            }
        }
    } else {
        lemma_decimal_is_digits(i as nat);
    }
    assert forall|k: int| 1 <= k < t.len() implies number_continues(#[trigger] t[k]) by {
        assert(is_digit(t[k]));
        assert(crate::lexer::alphanumeric(t[k]));
    }
}

/// Every character of `s` lies in the basic plane: its code fits in 16 bits.
pub open spec fn basic(s: Seq<char>) -> bool {
    forall|k: int| 0 <= k < s.len() ==> (#[trigger] s[k] as int) < 0x10000
}

/// The escaped form of a text starts with that of its first character.
pub proof fn lemma_escape_front(s: Seq<char>)
    requires
        s.len() > 0,
    ensures
        escape(s) == escape_char(s[0]) + escape(s.drop_first()),
    decreases s.len(),
{
    if s.len() == 1 {
        assert(s.drop_last() =~= Seq::<char>::empty());
        assert(s.drop_first() =~= Seq::<char>::empty());
        assert(escape(s.drop_last()) =~= Seq::<char>::empty());
        assert(escape(s) =~= escape_char(s[0]) + escape(s.drop_first()));
    } else {
        lemma_escape_front(s.drop_last());
        assert(s.drop_last().drop_first() =~= s.drop_first().drop_last());
        assert(s.drop_last()[0] == s[0]);
        assert(s.drop_first().last() == s.last());
        assert(escape(s) =~= escape_char(s[0]) + escape(s.drop_first()));
    }
}

/// A hexadecimal digit as the serializer writes it reads back as its value.
pub proof fn lemma_hex_digit_reads(d: int)
    requires
        0 <= d < 16,
    ensures
        hex_value(hex_char(d)) == Some(d),
{
}

/// Four hexadecimal digits as the serializer writes them are read as the
/// number they were written for.
pub proof fn lemma_reads_four_digits(whole: Seq<char>, i: int, n: int)
    requires
        0 <= i,
        i + 4 <= whole.len(),
        0 <= n < 0x10000,
        whole[i] == hex_char((n / 4096) % 16),
        whole[i + 1] == hex_char((n / 256) % 16),
        whole[i + 2] == hex_char((n / 16) % 16),
        whole[i + 3] == hex_char(n % 16),
    ensures
        hex_code(whole, i, 4) == Ok::<int, Failure>(n),
{
    let d3 = (n / 4096) % 16;
    let d2 = (n / 256) % 16;
    let d1 = (n / 16) % 16;
    let d0 = n % 16;
    lemma_hex_digit_reads(d3);
    lemma_hex_digit_reads(d2);
    lemma_hex_digit_reads(d1);
    lemma_hex_digit_reads(d0);
    assert(hex_code(whole, i, 0) == Ok::<int, Failure>(0));
    assert(hex_code(whole, i, 1) == Ok::<int, Failure>(d3));
    assert(hex_code(whole, i, 2) == Ok::<int, Failure>(d3 * 16 + d2));
    assert(hex_code(whole, i, 3) == Ok::<int, Failure>((d3 * 16 + d2) * 16 + d1));
    let q1 = n / 16;
    let q2 = q1 / 16;
    let q3 = q2 / 16;
    assert(n / 256 == q2 && n / 4096 == q3);
    assert(n == q1 * 16 + d0 && q1 == q2 * 16 + d1 && q2 == q3 * 16 + d2 && q3 == d3);
    assert(((d3 * 16 + d2) * 16 + d1) * 16 + d0 == n);
}

/// The way a character is written: by a backslash and a letter, by `\u` and
/// four digits, or as it is.
pub open spec fn escape_form(c: char) -> int {
    if c == '"' || c == '\'' || c == '\\' || c == '\n' || c == '\t' || c == '\x0B' || c == '\r'
        || c == '\0' || c == '\x08' || c == '\x0C' {
        2
    } else if c as int >= 128 {
        6
    } else {
        1
    }
}

/// What the written form of a character consists of.
pub proof fn lemma_escape_form(c: char)
    ensures
        escape_char(c).len() == escape_form(c),
        escape_form(c) == 1 ==> escape_char(c) == seq![c] && c != '"' && c != '\\',
        escape_form(c) == 2 ==> escape_char(c)[0] == '\\' && simple_escape(escape_char(c)[1])
            == Some(c) && escape_char(c)[1] != 'x' && escape_char(c)[1] != 'u',
        escape_form(c) == 6 ==> escape_char(c) == seq![
            '\\',
            'u',
            hex_char(((c as int) / 4096) % 16),
            hex_char(((c as int) / 256) % 16),
            hex_char(((c as int) / 16) % 16),
            hex_char((c as int) % 16),
        ],
{
}

/// A character in its escaped form is read as itself.
pub proof fn lemma_reads_escaped_char(whole: Seq<char>, i: int, c: char)
    requires
        at(whole, i, escape_char(c)),
        (c as int) < 0x10000,
    ensures
        scan_string(whole, i) == prepend_chars(
            seq![c],
            scan_string(whole, i + escape_char(c).len()),
        ),
{
    let e = escape_char(c);
    lemma_escape_form(c);
    assert(whole[i] == e[0]);
    if escape_form(c) == 2 {
        assert(whole[i + 1] == e[1]);
        assert(scan_escape(whole, i + 1) == Ok::<char, Failure>(c));
    } else if escape_form(c) == 6 {
        let n = c as int;
        assert(whole[i + 1] == e[1]);
        assert(whole[i + 2] == e[2] && whole[i + 3] == e[3] && whole[i + 4] == e[4] && whole[i
            + 5] == e[5]);
        lemma_reads_four_digits(whole, i + 2, n);
        assert(is_scalar(n));
        assert(n as char == c);
        assert(hex_escape(whole, i + 2, 4) == Ok::<(char, int), Failure>((c, i + 6)));
        assert(scan_escape(whole, i + 1) == Ok::<char, Failure>(c));
    }
}

/// A text in its escaped form, with the closing quote behind it, is read as
/// itself.
pub proof fn lemma_reads_escaped(whole: Seq<char>, i: int, s: Seq<char>)
    requires
        at(whole, i, escape(s) + seq!['"']),
        basic(s),
    ensures
        scan_string(whole, i) == Ok::<(Seq<char>, int), Failure>((s, i + escape(s).len() + 1)),
    decreases s.len(),
{
    if s.len() == 0 {
        assert((escape(s) + seq!['"'])[0] == '"');
        assert(whole[i] == '"');
        assert(s =~= Seq::<char>::empty());
    } else {
        let c = s[0];
        let rest = s.drop_first();
        lemma_escape_front(s);
        assert(escape(s) + seq!['"'] =~= escape_char(c) + (escape(rest) + seq!['"']));
        lemma_at_parts(whole, i, escape_char(c), escape(rest) + seq!['"']);
        assert(basic(rest)) by {
            assert forall|k: int| 0 <= k < rest.len() implies (#[trigger] rest[k] as int)
                < 0x10000 by {
                assert(rest[k] == s[k + 1]);
            }
        }
        lemma_reads_escaped(whole, i + escape_char(c).len(), rest);
        lemma_reads_escaped_char(whole, i, c);
        assert(seq![c] + rest =~= s);
    }
}

/// A string literal as the serializer writes it is read as a string token
/// with the text that was written.
pub proof fn lemma_reads_string(whole: Seq<char>, i: int, s: Seq<char>)
    requires
        at(whole, i, quoted(s)),
        basic(s),
    ensures
        reads(whole, i, i + quoted(s).len(), seq![Shape { typ: TokenType::String, value: s }]),
{
    assert(quoted(s) =~= seq!['"'] + (escape(s) + seq!['"']));
    lemma_at_parts(whole, i, seq!['"'], escape(s) + seq!['"']);
    assert(whole[i] == seq!['"'][0]);
    lemma_reads_escaped(whole, i + 1, s);
    let t = Tok {
        value: s,
        typ: TokenType::String,
        line: line_of(whole, i),
        pos: column_of(whole, i),
    };
    assert(scan_token(whole, i) == Step::Token(t, i + quoted(s).len()));
    lemma_reads_token(whole, i, t, i + quoted(s).len());
}

/// The shape of the token that the character of punctuation `c` makes.
pub open spec fn mark(c: char) -> Shape {
    Shape { typ: punctuation(c)->Some_0, value: seq![c] }
}

/// The shapes of the tokens of the compact text of `j`.
pub open spec fn tokens_of(j: Json, texts: Map<u64, Seq<char>>) -> Seq<Shape>
    decreases j, 0nat,
{
    match j {
        Json::Int(i) => seq![Shape { typ: TokenType::Number, value: int_text(i as int) }],
        Json::Float(bits) => seq![Shape { typ: TokenType::Number, value: texts[bits] }],
        Json::Bool(b) => seq![
            if b {
                Shape { typ: TokenType::True, value: word_true() }
            } else {
                Shape { typ: TokenType::False, value: word_false() }
            },
        ],
        Json::Null => seq![Shape { typ: TokenType::Null, value: word_null() }],
        Json::Str(s) => seq![Shape { typ: TokenType::String, value: s }],
        Json::Node(object, entries) => seq![mark(opener(object))] + tokens_of_entries(
            object,
            entries,
            texts,
        ) + seq![mark(closer(object))],
    }
}

/// The shapes of the tokens of an entry.
pub open spec fn tokens_of_entry(
    object: bool,
    entry: (Seq<char>, Json),
    texts: Map<u64, Seq<char>>,
) -> Seq<Shape>
    decreases entry.1, 1nat,
{
    if object {
        seq![Shape { typ: TokenType::String, value: entry.0 }, mark(':')] + tokens_of(
            entry.1,
            texts,
        )
    } else {
        tokens_of(entry.1, texts)
    }
}

/// The shapes of the tokens of `entries`, a comma before each.
pub open spec fn tokens_more(
    object: bool,
    entries: Seq<(Seq<char>, Json)>,
    texts: Map<u64, Seq<char>>,
) -> Seq<Shape>
    decreases entries, 1nat,
{
    if entries.len() == 0 {
        Seq::empty()
    } else {
        seq![mark(',')] + tokens_of_entry(object, entries[0], texts) + tokens_more(
            object,
            entries.drop_first(),
            texts,
        )
    }
}

/// The shapes of the tokens of `entries`, commas between them.
pub open spec fn tokens_of_entries(
    object: bool,
    entries: Seq<(Seq<char>, Json)>,
    texts: Map<u64, Seq<char>>,
) -> Seq<Shape>
    decreases entries, 2nat,
{
    if entries.len() == 0 {
        Seq::empty()
    } else {
        tokens_of_entry(object, entries[0], texts) + tokens_more(
            object,
            entries.drop_first(),
            texts,
        )
    }
}

/// A text that the interpreter of numbers takes for a floating-point
/// literal, wherever it stands.
pub open spec fn float_literal_text(t: Seq<char>) -> bool {
    forall|line: int, pos: int|
        #[trigger] crate::number::number(t, line, pos) matches Ok(
            crate::number::NumberView::Float(_),
        )
}

/// The entries of a container have the keys that they can have: no key
/// twice in an object, no key but the empty one in an array.
pub open spec fn keyed(object: bool, entries: Seq<(Seq<char>, Json)>) -> bool {
    if object {
        forall|a: int, b: int|
            0 <= a < entries.len() && 0 <= b < entries.len() && a != b ==> entries[a].0
                != entries[b].0
    } else {
        forall|a: int| 0 <= a < entries.len() ==> (#[trigger] entries[a]).0 == Seq::<char>::empty()
    }
}

/// The compact text of `j` can be read back as `j`: its strings and keys lie
/// in the basic plane, no object has a key twice, and each of its
/// floating-point numbers has a text that is read as a floating-point
/// literal.
pub open spec fn readable(j: Json, texts: Map<u64, Seq<char>>) -> bool
    decreases j, 0nat,
{
    match j {
        Json::Float(bits) => texts.contains_key(bits) && number_text(texts[bits])
            && float_literal_text(texts[bits]),
        Json::Str(s) => basic(s),
        Json::Node(object, entries) => keyed(object, entries) && readable_entries(
            object,
            entries,
            texts,
        ),
        _ => true,
    }
}

/// The strings and the floating-point numbers of `j` can be read back: the
/// strings and keys lie in the basic plane, and each floating-point number
/// has a text that is read as a floating-point literal.
pub open spec fn legible(j: Json, texts: Map<u64, Seq<char>>) -> bool
    decreases j, 0nat,
{
    match j {
        Json::Float(bits) => texts.contains_key(bits) && number_text(texts[bits])
            && float_literal_text(texts[bits]),
        Json::Str(s) => basic(s),
        Json::Node(object, entries) => legible_entries(object, entries, texts),
        _ => true,
    }
}

/// As `legible`, of each of `entries`.
pub open spec fn legible_entries(
    object: bool,
    entries: Seq<(Seq<char>, Json)>,
    texts: Map<u64, Seq<char>>,
) -> bool
    decreases entries, 1nat,
{
    entries.len() > 0 ==> (object ==> basic(entries[0].0)) && legible(entries[0].1, texts)
        && legible_entries(object, entries.drop_first(), texts)
}

/// As `readable`, of each of `entries`.
pub open spec fn readable_entries(
    object: bool,
    entries: Seq<(Seq<char>, Json)>,
    texts: Map<u64, Seq<char>>,
) -> bool
    decreases entries, 1nat,
{
    entries.len() > 0 ==> (object ==> basic(entries[0].0)) && readable(entries[0].1, texts)
        && readable_entries(object, entries.drop_first(), texts)
}

/// The compact text of a tree is read as the tokens of the tree.
pub proof fn lemma_reads_tree(j: Json, texts: Map<u64, Seq<char>>, whole: Seq<char>, i: int)
    requires
        readable(j, texts),
        at(whole, i, compact(j, texts)),
        follows(whole, i + compact(j, texts).len()),
    ensures
        reads(whole, i, i + compact(j, texts).len(), tokens_of(j, texts)),
    decreases j, 0nat,
{
    match j {
        Json::Int(n) => {
            lemma_int_text_is_number_text(n as int);
            lemma_reads_number(whole, i, int_text(n as int));
        },
        Json::Float(bits) => {
            lemma_reads_number(whole, i, texts[bits]);
        },
        Json::Bool(b) => {
            if b {
                lemma_reads_keyword(whole, i, word_true(), TokenType::True);
            } else {
                lemma_reads_keyword(whole, i, word_false(), TokenType::False);
            }
        },
        Json::Null => {
            lemma_reads_keyword(whole, i, word_null(), TokenType::Null);
        },
        Json::Str(s) => {
            lemma_reads_string(whole, i, s);
        },
        Json::Node(object, entries) => {
            let body = compact_entries(object, entries, texts);
            let open = seq![opener(object)];
            let close = seq![closer(object)];
            assert(compact(j, texts) =~= open + (body + close));
            lemma_at_parts(whole, i, open, body + close);
            lemma_at_parts(whole, i + 1, body, close);
            let m = i + 1 + body.len();
            assert(whole[i] == open[0]);
            assert(whole[m] == close[0]);
            lemma_reads_punctuation(whole, i, opener(object));
            assert(!crate::lexer::alphanumeric(closer(object)));
            lemma_reads_entries(object, entries, texts, whole, i + 1);
            lemma_reads_punctuation(whole, m, closer(object));
            lemma_reads_both(
                whole,
                i,
                i + 1,
                m,
                seq![mark(opener(object))],
                tokens_of_entries(object, entries, texts),
            );
            lemma_reads_both(
                whole,
                i,
                m,
                m + 1,
                seq![mark(opener(object))] + tokens_of_entries(object, entries, texts),
                seq![mark(closer(object))],
            );
        },
    }
}

/// A key, a colon and a value that is read are read as the tokens of an
/// entry of an object.
pub proof fn lemma_reads_keyed(
    key: Seq<char>,
    value: Seq<char>,
    found: Seq<Shape>,
    whole: Seq<char>,
    i: int,
)
    requires
        basic(key),
        at(whole, i, quoted(key) + seq![':'] + value),
        reads(
            whole,
            i + quoted(key).len() + 1,
            i + quoted(key).len() + 1 + value.len(),
            found,
        ),
    ensures
        reads(
            whole,
            i,
            i + quoted(key).len() + 1 + value.len(),
            seq![Shape { typ: TokenType::String, value: key }, mark(':')] + found,
        ),
{
    let name = quoted(key);
    assert(name + seq![':'] + value =~= name + (seq![':'] + value));
    lemma_at_parts(whole, i, name, seq![':'] + value);
    lemma_at_parts(whole, i + name.len(), seq![':'], value);
    let c = i + name.len();
    assert(whole[c] == seq![':'][0]);
    lemma_reads_string(whole, i, key);
    lemma_reads_punctuation(whole, c, ':');
    let first = seq![Shape { typ: TokenType::String, value: key }];
    lemma_reads_both(whole, i, c, c + 1, first, seq![mark(':')]);
    lemma_reads_both(whole, i, c + 1, c + 1 + value.len(), first + seq![mark(':')], found);
    assert(first + seq![mark(':')] =~= seq![
        Shape { typ: TokenType::String, value: key },
        mark(':'),
    ]);
}

/// The compact text of an entry is read as the tokens of the entry.
pub proof fn lemma_reads_entry(
    object: bool,
    entry: (Seq<char>, Json),
    texts: Map<u64, Seq<char>>,
    whole: Seq<char>,
    i: int,
)
    requires
        object ==> basic(entry.0),
        readable(entry.1, texts),
        at(whole, i, compact_entry(object, entry, texts)),
        follows(whole, i + compact_entry(object, entry, texts).len()),
    ensures
        reads(
            whole,
            i,
            i + compact_entry(object, entry, texts).len(),
            tokens_of_entry(object, entry, texts),
        ),
    decreases entry.1, 1nat,
{
    if object {
        let key = quoted(entry.0);
        let value = compact(entry.1, texts);
        assert(compact_entry(object, entry, texts) =~= key + (seq![':'] + value));
        lemma_at_parts(whole, i, key, seq![':'] + value);
        lemma_at_parts(whole, i + key.len(), seq![':'], value);
        lemma_reads_tree(entry.1, texts, whole, i + key.len() + 1);
        lemma_reads_keyed(entry.0, value, tokens_of(entry.1, texts), whole, i);
    } else {
        lemma_reads_tree(entry.1, texts, whole, i);
    }
}

/// The compact text of entries, a comma before each, is read as their
/// tokens.
pub proof fn lemma_reads_more(
    object: bool,
    entries: Seq<(Seq<char>, Json)>,
    texts: Map<u64, Seq<char>>,
    whole: Seq<char>,
    i: int,
)
    requires
        readable_entries(object, entries, texts),
        at(whole, i, compact_more(object, entries, texts)),
        follows(whole, i + compact_more(object, entries, texts).len()),
    ensures
        reads(
            whole,
            i,
            i + compact_more(object, entries, texts).len(),
            tokens_more(object, entries, texts),
        ),
    decreases entries, 1nat,
{
    if entries.len() == 0 {
        lemma_reads_nothing(whole, i);
    } else {
        let entry = compact_entry(object, entries[0], texts);
        let rest = compact_more(object, entries.drop_first(), texts);
        assert(compact_more(object, entries, texts) =~= seq![','] + (entry + rest));
        lemma_at_parts(whole, i, seq![','], entry + rest);
        lemma_at_parts(whole, i + 1, entry, rest);
        assert(whole[i] == seq![','][0]);
        let m = i + 1 + entry.len();
        lemma_follows_comma(object, entries.drop_first(), texts, whole, m);
        lemma_reads_punctuation(whole, i, ',');
        lemma_reads_entry(object, entries[0], texts, whole, i + 1);
        lemma_reads_more(object, entries.drop_first(), texts, whole, m);
        lemma_reads_both(
            whole,
            i,
            i + 1,
            m,
            seq![mark(',')],
            tokens_of_entry(object, entries[0], texts),
        );
        lemma_reads_both(
            whole,
            i,
            m,
            m + rest.len(),
            seq![mark(',')] + tokens_of_entry(object, entries[0], texts),
            tokens_more(object, entries.drop_first(), texts),
        );
    }
}

/// Where more entries stand, a number before them has ended: they start
/// with a comma.
pub proof fn lemma_follows_comma(
    object: bool,
    entries: Seq<(Seq<char>, Json)>,
    texts: Map<u64, Seq<char>>,
    whole: Seq<char>,
    m: int,
)
    requires
        at(whole, m, compact_more(object, entries, texts)),
        follows(whole, m + compact_more(object, entries, texts).len()),
    ensures
        follows(whole, m),
{
    if entries.len() > 0 {
        let more = compact_more(object, entries, texts);
        assert(more[0] == ',');
        assert(whole[m + 0] == more[0]);
        assert(!crate::lexer::alphanumeric(','));
    }
}

/// The compact text of entries, commas between them, is read as their
/// tokens.
pub proof fn lemma_reads_entries(
    object: bool,
    entries: Seq<(Seq<char>, Json)>,
    texts: Map<u64, Seq<char>>,
    whole: Seq<char>,
    i: int,
)
    requires
        readable_entries(object, entries, texts),
        at(whole, i, compact_entries(object, entries, texts)),
        follows(whole, i + compact_entries(object, entries, texts).len()),
    ensures
        reads(
            whole,
            i,
            i + compact_entries(object, entries, texts).len(),
            tokens_of_entries(object, entries, texts),
        ),
    decreases entries, 2nat,
{
    if entries.len() == 0 {
        lemma_reads_nothing(whole, i);
    } else {
        let entry = compact_entry(object, entries[0], texts);
        let rest = compact_more(object, entries.drop_first(), texts);
        lemma_at_parts(whole, i, entry, rest);
        let m = i + entry.len();
        lemma_follows_comma(object, entries.drop_first(), texts, whole, m);
        lemma_reads_entry(object, entries[0], texts, whole, i);
        lemma_reads_more(object, entries.drop_first(), texts, whole, m);
        lemma_reads_both(
            whole,
            i,
            m,
            m + rest.len(),
            tokens_of_entry(object, entries[0], texts),
            tokens_more(object, entries.drop_first(), texts),
        );
    }
}

/// A text has no more tokens than characters.
pub proof fn lemma_tokens_fit(text: Seq<char>, i: int)
    requires
        0 <= i <= text.len(),
    ensures
        lex_from(text, i) is Ok ==> lex_from(text, i)->Ok_0.len() <= text.len() - i,
    decreases text.len() - i,
{
    let j = skip_blanks(text, i);
    crate::lexer::lemma_skip_blanks(text, i);
    if j < text.len() {
        crate::lexer::lemma_scan_token_advances(text, j);
        match scan_token(text, j) {
            Step::Token(t, end) => {
                lemma_tokens_fit(text, end);
            },
            Step::Skip(end) => {
                lemma_tokens_fit(text, end);
            },
            Step::Fail(_) => {},
        }
    }
}

/// What is read to the end of a text are the tokens of the text.
pub proof fn lemma_reads_to_the_end(whole: Seq<char>, found: Seq<Shape>) -> (tokens: Seq<Tok>)
    requires
        reads(whole, 0, whole.len() as int, found),
    ensures
        shapes(tokens) == found,
        tokens.len() == found.len(),
        crate::lexer::lex(whole) == Ok::<Seq<Tok>, Failure>(tokens),
        tokens.len() <= whole.len(),
{
    let tokens = choose|tokens: Seq<Tok>| #[trigger]
        shapes(tokens) == found && lex_from(whole, 0) == prepend(
            tokens,
            lex_from(whole, whole.len() as int),
        );
    assert(skip_blanks(whole, whole.len() as int) == whole.len());
    assert(lex_from(whole, whole.len() as int) == Ok::<Seq<Tok>, Failure>(Seq::empty()));
    assert(tokens + Seq::<Tok>::empty() =~= tokens);
    lemma_tokens_fit(whole, 0);
    tokens
}

/// What holds of entries that are legible holds of each.
pub proof fn lemma_legible_each(
    object: bool,
    entries: Seq<(Seq<char>, Json)>,
    texts: Map<u64, Seq<char>>,
    k: int,
)
    requires
        legible_entries(object, entries, texts),
        0 <= k < entries.len(),
    ensures
        object ==> basic(entries[k].0),
        legible(entries[k].1, texts),
    decreases k,
{
    if k > 0 {
        assert(entries.drop_first()[k - 1] == entries[k]);
        lemma_legible_each(object, entries.drop_first(), texts, k - 1);
    }
}

/// Entries of which each is readable are readable.
pub proof fn lemma_readable_all(
    object: bool,
    entries: Seq<(Seq<char>, Json)>,
    texts: Map<u64, Seq<char>>,
)
    requires
        forall|k: int|
            0 <= k < entries.len() ==> (object ==> basic((#[trigger] entries[k]).0)) && readable(
                entries[k].1,
                texts,
            ),
    ensures
        readable_entries(object, entries, texts),
    decreases entries.len(),
{
    if entries.len() > 0 {
        let rest = entries.drop_first();
        assert forall|k: int| 0 <= k < rest.len() implies (object ==> basic(
            (#[trigger] rest[k]).0,
        )) && readable(rest[k].1, texts) by {
            assert(rest[k] == entries[k + 1]);
        }
        lemma_readable_all(object, rest, texts);
        assert(entries[0] == entries[0]);
    }
}

/// The trees of pairs have the keys of the pairs, and each is the tree of
/// the value of its pair.
pub proof fn lemma_trees_each(
    doc: crate::model::Doc,
    pairs: Seq<(Seq<char>, crate::value::Value)>,
    fuel: nat,
    k: int,
)
    requires
        crate::tree::trees(doc, pairs, fuel) is Some,
        0 <= k < pairs.len(),
    ensures
        crate::tree::trees(doc, pairs, fuel)->Some_0.len() == pairs.len(),
        crate::tree::trees(doc, pairs, fuel)->Some_0[k].0 == pairs[k].0,
        crate::tree::tree(doc, pairs[k].1, fuel) == Some(
            crate::tree::trees(doc, pairs, fuel)->Some_0[k].1,
        ),
    decreases pairs.len(),
{
    crate::tree::lemma_trees_len(doc, pairs, fuel);
    crate::tree::lemma_trees_len(doc, pairs.drop_last(), fuel);
    if k < pairs.len() - 1 {
        lemma_trees_each(doc, pairs.drop_last(), fuel, k);
    }
}

/// In a well-formed document, a tree that is legible is readable: no object
/// has a key twice, and arrays have no keys.
pub proof fn lemma_legible_is_readable(
    doc: crate::model::Doc,
    v: crate::value::Value,
    fuel: nat,
    texts: Map<u64, Seq<char>>,
)
    requires
        doc.wf(),
        crate::tree::tree(doc, v, fuel) is Some,
        legible(crate::tree::tree(doc, v, fuel)->Some_0, texts),
    ensures
        readable(crate::tree::tree(doc, v, fuel)->Some_0, texts),
    decreases fuel,
{
    let j = crate::tree::tree(doc, v, fuel)->Some_0;
    match j {
        Json::Node(object, entries) => {
            let pairs = if object {
                doc.objects[v->Object_0]
            } else {
                crate::tree::keyless(doc.arrays[v->Array_0])
            };
            let less = (fuel - 1) as nat;
            assert(crate::tree::trees(doc, pairs, less) == Some(entries));
            crate::tree::lemma_trees_len(doc, pairs, less);
            assert forall|k: int| 0 <= k < entries.len() implies (object ==> basic(
                (#[trigger] entries[k]).0,
            )) && readable(entries[k].1, texts) by {
                lemma_trees_each(doc, pairs, less, k);
                lemma_legible_each(object, entries, texts, k);
                lemma_legible_is_readable(doc, pairs[k].1, less, texts);
            }
            lemma_readable_all(object, entries, texts);
            if object {
                assert(crate::ordered::distinct_keys(pairs));
                assert forall|a: int, b: int|
                    0 <= a < entries.len() && 0 <= b < entries.len() && a != b implies entries[a].0
                    != entries[b].0 by {
                    lemma_trees_each(doc, pairs, less, a);
                    lemma_trees_each(doc, pairs, less, b);
                }
            } else {
                assert forall|a: int| 0 <= a < entries.len() implies (#[trigger] entries[a]).0
                    == Seq::<char>::empty() by {
                    lemma_trees_each(doc, pairs, less, a);
                }
            }
        },
        _ => {},
    }
}

/// The character that `c` is read back as once it has been written: itself
/// in the basic plane, and beyond it the character whose code is the low
/// 16 bits of the code of `c`.
pub open spec fn fold_char(c: char) -> char {
    if (c as int) < 0x10000 {
        c
    } else {
        ((c as int) % 0x10000) as char
    }
}

/// Writing `c` and reading it back gives a character that is written as `c`
/// is: `c` lies in the basic plane, or the low 16 bits of its code are the
/// code of a character beyond ASCII.
pub open spec fn settled_char(c: char) -> bool {
    (c as int) < 0x10000 || ((c as int) % 0x10000 >= 128 && is_scalar((c as int) % 0x10000))
}

/// The text that `s` is read back as once it has been written.
pub open spec fn fold(s: Seq<char>) -> Seq<char> {
    s.map_values(|c: char| fold_char(c))
}

/// Every character of `s` is settled.
pub open spec fn settled(s: Seq<char>) -> bool {
    forall|k: int| 0 <= k < s.len() ==> settled_char(#[trigger] s[k])
}

/// The tree that `j` is read back as once it has been written: that of `j`
/// with each string and key folded.
pub open spec fn fold_tree(j: Json) -> Json
    decreases j, 0nat,
{
    match j {
        Json::Str(s) => Json::Str(fold(s)),
        Json::Node(object, entries) => Json::Node(object, fold_entries(entries)),
        _ => j,
    }
}

/// As `fold_tree`, of each of `entries`.
pub open spec fn fold_entries(entries: Seq<(Seq<char>, Json)>) -> Seq<(Seq<char>, Json)>
    decreases entries, 1nat,
{
    if entries.len() == 0 {
        Seq::empty()
    } else {
        seq![(fold(entries[0].0), fold_tree(entries[0].1))] + fold_entries(entries.drop_first())
    }
}

/// Every string and key of `j` is settled.
pub open spec fn settled_tree(j: Json) -> bool
    decreases j, 0nat,
{
    match j {
        Json::Str(s) => settled(s),
        Json::Node(_, entries) => settled_entries(entries),
        _ => true,
    }
}

/// As `settled_tree`, of each of `entries`.
pub open spec fn settled_entries(entries: Seq<(Seq<char>, Json)>) -> bool
    decreases entries, 1nat,
{
    entries.len() > 0 ==> settled(entries[0].0) && settled_tree(entries[0].1) && settled_entries(
        entries.drop_first(),
    )
}

/// The low 16 bits of a number have its four low hexadecimal digits.
pub proof fn lemma_low_digits(n: u32)
    by (bit_vector)
    ensures
        ((n % 0x10000) / 4096) % 16 == (n / 4096) % 16,
        ((n % 0x10000) / 256) % 16 == (n / 256) % 16,
        ((n % 0x10000) / 16) % 16 == (n / 16) % 16,
        (n % 0x10000) % 16 == n % 16,
{
}

/// A settled character and the character it is read back as are written
/// alike.
pub proof fn lemma_fold_char_is_written_alike(c: char)
    requires
        settled_char(c),
    ensures
        escape_char(fold_char(c)) == escape_char(c),
        (fold_char(c) as int) < 0x10000,
{
    if (c as int) >= 0x10000 {
        let d = fold_char(c);
        assert(d as int == (c as int) % 0x10000);
        lemma_escape_form(c);
        lemma_escape_form(d);
        let n = c as u32;
        lemma_low_digits(n);
        assert(n as int == c as int);
        assert((n % 0x10000) as int == (c as int) % 0x10000);
        assert(escape_form(c) == 6);
        assert(escape_form(d) == 6);
    }
}

/// A settled text and the text it is read back as are written alike.
pub proof fn lemma_fold_is_written_alike(s: Seq<char>)
    requires
        settled(s),
    ensures
        escape(fold(s)) == escape(s),
        quoted(fold(s)) == quoted(s),
        basic(fold(s)),
    decreases s.len(),
{
    assert forall|k: int| 0 <= k < fold(s).len() implies (#[trigger] fold(s)[k] as int)
        < 0x10000 by {
        lemma_fold_char_is_written_alike(s[k]);
    }
    if s.len() > 0 {
        assert(settled(s.drop_last())) by {
            assert forall|k: int| 0 <= k < s.drop_last().len() implies settled_char(
                #[trigger] s.drop_last()[k],
            ) by {
                assert(s.drop_last()[k] == s[k]);
            }
        }
        lemma_fold_is_written_alike(s.drop_last());
        lemma_fold_char_is_written_alike(s.last());
        assert(fold(s).drop_last() =~= fold(s.drop_last()));
        assert(fold(s).last() == fold_char(s.last()));
    } else {
        assert(fold(s) =~= s);
    }
}

/// A settled tree and the tree it is read back as have the same compact
/// text and the same floating-point numbers.
pub proof fn lemma_fold_tree_is_written_alike(j: Json, texts: Map<u64, Seq<char>>)
    requires
        settled_tree(j),
    ensures
        compact(fold_tree(j), texts) == compact(j, texts),
        crate::tree::floats(fold_tree(j)) == crate::tree::floats(j),
        crate::tree::height(fold_tree(j)) == crate::tree::height(j),
    decreases j, 0nat,
{
    match j {
        Json::Str(s) => {
            lemma_fold_is_written_alike(s);
        },
        Json::Node(object, entries) => {
            lemma_fold_entries_are_written_alike(object, entries, texts);
        },
        _ => {},
    }
}

/// As `lemma_fold_tree_is_written_alike`, of entries.
pub proof fn lemma_fold_entries_are_written_alike(
    object: bool,
    entries: Seq<(Seq<char>, Json)>,
    texts: Map<u64, Seq<char>>,
)
    requires
        settled_entries(entries),
    ensures
        fold_entries(entries).len() == entries.len(),
        compact_entries(object, fold_entries(entries), texts) == compact_entries(
            object,
            entries,
            texts,
        ),
        compact_more(object, fold_entries(entries), texts) == compact_more(object, entries, texts),
        crate::tree::floats_among(fold_entries(entries)) == crate::tree::floats_among(entries),
        crate::tree::heights(fold_entries(entries)) == crate::tree::heights(entries),
    decreases entries, 1nat,
{
    if entries.len() > 0 {
        let first = entries[0];
        let rest = entries.drop_first();
        let folded = fold_entries(entries);
        lemma_fold_is_written_alike(first.0);
        lemma_fold_tree_is_written_alike(first.1, texts);
        lemma_fold_entries_are_written_alike(object, rest, texts);
        assert(folded[0] == (fold(first.0), fold_tree(first.1)));
        assert(folded.drop_first() =~= fold_entries(rest));
        assert(compact_entry(object, folded[0], texts) == compact_entry(object, first, texts));
    }
}

/// A tree that is readable has a text for each of its floating-point
/// numbers.
pub proof fn lemma_readable_is_covered(j: Json, texts: Map<u64, Seq<char>>)
    requires
        readable(j, texts),
    ensures
        crate::serializer::covers(texts, crate::tree::floats(j)),
    decreases j, 0nat,
{
    match j {
        Json::Float(bits) => {
            assert(crate::tree::floats(j)[0] == bits);
        },
        Json::Node(object, entries) => {
            lemma_readable_entries_are_covered(object, entries, texts);
        },
        _ => {},
    }
}

/// As `lemma_readable_is_covered`, of entries.
pub proof fn lemma_readable_entries_are_covered(
    object: bool,
    entries: Seq<(Seq<char>, Json)>,
    texts: Map<u64, Seq<char>>,
)
    requires
        readable_entries(object, entries, texts),
    ensures
        crate::serializer::covers(texts, crate::tree::floats_among(entries)),
    decreases entries, 1nat,
{
    if entries.len() > 0 {
        lemma_readable_is_covered(entries[0].1, texts);
        lemma_readable_entries_are_covered(object, entries.drop_first(), texts);
        crate::serializer::lemma_covers_both(
            texts,
            Some(crate::tree::floats(entries[0].1)),
            Some(crate::tree::floats_among(entries.drop_first())),
        );
    }
}

} // verus!
