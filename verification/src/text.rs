//! Building text: decimal integers and quoted, escaped string literals.
use vstd::prelude::*;

verus! {

/// `String::push` appends one character.
pub assume_specification[ std::string::String::push ](s: &mut std::string::String, ch: char)
    ensures
        final(s)@ == old(s)@.push(ch),
;

/// The decimal digit for `d`, which is below 10.
pub open spec fn digit_char(d: int) -> char {
    ('0' as int + d) as char
}

/// The digit in upper-case hexadecimal for `d`, which is below 16.
pub open spec fn hex_char(d: int) -> char {
    if d < 10 {
        ('0' as int + d) as char
    } else {
        ('A' as int + d - 10) as char
    }
}

/// `n` in decimal, without leading zeros.
pub open spec fn decimal(n: nat) -> Seq<char>
    decreases n,
{
    if n < 10 {
        seq![digit_char(n as int)]
    } else {
        decimal(n / 10).push(digit_char((n % 10) as int))
    }
}

/// `i` in decimal, with a minus sign where it is negative.
pub open spec fn int_text(i: int) -> Seq<char> {
    if i < 0 {
        seq!['-'] + decimal((-i) as nat)
    } else {
        decimal(i as nat)
    }
}

/// How one character of a string stands in a literal: the quotes, the
/// backslash and seven control characters by a backslash and a letter, every
/// character from 128 up by `\u` and the four upper-case hexadecimal digits of
/// the low 16 bits of its code, any other character as it is.
pub open spec fn escape_char(c: char) -> Seq<char> {
    if c == '"' {
        seq!['\\', '"']
    } else if c == '\'' {
        seq!['\\', '\'']
    } else if c == '\\' {
        seq!['\\', '\\']
    } else if c == '\n' {
        seq!['\\', 'n']
    } else if c == '\t' {
        seq!['\\', 't']
    } else if c == '\x0B' {
        seq!['\\', 'v']
    } else if c == '\r' {
        seq!['\\', 'r']
    } else if c == '\0' {
        seq!['\\', '0']
    } else if c == '\x08' {
        seq!['\\', 'b']
    } else if c == '\x0C' {
        seq!['\\', 'f']
    } else if c as int >= 128 {
        seq![
            '\\',
            'u',
            hex_char(((c as int) / 4096) % 16),
            hex_char(((c as int) / 256) % 16),
            hex_char(((c as int) / 16) % 16),
            hex_char((c as int) % 16),
        ]
    } else {
        seq![c]
    }
}

/// The characters of `s`, each as it stands in a literal.
pub open spec fn escape(s: Seq<char>) -> Seq<char>
    decreases s.len(),
{
    if s.len() == 0 {
        Seq::empty()
    } else {
        escape(s.drop_last()) + escape_char(s.last())
    }
}

/// `s` as a string literal: escaped, between double quotes.
pub open spec fn quoted(s: Seq<char>) -> Seq<char> {
    seq!['"'] + escape(s) + seq!['"']
}

/// The characters of `s`.
pub fn chars_of(s: &str) -> (v: Vec<char>)
    ensures
        v@ == s@,
{
    let mut v: Vec<char> = Vec::new();
    for c in it: s.chars()
        invariant
            it.seq() == s@,
            v@ == s@.take(it.index() as int),
    {
        v.push(c);
        assert(v@ =~= s@.take(it.index() + 1));
    }
    assert(s@.take(s@.len() as int) =~= s@);
    v
}

/// Appends the decimal digits of `n`.
pub fn push_decimal(out: &mut String, n: u64)
    ensures
        final(out)@ == old(out)@ + decimal(n as nat),
    decreases n,
{
    if n >= 10 {
        push_decimal(out, n / 10);
    }
    let d = (n % 10) as u8;
    out.push((48u8 + d) as char);
    proof {
        if n >= 10 {
            assert(out@ =~= old(out)@ + decimal(n as nat));
        } else {
            assert(out@ =~= old(out)@ + decimal(n as nat));
        }
    }
}

/// Appends `i` in decimal.
pub fn push_int(out: &mut String, i: i64)
    ensures
        final(out)@ == old(out)@ + int_text(i as int),
{
    if i < 0 {
        out.push('-');
        let magnitude: u64 = ((-(i + 1)) as u64) + 1;
        push_decimal(out, magnitude);
        assert(out@ =~= old(out)@ + int_text(i as int));
    } else {
        push_decimal(out, i as u64);
    }
}

/// Appends the upper-case hexadecimal digit for `d`.
fn push_hex_digit(out: &mut String, d: u32)
    requires
        d < 16,
    ensures
        final(out)@ == old(out)@.push(hex_char(d as int)),
{
    let d8 = d as u8;
    if d8 < 10 {
        out.push((48u8 + d8) as char);
    } else {
        out.push((65u8 + (d8 - 10)) as char);
    }
}

/// Appends one character as it stands in a literal.
fn push_escaped(out: &mut String, c: char)
    ensures
        final(out)@ == old(out)@ + escape_char(c),
{
    let second = match c {
        '"' => Some('"'),
        '\'' => Some('\''),
        '\\' => Some('\\'),
        '\n' => Some('n'),
        '\t' => Some('t'),
        '\x0B' => Some('v'),
        '\r' => Some('r'),
        '\0' => Some('0'),
        '\x08' => Some('b'),
        '\x0C' => Some('f'),
        _ => None,
    };
    match second {
        Some(letter) => {
            out.push('\\');
            out.push(letter);
            assert(out@ =~= old(out)@ + escape_char(c));
        },
        None => {
            let code = c as u32;
            if code >= 128 {
                out.push('\\');
                out.push('u');
                push_hex_digit(out, (code / 4096) % 16);
                push_hex_digit(out, (code / 256) % 16);
                push_hex_digit(out, (code / 16) % 16);
                push_hex_digit(out, code % 16);
                assert(out@ =~= old(out)@ + escape_char(c));
            } else {
                out.push(c);
                assert(out@ =~= old(out)@ + escape_char(c));
            }
        },
    }
}

/// Appends `text` as a string literal.
pub fn push_string(out: &mut String, text: &String)
    ensures
        final(out)@ == old(out)@ + quoted(text@),
{
    out.push('"');
    let chars = chars_of(text.as_str());
    let n = chars.len();
    let mut i: usize = 0;
    assert(escape(text@.take(0)) =~= Seq::<char>::empty());
    while i < n
        invariant
            i <= n,
            n == chars@.len(),
            chars@ == text@,
            out@ == old(out)@.push('"') + escape(text@.take(i as int)),
        decreases n - i,
    {
        push_escaped(out, chars[i]);
        proof {
            let next = text@.take(i + 1);
            assert(next.drop_last() =~= text@.take(i as int));
            assert(next.last() == text@[i as int]);
        }
        i += 1;
    }
    assert(text@.take(n as int) =~= text@);
    out.push('"');
    assert(out@ =~= old(out)@ + quoted(text@));
}

} // verus!
