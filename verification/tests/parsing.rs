use fksjson::lexer::{eat_whitespace, lexer, Position, TokenType};
use fksjson::number::{parse_num, Number};
use fksjson::parser::{float_literals, parse, ParserError};
use fksjson::text::chars_of;
use fksjson::{JsonContext, JsonType};

fn read(text: &str) -> Result<(JsonContext, u64), ParserError> {
    let text = text.to_string();
    let bits: Vec<u64> = float_literals(&text).iter().map(|_| 0u64).collect();
    parse(&text, &bits)
}

fn failure(text: &str) -> ParserError {
    match read(text) {
        Ok(_) => panic!("parsed: {}", text),
        Err(e) => e,
    }
}

fn int_of(text: &str) -> i64 {
    match parse_num(&text.to_string(), 1, 1) {
        Ok(Number::Int(i)) => i,
        other => panic!("no integer: {:?}", other),
    }
}

fn tokens(text: &str) -> Vec<(TokenType, String, usize, usize)> {
    lexer(&chars_of(text))
        .unwrap()
        .into_iter()
        .map(|t| (t.typ, t.value, t.line, t.pos))
        .collect()
}

#[test]
fn integer_literals_in_four_radices() {
    assert_eq!(int_of("0b101"), 5);
    assert_eq!(int_of("0o17"), 15);
    assert_eq!(int_of("017"), 15);
    assert_eq!(int_of("42"), 42);
    assert_eq!(int_of("0x1F"), 31);
    assert_eq!(int_of("0x1A"), 26);
    assert_eq!(int_of("0X1c"), 28);
    assert_eq!(int_of("0B11"), 3);
    assert_eq!(int_of("0O7"), 7);
    assert_eq!(int_of("-42"), -42);
    assert_eq!(int_of("+42"), 42);
    assert_eq!(int_of("-0x10"), -16);
    assert_eq!(int_of("0"), 0);
    assert_eq!(int_of("-0"), 0);
    assert_eq!(int_of("0x"), 0);
    assert_eq!(int_of(""), 0);
    let (cxt, root) = read("[0x1F, 0b101, 0o17, 017, 42]").unwrap();
    let values: Vec<i64> = (0..5)
        .map(|i| cxt.get_int(cxt.array_at(root, i).unwrap()).unwrap())
        .collect();
    assert_eq!(values, vec![31, 5, 15, 15, 42]);
}

#[test]
fn the_last_letter_of_a_hexadecimal_literal_is_a_digit() {
    assert_eq!(int_of("0x1F"), 31);
    assert_eq!(int_of("0x1D"), 29);
    assert_eq!(int_of("0X1f"), 31);
    assert_eq!(int_of("0xd"), 13);
    assert_eq!(int_of("-0xFF"), -255);
    assert_eq!(int_of("+0xDD"), 221);
    assert_eq!(int_of("0xF0"), 240);
    let (cxt, root) = read("[0x1F]").unwrap();
    assert_eq!(cxt.get_int(cxt.array_at(root, 0).unwrap()), Ok(31));
    // Elsewhere the last letter is a suffix, and the literal a float.
    assert!(matches!(parse_num(&"1f".to_string(), 1, 1), Ok(Number::Float(_))));
    assert!(matches!(parse_num(&"2.5d".to_string(), 1, 1), Ok(Number::Float(_))));
    assert!(matches!(parse_num(&"7D".to_string(), 1, 1), Ok(Number::Float(_))));
    assert!(matches!(
        parse_num(&"0b1d".to_string(), 1, 1),
        Err(ParserError::UnexpectedChar('b', 1, 2))
    ));
    // A hexadecimal literal that holds an `e` is read by the grammar of
    // floating-point literals, which has no `x`.
    assert!(matches!(
        parse_num(&"0xBEEF".to_string(), 1, 1),
        Err(ParserError::UnexpectedChar('x', 1, 2))
    ));
    assert!(matches!(
        parse_num(&"0x1e".to_string(), 1, 1),
        Err(ParserError::UnexpectedChar('x', 1, 2))
    ));
}

#[test]
fn integers_wrap_at_64_bits() {
    assert_eq!(int_of("9223372036854775807"), i64::MAX);
    assert_eq!(int_of("9223372036854775808"), i64::MIN);
    assert_eq!(int_of("-9223372036854775808"), i64::MIN);
    assert_eq!(int_of("18446744073709551615"), -1);
    assert_eq!(int_of("18446744073709551616"), 0);
    assert_eq!(int_of("18446744073709551617"), 1);
    assert_eq!(int_of("0x10000000000000001"), 1);
    assert_eq!(int_of("0xC000000000000000"), -4611686018427387904);
}

#[test]
fn invalid_digits_are_reported_by_radix() {
    assert!(matches!(
        parse_num(&"12a".to_string(), 3, 5),
        Err(ParserError::IntegerInvalidDecimal('a', 3, 7))
    ));
    assert!(matches!(
        parse_num(&"0b102".to_string(), 1, 1),
        Err(ParserError::IntegerInvalidBinary('2', 1, 5))
    ));
    assert!(matches!(
        parse_num(&"0o18".to_string(), 1, 1),
        Err(ParserError::IntegerInvalidOctal('8', 1, 4))
    ));
    assert!(matches!(
        parse_num(&"09".to_string(), 1, 1),
        Err(ParserError::IntegerInvalidOctal('9', 1, 2))
    ));
    assert!(matches!(
        parse_num(&"0x1G".to_string(), 1, 1),
        Err(ParserError::IntegerInvalidHex('G', 1, 4))
    ));
    assert!(matches!(
        parse_num(&"-+1".to_string(), 1, 1),
        Err(ParserError::IntegerInvalidDecimal('+', 1, 2))
    ));
    assert!(matches!(
        parse_num(&"-".to_string(), 2, 4),
        Err(ParserError::UnexpectedEOL(2, 5))
    ));
}

fn parts(text: &str) -> (bool, Vec<u8>, Vec<u8>, bool, Vec<u8>) {
    match parse_num(&text.to_string(), 1, 1) {
        Ok(Number::Float(f)) => (f.negative, f.whole, f.fraction, f.exponent_negative, f.exponent),
        other => panic!("no float: {:?}", other),
    }
}

#[test]
fn float_literals_are_taken_apart() {
    assert_eq!(parts("1.5"), (false, vec![1], vec![5], false, vec![]));
    assert_eq!(
        parts("-2340.0000001"),
        (true, vec![2, 3, 4, 0], vec![0, 0, 0, 0, 0, 0, 1], false, vec![])
    );
    assert_eq!(parts(".5"), (false, vec![], vec![5], false, vec![]));
    assert_eq!(parts("5."), (false, vec![5], vec![], false, vec![]));
    assert_eq!(parts("1e10"), (false, vec![1], vec![], false, vec![1, 0]));
    assert_eq!(parts("1E-3"), (false, vec![1], vec![], true, vec![3]));
    assert_eq!(parts("1e+"), (false, vec![1], vec![], false, vec![]));
    assert_eq!(parts("+1.25e+2f"), (false, vec![1], vec![2, 5], false, vec![2]));
    assert_eq!(parts("3f"), (false, vec![3], vec![], false, vec![]));
    assert_eq!(parts("3D"), (false, vec![3], vec![], false, vec![]));
    assert_eq!(parts("-."), (true, vec![], vec![], false, vec![]));
}

#[test]
fn malformed_float_literals_are_rejected() {
    assert!(matches!(
        parse_num(&"1.2.3".to_string(), 1, 1),
        Err(ParserError::UnexpectedChar('.', 1, 4))
    ));
    assert!(matches!(
        parse_num(&"1e".to_string(), 1, 1),
        Err(ParserError::UnexpectedEOL(1, 3))
    ));
    assert!(matches!(
        parse_num(&"1ex".to_string(), 1, 1),
        Err(ParserError::UnexpectedChar('x', 1, 3))
    ));
    assert!(matches!(
        parse_num(&"1e5x".to_string(), 1, 1),
        Err(ParserError::UnexpectedChar('x', 1, 4))
    ));
    assert!(matches!(
        parse_num(&"1.5f3".to_string(), 1, 1),
        Err(ParserError::UnexpectedChar('3', 1, 5))
    ));
    assert!(matches!(
        parse_num(&"1.5x".to_string(), 1, 1),
        Err(ParserError::UnexpectedChar('x', 1, 4))
    ));
    assert!(matches!(
        parse_num(&"-e5".to_string(), 1, 1),
        Err(ParserError::UnexpectedChar('e', 1, 2))
    ));
}

#[test]
fn the_float_literals_of_a_text_are_listed_in_order() {
    let lits = float_literals(&"[1, 2.5, \"3.5\", 4e1, {\"a\": -.5}, 1.2.3]".to_string());
    let wholes: Vec<Vec<u8>> = lits.iter().map(|l| l.whole.clone()).collect();
    assert_eq!(wholes, vec![vec![2], vec![4], vec![]]);
    assert!(lits[2].negative);
    assert!(float_literals(&"[1.5, ?]".to_string()).is_empty());
}

#[test]
fn floats_take_the_bits_the_host_gives() {
    let text = "[1.5, {\"a\": 2.5}, 3]".to_string();
    assert_eq!(float_literals(&text).len(), 2);
    let (cxt, root) = parse(&text, &vec![11, 22]).unwrap();
    assert_eq!(cxt.get_float(cxt.array_at(root, 0).unwrap()), Ok(11));
    assert!(cxt.get_obj(cxt.array_at(root, 1).unwrap()).is_ok());
    // The root is the array 0, so the first object has the id 0 as well.
    assert_eq!(cxt.get_float(cxt.get_val(0, &"a".to_string()).unwrap()), Ok(22));
    assert_eq!(cxt.get_int(cxt.array_at(root, 2).unwrap()), Ok(3));
}

#[test]
fn missing_value_is_an_unexpected_token_at_the_closing_brace() {
    match failure("{\"a\": }") {
        ParserError::UnexpectedToken(text, line, pos) => {
            assert_eq!(text, "}");
            assert_eq!((line, pos), (1, 7));
        }
        other => panic!("{:?}", other),
    }
}

#[test]
fn duplicate_key_in_one_pass_is_rejected() {
    match failure("{\"a\":1,\"a\":2}") {
        ParserError::KeyExists(key, line, pos) => {
            assert_eq!(key, "a");
            assert_eq!((line, pos), (1, 8));
        }
        other => panic!("{:?}", other),
    }
    let (mut cxt, root) = JsonContext::new(true);
    cxt.set_val(root, "a".to_string(), cxt.val_int(1));
    cxt.set_val(root, "a".to_string(), cxt.val_int(2));
    assert_eq!(cxt.get_int(cxt.get_val(root, &"a".to_string()).unwrap()), Ok(2));
    // The same key in two objects is no duplicate.
    assert!(read("{\"a\":{\"a\":1},\"b\":{\"a\":2}}").is_ok());
}

#[test]
fn structural_errors() {
    assert!(matches!(failure(""), ParserError::EmptyString));
    assert!(matches!(failure("   "), ParserError::UnexpectedEndOfTokens()));
    assert!(matches!(failure("// only\n"), ParserError::UnexpectedEndOfTokens()));
    match failure("  42") {
        ParserError::BadBeginning(text, 1, 3) => assert_eq!(text, "42"),
        other => panic!("{:?}", other),
    }
    match failure("\"s\"") {
        ParserError::BadBeginning(text, 1, 1) => assert_eq!(text, "s"),
        other => panic!("{:?}", other),
    }
    assert!(matches!(failure("{"), ParserError::UnexpectedEndOfTokens()));
    assert!(matches!(failure("["), ParserError::UnexpectedEndOfTokens()));
    assert!(matches!(failure("{\"a\""), ParserError::UnexpectedEndOfTokens()));
    assert!(matches!(failure("{\"a\":"), ParserError::UnexpectedEndOfTokens()));
    assert!(matches!(failure("{\"a\":1"), ParserError::UnexpectedEndOfTokens()));
    assert!(matches!(failure("[1"), ParserError::UnexpectedEndOfTokens()));
    assert!(matches!(failure("[1,"), ParserError::UnexpectedEndOfTokens()));
    assert!(matches!(failure("[[1]"), ParserError::UnexpectedEndOfTokens()));
    assert!(matches!(
        failure("{\"a\":1 \"b\":2}"),
        ParserError::ExpectedChar(',', 1, 8)
    ));
    assert!(matches!(failure("[1 2]"), ParserError::ExpectedChar(',', 1, 4)));
    assert!(matches!(
        failure("[1}"),
        ParserError::ExpectedChar(',', 1, 3)
    ));
    match failure("{1:2}") {
        ParserError::UnexpectedToken(text, 1, 2) => assert_eq!(text, "1"),
        other => panic!("{:?}", other),
    }
    match failure("{\"a\" 1}") {
        ParserError::UnexpectedToken(text, 1, 6) => assert_eq!(text, "1"),
        other => panic!("{:?}", other),
    }
    match failure("[:]") {
        ParserError::UnexpectedToken(text, 1, 2) => assert_eq!(text, ":"),
        other => panic!("{:?}", other),
    }
    match failure("[,]") {
        ParserError::UnexpectedToken(text, 1, 2) => assert_eq!(text, ","),
        other => panic!("{:?}", other),
    }
    match failure("{}\n  []") {
        ParserError::UnexpectedToken(text, 2, 3) => assert_eq!(text, "["),
        other => panic!("{:?}", other),
    }
    match failure("[] 1") {
        ParserError::UnexpectedToken(text, 1, 4) => assert_eq!(text, "1"),
        other => panic!("{:?}", other),
    }
    assert!(matches!(
        failure("[1, 2x]"),
        ParserError::IntegerInvalidDecimal('x', 1, 6)
    ));
    // An error in the structure before a bad number comes first.
    assert!(matches!(failure("[1 2x]"), ParserError::ExpectedChar(',', 1, 4)));
}

#[test]
fn trailing_commas_are_accepted() {
    let (cxt, root) = read("{\"a\":[1,2,],}").unwrap();
    assert!(cxt.contains_str(root, "a"));
    let list = cxt.get_val(root, &"a".to_string()).unwrap();
    assert_eq!(*list.get_type(), JsonType::Array);
    assert!(cxt.array_at(0, 1).is_ok());
    assert!(cxt.array_at(0, 2).is_err());
}

#[test]
fn lexical_errors() {
    assert!(matches!(failure("[?]"), ParserError::UnexpectedChar('?', 1, 2)));
    assert!(matches!(failure("[\r\n]"), ParserError::UnexpectedChar('\r', 1, 2)));
    assert!(matches!(failure("[\n  @"), ParserError::UnexpectedChar('@', 2, 3)));
    match failure("[trux]") {
        ParserError::ExpectedWord(word, 1, 5) => assert_eq!(word, "true"),
        other => panic!("{:?}", other),
    }
    match failure("[t r u e]") {
        ParserError::ExpectedWord(word, 1, 5) => assert_eq!(word, "true"),
        other => panic!("{:?}", other),
    }
    match failure("[fals") {
        ParserError::ExpectedWord(word, 1, 5) => assert_eq!(word, "false"),
        other => panic!("{:?}", other),
    }
    match failure("[nul]") {
        ParserError::ExpectedWord(word, 1, 5) => assert_eq!(word, "null"),
        other => panic!("{:?}", other),
    }
    match failure("[n") {
        ParserError::ExpectedWord(word, 1, 2) => assert_eq!(word, "null"),
        other => panic!("{:?}", other),
    }
    assert!(matches!(
        failure("[\"a\\qb\"]"),
        ParserError::StringEscapeChar('q', 1, 5)
    ));
    assert!(matches!(
        failure("[\"\\u12G4\"]"),
        ParserError::StringUnicode('G', 1, 7)
    ));
    assert!(matches!(
        failure("[\"\\xZ1\"]"),
        ParserError::StringUnicode('Z', 1, 5)
    ));
    assert!(matches!(
        failure("[\"\\uD800\"]"),
        ParserError::StringUnicode('0', 1, 8)
    ));
    assert!(matches!(failure("[\"ab\\"), ParserError::UnexpectedEOL(1, 6)));
    assert!(matches!(failure("[\"\\u12"), ParserError::UnexpectedEOL(1, 7)));
    assert!(matches!(failure("[1] /"), ParserError::UnexpectedEOL(1, 5)));
    assert!(matches!(failure("[1] /x"), ParserError::UnexpectedChar('x', 1, 6)));
    assert!(matches!(
        failure("[1] /* open"),
        ParserError::UnexpectedEndOfTokens()
    ));
    assert!(matches!(failure("[1] /*/"), ParserError::UnexpectedEndOfTokens()));
}

#[test]
fn strings_resolve_their_escapes() {
    let (cxt, root) = read("[\"\\\"\\'\\\\\\n\\t\\v\\r\\0\\b\\f\\x41\\u00e9\\u20AC\"]").unwrap();
    assert_eq!(
        cxt.get_string(cxt.array_at(root, 0).unwrap()).unwrap(),
        "\"'\\\n\t\u{0B}\r\0\u{08}\u{0C}A\u{E9}\u{20AC}"
    );
}

#[test]
fn an_unterminated_string_ends_with_the_text() {
    let found = tokens("[\"abc");
    assert_eq!(found.len(), 2);
    assert_eq!(found[1], (TokenType::String, "abc".to_string(), 1, 2));
    assert!(matches!(failure("[\"abc"), ParserError::UnexpectedEndOfTokens()));
}

#[test]
fn tokens_carry_line_and_column() {
    let found = tokens("{ \"k\" : [true,\n\tfalse, null, -1.5e3,0x1F] // c\n/* a\n * b */ }");
    let expected = vec![
        (TokenType::OBrk, "{".to_string(), 1, 1),
        (TokenType::String, "k".to_string(), 1, 3),
        (TokenType::Colon, ":".to_string(), 1, 7),
        (TokenType::OSBrk, "[".to_string(), 1, 9),
        (TokenType::True, "true".to_string(), 1, 10),
        (TokenType::Comma, ",".to_string(), 1, 14),
        (TokenType::False, "false".to_string(), 2, 2),
        (TokenType::Comma, ",".to_string(), 2, 7),
        (TokenType::Null, "null".to_string(), 2, 9),
        (TokenType::Comma, ",".to_string(), 2, 13),
        (TokenType::Number, "-1.5e3".to_string(), 2, 15),
        (TokenType::Comma, ",".to_string(), 2, 21),
        (TokenType::Number, "0x1F".to_string(), 2, 22),
        (TokenType::CSBrk, "]".to_string(), 2, 26),
        (TokenType::CBrk, "}".to_string(), 4, 9),
    ];
    assert_eq!(found, expected);
}

#[test]
fn a_number_token_is_a_greedy_run() {
    let found = tokens("12ab.+-x 3\u{0663}\u{00E9},+");
    let texts: Vec<&str> = found.iter().map(|t| t.1.as_str()).collect();
    assert_eq!(texts, vec!["12ab.+-x", "3\u{0663}\u{00E9}", ",", "+"]);
    assert_eq!(found[1].3, 10);
    // A numeric character that is no ASCII digit starts a number token too.
    let found = tokens("\u{0663}");
    assert_eq!(found[0].0, TokenType::Number);
    assert!(matches!(
        failure("[\u{0663}]"),
        ParserError::IntegerInvalidDecimal('\u{0663}', 1, 2)
    ));
    // A letter does not.
    assert!(matches!(failure("[a]"), ParserError::UnexpectedChar('a', 1, 2)));
}

#[test]
fn comments_are_skipped() {
    let (cxt, root) = read("/* head */ [ 1, // one\n 2 /* two */, 3 ] // tail").unwrap();
    let values: Vec<i64> = (0..3)
        .map(|i| cxt.get_int(cxt.array_at(root, i).unwrap()).unwrap())
        .collect();
    assert_eq!(values, vec![1, 2, 3]);
    let (cxt, root) = read("[1 /* a * b ** c */, 2]").unwrap();
    assert!(cxt.array_at(root, 1).is_ok());
}

#[test]
fn keywords_need_no_separator() {
    let found = tokens("truefalsenull1");
    let kinds: Vec<TokenType> = found.iter().map(|t| t.0).collect();
    assert_eq!(
        kinds,
        vec![TokenType::True, TokenType::False, TokenType::Null, TokenType::Number]
    );
}

#[test]
fn unicode_classes_on_ascii_are_the_familiar_ones() {
    for code in 0u32..128 {
        let c = char::from_u32(code).unwrap();
        assert_eq!(c.is_numeric(), c.is_ascii_digit());
        assert_eq!(c.is_alphanumeric(), c.is_ascii_alphanumeric());
    }
    // The lexer goes by these classes: every ASCII letter and digit goes on
    // a number token, and no other ASCII character but `.`, `+` and `-` does.
    for code in 33u32..127 {
        let c = char::from_u32(code).unwrap();
        let text = format!("1{}", c);
        let run = match lexer(&chars_of(&text)) {
            Ok(tokens) => tokens[0].value.len(),
            Err(_) => 1,
        };
        let goes_on = c.is_ascii_alphanumeric() || c == '.' || c == '+' || c == '-';
        assert_eq!(run == 2, goes_on, "{:?}", c);
    }
}

#[test]
fn parsing_with_too_few_floats_is_refused() {
    let text = "[1.5, 2.5]".to_string();
    assert!(fksjson::parser::try_parse(&text, &vec![1]).is_none());
    let (cxt, root) = fksjson::parser::try_parse(&text, &vec![1, 2, 3])
        .unwrap()
        .unwrap();
    assert_eq!(cxt.get_float(cxt.array_at(root, 1).unwrap()), Ok(2));
    assert!(matches!(
        fksjson::parser::try_parse(&"[1.5, ".to_string(), &vec![7]),
        Some(Err(ParserError::UnexpectedEndOfTokens()))
    ));
    assert!(matches!(
        fksjson::parser::try_parse(&"".to_string(), &vec![]),
        Some(Err(ParserError::EmptyString))
    ));
}

#[test]
fn blanks_are_passed_up_to_the_next_character() {
    let chars = chars_of(" \t\n  x y");
    let mut at = 0usize;
    let mut pos = Position::new();
    assert_eq!(eat_whitespace(&chars, &mut at, &mut pos), (false, 'x'));
    assert_eq!((pos.line, pos.pos), (2, 3));
    assert_eq!(at, 6);
    assert_eq!(eat_whitespace(&chars, &mut at, &mut pos), (false, 'y'));
    assert_eq!(eat_whitespace(&chars, &mut at, &mut pos), (true, '\0'));
    let blanks = chars_of(" \t\n \n");
    let mut at = 0usize;
    let mut pos = Position::new();
    assert_eq!(eat_whitespace(&blanks, &mut at, &mut pos), (true, '\0'));
    assert_eq!(at, blanks.len());
    assert_eq!((pos.line, pos.pos), (3, 0));
}
