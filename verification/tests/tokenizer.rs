use tiny_json::error::Error;
use tiny_json::token::{MaybeString, ParseNumber, Token};
use tiny_json::tokenizer::Tokenizer;

#[test]
fn test_tokenizer() {
    let s = "
    [{
        \"fingerprint\": \"0xF9BA143B95FF6D82,\\\"\",
        \"location\": \"Menlo Park, CA\",
        \"age\": 200.054
   }]";

    let mut tokenizer = Tokenizer::new(s);
    let mut count = 0;
    loop {
        match tokenizer.next() {
            Ok(token) => {
                println!("Token {:?}", token);
                count += 1;
                match token {
                    Token::EOF => break,
                    _ => {}
                }
            }
            Err(e) => {
                println!("{:?}", e);
                panic!("the text holds tokens only");
            }
        }
    }
    assert_eq!(count, 16);
}

#[test]
fn escapes_are_decoded() {
    let mut t = Tokenizer::new("\"\\u0041\\n\\t\\\"\"");
    match t.next() {
        Ok(Token::String(MaybeString::Escaped(s), span)) => {
            assert_eq!(s, "A\n\t\"");
            assert_eq!(s.chars().count(), 4);
            assert_eq!(span, (0, 14));
        }
        other => panic!("{:?}", other),
    }
    assert_eq!(t.next(), Ok(Token::EOF));
}

#[test]
fn plain_string_borrows_the_input() {
    let input = String::from("  \"héllo\" ");
    let mut t = Tokenizer::new(&input);
    match t.next() {
        Ok(Token::String(MaybeString::NotEscaped(s), span)) => {
            assert_eq!(s, "héllo");
            assert_eq!(span, (2, 10));
            assert_eq!(s.as_ptr(), input[3..].as_ptr());
        }
        other => panic!("{:?}", other),
    }
}

#[test]
fn numbers_are_classified() {
    assert_eq!(
        Tokenizer::new("42").next(),
        Ok(Token::Number(ParseNumber::I64(42), (0, 2)))
    );
    assert_eq!(
        Tokenizer::new("-0").next(),
        Ok(Token::Number(ParseNumber::I64(0), (0, 2)))
    );
    match Tokenizer::new("42.0").next() {
        Ok(Token::Number(ParseNumber::F64(s), _)) => assert_eq!(s.parse::<f64>(), Ok(42.0)),
        other => panic!("{:?}", other),
    }
    match Tokenizer::new("4.2e1").next() {
        Ok(Token::Number(ParseNumber::F64(s), _)) => assert_eq!(s.parse::<f64>(), Ok(42.0)),
        other => panic!("{:?}", other),
    }
    assert_eq!(
        Tokenizer::new("1.2.3").next(),
        Err(Error::InvalidNumber("1.2.3".to_string()))
    );
}

#[test]
fn truncated_literal() {
    assert_eq!(Tokenizer::new("tru").next(), Err(Error::EofWhileParsingValue(3)));
    assert_eq!(
        Tokenizer::new("trux").next(),
        Err(Error::Wanted { at: 3, expected: 'e', found: 'x' })
    );
}

#[test]
fn brackets_and_operators() {
    let mut t = Tokenizer::new("[]{},:");
    assert_eq!(t.next(), Ok(Token::Bracket("[", (0, 1))));
    assert_eq!(t.next(), Ok(Token::Bracket("]", (1, 2))));
    assert_eq!(t.next(), Ok(Token::Bracket("{", (2, 3))));
    assert_eq!(t.next(), Ok(Token::Bracket("}", (3, 4))));
    assert_eq!(t.next(), Ok(Token::Operator(",", (4, 5))));
    assert_eq!(t.next(), Ok(Token::Operator(":", (5, 6))));
    assert_eq!(t.next(), Ok(Token::EOF));
    assert_eq!(t.next(), Ok(Token::EOF));
}

#[test]
fn token_kinds_are_told_apart() {
    let t = Token::Bracket("[", (0, 1));
    assert!(t.is_left_bracket());
    assert!(!t.is_right_bracket());
    assert!(Token::Bracket("]", (0, 1)).is_right_bracket());
    assert!(Token::Bracket("{", (0, 1)).is_left_curly());
    assert!(Token::Bracket("}", (0, 1)).is_right_curly());
    assert!(Token::Operator(":", (0, 1)).is_colon());
    assert!(Token::Operator(",", (0, 1)).is_comma());
    assert!(!Token::Operator(",", (0, 1)).is_colon());
    assert!(Token::Operator(",", (0, 1)).checkOp(","));
    assert!(!Token::Null((0, 4)).checkOp("null"));
    assert!(!Token::EOF.is_comma());
}

#[test]
fn literals() {
    let mut t = Tokenizer::new("true false null");
    assert_eq!(t.next(), Ok(Token::Bool(true, (0, 4))));
    assert_eq!(t.next(), Ok(Token::Bool(false, (5, 10))));
    assert_eq!(t.next(), Ok(Token::Null((11, 15))));
    assert_eq!(Tokenizer::new("nul").next(), Err(Error::EofWhileParsingValue(3)));
    assert_eq!(
        Tokenizer::new("fals3").next(),
        Err(Error::Wanted { at: 4, expected: 'e', found: '3' })
    );
    assert_eq!(
        Tokenizer::new(" nxll").next(),
        Err(Error::Wanted { at: 2, expected: 'u', found: 'x' })
    );
}

#[test]
fn peek_leaves_the_position() {
    let mut t = Tokenizer::new(" 12 , ");
    assert_eq!(t.peek(), Ok(Token::Number(ParseNumber::I64(12), (1, 3))));
    assert_eq!(t.peek(), Ok(Token::Number(ParseNumber::I64(12), (1, 3))));
    assert_eq!(t.next(), Ok(Token::Number(ParseNumber::I64(12), (1, 3))));
    assert_eq!(t.peek(), Ok(Token::Operator(",", (4, 5))));
}

#[test]
fn unsupported_character() {
    assert_eq!(Tokenizer::new(" ?").next(), Err(Error::NotSupportedChar('?', 1)));
    assert_eq!(Tokenizer::new("é").next(), Err(Error::NotSupportedChar('é', 0)));
    assert_eq!(Tokenizer::new("+1").next(), Err(Error::NotSupportedChar('+', 0)));
}

#[test]
fn byte_order_mark_is_passed_once() {
    let mut t = Tokenizer::new("\u{feff}1");
    assert_eq!(t.next(), Ok(Token::Number(ParseNumber::I64(1), (3, 4))));
    assert_eq!(
        Tokenizer::new("\u{feff}\u{feff}1").next(),
        Err(Error::NotSupportedChar('\u{feff}', 3))
    );
}

#[test]
fn spans_count_bytes() {
    let mut t = Tokenizer::new("\"€\" \"𝄞x\"");
    assert_eq!(t.next(), Ok(Token::String(MaybeString::NotEscaped("€"), (0, 5))));
    assert_eq!(t.next(), Ok(Token::String(MaybeString::NotEscaped("𝄞x"), (6, 13))));
}

#[test]
fn next_char_and_whitespace() {
    let mut t = Tokenizer::new(" \t\r\né x");
    t.eat_whitespace();
    assert_eq!(t.next_char(), Some((4, 'é')));
    assert_eq!(t.next_char(), Some((6, ' ')));
    t.eat_whitespace();
    assert_eq!(t.next_char(), Some((7, 'x')));
    assert_eq!(t.next_char(), None);
    t.eat_whitespace();
    assert_eq!(t.next_char(), None);
}

#[test]
fn expect_asks_for_one_token() {
    let mut t = Tokenizer::new("{ : x");
    assert_eq!(t.expect("{".to_string()), Ok(()));
    assert_eq!(t.expect(",".to_string()), Err(Error::OpNotExist(",".to_string())));
    assert_eq!(t.expect(":".to_string()), Err(Error::NotSupportedChar('x', 4)));
    assert_eq!(Tokenizer::new("1").expect("1".to_string()), Err(Error::OpNotExist("1".to_string())));
}

#[test]
fn every_escape() {
    let mut t = Tokenizer::new(r#""a\"\\\/\b\f\n\r\tz""#);
    assert_eq!(
        t.next(),
        Ok(Token::String(MaybeString::Escaped("a\"\\/\u{8}\u{c}\n\r\tz".to_string()), (0, 20)))
    );
}

#[test]
fn text_before_and_between_escapes_is_kept_once() {
    let mut t = Tokenizer::new(r#""ab\ncd\tef""#);
    assert_eq!(
        t.next(),
        Ok(Token::String(MaybeString::Escaped("ab\ncd\tef".to_string()), (0, 12)))
    );
}

#[test]
fn hex_escapes() {
    assert_eq!(
        Tokenizer::new(r#""\u00e9\U0001D11EJ""#).next(),
        Ok(Token::String(MaybeString::Escaped("\u{e9}\u{1d11e}J".to_string()), (0, 19)))
    );
    assert_eq!(
        Tokenizer::new(r#""\uffff""#).next(),
        Ok(Token::String(MaybeString::Escaped("\u{ffff}".to_string()), (0, 8)))
    );
    assert_eq!(
        Tokenizer::new(r#""\u0041\u00Ff""#).next(),
        Ok(Token::String(MaybeString::Escaped("A\u{ff}".to_string()), (0, 14)))
    );
}

#[test]
fn bad_escapes() {
    assert_eq!(Tokenizer::new(r#""a\x""#).next(), Err(Error::InvalidEscape(3, 'x')));
    assert_eq!(Tokenizer::new(r#""\u12g4""#).next(), Err(Error::InvalidHexEscape(5, 'g')));
    assert_eq!(Tokenizer::new(r#""\u12é4""#).next(), Err(Error::InvalidHexEscape(5, 'é')));
    assert_eq!(Tokenizer::new(r#""\ud800""#).next(), Err(Error::InvalidEscapeValue(2, 0xd800)));
    assert_eq!(
        Tokenizer::new(r#""\U00110000""#).next(),
        Err(Error::InvalidEscapeValue(2, 0x110000))
    );
    assert_eq!(
        Tokenizer::new(r#""\UFFFFFFFF""#).next(),
        Err(Error::InvalidEscapeValue(2, 0xffff_ffff))
    );
}

#[test]
fn unterminated_strings() {
    assert_eq!(Tokenizer::new(" \"abc").next(), Err(Error::UnterminatedString(1)));
    assert_eq!(Tokenizer::new("\"ab\\").next(), Err(Error::UnterminatedString(3)));
    assert_eq!(Tokenizer::new("\"ab\\u12").next(), Err(Error::UnterminatedString(3)));
}

#[test]
fn control_characters_stand_in_strings() {
    assert_eq!(
        Tokenizer::new("\"a\nb\"").next(),
        Ok(Token::String(MaybeString::NotEscaped("a\nb"), (0, 5)))
    );
}

#[test]
fn integers_of_64_bits() {
    assert_eq!(
        Tokenizer::new("9223372036854775807").next(),
        Ok(Token::Number(ParseNumber::I64(i64::MAX), (0, 19)))
    );
    assert_eq!(
        Tokenizer::new("-9223372036854775808").next(),
        Ok(Token::Number(ParseNumber::I64(i64::MIN), (0, 20)))
    );
    assert_eq!(
        Tokenizer::new("9223372036854775808").next(),
        Ok(Token::Number(ParseNumber::F64("9223372036854775808"), (0, 19)))
    );
    assert_eq!(
        Tokenizer::new("007").next(),
        Ok(Token::Number(ParseNumber::I64(7), (0, 3)))
    );
}

#[test]
fn number_literals_as_the_float_parser_reads_them() {
    let lexemes = [
        "1", "-1", "1.", "1.5", "-.5", "0.5e3", "1e5", "1E5", "1e+5", "1e-5", "1.e5", "-", "-.",
        "1e", "1e+", "1ee5", "1.2.3", "1-2", "1+2", "--1", "-+1", "1e5.5", "1.5e", "9e999", "-0.0",
        "0e0", "1e+-5", "12345678901234567890", "-e5", "1.5E-3", "0.", "-1e", "1.e", "4.2e1",
        "200.054",
    ];
    for lexeme in lexemes {
        let float = lexeme.parse::<f64>();
        match Tokenizer::new(lexeme).next() {
            Ok(Token::Number(ParseNumber::I64(n), span)) => {
                assert_eq!(Ok(n), lexeme.parse::<i64>(), "{}", lexeme);
                assert_eq!(span, (0, lexeme.len()));
            }
            Ok(Token::Number(ParseNumber::F64(s), span)) => {
                assert!(lexeme.parse::<i64>().is_err(), "{}", lexeme);
                assert_eq!(s, lexeme);
                assert!(float.is_ok(), "{}", lexeme);
                assert_eq!(span, (0, lexeme.len()));
            }
            Err(Error::InvalidNumber(s)) => {
                assert_eq!(s, lexeme);
                assert!(float.is_err(), "{}", lexeme);
            }
            other => panic!("{}: {:?}", lexeme, other),
        }
    }
}

#[test]
fn error_messages() {
    assert_eq!(Error::custom("my message".to_string()), Error::Message("my message".to_string()));
    assert_eq!(Error::custom("my message".to_string()).to_string(), "my message");
    assert_eq!(Error::UnterminatedString(3).to_string(), "unexpected end of input");
    assert_eq!(Error::JSONKeyMustBeString().to_string(), "unexpected end of input");
}

#[test]
fn number_tokens_as_the_standard_parsers_read_them() {
    let alphabet = ['0', '3', '.', 'e', 'E', '-', '+'];
    let mut texts = vec![String::from("-"), String::from("0"), String::from("3")];
    let mut from = 0;
    for _ in 0..5 {
        let upto = texts.len();
        for i in from..upto {
            for c in alphabet {
                let mut longer = texts[i].clone();
                longer.push(c);
                texts.push(longer);
            }
        }
        from = upto;
    }
    for t in texts {
        let expected = match t.parse::<i64>() {
            Ok(n) => Ok(Token::Number(ParseNumber::I64(n), (0, t.len()))),
            Err(_) => match t.parse::<f64>() {
                Ok(_) => Ok(Token::Number(ParseNumber::F64(&t), (0, t.len()))),
                Err(_) => Err(Error::InvalidNumber(t.clone())),
            },
        };
        assert_eq!(Tokenizer::new(&t).next(), expected, "{}", t);
    }
}
