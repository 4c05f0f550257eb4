use equation_solver::tokenizer::{GroupToken, Number, NumberToken, Operator, OperatorToken, Token};

fn texts(tokens: &[Token]) -> Vec<String> {
    let mut out = Vec::new();
    for t in tokens {
        out.push(t.as_string());
    }
    out
}

#[test]
fn tokenizes_numbers_and_operators() {
    let tokens = Token::parse("12+34");
    assert_eq!(texts(&tokens), vec!["12", "+", "34"]);
    assert_eq!(tokens[0].kind_name(), "NumberToken");
    assert_eq!(tokens[1].kind_name(), "OperatorToken");
}

#[test]
fn spaces_tokenize_like_no_spaces() {
    let spaced = Token::parse("2 + 3");
    let plain = Token::parse("2+3");
    assert_eq!(texts(&spaced), texts(&plain));
}

#[test]
fn stray_letters_are_skipped() {
    let tokens = Token::parse("2a+b3");
    assert_eq!(texts(&tokens), vec!["2", "+", "3"]);
}

#[test]
fn unmatched_open_paren_tokenizes_rest() {
    let tokens = Token::parse("(1+2");
    assert_eq!(texts(&tokens), vec!["1", "+", "2"]);
}

#[test]
fn group_token_renders_with_parentheses() {
    let tokens = Token::parse("(1+2)*3");
    assert_eq!(texts(&tokens), vec!["(1+2)", "*", "3"]);
    assert_eq!(tokens[0].kind_name(), "NestedToken");
}

#[test]
fn minus_scans_as_operator_before_number() {
    // The operator scanner runs first, so "-" never starts a number here.
    let tokens = Token::parse("3-4");
    assert_eq!(texts(&tokens), vec!["3", "-", "4"]);
}

#[test]
fn operator_scanner_is_anchored() {
    let (len, tok) = OperatorToken::from("+rest");
    assert_eq!(len, 1);
    assert!(matches!(
        tok,
        Some(OperatorToken {
            operator: Operator::Addition
        })
    ));
    let (len, tok) = OperatorToken::from("x+");
    assert_eq!(len, 0);
    assert!(tok.is_none());
}

#[test]
fn operator_texts() {
    assert_eq!(Operator::Addition.as_str(), "+");
    assert_eq!(Operator::Subtraction.as_str(), "-");
    assert_eq!(Operator::Multiplication.as_str(), "*");
    assert_eq!(Operator::Division.as_str(), "/");
    assert_eq!(Operator::Modulo.as_str(), "%");
}

#[test]
fn number_scanner_is_anchored() {
    let (len, tok) = NumberToken::from("abc12");
    assert_eq!(len, 0);
    assert!(tok.is_none());
}

#[test]
fn number_scanner_reads_integer() {
    let (len, tok) = NumberToken::from("42xyz");
    assert_eq!(len, 2);
    let tok = tok.unwrap();
    assert!(matches!(tok.number, Number::Integer(42)));
}

#[test]
fn number_scanner_reads_negative_integer() {
    let (len, tok) = NumberToken::from("-12");
    assert_eq!(len, 3);
    assert!(matches!(tok.unwrap().number, Number::Integer(-12)));
}

#[test]
fn number_scanner_reads_decimal() {
    let (len, tok) = NumberToken::from("12.5x");
    assert_eq!(len, 4);
    match tok.unwrap().number {
        Number::Decimal(bits) => assert_eq!(bits, 12.5f64.to_bits()),
        other => panic!("expected a decimal, got {:?}", other),
    }
}

#[test]
fn number_scanner_stops_at_bare_dot() {
    let (len, tok) = NumberToken::from("12.x");
    assert_eq!(len, 2);
    assert!(matches!(tok.unwrap().number, Number::Integer(12)));
}

#[test]
fn huge_integer_literal_becomes_decimal() {
    let text = "9223372036854775808";
    let (len, tok) = NumberToken::from(text);
    assert_eq!(len, text.len());
    match tok.unwrap().number {
        Number::Decimal(bits) => {
            assert_eq!(bits, text.parse::<f64>().unwrap().to_bits());
        }
        other => panic!("expected a decimal, got {:?}", other),
    }
}

#[test]
fn smallest_integer_literal_stays_integer() {
    let (len, tok) = NumberToken::from("-9223372036854775808");
    assert_eq!(len, 20);
    assert!(matches!(tok.unwrap().number, Number::Integer(i64::MIN)));
}

#[test]
fn group_scanner_reads_nested_span() {
    let (len, tok) = GroupToken::from("((1)+2)rest");
    assert_eq!(len, 7);
    let group = tok.unwrap();
    assert_eq!(group.as_string(), "((1)+2)");
}

#[test]
fn group_scanner_rejects_unmatched() {
    let (len, tok) = GroupToken::from("((1)+2");
    assert_eq!(len, 0);
    assert!(tok.is_none());
    let (len, tok) = GroupToken::from("x(1)");
    assert_eq!(len, 0);
    assert!(tok.is_none());
}

#[test]
fn number_methods() {
    let i = Number::Integer(7);
    assert!(i.is_integer());
    assert!(!i.is_decimal());
    assert_eq!(i.as_integer(), Ok(7));
    assert_eq!(i.as_decimal(), 7.0f64.to_bits());
    let d = Number::Decimal(2.5f64.to_bits());
    assert!(d.is_decimal());
    assert_eq!(d.as_integer(), Err(()));
    assert_eq!(d.as_decimal(), 2.5f64.to_bits());
}

#[test]
fn number_rendering_round_trips() {
    assert_eq!(Number::Integer(0).as_string(), "0");
    assert_eq!(Number::Integer(-12).as_string(), "-12");
    assert_eq!(Number::Integer(i64::MAX).as_string(), "9223372036854775807");
    assert_eq!(Number::Integer(i64::MIN).as_string(), "-9223372036854775808");
    assert_eq!(Number::Decimal(0.5f64.to_bits()).as_string(), "0.5");
}

#[test]
fn tokens_render_back_to_their_text() {
    let tokens = Token::parse("12+34");
    let mut joined = String::new();
    for t in &tokens {
        joined.push_str(&t.as_string());
    }
    assert_eq!(joined, "12+34");
}

#[test]
fn cloned_tokens_render_the_same() {
    let tokens = Token::parse("(1+2)*3");
    for t in &tokens {
        assert_eq!(t.clone().as_string(), t.as_string());
    }
    let n = Number::Integer(5);
    assert!(matches!(n.clone(), Number::Integer(5)));
}
