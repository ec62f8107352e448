use number_diff::parse::{parse_function, ElemRef};
use number_diff::combinatorics::Factorial;
use number_diff::expr::Elementary;
use number_diff::number::Number;
use number_diff::parse::parse;
use std::sync::Arc;

fn num(i: i64) -> Number {
    Number::from_int(i)
}

fn value_at(text: &str, x: i64) -> Option<Number> {
    parse(text).unwrap().evaluate_exact(&num(x))
}

#[test]
fn parsing() {
    let factorial = parse("x!").unwrap();
    assert_eq!(factorial.evaluate_exact(&num(5)), Some(num(120)));
}

#[test]
fn factorial() {
    let factorial = Elementary::Factorial(Arc::new(Elementary::X));
    assert_eq!(factorial.evaluate_exact(&num(0)), Some(num(1)));
    assert_eq!(factorial.evaluate_exact(&num(1)), Some(num(1)));
    assert_eq!(factorial.evaluate_exact(&num(2)), Some(num(2)));
    assert_eq!(factorial.evaluate_exact(&num(6)), Some(num(720)));
}

#[test]
fn factorial_trait_on_naturals() {
    assert_eq!(0u8.factorial(), 1);
    assert_eq!(5u32.factorial(), 120);
    assert_eq!(20u64.factorial(), 2432902008176640000);
    assert_eq!(34usize.factorial(), 295232799039604140847618609643520000000);
}

#[test]
fn precedence_of_operators() {
    assert_eq!(value_at("2+3*4", 0), Some(num(14)));
    assert_eq!(value_at("2^3^2", 0), Some(num(512)));
    assert_eq!(value_at("x!", 5), Some(num(120)));
    assert_eq!(value_at("10-4-3", 0), Some(num(3)));
    assert_eq!(value_at("-x", 7), Some(num(-7)));
}

#[test]
fn literals_and_constants() {
    assert_eq!(value_at("2.5", 0), Number::from_parts(5, 2));
    assert_eq!(value_at(".5x", 3), Number::from_parts(3, 2));
    assert_eq!(parse("e").unwrap(), Elementary::E);
    assert_eq!(parse("pi").unwrap(), Elementary::Pi);
    assert_eq!(parse("\u{3c0}").unwrap(), Elementary::Pi);
    assert_eq!(parse(" X ").unwrap(), Elementary::X);
}

#[test]
fn parse_of_product_with_function() {
    let e = parse("4sin(x)").unwrap();
    let expected = Elementary::Mul(
        Arc::new(Elementary::Con(num(4))),
        Arc::new(Elementary::Sin(Arc::new(Elementary::X))),
    );
    assert_eq!(e, expected);
}

#[test]
fn parse_of_implied_products_and_quotient() {
    let e = parse("6(4x+3)/(5x)sin(x)").unwrap();
    let x = || Arc::new(Elementary::X);
    let c = |i: i64| Arc::new(Elementary::Con(num(i)));
    let numerator = Elementary::Mul(
        c(6),
        Arc::new(Elementary::Add(Arc::new(Elementary::Mul(c(4), x())), c(3))),
    );
    let denominator = Elementary::Mul(
        Arc::new(Elementary::Mul(c(5), x())),
        Arc::new(Elementary::Sin(x())),
    );
    assert_eq!(e, Elementary::Div(Arc::new(numerator), Arc::new(denominator)));
    // the same formula without the sine, evaluated exactly
    assert_eq!(value_at("6(4x+3)/(5x)", 2), Number::from_parts(33, 5));
}

#[test]
fn named_functions_parse() {
    for name in ["sin", "cos", "tan", "sec", "csc", "cot", "asin", "acos", "atan", "sinh", "cosh", "tanh", "abs"] {
        let text = format!("{}(x)", name);
        assert!(parse(&text).is_ok(), "{} did not parse", name);
    }
    assert_eq!(value_at("sqrt(x)", 4), None);
    assert_eq!(value_at("abs(x-10)", 3), Some(num(7)));
    assert_eq!(
        parse("ln(x)").unwrap(),
        Elementary::Log(Arc::new(Elementary::E), Arc::new(Elementary::X))
    );
}

#[test]
fn derivative_operator_in_text() {
    // d(x^2 + 3x) is 2x + 3, unsimplified
    assert_eq!(value_at("d(x*x+3x)", 4), Some(num(11)));
}

#[test]
fn parse_errors() {
    assert!(matches!(parse(""), Err(number_diff::Error::ParseError(_))));
    assert!(matches!(parse("foo(x)"), Err(number_diff::Error::ParseError(_))));
    assert!(matches!(parse("2*"), Err(number_diff::Error::ParseError(_))));
    assert!(matches!(parse("!"), Err(number_diff::Error::ParseError(_))));
    match parse("blah(x)") {
        Err(number_diff::Error::ParseError(message)) => assert!(message.contains("blah")),
        _ => panic!("expected a parse error"),
    }
}

#[test]
fn exact_evaluation_limits() {
    assert_eq!(value_at("1/x", 0), None);
    assert_eq!(value_at("1/x", 4), Number::from_parts(1, 4));
    assert_eq!(value_at("x^(-2)", 2), Number::from_parts(1, 4));
    assert_eq!(value_at("sin(x)", 1), None);
    assert_eq!(value_at("sin(x)", 0), Some(num(0)));
    assert_eq!(value_at("cosh(x)", 0), Some(num(1)));
    assert_eq!(value_at("ln(x)", 1), None);
    assert_eq!(value_at("21!", 0), None);
    assert_eq!(value_at("20!", 0), Some(num(2432902008176640000)));
}

#[test]
fn constants_inside_products() {
    let two_pi = parse("2pi").unwrap();
    assert_eq!(
        two_pi,
        Elementary::Mul(Arc::new(Elementary::Con(num(2))), Arc::new(Elementary::Pi))
    );
    assert_eq!(parse("pi*2").unwrap(), Elementary::Mul(Arc::new(Elementary::Pi), Arc::new(Elementary::Con(num(2)))));
    assert_eq!(parse("sec(x)").unwrap(), Elementary::Sec(Arc::new(Elementary::X)));
}

#[test]
fn split_first_at_delimiter() {
    let text: Vec<u8> = b"sin(x)".to_vec();
    let (head, tail) = number_diff::parse::split_first(&text, b'(');
    assert_eq!(head, b"sin".to_vec());
    assert_eq!(tail, b"(x)".to_vec());
    let (before, whole) = number_diff::parse::split_first(&text, b'#');
    assert!(before.is_empty());
    assert_eq!(whole, text);
}

#[test]
fn tokens_cover_the_text() {
    let text: Vec<u8> = b"2x+sin(x)^3!".to_vec();
    let spans = number_diff::parse::split_function(&text);
    let pieces: Vec<&[u8]> = spans.iter().map(|(a, b)| &text[*a..*b]).collect();
    assert_eq!(pieces, vec![&b"2"[..], b"x", b"+", b"sin(x)", b"^", b"3", b"!"]);
}

#[test]
fn number_arithmetic_is_exact() {
    let third = Number::from_parts(1, 3).unwrap();
    let sixth = Number::from_parts(1, 6).unwrap();
    assert_eq!(third.add(&sixth), Number::from_parts(1, 2));
    assert_eq!(third.sub(&sixth), Some(sixth));
    assert_eq!(third.mul(&sixth), Number::from_parts(1, 18));
    assert_eq!(third.div(&sixth), Some(num(2)));
    assert_eq!(third.div(&num(0)), None);
    assert_eq!(Number::from_parts(-6, 4), Some(Number { num: -3, den: 2 }));
    let big = num(i64::MAX);
    assert_eq!(big.add(&num(1)), None);
}

fn token_texts(text: &[u8]) -> Vec<Vec<u8>> {
    let bytes = text.to_vec();
    number_diff::parse::split_function(&bytes)
        .iter()
        .map(|(a, b)| bytes[*a..*b].to_vec())
        .collect()
}

#[test]
fn tokens_of_examples() {
    let expected: Vec<Vec<u8>> =
        vec![b"6".to_vec(), b"(4x+3)".to_vec(), b"/".to_vec(), b"(5x)".to_vec(), b"sin(x)".to_vec()];
    assert_eq!(token_texts(b"6(4x+3)/(5x)sin(x)"), expected);
    let expected: Vec<Vec<u8>> =
        vec![b"2".to_vec(), b"+".to_vec(), b"3.5".to_vec(), b"x".to_vec(), b"!".to_vec()];
    assert_eq!(token_texts(b"2+3.5x!"), expected);
    assert_eq!(token_texts(b"pi"), vec![b"pi".to_vec()]);
}

#[test]
fn single_byte_parses() {
    assert_eq!(parse("7").unwrap(), Elementary::Con(num(7)));
    assert!(matches!(parse("+"), Err(number_diff::Error::ParseError(_))));
    assert!(matches!(parse("   "), Err(number_diff::Error::ParseError(_))));
    assert!(matches!(parse("2+"), Err(number_diff::Error::ParseError(_))));
    assert_eq!(value_at("8/2*4", 0), Some(num(1)));
    assert_eq!(
        parse("-x").unwrap(),
        Elementary::Mul(Arc::new(Elementary::X), Arc::new(Elementary::Con(num(-1))))
    );
}

#[test]
fn short_texts_parse_exactly() {
    assert_eq!(
        parse("x!").unwrap(),
        Elementary::Factorial(Arc::new(Elementary::X))
    );
    assert_eq!(
        parse("2^x").unwrap(),
        Elementary::Pow(Arc::new(Elementary::Con(num(2))), Arc::new(Elementary::X))
    );
    assert_eq!(
        parse("e/3").unwrap(),
        Elementary::Div(Arc::new(Elementary::E), Arc::new(Elementary::Con(num(3))))
    );
    let two = || Arc::new(Elementary::Con(num(2)));
    let three = || Arc::new(Elementary::Con(num(3)));
    assert_eq!(
        parse("2^3^2").unwrap(),
        Elementary::Pow(two(), Arc::new(Elementary::Pow(three(), two())))
    );
}

#[test]
fn tokens_parse_case_insensitively() {
    let item = |t: &str| parse_function(&t.as_bytes().to_vec());
    let half = Elementary::Con(Number::from_parts(1, 2).unwrap());
    match item("SQRT(x)") {
        Ok(ElemRef::Function(e)) => {
            assert_eq!(e, Elementary::Pow(Arc::new(Elementary::X), Arc::new(half)))
        }
        _ => panic!("SQRT(x) did not parse"),
    }
    match item("ln(x)") {
        Ok(ElemRef::Function(e)) => {
            assert_eq!(e, Elementary::Log(Arc::new(Elementary::E), Arc::new(Elementary::X)))
        }
        _ => panic!("ln(x) did not parse"),
    }
    match item("((x))") {
        Ok(ElemRef::Function(e)) => assert_eq!(e, Elementary::X),
        _ => panic!("((x)) did not parse"),
    }
    match item("d(sin(x))") {
        Ok(ElemRef::Function(e)) => assert_eq!(
            e,
            Elementary::Mul(
                Arc::new(Elementary::Cos(Arc::new(Elementary::X))),
                Arc::new(Elementary::Con(num(1)))
            )
        ),
        _ => panic!("d(sin(x)) did not parse"),
    }
    match item("foo(x)") {
        Err(number_diff::Error::ParseError(message)) => assert!(message.contains("foo")),
        _ => panic!("foo(x) should not parse"),
    }
    match item("foo") {
        Err(number_diff::Error::ParseError(message)) => assert!(message.contains("foo")),
        _ => panic!("foo should not parse"),
    }
}
