use number_diff::classification::Category;
use number_diff::expr::Elementary;
use number_diff::number::Number;
use number_diff::parse::parse;
use number_diff::polynomial::{coefficients, simplify_polynomial};
use number_diff::Error;
use std::sync::Arc;

fn num(i: i64) -> Number {
    Number::from_int(i)
}

fn coefficient_list(text: &str) -> Vec<Number> {
    coefficients(&parse(text).unwrap()).unwrap()
}

#[test]
fn cube_of_binomial_normalizes() {
    let f = parse("(x+1)^3").unwrap();
    assert_eq!(f.classify(), Category::Polynomial);
    let coefficients = coefficient_list("(x+1)^3");
    assert_eq!(coefficients, vec![num(1), num(3), num(3), num(1)]);
    let g = f.simplify().unwrap();
    assert_eq!(g.evaluate_exact(&num(3)), Some(num(64)));
    // 1x^3 + 3x^2 + 3x + 1, highest degree outermost
    let x = || Arc::new(Elementary::X);
    let c = |i: i64| Arc::new(Elementary::Con(num(i)));
    let expected = Elementary::Add(
        Arc::new(Elementary::Mul(c(1), Arc::new(Elementary::Pow(x(), c(3))))),
        Arc::new(Elementary::Add(
            Arc::new(Elementary::Mul(c(3), Arc::new(Elementary::Pow(x(), c(2))))),
            Arc::new(Elementary::Add(
                Arc::new(Elementary::Mul(c(3), Arc::new(Elementary::Pow(x(), c(1))))),
                c(1),
            )),
        )),
    );
    assert_eq!(g, expected);
}

#[test]
fn simplification_keeps_values_on_probes() {
    for text in ["(x+1)^3 - 2x", "x*(x-2)*(x+5)/4", "(2x-1)^4", "3 - x + x^2/2"] {
        let f = parse(text).unwrap();
        let g = f.simplify().unwrap();
        for i in -1000..=1000 {
            let x = num(i);
            if let (Some(a), Some(b)) = (f.evaluate_exact(&x), g.evaluate_exact(&x)) {
                assert_eq!(a, b, "{} differs at {}", text, i);
            }
        }
    }
}

#[test]
fn simplification_is_idempotent() {
    for text in ["(x+1)^3", "x*(x-2)*(x+5)/4", "x - x", "2x/2", "(x^2+1)^2 - x^4"] {
        let once = parse(text).unwrap().simplify().unwrap();
        let twice = once.simplify().unwrap();
        assert_eq!(once, twice, "{}", text);
    }
}

#[test]
fn cancelled_terms_leave_a_constant() {
    let g = parse("2 + x - x").unwrap().simplify().unwrap();
    assert_eq!(g, Elementary::Con(num(2)));
    // sums are reduced before differences: x - x + 2 reads x - (x + 2)
    let h = parse("x - x + 2").unwrap().simplify().unwrap();
    assert_eq!(h, Elementary::Con(num(-2)));
}

#[test]
fn rational_polynomial_is_refused() {
    let f = parse("x/(x+1)").unwrap();
    assert!(matches!(simplify_polynomial(f), Err(Error::SimplifyError(_, _))));
}

#[test]
fn division_by_zero_constant_is_refused() {
    let f = parse("x/0").unwrap();
    assert_eq!(f.classify(), Category::Polynomial);
    assert!(f.simplify().is_err());
}

#[test]
fn constants_are_folded_exactly() {
    assert_eq!(parse("2^10 - 24").unwrap().simplify().unwrap(), Elementary::Con(num(1000)));
    assert_eq!(
        parse("1/3 + 1/6").unwrap().simplify().unwrap(),
        Elementary::Con(Number::from_parts(1, 2).unwrap())
    );
    // e and pi have no exact value and stay as they are
    assert_eq!(parse("pi").unwrap().simplify().unwrap(), Elementary::Pi);
    assert!(parse("x").unwrap().simplify_constant().is_err());
}

#[test]
fn categories() {
    assert_eq!(parse("3+4").unwrap().classify(), Category::Constant);
    assert_eq!(parse("2^(3x)").unwrap().classify(), Category::Exponential);
    assert_eq!(parse("2^x").unwrap().classify(), Category::Exponential);
    assert_eq!(parse("x^2+1").unwrap().classify(), Category::Polynomial);
    assert_eq!(parse("sin(x)cos(x)").unwrap().classify(), Category::Trigonometric);
    assert_eq!(parse("abs(x)").unwrap().classify(), Category::Unclassified);
    assert!(Elementary::Con(num(4)).is_digit());
    assert!(!Elementary::Con(Number::from_parts(1, 2).unwrap()).is_digit());
}

#[test]
fn trigonometric_and_exponential_stay() {
    let f = parse("sin(x)+cos(x)").unwrap();
    assert_eq!(f.simplify().unwrap(), f);
    let g = parse("3*2^x").unwrap();
    assert_eq!(g.simplify().unwrap(), g);
}

#[test]
fn quotient_cancels_common_factors() {
    let f = parse("(x*abs(x))/x").unwrap();
    let g = f.divide().unwrap();
    assert_eq!(g, parse("abs(x)").unwrap());
    assert!(matches!(parse("x+1").unwrap().divide(), Err(Error::SimplifyError(_, _))));
}

#[test]
fn factors_of_products_and_sums() {
    let f = parse("2*x*abs(x)").unwrap();
    let factors = f.factor().unwrap();
    assert_eq!(factors.len(), 3);
    let g = parse("abs(x)").unwrap();
    assert_eq!(g.factor().unwrap(), vec![g.clone()]);
}

#[test]
fn unclassified_expressions_are_simplified_by_parts() {
    let f = parse("abs(x)*(2+3)").unwrap();
    let g = f.simplify().unwrap();
    assert_eq!(g, parse("abs(x)*5").unwrap());
    let h = parse("abs(x)^1").unwrap().simplify().unwrap();
    assert_eq!(h, parse("abs(x)").unwrap());
}

#[test]
fn normalizer_overflow_is_an_error() {
    let f = parse("(1000000x+1)^5").unwrap();
    assert!(f.simplify().is_err());
}

#[test]
fn zero_by_zero_fails_the_check() {
    assert!(matches!(parse("sin(0/0)").unwrap().simplify(), Err(Error::InternalError(_))));
    assert!(matches!(parse("sin(x/x)").unwrap().simplify(), Err(Error::InternalError(_))));
    assert!(parse("sin(x)/x").unwrap().simplify().is_err());
    assert_eq!(parse("sin(x)").unwrap().simplify().unwrap(), parse("sin(x)").unwrap());
}
