use number_diff::expr::Elementary;
use number_diff::functions::{derivative_of, sin, Function};
use number_diff::number::Number;
use number_diff::parse::parse;
use std::sync::Arc;

fn num(i: i64) -> Number {
    Number::from_int(i)
}

fn one() -> Arc<Elementary> {
    Arc::new(Elementary::Con(num(1)))
}

#[test]
fn derivative_of_sine_is_cosine() {
    let d = parse("sin(x)").unwrap().differentiate();
    assert_eq!(d, Elementary::Mul(Arc::new(Elementary::Cos(Arc::new(Elementary::X))), one()));
}

#[test]
fn derivative_of_hyperbolic_cosine_is_hyperbolic_sine() {
    let d = parse("cosh(x)").unwrap().differentiate();
    assert_eq!(d, Elementary::Mul(Arc::new(Elementary::Sinh(Arc::new(Elementary::X))), one()));
}

#[test]
fn derivative_of_hyperbolic_tangent() {
    let d = parse("tanh(x)").unwrap().differentiate();
    let cosh_squared = Elementary::Pow(
        Arc::new(Elementary::Cosh(Arc::new(Elementary::X))),
        Arc::new(Elementary::Con(num(2))),
    );
    assert_eq!(d, Elementary::Div(one(), Arc::new(cosh_squared)));
}

#[test]
fn derivatives_at_zero() {
    let zero = num(0);
    let sin = parse("sin(x)").unwrap().differentiate();
    assert_eq!(sin.evaluate_exact(&zero), Some(num(1)));
    let cosh = parse("cosh(x)").unwrap().differentiate();
    assert_eq!(cosh.evaluate_exact(&zero), Some(num(0)));
    let tanh = parse("tanh(x)").unwrap().differentiate();
    assert_eq!(tanh.evaluate_exact(&zero), Some(num(1)));
}

#[test]
fn derivative_of_tangent_uses_the_argument() {
    let d = parse("tan(2x)").unwrap().differentiate();
    match d {
        Elementary::Mul(a, _) => match &*a {
            Elementary::Div(_, b) => match &**b {
                Elementary::Pow(c, _) => {
                    assert_eq!(**c, Elementary::Cos(Arc::new(parse("2x").unwrap())))
                }
                _ => panic!("expected a power"),
            },
            _ => panic!("expected a quotient"),
        },
        _ => panic!("expected a product"),
    }
}

#[test]
fn polynomial_derivatives_have_exact_values() {
    let d = parse("x*x*x").unwrap().differentiate();
    assert_eq!(d.evaluate_exact(&num(2)), Some(num(12)));
    let q = parse("1/x").unwrap().differentiate();
    assert_eq!(q.evaluate_exact(&num(2)), Number::from_parts(-1, 4));
    let c = parse("7").unwrap().differentiate();
    assert_eq!(c, Elementary::Con(num(0)));
}

#[test]
fn factorial_derivative_uses_polygamma() {
    let d = parse("x!").unwrap().differentiate();
    let expected = Elementary::Mul(
        Arc::new(Elementary::Factorial(Arc::new(Elementary::X))),
        Arc::new(Elementary::Polygamma(
            Arc::new(Elementary::Add(Arc::new(Elementary::X), one())),
            0,
        )),
    );
    assert_eq!(d, expected);
    let p = Elementary::Polygamma(Arc::new(Elementary::X), 3).differentiate();
    assert_eq!(p, Elementary::Polygamma(Arc::new(Elementary::X), 4));
}

#[test]
fn simplified_derivative_of_polynomial() {
    let d = parse("x^3 + 2x").unwrap().derivative().unwrap();
    // 3x^2 + 2
    assert_eq!(d.evaluate_exact(&num(1)), Some(num(5)));
    assert_eq!(d.evaluate_exact(&num(-2)), Some(num(14)));
}

#[test]
fn function_wrapper() {
    let mut f = Function::parse("x*x").unwrap();
    f.differentiate().unwrap();
    assert_eq!(f.elementary().evaluate_exact(&num(3)), Some(num(6)));
    let g = derivative_of(&sin(Function::identity()));
    assert_eq!(g.func, Elementary::Mul(Arc::new(Elementary::Cos(Arc::new(Elementary::X))), one()));
    let cloned = g.func.clone();
    assert_eq!(cloned, g.func);
    assert_eq!(Function::default().func, Elementary::X);
}
