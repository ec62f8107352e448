use number_diff::combinatorics::{generate_combinations, multinomial_coefficient};
use number_diff::expr::Elementary;
use number_diff::functions::Function;
use number_diff::integration::Integral;
use number_diff::number::Number;
use number_diff::parse::parse;
use number_diff::polynomial::coefficients;
use number_diff::series::{taylor_from_values, SeriesExpansion};
use number_diff::Error;

fn num(i: i64) -> Number {
    Number::from_int(i)
}

fn factorial(k: i64) -> i64 {
    (1..=k).product()
}

#[test]
fn ensure_equality() {
    let sin = Function::parse("sin(x)").unwrap();
    let expansion = sin.get_taylor_expansion(5, num(0)).unwrap();
    // the values of sin and its first five derivatives at zero
    let values: Vec<Number> = [0, 1, 0, -1, 0, 1].iter().map(|v| num(*v)).collect();
    let tree = expansion.get_elementary();
    let c = coefficients(&tree).unwrap();
    assert_eq!(c.len(), 6);
    for k in 0..6 {
        // the k-th derivative at zero of sum c_i x^i is k! c_k
        let scaled = c[k].mul(&num(factorial(k as i64))).unwrap();
        assert_eq!(scaled, values[k], "order {}", k);
    }
}

#[test]
fn taylor_of_polynomial_reproduces_it() {
    let f = parse("x*x*x - 2x + 1").unwrap();
    let s = f.expand_taylor(4, num(1)).unwrap();
    let t = s.get_elementary();
    for i in -5..6 {
        assert_eq!(t.evaluate_exact(&num(i)), f.evaluate_exact(&num(i)));
    }
    let m = f.expand_maclaurin(3).unwrap();
    assert!(matches!(m, SeriesExpansion::MacLaurin(_)));
    let g = m.get_function();
    assert_eq!(g.func.evaluate_exact(&num(2)), f.evaluate_exact(&num(2)));
}

#[test]
fn taylor_without_exact_values_fails() {
    let f = parse("ln(x+2)").unwrap();
    assert!(matches!(f.expand_taylor(3, num(0)), Err(Error::ExpansionError(_))));
    let g = parse("sin(x)").unwrap();
    assert!(matches!(g.expand_taylor(21, num(0)), Err(Error::ExpansionError(_))));
    assert!(matches!(g.expand_taylor(2, num(1)), Err(Error::ExpansionError(_))));
}

#[test]
fn taylor_from_given_values() {
    // the values of sin and its first five derivatives at zero
    let values: Vec<Number> = [0, 1, 0, -1, 0, 1].iter().map(|v| num(*v)).collect();
    let from_values = taylor_from_values(&values, num(0)).unwrap().get_elementary();
    let direct = parse("sin(x)").unwrap().expand_taylor(5, num(0)).unwrap().get_elementary();
    assert_eq!(from_values, direct);
}

#[test]
fn taylor_from_values_about_a_centre() {
    // e^x about 1 with all derivatives equal to 3: 3 + 3(x-1) + 3(x-1)^2/2
    let values = vec![num(3), num(3), num(3)];
    let t = taylor_from_values(&values, num(1)).unwrap().get_elementary();
    assert_eq!(t.evaluate_exact(&num(1)), Some(num(3)));
    assert_eq!(t.evaluate_exact(&num(3)), Some(num(15)));
}

#[test]
fn multinomial_coefficients() {
    assert_eq!(multinomial_coefficient(3, &vec![1, 2]), 3);
    assert_eq!(multinomial_coefficient(4, &vec![2, 1, 1]), 12);
    assert_eq!(multinomial_coefficient(5, &vec![5, 0]), 1);
}

#[test]
fn compositions_are_complete_and_distinct() {
    let c = generate_combinations(3, 2);
    assert_eq!(c.len(), 6);
    for v in &c {
        assert_eq!(v.len(), 3);
        assert_eq!(v.iter().sum::<usize>(), 2);
    }
    for i in 0..c.len() {
        for j in i + 1..c.len() {
            assert_ne!(c[i], c[j]);
        }
    }
    assert_eq!(generate_combinations(2, 0), vec![vec![0, 0]]);
    assert_eq!(generate_combinations(1, 4), vec![vec![4]]);
}

#[test]
fn integral_needs_bounds() {
    let f = parse("cos(x)").unwrap();
    let mut integral = f.integrate();
    assert!(matches!(integral.evaluate(), Err(Error::InternalError(_))));
    integral.set_lower_bound(num(0));
    assert!(matches!(integral.evaluate(), Err(Error::InternalError(_))));
    integral.set_upper_bound(num(2));
    let plan = integral.evaluate().unwrap();
    assert_eq!(plan.nodes.len(), 2001);
    assert_eq!(plan.step, Number::from_parts(1, 1000).unwrap());
}

#[test]
fn simpson_plan_nodes_and_weights() {
    let mut integral = Integral::vacant(Elementary::X);
    integral.set_lower_bound(num(1));
    integral.set_upper_bound(num(3));
    integral.set_precision(2);
    let plan = integral.evaluate().unwrap();
    assert_eq!(plan.weights, vec![1, 4, 2, 4, 1]);
    assert_eq!(plan.nodes, vec![num(1), Number::from_parts(3, 2).unwrap(), num(2), Number::from_parts(5, 2).unwrap(), num(3)]);
    // Simpson's rule is exact on x: (step / 3) * sum = 4
    let mut sum = num(0);
    for (x, w) in plan.nodes.iter().zip(plan.weights.iter()) {
        sum = sum.add(&x.mul(&num(*w as i64)).unwrap()).unwrap();
    }
    let value = sum.mul(&plan.step).unwrap().div(&num(3)).unwrap();
    assert_eq!(value, num(4));
    integral.set_precision(0);
    assert!(integral.evaluate().is_err());
}
