use calculator::eval::Expr;
use calculator::process;
use calculator::token::{Error, MathFunction, Number};

fn num_value(n: &Number) -> f64 {
    match n {
        Number::Literal(s) => s.parse::<f64>().unwrap(),
        Number::Pi => std::f64::consts::PI,
    }
}

fn fold(e: &Expr) -> f64 {
    match e {
        Expr::Literal(n) => num_value(n),
        Expr::Unary(f, a) => {
            let x = fold(a);
            match f {
                MathFunction::Sqrt => x.sqrt(),
                MathFunction::Exp => x.exp(),
                MathFunction::Log => x.log10(),
                MathFunction::Ln => x.ln(),
                MathFunction::Abs => x.abs(),
                MathFunction::Floor => x.floor(),
                MathFunction::Sin => x.sin(),
                MathFunction::Cos => x.cos(),
                MathFunction::Tan => x.tan(),
                MathFunction::Asin => x.asin(),
                MathFunction::Acos => x.acos(),
                MathFunction::Atan => x.atan(),
                _ => panic!("one-argument node carries a two-argument function"),
            }
        }
        Expr::Binary(c, a, b) => {
            let x = fold(a);
            let y = fold(b);
            match c {
                '+' => x + y,
                '-' => x - y,
                '*' => x * y,
                '/' => x / y,
                '%' => x % y,
                _ => panic!("unknown operator"),
            }
        }
        Expr::Call(f, a, b) => {
            let x = fold(a);
            let y = fold(b);
            match f {
                MathFunction::Pow => x.powf(y),
                MathFunction::Max => x.max(y),
                MathFunction::Min => x.min(y),
                _ => panic!("two-argument node carries a one-argument function"),
            }
        }
    }
}

fn eval_line(s: &str) -> Result<f64, Error> {
    match process(s) {
        Ok(e) => Ok(fold(&e)),
        Err(e) => Err(e),
    }
}

fn close(a: f64, b: f64) -> bool {
    (a - b).abs() < 1e-9
}

#[test]
fn precedence_multiplication_first() {
    assert_eq!(eval_line("2+3*4"), Ok(14.0));
}

#[test]
fn precedence_parentheses_first() {
    assert_eq!(eval_line("(2+3)*4"), Ok(20.0));
}

#[test]
fn pow_is_right_associative() {
    assert_eq!(eval_line("2^3^2"), Ok(512.0));
}

#[test]
fn max_binds_its_arguments() {
    assert_eq!(eval_line("max(3,5)"), Ok(5.0));
}

#[test]
fn sqrt_binds_its_argument() {
    assert_eq!(eval_line("sqrt(16)"), Ok(4.0));
}

#[test]
fn leading_minus_is_a_negative_literal() {
    assert_eq!(eval_line("-5+3"), Ok(-2.0));
}

#[test]
fn minus_after_digit_is_subtraction() {
    assert_eq!(eval_line("4-5"), Ok(-1.0));
}

#[test]
fn pi_word_evaluates_to_pi() {
    assert_eq!(eval_line("pi"), Ok(std::f64::consts::PI));
}

#[test]
fn pi_symbol_evaluates_to_pi() {
    assert_eq!(eval_line("\u{3c0}"), Ok(std::f64::consts::PI));
    assert_eq!(eval_line("pi"), eval_line("\u{3c0}"));
}

#[test]
fn rerunning_a_line_gives_the_same_tree_and_value() {
    for line in ["2+3*4", "max(3,5)", "-5+3", "(1", "sqrt(16)+pi"] {
        let first = process(line);
        let second = process(line);
        assert_eq!(first, second);
        if let (Ok(a), Ok(b)) = (process(line), process(line)) {
            assert_eq!(fold(&a).to_bits(), fold(&b).to_bits());
        }
    }
}

#[test]
fn parenthesized_arithmetic_samples() {
    assert_eq!(eval_line("(1+2)*(3+4)"), Ok(21.0));
    assert_eq!(eval_line("((2*3)+(10/4))"), Ok(8.5));
    assert_eq!(eval_line("(10-(2+3))"), Ok(5.0));
    assert_eq!(eval_line("(7%(2*2))"), Ok(3.0));
}

#[test]
fn double_minus_subtracts_a_negative_literal() {
    assert_eq!(eval_line("3--5"), Ok(8.0));
}

#[test]
fn negative_literal_inside_function_arguments() {
    assert_eq!(eval_line("max(-3,5)"), Ok(5.0));
}

#[test]
fn minus_after_close_parenthesis_is_subtraction() {
    assert_eq!(eval_line("(2+3)-5"), Ok(0.0));
}

#[test]
fn division_and_remainder() {
    assert_eq!(eval_line("1/2"), Ok(0.5));
    assert_eq!(eval_line("10%3"), Ok(1.0));
    assert_eq!(eval_line("7 mod 4"), Ok(3.0));
}

#[test]
fn multiplication_spellings_agree() {
    assert_eq!(eval_line("3x4"), Ok(12.0));
    assert_eq!(eval_line("3\u{d7}4"), Ok(12.0));
    assert_eq!(eval_line("3\u{22c5}4"), Ok(12.0));
    assert_eq!(eval_line("12\u{f7}4"), Ok(3.0));
    assert_eq!(eval_line("10\u{2212}4"), Ok(6.0));
}

#[test]
fn unary_functions_apply() {
    assert_eq!(eval_line("abs(-3)"), Ok(3.0));
    assert_eq!(eval_line("floor(2.7)"), Ok(2.0));
    assert!(close(eval_line("sin(0)").unwrap(), 0.0));
    assert!(close(eval_line("cos(0)").unwrap(), 1.0));
    assert!(close(eval_line("ln(e(1))").unwrap(), 1.0));
    assert!(close(eval_line("log(100)").unwrap(), 2.0));
    assert!(close(eval_line("atan(1)").unwrap(), std::f64::consts::PI / 4.0));
}

#[test]
fn long_function_names_resolve() {
    assert_eq!(eval_line("squareroot(25)"), Ok(5.0));
    assert_eq!(eval_line("absolutevalue(-8)"), Ok(8.0));
    assert_eq!(eval_line("power(2,10)"), Ok(1024.0));
}

#[test]
fn decimal_literals() {
    assert_eq!(eval_line("1.5+2.25"), Ok(3.75));
    assert_eq!(eval_line("2."), Ok(2.0));
}

#[test]
fn division_by_zero_follows_float_semantics() {
    assert_eq!(eval_line("1/0"), Ok(f64::INFINITY));
    assert!(eval_line("0/0").unwrap().is_nan());
}

#[test]
fn exponential_outranks_multiplicative_operators() {
    // `e` is its own precedence tier below parentheses, so it is applied
    // before a following additive operator.
    assert!(close(eval_line("e1+2").unwrap(), std::f64::consts::E + 2.0));
    assert!(close(eval_line("e1*2").unwrap(), std::f64::consts::E * 2.0));
}

#[test]
fn caret_without_parentheses_waits_for_the_whole_tail() {
    // `^` is a function, not an operator tier: it is only resolved at a
    // closing parenthesis or at the end of input, so the tail is grouped
    // into its exponent first.
    assert_eq!(eval_line("2^3+1"), Ok(16.0));
    assert_eq!(eval_line("(2^3)+1"), Ok(9.0));
}

#[test]
fn spaces_are_discarded() {
    assert_eq!(eval_line("  2 +  3 * 4 "), Ok(14.0));
}
