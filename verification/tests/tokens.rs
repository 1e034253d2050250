use calculator::eval::{compute, Expr};
use calculator::lexer::{is_str_a_number, slice_to_token, string_to_token};
use calculator::shunting::infix_to_postfix;
use calculator::token::{
    is_add_or_sub, is_exponential, is_function, is_left_associative, is_mult_or_div,
    is_parenthesis, is_unary, same_precedence, takes_precedence, Error, MathFunction, Number,
    Token,
};

fn lit(s: &str) -> Token {
    Token::Operand(Number::Literal(String::from(s)))
}

#[test]
fn tokenizes_a_plain_expression() {
    assert_eq!(
        string_to_token("2+3*4"),
        Ok(vec![
            lit("2"),
            Token::Operator('+'),
            lit("3"),
            Token::Operator('*'),
            lit("4"),
        ])
    );
}

#[test]
fn tokenizes_negative_literal_at_start() {
    assert_eq!(
        string_to_token("-5+3"),
        Ok(vec![lit("-5"), Token::Operator('+'), lit("3")])
    );
}

#[test]
fn keeps_subtraction_after_a_digit() {
    assert_eq!(
        string_to_token("4-5"),
        Ok(vec![lit("4"), Token::Operator('-'), lit("5")])
    );
}

#[test]
fn absorbs_minus_after_a_space() {
    assert_eq!(string_to_token("2 -5"), Ok(vec![lit("2"), lit("-5")]));
}

#[test]
fn tokenizes_function_call_with_comma() {
    assert_eq!(
        string_to_token("max(3,5)"),
        Ok(vec![
            Token::Function(MathFunction::Max),
            Token::Punctuation('('),
            lit("3"),
            Token::Punctuation(','),
            lit("5"),
            Token::Punctuation(')'),
        ])
    );
}

#[test]
fn tokenize_reports_the_unresolved_slice() {
    assert_eq!(
        string_to_token("2+zz"),
        Err(Error::UnrecognizedToken(String::from("zz")))
    );
}

#[test]
fn slice_lookup_resolves_operators_and_functions() {
    assert_eq!(slice_to_token("+"), Some(Token::Operator('+')));
    assert_eq!(slice_to_token("mod"), Some(Token::Operator('%')));
    assert_eq!(slice_to_token("x"), Some(Token::Operator('*')));
    assert_eq!(slice_to_token("^"), Some(Token::Function(MathFunction::Pow)));
    assert_eq!(
        slice_to_token("pow"),
        Some(Token::Function(MathFunction::Pow))
    );
    assert_eq!(
        slice_to_token("e"),
        Some(Token::Function(MathFunction::Exp))
    );
    assert_eq!(
        slice_to_token("naturallog"),
        Some(Token::Function(MathFunction::Ln))
    );
    assert_eq!(
        slice_to_token("pi"),
        Some(Token::Operand(Number::Pi))
    );
    assert_eq!(
        slice_to_token("\u{3c0}"),
        Some(Token::Operand(Number::Pi))
    );
    assert_eq!(slice_to_token("("), Some(Token::Punctuation('(')));
}

#[test]
fn slice_lookup_resolves_numeric_literals() {
    assert_eq!(slice_to_token("-5"), Some(lit("-5")));
    assert_eq!(slice_to_token("3.25"), Some(lit("3.25")));
    assert_eq!(slice_to_token("5."), Some(lit("5.")));
}

#[test]
fn slice_lookup_rejects_everything_else() {
    assert_eq!(slice_to_token("foo"), None);
    assert_eq!(slice_to_token(" "), None);
    assert_eq!(slice_to_token(""), None);
    assert_eq!(slice_to_token("."), None);
    assert_eq!(slice_to_token("1.2.3"), None);
    assert_eq!(slice_to_token("5-3"), None);
}

#[test]
fn is_str_a_number_checks_the_character_shape_only() {
    assert!(is_str_a_number("12.5"));
    assert!(is_str_a_number("-4"));
    assert!(is_str_a_number(""));
    assert!(is_str_a_number("5-3"));
    assert!(is_str_a_number("1.2.3"));
    assert!(!is_str_a_number("-"));
    assert!(!is_str_a_number("abc"));
    assert!(!is_str_a_number("2a"));
}

#[test]
fn precedence_ladder() {
    let plus = Token::Operator('+');
    let minus = Token::Operator('-');
    let times = Token::Operator('*');
    let exp = Token::Function(MathFunction::Exp);
    let pow = Token::Function(MathFunction::Pow);
    let open = Token::Punctuation('(');
    assert!(takes_precedence(&times, &plus));
    assert!(!takes_precedence(&plus, &times));
    assert!(takes_precedence(&exp, &times));
    assert!(takes_precedence(&open, &exp));
    assert!(!takes_precedence(&pow, &plus));
    assert!(same_precedence(&plus, &minus));
    assert!(!same_precedence(&plus, &times));
    assert!(is_left_associative(&plus));
    assert!(!is_left_associative(&pow));
    assert!(is_parenthesis(&open));
    assert!(is_exponential(&exp));
    assert!(!is_exponential(&pow));
    assert!(is_mult_or_div(&times));
    assert!(is_add_or_sub(&minus));
    assert!(is_function(&pow));
    assert!(is_unary(&exp));
    assert!(!is_unary(&pow));
}

#[test]
fn converts_by_precedence() {
    let infix = vec![
        lit("2"),
        Token::Operator('+'),
        lit("3"),
        Token::Operator('*'),
        lit("4"),
    ];
    assert_eq!(
        infix_to_postfix(&infix),
        Ok(vec![
            lit("2"),
            lit("3"),
            lit("4"),
            Token::Operator('*'),
            Token::Operator('+'),
        ])
    );
}

#[test]
fn converts_pow_right_to_left() {
    let infix = vec![
        lit("2"),
        Token::Function(MathFunction::Pow),
        lit("3"),
        Token::Function(MathFunction::Pow),
        lit("2"),
    ];
    assert_eq!(
        infix_to_postfix(&infix),
        Ok(vec![
            lit("2"),
            lit("3"),
            lit("2"),
            Token::Function(MathFunction::Pow),
            Token::Function(MathFunction::Pow),
        ])
    );
}

#[test]
fn conversion_drops_parentheses() {
    let infix = vec![
        Token::Punctuation('('),
        lit("2"),
        Token::Operator('+'),
        lit("3"),
        Token::Punctuation(')'),
        Token::Operator('*'),
        lit("4"),
    ];
    assert_eq!(
        infix_to_postfix(&infix),
        Ok(vec![
            lit("2"),
            lit("3"),
            Token::Operator('+'),
            lit("4"),
            Token::Operator('*'),
        ])
    );
}

#[test]
fn compute_builds_the_application_tree() {
    let postfix = vec![lit("2"), lit("3"), Token::Operator('+')];
    assert_eq!(
        compute(&postfix),
        Ok(Expr::Binary(
            '+',
            Box::new(Expr::Literal(Number::Literal(String::from("2")))),
            Box::new(Expr::Literal(Number::Literal(String::from("3")))),
        ))
    );
}

#[test]
fn compute_orders_binary_operands() {
    let postfix = vec![lit("10"), lit("4"), Token::Operator('-')];
    match compute(&postfix) {
        Ok(Expr::Binary('-', a, b)) => {
            assert_eq!(*a, Expr::Literal(Number::Literal(String::from("10"))));
            assert_eq!(*b, Expr::Literal(Number::Literal(String::from("4"))));
        }
        other => panic!("unexpected tree: {:?}", other),
    }
}

#[test]
fn compute_rejects_an_empty_sequence() {
    assert_eq!(compute(&vec![]), Err(Error::MissingOperand));
}

#[test]
fn compute_rejects_leftover_operands() {
    let postfix = vec![lit("2"), lit("3")];
    assert_eq!(compute(&postfix), Err(Error::MissingOperand));
}

#[test]
fn compute_rejects_a_short_stack() {
    let postfix = vec![lit("1"), Token::Operator('+')];
    assert_eq!(compute(&postfix), Err(Error::MissingOperand));
}
