use calculator::process;
use calculator::token::Error;

#[test]
fn unclosed_parenthesis_is_mismatched() {
    assert_eq!(process("(1+2"), Err(Error::MismatchedParenthesis));
}

#[test]
fn stray_close_parenthesis_is_mismatched() {
    assert_eq!(process("1+2)"), Err(Error::MismatchedParenthesis));
}

#[test]
fn trailing_operator_is_missing_operand() {
    assert_eq!(process("1+"), Err(Error::MissingOperand));
}

#[test]
fn unknown_word_is_unrecognized() {
    assert_eq!(
        process("foo(1)"),
        Err(Error::UnrecognizedToken(String::from("foo")))
    );
}

#[test]
fn comma_outside_parentheses_is_misplaced() {
    assert_eq!(process("1,2"), Err(Error::MisplacedComma));
}

#[test]
fn error_carries_the_whole_offending_slice() {
    assert_eq!(
        process("2+napierconstant"),
        Err(Error::UnrecognizedToken(String::from("napierconstant")))
    );
    assert_eq!(
        process("2&3"),
        Err(Error::UnrecognizedToken(String::from("&")))
    );
}

#[test]
fn doubled_decimal_point_is_unrecognized() {
    assert_eq!(
        process("1.2.3"),
        Err(Error::UnrecognizedToken(String::from("1.2.3")))
    );
}

#[test]
fn lone_decimal_point_is_unrecognized() {
    assert_eq!(
        process(".5"),
        Err(Error::UnrecognizedToken(String::from(".")))
    );
}

#[test]
fn empty_line_is_missing_operand() {
    assert_eq!(process(""), Err(Error::MissingOperand));
}

#[test]
fn two_operands_without_operator_are_missing_operand() {
    assert_eq!(process("2 -5"), Err(Error::MissingOperand));
}

#[test]
fn lone_function_is_missing_operand() {
    assert_eq!(process("sqrt"), Err(Error::MissingOperand));
    assert_eq!(process("max(1)"), Err(Error::MissingOperand));
}

#[test]
fn tab_is_unrecognized() {
    assert_eq!(
        process("1\t2"),
        Err(Error::UnrecognizedToken(String::from("\t")))
    );
}
