use vstd::prelude::*;

verus! {

/// A named mathematical function recognised by the lexer.
///
/// `Pow`, `Max` and `Min` take two arguments; every other function takes one
/// (see `spec_is_unary`).  `Exp` additionally acts as its own precedence tier
/// in the infix-to-postfix conversion, sitting between parentheses and the
/// multiplicative operators.
#[derive(Debug, Clone, Copy, PartialEq, Eq, Structural)]
pub enum MathFunction {
    Pow,
    Max,
    Min,
    Sqrt,
    Exp,
    Log,
    Ln,
    Abs,
    Floor,
    Sin,
    Cos,
    Tan,
    Asin,
    Acos,
    Atan,
}

/// The numeric payload of an operand token.
///
/// A literal keeps exactly the characters of its slice: an optional leading
/// `-`, then digits with at most one `.` (see `spec_is_number_literal`).  The
/// constant pi is kept symbolically.  Folding either into a machine number is
/// left to the unverified shell around the library, so no floating-point value
/// ever appears here.
#[derive(Debug, PartialEq)]
pub enum Number {
    Literal(String),
    Pi,
}

/// Mathematical model of `Number`: a literal is its character sequence.
pub enum SpecNumber {
    Literal(Seq<char>),
    Pi,
}

impl View for Number {
    type V = SpecNumber;

    open spec fn view(&self) -> SpecNumber {
        match self {
            Number::Literal(s) => SpecNumber::Literal(s@),
            Number::Pi => SpecNumber::Pi,
        }
    }
}

/// One lexical token of an expression.
///
/// An `Operator` carries one of `+ - * / %`; a `Punctuation` carries one of
/// `( ) ,` (see `spec_wf_token`).  A lookup failure is reported through
/// `Option`/`Result`, never through a sentinel token, so a finished token
/// sequence contains only meaningful tokens.
#[derive(Debug, PartialEq)]
pub enum Token {
    Operand(Number),
    Operator(char),
    Function(MathFunction),
    Punctuation(char),
}

/// Mathematical model of `Token`.
pub enum SpecToken {
    Operand(SpecNumber),
    Operator(char),
    Function(MathFunction),
    Punctuation(char),
}

impl View for Token {
    type V = SpecToken;

    open spec fn view(&self) -> SpecToken {
        match self {
            Token::Operand(n) => SpecToken::Operand(n@),
            Token::Operator(c) => SpecToken::Operator(*c),
            Token::Function(f) => SpecToken::Function(*f),
            Token::Punctuation(c) => SpecToken::Punctuation(*c),
        }
    }
}

/// Why an evaluation was abandoned; each stage of the pipeline reports the
/// first of these that its input forces.
#[derive(Debug, PartialEq)]
pub enum Error {
    /// A lexical slice that resolves to no token; carries the offending text.
    UnrecognizedToken(String),
    /// A `)` with no matching `(`, or a `(` still open at the end of input.
    MismatchedParenthesis,
    /// A `,` with no enclosing open parenthesis.
    MisplacedComma,
    /// An operator or function found too few operands, or the final operand
    /// stack did not hold exactly one value.
    MissingOperand,
}

/// Mathematical model of `Error`.
pub enum SpecError {
    UnrecognizedToken(Seq<char>),
    MismatchedParenthesis,
    MisplacedComma,
    MissingOperand,
}

impl View for Error {
    type V = SpecError;

    open spec fn view(&self) -> SpecError {
        match self {
            Error::UnrecognizedToken(s) => SpecError::UnrecognizedToken(s@),
            Error::MismatchedParenthesis => SpecError::MismatchedParenthesis,
            Error::MisplacedComma => SpecError::MisplacedComma,
            Error::MissingOperand => SpecError::MissingOperand,
        }
    }
}

/// The model of a whole token vector.
pub open spec fn toks_view(ts: Seq<Token>) -> Seq<SpecToken> {
    ts.map_values(|t: Token| t@)
}

pub proof fn lemma_toks_view_push(ts: Seq<Token>, t: Token)
    ensures
        toks_view(ts.push(t)) == toks_view(ts).push(t@),
{
    assert(toks_view(ts.push(t)) =~= toks_view(ts).push(t@));
}

pub proof fn lemma_toks_view_drop_last(ts: Seq<Token>)
    requires
        ts.len() > 0,
    ensures
        toks_view(ts.drop_last()) == toks_view(ts).drop_last(),
{
    assert(toks_view(ts.drop_last()) =~= toks_view(ts).drop_last());
}

/// Remakes a token that is observably the same as `t`.
pub fn own_token(t: &Token) -> (r: Token)
    ensures
        r@ == t@,
{
    match t {
        Token::Operand(n) => Token::Operand(own_number(n)),
        Token::Operator(c) => Token::Operator(*c),
        Token::Function(f) => Token::Function(*f),
        Token::Punctuation(c) => Token::Punctuation(*c),
    }
}

/// Remakes a number that is observably the same as `n`.
pub fn own_number(n: &Number) -> (r: Number)
    ensures
        r@ == n@,
{
    match n {
        Number::Literal(s) => Number::Literal(String::from_str(s.as_str())),
        Number::Pi => Number::Pi,
    }
}

/// A decimal digit, as the lexer classifies characters.
pub open spec fn spec_is_digit_char(c: char) -> bool {
    '0' <= c && c <= '9'
}

/// A numeric literal with its sign stripped.
pub open spec fn literal_body(s: Seq<char>) -> Seq<char> {
    if s.len() > 0 && s[0] == '-' {
        s.skip(1)
    } else {
        s
    }
}

/// The shape of a numeric literal that resolves to an operand: an optional
/// leading `-`, then at least one digit and at most one `.`.
pub open spec fn spec_is_number_literal(s: Seq<char>) -> bool {
    &&& forall|i: int|
        0 <= i < literal_body(s).len() ==> spec_is_digit_char(#[trigger] literal_body(s)[i])
            || literal_body(s)[i] == '.'
    &&& count_char(literal_body(s), '.') <= 1
    &&& literal_body(s).len() > count_char(literal_body(s), '.')
}

/// How many times `c` occurs in `s`.
pub open spec fn count_char(s: Seq<char>, c: char) -> int
    decreases s.len(),
{
    if s.len() == 0 {
        0
    } else {
        count_char(s.drop_last(), c) + if s.last() == c {
            1int
        } else {
            0int
        }
    }
}

/// A token that the lexer can emit: operators are `+ - * / %` and punctuation
/// is `( ) ,`; an operand literal has the numeric shape.
pub open spec fn spec_wf_token(t: SpecToken) -> bool {
    match t {
        SpecToken::Operand(n) => match n {
            SpecNumber::Literal(s) => spec_is_number_literal(s),
            SpecNumber::Pi => true,
        },
        SpecToken::Operator(c) => c == '+' || c == '-' || c == '*' || c == '/' || c == '%',
        SpecToken::Function(_) => true,
        SpecToken::Punctuation(c) => c == '(' || c == ')' || c == ',',
    }
}

/// A token that may appear in a finished postfix sequence: well formed and
/// not punctuation.
pub open spec fn postfix_token_ok(t: SpecToken) -> bool {
    spec_wf_token(t) && !(t is Punctuation)
}

/// The invariant of a finished postfix sequence: every token is well formed
/// and structural punctuation never reaches it.
pub open spec fn spec_evaluable(ts: Seq<SpecToken>) -> bool {
    forall|i: int| 0 <= i < ts.len() ==> postfix_token_ok(#[trigger] ts[i])
}

pub open spec fn spec_is_unary(t: SpecToken) -> bool {
    match t {
        SpecToken::Function(f) => f != MathFunction::Pow && f != MathFunction::Max && f
            != MathFunction::Min,
        _ => false,
    }
}

/// Whether a token consumes one operand when a postfix sequence is evaluated.
pub fn is_unary(token: &Token) -> (r: bool)
    ensures
        r == spec_is_unary(token@),
{
    match token {
        Token::Function(MathFunction::Sqrt) => true,
        Token::Function(MathFunction::Exp) => true,
        Token::Function(MathFunction::Log) => true,
        Token::Function(MathFunction::Ln) => true,
        Token::Function(MathFunction::Abs) => true,
        Token::Function(MathFunction::Floor) => true,
        Token::Function(MathFunction::Sin) => true,
        Token::Function(MathFunction::Cos) => true,
        Token::Function(MathFunction::Tan) => true,
        Token::Function(MathFunction::Asin) => true,
        Token::Function(MathFunction::Acos) => true,
        Token::Function(MathFunction::Atan) => true,
        _ => false,
    }
}

pub open spec fn spec_is_function(t: SpecToken) -> bool {
    t is Function
}

/// Whether a token is a named function.
pub fn is_function(f: &Token) -> (r: bool)
    ensures
        r == spec_is_function(f@),
{
    match f {
        Token::Function(_) => true,
        _ => false,
    }
}

pub open spec fn spec_is_parenthesis(t: SpecToken) -> bool {
    t == SpecToken::Punctuation('(') || t == SpecToken::Punctuation(')')
}

/// Whether a token is an open or close parenthesis: the highest precedence
/// tier of the conversion.
pub fn is_parenthesis(o: &Token) -> (r: bool)
    ensures
        r == spec_is_parenthesis(o@),
{
    match o {
        Token::Punctuation(c) => *c == '(' || *c == ')',
        _ => false,
    }
}

pub open spec fn spec_is_exponential(t: SpecToken) -> bool {
    t == SpecToken::Function(MathFunction::Exp)
}

/// Whether a token is the exponential function, which the conversion treats
/// as its own precedence tier between parentheses and `* / %`.
pub fn is_exponential(o: &Token) -> (r: bool)
    ensures
        r == spec_is_exponential(o@),
{
    match o {
        Token::Function(MathFunction::Exp) => true,
        _ => false,
    }
}

pub open spec fn spec_is_mult_or_div(t: SpecToken) -> bool {
    t == SpecToken::Operator('*') || t == SpecToken::Operator('/') || t == SpecToken::Operator('%')
}

/// Whether a token sits in the multiplicative precedence tier (`* / %`).
pub fn is_mult_or_div(o: &Token) -> (r: bool)
    ensures
        r == spec_is_mult_or_div(o@),
{
    match o {
        Token::Operator(c) => *c == '*' || *c == '/' || *c == '%',
        _ => false,
    }
}

pub open spec fn spec_is_add_or_sub(t: SpecToken) -> bool {
    t == SpecToken::Operator('+') || t == SpecToken::Operator('-')
}

/// Whether a token sits in the additive precedence tier (`+ -`).
pub fn is_add_or_sub(o: &Token) -> (r: bool)
    ensures
        r == spec_is_add_or_sub(o@),
{
    match o {
        Token::Operator(c) => *c == '+' || *c == '-',
        _ => false,
    }
}

/// The precedence ladder, high to low: parentheses, then the exponential
/// function, then `* / %`, then `+ -`.  `o1` takes precedence over `o2` when
/// it sits in a strictly higher tier; a token outside every tier (an operand,
/// a comma, or any function other than the exponential) takes precedence over
/// nothing.
pub open spec fn spec_takes_precedence(o1: SpecToken, o2: SpecToken) -> bool {
    if spec_is_parenthesis(o1) {
        !spec_is_parenthesis(o2)
    } else if spec_is_exponential(o1) {
        !(spec_is_parenthesis(o2) || spec_is_exponential(o2))
    } else if spec_is_mult_or_div(o1) {
        !(spec_is_parenthesis(o2) || spec_is_exponential(o2) || spec_is_mult_or_div(o2))
    } else if spec_is_add_or_sub(o1) {
        !(spec_is_parenthesis(o2) || spec_is_exponential(o2) || spec_is_mult_or_div(o2)
            || spec_is_add_or_sub(o2))
    } else {
        false
    }
}

/// Whether `o1` sits in a strictly higher precedence tier than `o2`.
pub fn takes_precedence(o1: &Token, o2: &Token) -> (r: bool)
    ensures
        r == spec_takes_precedence(o1@, o2@),
{
    if is_parenthesis(o1) {
        !is_parenthesis(o2)
    } else if is_exponential(o1) {
        !(is_parenthesis(o2) || is_exponential(o2))
    } else if is_mult_or_div(o1) {
        !(is_parenthesis(o2) || is_exponential(o2) || is_mult_or_div(o2))
    } else if is_add_or_sub(o1) {
        !(is_parenthesis(o2) || is_exponential(o2) || is_mult_or_div(o2) || is_add_or_sub(o2))
    } else {
        false
    }
}

pub open spec fn spec_same_precedence(o1: SpecToken, o2: SpecToken) -> bool {
    ||| (spec_is_parenthesis(o1) && spec_is_parenthesis(o2))
    ||| (spec_is_exponential(o1) && spec_is_exponential(o2))
    ||| (spec_is_mult_or_div(o1) && spec_is_mult_or_div(o2))
    ||| (spec_is_add_or_sub(o1) && spec_is_add_or_sub(o2))
}

/// Whether two tokens sit in the same precedence tier.
pub fn same_precedence(o1: &Token, o2: &Token) -> (r: bool)
    ensures
        r == spec_same_precedence(o1@, o2@),
{
    (is_parenthesis(o1) && is_parenthesis(o2)) || (is_exponential(o1) && is_exponential(o2)) || (
    is_mult_or_div(o1) && is_mult_or_div(o2)) || (is_add_or_sub(o1) && is_add_or_sub(o2))
}

pub open spec fn spec_is_left_associative(t: SpecToken) -> bool {
    t != SpecToken::Function(MathFunction::Pow)
}

/// Every token is left-associative except `Pow`, which binds right to left.
pub fn is_left_associative(o: &Token) -> (r: bool)
    ensures
        r == spec_is_left_associative(o@),
{
    match o {
        Token::Function(MathFunction::Pow) => false,
        _ => true,
    }
}

} // verus!
