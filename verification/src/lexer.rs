use vstd::prelude::*;

verus! {

use crate::token::{
    count_char, literal_body, spec_is_digit_char, spec_is_number_literal, spec_wf_token, Error,
    MathFunction,
    Number, SpecError, SpecNumber, SpecToken, Token, toks_view, lemma_toks_view_push,
    lemma_toks_view_drop_last,
};

/// Whether a character counts as a letter when the lexer forms identifier
/// runs.  The classification is Unicode's, so it is named here and supplied
/// by `char_is_alphabetic`.
pub uninterp spec fn is_letter(c: char) -> bool;

/// Relies on char::is_alphabetic: whether the character has the Unicode
/// `Alphabetic` property, a fixed classification of the character alone.
#[verifier::external_body]
fn char_is_alphabetic(c: char) -> (r: bool)
    ensures
        r == is_letter(c),
{
    c.is_alphabetic()
}

/// A decimal digit.
fn digit_char(c: char) -> (r: bool)
    ensures
        r == spec_is_digit_char(c),
{
    '0' <= c && c <= '9'
}

pub open spec fn spec_is_str_a_number(s: Seq<char>) -> bool {
    &&& !(s.len() == 1 && s[0] == '-')
    &&& forall|i: int|
        0 <= i < s.len() ==> spec_is_digit_char(#[trigger] s[i]) || s[i] == '.' || s[i] == '-'
}

/// Whether every character of `s` could occur in a numeric slice: digits,
/// `.` and `-` anywhere, except that a lone `-` is not a number.  This is a
/// coarse shape test (it accepts the empty string and misplaced `-` or `.`);
/// `spec_is_number_literal` is the exact shape of an operand literal.
pub fn is_str_a_number(s: &str) -> (r: bool)
    ensures
        r == spec_is_str_a_number(s@),
{
    let n = s.unicode_len();
    if n == 1 && s.get_char(0) == '-' {
        return false;
    }
    let mut i: usize = 0;
    while i < n
        invariant
            n == s@.len(),
            0 <= i <= n,
            !(s@.len() == 1 && s@[0] == '-'),
            forall|k: int|
                0 <= k < i ==> spec_is_digit_char(#[trigger] s@[k]) || s@[k] == '.' || s@[k]
                    == '-',
        decreases n - i,
    {
        let c = s.get_char(i);
        if !(('0' <= c && c <= '9') || c == '.' || c == '-') {
            return false;
        }
        i += 1;
    }
    true
}

/// Whether `s` has the exact shape of an operand literal: an optional leading
/// `-`, then at least one digit and at most one `.`.
fn is_number_literal(s: &str) -> (r: bool)
    ensures
        r == spec_is_number_literal(s@),
{
    let n = s.unicode_len();
    let start: usize = if n > 0 && s.get_char(0) == '-' {
        1
    } else {
        0
    };
    proof {
        assert(literal_body(s@) =~= s@.subrange(start as int, n as int));
    }
    let mut dots: usize = 0;
    let mut i: usize = start;
    while i < n
        invariant
            n == s@.len(),
            start <= i <= n,
            start <= 1,
            literal_body(s@) == s@.subrange(start as int, n as int),
            forall|k: int|
                start <= k < i ==> spec_is_digit_char(#[trigger] s@[k]) || s@[k] == '.',
            dots == count_char(s@.subrange(start as int, i as int), '.'),
            dots <= i - start,
        decreases n - i,
    {
        let c = s.get_char(i);
        if c == '.' {
            dots = dots + 1;
        } else if !('0' <= c && c <= '9') {
            proof {
                let k = i as int - start as int;
                assert(0 <= k < literal_body(s@).len());
                assert(literal_body(s@)[k] == s@[i as int]);
                assert(!(spec_is_digit_char(literal_body(s@)[k]) || literal_body(s@)[k] == '.'));
            }
            return false;
        }
        proof {
            assert(s@.subrange(start as int, i + 1 as int).drop_last() =~= s@.subrange(
                start as int,
                i as int,
            ));
            assert(s@.subrange(start as int, i + 1 as int).last() == s@[i as int]);
        }
        i = i + 1;
    }
    proof {
        assert(forall|k: int|
            0 <= k < literal_body(s@).len() ==> literal_body(s@)[k] == s@[start + k]);
    }
    dots <= 1 && n - start > dots
}

/// The fixed lookup table from a slice to its token.  A slice shaped like a
/// numeric literal is an operand; otherwise the table is exact-match only,
/// and a slice it does not list resolves to nothing.
pub open spec fn spec_slice_to_token(s: Seq<char>) -> Option<SpecToken> {
    if spec_is_number_literal(s) {
        Some(SpecToken::Operand(SpecNumber::Literal(s)))
    } else if s == "+"@ {
        Some(SpecToken::Operator('+'))
    } else if s == "-"@ || s == "\u{2212}"@ {
        Some(SpecToken::Operator('-'))
    } else if s == "*"@ || s == "x"@ || s == "\u{d7}"@ || s == "\u{22c5}"@ {
        Some(SpecToken::Operator('*'))
    } else if s == "/"@ || s == "\u{f7}"@ {
        Some(SpecToken::Operator('/'))
    } else if s == "%"@ || s == "mod"@ {
        Some(SpecToken::Operator('%'))
    } else if s == "^"@ || s == "pow"@ || s == "power"@ {
        Some(SpecToken::Function(MathFunction::Pow))
    } else if s == "max"@ {
        Some(SpecToken::Function(MathFunction::Max))
    } else if s == "min"@ {
        Some(SpecToken::Function(MathFunction::Min))
    } else if s == "sqrt"@ || s == "squareroot"@ {
        Some(SpecToken::Function(MathFunction::Sqrt))
    } else if s == "exp"@ || s == "exponential"@ || s == "e"@ {
        Some(SpecToken::Function(MathFunction::Exp))
    } else if s == "log"@ || s == "logarithm"@ {
        Some(SpecToken::Function(MathFunction::Log))
    } else if s == "ln"@ || s == "naturallogarithm"@ || s == "naturallog"@ {
        Some(SpecToken::Function(MathFunction::Ln))
    } else if s == "abs"@ || s == "absolute"@ || s == "absolutevalue"@ {
        Some(SpecToken::Function(MathFunction::Abs))
    } else if s == "floor"@ {
        Some(SpecToken::Function(MathFunction::Floor))
    } else if s == "sin"@ {
        Some(SpecToken::Function(MathFunction::Sin))
    } else if s == "cos"@ {
        Some(SpecToken::Function(MathFunction::Cos))
    } else if s == "tan"@ {
        Some(SpecToken::Function(MathFunction::Tan))
    } else if s == "asin"@ {
        Some(SpecToken::Function(MathFunction::Asin))
    } else if s == "acos"@ {
        Some(SpecToken::Function(MathFunction::Acos))
    } else if s == "atan"@ {
        Some(SpecToken::Function(MathFunction::Atan))
    } else if s == "pi"@ || s == "\u{3c0}"@ {
        Some(SpecToken::Operand(SpecNumber::Pi))
    } else if s == ","@ {
        Some(SpecToken::Punctuation(','))
    } else if s == "("@ {
        Some(SpecToken::Punctuation('('))
    } else if s == ")"@ {
        Some(SpecToken::Punctuation(')'))
    } else {
        None
    }
}

/// Whether the two strings hold the same characters.
fn word_eq(s: &str, w: &str) -> (r: bool)
    ensures
        r == (s@ == w@),
{
    let n = s.unicode_len();
    if n != w.unicode_len() {
        return false;
    }
    let mut i: usize = 0;
    while i < n
        invariant
            n == s@.len(),
            n == w@.len(),
            0 <= i <= n,
            forall|k: int| 0 <= k < i ==> s@[k] == w@[k],
        decreases n - i,
    {
        if s.get_char(i) != w.get_char(i) {
            return false;
        }
        i += 1;
    }
    proof {
        assert(s@ =~= w@);
    }
    true
}

/// Resolves one lexical slice through the lookup table.
pub fn slice_to_token(input_string: &str) -> (r: Option<Token>)
    ensures
        match r {
            Some(t) => spec_slice_to_token(input_string@) == Some(t@),
            None => spec_slice_to_token(input_string@) is None,
        },
{
    let s = input_string;
    if is_number_literal(s) {
        Some(Token::Operand(Number::Literal(String::from_str(s))))
    } else if word_eq(s, "+") {
        Some(Token::Operator('+'))
    } else if word_eq(s, "-") || word_eq(s, "\u{2212}") {
        Some(Token::Operator('-'))
    } else if word_eq(s, "*") || word_eq(s, "x") || word_eq(s, "\u{d7}") || word_eq(s, "\u{22c5}") {
        Some(Token::Operator('*'))
    } else if word_eq(s, "/") || word_eq(s, "\u{f7}") {
        Some(Token::Operator('/'))
    } else if word_eq(s, "%") || word_eq(s, "mod") {
        Some(Token::Operator('%'))
    } else if word_eq(s, "^") || word_eq(s, "pow") || word_eq(s, "power") {
        Some(Token::Function(MathFunction::Pow))
    } else if word_eq(s, "max") {
        Some(Token::Function(MathFunction::Max))
    } else if word_eq(s, "min") {
        Some(Token::Function(MathFunction::Min))
    } else if word_eq(s, "sqrt") || word_eq(s, "squareroot") {
        Some(Token::Function(MathFunction::Sqrt))
    } else if word_eq(s, "exp") || word_eq(s, "exponential") || word_eq(s, "e") {
        Some(Token::Function(MathFunction::Exp))
    } else if word_eq(s, "log") || word_eq(s, "logarithm") {
        Some(Token::Function(MathFunction::Log))
    } else if word_eq(s, "ln") || word_eq(s, "naturallogarithm") || word_eq(s, "naturallog") {
        Some(Token::Function(MathFunction::Ln))
    } else if word_eq(s, "abs") || word_eq(s, "absolute") || word_eq(s, "absolutevalue") {
        Some(Token::Function(MathFunction::Abs))
    } else if word_eq(s, "floor") {
        Some(Token::Function(MathFunction::Floor))
    } else if word_eq(s, "sin") {
        Some(Token::Function(MathFunction::Sin))
    } else if word_eq(s, "cos") {
        Some(Token::Function(MathFunction::Cos))
    } else if word_eq(s, "tan") {
        Some(Token::Function(MathFunction::Tan))
    } else if word_eq(s, "asin") {
        Some(Token::Function(MathFunction::Asin))
    } else if word_eq(s, "acos") {
        Some(Token::Function(MathFunction::Acos))
    } else if word_eq(s, "atan") {
        Some(Token::Function(MathFunction::Atan))
    } else if word_eq(s, "pi") || word_eq(s, "\u{3c0}") {
        Some(Token::Operand(Number::Pi))
    } else if word_eq(s, ",") {
        Some(Token::Punctuation(','))
    } else if word_eq(s, "(") {
        Some(Token::Punctuation('('))
    } else if word_eq(s, ")") {
        Some(Token::Punctuation(')'))
    } else {
        None
    }
}

/// The first position at or after `j` that is neither a digit nor `.`: the
/// end of a numeric run.
pub open spec fn digit_run_end(cs: Seq<char>, j: int) -> int
    decreases cs.len() - j,
{
    if 0 <= j < cs.len() && (spec_is_digit_char(cs[j]) || cs[j] == '.') {
        digit_run_end(cs, j + 1)
    } else {
        j
    }
}

/// The first position at or after `j` that is not a letter: the end of an
/// identifier run.
pub open spec fn letter_run_end(cs: Seq<char>, j: int) -> int
    decreases cs.len() - j,
{
    if 0 <= j < cs.len() && is_letter(cs[j]) {
        letter_run_end(cs, j + 1)
    } else {
        j
    }
}

proof fn lemma_digit_run_end_bounds(cs: Seq<char>, j: int)
    requires
        0 <= j <= cs.len(),
    ensures
        j <= digit_run_end(cs, j) <= cs.len(),
    decreases cs.len() - j,
{
    if j < cs.len() && (spec_is_digit_char(cs[j]) || cs[j] == '.') {
        lemma_digit_run_end_bounds(cs, j + 1);
    }
}

proof fn lemma_letter_run_end_bounds(cs: Seq<char>, j: int)
    requires
        0 <= j <= cs.len(),
    ensures
        j <= letter_run_end(cs, j) <= cs.len(),
    decreases cs.len() - j,
{
    if j < cs.len() && is_letter(cs[j]) {
        lemma_letter_run_end_bounds(cs, j + 1);
    }
}

proof fn lemma_digit_run_end_at(cs: Seq<char>, a: int, b: int)
    requires
        0 <= a <= b <= cs.len(),
        forall|k: int| a <= k < b ==> spec_is_digit_char(#[trigger] cs[k]) || cs[k] == '.',
        b == cs.len() || !(spec_is_digit_char(cs[b]) || cs[b] == '.'),
    ensures
        digit_run_end(cs, a) == b,
    decreases b - a,
{
    if a < b {
        lemma_digit_run_end_at(cs, a + 1, b);
    }
}

proof fn lemma_letter_run_end_at(cs: Seq<char>, a: int, b: int)
    requires
        0 <= a <= b <= cs.len(),
        forall|k: int| a <= k < b ==> is_letter(#[trigger] cs[k]),
        b == cs.len() || !is_letter(cs[b]),
    ensures
        letter_run_end(cs, a) == b,
    decreases b - a,
{
    if a < b {
        lemma_letter_run_end_at(cs, a + 1, b);
    }
}

/// One pass of the lexer from position `i`, with `acc` the tokens emitted so
/// far.  At a digit the numeric run `[i, digit_run_end)` becomes one slice; a
/// `-` directly before it is absorbed into the slice as a sign — and the
/// `-` operator token just emitted is retracted — unless the character two
/// back is a digit or `)`, which marks the `-` as a genuine subtraction.  At
/// a letter the identifier run becomes one slice.  A space is discarded.
/// Any other character is a one-character slice.  A slice the table does not
/// resolve aborts the pass with `UnrecognizedToken`.
pub open spec fn spec_lex(cs: Seq<char>, i: int, acc: Seq<SpecToken>) -> Result<
    Seq<SpecToken>,
    SpecError,
>
    decreases cs.len() - i,
    via spec_lex_decreases
{
    if i < 0 || i >= cs.len() {
        Ok(acc)
    } else {
        let c = cs[i];
        if spec_is_digit_char(c) {
            let j = digit_run_end(cs, i + 1);
            let absorb = i >= 1 && cs[i - 1] == '-' && (i == 1 || !(spec_is_digit_char(cs[i - 2])
                || cs[i - 2] == ')'));
            let start = if absorb {
                i - 1
            } else {
                i
            };
            let acc1 = if absorb && acc.len() > 0 {
                acc.drop_last()
            } else {
                acc
            };
            let lit = cs.subrange(start, j);
            match spec_slice_to_token(lit) {
                Some(t) => spec_lex(cs, j, acc1.push(t)),
                None => Err(SpecError::UnrecognizedToken(lit)),
            }
        } else if is_letter(c) {
            let j = letter_run_end(cs, i + 1);
            let lit = cs.subrange(i, j);
            match spec_slice_to_token(lit) {
                Some(t) => spec_lex(cs, j, acc.push(t)),
                None => Err(SpecError::UnrecognizedToken(lit)),
            }
        } else if c == ' ' {
            spec_lex(cs, i + 1, acc)
        } else {
            let lit = cs.subrange(i, i + 1);
            match spec_slice_to_token(lit) {
                Some(t) => spec_lex(cs, i + 1, acc.push(t)),
                None => Err(SpecError::UnrecognizedToken(lit)),
            }
        }
    }
}

#[via_fn]
proof fn spec_lex_decreases(cs: Seq<char>, i: int, acc: Seq<SpecToken>) {
    if 0 <= i && i < cs.len() {
        lemma_digit_run_end_bounds(cs, i + 1);
        lemma_letter_run_end_bounds(cs, i + 1);
    }
}

/// The whole lexer: the token sequence of a line, or its first unresolved
/// slice.
pub open spec fn spec_tokenize(cs: Seq<char>) -> Result<Seq<SpecToken>, SpecError> {
    spec_lex(cs, 0, Seq::empty())
}

/// Whether the numeric run going on at `j` continues there.
fn run_digit_cont(s: &str, j: usize) -> (r: bool)
    requires
        j <= s@.len(),
    ensures
        r == (j < s@.len() && (spec_is_digit_char(s@[j as int]) || s@[j as int] == '.')),
{
    if j < s.unicode_len() {
        let d = s.get_char(j);
        ('0' <= d && d <= '9') || d == '.'
    } else {
        false
    }
}

/// Whether the identifier run going on at `j` continues there.
fn run_letter_cont(s: &str, j: usize) -> (r: bool)
    requires
        j <= s@.len(),
    ensures
        r == (j < s@.len() && is_letter(s@[j as int])),
{
    if j < s.unicode_len() {
        char_is_alphabetic(s.get_char(j))
    } else {
        false
    }
}

/// Lexical analysis: scans the line left to right, forms maximal numeric and
/// identifier runs (other characters are one-character slices, spaces are
/// discarded), resolves each slice through the lookup table, and applies the
/// negative-literal absorption rule.  Returns exactly the tokens of
/// `spec_tokenize`, or its `UnrecognizedToken` error.
pub fn string_to_token(input_string: &str) -> (r: Result<Vec<Token>, Error>)
    ensures
        match r {
            Ok(v) => spec_tokenize(input_string@) == Ok::<Seq<SpecToken>, SpecError>(
                toks_view(v@),
            ),
            Err(e) => spec_tokenize(input_string@) == Err::<Seq<SpecToken>, SpecError>(e@),
        },
{
    let ghost cs = input_string@;
    let n = input_string.unicode_len();
    let mut tokens: Vec<Token> = Vec::new();
    let mut i: usize = 0;
    proof {
        assert(toks_view(tokens@) =~= Seq::<SpecToken>::empty());
    }
    while i < n
        invariant
            n == cs.len(),
            cs == input_string@,
            0 <= i <= n,
            spec_lex(cs, i as int, toks_view(tokens@)) == spec_tokenize(cs),
        decreases n - i,
    {
        let ghost i0 = i as int;
        let ghost acc0 = toks_view(tokens@);
        let c = input_string.get_char(i);
        if digit_char(c) {
            let mut j: usize = i + 1;
            while run_digit_cont(input_string, j)
                invariant
                    n == cs.len(),
                    cs == input_string@,
                    i + 1 <= j <= n,
                    forall|k: int|
                        i + 1 <= k < j ==> spec_is_digit_char(#[trigger] cs[k]) || cs[k] == '.',
                decreases n - j,
            {
                j += 1;
            }
            proof {
                lemma_digit_run_end_at(cs, i0 + 1, j as int);
            }
            let absorb: bool = if i >= 1 && input_string.get_char(i - 1) == '-' {
                if i == 1 {
                    true
                } else {
                    let p2 = input_string.get_char(i - 2);
                    !(digit_char(p2) || p2 == ')')
                }
            } else {
                false
            };
            let start = if absorb {
                i - 1
            } else {
                i
            };
            if absorb && tokens.len() > 0 {
                proof {
                    lemma_toks_view_drop_last(tokens@);
                    assert(tokens@.subrange(0, tokens@.len() - 1) =~= tokens@.drop_last());
                }
                tokens.pop();
            }
            let ghost acc1 = toks_view(tokens@);
            let lit = input_string.substring_char(start, j);
            match slice_to_token(lit) {
                Some(t) => {
                    proof {
                        lemma_toks_view_push(tokens@, t);
                    }
                    tokens.push(t);
                    proof {
                        assert(spec_lex(cs, i0, acc0) == spec_lex(cs, j as int, acc1.push(t@)));
                    }
                },
                None => {
                    return Err(Error::UnrecognizedToken(String::from_str(lit)));
                },
            }
            i = j;
        } else if char_is_alphabetic(c) {
            let mut j: usize = i + 1;
            while run_letter_cont(input_string, j)
                invariant
                    n == cs.len(),
                    cs == input_string@,
                    i + 1 <= j <= n,
                    forall|k: int| i + 1 <= k < j ==> is_letter(#[trigger] cs[k]),
                decreases n - j,
            {
                j += 1;
            }
            proof {
                lemma_letter_run_end_at(cs, i0 + 1, j as int);
            }
            let lit = input_string.substring_char(i, j);
            match slice_to_token(lit) {
                Some(t) => {
                    proof {
                        lemma_toks_view_push(tokens@, t);
                    }
                    tokens.push(t);
                    proof {
                        assert(spec_lex(cs, i0, acc0) == spec_lex(cs, j as int, acc0.push(t@)));
                    }
                },
                None => {
                    return Err(Error::UnrecognizedToken(String::from_str(lit)));
                },
            }
            i = j;
        } else if c == ' ' {
            i += 1;
        } else {
            let lit = input_string.substring_char(i, i + 1);
            match slice_to_token(lit) {
                Some(t) => {
                    proof {
                        lemma_toks_view_push(tokens@, t);
                    }
                    tokens.push(t);
                    proof {
                        assert(spec_lex(cs, i0, acc0) == spec_lex(cs, i0 + 1, acc0.push(t@)));
                    }
                },
                None => {
                    return Err(Error::UnrecognizedToken(String::from_str(lit)));
                },
            }
            i += 1;
        }
    }
    Ok(tokens)
}

proof fn lemma_slice_token_wf(s: Seq<char>)
    ensures
        spec_slice_to_token(s) matches Some(t) ==> spec_wf_token(t),
{
}

proof fn lemma_lex_wf(cs: Seq<char>, i: int, acc: Seq<SpecToken>)
    requires
        forall|k: int| 0 <= k < acc.len() ==> spec_wf_token(#[trigger] acc[k]),
    ensures
        spec_lex(cs, i, acc) matches Ok(ts) ==> forall|k: int|
            0 <= k < ts.len() ==> spec_wf_token(#[trigger] ts[k]),
    decreases cs.len() - i,
{
    if i < 0 || i >= cs.len() {
    } else {
        let c = cs[i];
        lemma_digit_run_end_bounds(cs, i + 1);
        lemma_letter_run_end_bounds(cs, i + 1);
        if spec_is_digit_char(c) {
            let j = digit_run_end(cs, i + 1);
            let absorb = i >= 1 && cs[i - 1] == '-' && (i == 1 || !(spec_is_digit_char(cs[i - 2])
                || cs[i - 2] == ')'));
            let acc1 = if absorb && acc.len() > 0 {
                acc.drop_last()
            } else {
                acc
            };
            let start = if absorb {
                i - 1
            } else {
                i
            };
            let lit = cs.subrange(start, j);
            match spec_slice_to_token(lit) {
                Some(t) => {
                    lemma_slice_token_wf(lit);
                    lemma_lex_wf(cs, j, acc1.push(t));
                },
                None => {},
            }
        } else if is_letter(c) {
            let j = letter_run_end(cs, i + 1);
            let lit = cs.subrange(i, j);
            match spec_slice_to_token(lit) {
                Some(t) => {
                    lemma_slice_token_wf(lit);
                    lemma_lex_wf(cs, j, acc.push(t));
                },
                None => {},
            }
        } else if c == ' ' {
            lemma_lex_wf(cs, i + 1, acc);
        } else {
            let lit = cs.subrange(i, i + 1);
            match spec_slice_to_token(lit) {
                Some(t) => {
                    lemma_slice_token_wf(lit);
                    lemma_lex_wf(cs, i + 1, acc.push(t));
                },
                None => {},
            }
        }
    }
}

/// Every token the lexer emits is well formed: operators are `+ - * / %`,
/// punctuation is `( ) ,`, and operand literals have the numeric shape.
pub proof fn lemma_tokenize_wf(cs: Seq<char>)
    ensures
        spec_tokenize(cs) matches Ok(ts) ==> forall|k: int|
            0 <= k < ts.len() ==> spec_wf_token(#[trigger] ts[k]),
{
    lemma_lex_wf(cs, 0, Seq::empty());
}

} // verus!
