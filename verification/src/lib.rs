//! An arithmetic expression evaluator, verified end to end up to the final
//! floating-point fold.
//!
//! A line of text is tokenized (`lexer`), the infix token sequence is turned
//! into postfix order by the shunting-yard algorithm (`shunting`), and the
//! postfix sequence is run through a stack machine that yields the expression
//! tree recording every application in evaluation order (`eval`).  Reading a
//! literal or the constant pi as a machine number, and folding the tree with
//! floating-point arithmetic, are left to the thin unverified shell around
//! the library.

use vstd::prelude::*;

pub mod eval;
pub mod lexer;
pub mod shunting;
pub mod token;

verus! {

use crate::eval::{compute, spec_valid_postfix, expr_tokens, Expr};
use crate::lexer::{string_to_token, spec_tokenize};
use crate::shunting::{infix_to_postfix, spec_to_postfix};
use crate::token::{toks_view, Error, SpecError, SpecToken};

/// The postfix form of a line of text: tokenize, then convert, propagating
/// the first error.
pub open spec fn spec_process(cs: Seq<char>) -> Result<Seq<SpecToken>, SpecError> {
    match spec_tokenize(cs) {
        Ok(ts) => spec_to_postfix(ts),
        Err(e) => Err(e),
    }
}

/// Runs one line through the whole pipeline: lexer, shunting-yard conversion,
/// and the postfix stack machine.  On success the returned expression tree's
/// postfix form is exactly the converted token sequence of the line.
pub fn process(input: &str) -> (r: Result<Expr, Error>)
    ensures
        match r {
            Ok(e) => {
                &&& spec_process(input@) is Ok
                &&& spec_valid_postfix(spec_process(input@)->Ok_0)
                &&& expr_tokens(e) == spec_process(input@)->Ok_0
            },
            Err(er) => match spec_process(input@) {
                Ok(ts) => er@ == SpecError::MissingOperand && !spec_valid_postfix(ts),
                Err(se) => er@ == se,
            },
        },
{
    let infix = match string_to_token(input) {
        Ok(v) => v,
        Err(e) => {
            return Err(e);
        },
    };
    let postfix = match infix_to_postfix(&infix) {
        Ok(v) => v,
        Err(e) => {
            return Err(e);
        },
    };
    proof {
        crate::lexer::lemma_tokenize_wf(input@);
        crate::shunting::lemma_to_postfix_evaluable(toks_view(infix@));
    }
    compute(&postfix)
}

} // verus!
