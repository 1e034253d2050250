use vstd::prelude::*;

verus! {

use crate::token::{
    own_number, spec_evaluable, spec_is_number_literal, spec_is_unary, is_unary, toks_view, Error,
    MathFunction, Number, SpecError, SpecToken, Token,
};

/// The expression tree that evaluating a postfix sequence builds: it records
/// every application in evaluation order.  `Binary` applies one of the
/// operators `+ - * / %` (left operand first); `Call` applies one of the
/// two-argument functions `Pow`, `Max`, `Min`.  Folding the tree into a
/// floating-point value is left to the unverified shell around the library.
#[derive(Debug, PartialEq)]
pub enum Expr {
    Literal(Number),
    Unary(MathFunction, Box<Expr>),
    Binary(char, Box<Expr>, Box<Expr>),
    Call(MathFunction, Box<Expr>, Box<Expr>),
}

/// A well-formed expression tree: unary nodes carry one-argument functions,
/// `Call` nodes carry two-argument functions, `Binary` nodes carry one of
/// `+ - * / %`, and literals have the numeric shape.
pub open spec fn spec_wf_expr(e: Expr) -> bool
    decreases e,
{
    match e {
        Expr::Literal(n) => match n {
            Number::Literal(s) => spec_is_number_literal(s@),
            Number::Pi => true,
        },
        Expr::Unary(f, a) => spec_is_unary(SpecToken::Function(f)) && spec_wf_expr(*a),
        Expr::Binary(c, a, b) => (c == '+' || c == '-' || c == '*' || c == '/' || c == '%')
            && spec_wf_expr(*a) && spec_wf_expr(*b),
        Expr::Call(f, a, b) => !spec_is_unary(SpecToken::Function(f)) && spec_wf_expr(*a)
            && spec_wf_expr(*b),
    }
}

/// The postfix form of an expression tree: operands first, the applied
/// operator or function last.
pub open spec fn expr_tokens(e: Expr) -> Seq<SpecToken>
    decreases e,
{
    match e {
        Expr::Literal(n) => seq![SpecToken::Operand(n@)],
        Expr::Unary(f, a) => expr_tokens(*a).push(SpecToken::Function(f)),
        Expr::Binary(c, a, b) => expr_tokens(*a) + expr_tokens(*b) + seq![SpecToken::Operator(c)],
        Expr::Call(f, a, b) => expr_tokens(*a) + expr_tokens(*b) + seq![SpecToken::Function(f)],
    }
}

/// How many operands a token consumes from the evaluation stack.
pub open spec fn spec_arity(t: SpecToken) -> int {
    if t is Operand {
        0
    } else if spec_is_unary(t) {
        1
    } else {
        2
    }
}

/// The net number of values a token sequence leaves on the evaluation
/// stack: each token consumes its arity and produces one value.
pub open spec fn stack_effect(ts: Seq<SpecToken>) -> int
    decreases ts.len(),
{
    if ts.len() == 0 {
        0
    } else {
        stack_effect(ts.drop_last()) + 1 - spec_arity(ts.last())
    }
}

/// A postfix sequence the stack machine accepts: it is not empty, no prefix
/// ever leaves the stack short of an operand, and exactly one value remains
/// at the end.
pub open spec fn spec_valid_postfix(ts: Seq<SpecToken>) -> bool {
    &&& ts.len() > 0
    &&& forall|i: int| 1 <= i <= ts.len() ==> stack_effect(#[trigger] ts.take(i)) >= 1
    &&& stack_effect(ts) == 1
}

/// The concatenated postfix forms of the trees on the evaluation stack,
/// bottom first.
pub open spec fn stack_tokens(es: Seq<Expr>) -> Seq<SpecToken>
    decreases es.len(),
{
    if es.len() == 0 {
        Seq::<SpecToken>::empty()
    } else {
        stack_tokens(es.drop_last()) + expr_tokens(es.last())
    }
}

pub open spec fn all_wf_exprs(es: Seq<Expr>) -> bool {
    forall|i: int| 0 <= i < es.len() ==> spec_wf_expr(#[trigger] es[i])
}

/// Runs the postfix stack machine.  An operand pushes a leaf; a one-argument
/// function pops one tree; an operator or two-argument function pops two (the
/// first popped becomes the right operand).  An empty pop, or a final stack
/// that does not hold exactly one tree, is `MissingOperand` — which happens
/// exactly when the sequence is not valid postfix.  On success the returned
/// tree's postfix form is exactly the input.
pub fn compute(postfix: &Vec<Token>) -> (r: Result<Expr, Error>)
    requires
        spec_evaluable(toks_view(postfix@)),
    ensures
        match r {
            Ok(e) => {
                &&& spec_valid_postfix(toks_view(postfix@))
                &&& spec_wf_expr(e)
                &&& expr_tokens(e) == toks_view(postfix@)
            },
            Err(er) => {
                &&& er@ == SpecError::MissingOperand
                &&& !spec_valid_postfix(toks_view(postfix@))
            },
        },
{
    let ghost ts = toks_view(postfix@);
    let mut operand_stack: Vec<Expr> = Vec::new();
    let mut k: usize = 0;
    proof {
        assert(ts.take(0) =~= Seq::<SpecToken>::empty());
        assert(stack_tokens(operand_stack@) =~= ts.take(0));
    }
    while k < postfix.len()
        invariant
            ts == toks_view(postfix@),
            spec_evaluable(ts),
            0 <= k <= postfix.len(),
            all_wf_exprs(operand_stack@),
            stack_tokens(operand_stack@) == ts.take(k as int),
            operand_stack@.len() == stack_effect(ts.take(k as int)),
            forall|j: int| 1 <= j <= k ==> stack_effect(#[trigger] ts.take(j)) >= 1,
        decreases postfix.len() - k,
    {
        let t = &postfix[k];
        proof {
            assert(ts[k as int] == t@);
            assert(crate::token::postfix_token_ok(ts[k as int]));
            assert(ts.take(k + 1 as int).drop_last() =~= ts.take(k as int));
            assert(ts.take(k + 1 as int).last() == ts[k as int]);
        }
        match t {
            Token::Operand(n) => {
                let e = Expr::Literal(own_number(n));
                proof {
                    assert(operand_stack@.push(e).drop_last() =~= operand_stack@);
                    assert(stack_tokens(operand_stack@.push(e)) == stack_tokens(operand_stack@)
                        + expr_tokens(e));
                    assert(ts.take(k as int) + seq![ts[k as int]] =~= ts.take(k + 1 as int));
                    assert(all_wf_exprs(operand_stack@.push(e)));
                }
                operand_stack.push(e);
            },
            Token::Function(f) => {
                if is_unary(t) {
                    let ghost v0 = operand_stack@;
                    let a = match operand_stack.pop() {
                        Some(a) => a,
                        None => {
                            proof {
                                lemma_invalid_at(ts, k as int);
                            }
                            return Err(Error::MissingOperand);
                        },
                    };
                    let e = Expr::Unary(*f, Box::new(a));
                    proof {
                        assert(v0 =~= operand_stack@.push(a));
                        assert(stack_tokens(v0) == stack_tokens(operand_stack@) + expr_tokens(a))
                            by {
                            assert(v0.drop_last() =~= operand_stack@);
                        }
                        assert(expr_tokens(e) == expr_tokens(a).push(ts[k as int]));
                        assert(stack_tokens(operand_stack@.push(e)) == stack_tokens(
                            operand_stack@,
                        ) + expr_tokens(e)) by {
                            assert(operand_stack@.push(e).drop_last() =~= operand_stack@);
                        }
                        assert(ts.take(k as int) + seq![ts[k as int]] =~= ts.take(k + 1 as int));
                        assert(stack_tokens(operand_stack@.push(e)) =~= ts.take(k + 1 as int));
                        assert(all_wf_exprs(operand_stack@.push(e)));
                    }
                    operand_stack.push(e);
                } else {
                    let ghost v0 = operand_stack@;
                    let b = match operand_stack.pop() {
                        Some(b) => b,
                        None => {
                            proof {
                                lemma_invalid_at(ts, k as int);
                            }
                            return Err(Error::MissingOperand);
                        },
                    };
                    let a = match operand_stack.pop() {
                        Some(a) => a,
                        None => {
                            proof {
                                lemma_invalid_at(ts, k as int);
                            }
                            return Err(Error::MissingOperand);
                        },
                    };
                    let e = Expr::Call(*f, Box::new(a), Box::new(b));
                    proof {
                        assert(v0.drop_last() =~= operand_stack@.push(a));
                        assert(v0 =~= operand_stack@.push(a).push(b));
                        assert(stack_tokens(operand_stack@.push(a)) == stack_tokens(operand_stack@)
                            + expr_tokens(a)) by {
                            assert(operand_stack@.push(a).drop_last() =~= operand_stack@);
                        }
                        assert(stack_tokens(v0) == stack_tokens(operand_stack@.push(a))
                            + expr_tokens(b)) by {
                            assert(v0.last() == b);
                        }
                        assert(expr_tokens(e) == expr_tokens(a) + expr_tokens(b) + seq![ts[k as int]]);
                        assert(stack_tokens(operand_stack@.push(e)) == stack_tokens(operand_stack@)
                            + expr_tokens(e)) by {
                            assert(operand_stack@.push(e).drop_last() =~= operand_stack@);
                        }
                        assert(ts.take(k as int) + seq![ts[k as int]] =~= ts.take(k + 1 as int));
                        assert(stack_tokens(operand_stack@.push(e)) =~= ts.take(k + 1 as int));
                        assert(all_wf_exprs(operand_stack@.push(e)));
                    }
                    operand_stack.push(e);
                }
            },
            Token::Operator(c) => {
                let ghost v0 = operand_stack@;
                let b = match operand_stack.pop() {
                    Some(b) => b,
                    None => {
                        proof {
                            lemma_invalid_at(ts, k as int);
                        }
                        return Err(Error::MissingOperand);
                    },
                };
                let a = match operand_stack.pop() {
                    Some(a) => a,
                    None => {
                        proof {
                            lemma_invalid_at(ts, k as int);
                        }
                        return Err(Error::MissingOperand);
                    },
                };
                let e = Expr::Binary(*c, Box::new(a), Box::new(b));
                proof {
                    assert(v0.drop_last() =~= operand_stack@.push(a));
                    assert(v0 =~= operand_stack@.push(a).push(b));
                    assert(stack_tokens(operand_stack@.push(a)) == stack_tokens(operand_stack@)
                        + expr_tokens(a)) by {
                        assert(operand_stack@.push(a).drop_last() =~= operand_stack@);
                    }
                    assert(stack_tokens(v0) == stack_tokens(operand_stack@.push(a))
                        + expr_tokens(b)) by {
                        assert(v0.last() == b);
                    }
                    assert(expr_tokens(e) == expr_tokens(a) + expr_tokens(b) + seq![ts[k as int]]);
                    assert(stack_tokens(operand_stack@.push(e)) == stack_tokens(operand_stack@)
                        + expr_tokens(e)) by {
                        assert(operand_stack@.push(e).drop_last() =~= operand_stack@);
                    }
                    assert(ts.take(k as int) + seq![ts[k as int]] =~= ts.take(k + 1 as int));
                    assert(stack_tokens(operand_stack@.push(e)) =~= ts.take(k + 1 as int));
                    assert(all_wf_exprs(operand_stack@.push(e)));
                }
                operand_stack.push(e);
            },
            Token::Punctuation(_) => {
                proof {
                    assert(false);
                }
                return Err(Error::MissingOperand);
            },
        }
        k += 1;
    }
    proof {
        assert(ts.take(postfix@.len() as int) =~= ts);
        assert(stack_effect(Seq::<SpecToken>::empty()) == 0);
    }
    if operand_stack.len() == 1 {
        let e = operand_stack.pop().unwrap();
        proof {
            assert(operand_stack@.push(e).drop_last() =~= operand_stack@);
            assert(stack_tokens(operand_stack@.push(e)) == stack_tokens(operand_stack@)
                + expr_tokens(e));
            assert(stack_tokens(operand_stack@) =~= Seq::<SpecToken>::empty());
            assert(Seq::<SpecToken>::empty() + expr_tokens(e) =~= expr_tokens(e));
            assert(ts.len() > 0) by {
                if ts.len() == 0 {
                    assert(ts.take(0) =~= Seq::<SpecToken>::empty());
                }
            }
        }
        Ok(e)
    } else {
        Err(Error::MissingOperand)
    }
}

/// When the stack runs short at position `k`, the whole sequence is not
/// valid postfix: its prefix of length `k + 1` already leaves the stack
/// short.
proof fn lemma_invalid_at(ts: Seq<SpecToken>, k: int)
    requires
        0 <= k < ts.len(),
        stack_effect(ts.take(k + 1)) < 1,
    ensures
        !spec_valid_postfix(ts),
{
    if spec_valid_postfix(ts) {
        assert(stack_effect(ts.take(k + 1)) >= 1);
    }
}

proof fn lemma_effect_concat(s: Seq<SpecToken>, t: Seq<SpecToken>)
    ensures
        stack_effect(s + t) == stack_effect(s) + stack_effect(t),
    decreases t.len(),
{
    if t.len() == 0 {
        assert(s + t =~= s);
    } else {
        assert((s + t).drop_last() =~= s + t.drop_last());
        assert((s + t).last() == t.last());
        lemma_effect_concat(s, t.drop_last());
    }
}

/// Law: the postfix form of every well-formed expression tree is itself a
/// valid postfix sequence, so the stack machine accepts exactly what it
/// produces.
pub proof fn lemma_expr_tokens_balanced(e: Expr)
    requires
        spec_wf_expr(e),
    ensures
        spec_valid_postfix(expr_tokens(e)),
    decreases e,
{
    match e {
        Expr::Literal(n) => {
            let w = expr_tokens(e);
            assert(w.drop_last() =~= Seq::<SpecToken>::empty());
            assert(stack_effect(Seq::<SpecToken>::empty()) == 0);
            assert(w.last() == SpecToken::Operand(n@));
            assert(stack_effect(w) == 1);
            assert forall|i: int| 1 <= i <= w.len() implies stack_effect(#[trigger] w.take(i))
                >= 1 by {
                assert(w.take(i) =~= w);
            }
        },
        Expr::Unary(f, a) => {
            lemma_expr_tokens_balanced(*a);
            let ta = expr_tokens(*a);
            let w = expr_tokens(e);
            assert(w == ta.push(SpecToken::Function(f)));
            assert(w.drop_last() =~= ta);
            assert(w.last() == SpecToken::Function(f));
            assert(spec_arity(SpecToken::Function(f)) == 1);
            assert(stack_effect(ta) == 1);
            assert(stack_effect(w) == 1);
            assert forall|i: int| 1 <= i <= w.len() implies stack_effect(#[trigger] w.take(i))
                >= 1 by {
                if i <= ta.len() {
                    assert(w.take(i) =~= ta.take(i));
                    assert(stack_effect(ta.take(i)) >= 1);
                } else {
                    assert(w.take(i) =~= w);
                }
            }
        },
        Expr::Binary(c, a, b) => {
            lemma_expr_tokens_balanced(*a);
            lemma_expr_tokens_balanced(*b);
            lemma_bin_balanced(expr_tokens(*a), expr_tokens(*b), SpecToken::Operator(c));
        },
        Expr::Call(f, a, b) => {
            lemma_expr_tokens_balanced(*a);
            lemma_expr_tokens_balanced(*b);
            assert(spec_arity(SpecToken::Function(f)) == 2);
            lemma_bin_balanced(expr_tokens(*a), expr_tokens(*b), SpecToken::Function(f));
        },
    }
}

proof fn lemma_bin_balanced(ta: Seq<SpecToken>, tb: Seq<SpecToken>, op: SpecToken)
    requires
        spec_arity(op) == 2,
        spec_valid_postfix(ta),
        spec_valid_postfix(tb),
    ensures
        spec_valid_postfix(ta + tb + seq![op]),
{
    let w = ta + tb + seq![op];
    lemma_effect_concat(ta, tb);
    lemma_effect_concat(ta + tb, seq![op]);
    assert(stack_effect(seq![op]) == -1) by {
        assert(seq![op].drop_last() =~= Seq::<SpecToken>::empty());
        assert(stack_effect(Seq::<SpecToken>::empty()) == 0);
        assert(seq![op].last() == op);
    }
    assert(stack_effect(w) == 1);
    assert forall|i: int| 1 <= i <= w.len() implies stack_effect(#[trigger] w.take(i)) >= 1 by {
        if i <= ta.len() {
            assert(w.take(i) =~= ta.take(i));
            assert(stack_effect(ta.take(i)) >= 1);
        } else if i <= ta.len() + tb.len() {
            let j = i - ta.len();
            assert(w.take(i) =~= ta + tb.take(j));
            lemma_effect_concat(ta, tb.take(j));
            assert(stack_effect(tb.take(j)) >= 1);
        } else {
            assert(w.take(i) =~= w);
        }
    }
}

/// Observational equality of expression trees: the same shape with the same
/// operators, functions and literal views throughout.
pub open spec fn expr_like(e1: Expr, e2: Expr) -> bool
    decreases e1,
{
    match (e1, e2) {
        (Expr::Literal(n1), Expr::Literal(n2)) => n1@ == n2@,
        (Expr::Unary(f1, a1), Expr::Unary(f2, a2)) => f1 == f2 && expr_like(*a1, *a2),
        (Expr::Binary(c1, a1, b1), Expr::Binary(c2, a2, b2)) => c1 == c2 && expr_like(*a1, *a2)
            && expr_like(*b1, *b2),
        (Expr::Call(f1, a1, b1), Expr::Call(f2, a2, b2)) => f1 == f2 && expr_like(*a1, *a2)
            && expr_like(*b1, *b2),
        _ => false,
    }
}

proof fn lemma_split_unique(
    ta1: Seq<SpecToken>,
    tb1: Seq<SpecToken>,
    ta2: Seq<SpecToken>,
    tb2: Seq<SpecToken>,
)
    requires
        ta1 + tb1 == ta2 + tb2,
        spec_valid_postfix(ta1),
        spec_valid_postfix(tb1),
        spec_valid_postfix(ta2),
        spec_valid_postfix(tb2),
    ensures
        ta1 == ta2,
        tb1 == tb2,
{
    lemma_split_lengths(ta1, tb1, ta2, tb2);
    {
        let la = ta1.len() as int;
        assert(ta1 =~= (ta1 + tb1).take(la));
        assert(ta2 =~= (ta2 + tb2).take(la));
        assert(tb1 =~= (ta1 + tb1).subrange(la, (ta1 + tb1).len() as int));
        assert(tb2 =~= (ta2 + tb2).subrange(la, (ta2 + tb2).len() as int));
    }
}

/// The split point of a concatenation of two balanced sequences is unique:
/// were one left part shorter than the other, a prefix of its right part
/// would leave nothing on the stack, which a balanced sequence forbids.
proof fn lemma_split_lengths(
    ta1: Seq<SpecToken>,
    tb1: Seq<SpecToken>,
    ta2: Seq<SpecToken>,
    tb2: Seq<SpecToken>,
)
    requires
        ta1 + tb1 == ta2 + tb2,
        spec_valid_postfix(ta1),
        spec_valid_postfix(tb1),
        spec_valid_postfix(ta2),
        spec_valid_postfix(tb2),
    ensures
        ta1.len() == ta2.len(),
{
    if ta1.len() < ta2.len() {
        let la1 = ta1.len() as int;
        let la2 = ta2.len() as int;
        let d = la2 - la1;
        assert((ta1 + tb1).len() == ta1.len() + tb1.len());
        assert((ta2 + tb2).len() == ta2.len() + tb2.len());
        assert((ta1 + tb1).len() == (ta2 + tb2).len());
        assert(tb1.len() == la2 + tb2.len() - la1);
        assert(1 <= d <= tb1.len());
        assert(ta1 =~= (ta1 + tb1).take(la1));
        assert((ta2 + tb2).take(la1) =~= ta2.take(la1));
        assert(ta1 == ta2.take(la1));
        assert forall|i: int| 0 <= i < d implies tb1.take(d)[i] == ta2.subrange(la1, la2)[i] by {
            assert((ta1 + tb1)[la1 + i] == tb1[i]);
            assert((ta2 + tb2)[la1 + i] == ta2[la1 + i]);
        }
        assert(tb1.take(d) =~= ta2.subrange(la1, la2));
        assert(ta2.take(la1) + ta2.subrange(la1, la2) =~= ta2);
        lemma_effect_concat(ta2.take(la1), ta2.subrange(la1, la2));
        assert(stack_effect(ta2.subrange(la1, la2)) == 0);
        assert(stack_effect(tb1.take(d)) >= 1);
        assert(false);
    } else if ta2.len() < ta1.len() {
        let la2 = ta2.len() as int;
        let la1 = ta1.len() as int;
        let d = la1 - la2;
        assert((ta1 + tb1).len() == ta1.len() + tb1.len());
        assert((ta2 + tb2).len() == ta2.len() + tb2.len());
        assert((ta1 + tb1).len() == (ta2 + tb2).len());
        assert(tb2.len() == la1 + tb1.len() - la2);
        assert(1 <= d <= tb2.len());
        assert(ta2 =~= (ta2 + tb2).take(la2));
        assert((ta1 + tb1).take(la2) =~= ta1.take(la2));
        assert(ta2 == ta1.take(la2));
        assert forall|i: int| 0 <= i < d implies tb2.take(d)[i] == ta1.subrange(la2, la1)[i] by {
            assert((ta2 + tb2)[la2 + i] == tb2[i]);
            assert((ta1 + tb1)[la2 + i] == ta1[la2 + i]);
        }
        assert(tb2.take(d) =~= ta1.subrange(la2, la1));
        assert(ta1.take(la2) + ta1.subrange(la2, la1) =~= ta1);
        lemma_effect_concat(ta1.take(la2), ta1.subrange(la2, la1));
        assert(stack_effect(ta1.subrange(la2, la1)) == 0);
        assert(stack_effect(tb2.take(d)) >= 1);
        assert(false);
    }
}

/// Law: the postfix form determines the tree.  Two well-formed expression
/// trees whose postfix forms are the same sequence are the same tree in
/// every observable way; with `compute`'s contract this makes the whole
/// pipeline's output a function of the input line alone, so re-running a
/// line cannot change its result.
pub proof fn lemma_postfix_form_determines_tree(e1: Expr, e2: Expr)
    requires
        spec_wf_expr(e1),
        spec_wf_expr(e2),
        expr_tokens(e1) == expr_tokens(e2),
    ensures
        expr_like(e1, e2),
    decreases e1,
{
    lemma_expr_tokens_balanced(e1);
    lemma_expr_tokens_balanced(e2);
    let w = expr_tokens(e1);
    match e1 {
        Expr::Literal(n1) => {
            match e2 {
                Expr::Literal(n2) => {
                    assert(w[0] == SpecToken::Operand(n1@));
                    assert(expr_tokens(e2)[0] == SpecToken::Operand(n2@));
                },
                Expr::Unary(f2, a2) => {
                    assert(w.last() == SpecToken::Operand(n1@));
                    assert(expr_tokens(e2).last() == SpecToken::Function(f2));
                },
                Expr::Binary(c2, a2, b2) => {
                    assert(w.last() == SpecToken::Operand(n1@));
                    assert(expr_tokens(e2).last() == SpecToken::Operator(c2));
                },
                Expr::Call(f2, a2, b2) => {
                    assert(w.last() == SpecToken::Operand(n1@));
                    assert(expr_tokens(e2).last() == SpecToken::Function(f2));
                },
            }
        },
        Expr::Unary(f1, a1) => {
            match e2 {
                Expr::Literal(n2) => {
                    assert(w.last() == SpecToken::Function(f1));
                    assert(expr_tokens(e2).last() == SpecToken::Operand(n2@));
                },
                Expr::Unary(f2, a2) => {
                    assert(w.last() == SpecToken::Function(f1));
                    assert(expr_tokens(e2).last() == SpecToken::Function(f2));
                    assert(expr_tokens(*a1) =~= w.drop_last());
                    assert(expr_tokens(*a2) =~= expr_tokens(e2).drop_last());
                    lemma_postfix_form_determines_tree(*a1, *a2);
                },
                Expr::Binary(c2, a2, b2) => {
                    assert(w.last() == SpecToken::Function(f1));
                    assert(expr_tokens(e2).last() == SpecToken::Operator(c2));
                },
                Expr::Call(f2, a2, b2) => {
                    assert(w.last() == SpecToken::Function(f1));
                    assert(expr_tokens(e2).last() == SpecToken::Function(f2));
                    assert(spec_is_unary(SpecToken::Function(f1)));
                    assert(!spec_is_unary(SpecToken::Function(f2)));
                },
            }
        },
        Expr::Binary(c1, a1, b1) => {
            match e2 {
                Expr::Literal(n2) => {
                    assert(w.last() == SpecToken::Operator(c1));
                    assert(expr_tokens(e2).last() == SpecToken::Operand(n2@));
                },
                Expr::Unary(f2, a2) => {
                    assert(w.last() == SpecToken::Operator(c1));
                    assert(expr_tokens(e2).last() == SpecToken::Function(f2));
                },
                Expr::Binary(c2, a2, b2) => {
                    assert(w.last() == SpecToken::Operator(c1));
                    assert(expr_tokens(e2).last() == SpecToken::Operator(c2));
                    lemma_expr_tokens_balanced(*a1);
                    lemma_expr_tokens_balanced(*b1);
                    lemma_expr_tokens_balanced(*a2);
                    lemma_expr_tokens_balanced(*b2);
                    assert(expr_tokens(*a1) + expr_tokens(*b1) =~= w.drop_last());
                    assert(expr_tokens(*a2) + expr_tokens(*b2) =~= expr_tokens(e2).drop_last());
                    lemma_split_unique(
                        expr_tokens(*a1),
                        expr_tokens(*b1),
                        expr_tokens(*a2),
                        expr_tokens(*b2),
                    );
                    lemma_postfix_form_determines_tree(*a1, *a2);
                    lemma_postfix_form_determines_tree(*b1, *b2);
                },
                Expr::Call(f2, a2, b2) => {
                    assert(w.last() == SpecToken::Operator(c1));
                    assert(expr_tokens(e2).last() == SpecToken::Function(f2));
                },
            }
        },
        Expr::Call(f1, a1, b1) => {
            match e2 {
                Expr::Literal(n2) => {
                    assert(w.last() == SpecToken::Function(f1));
                    assert(expr_tokens(e2).last() == SpecToken::Operand(n2@));
                },
                Expr::Unary(f2, a2) => {
                    assert(w.last() == SpecToken::Function(f1));
                    assert(expr_tokens(e2).last() == SpecToken::Function(f2));
                    assert(!spec_is_unary(SpecToken::Function(f1)));
                    assert(spec_is_unary(SpecToken::Function(f2)));
                },
                Expr::Binary(c2, a2, b2) => {
                    assert(w.last() == SpecToken::Function(f1));
                    assert(expr_tokens(e2).last() == SpecToken::Operator(c2));
                },
                Expr::Call(f2, a2, b2) => {
                    assert(w.last() == SpecToken::Function(f1));
                    assert(expr_tokens(e2).last() == SpecToken::Function(f2));
                    lemma_expr_tokens_balanced(*a1);
                    lemma_expr_tokens_balanced(*b1);
                    lemma_expr_tokens_balanced(*a2);
                    lemma_expr_tokens_balanced(*b2);
                    assert(expr_tokens(*a1) + expr_tokens(*b1) =~= w.drop_last());
                    assert(expr_tokens(*a2) + expr_tokens(*b2) =~= expr_tokens(e2).drop_last());
                    lemma_split_unique(
                        expr_tokens(*a1),
                        expr_tokens(*b1),
                        expr_tokens(*a2),
                        expr_tokens(*b2),
                    );
                    lemma_postfix_form_determines_tree(*a1, *a2);
                    lemma_postfix_form_determines_tree(*b1, *b2);
                },
            }
        },
    }
}

} // verus!
