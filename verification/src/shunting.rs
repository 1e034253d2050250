use vstd::prelude::*;

verus! {

use crate::token::{
    own_token, postfix_token_ok, spec_evaluable, spec_is_function, spec_is_left_associative,
    spec_is_parenthesis, spec_same_precedence, spec_takes_precedence, spec_wf_token, is_function,
    is_left_associative, is_parenthesis, same_precedence, takes_precedence, lemma_toks_view_push,
    lemma_toks_view_drop_last, toks_view, Error, SpecError, SpecToken, Token,
};

pub open spec fn is_open_paren(t: SpecToken) -> bool {
    t == SpecToken::Punctuation('(')
}

/// Whether the conversion keeps popping the operator stack before pushing
/// operator `o1`: the top is not an open parenthesis, and either takes
/// strictly higher precedence than `o1`, or sits in the same tier while `o1`
/// is left-associative.
pub open spec fn spec_should_pop(st: Seq<SpecToken>, o1: SpecToken) -> bool {
    st.len() > 0 && !is_open_paren(st.last()) && (spec_takes_precedence(st.last(), o1) || (
    spec_same_precedence(o1, st.last()) && spec_is_left_associative(o1)))
}

/// What the arrival of operator `o1` pops off the stack `st` (top at the
/// end): the tokens popped, in pop order, and the stack that remains.
pub open spec fn pop_for_operator(st: Seq<SpecToken>, o1: SpecToken) -> (
    Seq<SpecToken>,
    Seq<SpecToken>,
)
    decreases st.len(),
{
    if spec_should_pop(st, o1) {
        let pr = pop_for_operator(st.drop_last(), o1);
        (seq![st.last()] + pr.0, pr.1)
    } else {
        (Seq::<SpecToken>::empty(), st)
    }
}

/// Pops the stack down to the nearest open parenthesis: the tokens popped,
/// in pop order, and the stack with that parenthesis still on top; `None`
/// when no open parenthesis is pending.
pub open spec fn pop_to_paren(st: Seq<SpecToken>) -> Option<(Seq<SpecToken>, Seq<SpecToken>)>
    decreases st.len(),
{
    if st.len() == 0 {
        None
    } else if is_open_paren(st.last()) {
        Some((Seq::<SpecToken>::empty(), st))
    } else {
        match pop_to_paren(st.drop_last()) {
            Some(pr) => Some((seq![st.last()] + pr.0, pr.1)),
            None => None,
        }
    }
}

/// One step of the shunting-yard conversion: how token `t` transforms the
/// output sequence and the operator stack.  An operand is appended to the
/// output; a function or an open parenthesis is pushed; an operator first
/// pops by precedence; a comma pops down to the pending open parenthesis
/// (none pending is `MisplacedComma`); a close parenthesis pops down to the
/// matching open parenthesis, discards it, and then moves a function found
/// beneath it to the output (no match is `MismatchedParenthesis`).
pub open spec fn sy_step(out: Seq<SpecToken>, st: Seq<SpecToken>, t: SpecToken) -> Result<
    (Seq<SpecToken>, Seq<SpecToken>),
    SpecError,
> {
    match t {
        SpecToken::Operand(_) => Ok((out.push(t), st)),
        SpecToken::Function(_) => Ok((out, st.push(t))),
        SpecToken::Operator(_) => {
            let pr = pop_for_operator(st, t);
            Ok((out + pr.0, pr.1.push(t)))
        },
        SpecToken::Punctuation(c) => {
            if c == ',' {
                match pop_to_paren(st) {
                    Some(pr) => Ok((out + pr.0, pr.1)),
                    None => Err(SpecError::MisplacedComma),
                }
            } else if c == '(' {
                Ok((out, st.push(t)))
            } else if c == ')' {
                match pop_to_paren(st) {
                    Some(pr) => {
                        let st1 = pr.1.drop_last();
                        if st1.len() > 0 && spec_is_function(st1.last()) {
                            Ok((out + pr.0 + seq![st1.last()], st1.drop_last()))
                        } else {
                            Ok((out + pr.0, st1))
                        }
                    },
                    None => Err(SpecError::MismatchedParenthesis),
                }
            } else {
                Ok((out, st))
            }
        },
    }
}

/// Runs the conversion over `ts` from position `i` with the given output and
/// stack, stopping at the first error.
pub open spec fn sy_run(
    ts: Seq<SpecToken>,
    i: int,
    out: Seq<SpecToken>,
    st: Seq<SpecToken>,
) -> Result<(Seq<SpecToken>, Seq<SpecToken>), SpecError>
    decreases ts.len() - i,
{
    if i < 0 || i >= ts.len() {
        Ok((out, st))
    } else {
        match sy_step(out, st, ts[i]) {
            Ok(pr) => sy_run(ts, i + 1, pr.0, pr.1),
            Err(e) => Err(e),
        }
    }
}

/// After the input is consumed the stack is drained to the output; a
/// parenthesis still pending is `MismatchedParenthesis`.
pub open spec fn spec_drain(out: Seq<SpecToken>, st: Seq<SpecToken>) -> Result<
    Seq<SpecToken>,
    SpecError,
>
    decreases st.len(),
{
    if st.len() == 0 {
        Ok(out)
    } else if spec_is_parenthesis(st.last()) {
        Err(SpecError::MismatchedParenthesis)
    } else {
        spec_drain(out.push(st.last()), st.drop_last())
    }
}

/// The whole conversion: the postfix order of an infix token sequence, or
/// the first error.
pub open spec fn spec_to_postfix(ts: Seq<SpecToken>) -> Result<Seq<SpecToken>, SpecError> {
    match sy_run(ts, 0, Seq::<SpecToken>::empty(), Seq::<SpecToken>::empty()) {
        Ok(pr) => spec_drain(pr.0, pr.1),
        Err(e) => Err(e),
    }
}

/// A token the conversion may hold on its operator stack: an operator, a
/// function, or an open parenthesis, each well formed.
pub open spec fn stack_token_ok(t: SpecToken) -> bool {
    spec_wf_token(t) && match t {
        SpecToken::Operand(_) => false,
        SpecToken::Operator(_) => true,
        SpecToken::Function(_) => true,
        SpecToken::Punctuation(c) => c == '(',
    }
}

pub open spec fn all_stack_ok(ts: Seq<SpecToken>) -> bool {
    forall|i: int| 0 <= i < ts.len() ==> stack_token_ok(#[trigger] ts[i])
}

proof fn lemma_pop_for_operator_ok(st: Seq<SpecToken>, o1: SpecToken)
    requires
        all_stack_ok(st),
    ensures
        spec_evaluable(pop_for_operator(st, o1).0),
        all_stack_ok(pop_for_operator(st, o1).1),
    decreases st.len(),
{
    if spec_should_pop(st, o1) {
        assert(all_stack_ok(st.drop_last()));
        lemma_pop_for_operator_ok(st.drop_last(), o1);
        let pr = pop_for_operator(st.drop_last(), o1);
        assert forall|i: int|
            0 <= i < (seq![st.last()] + pr.0).len() implies postfix_token_ok(
            #[trigger] (seq![st.last()] + pr.0)[i],
        ) by {
            if i == 0 {
                assert(stack_token_ok(st.last()));
            } else {
                assert((seq![st.last()] + pr.0)[i] == pr.0[i - 1]);
            }
        }
    }
}

proof fn lemma_pop_to_paren_ok(st: Seq<SpecToken>)
    requires
        all_stack_ok(st),
    ensures
        pop_to_paren(st) matches Some(pr) ==> spec_evaluable(pr.0) && all_stack_ok(pr.1)
            && pr.1.len() > 0 && is_open_paren(pr.1.last()),
    decreases st.len(),
{
    if st.len() == 0 {
    } else if is_open_paren(st.last()) {
    } else {
        assert(all_stack_ok(st.drop_last()));
        lemma_pop_to_paren_ok(st.drop_last());
        match pop_to_paren(st.drop_last()) {
            Some(pr) => {
                assert(stack_token_ok(st.last()));
                assert forall|i: int|
                    0 <= i < (seq![st.last()] + pr.0).len() implies postfix_token_ok(
                    #[trigger] (seq![st.last()] + pr.0)[i],
                ) by {
                    if i > 0 {
                        assert((seq![st.last()] + pr.0)[i] == pr.0[i - 1]);
                    }
                }
            },
            None => {},
        }
    }
}

proof fn lemma_sy_step_ok(out: Seq<SpecToken>, st: Seq<SpecToken>, t: SpecToken)
    requires
        spec_evaluable(out),
        all_stack_ok(st),
        spec_wf_token(t),
    ensures
        sy_step(out, st, t) matches Ok(pr) ==> spec_evaluable(pr.0) && all_stack_ok(pr.1),
{
    match t {
        SpecToken::Operand(_) => {
            assert(spec_evaluable(out.push(t)));
        },
        SpecToken::Function(_) => {
            assert(all_stack_ok(st.push(t)));
        },
        SpecToken::Operator(_) => {
            lemma_pop_for_operator_ok(st, t);
            let pr = pop_for_operator(st, t);
            assert(spec_evaluable(out + pr.0));
            assert(all_stack_ok(pr.1.push(t)));
        },
        SpecToken::Punctuation(c) => {
            if c == ',' {
                lemma_pop_to_paren_ok(st);
                match pop_to_paren(st) {
                    Some(pr) => {
                        assert(spec_evaluable(out + pr.0));
                    },
                    None => {},
                }
            } else if c == '(' {
                assert(all_stack_ok(st.push(t)));
            } else if c == ')' {
                lemma_pop_to_paren_ok(st);
                match pop_to_paren(st) {
                    Some(pr) => {
                        let st1 = pr.1.drop_last();
                        assert(all_stack_ok(st1));
                        if st1.len() > 0 && spec_is_function(st1.last()) {
                            assert(spec_evaluable(out + pr.0 + seq![st1.last()]));
                            assert(all_stack_ok(st1.drop_last()));
                        } else {
                            assert(spec_evaluable(out + pr.0));
                        }
                    },
                    None => {},
                }
            }
        },
    }
}

proof fn lemma_sy_run_ok(ts: Seq<SpecToken>, i: int, out: Seq<SpecToken>, st: Seq<SpecToken>)
    requires
        forall|k: int| 0 <= k < ts.len() ==> spec_wf_token(#[trigger] ts[k]),
        spec_evaluable(out),
        all_stack_ok(st),
    ensures
        sy_run(ts, i, out, st) matches Ok(pr) ==> spec_evaluable(pr.0) && all_stack_ok(pr.1),
    decreases ts.len() - i,
{
    if i < 0 || i >= ts.len() {
    } else {
        lemma_sy_step_ok(out, st, ts[i]);
        match sy_step(out, st, ts[i]) {
            Ok(pr) => {
                lemma_sy_run_ok(ts, i + 1, pr.0, pr.1);
            },
            Err(_) => {},
        }
    }
}

proof fn lemma_drain_ok(out: Seq<SpecToken>, st: Seq<SpecToken>)
    requires
        spec_evaluable(out),
        all_stack_ok(st),
    ensures
        spec_drain(out, st) matches Ok(os) ==> spec_evaluable(os),
    decreases st.len(),
{
    if st.len() == 0 {
    } else if spec_is_parenthesis(st.last()) {
    } else {
        assert(stack_token_ok(st.last()));
        assert(spec_evaluable(out.push(st.last())));
        assert(all_stack_ok(st.drop_last()));
        lemma_drain_ok(out.push(st.last()), st.drop_last());
    }
}

/// What the conversion emits on success is a finished postfix sequence: all
/// tokens well formed, no punctuation among them.
pub proof fn lemma_to_postfix_evaluable(ts: Seq<SpecToken>)
    requires
        forall|k: int| 0 <= k < ts.len() ==> spec_wf_token(#[trigger] ts[k]),
    ensures
        spec_to_postfix(ts) matches Ok(os) ==> spec_evaluable(os),
{
    lemma_sy_run_ok(ts, 0, Seq::<SpecToken>::empty(), Seq::<SpecToken>::empty());
    match sy_run(ts, 0, Seq::<SpecToken>::empty(), Seq::<SpecToken>::empty()) {
        Ok(pr) => {
            lemma_drain_ok(pr.0, pr.1);
        },
        Err(_) => {},
    }
}

/// Whether the conversion keeps popping before pushing operator `o1`.
fn should_pop(st: &Vec<Token>, o1: &Token) -> (r: bool)
    ensures
        r == spec_should_pop(toks_view(st@), o1@),
{
    if st.len() == 0 {
        return false;
    }
    let top = &st[st.len() - 1];
    proof {
        assert(toks_view(st@).last() == top@);
    }
    let open = match top {
        Token::Punctuation(c) => *c == '(',
        _ => false,
    };
    if open {
        false
    } else {
        takes_precedence(top, o1) || (same_precedence(o1, top) && is_left_associative(o1))
    }
}

/// Whether the stack still has a top to pop on the way down to an open
/// parenthesis.
fn top_not_open(st: &Vec<Token>) -> (r: bool)
    ensures
        r == (toks_view(st@).len() > 0 && !is_open_paren(toks_view(st@).last())),
{
    if st.len() == 0 {
        return false;
    }
    let top = &st[st.len() - 1];
    proof {
        assert(toks_view(st@).last() == top@);
    }
    match top {
        Token::Punctuation(c) => *c != '(',
        _ => true,
    }
}

/// Moves the stack's top token to the end of the output.
fn move_top(output_queue: &mut Vec<Token>, operator_stack: &mut Vec<Token>)
    requires
        old(operator_stack)@.len() > 0,
    ensures
        toks_view(final(output_queue)@) == toks_view(old(output_queue)@).push(
            toks_view(old(operator_stack)@).last(),
        ),
        toks_view(final(operator_stack)@) == toks_view(old(operator_stack)@).drop_last(),
{
    proof {
        lemma_toks_view_drop_last(operator_stack@);
        assert(operator_stack@.subrange(0, operator_stack@.len() - 1)
            =~= operator_stack@.drop_last());
        assert(toks_view(operator_stack@).last() == operator_stack@[operator_stack@.len() - 1]@);
    }
    let x = operator_stack.pop().unwrap();
    proof {
        lemma_toks_view_push(output_queue@, x);
    }
    output_queue.push(x);
}

/// The relation the comma and close-parenthesis loops maintain: what popping
/// `orig` down to a parenthesis yields is what was already popped plus what
/// popping the current stack still yields.
pub open spec fn paren_pop_state(
    orig: Seq<SpecToken>,
    cur: Seq<SpecToken>,
    popped: Seq<SpecToken>,
) -> bool {
    match (pop_to_paren(orig), pop_to_paren(cur)) {
        (Some(a), Some(b)) => a.0 == popped + b.0 && a.1 == b.1,
        (None, None) => true,
        _ => false,
    }
}

/// The shunting-yard conversion, after Dijkstra: one left-to-right pass over
/// the infix tokens with an operator stack.  Returns exactly the postfix
/// sequence of `spec_to_postfix`, or its first error.
pub fn infix_to_postfix(infix: &Vec<Token>) -> (r: Result<Vec<Token>, Error>)
    ensures
        match r {
            Ok(v) => spec_to_postfix(toks_view(infix@)) == Ok::<Seq<SpecToken>, SpecError>(
                toks_view(v@),
            ),
            Err(e) => spec_to_postfix(toks_view(infix@)) == Err::<Seq<SpecToken>, SpecError>(e@),
        },
{
    let ghost ts = toks_view(infix@);
    let mut output_queue: Vec<Token> = Vec::new();
    let mut operator_stack: Vec<Token> = Vec::new();
    let mut k: usize = 0;
    proof {
        assert(toks_view(output_queue@) =~= Seq::<SpecToken>::empty());
        assert(toks_view(operator_stack@) =~= Seq::<SpecToken>::empty());
    }
    while k < infix.len()
        invariant
            ts == toks_view(infix@),
            0 <= k <= infix.len(),
            sy_run(ts, k as int, toks_view(output_queue@), toks_view(operator_stack@)) == sy_run(
                ts,
                0,
                Seq::<SpecToken>::empty(),
                Seq::<SpecToken>::empty(),
            ),
        decreases infix.len() - k,
    {
        let ghost out0 = toks_view(output_queue@);
        let ghost st0 = toks_view(operator_stack@);
        let t = &infix[k];
        proof {
            assert(ts[k as int] == t@);
        }
        match t {
            Token::Operand(_) => {
                let o = own_token(t);
                proof {
                    lemma_toks_view_push(output_queue@, o);
                }
                output_queue.push(o);
            },
            Token::Function(_) => {
                let o = own_token(t);
                proof {
                    lemma_toks_view_push(operator_stack@, o);
                }
                operator_stack.push(o);
            },
            Token::Operator(_) => {
                let ghost mut popped = Seq::<SpecToken>::empty();
                proof {
                    assert(out0 + popped =~= out0);
                    assert(popped + pop_for_operator(st0, t@).0 =~= pop_for_operator(st0, t@).0);
                }
                while should_pop(&operator_stack, t)
                    invariant
                        toks_view(output_queue@) == out0 + popped,
                        pop_for_operator(st0, t@).0 == popped + pop_for_operator(
                            toks_view(operator_stack@),
                            t@,
                        ).0,
                        pop_for_operator(st0, t@).1 == pop_for_operator(
                            toks_view(operator_stack@),
                            t@,
                        ).1,
                    decreases operator_stack.len(),
                {
                    let ghost cur = toks_view(operator_stack@);
                    move_top(&mut output_queue, &mut operator_stack);
                    proof {
                        let rest = pop_for_operator(toks_view(operator_stack@), t@);
                        assert((out0 + popped).push(cur.last()) =~= out0 + popped.push(cur.last()));
                        assert(popped + (seq![cur.last()] + rest.0) =~= popped.push(cur.last())
                            + rest.0);
                        popped = popped.push(cur.last());
                    }
                }
                proof {
                    assert(popped + Seq::<SpecToken>::empty() =~= popped);
                }
                let o = own_token(t);
                proof {
                    lemma_toks_view_push(operator_stack@, o);
                }
                operator_stack.push(o);
            },
            Token::Punctuation(c) => {
                if *c == ',' {
                    let ghost mut popped = Seq::<SpecToken>::empty();
                    proof {
                        if pop_to_paren(st0) is Some {
                            assert(popped + pop_to_paren(st0)->Some_0.0 =~= pop_to_paren(
                                st0,
                            )->Some_0.0);
                        }
                    }
                    while top_not_open(&operator_stack)
                        invariant
                            toks_view(output_queue@) == out0 + popped,
                            paren_pop_state(st0, toks_view(operator_stack@), popped),
                        decreases operator_stack.len(),
                    {
                        let ghost cur = toks_view(operator_stack@);
                        move_top(&mut output_queue, &mut operator_stack);
                        proof {
                            assert((out0 + popped).push(cur.last()) =~= out0 + popped.push(
                                cur.last(),
                            ));
                            if pop_to_paren(toks_view(operator_stack@)) is Some {
                                let b0 = pop_to_paren(toks_view(operator_stack@))->Some_0.0;
                                assert(popped + (seq![cur.last()] + b0) =~= popped.push(cur.last())
                                    + b0);
                            }
                            popped = popped.push(cur.last());
                        }
                    }
                    if operator_stack.len() == 0 {
                        return Err(Error::MisplacedComma);
                    }
                    proof {
                        assert(popped + Seq::<SpecToken>::empty() =~= popped);
                    }
                } else if *c == '(' {
                    let o = own_token(t);
                    proof {
                        lemma_toks_view_push(operator_stack@, o);
                    }
                    operator_stack.push(o);
                } else if *c == ')' {
                    let ghost mut popped = Seq::<SpecToken>::empty();
                    proof {
                        if pop_to_paren(st0) is Some {
                            assert(popped + pop_to_paren(st0)->Some_0.0 =~= pop_to_paren(
                                st0,
                            )->Some_0.0);
                        }
                    }
                    while top_not_open(&operator_stack)
                        invariant
                            toks_view(output_queue@) == out0 + popped,
                            paren_pop_state(st0, toks_view(operator_stack@), popped),
                        decreases operator_stack.len(),
                    {
                        let ghost cur = toks_view(operator_stack@);
                        move_top(&mut output_queue, &mut operator_stack);
                        proof {
                            assert((out0 + popped).push(cur.last()) =~= out0 + popped.push(
                                cur.last(),
                            ));
                            if pop_to_paren(toks_view(operator_stack@)) is Some {
                                let b0 = pop_to_paren(toks_view(operator_stack@))->Some_0.0;
                                assert(popped + (seq![cur.last()] + b0) =~= popped.push(cur.last())
                                    + b0);
                            }
                            popped = popped.push(cur.last());
                        }
                    }
                    if operator_stack.len() == 0 {
                        return Err(Error::MismatchedParenthesis);
                    }
                    proof {
                        assert(popped + Seq::<SpecToken>::empty() =~= popped);
                        lemma_toks_view_drop_last(operator_stack@);
                        assert(operator_stack@.subrange(0, operator_stack@.len() - 1)
                            =~= operator_stack@.drop_last());
                    }
                    let _ = operator_stack.pop();
                    let mut top_is_function = false;
                    if operator_stack.len() > 0 {
                        proof {
                            assert(toks_view(operator_stack@).last()
                                == operator_stack@[operator_stack@.len() - 1]@);
                        }
                        top_is_function = is_function(&operator_stack[operator_stack.len() - 1]);
                    }
                    if top_is_function {
                        let ghost st1 = toks_view(operator_stack@);
                        move_top(&mut output_queue, &mut operator_stack);
                        proof {
                            assert((out0 + popped).push(st1.last()) =~= out0 + popped + seq![
                                st1.last()
                            ]);
                        }
                    }
                } else {
                    // No other punctuation reaches the conversion; one that
                    // did would be ignored, as the step function says.
                }
            },
        }
        proof {
            assert(sy_run(ts, k as int, out0, st0) == sy_run(
                ts,
                k + 1,
                toks_view(output_queue@),
                toks_view(operator_stack@),
            ));
        }
        k += 1;
    }
    let ghost outr = toks_view(output_queue@);
    let ghost str0 = toks_view(operator_stack@);
    proof {
        assert(spec_to_postfix(ts) == spec_drain(outr, str0));
    }
    while operator_stack.len() > 0
        invariant
            spec_to_postfix(toks_view(infix@)) == spec_drain(outr, str0),
            spec_drain(toks_view(output_queue@), toks_view(operator_stack@)) == spec_drain(
                outr,
                str0,
            ),
        decreases operator_stack.len(),
    {
        proof {
            lemma_toks_view_drop_last(operator_stack@);
            assert(operator_stack@.subrange(0, operator_stack@.len() - 1)
                =~= operator_stack@.drop_last());
            assert(toks_view(operator_stack@).last()
                == operator_stack@[operator_stack@.len() - 1]@);
        }
        let x = operator_stack.pop().unwrap();
        if is_parenthesis(&x) {
            return Err(Error::MismatchedParenthesis);
        }
        proof {
            lemma_toks_view_push(output_queue@, x);
        }
        output_queue.push(x);
    }
    Ok(output_queue)
}

} // verus!
