use vstd::prelude::*;

use crate::error::{Error, SpecError};
use crate::scanner::{tokens_result_view, tokens_view, OperatorType, SpecToken, Token};

verus! {

/// An operator `top` on the stack leaves before `o1` is pushed: it binds more
/// tightly, or as tightly while `o1` groups from the left.
pub open spec fn yields_to(o1: OperatorType, top: SpecToken) -> bool {
    match top {
        SpecToken::Operator(o2) => o2.spec_precedence() > o1.spec_precedence() || (
        o2.spec_precedence() == o1.spec_precedence() && o1.spec_is_left_associative()),
        _ => false,
    }
}

/// Moves the operators that yield to `o1` from the top of the stack to the output.
pub open spec fn pop_yielding(out: Seq<SpecToken>, ops: Seq<SpecToken>, o1: OperatorType) -> (
    Seq<SpecToken>,
    Seq<SpecToken>,
)
    decreases ops.len(),
{
    if ops.len() > 0 && yields_to(o1, ops.last()) {
        pop_yielding(out.push(ops.last()), ops.drop_last(), o1)
    } else {
        (out, ops)
    }
}

/// Moves entries from the stack to the output until a `(` comes to the top,
/// which is popped and dropped; the stack must hold one.
pub open spec fn close_group(out: Seq<SpecToken>, ops: Seq<SpecToken>) -> Result<
    (Seq<SpecToken>, Seq<SpecToken>),
    SpecError,
>
    decreases ops.len(),
{
    if ops.len() == 0 {
        Err(SpecError::MismatchedParentheses)
    } else if ops.last() is LeftParen {
        Ok((out, ops.drop_last()))
    } else {
        close_group(out.push(ops.last()), ops.drop_last())
    }
}

/// Moves entries from the stack to the output until a `(` is on top, which
/// stays; the stack must hold one.
pub open spec fn close_argument(out: Seq<SpecToken>, ops: Seq<SpecToken>) -> Result<
    (Seq<SpecToken>, Seq<SpecToken>),
    SpecError,
>
    decreases ops.len(),
{
    if ops.len() == 0 {
        Err(SpecError::MismatchedParentheses)
    } else if ops.last() is LeftParen {
        Ok((out, ops))
    } else {
        close_argument(out.push(ops.last()), ops.drop_last())
    }
}

/// One step of the shunting-yard algorithm on the output queue and the
/// operator stack (whose top is its last element).
pub open spec fn shunt_step(out: Seq<SpecToken>, ops: Seq<SpecToken>, t: SpecToken) -> Result<
    (Seq<SpecToken>, Seq<SpecToken>),
    SpecError,
> {
    match t {
        SpecToken::Number(_) => Ok((out.push(t), ops)),
        SpecToken::Function(_) | SpecToken::LeftParen => Ok((out, ops.push(t))),
        SpecToken::Operator(o1) => {
            let (out2, ops2) = pop_yielding(out, ops, o1);
            Ok((out2, ops2.push(t)))
        },
        SpecToken::Comma => close_argument(out, ops),
        SpecToken::RightParen => close_group(out, ops),
    }
}

/// The output queue and operator stack after all of `ts`, or the first error.
pub open spec fn shunt(ts: Seq<SpecToken>) -> Result<(Seq<SpecToken>, Seq<SpecToken>), SpecError>
    decreases ts.len(),
{
    if ts.len() == 0 {
        Ok((seq![], seq![]))
    } else {
        match shunt(ts.drop_last()) {
            Ok((out, ops)) => shunt_step(out, ops, ts.last()),
            Err(e) => Err(e),
        }
    }
}

/// Pops the whole stack onto the output; a `(` left on it is unclosed.
pub open spec fn drain(out: Seq<SpecToken>, ops: Seq<SpecToken>) -> Result<Seq<SpecToken>, SpecError>
    decreases ops.len(),
{
    if ops.len() == 0 {
        Ok(out)
    } else if ops.last() is LeftParen {
        Err(SpecError::MismatchedParentheses)
    } else {
        drain(out.push(ops.last()), ops.drop_last())
    }
}

/// The postfix order of an infix token sequence, or the error that stops the conversion.
pub open spec fn to_postfix(ts: Seq<SpecToken>) -> Result<Seq<SpecToken>, SpecError> {
    match shunt(ts) {
        Ok((out, ops)) => drain(out, ops),
        Err(e) => Err(e),
    }
}

/// Once the conversion of a prefix fails, the conversion of the whole fails the same way.
proof fn lemma_shunt_error_persists(ts: Seq<SpecToken>, k: int)
    requires
        0 <= k <= ts.len(),
        shunt(ts.take(k)) is Err,
    ensures
        shunt(ts) == shunt(ts.take(k)),
    decreases ts.len() - k,
{
    if k == ts.len() {
        assert(ts.take(k) =~= ts);
    } else {
        assert(ts.take(k + 1).drop_last() =~= ts.take(k));
        lemma_shunt_error_persists(ts, k + 1);
    }
}

proof fn lemma_view_push(v: Seq<Token>, t: Token)
    ensures
        tokens_view(v.push(t)) == tokens_view(v).push(t@),
{
    assert(tokens_view(v.push(t)) =~= tokens_view(v).push(t@));
}

proof fn lemma_view_drop_last(v: Seq<Token>)
    requires
        v.len() > 0,
    ensures
        tokens_view(v.drop_last()) == tokens_view(v).drop_last(),
        tokens_view(v).last() == v.last()@,
{
    assert(tokens_view(v.drop_last()) =~= tokens_view(v).drop_last());
}

fn pop_onto(out: &mut Vec<Token>, ops: &mut Vec<Token>)
    requires
        old(ops).len() > 0,
    ensures
        tokens_view(final(out)@) == tokens_view(old(out)@).push(tokens_view(old(ops)@).last()),
        tokens_view(final(ops)@) == tokens_view(old(ops)@).drop_last(),
        final(ops).len() == old(ops).len() - 1,
{
    proof {
        lemma_view_drop_last(ops@);
    }
    if let Some(t) = ops.pop() {
        proof {
            lemma_view_push(out@, t);
        }
        out.push(t);
    }
}

fn pop_yielding_exec(out: &mut Vec<Token>, ops: &mut Vec<Token>, o1: OperatorType)
    ensures
        (tokens_view(final(out)@), tokens_view(final(ops)@)) == pop_yielding(
            tokens_view(old(out)@),
            tokens_view(old(ops)@),
            o1,
        ),
{
    loop
        invariant
            pop_yielding(tokens_view(out@), tokens_view(ops@), o1) == pop_yielding(
                tokens_view(old(out)@),
                tokens_view(old(ops)@),
                o1,
            ),
        ensures
            pop_yielding(tokens_view(out@), tokens_view(ops@), o1) == (
                tokens_view(out@),
                tokens_view(ops@),
            ),
            pop_yielding(tokens_view(out@), tokens_view(ops@), o1) == pop_yielding(
                tokens_view(old(out)@),
                tokens_view(old(ops)@),
                o1,
            ),
        decreases ops.len(),
    {
        let n = ops.len();
        if n == 0 {
            break;
        }
        proof {
            lemma_view_drop_last(ops@);
        }
        let yields = match &ops[n - 1] {
            Token::Operator(o2) => o2.precedence() > o1.precedence() || (o2.precedence()
                == o1.precedence() && o1.is_left_associative()),
            _ => false,
        };
        if !yields {
            break;
        }
        pop_onto(out, ops);
    }
}

fn close_group_exec(out: &mut Vec<Token>, ops: &mut Vec<Token>) -> (r: Result<(), Error>)
    ensures
        match close_group(tokens_view(old(out)@), tokens_view(old(ops)@)) {
            Ok((o, s)) => r is Ok && tokens_view(final(out)@) == o && tokens_view(final(ops)@) == s,
            Err(e) => r is Err && r->Err_0@ == e,
        },
{
    loop
        invariant
            close_group(tokens_view(out@), tokens_view(ops@)) == close_group(
                tokens_view(old(out)@),
                tokens_view(old(ops)@),
            ),
        decreases ops.len(),
    {
        proof {
            if ops.len() > 0 {
                lemma_view_drop_last(ops@);
            }
        }
        match ops.pop() {
            None => {
                return Err(Error::MismatchedParentheses);
            },
            Some(t) => {
                if let Token::LeftParen = t {
                    return Ok(());
                }
                proof {
                    lemma_view_push(out@, t);
                }
                out.push(t);
            },
        }
    }
}

fn close_argument_exec(out: &mut Vec<Token>, ops: &mut Vec<Token>) -> (r: Result<(), Error>)
    ensures
        match close_argument(tokens_view(old(out)@), tokens_view(old(ops)@)) {
            Ok((o, s)) => r is Ok && tokens_view(final(out)@) == o && tokens_view(final(ops)@) == s,
            Err(e) => r is Err && r->Err_0@ == e,
        },
{
    loop
        invariant
            close_argument(tokens_view(out@), tokens_view(ops@)) == close_argument(
                tokens_view(old(out)@),
                tokens_view(old(ops)@),
            ),
        decreases ops.len(),
    {
        let n = ops.len();
        if n == 0 {
            return Err(Error::MismatchedParentheses);
        }
        proof {
            lemma_view_drop_last(ops@);
        }
        if let Token::LeftParen = &ops[n - 1] {
            return Ok(());
        }
        pop_onto(out, ops);
    }
}

fn drain_exec(out: &mut Vec<Token>, ops: &mut Vec<Token>) -> (r: Result<(), Error>)
    ensures
        match drain(tokens_view(old(out)@), tokens_view(old(ops)@)) {
            Ok(o) => r is Ok && tokens_view(final(out)@) == o,
            Err(e) => r is Err && r->Err_0@ == e,
        },
{
    loop
        invariant
            drain(tokens_view(out@), tokens_view(ops@)) == drain(
                tokens_view(old(out)@),
                tokens_view(old(ops)@),
            ),
        decreases ops.len(),
    {
        proof {
            if ops.len() > 0 {
                lemma_view_drop_last(ops@);
            }
        }
        match ops.pop() {
            None => {
                return Ok(());
            },
            Some(t) => {
                if let Token::LeftParen = t {
                    return Err(Error::MismatchedParentheses);
                }
                proof {
                    lemma_view_push(out@, t);
                }
                out.push(t);
            },
        }
    }
}

/// Converts an infix token sequence to postfix order with the shunting-yard
/// algorithm.
pub fn parse_tokens(tokens: Vec<Token>) -> (r: Result<Vec<Token>, Error>)
    ensures
        tokens_result_view(r) == to_postfix(tokens_view(tokens@)),
{
    let ghost input = tokens_view(tokens@);
    let mut output_queue: Vec<Token> = Vec::new();
    let mut operator_stack: Vec<Token> = Vec::new();
    assert(tokens_view(output_queue@) =~= Seq::<SpecToken>::empty());
    assert(tokens_view(operator_stack@) =~= Seq::<SpecToken>::empty());
    for token in it: tokens
        invariant
            input == tokens_view(it.seq()),
            shunt(input.take(it.index() as int)) == Ok::<(Seq<SpecToken>, Seq<SpecToken>), SpecError>(
                (tokens_view(output_queue@), tokens_view(operator_stack@)),
            ),
    {
        let ghost i = it.index() as int;
        proof {
            assert(input.take(i + 1).drop_last() =~= input.take(i));
            assert(input.take(i + 1).last() == token@);
        }
        match token {
            Token::Number(_) => {
                proof {
                    lemma_view_push(output_queue@, token);
                }
                output_queue.push(token);
            },
            Token::LeftParen | Token::Function(_) => {
                proof {
                    lemma_view_push(operator_stack@, token);
                }
                operator_stack.push(token);
            },
            Token::RightParen => {
                if let Err(e) = close_group_exec(&mut output_queue, &mut operator_stack) {
                    proof {
                        lemma_shunt_error_persists(input, i + 1);
                    }
                    return Err(e);
                }
            },
            Token::Comma => {
                if let Err(e) = close_argument_exec(&mut output_queue, &mut operator_stack) {
                    proof {
                        lemma_shunt_error_persists(input, i + 1);
                    }
                    return Err(e);
                }
            },
            Token::Operator(o1) => {
                pop_yielding_exec(&mut output_queue, &mut operator_stack, o1);
                proof {
                    lemma_view_push(operator_stack@, Token::Operator(o1));
                }
                operator_stack.push(Token::Operator(o1));
            },
        }
    }
    proof {
        assert(input.take(input.len() as int) =~= input);
    }
    match drain_exec(&mut output_queue, &mut operator_stack) {
        Ok(()) => Ok(output_queue),
        Err(e) => Err(e),
    }
}

/// How many `(` a token sequence opens more than it closes.
pub open spec fn paren_depth(ts: Seq<SpecToken>) -> int
    decreases ts.len(),
{
    if ts.len() == 0 {
        0
    } else {
        paren_depth(ts.drop_last()) + match ts.last() {
            SpecToken::LeftParen => 1int,
            SpecToken::RightParen => -1int,
            _ => 0int,
        }
    }
}

/// Some `)` closes no `(`: a prefix closes more than it opens.
pub open spec fn has_unmatched_close(ts: Seq<SpecToken>) -> bool {
    exists|k: int| 0 <= k <= ts.len() && #[trigger] paren_depth(ts.take(k)) < 0
}

/// Some `(` is never closed.
pub open spec fn has_unmatched_open(ts: Seq<SpecToken>) -> bool {
    paren_depth(ts) > 0
}

/// How many `(` an operator stack holds.
pub open spec fn open_count(ops: Seq<SpecToken>) -> int
    decreases ops.len(),
{
    if ops.len() == 0 {
        0
    } else {
        open_count(ops.drop_last()) + if ops.last() is LeftParen {
            1int
        } else {
            0int
        }
    }
}

proof fn lemma_open_count_nonneg(ops: Seq<SpecToken>)
    ensures
        open_count(ops) >= 0,
    decreases ops.len(),
{
    if ops.len() > 0 {
        lemma_open_count_nonneg(ops.drop_last());
    }
}

proof fn lemma_open_count_push(ops: Seq<SpecToken>, t: SpecToken)
    ensures
        open_count(ops.push(t)) == open_count(ops) + if t is LeftParen {
            1int
        } else {
            0int
        },
{
    assert(ops.push(t).drop_last() =~= ops);
}

proof fn lemma_pop_yielding_count(out: Seq<SpecToken>, ops: Seq<SpecToken>, o1: OperatorType)
    ensures
        open_count(pop_yielding(out, ops, o1).1) == open_count(ops),
    decreases ops.len(),
{
    if ops.len() > 0 && yields_to(o1, ops.last()) {
        lemma_pop_yielding_count(out.push(ops.last()), ops.drop_last(), o1);
    }
}

proof fn lemma_close_group_count(out: Seq<SpecToken>, ops: Seq<SpecToken>)
    ensures
        match close_group(out, ops) {
            Ok((_, s)) => open_count(s) == open_count(ops) - 1,
            Err(e) => e == SpecError::MismatchedParentheses && open_count(ops) == 0,
        },
    decreases ops.len(),
{
    if ops.len() > 0 {
        lemma_open_count_nonneg(ops.drop_last());
        if !(ops.last() is LeftParen) {
            lemma_close_group_count(out.push(ops.last()), ops.drop_last());
        }
    }
}

proof fn lemma_close_argument_count(out: Seq<SpecToken>, ops: Seq<SpecToken>)
    ensures
        match close_argument(out, ops) {
            Ok((_, s)) => open_count(s) == open_count(ops),
            Err(e) => e == SpecError::MismatchedParentheses,
        },
    decreases ops.len(),
{
    if ops.len() > 0 && !(ops.last() is LeftParen) {
        lemma_close_argument_count(out.push(ops.last()), ops.drop_last());
    }
}

proof fn lemma_drain_count(out: Seq<SpecToken>, ops: Seq<SpecToken>)
    ensures
        drain(out, ops) is Err <==> open_count(ops) > 0,
        drain(out, ops) matches Err(e) ==> e == SpecError::MismatchedParentheses,
    decreases ops.len(),
{
    if ops.len() > 0 {
        lemma_open_count_nonneg(ops.drop_last());
        if !(ops.last() is LeftParen) {
            lemma_drain_count(out.push(ops.last()), ops.drop_last());
        }
    }
}

/// The conversion of a prefix keeps one `(` on the stack for each group it has
/// opened and not closed, and fails only on a parenthesis that does not match.
proof fn lemma_shunt_parens(ts: Seq<SpecToken>)
    ensures
        match shunt(ts) {
            Ok((_, ops)) => open_count(ops) == paren_depth(ts) && !has_unmatched_close(ts),
            Err(e) => e == SpecError::MismatchedParentheses,
        },
    decreases ts.len(),
{
    if ts.len() == 0 {
        assert forall|k: int| 0 <= k <= ts.len() implies paren_depth(#[trigger] ts.take(k)) >= 0 by {
            assert(ts.take(k) =~= ts);
        }
    } else {
        let pre = ts.drop_last();
        let t = ts.last();
        lemma_shunt_parens(pre);
        if let Ok((out, ops)) = shunt(pre) {
            match t {
                SpecToken::Operator(o1) => {
                    lemma_pop_yielding_count(out, ops, o1);
                    lemma_open_count_push(pop_yielding(out, ops, o1).1, t);
                },
                SpecToken::Comma => lemma_close_argument_count(out, ops),
                SpecToken::RightParen => lemma_close_group_count(out, ops),
                _ => lemma_open_count_push(ops, t),
            }
            if let Ok((_, ops2)) = shunt(ts) {
                lemma_open_count_nonneg(ops2);
                assert forall|k: int| 0 <= k <= ts.len() implies paren_depth(#[trigger] ts.take(k))
                    >= 0 by {
                    if k == ts.len() {
                        assert(ts.take(k) =~= ts);
                    } else {
                        assert(ts.take(k) =~= pre.take(k));
                    }
                }
            }
        }
    }
}

/// An input with a `)` that closes no `(`, or a `(` that is never closed,
/// fails conversion with a mismatched-parentheses error.
pub proof fn law_unmatched_parenthesis(ts: Seq<SpecToken>)
    requires
        has_unmatched_close(ts) || has_unmatched_open(ts),
    ensures
        to_postfix(ts) == Err::<Seq<SpecToken>, SpecError>(SpecError::MismatchedParentheses),
{
    lemma_shunt_parens(ts);
    if let Ok((out, ops)) = shunt(ts) {
        lemma_drain_count(out, ops);
    }
}

} // verus!
