use vstd::prelude::*;

use crate::error::{Error, SpecError};
use crate::scanner::{builtin_named, tokens_view, Builtin, OperatorType, SpecToken, Token};

verus! {

/// An expression tree, as the postfix stack machine assembles it.
#[derive(Debug)]
pub enum Expr {
    /// A numeric literal, as its source text.
    Number(String),
    /// A binary operator applied to a left and a right operand.
    Binary(OperatorType, Box<Expr>, Box<Expr>),
    /// A one-operand built-in function applied to its operand.
    Call1(Builtin, Box<Expr>),
    /// A two-operand built-in function applied to its first and second operand.
    Call2(Builtin, Box<Expr>, Box<Expr>),
}

/// The mathematical model of an [`Expr`].
pub enum SpecExpr {
    Number(Seq<char>),
    Binary(OperatorType, Box<SpecExpr>, Box<SpecExpr>),
    Call1(Builtin, Box<SpecExpr>),
    Call2(Builtin, Box<SpecExpr>, Box<SpecExpr>),
}

impl View for Expr {
    type V = SpecExpr;

    open spec fn view(&self) -> SpecExpr
        decreases self,
    {
        match self {
            Expr::Number(s) => SpecExpr::Number(s@),
            Expr::Binary(o, a, b) => SpecExpr::Binary(*o, Box::new((**a).view()), Box::new((**b).view())),
            Expr::Call1(f, a) => SpecExpr::Call1(*f, Box::new((**a).view())),
            Expr::Call2(f, a, b) => SpecExpr::Call2(*f, Box::new((**a).view()), Box::new((**b).view())),
        }
    }
}

/// The models of a stack of expressions.
pub open spec fn exprs_view(es: Seq<Expr>) -> Seq<SpecExpr> {
    es.map_values(|e: Expr| e@)
}

/// The model of an evaluation: the tree's model, or the error's.
pub open spec fn expr_result_view(r: Result<Expr, Error>) -> Result<SpecExpr, SpecError> {
    match r {
        Ok(e) => Ok(e@),
        Err(e) => Err(e@),
    }
}

/// How many operands a postfix token takes from the stack.
pub open spec fn operands_taken(t: SpecToken) -> nat {
    match t {
        SpecToken::Operator(_) => 2,
        SpecToken::Function(name) => match builtin_named(name) {
            Some(f) => f.arity(),
            None => 0,
        },
        _ => 0,
    }
}

/// The stack after one postfix token: a number is pushed; an operator or a
/// function replaces its operands (the right operand on top) by its
/// application; the structural tokens change nothing.
pub open spec fn apply_token(stack: Seq<SpecExpr>, t: SpecToken) -> Result<Seq<SpecExpr>, SpecError> {
    let n = stack.len() as int;
    match t {
        SpecToken::Number(s) => Ok(stack.push(SpecExpr::Number(s))),
        SpecToken::Operator(o) => {
            if n >= 2 {
                Ok(
                    stack.take(n - 2).push(
                        SpecExpr::Binary(o, Box::new(stack[n - 2]), Box::new(stack[n - 1])),
                    ),
                )
            } else {
                Err(SpecError::ExpectedNumberOnStack)
            }
        },
        SpecToken::Function(name) => match builtin_named(name) {
            Some(f) => {
                if f.arity() == 2 {
                    if n >= 2 {
                        Ok(
                            stack.take(n - 2).push(
                                SpecExpr::Call2(f, Box::new(stack[n - 2]), Box::new(stack[n - 1])),
                            ),
                        )
                    } else {
                        Err(SpecError::ExpectedNumberOnStack)
                    }
                } else {
                    if n >= 1 {
                        Ok(stack.take(n - 1).push(SpecExpr::Call1(f, Box::new(stack[n - 1]))))
                    } else {
                        Err(SpecError::ExpectedNumberOnStack)
                    }
                }
            },
            None => Err(SpecError::UnknownFunction(name)),
        },
        _ => Ok(stack),
    }
}

/// The stack after all of `ts`, or the first error.
pub open spec fn run(ts: Seq<SpecToken>) -> Result<Seq<SpecExpr>, SpecError>
    decreases ts.len(),
{
    if ts.len() == 0 {
        Ok(seq![])
    } else {
        match run(ts.drop_last()) {
            Ok(stack) => apply_token(stack, ts.last()),
            Err(e) => Err(e),
        }
    }
}

/// The expression that a postfix sequence denotes: the one value left on the
/// stack, or the error that stops the machine.
pub open spec fn evaluate(ts: Seq<SpecToken>) -> Result<SpecExpr, SpecError> {
    match run(ts) {
        Ok(stack) => if stack.len() == 1 {
            Ok(stack[0])
        } else {
            Err(SpecError::BadExpression)
        },
        Err(e) => Err(e),
    }
}

proof fn lemma_exprs_push(v: Seq<Expr>, e: Expr)
    ensures
        exprs_view(v.push(e)) == exprs_view(v).push(e@),
{
    assert(exprs_view(v.push(e)) =~= exprs_view(v).push(e@));
}

/// Pops the right operand, then the left one.
fn pop_two(stack: &mut Vec<Expr>) -> (r: Result<(Expr, Expr), Error>)
    ensures
        old(stack).len() >= 2 <==> r is Ok,
        r matches Ok((a, b)) ==> {
            let n = old(stack).len() as int;
            &&& exprs_view(final(stack)@) == exprs_view(old(stack)@).take(n - 2)
            &&& a@ == exprs_view(old(stack)@)[n - 2]
            &&& b@ == exprs_view(old(stack)@)[n - 1]
        },
        r matches Err(e) ==> e@ == SpecError::ExpectedNumberOnStack,
{
    let ghost s = exprs_view(stack@);
    let b = match stack.pop() {
        Some(b) => b,
        None => return Err(Error::ExpectedNumberOnStack),
    };
    let a = match stack.pop() {
        Some(a) => a,
        None => return Err(Error::ExpectedNumberOnStack),
    };
    assert(exprs_view(stack@) =~= s.take(s.len() - 2));
    Ok((a, b))
}

fn pop_one(stack: &mut Vec<Expr>) -> (r: Result<Expr, Error>)
    ensures
        old(stack).len() >= 1 <==> r is Ok,
        r matches Ok(a) ==> {
            let n = old(stack).len() as int;
            &&& exprs_view(final(stack)@) == exprs_view(old(stack)@).take(n - 1)
            &&& a@ == exprs_view(old(stack)@)[n - 1]
        },
        r matches Err(e) ==> e@ == SpecError::ExpectedNumberOnStack,
{
    let ghost s = exprs_view(stack@);
    let a = match stack.pop() {
        Some(a) => a,
        None => return Err(Error::ExpectedNumberOnStack),
    };
    assert(exprs_view(stack@) =~= s.take(s.len() - 1));
    Ok(a)
}

/// Applies one postfix token to the stack.
fn step(stack: &mut Vec<Expr>, token: Token) -> (r: Result<(), Error>)
    ensures
        match apply_token(exprs_view(old(stack)@), token@) {
            Ok(s) => r is Ok && exprs_view(final(stack)@) == s,
            Err(e) => r is Err && r->Err_0@ == e,
        },
{
    match token {
        Token::Number(s) => {
            let e = Expr::Number(s);
            proof {
                lemma_exprs_push(stack@, e);
            }
            stack.push(e);
        },
        Token::Operator(o) => {
            let (a, b) = pop_two(stack)?;
            let e = Expr::Binary(o, Box::new(a), Box::new(b));
            proof {
                lemma_exprs_push(stack@, e);
            }
            stack.push(e);
        },
        Token::Function(name) => {
            match Builtin::from_name(name.as_str()) {
                Some(f) => {
                    if let Builtin::Max | Builtin::Min = f {
                        let (a, b) = pop_two(stack)?;
                        let e = Expr::Call2(f, Box::new(a), Box::new(b));
                        proof {
                            lemma_exprs_push(stack@, e);
                        }
                        stack.push(e);
                    } else {
                        let a = pop_one(stack)?;
                        let e = Expr::Call1(f, Box::new(a));
                        proof {
                            lemma_exprs_push(stack@, e);
                        }
                        stack.push(e);
                    }
                },
                None => return Err(Error::UnknownFunction(name)),
            }
        },
        Token::Comma | Token::LeftParen | Token::RightParen => {},
    }
    Ok(())
}

/// Once the machine stops on a prefix, it stops the same way on the whole.
proof fn lemma_run_error_persists(ts: Seq<SpecToken>, k: int)
    requires
        0 <= k <= ts.len(),
        run(ts.take(k)) is Err,
    ensures
        run(ts) == run(ts.take(k)),
    decreases ts.len() - k,
{
    if k == ts.len() {
        assert(ts.take(k) =~= ts);
    } else {
        assert(ts.take(k + 1).drop_last() =~= ts.take(k));
        lemma_run_error_persists(ts, k + 1);
    }
}

/// Runs the postfix stack machine over the tokens and returns the expression
/// tree whose value the sequence denotes.
pub fn eval_rpn(output_queue: Vec<Token>) -> (r: Result<Expr, Error>)
    ensures
        expr_result_view(r) == evaluate(tokens_view(output_queue@)),
{
    let ghost input = tokens_view(output_queue@);
    let mut stack: Vec<Expr> = Vec::new();
    assert(exprs_view(stack@) =~= Seq::<SpecExpr>::empty());
    for token in it: output_queue
        invariant
            input == tokens_view(it.seq()),
            run(input.take(it.index() as int)) == Ok::<Seq<SpecExpr>, SpecError>(
                exprs_view(stack@),
            ),
    {
        let ghost i = it.index() as int;
        proof {
            assert(input.take(i + 1).drop_last() =~= input.take(i));
            assert(input.take(i + 1).last() == token@);
        }
        if let Err(e) = step(&mut stack, token) {
            proof {
                lemma_run_error_persists(input, i + 1);
            }
            return Err(e);
        }
    }
    proof {
        assert(input.take(input.len() as int) =~= input);
    }
    if stack.len() == 1 {
        match stack.pop() {
            Some(e) => {
                return Ok(e);
            },
            None => {},
        }
    }
    Err(Error::BadExpression)
}

/// How a postfix token changes the height of the stack when it applies.
pub open spec fn stack_effect(t: SpecToken) -> int {
    match t {
        SpecToken::Number(_) => 1,
        SpecToken::Operator(_) => -1,
        SpecToken::Function(name) => match builtin_named(name) {
            Some(f) => 1 - f.arity(),
            None => 0,
        },
        _ => 0,
    }
}

/// The height of the stack after a postfix sequence, counted token by token.
pub open spec fn stack_depth(ts: Seq<SpecToken>) -> int
    decreases ts.len(),
{
    if ts.len() == 0 {
        0
    } else {
        stack_depth(ts.drop_last()) + stack_effect(ts.last())
    }
}

/// Every function token names a built-in function.
pub open spec fn names_known(ts: Seq<SpecToken>) -> bool {
    forall|i: int|
        0 <= i < ts.len() && (#[trigger] ts[i]) is Function ==> builtin_named(ts[i]->Function_0) is Some
}

/// Some operator or function finds fewer operands on the stack than it takes.
pub open spec fn misses_operand(ts: Seq<SpecToken>) -> bool {
    exists|k: int| 0 <= k < ts.len() && #[trigger] stack_depth(ts.take(k)) < operands_taken(ts[k])
}

proof fn lemma_run_shape(ts: Seq<SpecToken>)
    requires
        names_known(ts),
    ensures
        match run(ts) {
            Ok(stack) => !misses_operand(ts) && stack.len() == stack_depth(ts),
            Err(e) => misses_operand(ts) && e == SpecError::ExpectedNumberOnStack,
        },
    decreases ts.len(),
{
    if ts.len() > 0 {
        let pre = ts.drop_last();
        let n = pre.len() as int;
        let t = ts.last();
        assert(names_known(pre)) by {
            assert forall|i: int| 0 <= i < pre.len() && (#[trigger] pre[i]) is Function implies builtin_named(
                pre[i]->Function_0,
            ) is Some by {
                assert(pre[i] == ts[i]);
            }
        }
        lemma_run_shape(pre);
        assert(ts[n] == t);
        assert(ts.take(n) =~= pre);
        match run(pre) {
            Ok(stack) => {
                if run(ts) is Ok {
                    assert forall|k: int| 0 <= k < ts.len() implies #[trigger] stack_depth(ts.take(k))
                        >= operands_taken(ts[k]) by {
                        if k < n {
                            assert(ts.take(k) =~= pre.take(k));
                            assert(ts[k] == pre[k]);
                            if stack_depth(pre.take(k)) < operands_taken(pre[k]) {
                                assert(misses_operand(pre));
                            }
                        }
                    }
                } else {
                    assert(stack_depth(ts.take(n)) < operands_taken(ts[n]));
                }
            },
            Err(e) => {
                let k = choose|k: int| 0 <= k < pre.len() && #[trigger] stack_depth(pre.take(k)) < operands_taken(pre[k]);
                assert(ts.take(k) =~= pre.take(k));
                assert(ts[k] == pre[k]);
                assert(stack_depth(ts.take(k)) < operands_taken(ts[k]));
            },
        }
    }
}

/// An operator or function that finds too few operands on the stack stops
/// evaluation with an expected-number-on-stack error.
pub proof fn law_missing_operand(ts: Seq<SpecToken>)
    requires
        names_known(ts),
        misses_operand(ts),
    ensures
        evaluate(ts) == Err::<SpecExpr, SpecError>(SpecError::ExpectedNumberOnStack),
{
    lemma_run_shape(ts);
}

/// Where every operator and function finds its operands but the stack does not
/// end with exactly one value (too many operands, or none), evaluation fails
/// with a bad-expression error.
pub proof fn law_bad_expression(ts: Seq<SpecToken>)
    requires
        names_known(ts),
        !misses_operand(ts),
        stack_depth(ts) != 1,
    ensures
        evaluate(ts) == Err::<SpecExpr, SpecError>(SpecError::BadExpression),
{
    lemma_run_shape(ts);
}

/// Where every operator and function finds its operands and one value is left,
/// evaluation succeeds.
pub proof fn law_well_formed_evaluates(ts: Seq<SpecToken>)
    requires
        names_known(ts),
        !misses_operand(ts),
        stack_depth(ts) == 1,
    ensures
        evaluate(ts) is Ok,
{
    lemma_run_shape(ts);
}

} // verus!
