//! An arithmetic expression interpreter: a scanner that turns text into
//! tokens, a shunting-yard converter from infix to postfix order, and a
//! stack machine that turns postfix tokens into an expression tree.
use vstd::prelude::*;

pub mod error;
pub mod scanner;
pub mod parser;
pub mod evaluator;

use crate::evaluator::evaluate;
use crate::parser::to_postfix;
use crate::scanner::{tokens_view, Token};

verus! {

/// Conversion and evaluation depend on nothing but the tokens they are given:
/// token sequences with equal models convert to the same postfix order and
/// evaluate to the same expression, however often they are run.
pub proof fn law_deterministic(a: Seq<Token>, b: Seq<Token>)
    requires
        tokens_view(a) == tokens_view(b),
    ensures
        to_postfix(tokens_view(a)) == to_postfix(tokens_view(b)),
        evaluate(tokens_view(a)) == evaluate(tokens_view(b)),
{
}

} // verus!
