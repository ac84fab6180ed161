//! The evaluator: from postfix tokens to the operation they denote.
//!
//! The evaluator is a stack machine. A number is pushed; an operator takes
//! the two topmost operands, the upper one as its right operand, and pushes
//! their combination. The machine combines operands into an [`Expr`], which
//! records every operation together with its operands and leaves the
//! arithmetic to whoever folds it.
//!
//! The model is [`evaluation`], over the machine's stack [`operands`].

use vstd::prelude::*;
use crate::token::{Operator, Token};
use crate::Calculator;

verus! {

/// An operation on numbers: a number, or an operator applied to two
/// operations.
#[derive(Debug, PartialEq, Eq)]
pub enum Expr {
    Number(u32),
    Binary { op: Operator, left: Box<Expr>, right: Box<Expr> },
}

/// The operation that applies `op` to `left` and `right`.
pub open spec fn binary(op: Operator, left: Expr, right: Expr) -> Expr {
    Expr::Binary { op: op, left: Box::new(left), right: Box::new(right) }
}

/// The machine's stack after the token `t`. The top of the stack is its last
/// element. A bracket changes nothing; so does an operator that finds fewer
/// than two operands, which [`operands_suffice`] rules out.
pub open spec fn operands_after(stack: Seq<Expr>, t: Token) -> Seq<Expr> {
    match t {
        Token::Num(n) => stack.push(Expr::Number(n)),
        Token::Op(op) => if stack.len() >= 2 {
            stack.take(stack.len() - 2).push(
                binary(op, stack[stack.len() - 2], stack[stack.len() - 1]),
            )
        } else {
            stack
        },
        Token::Bracket(_) => stack,
    }
}

/// The machine's stack after the tokens of `tokens` have been read from the
/// left.
pub open spec fn operands(tokens: Seq<Token>) -> Seq<Expr>
    decreases tokens.len(),
{
    if tokens.len() == 0 {
        Seq::empty()
    } else {
        operands_after(operands(tokens.drop_last()), tokens.last())
    }
}

/// Every operator of `tokens` finds two operands on the stack when the
/// machine reaches it.
pub open spec fn operands_suffice(tokens: Seq<Token>) -> bool
    decreases tokens.len(),
{
    tokens.len() == 0 || {
        &&& operands_suffice(tokens.drop_last())
        &&& tokens.last() is Op ==> operands(tokens.drop_last()).len() >= 2
    }
}

/// The evaluator's model: the one operation left on the stack when the
/// tokens have been read, or nothing when the stack holds none or several.
pub open spec fn evaluation(tokens: Seq<Token>) -> Option<Expr> {
    let stack = operands(tokens);
    if stack.len() == 1 {
        Some(stack[0])
    } else {
        None
    }
}

/// The machine's stack after one more token, and whether the operators still
/// find their operands.
pub proof fn lemma_operands_push(tokens: Seq<Token>, t: Token)
    ensures
        operands(tokens.push(t)) == operands_after(operands(tokens), t),
        operands_suffice(tokens.push(t)) <==> operands_suffice(tokens) && (t is Op ==> operands(
            tokens,
        ).len() >= 2),
{
    assert(tokens.push(t).drop_last() =~= tokens);
}

/// An operator that lacks an operand in a prefix lacks it in the whole.
pub proof fn lemma_shortage_is_final(tokens: Seq<Token>, k: int)
    requires
        0 <= k <= tokens.len(),
        !operands_suffice(tokens.take(k)),
    ensures
        !operands_suffice(tokens),
    decreases tokens.len() - k,
{
    if k == tokens.len() {
        assert(tokens.take(k) =~= tokens);
    } else {
        assert(tokens.take(k + 1).drop_last() =~= tokens.take(k));
        lemma_shortage_is_final(tokens, k + 1);
    }
}

/// A single number evaluates to itself.
pub proof fn lemma_number_evaluates_to_itself(n: u32)
    ensures
        operands_suffice(seq![Token::Num(n)]),
        evaluation(seq![Token::Num(n)]) == Some(Expr::Number(n)),
{
    let tokens = seq![Token::Num(n)];
    assert(tokens.drop_last() =~= Seq::<Token>::empty());
    assert(operands(tokens.drop_last()) =~= Seq::<Expr>::empty());
    assert(operands_suffice(tokens.drop_last()));
    assert(operands(tokens) =~= seq![Expr::Number(n)]);
}

impl Calculator {
    /// Whether every operator of `tokens` finds its two operands: the
    /// condition under which [`Calculator::evaluate`] may be called.
    pub fn can_evaluate(tokens: &Vec<Token>) -> (b: bool)
        ensures
            b == operands_suffice(tokens@),
    {
        let mut height: usize = 0;
        let mut i: usize = 0;
        while i < tokens.len()
            invariant
                i <= tokens.len(),
                height <= i,
                height == operands(tokens@.take(i as int)).len(),
                operands_suffice(tokens@.take(i as int)),
            decreases tokens.len() - i,
        {
            proof {
                assert(tokens@.take(i + 1).drop_last() =~= tokens@.take(i as int));
            }
            match tokens[i] {
                Token::Num(_) => {
                    height = height + 1;
                },
                Token::Op(_) => {
                    if height < 2 {
                        proof {
                            lemma_shortage_is_final(tokens@, i + 1);
                        }
                        return false;
                    }
                    height = height - 1;
                },
                Token::Bracket(_) => {},
            }
            i = i + 1;
        }
        proof {
            assert(tokens@.take(i as int) =~= tokens@);
        }
        true
    }

    /// Runs the postfix tokens `tokens` on the stack machine: the result is
    /// that of [`evaluation`].
    ///
    /// Every operator must find its two operands; [`Calculator::can_evaluate`]
    /// tells whether that is so.
    pub fn evaluate(tokens: Vec<Token>) -> (result: Option<Expr>)
        requires
            operands_suffice(tokens@),
        ensures
            result == evaluation(tokens@),
    {
        let mut stack: Vec<Expr> = Vec::new();
        let mut i: usize = 0;
        while i < tokens.len()
            invariant
                i <= tokens.len(),
                operands_suffice(tokens@),
                stack@ == operands(tokens@.take(i as int)),
            decreases tokens.len() - i,
        {
            proof {
                assert(tokens@.take(i + 1).drop_last() =~= tokens@.take(i as int));
                if !operands_suffice(tokens@.take(i + 1)) {
                    lemma_shortage_is_final(tokens@, i + 1);
                }
            }
            let ghost before = stack@;
            match tokens[i] {
                Token::Num(n) => {
                    stack.push(Expr::Number(n));
                },
                Token::Op(op) => {
                    let right = stack.pop().unwrap();
                    let left = stack.pop().unwrap();
                    stack.push(Expr::Binary { op: op, left: Box::new(left), right: Box::new(right) });
                    proof {
                        assert(stack@ =~= operands_after(before, tokens@[i as int]));
                    }
                },
                Token::Bracket(_) => {},
            }
            i = i + 1;
        }
        proof {
            assert(tokens@.take(i as int) =~= tokens@);
        }
        if stack.len() > 1 {
            None
        } else {
            stack.pop()
        }
    }
}

} // verus!
