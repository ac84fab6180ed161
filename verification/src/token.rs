//! The vocabulary shared by the three stages: operators, tokens and failures.

use vstd::prelude::*;

verus! {

/// A binary arithmetic operator.
///
/// Operators are ranked by how tightly they bind: addition and subtraction
/// bind loosest, multiplication and division tighter, exponentiation
/// tightest. The rank is given by [`Operator::rank`]; the order in which the
/// variants are declared carries no meaning.
#[derive(Clone, Copy, Debug, PartialEq, Eq, Structural)]
pub enum Operator {
    Add,
    Sub,
    Mul,
    Div,
    Exp,
}

impl Operator {
    /// How tightly the operator binds.
    pub open spec fn rank(self) -> nat {
        match self {
            Operator::Add | Operator::Sub => 1,
            Operator::Mul | Operator::Div => 2,
            Operator::Exp => 3,
        }
    }

    /// Whether an operator `self` waiting on a stack gives way to an incoming
    /// operator `incoming`: it does when it binds at least as tightly, so
    /// operators of equal rank group from the left.
    pub open spec fn gives_way_to(self, incoming: Operator) -> bool {
        self.rank() >= incoming.rank()
    }

    /// The operator's rank as a machine integer.
    pub fn precedence(&self) -> (p: u8)
        ensures
            p == self.rank(),
    {
        match self {
            Operator::Add => 1,
            Operator::Sub => 1,
            Operator::Mul => 2,
            Operator::Div => 2,
            Operator::Exp => 3,
        }
    }

    /// The operator written as `c`, if there is one.
    pub open spec fn of_char(c: char) -> Option<Operator> {
        if c == '+' {
            Some(Operator::Add)
        } else if c == '-' {
            Some(Operator::Sub)
        } else if c == '*' {
            Some(Operator::Mul)
        } else if c == '/' {
            Some(Operator::Div)
        } else if c == '^' {
            Some(Operator::Exp)
        } else {
            None
        }
    }
}

/// The character that opens a parenthesised group.
pub const OPEN: char = '(';

/// The character that closes a parenthesised group.
pub const CLOSE: char = ')';

/// One lexical unit of an expression.
///
/// A bracket token carries the character it was read from: [`OPEN`] or
/// [`CLOSE`]. A bracket token that carries any other character is inert: every
/// stage passes over it.
#[derive(Clone, Copy, Debug, PartialEq, Eq, Structural)]
pub enum Token {
    Op(Operator),
    Num(u32),
    Bracket(char),
}

impl Token {
    /// The token is an opening bracket.
    pub open spec fn is_open(self) -> bool {
        self == Token::Bracket(OPEN)
    }

    /// The token is a closing bracket.
    pub open spec fn is_close(self) -> bool {
        self == Token::Bracket(CLOSE)
    }

    /// The token is one that the tokenizer can produce: a number, an operator,
    /// or one of the two brackets.
    pub open spec fn is_lexical(self) -> bool {
        self matches Token::Bracket(c) ==> c == OPEN || c == CLOSE
    }
}

/// What a token adds to the number of open brackets: one for an opening
/// bracket, minus one for a closing bracket, nothing otherwise.
pub open spec fn bracket_weight(t: Token) -> int {
    if t.is_open() {
        1
    } else if t.is_close() {
        -1
    } else {
        0
    }
}

/// The opening brackets of `tokens` minus its closing brackets.
pub open spec fn nesting(tokens: Seq<Token>) -> int
    decreases tokens.len(),
{
    if tokens.len() == 0 {
        0
    } else {
        nesting(tokens.drop_last()) + bracket_weight(tokens.last())
    }
}

/// No closing bracket of `tokens` comes before its opening partner.
pub open spec fn never_overclosed(tokens: Seq<Token>) -> bool {
    forall|k: int| 0 <= k <= tokens.len() ==> nesting(#[trigger] tokens.take(k)) >= 0
}

/// Every bracket of `tokens` has its partner, and the opening one comes
/// first.
pub open spec fn balanced(tokens: Seq<Token>) -> bool {
    never_overclosed(tokens) && nesting(tokens) == 0
}

/// Every token of `tokens` is one that the tokenizer can produce.
pub open spec fn all_lexical(tokens: Seq<Token>) -> bool {
    forall|i: int| 0 <= i < tokens.len() ==> (#[trigger] tokens[i]).is_lexical()
}

/// Why a text could not be tokenized.
#[derive(Clone, Copy, Debug, PartialEq, Eq, Structural)]
pub enum Error {
    /// The text holds a character that is no digit, operator, bracket or
    /// blank.
    BadToken(char),
    /// A closing bracket has no opening partner, or an opening bracket is
    /// never closed.
    MismatchedParens,
}

} // verus!
