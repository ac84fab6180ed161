//! The converter: from infix order to postfix order.
//!
//! The converter is a shunting yard with two tracks. Tokens read outside any
//! bracket go to the main queue and the main stack. While the top of the main
//! stack is an opening bracket, numbers and operators go to the group queue
//! and the group stack instead. When the input ends, what the group track
//! holds is put in front of what the main track holds.
//!
//! The model is [`to_postfix`]: the yard after every token has been read, by
//! [`run`], then emptied by [`Yard::flushed`].

use vstd::prelude::*;
use crate::token::{Operator, Token, CLOSE, OPEN};
use crate::Calculator;

verus! {

/// The converter's state between two tokens. The top of a stack is its last
/// element.
pub struct Yard {
    /// Output of the main track.
    pub queue: Seq<Token>,
    /// Operators and opening brackets that wait on the main track.
    pub stack: Seq<Token>,
    /// Output of the group track.
    pub group_queue: Seq<Token>,
    /// Operators that wait on the group track.
    pub group_stack: Seq<Token>,
}

/// Whether the token `top` of a stack leaves for the queue when `incoming`
/// arrives: an operator does when it binds at least as tightly as `incoming`;
/// anything else stays.
pub open spec fn leaves_for(top: Token, incoming: Operator) -> bool {
    match top {
        Token::Op(waiting) => waiting.gives_way_to(incoming),
        _ => false,
    }
}

/// A stack and a queue after every token that leaves for `incoming` has moved
/// from the top of the stack to the end of the queue, one at a time, until one
/// stays or the stack is empty.
pub open spec fn settled(stack: Seq<Token>, queue: Seq<Token>, incoming: Operator) -> (
    Seq<Token>,
    Seq<Token>,
)
    decreases stack.len(),
{
    if stack.len() > 0 && leaves_for(stack.last(), incoming) {
        settled(stack.drop_last(), queue.push(stack.last()), incoming)
    } else {
        (stack, queue)
    }
}

/// A stack and a queue after the tokens above the topmost opening bracket
/// have moved from the stack to the queue, top first. Without an opening
/// bracket the whole stack moves.
pub open spec fn unwound(stack: Seq<Token>, queue: Seq<Token>) -> (Seq<Token>, Seq<Token>)
    decreases stack.len(),
{
    if stack.len() > 0 && !stack.last().is_open() {
        unwound(stack.drop_last(), queue.push(stack.last()))
    } else {
        (stack, queue)
    }
}

impl Yard {
    /// The yard before the first token.
    pub open spec fn empty() -> Yard {
        Yard {
            queue: Seq::empty(),
            stack: Seq::empty(),
            group_queue: Seq::empty(),
            group_stack: Seq::empty(),
        }
    }

    /// The next number or operator belongs to a group: the top of the main
    /// stack is an opening bracket.
    pub open spec fn in_group(self) -> bool {
        self.stack.len() > 0 && self.stack.last().is_open()
    }

    /// The yard after a number.
    pub open spec fn after_number(self, t: Token) -> Yard {
        if self.in_group() {
            Yard { group_queue: self.group_queue.push(t), ..self }
        } else {
            Yard { queue: self.queue.push(t), ..self }
        }
    }

    /// The yard after the operator `op`, which is the token `t`.
    pub open spec fn after_operator(self, t: Token, op: Operator) -> Yard {
        if self.in_group() {
            let (stack, queue) = settled(self.group_stack, self.group_queue, op);
            Yard { group_stack: stack.push(t), group_queue: queue, ..self }
        } else {
            let (stack, queue) = settled(self.stack, self.queue, op);
            Yard { stack: stack.push(t), queue: queue, ..self }
        }
    }

    /// The yard after a closing bracket: the main stack is unwound to its
    /// topmost opening bracket, and that bracket is dropped.
    pub open spec fn after_close(self) -> Yard {
        let (stack, queue) = unwound(self.stack, self.queue);
        if stack.len() > 0 {
            Yard { stack: stack.drop_last(), queue: queue, ..self }
        } else {
            Yard { stack: stack, queue: queue, ..self }
        }
    }

    /// The yard after the token `t`.
    pub open spec fn step(self, t: Token) -> Yard {
        match t {
            Token::Num(_) => self.after_number(t),
            Token::Op(op) => self.after_operator(t, op),
            Token::Bracket(c) => if c == OPEN {
                Yard { stack: self.stack.push(t), ..self }
            } else if c == CLOSE {
                self.after_close()
            } else {
                self
            },
        }
    }

    /// What the yard gives out when the input has ended: the group track, then
    /// the main track, each as its queue followed by its stack from the top
    /// down.
    pub open spec fn flushed(self) -> Seq<Token> {
        self.group_queue + self.group_stack.reverse() + self.queue + self.stack.reverse()
    }
}

/// The yard after the tokens of `tokens` have been read from the left.
pub open spec fn run(tokens: Seq<Token>) -> Yard
    decreases tokens.len(),
{
    if tokens.len() == 0 {
        Yard::empty()
    } else {
        run(tokens.drop_last()).step(tokens.last())
    }
}

/// The converter's model: `tokens` in postfix order.
pub open spec fn to_postfix(tokens: Seq<Token>) -> Seq<Token> {
    run(tokens).flushed()
}

/// The yard after one more token is the step of the yard before it.
pub proof fn lemma_run_push(tokens: Seq<Token>, t: Token)
    ensures
        run(tokens.push(t)) == run(tokens).step(t),
{
    assert(tokens.push(t).drop_last() =~= tokens);
}

/// Moves the tokens that leave for `incoming` from `stack` to `queue`.
fn settle(stack: &mut Vec<Token>, queue: &mut Vec<Token>, incoming: Operator)
    ensures
        (final(stack)@, final(queue)@) == settled(old(stack)@, old(queue)@, incoming),
{
    loop
        invariant
            settled(stack@, queue@, incoming) == settled(old(stack)@, old(queue)@, incoming),
        ensures
            (stack@, queue@) == settled(old(stack)@, old(queue)@, incoming),
        decreases stack.len(),
    {
        let n = stack.len();
        if n == 0 {
            break ;
        }
        let top = stack[n - 1];
        let leaves = match top {
            Token::Op(waiting) => waiting.precedence() >= incoming.precedence(),
            _ => false,
        };
        if !leaves {
            break ;
        }
        stack.pop();
        queue.push(top);
    }
}

/// Moves the tokens above the topmost opening bracket from `stack` to
/// `queue`.
fn unwind(stack: &mut Vec<Token>, queue: &mut Vec<Token>)
    ensures
        (final(stack)@, final(queue)@) == unwound(old(stack)@, old(queue)@),
{
    loop
        invariant
            unwound(stack@, queue@) == unwound(old(stack)@, old(queue)@),
        ensures
            (stack@, queue@) == unwound(old(stack)@, old(queue)@),
        decreases stack.len(),
    {
        let n = stack.len();
        if n == 0 {
            break ;
        }
        let top = stack[n - 1];
        if top == Token::Bracket(OPEN) {
            break ;
        }
        stack.pop();
        queue.push(top);
    }
}

/// Moves every token from `stack` to `queue`, top first.
fn drain(stack: &mut Vec<Token>, queue: &mut Vec<Token>)
    ensures
        final(stack)@.len() == 0,
        final(queue)@ == old(queue)@ + old(stack)@.reverse(),
{
    while stack.len() > 0
        invariant
            queue@ + stack@.reverse() == old(queue)@ + old(stack)@.reverse(),
        decreases stack.len(),
    {
        let ghost before_stack = stack@;
        let ghost before_queue = queue@;
        let n = stack.len();
        let top = stack[n - 1];
        stack.pop();
        queue.push(top);
        proof {
            assert(stack@ =~= before_stack.drop_last());
            assert(before_queue.push(top) + before_stack.drop_last().reverse()
                =~= before_queue + before_stack.reverse());
        }
    }
    proof {
        assert(queue@ + stack@.reverse() =~= queue@);
    }
}

impl Calculator {
    /// Reorders `tokens` from infix into postfix order: the result is that of
    /// [`to_postfix`].
    pub fn expression(tokens: Vec<Token>) -> (postfix: Vec<Token>)
        ensures
            postfix@ == to_postfix(tokens@),
    {
        let mut stack: Vec<Token> = Vec::new();
        let mut queue: Vec<Token> = Vec::new();
        let mut group_stack: Vec<Token> = Vec::new();
        let mut group_queue: Vec<Token> = Vec::new();
        let mut i: usize = 0;
        while i < tokens.len()
            invariant
                i <= tokens.len(),
                run(tokens@.take(i as int)) == (Yard {
                    queue: queue@,
                    stack: stack@,
                    group_queue: group_queue@,
                    group_stack: group_stack@,
                }),
            decreases tokens.len() - i,
        {
            let token = tokens[i];
            proof {
                assert(tokens@.take(i + 1).drop_last() =~= tokens@.take(i as int));
            }
            let depth = stack.len();
            let in_group = depth > 0 && stack[depth - 1] == Token::Bracket(OPEN);
            match token {
                Token::Num(_) => {
                    if in_group {
                        group_queue.push(token);
                    } else {
                        queue.push(token);
                    }
                },
                Token::Op(op) => {
                    if in_group {
                        settle(&mut group_stack, &mut group_queue, op);
                        group_stack.push(token);
                    } else {
                        settle(&mut stack, &mut queue, op);
                        stack.push(token);
                    }
                },
                Token::Bracket(c) => {
                    if c == OPEN {
                        stack.push(token);
                    } else if c == CLOSE {
                        unwind(&mut stack, &mut queue);
                        let ghost unwound_stack = stack@;
                        stack.pop();
                        proof {
                            if unwound_stack.len() > 0 {
                                assert(stack@ =~= unwound_stack.drop_last());
                            }
                        }
                    }
                },
            }
            i = i + 1;
        }
        proof {
            assert(tokens@.take(i as int) =~= tokens@);
        }
        drain(&mut group_stack, &mut group_queue);
        group_queue.append(&mut queue);
        drain(&mut stack, &mut group_queue);
        group_queue
    }
}

} // verus!
