//! What the converter keeps and what it drops.
//!
//! The converter moves numbers and operators about and loses none of them;
//! brackets steer it and, where they are balanced, leave no trace. The law is
//! [`lemma_postfix_rearranges`]. Its proof follows the yard through the
//! input: [`tidy`] says where brackets can be in a yard, and [`load`] what
//! numbers and operators a yard holds.

use vstd::prelude::*;
use vstd::multiset::Multiset;
use vstd::seq_lib::{lemma_multiset_commutative, to_multiset_build};
use crate::postfix::{leaves_for, run, settled, to_postfix, unwound, Yard};
use crate::token::{balanced, nesting, never_overclosed, Operator, Token};

verus! {

/// The numbers and operators of `tokens`, in their order.
pub open spec fn solid(tokens: Seq<Token>) -> Seq<Token>
    decreases tokens.len(),
{
    if tokens.len() == 0 {
        Seq::empty()
    } else if tokens.last() is Bracket {
        solid(tokens.drop_last())
    } else {
        solid(tokens.drop_last()).push(tokens.last())
    }
}

/// No token of `tokens` is a bracket.
pub open spec fn all_solid(tokens: Seq<Token>) -> bool {
    forall|i: int| 0 <= i < tokens.len() ==> !((#[trigger] tokens[i]) is Bracket)
}

/// Every token of `tokens` is an operator.
pub open spec fn all_operators(tokens: Seq<Token>) -> bool {
    forall|i: int| 0 <= i < tokens.len() ==> (#[trigger] tokens[i]) is Op
}

/// A yard in which brackets are where they belong: the main stack is a run
/// of operators below `depth` opening brackets, the group stack holds
/// operators, and the queues hold numbers and operators.
pub open spec fn tidy(y: Yard, depth: int) -> bool {
    &&& 0 <= depth <= y.stack.len()
    &&& all_operators(y.stack.take(y.stack.len() - depth))
    &&& forall|i: int| y.stack.len() - depth <= i < y.stack.len() ==> (#[trigger] y.stack[i]).is_open()
    &&& all_operators(y.group_stack)
    &&& all_solid(y.queue)
    &&& all_solid(y.group_queue)
}

/// The numbers and operators that a yard holds, its main stack taken without
/// the `depth` brackets on top.
pub open spec fn load(y: Yard, depth: int) -> Multiset<Token> {
    y.group_queue.to_multiset().add(y.group_stack.to_multiset()).add(y.queue.to_multiset()).add(
        y.stack.take(y.stack.len() - depth).to_multiset(),
    )
}

/// Settling moves tokens from the stack to the queue and adds or drops none.
/// What stays on the stack is a lower part of it.
pub proof fn lemma_settled_keeps_content(stack: Seq<Token>, queue: Seq<Token>, incoming: Operator)
    ensures
        ({
            let (s, q) = settled(stack, queue, incoming);
            &&& s.len() <= stack.len()
            &&& s == stack.take(s.len() as int)
            &&& q == queue + stack.skip(s.len() as int).reverse()
            &&& s.to_multiset().add(q.to_multiset()) == stack.to_multiset().add(
                queue.to_multiset(),
            )
        }),
    decreases stack.len(),
{
    let (s, q) = settled(stack, queue, incoming);
    if stack.len() > 0 && leaves_for(stack.last(), incoming) {
        let below = stack.drop_last();
        let top = stack.last();
        lemma_settled_keeps_content(below, queue.push(top), incoming);
        assert(below.take(s.len() as int) =~= stack.take(s.len() as int));
        assert(queue.push(top) + below.skip(s.len() as int).reverse() =~= queue + stack.skip(
            s.len() as int,
        ).reverse());
        assert(below.push(top) =~= stack);
        to_multiset_build(below, top);
        to_multiset_build(queue, top);
        assert(below.to_multiset().add(queue.push(top).to_multiset()) =~= stack.to_multiset().add(
            queue.to_multiset(),
        ));
    } else {
        assert(stack.take(stack.len() as int) =~= stack);
        assert(queue + stack.skip(stack.len() as int).reverse() =~= queue);
    }
}

/// Settling a stack of operators leaves a stack of operators, and a queue
/// without brackets stays without brackets.
pub proof fn lemma_settled_stays_tidy(stack: Seq<Token>, queue: Seq<Token>, incoming: Operator)
    requires
        all_operators(stack),
        all_solid(queue),
    ensures
        all_operators(settled(stack, queue, incoming).0),
        all_solid(settled(stack, queue, incoming).1),
    decreases stack.len(),
{
    if stack.len() > 0 && leaves_for(stack.last(), incoming) {
        lemma_settled_stays_tidy(stack.drop_last(), queue.push(stack.last()), incoming);
    }
}

/// The numbers and operators of a longer input.
pub proof fn lemma_solid_push(tokens: Seq<Token>, t: Token)
    ensures
        solid(tokens.push(t)) == if t is Bracket {
            solid(tokens)
        } else {
            solid(tokens).push(t)
        },
{
    assert(tokens.push(t).drop_last() =~= tokens);
}

/// While the converter reads tokens that are never overclosed, its yard is
/// tidy, the brackets on its main stack are those that are open, and it
/// holds the numbers and operators read so far, each as often as it was
/// read.
pub proof fn lemma_run_keeps_content(tokens: Seq<Token>)
    requires
        never_overclosed(tokens),
    ensures
        tidy(run(tokens), nesting(tokens)),
        load(run(tokens), nesting(tokens)) == solid(tokens).to_multiset(),
    decreases tokens.len(),
{
    broadcast use vstd::multiset::group_multiset_axioms;

    if tokens.len() == 0 {
        let none = Seq::<Token>::empty();
        assert(none.take(0) =~= none);
        none.to_multiset_ensures();
        assert(none.to_multiset() =~= Multiset::<Token>::empty());
        assert(none.to_multiset().add(none.to_multiset()).add(none.to_multiset()).add(
            none.to_multiset(),
        ) =~= none.to_multiset());
    } else {
        let before = tokens.drop_last();
        let t = tokens.last();
        assert(tokens.take(tokens.len() as int) =~= tokens);
        assert(before =~= tokens.take(tokens.len() - 1));
        assert forall|k: int| 0 <= k <= before.len() implies nesting(#[trigger] before.take(k))
            >= 0 by {
            assert(before.take(k) =~= tokens.take(k));
        }
        lemma_run_keeps_content(before);
        assert(before.push(t) =~= tokens);
        lemma_solid_push(before, t);
        let y = run(before);
        let d = nesting(before);
        let z = run(tokens);
        let low = y.stack.len() - d;
        assert(d > 0 <==> y.in_group()) by {
            if d > 0 {
                assert(y.stack[y.stack.len() - 1].is_open());
            } else if y.stack.len() > 0 {
                assert(y.stack.take(low)[y.stack.len() - 1] is Op);
            }
        }
        match t {
            Token::Num(_) => {
                if y.in_group() {
                    to_multiset_build(y.group_queue, t);
                } else {
                    to_multiset_build(y.queue, t);
                }
                assert(load(z, d) =~= load(y, d).insert(t));
                to_multiset_build(solid(before), t);
            },
            Token::Op(op) => {
                if y.in_group() {
                    lemma_settled_keeps_content(y.group_stack, y.group_queue, op);
                    lemma_settled_stays_tidy(y.group_stack, y.group_queue, op);
                    let (s, q) = settled(y.group_stack, y.group_queue, op);
                    to_multiset_build(s, t);
                    assert forall|v: Token|
                        s.to_multiset().count(v) + q.to_multiset().count(v)
                            == y.group_stack.to_multiset().count(v) + y.group_queue.to_multiset().count(
                            v,
                        ) by {
                        assert(s.to_multiset().add(q.to_multiset()).count(v)
                            == y.group_stack.to_multiset().add(y.group_queue.to_multiset()).count(
                            v,
                        ));
                    }
                    assert(load(z, d) =~= load(y, d).insert(t));
                } else {
                    assert(y.stack.take(low) =~= y.stack);
                    lemma_settled_keeps_content(y.stack, y.queue, op);
                    lemma_settled_stays_tidy(y.stack, y.queue, op);
                    let (s, q) = settled(y.stack, y.queue, op);
                    to_multiset_build(s, t);
                    assert(z.stack.take(z.stack.len() - d) =~= z.stack);
                    assert forall|v: Token|
                        s.to_multiset().count(v) + q.to_multiset().count(v)
                            == y.stack.to_multiset().count(v) + y.queue.to_multiset().count(v) by {
                        assert(s.to_multiset().add(q.to_multiset()).count(v)
                            == y.stack.to_multiset().add(y.queue.to_multiset()).count(v));
                    }
                    assert(load(z, d) =~= load(y, d).insert(t));
                }
                to_multiset_build(solid(before), t);
            },
            Token::Bracket(c) => {
                if t.is_open() {
                    assert(z.stack.take(z.stack.len() - (d + 1)) =~= y.stack.take(low));
                } else if t.is_close() {
                    assert(d >= 1);
                    assert(unwound(y.stack, y.queue) == (y.stack, y.queue));
                    assert(z.stack.take(z.stack.len() - (d - 1)) =~= y.stack.take(low));
                } else {
                }
            },
        }
    }
}

/// The converter rearranges. Of balanced tokens the postfix order holds the
/// numbers and operators, each as often as the input does, and no bracket.
pub proof fn lemma_postfix_rearranges(tokens: Seq<Token>)
    requires
        balanced(tokens),
    ensures
        to_postfix(tokens).to_multiset() == solid(tokens).to_multiset(),
        to_postfix(tokens).len() == solid(tokens).len(),
        all_solid(to_postfix(tokens)),
{
    lemma_run_keeps_content(tokens);
    let y = run(tokens);
    assert(y.stack.take(y.stack.len() as int) =~= y.stack);
    let group = y.group_queue + y.group_stack.reverse();
    let main = y.queue + y.stack.reverse();
    assert(to_postfix(tokens) =~= group + main);
    y.group_stack.lemma_reverse_to_multiset();
    y.stack.lemma_reverse_to_multiset();
    lemma_multiset_commutative(y.group_queue, y.group_stack.reverse());
    lemma_multiset_commutative(y.queue, y.stack.reverse());
    lemma_multiset_commutative(group, main);
    assert(to_postfix(tokens).to_multiset() =~= load(y, 0));
    solid(tokens).to_multiset_ensures();
    to_postfix(tokens).to_multiset_ensures();
}

} // verus!
