//! The converter and the evaluator together, on expressions without
//! brackets.
//!
//! An expression without brackets is a number followed by operators and
//! numbers in turn. The law [`lemma_flat_expression_is_grouped_by_rank`] says
//! that its postfix order can be evaluated, and that the operation it
//! evaluates to reads back as the expression ([`infix`]) and groups its
//! operands by rank, from the left among equals ([`well_grouped`]). By
//! [`lemma_grouping_is_unique`] there is one such operation only.

use vstd::prelude::*;
use crate::content::all_operators;
use crate::eval::{
    binary, evaluation, lemma_operands_push, operands, operands_suffice, Expr,
};
use crate::postfix::{lemma_run_push, leaves_for, run, settled, to_postfix};
use crate::token::{Operator, Token};

verus! {

/// The tokens of an operation, read from left to right without brackets.
pub open spec fn infix(e: Expr) -> Seq<Token>
    decreases e,
{
    match e {
        Expr::Number(n) => seq![Token::Num(n)],
        Expr::Binary { op, left, right } => infix(*left) + seq![Token::Op(op)] + infix(*right),
    }
}

/// The rank at which an operation can be split: that of its last operator. A
/// number cannot be split and ranks above every operator.
pub open spec fn root_rank(e: Expr) -> nat {
    match e {
        Expr::Number(_) => 4,
        Expr::Binary { op, .. } => op.rank(),
    }
}

/// The operation groups by rank, and from the left among equals: no operand
/// ranks below its operator, and no right operand ranks as low as its
/// operator.
pub open spec fn well_grouped(e: Expr) -> bool
    decreases e,
{
    match e {
        Expr::Number(_) => true,
        Expr::Binary { op, left, right } => {
            &&& well_grouped(*left)
            &&& well_grouped(*right)
            &&& root_rank(*left) >= op.rank()
            &&& root_rank(*right) > op.rank()
        },
    }
}

/// Numbers and operators take turns, a number first.
pub open spec fn alternating(tokens: Seq<Token>) -> bool {
    forall|i: int|
        0 <= i < tokens.len() ==> if i % 2 == 0 {
            (#[trigger] tokens[i]) is Num
        } else {
            tokens[i] is Op
        }
}

/// An expression without brackets: numbers and operators in turn, a number
/// first and a number last.
pub open spec fn flat(tokens: Seq<Token>) -> bool {
    alternating(tokens) && tokens.len() % 2 == 1
}

/// The rank of an operator token; nothing else ranks.
pub open spec fn rank_of(t: Token) -> nat {
    match t {
        Token::Op(op) => op.rank(),
        _ => 0,
    }
}

/// A stack of operators whose ranks rise strictly towards the top.
pub open spec fn rising(stack: Seq<Token>) -> bool {
    &&& all_operators(stack)
    &&& forall|i: int, j: int|
        0 <= i < j < stack.len() ==> rank_of(#[trigger] stack[i]) < rank_of(#[trigger] stack[j])
}

/// Operands and waiting operators read in turn: the first operand, the
/// lowest operator, the second operand, and so on.
pub open spec fn woven(exprs: Seq<Expr>, stack: Seq<Token>) -> Seq<Token>
    decreases exprs.len() + stack.len(),
{
    if exprs.len() > stack.len() {
        woven(exprs.drop_last(), stack) + infix(exprs.last())
    } else if stack.len() > 0 {
        woven(exprs, stack.drop_last()) + seq![stack.last()]
    } else {
        Seq::empty()
    }
}

/// What ties the yard to the input `read` so far: the operands that the
/// queue evaluates to and the operators on the stack, taken in turn, read as
/// the input; each operand is well grouped; and each waiting operator can
/// take the operand on its left, and the one on its right once it is there.
pub open spec fn coherent(exprs: Seq<Expr>, stack: Seq<Token>, read: Seq<Token>) -> bool {
    &&& rising(stack)
    &&& stack.len() <= exprs.len() <= stack.len() + 1
    &&& forall|i: int| 0 <= i < exprs.len() ==> well_grouped(#[trigger] exprs[i])
    &&& forall|i: int|
        0 <= i < stack.len() ==> root_rank(exprs[i]) >= rank_of(#[trigger] stack[i])
    &&& forall|i: int|
        0 <= i < stack.len() && i + 1 < exprs.len() ==> root_rank(exprs[i + 1]) > rank_of(
            #[trigger] stack[i],
        )
    &&& woven(exprs, stack) == read
}

/// Moving the top operator to the queue combines the two topmost operands
/// and keeps the yard coherent.
proof fn lemma_pop_stays_coherent(stack: Seq<Token>, queue: Seq<Token>, read: Seq<Token>)
    requires
        stack.len() > 0,
        operands_suffice(queue),
        coherent(operands(queue), stack, read),
        operands(queue).len() == stack.len() + 1,
    ensures
        operands_suffice(queue.push(stack.last())),
        coherent(operands(queue.push(stack.last())), stack.drop_last(), read),
        operands(queue.push(stack.last())).len() == stack.len(),
        root_rank(operands(queue.push(stack.last())).last()) == rank_of(stack.last()),
{
    let m = stack.len() as int;
    let top = stack.last();
    let below = stack.drop_last();
    let exprs = operands(queue);
    let after = operands(queue.push(top));
    lemma_operands_push(queue, top);
    assert(stack[m - 1] is Op);
    let op = top->Op_0;
    let left = exprs[m - 1];
    let right = exprs[m];
    let joined = binary(op, left, right);
    assert(after == exprs.take(m - 1).push(joined));
    assert(well_grouped(joined)) by {
        assert(well_grouped(exprs[m - 1]));
        assert(well_grouped(exprs[m]));
        assert(root_rank(exprs[m - 1]) >= rank_of(stack[m - 1]));
        assert(root_rank(exprs[m - 1 + 1]) > rank_of(stack[m - 1]));
    }
    assert(rising(below)) by {
        assert forall|i: int| 0 <= i < below.len() implies (#[trigger] below[i]) is Op by {
            assert(stack[i] is Op);
        }
        assert forall|i: int, j: int| 0 <= i < j < below.len() implies rank_of(
            #[trigger] below[i],
        ) < rank_of(#[trigger] below[j]) by {
            assert(rank_of(stack[i]) < rank_of(stack[j]));
        }
    }
    assert forall|i: int| 0 <= i < after.len() implies well_grouped(#[trigger] after[i]) by {
        if i < m - 1 {
            assert(well_grouped(exprs[i]));
        }
    }
    assert forall|i: int| 0 <= i < below.len() implies root_rank(after[i]) >= rank_of(
        #[trigger] below[i],
    ) by {
        assert(root_rank(exprs[i]) >= rank_of(stack[i]));
    }
    assert forall|i: int| 0 <= i < below.len() && i + 1 < after.len() implies root_rank(
        after[i + 1],
    ) > rank_of(#[trigger] below[i]) by {
        if i + 1 < m - 1 {
            assert(root_rank(exprs[i + 1]) > rank_of(stack[i]));
        } else {
            assert(rank_of(stack[i]) < rank_of(stack[m - 1]));
        }
    }
    assert(woven(after, below) == read) by {
        let short = exprs.take(m - 1);
        assert(exprs.drop_last().drop_last() =~= short);
        assert(after.drop_last() =~= short);
        assert(woven(exprs, stack) == woven(exprs.drop_last(), stack) + infix(right));
        assert(woven(exprs.drop_last(), stack) == woven(exprs.drop_last(), below) + seq![top]);
        assert(woven(exprs.drop_last(), below) == woven(short, below) + infix(left));
        assert(woven(after, below) == woven(short, below) + infix(joined));
        assert(infix(joined) == infix(left) + seq![top] + infix(right));
        assert(woven(short, below) + (infix(left) + seq![top] + infix(right)) =~= ((woven(
            short,
            below,
        ) + infix(left)) + seq![top]) + infix(right));
    }
}

/// Settling before an incoming operator keeps the yard coherent, leaves an
/// operand that the incoming operator can take on its left, and leaves
/// below it only operators of lower rank.
proof fn lemma_settle_stays_coherent(
    stack: Seq<Token>,
    queue: Seq<Token>,
    incoming: Operator,
    read: Seq<Token>,
)
    requires
        operands_suffice(queue),
        coherent(operands(queue), stack, read),
        operands(queue).len() == stack.len() + 1,
        root_rank(operands(queue).last()) >= incoming.rank(),
    ensures
        ({
            let (s, q) = settled(stack, queue, incoming);
            &&& operands_suffice(q)
            &&& coherent(operands(q), s, read)
            &&& operands(q).len() == s.len() + 1
            &&& root_rank(operands(q).last()) >= incoming.rank()
            &&& s.len() > 0 ==> rank_of(s.last()) < incoming.rank()
        }),
    decreases stack.len(),
{
    if stack.len() > 0 {
        assert(stack[stack.len() - 1] is Op);
        if leaves_for(stack.last(), incoming) {
            lemma_pop_stays_coherent(stack, queue, read);
            lemma_settle_stays_coherent(
                stack.drop_last(),
                queue.push(stack.last()),
                incoming,
                read,
            );
        }
    }
}

/// Emptying the stack onto the queue leaves one operand, which reads as the
/// input and is well grouped.
proof fn lemma_flush_groups(stack: Seq<Token>, queue: Seq<Token>, read: Seq<Token>)
    requires
        operands_suffice(queue),
        coherent(operands(queue), stack, read),
        operands(queue).len() == stack.len() + 1,
    ensures
        ({
            let postfix = queue + stack.reverse();
            &&& operands_suffice(postfix)
            &&& operands(postfix).len() == 1
            &&& infix(operands(postfix)[0]) == read
            &&& well_grouped(operands(postfix)[0])
        }),
    decreases stack.len(),
{
    let exprs = operands(queue);
    if stack.len() == 0 {
        assert(queue + stack.reverse() =~= queue);
        assert(woven(exprs, stack) == woven(exprs.drop_last(), stack) + infix(exprs.last()));
        assert(woven(exprs.drop_last(), stack) =~= Seq::<Token>::empty());
        assert(Seq::<Token>::empty() + infix(exprs.last()) =~= infix(exprs.last()));
    } else {
        lemma_pop_stays_coherent(stack, queue, read);
        lemma_flush_groups(stack.drop_last(), queue.push(stack.last()), read);
        assert(queue.push(stack.last()) + stack.drop_last().reverse() =~= queue
            + stack.reverse());
    }
}

/// A number joins the operands as the right operand of the operator on top
/// of the stack, and keeps the yard coherent.
proof fn lemma_number_stays_coherent(
    stack: Seq<Token>,
    queue: Seq<Token>,
    read: Seq<Token>,
    n: u32,
)
    requires
        operands_suffice(queue),
        coherent(operands(queue), stack, read),
        operands(queue).len() == stack.len(),
    ensures
        operands_suffice(queue.push(Token::Num(n))),
        coherent(operands(queue.push(Token::Num(n))), stack, read.push(Token::Num(n))),
        operands(queue.push(Token::Num(n))).len() == stack.len() + 1,
        operands(queue.push(Token::Num(n))).last() == Expr::Number(n),
{
    let t = Token::Num(n);
    let m = stack.len() as int;
    let exprs = operands(queue);
    let after = operands(queue.push(t));
    lemma_operands_push(queue, t);
    assert(after == exprs.push(Expr::Number(n)));
    assert(after.drop_last() =~= exprs);
    assert forall|i: int| 0 <= i < after.len() implies well_grouped(#[trigger] after[i]) by {
        if i < exprs.len() {
            assert(well_grouped(exprs[i]));
        }
    }
    assert forall|i: int| 0 <= i < m implies root_rank(after[i]) >= rank_of(
        #[trigger] stack[i],
    ) by {
        assert(root_rank(exprs[i]) >= rank_of(stack[i]));
    }
    assert forall|i: int| 0 <= i < m && i + 1 < after.len() implies root_rank(after[i + 1])
        > rank_of(#[trigger] stack[i]) by {
        assert(stack[i] is Op);
        if i + 1 < exprs.len() {
            assert(root_rank(exprs[i + 1]) > rank_of(stack[i]));
        }
    }
    assert(woven(after, stack) == woven(exprs, stack) + infix(Expr::Number(n)));
    assert(read + seq![t] =~= read.push(t));
}

/// An operator settles the stack, goes on top of it, and keeps the yard
/// coherent.
proof fn lemma_operator_stays_coherent(
    stack: Seq<Token>,
    queue: Seq<Token>,
    read: Seq<Token>,
    op: Operator,
)
    requires
        operands_suffice(queue),
        coherent(operands(queue), stack, read),
        operands(queue).len() == stack.len() + 1,
        operands(queue).last() is Number,
    ensures
        ({
            let (s, q) = settled(stack, queue, op);
            &&& operands_suffice(q)
            &&& coherent(operands(q), s.push(Token::Op(op)), read.push(Token::Op(op)))
            &&& operands(q).len() == s.len() + 1
            &&& all_operators(s)
        }),
{
    let t = Token::Op(op);
    lemma_settle_stays_coherent(stack, queue, op, read);
    let (s, q) = settled(stack, queue, op);
    let kept = operands(q);
    let k = s.len() as int;
    let longer = s.push(t);
    assert(longer.drop_last() =~= s);
    assert(rising(longer)) by {
        assert forall|i: int| 0 <= i < longer.len() implies (#[trigger] longer[i]) is Op by {
            if i < k {
                assert(s[i] is Op);
            }
        }
        assert forall|i: int, j: int| 0 <= i < j < longer.len() implies rank_of(
            #[trigger] longer[i],
        ) < rank_of(#[trigger] longer[j]) by {
            if j < k {
                assert(rank_of(s[i]) < rank_of(s[j]));
            } else if i < k - 1 {
                assert(rank_of(s[i]) < rank_of(s[k - 1]));
            }
        }
    }
    assert forall|i: int| 0 <= i < longer.len() implies root_rank(kept[i]) >= rank_of(
        #[trigger] longer[i],
    ) by {
        if i < k {
            assert(root_rank(kept[i]) >= rank_of(s[i]));
        }
    }
    assert forall|i: int| 0 <= i < longer.len() && i + 1 < kept.len() implies root_rank(
        kept[i + 1],
    ) > rank_of(#[trigger] longer[i]) by {
        assert(root_rank(kept[i + 1]) > rank_of(s[i]));
    }
    assert(woven(kept, longer) == woven(kept, s) + seq![t]);
    assert(read + seq![t] =~= read.push(t));
}

/// The yard while the converter reads numbers and operators in turn: the
/// group track stays empty, the queue can be evaluated, and the yard is
/// coherent with what has been read.
proof fn lemma_flat_run_is_coherent(tokens: Seq<Token>)
    requires
        alternating(tokens),
    ensures
        ({
            let y = run(tokens);
            let exprs = operands(y.queue);
            &&& y.group_queue == Seq::<Token>::empty()
            &&& y.group_stack == Seq::<Token>::empty()
            &&& operands_suffice(y.queue)
            &&& coherent(exprs, y.stack, tokens)
            &&& exprs.len() == y.stack.len() + tokens.len() % 2
            &&& tokens.len() % 2 == 1 ==> exprs.last() is Number
        }),
    decreases tokens.len(),
{
    if tokens.len() == 0 {
        assert(tokens =~= Seq::<Token>::empty());
        assert(operands(Seq::<Token>::empty()) =~= Seq::<Expr>::empty());
    } else {
        let before = tokens.drop_last();
        let t = tokens.last();
        assert(before.push(t) =~= tokens);
        assert forall|i: int| 0 <= i < before.len() implies if i % 2 == 0 {
            (#[trigger] before[i]) is Num
        } else {
            before[i] is Op
        } by {
            assert(before[i] == tokens[i]);
        }
        lemma_flat_run_is_coherent(before);
        lemma_run_push(before, t);
        let y = run(before);
        assert(!y.in_group()) by {
            if y.stack.len() > 0 {
                assert(y.stack[y.stack.len() - 1] is Op);
            }
        }
        assert(tokens[tokens.len() - 1] == t);
        match t {
            Token::Num(n) => {
                lemma_number_stays_coherent(y.stack, y.queue, before, n);
            },
            Token::Op(op) => {
                lemma_operator_stays_coherent(y.stack, y.queue, before, op);
            },
            Token::Bracket(_) => {},
        }
    }
}

/// Rank decides the grouping of an expression without brackets. Its postfix
/// order can be evaluated, and evaluates to an operation that reads back as
/// the expression and groups its operands by rank, from the left among
/// equals.
pub proof fn lemma_flat_expression_is_grouped_by_rank(tokens: Seq<Token>)
    requires
        flat(tokens),
    ensures
        operands_suffice(to_postfix(tokens)),
        evaluation(to_postfix(tokens)) matches Some(e) && infix(e) == tokens && well_grouped(e),
{
    lemma_flat_run_is_coherent(tokens);
    let y = run(tokens);
    lemma_flush_groups(y.stack, y.queue, tokens);
    assert(to_postfix(tokens) =~= y.queue + y.stack.reverse());
}

/// An operation reads as at least one token.
pub proof fn lemma_infix_is_not_empty(e: Expr)
    ensures
        infix(e).len() >= 1,
    decreases e,
{
    match e {
        Expr::Number(_) => {},
        Expr::Binary { op, left, right } => {
            lemma_infix_is_not_empty(*left);
            lemma_infix_is_not_empty(*right);
        },
    }
}

/// No operator of a well grouped operation ranks below its root.
pub proof fn lemma_operators_rank_from_the_root(e: Expr, i: int)
    requires
        well_grouped(e),
        0 <= i < infix(e).len(),
        infix(e)[i] is Op,
    ensures
        rank_of(infix(e)[i]) >= root_rank(e),
    decreases e,
{
    match e {
        Expr::Number(_) => {},
        Expr::Binary { op, left, right } => {
            let l = infix(*left);
            let r = infix(*right);
            assert(infix(e) == l + seq![Token::Op(op)] + r);
            if i < l.len() {
                assert(infix(e)[i] == l[i]);
                lemma_operators_rank_from_the_root(*left, i);
            } else if i > l.len() {
                assert(infix(e)[i] == r[i - l.len() - 1]);
                lemma_operators_rank_from_the_root(*right, i - l.len() - 1);
            } else {
                assert(infix(e)[i] == Token::Op(op));
            }
        },
    }
}

/// Two well grouped operations that read the same are the same: rank and
/// the rule of the left leave one grouping only.
pub proof fn lemma_grouping_is_unique(a: Expr, b: Expr)
    requires
        well_grouped(a),
        well_grouped(b),
        infix(a) == infix(b),
    ensures
        a == b,
    decreases a,
{
    match (a, b) {
        (Expr::Number(n), Expr::Number(k)) => {
            assert(infix(a)[0] == Token::Num(n));
            assert(infix(b)[0] == Token::Num(k));
        },
        (Expr::Number(_), Expr::Binary { op, left, right }) => {
            lemma_infix_is_not_empty(*left);
            lemma_infix_is_not_empty(*right);
            assert(infix(b).len() >= 3);
        },
        (Expr::Binary { op, left, right }, Expr::Number(_)) => {
            lemma_infix_is_not_empty(*left);
            lemma_infix_is_not_empty(*right);
            assert(infix(a).len() >= 3);
        },
        (
            Expr::Binary { op: op_a, left: left_a, right: right_a },
            Expr::Binary { op: op_b, left: left_b, right: right_b },
        ) => {
            let la = infix(*left_a);
            let ra = infix(*right_a);
            let lb = infix(*left_b);
            let rb = infix(*right_b);
            let whole = infix(a);
            assert(whole == la + seq![Token::Op(op_a)] + ra);
            assert(whole == lb + seq![Token::Op(op_b)] + rb);
            assert(whole[la.len() as int] == Token::Op(op_a));
            assert(whole[lb.len() as int] == Token::Op(op_b));
            if la.len() < lb.len() {
                assert(whole[la.len() as int] == lb[la.len() as int]);
                lemma_operators_rank_from_the_root(*left_b, la.len() as int);
                assert(whole[lb.len() as int] == ra[lb.len() - la.len() - 1]);
                lemma_operators_rank_from_the_root(*right_a, lb.len() - la.len() - 1);
                assert(false);
            } else if lb.len() < la.len() {
                assert(whole[lb.len() as int] == la[lb.len() as int]);
                lemma_operators_rank_from_the_root(*left_a, lb.len() as int);
                assert(whole[la.len() as int] == rb[la.len() - lb.len() - 1]);
                lemma_operators_rank_from_the_root(*right_b, la.len() - lb.len() - 1);
                assert(false);
            } else {
                assert(la =~= whole.take(la.len() as int));
                assert(lb =~= whole.take(la.len() as int));
                assert(ra =~= whole.skip(la.len() as int + 1));
                assert(rb =~= whole.skip(la.len() as int + 1));
                lemma_grouping_is_unique(*left_a, *left_b);
                lemma_grouping_is_unique(*right_a, *right_b);
            }
        },
    }
}

} // verus!
