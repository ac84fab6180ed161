//! What holds of the stages together, on short expressions of any numbers
//! and operators.
//!
//! The same text gives the same results. Three operands are grouped by rank,
//! from the left among equals. A leading bracketed group binds first.

use vstd::prelude::*;
use crate::eval::{
    binary, evaluation, lemma_operands_push, operands, operands_suffice, Expr,
};
use crate::postfix::{lemma_run_push, run, settled, to_postfix, unwound, Yard};
use crate::token::{Operator, Token, CLOSE, OPEN};
use crate::tokenizer::tokenize;

verus! {

/// Text that reads the same gives the same tokens, the same postfix order
/// and the same evaluation: each stage is a function of its input alone.
pub proof fn lemma_same_text_same_results(text: Seq<char>, again: Seq<char>)
    requires
        text == again,
    ensures
        tokenize(text) == tokenize(again),
        match (tokenize(text), tokenize(again)) {
            (Ok(tokens), Ok(tokens_again)) => {
                &&& to_postfix(tokens) == to_postfix(tokens_again)
                &&& evaluation(to_postfix(tokens)) == evaluation(to_postfix(tokens_again))
            },
            (Err(e), Err(e_again)) => e == e_again,
            _ => false,
        },
{
}

/// Rank and ties. In `a first b second c`, the operator `first` takes `a` and
/// `b` when it binds at least as tightly as `second`, so that operators of
/// equal rank group from the left; otherwise `second` takes `b` and `c`
/// first. The postfix order can be evaluated, and evaluates to that grouping.
pub proof fn lemma_rank_decides_grouping(a: u32, first: Operator, b: u32, second: Operator, c: u32)
    ensures
        ({
            let infix = seq![
                Token::Num(a),
                Token::Op(first),
                Token::Num(b),
                Token::Op(second),
                Token::Num(c),
            ];
            let postfix = to_postfix(infix);
            if first.gives_way_to(second) {
                &&& postfix == seq![
                    Token::Num(a),
                    Token::Num(b),
                    Token::Op(first),
                    Token::Num(c),
                    Token::Op(second),
                ]
                &&& operands_suffice(postfix)
                &&& evaluation(postfix) == Some(
                    binary(
                        second,
                        binary(first, Expr::Number(a), Expr::Number(b)),
                        Expr::Number(c),
                    ),
                )
            } else {
                &&& postfix == seq![
                    Token::Num(a),
                    Token::Num(b),
                    Token::Num(c),
                    Token::Op(second),
                    Token::Op(first),
                ]
                &&& operands_suffice(postfix)
                &&& evaluation(postfix) == Some(
                    binary(
                        first,
                        Expr::Number(a),
                        binary(second, Expr::Number(b), Expr::Number(c)),
                    ),
                )
            }
        }),
{
    reveal_with_fuel(settled, 3);
    let (ta, tf, tb, ts, tc) = (
        Token::Num(a),
        Token::Op(first),
        Token::Num(b),
        Token::Op(second),
        Token::Num(c),
    );
    let i0 = Seq::<Token>::empty();
    let i1 = i0.push(ta);
    let i2 = i1.push(tf);
    let i3 = i2.push(tb);
    let i4 = i3.push(ts);
    let i5 = i4.push(tc);
    assert(i5 =~= seq![ta, tf, tb, ts, tc]);
    lemma_run_push(i0, ta);
    lemma_run_push(i1, tf);
    lemma_run_push(i2, tb);
    lemma_run_push(i3, ts);
    lemma_run_push(i4, tc);
    let none = Seq::<Token>::empty();
    assert(run(i1) == Yard { queue: seq![ta], ..Yard::empty() });
    assert(run(i2) == Yard { queue: seq![ta], stack: seq![tf], ..Yard::empty() });
    assert(run(i3).queue =~= seq![ta, tb]);
    assert(run(i3) == Yard { queue: seq![ta, tb], stack: seq![tf], ..Yard::empty() });
    if first.gives_way_to(second) {
        assert(seq![tf].drop_last() =~= none);
        assert(settled(seq![tf], seq![ta, tb], second) == (none, seq![ta, tb].push(tf)));
        assert(run(i4).queue =~= seq![ta, tb, tf]);
        assert(run(i4).stack =~= seq![ts]);
        assert(run(i5).queue =~= seq![ta, tb, tf, tc]);
        assert(run(i5).stack =~= seq![ts]);
        assert(run(i5).group_queue =~= none);
        assert(run(i5).group_stack =~= none);
        let postfix = seq![ta, tb, tf, tc, ts];
        assert(to_postfix(i5) =~= postfix);
        let post1 = Seq::<Token>::empty().push(ta);
        let post2 = post1.push(tb);
        let post3 = post2.push(tf);
        let post4 = post3.push(tc);
        let post5 = post4.push(ts);
        assert(post5 =~= postfix);
        lemma_operands_push(Seq::<Token>::empty(), ta);
        lemma_operands_push(post1, tb);
        lemma_operands_push(post2, tf);
        lemma_operands_push(post3, tc);
        lemma_operands_push(post4, ts);
        let ab = binary(first, Expr::Number(a), Expr::Number(b));
        assert(operands(post1) =~= seq![Expr::Number(a)]);
        assert(operands(post2) =~= seq![Expr::Number(a), Expr::Number(b)]);
        assert(operands(post3) =~= seq![ab]);
        assert(operands(post4) =~= seq![ab, Expr::Number(c)]);
        assert(operands(post5) =~= seq![binary(second, ab, Expr::Number(c))]);
    } else {
        assert(settled(seq![tf], seq![ta, tb], second) == (seq![tf], seq![ta, tb]));
        assert(run(i4).queue =~= seq![ta, tb]);
        assert(run(i4).stack =~= seq![tf, ts]);
        assert(run(i5).queue =~= seq![ta, tb, tc]);
        assert(run(i5).stack =~= seq![tf, ts]);
        assert(run(i5).group_queue =~= none);
        assert(run(i5).group_stack =~= none);
        assert(seq![tf, ts].reverse() =~= seq![ts, tf]);
        let postfix = seq![ta, tb, tc, ts, tf];
        assert(to_postfix(i5) =~= postfix);
        let post1 = Seq::<Token>::empty().push(ta);
        let post2 = post1.push(tb);
        let post3 = post2.push(tc);
        let post4 = post3.push(ts);
        let post5 = post4.push(tf);
        assert(post5 =~= postfix);
        lemma_operands_push(Seq::<Token>::empty(), ta);
        lemma_operands_push(post1, tb);
        lemma_operands_push(post2, tc);
        lemma_operands_push(post3, ts);
        lemma_operands_push(post4, tf);
        let bc = binary(second, Expr::Number(b), Expr::Number(c));
        assert(operands(post1) =~= seq![Expr::Number(a)]);
        assert(operands(post2) =~= seq![Expr::Number(a), Expr::Number(b)]);
        assert(operands(post3) =~= seq![Expr::Number(a), Expr::Number(b), Expr::Number(c)]);
        assert(operands(post4) =~= seq![Expr::Number(a), bc]);
        assert(operands(post5) =~= seq![binary(first, Expr::Number(a), bc)]);
    }
}

/// A leading group binds first. In `( a inner b ) outer c` the operator
/// `inner` takes `a` and `b` whatever the ranks are, and `outer` takes that
/// and `c`.
pub proof fn lemma_leading_group_binds_first(
    a: u32,
    inner: Operator,
    b: u32,
    outer: Operator,
    c: u32,
)
    ensures
        ({
            let infix = seq![
                Token::Bracket(OPEN),
                Token::Num(a),
                Token::Op(inner),
                Token::Num(b),
                Token::Bracket(CLOSE),
                Token::Op(outer),
                Token::Num(c),
            ];
            let postfix = to_postfix(infix);
            &&& postfix == seq![
                Token::Num(a),
                Token::Num(b),
                Token::Op(inner),
                Token::Num(c),
                Token::Op(outer),
            ]
            &&& operands_suffice(postfix)
            &&& evaluation(postfix) == Some(
                binary(outer, binary(inner, Expr::Number(a), Expr::Number(b)), Expr::Number(c)),
            )
        }),
{
    reveal_with_fuel(settled, 2);
    reveal_with_fuel(unwound, 2);
    let (open, ta, ti, tb, close, to, tc) = (
        Token::Bracket(OPEN),
        Token::Num(a),
        Token::Op(inner),
        Token::Num(b),
        Token::Bracket(CLOSE),
        Token::Op(outer),
        Token::Num(c),
    );
    let none = Seq::<Token>::empty();
    let i1 = none.push(open);
    let i2 = i1.push(ta);
    let i3 = i2.push(ti);
    let i4 = i3.push(tb);
    let i5 = i4.push(close);
    let i6 = i5.push(to);
    let i7 = i6.push(tc);
    assert(i7 =~= seq![open, ta, ti, tb, close, to, tc]);
    lemma_run_push(none, open);
    lemma_run_push(i1, ta);
    lemma_run_push(i2, ti);
    lemma_run_push(i3, tb);
    lemma_run_push(i4, close);
    lemma_run_push(i5, to);
    lemma_run_push(i6, tc);
    assert(run(i1) == Yard { stack: seq![open], ..Yard::empty() });
    assert(run(i2) == Yard { stack: seq![open], group_queue: seq![ta], ..Yard::empty() });
    assert(run(i3) == Yard {
        stack: seq![open],
        group_queue: seq![ta],
        group_stack: seq![ti],
        ..Yard::empty()
    });
    assert(run(i4).group_queue =~= seq![ta, tb]);
    assert(run(i4) == Yard {
        stack: seq![open],
        group_queue: seq![ta, tb],
        group_stack: seq![ti],
        ..Yard::empty()
    });
    assert(seq![open].drop_last() =~= none);
    assert(run(i5) == Yard {
        group_queue: seq![ta, tb],
        group_stack: seq![ti],
        ..Yard::empty()
    });
    assert(run(i6).stack =~= seq![to]);
    assert(run(i7).stack =~= seq![to]);
    assert(run(i7).queue =~= seq![tc]);
    assert(run(i7).group_queue =~= seq![ta, tb]);
    assert(run(i7).group_stack =~= seq![ti]);
    let postfix = seq![ta, tb, ti, tc, to];
    assert(to_postfix(i7) =~= postfix);
    let post1 = none.push(ta);
    let post2 = post1.push(tb);
    let post3 = post2.push(ti);
    let post4 = post3.push(tc);
    let post5 = post4.push(to);
    assert(post5 =~= postfix);
    lemma_operands_push(none, ta);
    lemma_operands_push(post1, tb);
    lemma_operands_push(post2, ti);
    lemma_operands_push(post3, tc);
    lemma_operands_push(post4, to);
    let ab = binary(inner, Expr::Number(a), Expr::Number(b));
    assert(operands(post1) =~= seq![Expr::Number(a)]);
    assert(operands(post2) =~= seq![Expr::Number(a), Expr::Number(b)]);
    assert(operands(post3) =~= seq![ab]);
    assert(operands(post4) =~= seq![ab, Expr::Number(c)]);
    assert(operands(post5) =~= seq![binary(outer, ab, Expr::Number(c))]);
}

} // verus!
