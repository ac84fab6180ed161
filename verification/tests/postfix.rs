use primitive_calculator::{Calculator, Operator, Token};

fn num(n: u32) -> Token {
    Token::Num(n)
}

fn op(o: Operator) -> Token {
    Token::Op(o)
}

fn open() -> Token {
    Token::Bracket('(')
}

fn close() -> Token {
    Token::Bracket(')')
}

fn postfix_of(text: &str) -> Vec<Token> {
    Calculator::expression(Calculator::parse(text).unwrap())
}

#[test]
fn product_binds_tighter_than_sum() {
    let infix = vec![
        num(1),
        op(Operator::Add),
        num(2),
        op(Operator::Mul),
        num(3),
    ];
    assert_eq!(
        Calculator::expression(infix),
        vec![
            num(1),
            num(2),
            num(3),
            op(Operator::Mul),
            op(Operator::Add)
        ]
    );
}

#[test]
fn bracketed_sum_comes_before_the_product() {
    assert_eq!(
        postfix_of("(1+2)*3"),
        vec![
            num(1),
            num(2),
            op(Operator::Add),
            num(3),
            op(Operator::Mul)
        ]
    );
}

#[test]
fn equal_rank_groups_from_the_left() {
    assert_eq!(
        postfix_of("8-3-2"),
        vec![
            num(8),
            num(3),
            op(Operator::Sub),
            num(2),
            op(Operator::Sub)
        ]
    );
    assert_eq!(
        postfix_of("2^3^2"),
        vec![
            num(2),
            num(3),
            op(Operator::Exp),
            num(2),
            op(Operator::Exp)
        ]
    );
}

#[test]
fn sum_and_difference_share_a_rank() {
    assert_eq!(
        postfix_of("8+3-2"),
        vec![
            num(8),
            num(3),
            op(Operator::Add),
            num(2),
            op(Operator::Sub)
        ]
    );
    assert_eq!(
        postfix_of("8-3+2"),
        vec![
            num(8),
            num(3),
            op(Operator::Sub),
            num(2),
            op(Operator::Add)
        ]
    );
}

#[test]
fn product_and_quotient_share_a_rank() {
    assert_eq!(
        postfix_of("8*4/2"),
        vec![
            num(8),
            num(4),
            op(Operator::Mul),
            num(2),
            op(Operator::Div)
        ]
    );
    assert_eq!(
        postfix_of("8/4*2"),
        vec![
            num(8),
            num(4),
            op(Operator::Div),
            num(2),
            op(Operator::Mul)
        ]
    );
}

#[test]
fn power_binds_tightest() {
    assert_eq!(
        postfix_of("1+2*3^4"),
        vec![
            num(1),
            num(2),
            num(3),
            num(4),
            op(Operator::Exp),
            op(Operator::Mul),
            op(Operator::Add)
        ]
    );
    assert_eq!(
        postfix_of("2^3*4+5"),
        vec![
            num(2),
            num(3),
            op(Operator::Exp),
            num(4),
            op(Operator::Mul),
            num(5),
            op(Operator::Add)
        ]
    );
}

#[test]
fn nothing_in_gives_nothing_out() {
    assert_eq!(Calculator::expression(vec![]), vec![]);
}

#[test]
fn single_number_stays() {
    assert_eq!(Calculator::expression(vec![num(42)]), vec![num(42)]);
}

#[test]
fn group_is_emitted_before_what_stands_outside() {
    assert_eq!(
        postfix_of("2-(3+4)"),
        vec![
            num(3),
            num(4),
            op(Operator::Add),
            num(2),
            op(Operator::Sub)
        ]
    );
}

#[test]
fn nested_group_shares_the_group_track() {
    assert_eq!(
        postfix_of("((1+2)+3)"),
        vec![
            num(1),
            num(2),
            op(Operator::Add),
            num(3),
            op(Operator::Add)
        ]
    );
}

#[test]
fn unclosed_bracket_is_left_in_the_output() {
    assert_eq!(
        Calculator::expression(vec![open(), num(1)]),
        vec![num(1), open()]
    );
    assert_eq!(
        Calculator::expression(vec![num(1), op(Operator::Add), open(), num(2)]),
        vec![num(2), num(1), open(), op(Operator::Add)]
    );
}

#[test]
fn unopened_closing_bracket_empties_the_stack() {
    assert_eq!(
        Calculator::expression(vec![
            num(1),
            op(Operator::Add),
            num(2),
            close(),
            op(Operator::Mul),
            num(3)
        ]),
        vec![
            num(1),
            num(2),
            op(Operator::Add),
            num(3),
            op(Operator::Mul)
        ]
    );
    assert_eq!(Calculator::expression(vec![close()]), vec![]);
}

#[test]
fn foreign_bracket_is_passed_over() {
    assert_eq!(
        Calculator::expression(vec![num(1), Token::Bracket('['), op(Operator::Add), num(2)]),
        vec![num(1), num(2), op(Operator::Add)]
    );
}

#[test]
fn operators_without_numbers_are_kept() {
    assert_eq!(
        Calculator::expression(vec![op(Operator::Add), op(Operator::Mul), op(Operator::Sub)]),
        vec![op(Operator::Mul), op(Operator::Add), op(Operator::Sub)]
    );
}

#[test]
fn same_tokens_give_same_postfix() {
    let first = postfix_of("(8-3)^2/5");
    let second = postfix_of("(8-3)^2/5");
    assert_eq!(first, second);
}
