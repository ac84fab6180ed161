use primitive_calculator::{Calculator, Error, Operator, Token};

fn num(n: u32) -> Token {
    Token::Num(n)
}

fn op(o: Operator) -> Token {
    Token::Op(o)
}

fn open() -> Token {
    Token::Bracket('(')
}

fn close() -> Token {
    Token::Bracket(')')
}

#[test]
fn tokenizes_number_operator_number() {
    assert_eq!(
        Calculator::parse("12+3"),
        Ok(vec![num(12), op(Operator::Add), num(3)])
    );
}

#[test]
fn tokenizes_a_bracketed_sum_times_a_number() {
    let tokens = Calculator::parse("(1+2)*3").unwrap();
    assert_eq!(
        tokens,
        vec![
            open(),
            num(1),
            op(Operator::Add),
            num(2),
            close(),
            op(Operator::Mul),
            num(3)
        ]
    );
    let mut depth: i64 = 0;
    for t in &tokens {
        if *t == open() {
            depth += 1;
        }
        if *t == close() {
            depth -= 1;
        }
        assert!(depth >= 0);
    }
    assert_eq!(depth, 0);
}

#[test]
fn unclosed_bracket_is_mismatched() {
    assert_eq!(Calculator::parse("(1+2"), Err(Error::MismatchedParens));
}

#[test]
fn lone_closing_bracket_is_mismatched() {
    assert_eq!(Calculator::parse(")"), Err(Error::MismatchedParens));
}

#[test]
fn closing_before_opening_is_mismatched() {
    assert_eq!(Calculator::parse(")("), Err(Error::MismatchedParens));
    assert_eq!(Calculator::parse("(1))+(2"), Err(Error::MismatchedParens));
}

#[test]
fn unknown_character_is_a_bad_token() {
    assert_eq!(Calculator::parse("3&4"), Err(Error::BadToken('&')));
}

#[test]
fn tab_and_letters_are_bad_tokens() {
    assert_eq!(Calculator::parse("1\t+2"), Err(Error::BadToken('\t')));
    assert_eq!(Calculator::parse("x"), Err(Error::BadToken('x')));
    assert_eq!(Calculator::parse("1.5"), Err(Error::BadToken('.')));
    assert_eq!(Calculator::parse("2×3"), Err(Error::BadToken('×')));
}

#[test]
fn first_failure_wins() {
    assert_eq!(Calculator::parse("&)"), Err(Error::BadToken('&')));
    assert_eq!(Calculator::parse(")&"), Err(Error::MismatchedParens));
    assert_eq!(Calculator::parse("(&"), Err(Error::BadToken('&')));
}

#[test]
fn empty_text_has_no_tokens() {
    assert_eq!(Calculator::parse(""), Ok(vec![]));
    assert_eq!(Calculator::parse(" \n\r "), Ok(vec![]));
}

#[test]
fn blanks_are_skipped() {
    assert_eq!(
        Calculator::parse(" 7 *\r\n ( 8 ) "),
        Ok(vec![num(7), op(Operator::Mul), open(), num(8), close()])
    );
}

#[test]
fn every_operator_has_its_token() {
    assert_eq!(
        Calculator::parse("+-*/^"),
        Ok(vec![
            op(Operator::Add),
            op(Operator::Sub),
            op(Operator::Mul),
            op(Operator::Div),
            op(Operator::Exp)
        ])
    );
}

#[test]
fn digits_accumulate_in_decimal() {
    assert_eq!(Calculator::parse("0"), Ok(vec![num(0)]));
    assert_eq!(Calculator::parse("007"), Ok(vec![num(7)]));
    assert_eq!(Calculator::parse("1234567890"), Ok(vec![num(1234567890)]));
    assert_eq!(
        Calculator::parse("40+205"),
        Ok(vec![num(40), op(Operator::Add), num(205)])
    );
}

#[test]
fn digits_on_both_sides_of_a_blank_form_one_number() {
    assert_eq!(Calculator::parse("1 2"), Ok(vec![num(12)]));
    assert_eq!(Calculator::parse("3\n4\r5"), Ok(vec![num(345)]));
}

#[test]
fn digit_after_a_bracket_starts_a_new_number() {
    assert_eq!(
        Calculator::parse("(1)2"),
        Ok(vec![open(), num(1), close(), num(2)])
    );
    assert_eq!(
        Calculator::parse("1(2)"),
        Ok(vec![num(1), open(), num(2), close()])
    );
}

#[test]
fn largest_number_fits() {
    assert_eq!(Calculator::parse("4294967295"), Ok(vec![num(u32::MAX)]));
    assert_eq!(
        Calculator::parse_checked("4294967295"),
        Some(Ok(vec![num(u32::MAX)]))
    );
}

#[test]
fn checked_parse_agrees_with_parse_where_numbers_fit() {
    for text in ["12+3", "(1+2)*3", "(1+2", ")", "3&4", "", "1 2"] {
        assert_eq!(Calculator::parse_checked(text), Some(Calculator::parse(text)));
    }
}

#[test]
fn checked_parse_refuses_a_number_beyond_32_bits() {
    assert_eq!(Calculator::parse_checked("4294967296"), None);
    assert_eq!(Calculator::parse_checked("4294967300"), None);
    assert_eq!(Calculator::parse_checked("1+99999999999"), None);
    assert_eq!(Calculator::parse_checked("42949 67296"), None);
}

#[test]
fn checked_parse_stops_reading_at_the_first_failure() {
    assert_eq!(
        Calculator::parse_checked("&99999999999"),
        Some(Err(Error::BadToken('&')))
    );
    assert_eq!(
        Calculator::parse_checked(")99999999999"),
        Some(Err(Error::MismatchedParens))
    );
    assert_eq!(Calculator::parse_checked("99999999999&"), None);
}

#[test]
fn operators_rank_by_binding_strength() {
    assert_eq!(Operator::Add.precedence(), 1);
    assert_eq!(Operator::Sub.precedence(), 1);
    assert_eq!(Operator::Mul.precedence(), 2);
    assert_eq!(Operator::Div.precedence(), 2);
    assert_eq!(Operator::Exp.precedence(), 3);
}

#[test]
fn same_text_gives_same_tokens() {
    let first = Calculator::parse("(8-3)^2/5");
    let second = Calculator::parse(&String::from("(8-3)^2/5"));
    assert_eq!(first, second);
}
