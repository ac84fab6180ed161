use primitive_calculator::{Calculator, Expr, Operator, Token};

fn rank(o: &Operator) -> u8 {
    o.precedence()
}

fn root_rank(e: &Expr) -> u8 {
    match e {
        Expr::Number(_) => 4,
        Expr::Binary { op, .. } => rank(op),
    }
}

fn well_grouped(e: &Expr) -> bool {
    match e {
        Expr::Number(_) => true,
        Expr::Binary { op, left, right } => {
            well_grouped(left)
                && well_grouped(right)
                && root_rank(left) >= rank(op)
                && root_rank(right) > rank(op)
        }
    }
}

fn infix(e: &Expr, out: &mut Vec<Token>) {
    match e {
        Expr::Number(n) => out.push(Token::Num(*n)),
        Expr::Binary { op, left, right } => {
            infix(left, out);
            out.push(Token::Op(*op));
            infix(right, out);
        }
    }
}

fn key(t: &Token) -> (u8, u32) {
    match t {
        Token::Op(o) => (
            0,
            match o {
                Operator::Add => 0,
                Operator::Sub => 1,
                Operator::Mul => 2,
                Operator::Div => 3,
                Operator::Exp => 4,
            },
        ),
        Token::Num(n) => (1, *n),
        Token::Bracket(c) => (2, *c as u32),
    }
}

fn sorted(mut tokens: Vec<Token>) -> Vec<Token> {
    tokens.sort_by_key(key);
    tokens
}

fn without_brackets(tokens: &[Token]) -> Vec<Token> {
    tokens
        .iter()
        .filter(|t| !matches!(t, Token::Bracket(_)))
        .copied()
        .collect()
}

#[test]
fn flat_expressions_are_grouped_by_rank() {
    for text in [
        "7",
        "1+2",
        "1+2*3",
        "1*2+3",
        "8-3-2",
        "2^3^2",
        "1+2*3^4-5/6",
        "9/3/3*2-1+4^2^1",
        "5^2*3-4+6/2*7",
    ] {
        let tokens = Calculator::parse(text).unwrap();
        let postfix = Calculator::expression(tokens.clone());
        assert!(Calculator::can_evaluate(&postfix), "{text}");
        let tree = Calculator::evaluate(postfix).unwrap();
        assert!(well_grouped(&tree), "{text}");
        let mut read = Vec::new();
        infix(&tree, &mut read);
        assert_eq!(read, tokens, "{text}");
    }
}

#[test]
fn every_pair_of_operators_groups_by_rank() {
    let ops = [
        Operator::Add,
        Operator::Sub,
        Operator::Mul,
        Operator::Div,
        Operator::Exp,
    ];
    for first in ops {
        for second in ops {
            let infix = vec![
                Token::Num(6),
                Token::Op(first),
                Token::Num(3),
                Token::Op(second),
                Token::Num(2),
            ];
            let postfix = Calculator::expression(infix);
            let expected = if first.precedence() >= second.precedence() {
                vec![
                    Token::Num(6),
                    Token::Num(3),
                    Token::Op(first),
                    Token::Num(2),
                    Token::Op(second),
                ]
            } else {
                vec![
                    Token::Num(6),
                    Token::Num(3),
                    Token::Num(2),
                    Token::Op(second),
                    Token::Op(first),
                ]
            };
            assert_eq!(postfix, expected);
        }
    }
}

#[test]
fn leading_group_binds_first_whatever_the_ranks() {
    let ops = [
        Operator::Add,
        Operator::Sub,
        Operator::Mul,
        Operator::Div,
        Operator::Exp,
    ];
    for inner in ops {
        for outer in ops {
            let infix = vec![
                Token::Bracket('('),
                Token::Num(6),
                Token::Op(inner),
                Token::Num(3),
                Token::Bracket(')'),
                Token::Op(outer),
                Token::Num(2),
            ];
            let postfix = Calculator::expression(infix);
            assert_eq!(
                postfix,
                vec![
                    Token::Num(6),
                    Token::Num(3),
                    Token::Op(inner),
                    Token::Num(2),
                    Token::Op(outer),
                ]
            );
            assert_eq!(
                Calculator::evaluate(postfix),
                Some(Expr::Binary {
                    op: outer,
                    left: Box::new(Expr::Binary {
                        op: inner,
                        left: Box::new(Expr::Number(6)),
                        right: Box::new(Expr::Number(3)),
                    }),
                    right: Box::new(Expr::Number(2)),
                })
            );
        }
    }
}

#[test]
fn postfix_of_balanced_tokens_rearranges_numbers_and_operators() {
    for text in [
        "",
        "7",
        "(7)",
        "()",
        "1+2*3",
        "(1+2)*3",
        "2-(3+4)",
        "((1+2)+3)",
        "(1+2)*(3+4)",
        "1+(2*(3-4))^5/(6)",
        "((()))1",
        "+-*/^",
        "1 2 (3 4) 5",
    ] {
        let tokens = Calculator::parse(text).unwrap();
        let postfix = Calculator::expression(tokens.clone());
        assert!(
            postfix.iter().all(|t| !matches!(t, Token::Bracket(_))),
            "{text}"
        );
        assert_eq!(
            sorted(postfix),
            sorted(without_brackets(&tokens)),
            "{text}"
        );
    }
}

#[test]
fn accepted_tokens_are_balanced_and_lexical() {
    for text in ["(1+2)*3", "((1))", "()()", "1", "(((2)+3)*4)^(5)"] {
        let tokens = Calculator::parse(text).unwrap();
        let mut depth: i64 = 0;
        for t in &tokens {
            match t {
                Token::Bracket('(') => depth += 1,
                Token::Bracket(')') => depth -= 1,
                Token::Bracket(other) => panic!("bracket {other:?} in {text}"),
                _ => {}
            }
            assert!(depth >= 0, "{text}");
        }
        assert_eq!(depth, 0, "{text}");
    }
}

#[test]
fn same_text_gives_same_results_at_every_stage() {
    for text in ["(8-3)^2/5", "1+2*3", "3&4", "(1+2", ""] {
        let first = Calculator::parse(text);
        let second = Calculator::parse(text);
        assert_eq!(first, second);
        if let (Ok(a), Ok(b)) = (first, second) {
            let pa = Calculator::expression(a);
            let pb = Calculator::expression(b);
            assert_eq!(pa, pb);
            assert_eq!(Calculator::can_evaluate(&pa), Calculator::can_evaluate(&pb));
            if Calculator::can_evaluate(&pa) {
                assert_eq!(Calculator::evaluate(pa), Calculator::evaluate(pb));
            }
        }
    }
}
