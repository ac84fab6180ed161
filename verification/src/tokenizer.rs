//! The tokenizer: from text to tokens.
//!
//! The model reads the text one character at a time, from the left. What it
//! has read so far is summed up by a [`Scan`]: the tokens produced and the
//! number of brackets that are open. [`tokenize`] is the model of the whole
//! stage.

use vstd::prelude::*;
use crate::token::{
    all_lexical, balanced, bracket_weight, nesting, never_overclosed, Error, Operator, Token,
    CLOSE, OPEN,
};
use crate::Calculator;

verus! {

/// What the tokenizer knows after reading some characters without failing.
pub struct Scan {
    /// The tokens produced so far.
    pub tokens: Seq<Token>,
    /// How many opening brackets wait for their partner.
    pub open: nat,
}

/// Blanks separate nothing and produce nothing: they are skipped.
pub open spec fn is_blank(c: char) -> bool {
    c == ' ' || c == '\n' || c == '\r'
}

/// The decimal digits.
pub open spec fn is_digit(c: char) -> bool {
    '0' as u32 <= c as u32 <= '9' as u32
}

/// The value of a decimal digit.
pub open spec fn digit_value(c: char) -> nat
    recommends
        is_digit(c),
{
    (c as u32 - '0' as u32) as nat
}

/// The number that a digit of value `d` leads to after `tokens`: the last
/// token's value with the digit appended if the last token is a number, the
/// digit's own value otherwise.
pub open spec fn grown(tokens: Seq<Token>, d: nat) -> nat {
    if tokens.len() > 0 {
        match tokens.last() {
            Token::Num(v) => v as nat * 10 + d,
            _ => d,
        }
    } else {
        d
    }
}

/// The tokens after a digit of value `d` has been read: the digit extends a
/// number that stands last, and starts a new number after anything else.
pub open spec fn with_digit(tokens: Seq<Token>, d: nat) -> Seq<Token> {
    let number = Token::Num(grown(tokens, d) as u32);
    if tokens.len() > 0 && tokens.last() is Num {
        tokens.drop_last().push(number)
    } else {
        tokens.push(number)
    }
}

/// Reads one character.
pub open spec fn scan_char(s: Scan, c: char) -> Result<Scan, Error> {
    if is_blank(c) {
        Ok(s)
    } else if is_digit(c) {
        Ok(Scan { tokens: with_digit(s.tokens, digit_value(c)), open: s.open })
    } else if c == OPEN {
        Ok(Scan { tokens: s.tokens.push(Token::Bracket(OPEN)), open: s.open + 1 })
    } else if c == CLOSE {
        if s.open == 0 {
            Err(Error::MismatchedParens)
        } else {
            Ok(Scan { tokens: s.tokens.push(Token::Bracket(CLOSE)), open: (s.open - 1) as nat })
        }
    } else {
        match Operator::of_char(c) {
            Some(op) => Ok(Scan { tokens: s.tokens.push(Token::Op(op)), open: s.open }),
            None => Err(Error::BadToken(c)),
        }
    }
}

/// Reads `text` from the left and stops at the first character that fails.
pub open spec fn scan(text: Seq<char>) -> Result<Scan, Error>
    decreases text.len(),
{
    if text.len() == 0 {
        Ok(Scan { tokens: Seq::empty(), open: 0 })
    } else {
        match scan(text.drop_last()) {
            Ok(s) => scan_char(s, text.last()),
            Err(e) => Err(e),
        }
    }
}

/// The tokenizer's model: the tokens of `text`, or the reason why it has
/// none. A bracket left open at the end of the text is a failure too.
pub open spec fn tokenize(text: Seq<char>) -> Result<Seq<Token>, Error> {
    match scan(text) {
        Ok(s) => if s.open == 0 {
            Ok(s.tokens)
        } else {
            Err(Error::MismatchedParens)
        },
        Err(e) => Err(e),
    }
}

/// Every number that the tokenizer builds while it reads `text` fits in 32
/// bits. Digits that follow the first failing character are never read and
/// do not count.
pub open spec fn literals_fit(text: Seq<char>) -> bool
    decreases text.len(),
{
    text.len() == 0 || {
        &&& literals_fit(text.drop_last())
        &&& match scan(text.drop_last()) {
            Ok(s) => is_digit(text.last()) ==> grown(s.tokens, digit_value(text.last()))
                <= u32::MAX,
            Err(_) => true,
        }
    }
}

/// A result of the executable tokenizer, seen as a result of the model.
pub open spec fn tokens_view(r: Result<Vec<Token>, Error>) -> Result<Seq<Token>, Error> {
    match r {
        Ok(tokens) => Ok(tokens@),
        Err(e) => Err(e),
    }
}

/// A failure met in a prefix of the text is the failure of the whole text.
pub proof fn lemma_scan_failure_is_final(text: Seq<char>, k: int)
    requires
        0 <= k <= text.len(),
        scan(text.take(k)) is Err,
    ensures
        scan(text) == scan(text.take(k)),
    decreases text.len() - k,
{
    if k == text.len() {
        assert(text.take(k) =~= text);
    } else {
        assert(text.take(k + 1).drop_last() =~= text.take(k));
        lemma_scan_failure_is_final(text, k + 1);
    }
}

/// A number that does not fit while a prefix is read does not fit in the
/// whole text either.
pub proof fn lemma_misfit_is_final(text: Seq<char>, k: int)
    requires
        0 <= k <= text.len(),
        !literals_fit(text.take(k)),
    ensures
        !literals_fit(text),
    decreases text.len() - k,
{
    if k == text.len() {
        assert(text.take(k) =~= text);
    } else {
        assert(text.take(k + 1).drop_last() =~= text.take(k));
        lemma_misfit_is_final(text, k + 1);
    }
}

/// Once the scan of a prefix has failed, no later digit is read: the numbers
/// of the whole text fit if those of the prefix do.
pub proof fn lemma_fit_after_failure(text: Seq<char>, k: int)
    requires
        0 <= k <= text.len(),
        scan(text.take(k)) is Err,
        literals_fit(text.take(k)),
    ensures
        literals_fit(text),
    decreases text.len() - k,
{
    if k == text.len() {
        assert(text.take(k) =~= text);
    } else {
        assert(text.take(k + 1).drop_last() =~= text.take(k));
        lemma_fit_after_failure(text, k + 1);
    }
}

/// Appending a token that leaves the nesting non-negative keeps every prefix
/// non-negative.
proof fn lemma_push_never_overclosed(tokens: Seq<Token>, t: Token)
    requires
        never_overclosed(tokens),
        nesting(tokens) + bracket_weight(t) >= 0,
    ensures
        never_overclosed(tokens.push(t)),
        nesting(tokens.push(t)) == nesting(tokens) + bracket_weight(t),
{
    let longer = tokens.push(t);
    assert(longer.drop_last() =~= tokens);
    assert forall|k: int| 0 <= k <= longer.len() implies nesting(#[trigger] longer.take(k))
        >= 0 by {
        if k == longer.len() {
            assert(longer.take(k) =~= longer);
        } else {
            assert(longer.take(k) =~= tokens.take(k));
        }
    }
}

/// Replacing a last token by one of the same weight changes neither the
/// nesting nor the sign of any prefix.
proof fn lemma_replace_last_never_overclosed(tokens: Seq<Token>, t: Token)
    requires
        tokens.len() > 0,
        never_overclosed(tokens),
        bracket_weight(t) == bracket_weight(tokens.last()),
    ensures
        never_overclosed(tokens.drop_last().push(t)),
        nesting(tokens.drop_last().push(t)) == nesting(tokens),
{
    let shorter = tokens.drop_last();
    assert(shorter =~= tokens.take(tokens.len() - 1));
    assert(tokens.take(tokens.len() as int) =~= tokens);
    assert forall|k: int| 0 <= k <= shorter.len() implies nesting(#[trigger] shorter.take(k))
        >= 0 by {
        assert(shorter.take(k) =~= tokens.take(k));
    }
    lemma_push_never_overclosed(shorter, t);
}

/// While the tokenizer reads, the tokens it has produced are never
/// overclosed, their nesting is the number of brackets it holds open, and
/// each of them is a number, an operator or one of the two brackets.
pub proof fn lemma_scan_tracks_nesting(text: Seq<char>)
    ensures
        scan(text) matches Ok(s) ==> {
            &&& never_overclosed(s.tokens)
            &&& nesting(s.tokens) == s.open
            &&& all_lexical(s.tokens)
        },
    decreases text.len(),
{
    if text.len() == 0 {
        assert forall|k: int| 0 <= k <= 0 implies nesting(
            #[trigger] Seq::<Token>::empty().take(k),
        ) >= 0 by {
            assert(Seq::<Token>::empty().take(k) =~= Seq::<Token>::empty());
        }
    } else {
        lemma_scan_tracks_nesting(text.drop_last());
        if let Ok(before) = scan(text.drop_last()) {
            let c = text.last();
            if let Ok(after) = scan_char(before, c) {
                if is_blank(c) {
                } else if is_digit(c) {
                    let number = Token::Num(grown(before.tokens, digit_value(c)) as u32);
                    if before.tokens.len() > 0 && before.tokens.last() is Num {
                        lemma_replace_last_never_overclosed(before.tokens, number);
                    } else {
                        lemma_push_never_overclosed(before.tokens, number);
                    }
                } else {
                    lemma_push_never_overclosed(before.tokens, after.tokens.last());
                    assert(after.tokens =~= before.tokens.push(after.tokens.last()));
                }
            }
        }
    }
}

/// What the tokenizer accepts is balanced, and holds nothing but numbers,
/// operators and the two brackets.
pub proof fn lemma_tokenize_is_balanced(text: Seq<char>)
    ensures
        tokenize(text) matches Ok(tokens) ==> balanced(tokens) && all_lexical(tokens),
{
    lemma_scan_tracks_nesting(text);
}

impl Calculator {
    /// Tokenizes `expr`, unless one of its numbers does not fit in 32 bits.
    ///
    /// Returns `None` exactly when a number outgrows 32 bits before the text
    /// ends or fails; otherwise the result is that of [`tokenize`].
    pub fn parse_checked(expr: &str) -> (r: Option<Result<Vec<Token>, Error>>)
        ensures
            r is Some <==> literals_fit(expr@),
            r matches Some(outcome) ==> tokens_view(outcome) == tokenize(expr@),
            r matches Some(Ok(tokens)) ==> balanced(tokens@) && all_lexical(tokens@),
    {
        let mut tokens: Vec<Token> = Vec::new();
        let mut open: usize = 0;
        let chars = expr.chars();
        let ghost mut read: int = 0;
        proof {
            vstd::string::axiom_spec_iter(expr);
        }
        for c in it: chars
            invariant
                it.seq() == expr@,
                read == it.index(),
                scan(expr@.take(read)) == Ok::<Scan, Error>(
                    Scan { tokens: tokens@, open: open as nat },
                ),
                literals_fit(expr@.take(read)),
                open <= tokens.len(),
        {
            let ghost before = Scan { tokens: tokens@, open: open as nat };
            proof {
                assert(expr@.take(read + 1).drop_last() =~= expr@.take(read));
                assert(expr@.take(read + 1).last() == c);
            }
            if c == ' ' || c == '\n' || c == '\r' {
            } else if '0' as u32 <= c as u32 && c as u32 <= '9' as u32 {
                let digit: u32 = c as u32 - '0' as u32;
                let n = tokens.len();
                let mut grown_value: Option<u32> = Some(digit);
                let mut extends: bool = false;
                if n > 0 {
                    match tokens[n - 1] {
                        Token::Num(v) => {
                            extends = true;
                            grown_value = match v.checked_mul(10) {
                                Some(shifted) => shifted.checked_add(digit),
                                None => None,
                            };
                        },
                        _ => {},
                    }
                }
                match grown_value {
                    Some(value) => {
                        if extends {
                            tokens.pop();
                        }
                        tokens.push(Token::Num(value));
                    },
                    None => {
                        proof {
                            lemma_misfit_is_final(expr@, read + 1);
                        }
                        return None;
                    },
                }
            } else if c == OPEN {
                tokens.push(Token::Bracket(OPEN));
                assert(open < tokens.len());
                open = open + 1;
            } else if c == CLOSE {
                if open == 0 {
                    proof {
                        lemma_scan_failure_is_final(expr@, read + 1);
                        lemma_fit_after_failure(expr@, read + 1);
                    }
                    return Some(Err(Error::MismatchedParens));
                }
                tokens.push(Token::Bracket(CLOSE));
                open = open - 1;
            } else if c == '+' {
                tokens.push(Token::Op(Operator::Add));
            } else if c == '-' {
                tokens.push(Token::Op(Operator::Sub));
            } else if c == '*' {
                tokens.push(Token::Op(Operator::Mul));
            } else if c == '/' {
                tokens.push(Token::Op(Operator::Div));
            } else if c == '^' {
                tokens.push(Token::Op(Operator::Exp));
            } else {
                proof {
                    lemma_scan_failure_is_final(expr@, read + 1);
                    lemma_fit_after_failure(expr@, read + 1);
                }
                return Some(Err(Error::BadToken(c)));
            }
            proof {
                assert(scan_char(before, c) == Ok::<Scan, Error>(
                    Scan { tokens: tokens@, open: open as nat },
                ));
                read = read + 1;
            }
        }
        proof {
            assert(expr@.take(read) =~= expr@);
            lemma_tokenize_is_balanced(expr@);
        }
        if open > 0 {
            Some(Err(Error::MismatchedParens))
        } else {
            Some(Ok(tokens))
        }
    }

    /// Tokenizes `expr`: the result is that of [`tokenize`].
    ///
    /// The numbers of the text must fit in 32 bits; [`Calculator::parse_checked`]
    /// is there for a text of which this is not known.
    pub fn parse(expr: &str) -> (r: Result<Vec<Token>, Error>)
        requires
            literals_fit(expr@),
        ensures
            tokens_view(r) == tokenize(expr@),
            r matches Ok(tokens) ==> balanced(tokens@) && all_lexical(tokens@),
    {
        Self::parse_checked(expr).unwrap()
    }
}

} // verus!
