//! The token data model shared by the tokenizer and the parser.

use vstd::prelude::*;

verus! {

/// Mathematical model of a token: the same variants as [`Token`], with a
/// character class held as a `Seq<char>` instead of a `Vec<char>`.
pub enum SpecToken {
    Literal(char),
    CharClass(Seq<char>),
    Alternation,
    Concatenation,
    ZeroOrMore,
    OneOrMore,
    ZeroOrOne,
    LeftParen,
    RightParen,
}

/// A single token of a regular-expression pattern.
///
/// `Literal` and `CharClass` are operands; `Alternation` and `Concatenation`
/// are binary infix operators (`Concatenation` is synthesized by the
/// tokenizer, it has no written form); `ZeroOrMore`, `OneOrMore` and
/// `ZeroOrOne` are unary postfix quantifiers; the parentheses are grouping
/// delimiters. A `CharClass` keeps its characters in scanned order,
/// duplicates included, and may be empty.
#[derive(Debug, Clone, PartialEq)]
pub enum Token {
    Literal(char),
    CharClass(Vec<char>),
    Alternation,
    Concatenation,
    ZeroOrMore,
    OneOrMore,
    ZeroOrOne,
    LeftParen,
    RightParen,
}

impl View for Token {
    type V = SpecToken;

    open spec fn view(&self) -> SpecToken {
        match self {
            Token::Literal(c) => SpecToken::Literal(*c),
            Token::CharClass(cs) => SpecToken::CharClass(cs@),
            Token::Alternation => SpecToken::Alternation,
            Token::Concatenation => SpecToken::Concatenation,
            Token::ZeroOrMore => SpecToken::ZeroOrMore,
            Token::OneOrMore => SpecToken::OneOrMore,
            Token::ZeroOrOne => SpecToken::ZeroOrOne,
            Token::LeftParen => SpecToken::LeftParen,
            Token::RightParen => SpecToken::RightParen,
        }
    }
}

/// The models of a sequence of tokens, element by element.
pub open spec fn views_of(ts: Seq<Token>) -> Seq<SpecToken> {
    Seq::new(ts.len(), |i: int| ts[i]@)
}

/// Errors of the pattern pipeline. `Parse` is the structural error of the
/// tokenizer and parser interfaces; both are total and never produce it.
/// `File` reports an unreadable input source and belongs to the surrounding
/// program, not to the core.
#[derive(Debug)]
pub enum Error {
    Parse,
    File,
}

/// An explicit copy of a token, equal to the original in the model.
pub(crate) fn clone_token(t: &Token) -> (r: Token)
    ensures
        r@ == t@,
{
    match t {
        Token::Literal(c) => Token::Literal(*c),
        Token::CharClass(cs) => {
            let mut copy: Vec<char> = Vec::new();
            let n = cs.len();
            let mut i: usize = 0;
            while i < n
                invariant
                    i <= n,
                    n == cs@.len(),
                    copy@ == cs@.take(i as int),
                decreases n - i,
            {
                copy.push(cs[i]);
                proof {
                    assert(copy@ =~= cs@.take(i + 1));
                }
                i += 1;
            }
            proof {
                assert(cs@.take(n as int) =~= cs@);
            }
            Token::CharClass(copy)
        },
        Token::Alternation => Token::Alternation,
        Token::Concatenation => Token::Concatenation,
        Token::ZeroOrMore => Token::ZeroOrMore,
        Token::OneOrMore => Token::OneOrMore,
        Token::ZeroOrOne => Token::ZeroOrOne,
        Token::LeftParen => Token::LeftParen,
        Token::RightParen => Token::RightParen,
    }
}

} // verus!
