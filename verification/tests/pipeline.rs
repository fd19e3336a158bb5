//! End-to-end tests of the tokenizer and the parser.

use regex_postfix::Parser;
use regex_postfix::Token;
use regex_postfix::Tokenizer;

fn tokenize(pattern: &str) -> Vec<Token> {
    let mut tokenizer = Tokenizer::new(pattern);
    tokenizer.tokenize().unwrap()
}

fn to_postfix(tokens: Vec<Token>) -> Vec<Token> {
    let mut parser = Parser::new(tokens);
    parser.parse().unwrap()
}

fn pipeline(pattern: &str) -> Vec<Token> {
    to_postfix(tokenize(pattern))
}

fn count(tokens: &[Token], t: &Token) -> usize {
    tokens.iter().filter(|x| *x == t).count()
}

#[test]
fn empty_pattern() {
    assert_eq!(tokenize(""), vec![]);
    assert_eq!(pipeline(""), vec![]);
}

#[test]
fn single_literal() {
    assert_eq!(tokenize("a"), vec![Token::Literal('a')]);
    assert_eq!(pipeline("a"), vec![Token::Literal('a')]);
}

#[test]
fn literals_get_concatenation() {
    assert_eq!(
        tokenize("ab"),
        vec![Token::Literal('a'), Token::Concatenation, Token::Literal('b')]
    );
    assert_eq!(
        pipeline("ab"),
        vec![Token::Literal('a'), Token::Literal('b'), Token::Concatenation]
    );
}

#[test]
fn three_literals() {
    assert_eq!(
        tokenize("abc"),
        vec![
            Token::Literal('a'),
            Token::Concatenation,
            Token::Literal('b'),
            Token::Concatenation,
            Token::Literal('c'),
        ]
    );
    assert_eq!(
        pipeline("abc"),
        vec![
            Token::Literal('a'),
            Token::Literal('b'),
            Token::Concatenation,
            Token::Literal('c'),
            Token::Concatenation,
        ]
    );
}

#[test]
fn alternation() {
    assert_eq!(
        tokenize("a|b"),
        vec![Token::Literal('a'), Token::Alternation, Token::Literal('b')]
    );
    assert_eq!(
        pipeline("a|b"),
        vec![Token::Literal('a'), Token::Literal('b'), Token::Alternation]
    );
}

#[test]
fn quantifier_then_literal() {
    assert_eq!(
        tokenize("a*b"),
        vec![
            Token::Literal('a'),
            Token::ZeroOrMore,
            Token::Concatenation,
            Token::Literal('b'),
        ]
    );
    assert_eq!(
        pipeline("a*b"),
        vec![
            Token::Literal('a'),
            Token::ZeroOrMore,
            Token::Literal('b'),
            Token::Concatenation,
        ]
    );
}

#[test]
fn grouping_with_concatenation() {
    assert_eq!(
        tokenize("(a|b)c"),
        vec![
            Token::LeftParen,
            Token::Literal('a'),
            Token::Alternation,
            Token::Literal('b'),
            Token::RightParen,
            Token::Concatenation,
            Token::Literal('c'),
        ]
    );
    assert_eq!(
        pipeline("(a|b)c"),
        vec![
            Token::Literal('a'),
            Token::Literal('b'),
            Token::Alternation,
            Token::Literal('c'),
            Token::Concatenation,
        ]
    );
}

#[test]
fn char_class_single_token() {
    assert_eq!(
        tokenize("[abc]"),
        vec![Token::CharClass(vec!['a', 'b', 'c'])]
    );
    assert_eq!(
        pipeline("[abc]"),
        vec![Token::CharClass(vec!['a', 'b', 'c'])]
    );
}

#[test]
fn char_class_between_literals() {
    assert_eq!(
        tokenize("a[bc]d"),
        vec![
            Token::Literal('a'),
            Token::Concatenation,
            Token::CharClass(vec!['b', 'c']),
            Token::Concatenation,
            Token::Literal('d'),
        ]
    );
}

#[test]
fn char_class_keeps_duplicates_and_order() {
    assert_eq!(
        tokenize("[cba a]"),
        vec![Token::CharClass(vec!['c', 'b', 'a', ' ', 'a'])]
    );
}

#[test]
fn empty_char_class() {
    assert_eq!(tokenize("[]"), vec![Token::CharClass(vec![])]);
}

#[test]
fn unterminated_char_class() {
    assert_eq!(tokenize("[ab"), vec![Token::CharClass(vec!['a', 'b'])]);
    assert_eq!(tokenize("["), vec![Token::CharClass(vec![])]);
}

#[test]
fn escape_is_verbatim() {
    assert_eq!(
        tokenize("\\n\\*"),
        vec![Token::Literal('n'), Token::Concatenation, Token::Literal('*')]
    );
}

#[test]
fn trailing_backslash_dropped() {
    assert_eq!(
        tokenize("ab\\"),
        vec![Token::Literal('a'), Token::Concatenation, Token::Literal('b')]
    );
    assert_eq!(tokenize("\\"), vec![]);
}

#[test]
fn other_quantifiers() {
    assert_eq!(
        tokenize("a+b?"),
        vec![
            Token::Literal('a'),
            Token::OneOrMore,
            Token::Concatenation,
            Token::Literal('b'),
            Token::ZeroOrOne,
        ]
    );
    assert_eq!(
        pipeline("a+b?"),
        vec![
            Token::Literal('a'),
            Token::OneOrMore,
            Token::Literal('b'),
            Token::ZeroOrOne,
            Token::Concatenation,
        ]
    );
}

#[test]
fn unmatched_right_paren_tolerated() {
    // malformed grouping must not fail, and the stray token is consumed
    let out = pipeline("a)b");
    assert_eq!(
        out,
        vec![Token::Literal('a'), Token::Literal('b'), Token::Concatenation]
    );
}

#[test]
fn unmatched_left_paren_tolerated() {
    // the stray left parenthesis is drained into the output at the end
    let out = pipeline("(a");
    assert_eq!(out, vec![Token::Literal('a'), Token::LeftParen]);
}

#[test]
fn malformed_inputs_do_not_fail() {
    for pattern in ["a)", ")(", "ab\\", "[", "a|", "*", "(((", ")))"] {
        let mut tokenizer = Tokenizer::new(pattern);
        let tokens = tokenizer.tokenize();
        assert!(tokens.is_ok());
        let mut parser = Parser::new(tokens.unwrap());
        assert!(parser.parse().is_ok());
    }
}

#[test]
fn parser_conserves_non_paren_tokens() {
    // the parser only reorders: counts of every non-parenthesis token match
    let patterns = ["(a|b)*c+[xy]?d", "a(b|c)d", "((a))", "a|b|c", ")a("];
    for pattern in patterns {
        let infix = tokenize(pattern);
        let postfix = pipeline(pattern);
        let samples = [
            Token::Literal('a'),
            Token::Literal('b'),
            Token::Literal('c'),
            Token::Literal('d'),
            Token::CharClass(vec!['x', 'y']),
            Token::Alternation,
            Token::Concatenation,
            Token::ZeroOrMore,
            Token::OneOrMore,
            Token::ZeroOrOne,
        ];
        for t in &samples {
            assert_eq!(count(&postfix, t), count(&infix, t), "pattern {pattern:?}");
        }
        assert_eq!(count(&postfix, &Token::RightParen), 0, "pattern {pattern:?}");
    }
}

#[test]
fn binary_operators_share_precedence() {
    // one uniform popping rule: a later binary operator pops the earlier
    // one, whichever of the two it is
    assert_eq!(
        pipeline("a|bc"),
        vec![
            Token::Literal('a'),
            Token::Literal('b'),
            Token::Alternation,
            Token::Literal('c'),
            Token::Concatenation,
        ]
    );
}

#[test]
fn parentheses_override_popping() {
    assert_eq!(
        pipeline("a(b|c)"),
        vec![
            Token::Literal('a'),
            Token::Literal('b'),
            Token::Literal('c'),
            Token::Alternation,
            Token::Concatenation,
        ]
    );
}
