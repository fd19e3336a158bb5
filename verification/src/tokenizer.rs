//! Lexical scanning of a pattern string into a token sequence.
//!
//! The scan is deliberately permissive: a trailing backslash is dropped, an
//! unterminated character class is emitted with whatever was scanned, and no
//! input is ever rejected. After the raw scan, an explicit `Concatenation`
//! token is inserted between every adjacent pair where one operand ends and
//! the next begins.

use vstd::prelude::*;

use crate::token::clone_token;
use crate::token::views_of;
use crate::token::Error;
use crate::token::SpecToken;
use crate::token::Token;

verus! {

/// The body of a character class: the characters of `s` before the first
/// `]`, or all of `s` when no `]` follows.
pub open spec fn class_body(s: Seq<char>) -> Seq<char>
    decreases s.len(),
{
    if s.len() == 0 {
        Seq::empty()
    } else if s[0] == ']' {
        Seq::empty()
    } else {
        seq![s[0]] + class_body(s.skip(1))
    }
}

/// The raw token sequence scanned from `s`, before concatenation insertion.
///
/// A backslash literalizes the next character and is dropped when it is the
/// last character; `[` opens a character class that runs to the first `]` or
/// to the end of the input; `|`, `*`, `+`, `?`, `(`, `)` are operator and
/// delimiter tokens; every other character is a literal.
pub open spec fn scan_tokens(s: Seq<char>) -> Seq<SpecToken>
    decreases s.len(),
{
    if s.len() == 0 {
        Seq::empty()
    } else {
        let c = s[0];
        if c == '\\' {
            if s.len() == 1 {
                Seq::empty()
            } else {
                seq![SpecToken::Literal(s[1])] + scan_tokens(s.skip(2))
            }
        } else if c == '[' {
            let body = class_body(s.skip(1));
            let consumed = if 2 + body.len() <= s.len() {
                2 + body.len() as int
            } else {
                s.len() as int
            };
            seq![SpecToken::CharClass(body)] + scan_tokens(s.skip(consumed))
        } else if c == '|' {
            seq![SpecToken::Alternation] + scan_tokens(s.skip(1))
        } else if c == '*' {
            seq![SpecToken::ZeroOrMore] + scan_tokens(s.skip(1))
        } else if c == '+' {
            seq![SpecToken::OneOrMore] + scan_tokens(s.skip(1))
        } else if c == '?' {
            seq![SpecToken::ZeroOrOne] + scan_tokens(s.skip(1))
        } else if c == '(' {
            seq![SpecToken::LeftParen] + scan_tokens(s.skip(1))
        } else if c == ')' {
            seq![SpecToken::RightParen] + scan_tokens(s.skip(1))
        } else {
            seq![SpecToken::Literal(c)] + scan_tokens(s.skip(1))
        }
    }
}

/// Whether a `Concatenation` token belongs between `prev` and `curr`:
/// `prev` can end an operand and `curr` can start one.
pub open spec fn spec_needs_concat(prev: SpecToken, curr: SpecToken) -> bool {
    (match prev {
        SpecToken::Literal(_) => true,
        SpecToken::CharClass(_) => true,
        SpecToken::ZeroOrMore => true,
        SpecToken::OneOrMore => true,
        SpecToken::ZeroOrOne => true,
        SpecToken::RightParen => true,
        _ => false,
    }) && (match curr {
        SpecToken::Literal(_) => true,
        SpecToken::CharClass(_) => true,
        SpecToken::LeftParen => true,
        _ => false,
    })
}

/// `ts` with a `Concatenation` token inserted between every adjacent pair
/// that [`spec_needs_concat`] accepts.
pub open spec fn insert_concat(ts: Seq<SpecToken>) -> Seq<SpecToken>
    decreases ts.len(),
{
    if ts.len() <= 1 {
        ts
    } else {
        let front = insert_concat(ts.drop_last());
        if spec_needs_concat(ts[ts.len() - 2], ts.last()) {
            front + seq![SpecToken::Concatenation, ts.last()]
        } else {
            front.push(ts.last())
        }
    }
}

/// The full tokenization of a pattern: raw scan, then concatenation
/// insertion.
pub open spec fn spec_tokenize(s: Seq<char>) -> Seq<SpecToken> {
    insert_concat(scan_tokens(s))
}

/// Scans a pattern string into tokens, left to right by a cursor.
pub struct Tokenizer {
    chars: Vec<char>,
    pos: usize,
}

impl Tokenizer {
    /// The characters not yet consumed by the cursor.
    pub closed spec fn remaining(&self) -> Seq<char> {
        if self.pos <= self.chars@.len() {
            self.chars@.skip(self.pos as int)
        } else {
            Seq::empty()
        }
    }

    /// A fresh tokenizer over the whole of `input`.
    pub fn new(input: &str) -> (t: Tokenizer)
        ensures
            t.remaining() == input@,
    {
        let n = input.unicode_len();
        let mut chars: Vec<char> = Vec::new();
        let mut i: usize = 0;
        while i < n
            invariant
                i <= n,
                n == input@.len(),
                chars@ == input@.take(i as int),
            decreases n - i,
        {
            chars.push(input.get_char(i));
            proof {
                assert(chars@ =~= input@.take(i + 1));
            }
            i += 1;
        }
        proof {
            assert(input@.take(n as int) =~= input@);
            assert(input@.skip(0) =~= input@);
        }
        Tokenizer { chars, pos: 0 }
    }

    /// The length of the stored pattern.
    fn input_len(&self) -> (n: usize)
        ensures
            n == self.chars@.len(),
    {
        self.chars.len()
    }

    /// The character at position `i` of the stored pattern.
    fn char_at(&self, i: usize) -> (c: char)
        requires
            i < self.chars@.len(),
        ensures
            c == self.chars@[i as int],
    {
        self.chars[i]
    }

    /// Scans the remaining input into its token sequence, with implicit
    /// concatenation made explicit. Never fails: every input, malformed
    /// grouping and dangling escapes included, yields `Ok`.
    pub fn tokenize(&mut self) -> (r: Result<Vec<Token>, Error>)
        ensures
            r is Ok,
            views_of(r->Ok_0@) == spec_tokenize(old(self).remaining()),
            final(self).remaining() == Seq::<char>::empty(),
    {
        let ghost input = self.remaining();
        let mut raw: Vec<Token> = Vec::new();

        while self.pos < self.input_len()
            invariant
                self.chars@ == old(self).chars@,
                views_of(raw@) + scan_tokens(self.remaining()) == scan_tokens(input),
            decreases self.chars@.len() - self.pos,
        {
            let ghost pre = self.remaining();
            let ghost raw_pre = raw@;
            let c = self.char_at(self.pos);
            if c == '\\' {
                self.pos += 1;
                if self.pos < self.input_len() {
                    let e = self.char_at(self.pos);
                    raw.push(Token::Literal(e));
                    self.pos += 1;
                    proof {
                        assert(self.remaining() =~= pre.skip(2));
                        assert(views_of(raw@) =~= views_of(raw_pre) + seq![
                            SpecToken::Literal(pre[1]),
                        ]);
                    }
                } else {
                    proof {
                        assert(pre.len() == 1);
                        assert(self.remaining() =~= Seq::<char>::empty());
                        assert(scan_tokens(self.remaining()) =~= Seq::<SpecToken>::empty());
                    }
                }
            } else if c == '[' {
                self.pos += 1;
                let ghost start = self.pos as int;
                let mut cls: Vec<char> = Vec::new();
                loop
                    invariant_except_break
                        self.chars@ == old(self).chars@,
                        0 <= start <= self.pos <= self.chars@.len(),
                        cls@ == self.chars@.subrange(start, self.pos as int),
                        forall|j: int| start <= j < self.pos ==> self.chars@[j] != ']',
                    ensures
                        self.chars@ == old(self).chars@,
                        0 <= start <= self.pos <= self.chars@.len(),
                        cls@ == self.chars@.subrange(start, self.pos as int),
                        class_body(self.chars@.skip(start)) == cls@,
                        self.pos < self.chars@.len() ==> self.chars@[self.pos as int] == ']',
                    decreases self.chars@.len() - self.pos,
                {
                    if self.pos >= self.input_len() {
                        proof {
                            assert(self.chars@.skip(self.pos as int) =~= Seq::<char>::empty());
                            assert(class_body(self.chars@.skip(start)) =~= cls@ + class_body(
                                self.chars@.skip(self.pos as int),
                            )) by {
                                lemma_class_body_split(self.chars@, start, self.pos as int);
                            }
                        }
                        break ;
                    }
                    let d = self.char_at(self.pos);
                    if d == ']' {
                        proof {
                            assert(class_body(self.chars@.skip(self.pos as int)) =~= Seq::<
                                char,
                            >::empty());
                            assert(class_body(self.chars@.skip(start)) =~= cls@ + class_body(
                                self.chars@.skip(self.pos as int),
                            )) by {
                                lemma_class_body_split(self.chars@, start, self.pos as int);
                            }
                        }
                        break ;
                    }
                    cls.push(d);
                    proof {
                        assert(cls@ =~= self.chars@.subrange(start, self.pos + 1));
                    }
                    self.pos += 1;
                }
                proof {
                    assert(pre.skip(1) =~= self.chars@.skip(start));
                }
                raw.push(Token::CharClass(cls));
                if self.pos < self.input_len() {
                    // skip the closing bracket
                    self.pos += 1;
                    proof {
                        let body = class_body(pre.skip(1));
                        assert(2 + body.len() <= pre.len());
                        assert(self.remaining() =~= pre.skip(2 + body.len() as int));
                    }
                } else {
                    proof {
                        let body = class_body(pre.skip(1));
                        assert(2 + body.len() > pre.len());
                        assert(self.remaining() =~= pre.skip(pre.len() as int));
                        assert(self.remaining() =~= Seq::<char>::empty());
                    }
                }
                proof {
                    assert(views_of(raw@) =~= views_of(raw_pre) + seq![
                        SpecToken::CharClass(class_body(pre.skip(1))),
                    ]);
                }
            } else {
                let t = if c == '|' {
                    Token::Alternation
                } else if c == '*' {
                    Token::ZeroOrMore
                } else if c == '+' {
                    Token::OneOrMore
                } else if c == '?' {
                    Token::ZeroOrOne
                } else if c == '(' {
                    Token::LeftParen
                } else if c == ')' {
                    Token::RightParen
                } else {
                    Token::Literal(c)
                };
                raw.push(t);
                self.pos += 1;
                proof {
                    assert(self.remaining() =~= pre.skip(1));
                    assert(views_of(raw@) =~= views_of(raw_pre) + seq![raw@.last()@]);
                }
            }
        }
        proof {
            assert(self.remaining() =~= Seq::<char>::empty());
            assert(scan_tokens(self.remaining()) =~= Seq::<SpecToken>::empty());
            assert(views_of(raw@) =~= scan_tokens(input));
        }

        // Insert an explicit concatenation operator between adjacent operands.
        let mut result: Vec<Token> = Vec::new();
        let n = raw.len();
        let mut i: usize = 0;
        while i < n
            invariant
                i <= n,
                n == raw@.len(),
                views_of(raw@) == scan_tokens(input),
                views_of(result@) == insert_concat(views_of(raw@).take(i as int)),
            decreases n - i,
        {
            let ghost scanned = views_of(raw@);
            let ghost result_pre = result@;
            if i > 0 && self.needs_concat(token_at(&raw, i - 1), token_at(&raw, i)) {
                result.push(Token::Concatenation);
            }
            result.push(clone_token(token_at(&raw, i)));
            proof {
                assert(scanned.take(i + 1).drop_last() =~= scanned.take(i as int));
                assert(scanned.take(i + 1).last() == scanned[i as int]);
                if i > 0 && spec_needs_concat(scanned[i as int - 1], scanned[i as int]) {
                    assert(views_of(result@) =~= insert_concat(scanned.take(i as int)) + seq![
                        SpecToken::Concatenation,
                        scanned[i as int],
                    ]);
                } else {
                    assert(views_of(result@) =~= insert_concat(scanned.take(i as int)).push(
                        scanned[i as int],
                    ));
                }
            }
            i += 1;
        }
        proof {
            assert(views_of(raw@).take(n as int) =~= views_of(raw@));
        }

        Ok(result)
    }

    /// Whether a `Concatenation` token belongs between `prev` and `curr`.
    fn needs_concat(&self, prev: &Token, curr: &Token) -> (b: bool)
        ensures
            b == spec_needs_concat(prev@, curr@),
    {
        (matches!(
            prev,
            Token::Literal(_) | Token::CharClass(_) | Token::ZeroOrMore | Token::OneOrMore
                | Token::ZeroOrOne | Token::RightParen
        )) && (matches!(curr, Token::Literal(_) | Token::CharClass(_) | Token::LeftParen))
    }
}

/// The element at index `i` of a token vector, as a reference.
fn token_at(v: &Vec<Token>, i: usize) -> (t: &Token)
    requires
        i < v@.len(),
    ensures
        *t == v@[i as int],
{
    &v[i]
}

/// The class body of a suffix splits at any point that is still inside the
/// class: the part already scanned, then the body of the rest.
proof fn lemma_class_body_split(s: Seq<char>, start: int, stop: int)
    requires
        0 <= start <= stop <= s.len(),
        forall|j: int| start <= j < stop ==> s[j] != ']',
    ensures
        class_body(s.skip(start)) == s.subrange(start, stop) + class_body(s.skip(stop)),
    decreases stop - start,
{
    if start == stop {
        assert(s.subrange(start, stop) =~= Seq::<char>::empty());
        assert(class_body(s.skip(start)) =~= s.subrange(start, stop) + class_body(s.skip(stop)));
    } else {
        lemma_class_body_split(s, start + 1, stop);
        assert(s.skip(start).len() > 0);
        assert(s.skip(start)[0] == s[start]);
        assert(s.skip(start).skip(1) =~= s.skip(start + 1));
        assert(class_body(s.skip(start)) == seq![s[start]] + class_body(s.skip(start + 1)));
        assert(seq![s[start]] + s.subrange(start + 1, stop) =~= s.subrange(start, stop));
        assert(class_body(s.skip(start)) =~= s.subrange(start, stop) + class_body(s.skip(stop)));
    }
}

} // verus!
