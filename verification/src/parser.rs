//! Precedence-driven rewriting of an infix token sequence into postfix
//! (Reverse Polish) order, by the classic operator-stack (shunting-yard)
//! algorithm.
//!
//! Operands and postfix quantifiers go straight to the output; a left
//! parenthesis is pushed; a right parenthesis pops operators until a left
//! parenthesis is popped and discarded, or the stack runs out (unbalanced
//! grouping is tolerated, not rejected); the two binary operators first pop
//! every stacked operator that is not a left parenthesis — one uniform rule,
//! which makes `Concatenation` and `Alternation` equal in precedence and
//! left-associative. At the end the stack is drained into the output.

use vstd::prelude::*;

use crate::token::clone_token;
use crate::token::views_of;
use crate::token::Error;
use crate::token::SpecToken;
use crate::token::Token;

verus! {

/// All of `stack`, popped into emission order (top first). Tokens still on
/// the stack when the input ends are emitted this way, a stray left
/// parenthesis included.
pub open spec fn drain_all(stack: Seq<SpecToken>) -> Seq<SpecToken>
    decreases stack.len(),
{
    if stack.len() == 0 {
        Seq::empty()
    } else {
        seq![stack.last()] + drain_all(stack.drop_last())
    }
}

/// The effect of a right parenthesis on the stack: the operators popped into
/// the output (top first) and the stack left behind. Popping stops when a
/// left parenthesis is popped — it is discarded, not emitted — or when the
/// stack runs out.
pub open spec fn drain_to_lparen(stack: Seq<SpecToken>) -> (Seq<SpecToken>, Seq<SpecToken>)
    decreases stack.len(),
{
    if stack.len() == 0 {
        (Seq::empty(), Seq::empty())
    } else if stack.last() is LeftParen {
        (Seq::empty(), stack.drop_last())
    } else {
        let rec = drain_to_lparen(stack.drop_last());
        (seq![stack.last()] + rec.0, rec.1)
    }
}

/// The effect of a binary operator on the stack, before it is pushed: every
/// operator above the topmost left parenthesis is popped into the output
/// (top first); the left parenthesis, if any, stays.
pub open spec fn pop_binops(stack: Seq<SpecToken>) -> (Seq<SpecToken>, Seq<SpecToken>)
    decreases stack.len(),
{
    if stack.len() == 0 {
        (Seq::empty(), Seq::empty())
    } else if stack.last() is LeftParen {
        (Seq::empty(), stack)
    } else {
        let rec = pop_binops(stack.drop_last());
        (seq![stack.last()] + rec.0, rec.1)
    }
}

/// One step per input token of the shunting-yard rewriting, from a given
/// output and operator stack; the final stack is drained into the output.
pub open spec fn shunt(ts: Seq<SpecToken>, output: Seq<SpecToken>, stack: Seq<SpecToken>) -> Seq<
    SpecToken,
>
    decreases ts.len(),
{
    if ts.len() == 0 {
        output + drain_all(stack)
    } else {
        let t = ts[0];
        let rest = ts.skip(1);
        match t {
            SpecToken::Literal(_) => shunt(rest, output.push(t), stack),
            SpecToken::CharClass(_) => shunt(rest, output.push(t), stack),
            SpecToken::ZeroOrMore => shunt(rest, output.push(t), stack),
            SpecToken::OneOrMore => shunt(rest, output.push(t), stack),
            SpecToken::ZeroOrOne => shunt(rest, output.push(t), stack),
            SpecToken::LeftParen => shunt(rest, output, stack.push(t)),
            SpecToken::RightParen => shunt(
                rest,
                output + drain_to_lparen(stack).0,
                drain_to_lparen(stack).1,
            ),
            SpecToken::Concatenation => shunt(
                rest,
                output + pop_binops(stack).0,
                pop_binops(stack).1.push(t),
            ),
            SpecToken::Alternation => shunt(
                rest,
                output + pop_binops(stack).0,
                pop_binops(stack).1.push(t),
            ),
        }
    }
}

/// The postfix form of an infix token sequence.
pub open spec fn spec_to_postfix(ts: Seq<SpecToken>) -> Seq<SpecToken> {
    shunt(ts, Seq::empty(), Seq::empty())
}

/// Rewrites a token sequence into postfix order.
pub struct Parser {
    tokens: Vec<Token>,
}

impl Parser {
    /// The models of the tokens this parser was built over.
    pub closed spec fn input(&self) -> Seq<SpecToken> {
        views_of(self.tokens@)
    }

    /// A parser over `tokens`.
    pub fn new(tokens: Vec<Token>) -> (p: Parser)
        ensures
            p.input() == views_of(tokens@),
    {
        Parser { tokens }
    }

    /// The number of input tokens.
    fn input_len(&self) -> (n: usize)
        ensures
            n == self.tokens@.len(),
    {
        self.tokens.len()
    }

    /// The input token at index `i`, as a reference.
    fn tok_at(&self, i: usize) -> (t: &Token)
        requires
            i < self.tokens@.len(),
        ensures
            *t == self.tokens@[i as int],
    {
        &self.tokens[i]
    }

    /// Rewrites the input into its postfix form. Never fails: any token
    /// sequence, well-formed or not, yields `Ok`; unmatched parentheses are
    /// tolerated silently.
    pub fn parse(&mut self) -> (r: Result<Vec<Token>, Error>)
        ensures
            r is Ok,
            views_of(r->Ok_0@) == spec_to_postfix(old(self).input()),
            final(self).input() == old(self).input(),
    {
        let ghost ts = views_of(self.tokens@);
        let mut output: Vec<Token> = Vec::new();
        let mut stack: Vec<Token> = Vec::new();
        let n = self.input_len();
        let mut i: usize = 0;
        proof {
            assert(ts.skip(0) =~= ts);
            assert(views_of(output@) =~= Seq::<SpecToken>::empty());
            assert(views_of(stack@) =~= Seq::<SpecToken>::empty());
        }

        while i < n
            invariant
                i <= n,
                n == self.tokens@.len(),
                self.tokens@ == old(self).tokens@,
                ts == views_of(self.tokens@),
                shunt(ts.skip(i as int), views_of(output@), views_of(stack@)) == spec_to_postfix(
                    ts,
                ),
            decreases n - i,
        {
            let ghost out_pre = views_of(output@);
            let ghost st_pre = views_of(stack@);
            proof {
                assert(ts.skip(i as int).len() == n - i);
                assert(ts.skip(i as int)[0] == ts[i as int]);
                assert(ts.skip(i as int).skip(1) =~= ts.skip(i + 1));
            }
            let t = self.tok_at(i);
            match t {
                Token::Literal(_) | Token::CharClass(_) | Token::ZeroOrMore | Token::OneOrMore
                    | Token::ZeroOrOne => {
                    output.push(clone_token(t));
                    proof {
                        assert(views_of(output@) =~= out_pre.push(ts[i as int]));
                    }
                },
                Token::LeftParen => {
                    stack.push(Token::LeftParen);
                    proof {
                        assert(views_of(stack@) =~= st_pre.push(ts[i as int]));
                    }
                },
                Token::RightParen => {
                    loop
                        invariant_except_break
                            views_of(output@) + drain_to_lparen(views_of(stack@)).0 == out_pre
                                + drain_to_lparen(st_pre).0,
                            drain_to_lparen(views_of(stack@)).1 == drain_to_lparen(st_pre).1,
                        ensures
                            views_of(output@) == out_pre + drain_to_lparen(st_pre).0,
                            views_of(stack@) == drain_to_lparen(st_pre).1,
                        decreases stack@.len(),
                    {
                        let ghost st_cur = views_of(stack@);
                        let ghost out_cur = views_of(output@);
                        if stack.len() == 0 {
                            proof {
                                assert(st_cur =~= Seq::<SpecToken>::empty());
                                assert(out_cur + drain_to_lparen(st_cur).0 =~= out_cur);
                                assert(views_of(stack@) =~= drain_to_lparen(st_pre).1);
                            }
                            break ;
                        }
                        let op = stack.pop().unwrap();
                        proof {
                            assert(op@ == st_cur.last());
                            assert(views_of(stack@) =~= st_cur.drop_last());
                        }
                        if matches!(op, Token::LeftParen) {
                            proof {
                                assert(drain_to_lparen(st_cur).0 =~= Seq::<SpecToken>::empty());
                                assert(out_cur + drain_to_lparen(st_cur).0 =~= out_cur);
                            }
                            break ;
                        }
                        output.push(op);
                        proof {
                            assert(views_of(output@) =~= out_cur.push(st_cur.last()));
                            assert(out_cur.push(st_cur.last()) + drain_to_lparen(
                                st_cur.drop_last(),
                            ).0 =~= out_cur + drain_to_lparen(st_cur).0);
                        }
                    }
                },
                Token::Concatenation | Token::Alternation => {
                    loop
                        invariant_except_break
                            views_of(output@) + pop_binops(views_of(stack@)).0 == out_pre
                                + pop_binops(st_pre).0,
                            pop_binops(views_of(stack@)).1 == pop_binops(st_pre).1,
                        ensures
                            views_of(output@) == out_pre + pop_binops(st_pre).0,
                            views_of(stack@) == pop_binops(st_pre).1,
                        decreases stack@.len(),
                    {
                        let ghost st_cur = views_of(stack@);
                        let ghost out_cur = views_of(output@);
                        if stack.len() == 0 {
                            proof {
                                assert(st_cur =~= Seq::<SpecToken>::empty());
                                assert(out_cur + pop_binops(st_cur).0 =~= out_cur);
                                assert(views_of(stack@) =~= pop_binops(st_pre).1);
                            }
                            break ;
                        }
                        let op = stack.pop().unwrap();
                        proof {
                            assert(op@ == st_cur.last());
                            assert(views_of(stack@) =~= st_cur.drop_last());
                        }
                        if matches!(op, Token::LeftParen) {
                            stack.push(op);
                            proof {
                                assert(views_of(stack@) =~= st_cur);
                                assert(pop_binops(st_cur).0 =~= Seq::<SpecToken>::empty());
                                assert(out_cur + pop_binops(st_cur).0 =~= out_cur);
                            }
                            break ;
                        }
                        output.push(op);
                        proof {
                            assert(views_of(output@) =~= out_cur.push(st_cur.last()));
                            assert(out_cur.push(st_cur.last()) + pop_binops(
                                st_cur.drop_last(),
                            ).0 =~= out_cur + pop_binops(st_cur).0);
                        }
                    }
                    stack.push(clone_token(t));
                    proof {
                        assert(views_of(stack@) =~= pop_binops(st_pre).1.push(ts[i as int]));
                    }
                },
            }
            i += 1;
        }

        proof {
            assert(ts.skip(n as int) =~= Seq::<SpecToken>::empty());
        }
        loop
            invariant_except_break
                views_of(output@) + drain_all(views_of(stack@)) == spec_to_postfix(ts),
            ensures
                views_of(output@) == spec_to_postfix(ts),
            decreases stack@.len(),
        {
            let ghost st_cur = views_of(stack@);
            let ghost out_cur = views_of(output@);
            if stack.len() == 0 {
                proof {
                    assert(st_cur =~= Seq::<SpecToken>::empty());
                    assert(out_cur + drain_all(st_cur) =~= out_cur);
                }
                break ;
            }
            let op = stack.pop().unwrap();
            output.push(op);
            proof {
                assert(op@ == st_cur.last());
                assert(views_of(stack@) =~= st_cur.drop_last());
                assert(views_of(output@) =~= out_cur.push(st_cur.last()));
                assert(out_cur.push(st_cur.last()) + drain_all(st_cur.drop_last()) =~= out_cur
                    + drain_all(st_cur));
            }
        }

        Ok(output)
    }
}

} // verus!
