//! Laws relating the tokenizer and the parser.
//!
//! The parser only reorders: apart from parentheses, every token of its
//! input appears in its output exactly as often, and a right parenthesis
//! never appears in the output. For a pattern of plain literal characters,
//! tokenization yields the literals with a `Concatenation` between every
//! adjacent pair, and the postfix form keeps the literals in order with each
//! concatenation after its operands.

use vstd::prelude::*;

use crate::parser::drain_all;
use crate::parser::drain_to_lparen;
use crate::parser::pop_binops;
use crate::parser::shunt;
use crate::parser::spec_to_postfix;
use crate::token::SpecToken;
use crate::tokenizer::insert_concat;
use crate::tokenizer::scan_tokens;
use crate::tokenizer::spec_tokenize;

verus! {

/// How many times the token `t` occurs in `ts`.
pub open spec fn tok_count(ts: Seq<SpecToken>, t: SpecToken) -> nat
    decreases ts.len(),
{
    if ts.len() == 0 {
        0
    } else {
        (if ts.last() == t {
            1nat
        } else {
            0nat
        }) + tok_count(ts.drop_last(), t)
    }
}

/// Occurrences add up over concatenation.
proof fn lemma_count_concat(a: Seq<SpecToken>, b: Seq<SpecToken>, t: SpecToken)
    ensures
        tok_count(a + b, t) == tok_count(a, t) + tok_count(b, t),
    decreases b.len(),
{
    if b.len() == 0 {
        assert(a + b =~= a);
    } else {
        lemma_count_concat(a, b.drop_last(), t);
        assert((a + b).drop_last() =~= a + b.drop_last());
        assert((a + b).last() == b.last());
    }
}

/// Occurrences in a pushed sequence.
proof fn lemma_count_push(s: Seq<SpecToken>, x: SpecToken, t: SpecToken)
    ensures
        tok_count(s.push(x), t) == tok_count(s, t) + (if x == t {
            1nat
        } else {
            0nat
        }),
{
    assert(s.push(x).drop_last() =~= s);
    assert(s.push(x).last() == x);
}

/// Occurrences split at the front as they do at the back.
proof fn lemma_count_front(s: Seq<SpecToken>, t: SpecToken)
    requires
        s.len() > 0,
    ensures
        tok_count(s, t) == (if s[0] == t {
            1nat
        } else {
            0nat
        }) + tok_count(s.skip(1), t),
{
    assert(s =~= seq![s[0]] + s.skip(1));
    lemma_count_concat(seq![s[0]], s.skip(1), t);
    assert(tok_count(Seq::<SpecToken>::empty(), t) == 0);
    assert(seq![s[0]].drop_last() =~= Seq::<SpecToken>::empty());
    assert(seq![s[0]].last() == s[0]);
    assert(tok_count(seq![s[0]], t) == (if s[0] == t {
        1nat
    } else {
        0nat
    }));
}

/// Draining the whole stack keeps every occurrence.
proof fn lemma_drain_all_count(st: Seq<SpecToken>, t: SpecToken)
    ensures
        tok_count(drain_all(st), t) == tok_count(st, t),
    decreases st.len(),
{
    if st.len() == 0 {
    } else {
        lemma_drain_all_count(st.drop_last(), t);
        lemma_count_front(drain_all(st), t);
        assert(drain_all(st)[0] == st.last());
        assert(drain_all(st).skip(1) =~= drain_all(st.drop_last()));
    }
}

/// A right parenthesis discards at most one left parenthesis from the
/// stack: the occurrences of any other token are kept, split between what
/// is emitted and what stays.
proof fn lemma_drain_to_lparen_count(st: Seq<SpecToken>, t: SpecToken)
    requires
        !(t is LeftParen),
    ensures
        tok_count(drain_to_lparen(st).0, t) + tok_count(drain_to_lparen(st).1, t) == tok_count(
            st,
            t,
        ),
    decreases st.len(),
{
    if st.len() == 0 {
    } else if st.last() is LeftParen {
        assert(tok_count(drain_to_lparen(st).0, t) == 0);
    } else {
        lemma_drain_to_lparen_count(st.drop_last(), t);
        let rec = drain_to_lparen(st.drop_last());
        lemma_count_front(drain_to_lparen(st).0, t);
        assert(drain_to_lparen(st).0[0] == st.last());
        assert(drain_to_lparen(st).0.skip(1) =~= rec.0);
    }
}

/// A binary operator pops without discarding: every occurrence is kept,
/// split between what is emitted and what stays.
proof fn lemma_pop_binops_count(st: Seq<SpecToken>, t: SpecToken)
    ensures
        tok_count(pop_binops(st).0, t) + tok_count(pop_binops(st).1, t) == tok_count(st, t),
    decreases st.len(),
{
    if st.len() == 0 {
    } else if st.last() is LeftParen {
        assert(tok_count(pop_binops(st).0, t) == 0);
    } else {
        lemma_pop_binops_count(st.drop_last(), t);
        let rec = pop_binops(st.drop_last());
        lemma_count_front(pop_binops(st).0, t);
        assert(pop_binops(st).0[0] == st.last());
        assert(pop_binops(st).0.skip(1) =~= rec.0);
    }
}

/// Occurrences of a non-parenthesis token in the shunting result: all of
/// the output, the stack and the input survive.
proof fn lemma_shunt_count(ts: Seq<SpecToken>, out: Seq<SpecToken>, st: Seq<SpecToken>, t: SpecToken)
    requires
        !(t is LeftParen),
        !(t is RightParen),
    ensures
        tok_count(shunt(ts, out, st), t) == tok_count(out, t) + tok_count(st, t) + tok_count(
            ts,
            t,
        ),
    decreases ts.len(),
{
    if ts.len() == 0 {
        lemma_count_concat(out, drain_all(st), t);
        lemma_drain_all_count(st, t);
    } else {
        let t0 = ts[0];
        let rest = ts.skip(1);
        lemma_count_front(ts, t);
        match t0 {
            SpecToken::Literal(_) | SpecToken::CharClass(_) | SpecToken::ZeroOrMore
                | SpecToken::OneOrMore | SpecToken::ZeroOrOne => {
                lemma_shunt_count(rest, out.push(t0), st, t);
                lemma_count_push(out, t0, t);
            },
            SpecToken::LeftParen => {
                lemma_shunt_count(rest, out, st.push(t0), t);
                lemma_count_push(st, t0, t);
            },
            SpecToken::RightParen => {
                lemma_shunt_count(rest, out + drain_to_lparen(st).0, drain_to_lparen(st).1, t);
                lemma_count_concat(out, drain_to_lparen(st).0, t);
                lemma_drain_to_lparen_count(st, t);
            },
            SpecToken::Concatenation | SpecToken::Alternation => {
                lemma_shunt_count(rest, out + pop_binops(st).0, pop_binops(st).1.push(t0), t);
                lemma_count_concat(out, pop_binops(st).0, t);
                lemma_count_push(pop_binops(st).1, t0, t);
                lemma_pop_binops_count(st, t);
            },
        }
    }
}

/// A right parenthesis from the input is always consumed: none reaches the
/// output or the stack.
proof fn lemma_shunt_no_rparen(ts: Seq<SpecToken>, out: Seq<SpecToken>, st: Seq<SpecToken>)
    ensures
        tok_count(shunt(ts, out, st), SpecToken::RightParen) == tok_count(
            out,
            SpecToken::RightParen,
        ) + tok_count(st, SpecToken::RightParen),
    decreases ts.len(),
{
    let rp = SpecToken::RightParen;
    if ts.len() == 0 {
        lemma_count_concat(out, drain_all(st), rp);
        lemma_drain_all_count(st, rp);
    } else {
        let t0 = ts[0];
        let rest = ts.skip(1);
        match t0 {
            SpecToken::Literal(_) | SpecToken::CharClass(_) | SpecToken::ZeroOrMore
                | SpecToken::OneOrMore | SpecToken::ZeroOrOne => {
                lemma_shunt_no_rparen(rest, out.push(t0), st);
                lemma_count_push(out, t0, rp);
            },
            SpecToken::LeftParen => {
                lemma_shunt_no_rparen(rest, out, st.push(t0));
                lemma_count_push(st, t0, rp);
            },
            SpecToken::RightParen => {
                lemma_shunt_no_rparen(rest, out + drain_to_lparen(st).0, drain_to_lparen(st).1);
                lemma_count_concat(out, drain_to_lparen(st).0, rp);
                lemma_drain_to_lparen_count(st, rp);
            },
            SpecToken::Concatenation | SpecToken::Alternation => {
                lemma_shunt_no_rparen(rest, out + pop_binops(st).0, pop_binops(st).1.push(t0));
                lemma_count_concat(out, pop_binops(st).0, rp);
                lemma_count_push(pop_binops(st).1, t0, rp);
                lemma_pop_binops_count(st, rp);
            },
        }
    }
}

/// With no left parenthesis anywhere, none appears in the shunting result.
proof fn lemma_shunt_no_lparen(ts: Seq<SpecToken>, out: Seq<SpecToken>, st: Seq<SpecToken>)
    requires
        tok_count(ts, SpecToken::LeftParen) == 0,
        tok_count(out, SpecToken::LeftParen) == 0,
        tok_count(st, SpecToken::LeftParen) == 0,
    ensures
        tok_count(shunt(ts, out, st), SpecToken::LeftParen) == 0,
    decreases ts.len(),
{
    let lp = SpecToken::LeftParen;
    if ts.len() == 0 {
        lemma_count_concat(out, drain_all(st), lp);
        lemma_drain_all_count(st, lp);
    } else {
        let t0 = ts[0];
        let rest = ts.skip(1);
        lemma_count_front(ts, lp);
        match t0 {
            SpecToken::Literal(_) | SpecToken::CharClass(_) | SpecToken::ZeroOrMore
                | SpecToken::OneOrMore | SpecToken::ZeroOrOne => {
                lemma_count_push(out, t0, lp);
                lemma_shunt_no_lparen(rest, out.push(t0), st);
            },
            SpecToken::LeftParen => {
                // excluded: the input holds no left parenthesis
                assert(false);
            },
            SpecToken::RightParen => {
                lemma_count_concat(out, drain_to_lparen(st).0, lp);
                lemma_drain_to_lparen_lparen_free(st);
                lemma_shunt_no_lparen(rest, out + drain_to_lparen(st).0, drain_to_lparen(st).1);
            },
            SpecToken::Concatenation | SpecToken::Alternation => {
                lemma_count_concat(out, pop_binops(st).0, lp);
                lemma_count_push(pop_binops(st).1, t0, lp);
                lemma_pop_binops_lparen_bound(st);
                lemma_shunt_no_lparen(rest, out + pop_binops(st).0, pop_binops(st).1.push(t0));
            },
        }
    }
}

/// A left-parenthesis-free stack stays so under a right parenthesis.
proof fn lemma_drain_to_lparen_lparen_free(st: Seq<SpecToken>)
    requires
        tok_count(st, SpecToken::LeftParen) == 0,
    ensures
        tok_count(drain_to_lparen(st).0, SpecToken::LeftParen) == 0,
        tok_count(drain_to_lparen(st).1, SpecToken::LeftParen) == 0,
{
    lemma_drain_to_lparen_lparen_bound(st);
}

/// What a right parenthesis emits and keeps holds no more left
/// parentheses than the stack did.
proof fn lemma_drain_to_lparen_lparen_bound(st: Seq<SpecToken>)
    ensures
        tok_count(drain_to_lparen(st).0, SpecToken::LeftParen) + tok_count(
            drain_to_lparen(st).1,
            SpecToken::LeftParen,
        ) <= tok_count(st, SpecToken::LeftParen),
    decreases st.len(),
{
    let lp = SpecToken::LeftParen;
    if st.len() == 0 {
    } else if st.last() is LeftParen {
        assert(tok_count(drain_to_lparen(st).0, lp) == 0);
    } else {
        lemma_drain_to_lparen_lparen_bound(st.drop_last());
        let rec = drain_to_lparen(st.drop_last());
        lemma_count_front(drain_to_lparen(st).0, lp);
        assert(drain_to_lparen(st).0[0] == st.last());
        assert(drain_to_lparen(st).0.skip(1) =~= rec.0);
    }
}

/// A left-parenthesis-free stack stays so under a binary operator.
proof fn lemma_pop_binops_lparen_bound(st: Seq<SpecToken>)
    requires
        tok_count(st, SpecToken::LeftParen) == 0,
    ensures
        tok_count(pop_binops(st).0, SpecToken::LeftParen) == 0,
        tok_count(pop_binops(st).1, SpecToken::LeftParen) == 0,
{
    lemma_pop_binops_count(st, SpecToken::LeftParen);
}

/// The parser only reorders: a token that is not a parenthesis occurs in
/// the postfix output exactly as often as in the input, for every input
/// sequence, well-formed or not.
pub proof fn lemma_parse_conserves_tokens(ts: Seq<SpecToken>, t: SpecToken)
    requires
        !(t is LeftParen),
        !(t is RightParen),
    ensures
        tok_count(spec_to_postfix(ts), t) == tok_count(ts, t),
{
    lemma_shunt_count(ts, Seq::empty(), Seq::empty(), t);
}

/// A right parenthesis never appears in the postfix output, for any input.
pub proof fn lemma_no_right_paren_in_postfix(ts: Seq<SpecToken>)
    ensures
        tok_count(spec_to_postfix(ts), SpecToken::RightParen) == 0,
{
    lemma_shunt_no_rparen(ts, Seq::empty(), Seq::empty());
}

/// For an input with no parentheses at all, the postfix output holds
/// exactly the input's tokens: every token occurs exactly as often as
/// before, parentheses included (namely not at all).
pub proof fn lemma_paren_free_conservation(ts: Seq<SpecToken>, t: SpecToken)
    requires
        tok_count(ts, SpecToken::LeftParen) == 0,
        tok_count(ts, SpecToken::RightParen) == 0,
    ensures
        tok_count(spec_to_postfix(ts), t) == tok_count(ts, t),
{
    if t is LeftParen {
        lemma_shunt_no_lparen(ts, Seq::empty(), Seq::empty());
    } else if t is RightParen {
        lemma_no_right_paren_in_postfix(ts);
    } else {
        lemma_parse_conserves_tokens(ts, t);
    }
}

/// A character with no syntactic role: it is scanned as a bare literal.
pub open spec fn is_plain_char(c: char) -> bool {
    c != '\\' && c != '[' && c != '|' && c != '*' && c != '+' && c != '?' && c != '(' && c != ')'
}

/// Every character of `s` is a bare literal.
pub open spec fn all_plain(s: Seq<char>) -> bool {
    forall|i: int| 0 <= i < s.len() ==> is_plain_char(s[i])
}

/// The literal token for the character `c`.
pub open spec fn lit(c: char) -> SpecToken {
    SpecToken::Literal(c)
}

/// The literals of `s`, in order, with nothing between them.
pub open spec fn literals_of(s: Seq<char>) -> Seq<SpecToken>
    decreases s.len(),
{
    if s.len() == 0 {
        Seq::empty()
    } else {
        seq![lit(s[0])] + literals_of(s.skip(1))
    }
}

/// The infix form of a literal-only pattern: its literals in order, with a
/// `Concatenation` between every adjacent pair.
pub open spec fn infix_literals(s: Seq<char>) -> Seq<SpecToken>
    decreases s.len(),
{
    if s.len() == 0 {
        Seq::empty()
    } else if s.len() == 1 {
        seq![lit(s[0])]
    } else {
        infix_literals(s.drop_last()) + seq![SpecToken::Concatenation, lit(s.last())]
    }
}

/// The postfix form of a literal-only pattern: its literals in order, each
/// after the first followed by the `Concatenation` joining it to what came
/// before.
pub open spec fn postfix_literals(s: Seq<char>) -> Seq<SpecToken>
    decreases s.len(),
{
    if s.len() == 0 {
        Seq::empty()
    } else if s.len() == 1 {
        seq![lit(s[0])]
    } else {
        postfix_literals(s.drop_last()) + seq![lit(s.last()), SpecToken::Concatenation]
    }
}

/// The repeated tail of the infix form: `Concatenation`, literal,
/// `Concatenation`, literal, ...
spec fn lit_pairs(s: Seq<char>) -> Seq<SpecToken>
    decreases s.len(),
{
    if s.len() == 0 {
        Seq::empty()
    } else {
        seq![SpecToken::Concatenation, lit(s[0])] + lit_pairs(s.skip(1))
    }
}

/// The literals of `s`, element by element.
proof fn lemma_literals_of_index(s: Seq<char>)
    ensures
        literals_of(s).len() == s.len(),
        forall|i: int| 0 <= i < s.len() ==> literals_of(s)[i] == lit(s[i]),
    decreases s.len(),
{
    if s.len() == 0 {
    } else {
        lemma_literals_of_index(s.skip(1));
        assert(literals_of(s) == seq![lit(s[0])] + literals_of(s.skip(1)));
        assert(forall|i: int|
            1 <= i < s.len() ==> literals_of(s)[i] == literals_of(s.skip(1))[i - 1] && s.skip(1)[i
                - 1] == s[i]);
    }
}

/// A plain pattern scans to its literals, one token per character.
proof fn lemma_scan_plain(s: Seq<char>)
    requires
        all_plain(s),
    ensures
        scan_tokens(s) == literals_of(s),
    decreases s.len(),
{
    if s.len() == 0 {
    } else {
        assert(is_plain_char(s[0]));
        assert(all_plain(s.skip(1))) by {
            assert(forall|i: int|
                0 <= i < s.skip(1).len() ==> s.skip(1)[i] == s[i + 1] && is_plain_char(s[i + 1]));
        }
        lemma_scan_plain(s.skip(1));
        assert(scan_tokens(s) == seq![SpecToken::Literal(s[0])] + scan_tokens(s.skip(1)));
        assert(literals_of(s) == seq![lit(s[0])] + literals_of(s.skip(1)));
    }
}

/// Concatenation insertion interleaves a literal-only sequence.
proof fn lemma_insert_concat_literals(s: Seq<char>)
    ensures
        insert_concat(literals_of(s)) == infix_literals(s),
    decreases s.len(),
{
    let ts = literals_of(s);
    lemma_literals_of_index(s);
    if s.len() == 0 {
        assert(insert_concat(ts) =~= infix_literals(s));
    } else if s.len() == 1 {
        assert(ts =~= seq![lit(s[0])]);
        assert(insert_concat(ts) =~= infix_literals(s));
    } else {
        lemma_insert_concat_literals(s.drop_last());
        lemma_literals_of_index(s.drop_last());
        assert(ts.drop_last() =~= literals_of(s.drop_last()));
        assert(ts[ts.len() - 2] == lit(s[s.len() - 2]));
        assert(ts.last() == lit(s.last()));
        assert(insert_concat(ts) == insert_concat(ts.drop_last()) + seq![
            SpecToken::Concatenation,
            ts.last(),
        ]);
        assert(insert_concat(ts.drop_last()) + seq![SpecToken::Concatenation, ts.last()]
            =~= infix_literals(s));
    }
}

/// Appending a character extends the infix tail by one pair.
proof fn lemma_lit_pairs_snoc(s: Seq<char>, c: char)
    ensures
        lit_pairs(s.push(c)) == lit_pairs(s) + seq![SpecToken::Concatenation, lit(c)],
    decreases s.len(),
{
    if s.len() == 0 {
        assert(s.push(c)[0] == c);
        assert(s.push(c).skip(1) =~= Seq::<char>::empty());
        assert(lit_pairs(s.push(c)) == seq![SpecToken::Concatenation, lit(c)] + lit_pairs(
            s.push(c).skip(1),
        ));
        assert(lit_pairs(s.push(c)) =~= lit_pairs(s) + seq![SpecToken::Concatenation, lit(c)]);
    } else {
        assert(s.push(c).skip(1) =~= s.skip(1).push(c));
        assert(s.push(c)[0] == s[0]);
        lemma_lit_pairs_snoc(s.skip(1), c);
        assert(lit_pairs(s.push(c)) == seq![SpecToken::Concatenation, lit(s[0])] + lit_pairs(
            s.skip(1).push(c),
        ));
        assert(lit_pairs(s) == seq![SpecToken::Concatenation, lit(s[0])] + lit_pairs(s.skip(1)));
        assert(lit_pairs(s.push(c)) =~= lit_pairs(s) + seq![SpecToken::Concatenation, lit(c)]);
    }
}

/// The infix form of a nonempty pattern is its first literal followed by
/// the repeated tail.
proof fn lemma_infix_as_pairs(s: Seq<char>)
    requires
        s.len() >= 1,
    ensures
        infix_literals(s) == seq![lit(s[0])] + lit_pairs(s.skip(1)),
    decreases s.len(),
{
    if s.len() == 1 {
        assert(s.skip(1) =~= Seq::<char>::empty());
        assert(infix_literals(s) =~= seq![lit(s[0])] + lit_pairs(s.skip(1)));
    } else {
        lemma_infix_as_pairs(s.drop_last());
        assert(s.drop_last()[0] == s[0]);
        assert(s.skip(1) =~= s.drop_last().skip(1).push(s.last()));
        lemma_lit_pairs_snoc(s.drop_last().skip(1), s.last());
        assert(infix_literals(s) =~= seq![lit(s[0])] + lit_pairs(s.skip(1)));
    }
}

/// The postfix form of a pattern of two or more literals: the first two
/// literals, the repeated tail unchanged, and a final `Concatenation`.
proof fn lemma_postfix_split(s: Seq<char>)
    requires
        s.len() >= 2,
    ensures
        postfix_literals(s) == seq![lit(s[0]), lit(s[1])] + lit_pairs(s.skip(2)) + seq![
            SpecToken::Concatenation,
        ],
    decreases s.len(),
{
    if s.len() == 2 {
        assert(s.skip(2) =~= Seq::<char>::empty());
        assert(s.drop_last() =~= seq![s[0]]);
        assert(s.drop_last()[0] == s[0]);
        assert(postfix_literals(s.drop_last()) == seq![lit(s[0])]);
        assert(s.last() == s[1]);
        assert(postfix_literals(s) =~= seq![lit(s[0]), lit(s[1])] + lit_pairs(s.skip(2)) + seq![
            SpecToken::Concatenation,
        ]);
    } else {
        lemma_postfix_split(s.drop_last());
        assert(s.drop_last()[0] == s[0]);
        assert(s.drop_last()[1] == s[1]);
        assert(s.skip(2) =~= s.drop_last().skip(2).push(s.last()));
        lemma_lit_pairs_snoc(s.drop_last().skip(2), s.last());
        assert(postfix_literals(s) =~= seq![lit(s[0]), lit(s[1])] + lit_pairs(s.skip(2)) + seq![
            SpecToken::Concatenation,
        ]);
    }
}

/// Shunting the repeated tail from a stack holding one `Concatenation`
/// emits the tail unchanged and the stacked operator last.
proof fn lemma_shunt_pairs(t: Seq<char>, out: Seq<SpecToken>)
    ensures
        shunt(lit_pairs(t), out, seq![SpecToken::Concatenation]) == out + lit_pairs(t) + seq![
            SpecToken::Concatenation,
        ],
    decreases t.len(),
{
    let cat = SpecToken::Concatenation;
    if t.len() == 0 {
        assert(seq![cat].drop_last() =~= Seq::<SpecToken>::empty());
        assert(drain_all(Seq::<SpecToken>::empty()) =~= Seq::<SpecToken>::empty());
        assert(drain_all(seq![cat]) =~= seq![cat]);
        assert(shunt(lit_pairs(t), out, seq![cat]) =~= out + lit_pairs(t) + seq![cat]);
    } else {
        let lp = lit_pairs(t);
        assert(lp == seq![cat, lit(t[0])] + lit_pairs(t.skip(1)));
        assert(lp.len() >= 2);
        assert(lp[0] == cat);
        // the binary operator pops the stacked concatenation and is pushed
        assert(seq![cat].drop_last() =~= Seq::<SpecToken>::empty());
        assert(pop_binops(Seq::<SpecToken>::empty()) == (
            Seq::<SpecToken>::empty(),
            Seq::<SpecToken>::empty(),
        ));
        assert(pop_binops(seq![cat]).0 =~= seq![cat]);
        assert(pop_binops(seq![cat]).1 =~= Seq::<SpecToken>::empty());
        assert(pop_binops(seq![cat]).1.push(cat) =~= seq![cat]);
        let mid = lp.skip(1);
        assert(mid =~= seq![lit(t[0])] + lit_pairs(t.skip(1)));
        assert(shunt(lp, out, seq![cat]) == shunt(mid, out + seq![cat], seq![cat]));
        // the literal goes straight to the output
        assert(mid[0] == lit(t[0]));
        assert(mid.skip(1) =~= lit_pairs(t.skip(1)));
        assert((out + seq![cat]).push(mid[0]) =~= out + seq![cat, lit(t[0])]);
        assert(shunt(mid, out + seq![cat], seq![cat]) == shunt(
            lit_pairs(t.skip(1)),
            out + seq![cat, lit(t[0])],
            seq![cat],
        ));
        lemma_shunt_pairs(t.skip(1), out + seq![cat, lit(t[0])]);
        assert(out + seq![cat, lit(t[0])] + lit_pairs(t.skip(1)) + seq![cat] =~= out + lit_pairs(t)
            + seq![cat]);
    }
}

/// The law of literal-only patterns. A pattern whose characters all lack a
/// syntactic role tokenizes to its literals, in order, with a
/// `Concatenation` inserted between every adjacent pair; the parser then
/// keeps the literals in that order and moves each inserted `Concatenation`
/// after its operands.
pub proof fn lemma_plain_literal_pipeline(s: Seq<char>)
    requires
        all_plain(s),
    ensures
        spec_tokenize(s) == infix_literals(s),
        spec_to_postfix(infix_literals(s)) == postfix_literals(s),
{
    let cat = SpecToken::Concatenation;
    lemma_scan_plain(s);
    lemma_insert_concat_literals(s);
    let inf = infix_literals(s);
    if s.len() == 0 {
        assert(drain_all(Seq::<SpecToken>::empty()) =~= Seq::<SpecToken>::empty());
        assert(spec_to_postfix(inf) =~= postfix_literals(s));
    } else if s.len() == 1 {
        assert(inf == seq![lit(s[0])]);
        assert(inf[0] == lit(s[0]));
        assert(inf.skip(1) =~= Seq::<SpecToken>::empty());
        assert(Seq::<SpecToken>::empty().push(inf[0]) =~= seq![lit(s[0])]);
        assert(drain_all(Seq::<SpecToken>::empty()) =~= Seq::<SpecToken>::empty());
        assert(shunt(Seq::<SpecToken>::empty(), seq![lit(s[0])], Seq::<SpecToken>::empty())
            == seq![lit(s[0])] + drain_all(Seq::<SpecToken>::empty()));
        assert(spec_to_postfix(inf) == shunt(
            Seq::<SpecToken>::empty(),
            seq![lit(s[0])],
            Seq::<SpecToken>::empty(),
        ));
        assert(seq![lit(s[0])] + Seq::<SpecToken>::empty() =~= postfix_literals(s));
        assert(spec_to_postfix(inf) == postfix_literals(s));
    } else {
        lemma_infix_as_pairs(s);
        assert(s.skip(1).len() >= 1);
        // first literal: straight to the output
        assert(inf[0] == lit(s[0]));
        assert(inf.skip(1) =~= lit_pairs(s.skip(1)));
        assert(Seq::<SpecToken>::empty().push(inf[0]) =~= seq![lit(s[0])]);
        assert(spec_to_postfix(inf) == shunt(
            lit_pairs(s.skip(1)),
            seq![lit(s[0])],
            Seq::<SpecToken>::empty(),
        ));
        // first pair: its concatenation lands on the empty stack, its
        // literal goes to the output
        let tail = lit_pairs(s.skip(1));
        assert(s.skip(1)[0] == s[1]);
        assert(s.skip(1).skip(1) =~= s.skip(2));
        assert(tail == seq![cat, lit(s[1])] + lit_pairs(s.skip(2)));
        assert(tail[0] == cat);
        assert(pop_binops(Seq::<SpecToken>::empty()) == (
            Seq::<SpecToken>::empty(),
            Seq::<SpecToken>::empty(),
        ));
        assert(seq![lit(s[0])] + Seq::<SpecToken>::empty() =~= seq![lit(s[0])]);
        assert(Seq::<SpecToken>::empty().push(cat) =~= seq![cat]);
        let mid = tail.skip(1);
        assert(mid =~= seq![lit(s[1])] + lit_pairs(s.skip(2)));
        assert(shunt(tail, seq![lit(s[0])], Seq::<SpecToken>::empty()) == shunt(
            mid,
            seq![lit(s[0])],
            seq![cat],
        ));
        assert(mid[0] == lit(s[1]));
        assert(mid.skip(1) =~= lit_pairs(s.skip(2)));
        assert(seq![lit(s[0])].push(mid[0]) =~= seq![lit(s[0]), lit(s[1])]);
        assert(shunt(mid, seq![lit(s[0])], seq![cat]) == shunt(
            lit_pairs(s.skip(2)),
            seq![lit(s[0]), lit(s[1])],
            seq![cat],
        ));
        lemma_shunt_pairs(s.skip(2), seq![lit(s[0]), lit(s[1])]);
        lemma_postfix_split(s);
        assert(seq![lit(s[0]), lit(s[1])] + lit_pairs(s.skip(2)) + seq![cat] =~= postfix_literals(
            s,
        ));
        assert(spec_to_postfix(inf) == postfix_literals(s));
    }
}

} // verus!
