//! The smallest expressions, and what is said of texts that are none: the message
//! ends in the number of characters before the fault.

use crate::composition;
use crate::expr::Expr;
use crate::grammar;
use crate::precedence;
use crate::scanning;
use crate::text;
use crate::token;
use crate::token::{Lexeme, Tok};
use crate::wording;
use vstd::prelude::*;

verus! {

/// How a message names a place.
pub open spec fn offset(n: nat) -> Seq<char> {
    " at offset "@ + text::decimal(n)
}

/// A text of nothing but digits is one span.
proof fn lemma_digit_span(s: Seq<char>)
    requires
        forall|i: int| 0 <= i < s.len() ==> text::is_digit(#[trigger] s[i]),
    ensures
        token::digit_span(s) == s.len(),
    decreases s.len(),
{
    if s.len() > 0 {
        let rest = s.skip(1);
        assert forall|i: int| 0 <= i < rest.len() implies text::is_digit(#[trigger] rest[i]) by {
            assert(rest[i] == s[i + 1]);
        }
        lemma_digit_span(rest);
        assert(text::is_digit(s[0]));
    }
}

/// A text of one token has that token.
proof fn lemma_one_token(s: Seq<char>, tok: Tok)
    requires
        s.len() > 0,
        !text::white_space(s[0]),
        token::first_token(s, 0) == Ok::<(Tok, nat), Seq<char>>((tok, s.len())),
    ensures
        token::tokens(s, 0) == Ok::<Seq<Lexeme>, Seq<char>>(seq![Lexeme { tok, at: 0 }]),
{
    let rest = s.skip(s.len() as int);
    assert(rest.len() == 0);
    assert(token::tokens(rest, s.len()) == Ok::<Seq<Lexeme>, Seq<char>>(Seq::empty()));
    assert(seq![Lexeme { tok, at: 0 }] + Seq::<Lexeme>::empty() =~= seq![Lexeme { tok, at: 0 }]);
}

/// What one token derives as a primary is the expression of its text.
proof fn lemma_one_token_parses(s: Seq<char>, tok: Tok, e: Expr)
    requires
        token::tokens(s, 0) == Ok::<Seq<Lexeme>, Seq<char>>(seq![Lexeme { tok, at: 0 }]),
        grammar::derives_primary(e, seq![tok]),
        !(tok is Minus || tok is Bang),
    ensures
        grammar::expression(s) == Ok::<Expr, Seq<char>>(e),
{
    let toks = seq![Lexeme { tok, at: 0 }];
    let kinds = grammar::kinds(toks);
    assert(kinds =~= seq![tok]);
    assert(grammar::derives_prefixed(e, kinds));
    assert(grammar::derives(grammar::TIERS as nat, e, kinds));
    grammar::lemma_looser(0, grammar::TIERS as nat, e, kinds);
    grammar::parser_follows_the_grammar(s, e);
}

/// Digits are a constant, the number that they write; one that does not fit in 64
/// bits is a fault.
pub proof fn digits_are_constants(s: Seq<char>)
    requires
        scanning::figures(s),
    ensures
        match text::parsed_signed(s) {
            Some(v) => grammar::expression(s) == Ok::<Expr, Seq<char>>(Expr::Const(v)),
            None => grammar::expression(s) == Err::<Expr, Seq<char>>(
                "integer literal `"@ + s + "` is out of range"@ + offset(0),
            ),
        },
{
    assert forall|i: int| 0 <= i < s.len() implies text::is_digit(#[trigger] s[i]) by {
        scanning::lemma_figure(s[i]);
        assert(scanning::figure(s[i]));
    }
    lemma_digit_span(s);
    assert(s.take(s.len() as int) =~= s);
    assert(text::is_digit(s[0]));
    if let Some(v) = text::parsed_signed(s) {
        lemma_one_token(s, Tok::Int(v));
        lemma_one_token_parses(s, Tok::Int(v), Expr::Const(v));
    }
}

/// The three variables without an index are read by their names.
pub proof fn variables_have_their_names()
    ensures
        grammar::expression("pc"@) == Ok::<Expr, Seq<char>>(Expr::Pc),
        grammar::expression("depth"@) == Ok::<Expr, Seq<char>>(Expr::Depth),
        grammar::expression("top"@) == Ok::<Expr, Seq<char>>(Expr::Top),
{
    wording::lemma_names();
    lemma_variable(Tok::Pc, Expr::Pc);
    lemma_variable(Tok::Depth, Expr::Depth);
    lemma_variable(Tok::Top, Expr::Top);
}

/// The name of a variable parses to it.
proof fn lemma_variable(tok: Tok, e: Expr)
    requires
        tok is Pc && e is Pc || tok is Depth && e is Depth || tok is Top && e is Top,
    ensures
        grammar::expression(wording::written_token(tok)) == Ok::<Expr, Seq<char>>(e),
{
    let w = wording::written_token(tok);
    wording::lemma_keywords();
    composition::lemma_word_span(w);
    assert(w.take(w.len() as int) =~= w);
    lemma_one_token(w, tok);
    lemma_one_token_parses(w, tok, e);
}

/// A word that is no variable is a fault, at its place.
pub proof fn other_words_are_faults(s: Seq<char>, e: Expr, w: Seq<char>)
    requires
        grammar::expression(s) == Ok::<Expr, Seq<char>>(e),
        w.len() > 0,
        text::starts_word(w[0]),
        !text::white_space(w[0]),
        forall|i: int| 0 <= i < w.len() ==> text::continues_word(#[trigger] w[i]),
        w != "pc"@ && w != "depth"@ && w != "top"@ && w != "globals"@ && w != "memory"@,
    ensures
        grammar::expression(w) == Err::<Expr, Seq<char>>(
            "unknown variable `"@ + w + "` (available: pc, depth, top, globals[e], memory[e])"@
                + offset(0),
        ),
        grammar::expression(s + seq![' '] + w) == Err::<Expr, Seq<char>>(
            "unknown variable `"@ + w + "` (available: pc, depth, top, globals[e], memory[e])"@
                + offset(s.len() + 1),
        ),
{
    composition::lemma_word_span(w);
    assert(w.take(w.len() as int) =~= w);
    assert(!text::is_digit(w[0]));
    lemma_after_space(s, e, w);
}

/// A text that starts with a faulty token has its fault, and so has it after an
/// expression and a space.
proof fn lemma_after_space(s: Seq<char>, e: Expr, bad: Seq<char>)
    requires
        grammar::expression(s) == Ok::<Expr, Seq<char>>(e),
        bad.len() > 0,
        !text::white_space(bad[0]),
    ensures
        token::first_token(bad, 0) matches Err(m) ==> grammar::expression(bad) == Err::<
            Expr,
            Seq<char>,
        >(m),
        token::first_token(bad, s.len() + 1) matches Err(m) ==> grammar::expression(
            s + seq![' '] + bad,
        ) == Err::<Expr, Seq<char>>(m),
{
    let toks = composition::lemma_parsed_tokens(s, e, 0);
    let rest = seq![' '] + bad;
    assert(s + seq![' '] + bad =~= s + rest);
    assert(rest[0] == ' ');
    composition::tokens_of_joined_texts(s, rest, 0);
    composition::lemma_leading_space(seq![' '], bad, s.len());
}

/// Whether no token starts with a character.
pub open spec fn starts_no_token(c: char) -> bool {
    &&& !text::white_space(c)
    &&& !scanning::figure(c)
    &&& !text::starts_word(c)
    &&& c != '+' && c != '-' && c != '*' && c != '/' && c != '%'
    &&& c != '<' && c != '>' && c != '!'
    &&& c != '(' && c != ')' && c != '[' && c != ']'
    &&& c != '=' && c != '&' && c != '|'
}

/// A character that starts no token is a fault, at its place. So is one of `=`,
/// `&` and `|` that is not doubled.
pub proof fn other_characters_are_faults(s: Seq<char>, e: Expr, c: char, rest: Seq<char>)
    requires
        grammar::expression(s) == Ok::<Expr, Seq<char>>(e),
        starts_no_token(c) || (c == '=' || c == '&' || c == '|') && (rest.len() == 0 || rest[0]
            != c),
    ensures
        grammar::expression(seq![c] + rest) == Err::<Expr, Seq<char>>(
            "unexpected character `"@ + seq![c] + "`"@ + offset(0),
        ),
        grammar::expression(s + seq![' '] + (seq![c] + rest)) == Err::<Expr, Seq<char>>(
            "unexpected character `"@ + seq![c] + "`"@ + offset(s.len() + 1),
        ),
{
    let bad = seq![c] + rest;
    assert(bad[0] == c);
    scanning::lemma_figure(c);
    if rest.len() > 0 {
        assert(bad[1] == rest[0]);
    }
    lemma_after_space(s, e, bad);
}

/// Where the tokens end, no operand is found at any tier.
proof fn lemma_no_operand(tier: nat, toks: Seq<Lexeme>, end: nat)
    ensures
        grammar::binary(tier, toks, toks.len(), end) == Err::<(Expr, nat), Seq<char>>(
            "unexpected end of expression"@ + offset(end),
        ),
    decreases grammar::tiers_left(tier),
{
    let n = toks.len();
    if tier < grammar::TIERS {
        lemma_no_operand(tier + 1, toks, end);
    } else {
        assert(grammar::primary(toks, n, end) == Err::<(Expr, nat), Seq<char>>(
            "unexpected end of expression"@ + offset(end),
        ));
        assert(grammar::unary(toks, n, end) == grammar::primary(toks, n, end));
        assert(grammar::binary(tier, toks, n, end) == grammar::unary(toks, n, end));
    }
}

/// A fault at a tier is one at every looser tier.
proof fn lemma_fault_at_looser_tiers(low: nat, high: nat, toks: Seq<Lexeme>, i: nat, end: nat)
    requires
        low <= high <= grammar::TIERS,
        grammar::binary(high, toks, i, end) is Err,
    ensures
        grammar::binary(low, toks, i, end) == grammar::binary(high, toks, i, end),
    decreases high - low,
{
    if low < high {
        lemma_fault_at_looser_tiers(low + 1, high, toks, i, end);
    }
}

/// An operator without its right operand is a fault, at the end of the text.
pub proof fn operators_need_a_right_operand(s: Seq<char>, e: Expr, op: Tok)
    requires
        grammar::expression(s) == Ok::<Expr, Seq<char>>(e),
        precedence::strength(op) is Some,
    ensures
        ({
            let all = composition::parenthesised(s) + seq![' '] + wording::written_token(op);
            grammar::expression(all) == Err::<Expr, Seq<char>>(
                "unexpected end of expression"@ + offset(all.len()),
            )
        }),
{
    let x = precedence::strength(op)->0;
    let w = wording::written_token(op);
    let rest = seq![' '] + w;
    let all = composition::parenthesised(s) + seq![' '] + w;
    assert(all =~= composition::parenthesised(s) + rest);
    precedence::lemma_strength(op, e, e);
    let a = composition::lemma_parenthesised(s, rest, e, 0);
    composition::lemma_leading_space(seq![' '], w, s.len() + 2);
    composition::lemma_operator_token(op, s.len() + 3);
    let last = Lexeme { tok: op, at: s.len() + 3 };
    let toks = a + seq![last];
    let j = a.len();
    assert(token::tokens(all, 0) == Ok::<Seq<Lexeme>, Seq<char>>(toks));
    assert(grammar::kinds(toks).subrange(0, j as int) =~= grammar::kinds(a));
    assert(grammar::derives(x, e, grammar::kinds(a)));
    assert(toks[j as int] == last);
    assert(grammar::loose(x, toks, j));
    grammar::lemma_binary_complete(x, e, toks, 0, j, all.len());
    lemma_no_operand(x + 1, toks, all.len());
    assert(grammar::more(x, e, toks, j, all.len()) is Err);
    lemma_fault_at_looser_tiers(0, x, toks, 0, all.len());
}

/// A parenthesis that is not closed is a fault, at the end of the text.
pub proof fn parentheses_need_to_be_closed(s: Seq<char>, e: Expr)
    requires
        grammar::expression(s) == Ok::<Expr, Seq<char>>(e),
    ensures
        grammar::expression(seq!['('] + s) == Err::<Expr, Seq<char>>(
            "expected "@ + "`)`"@ + ", found end of expression"@ + offset(s.len() + 1),
        ),
{
    let all = seq!['('] + s;
    let inner = composition::lemma_parsed_tokens(s, e, 1);
    composition::lemma_bracket('(', s, 0);
    let toks = seq![Lexeme { tok: Tok::LParen, at: 0 }] + inner;
    let n = toks.len();
    let end = all.len();
    assert(token::tokens(all, 0) == Ok::<Seq<Lexeme>, Seq<char>>(toks));
    assert(grammar::kinds(toks).subrange(1, n as int) =~= grammar::kinds(inner));
    grammar::lemma_binary_complete(0, e, toks, 1, n, end);
    assert(grammar::binary(0, toks, 1, end) == Ok::<(Expr, nat), Seq<char>>((e, n)));
    assert(grammar::enclosed(toks, 1, end, Tok::RParen, "`)`"@) is Err);
    assert(toks[0].tok is LParen);
    assert(grammar::primary(toks, 0, end) is Err);
    assert(grammar::unary(toks, 0, end) == grammar::primary(toks, 0, end));
    assert(grammar::binary(grammar::TIERS as nat, toks, 0, end) == grammar::unary(toks, 0, end));
    lemma_fault_at_looser_tiers(0, grammar::TIERS as nat, toks, 0, end);
}

/// No text of nothing but white space is an expression.
pub proof fn blank_texts_are_faults(s: Seq<char>)
    requires
        scanning::blank(s),
    ensures
        grammar::expression(s) == Err::<Expr, Seq<char>>("empty expression"@ + offset(s.len())),
{
    let none = Seq::<char>::empty();
    composition::lemma_leading_space(s, none, 0);
    assert(s + none =~= s);
}

} // verus!
