//! How the expression of a text follows from those of its parts: texts in
//! parentheses, between white space, as an index, after a prefix operator, and
//! joined by an operator.

use crate::expr::Expr;
use crate::grammar;
use crate::text;
use crate::token;
use crate::token::{Lexeme, Tok};
use crate::wording;
use vstd::prelude::*;

verus! {

/// Whether every token ends before `c`: it goes on with no number, no word and
/// no operator.
pub open spec fn ends_tokens(c: char) -> bool {
    !text::continues_word(c) && c != '=' && c != '&' && c != '|'
}

/// The tokens of two texts one after the other, or the first fault.
pub open spec fn joined(
    a: Result<Seq<Lexeme>, Seq<char>>,
    b: Result<Seq<Lexeme>, Seq<char>>,
) -> Result<Seq<Lexeme>, Seq<char>> {
    match (a, b) {
        (Ok(a), Ok(b)) => Ok(a + b),
        (Err(m), _) => Err(m),
        (_, Err(m)) => Err(m),
    }
}

/// A span of digits or of a word ends where the text goes on with something else.
proof fn lemma_spans_end(s: Seq<char>, rest: Seq<char>)
    requires
        rest.len() > 0 ==> ends_tokens(rest[0]),
    ensures
        token::digit_span(s + rest) == token::digit_span(s) <= s.len(),
        token::word_span(s + rest) == token::word_span(s) <= s.len(),
    decreases s.len(),
{
    let all = s + rest;
    if s.len() == 0 {
        assert(all =~= rest);
    } else {
        assert(all[0] == s[0]);
        assert(all.skip(1) =~= s.skip(1) + rest);
        lemma_spans_end(s.skip(1), rest);
    }
}

/// A token does not change where the text goes on with something else.
proof fn lemma_first_token_stays(s: Seq<char>, rest: Seq<char>, at: nat)
    requires
        s.len() > 0,
        rest.len() > 0 ==> ends_tokens(rest[0]),
    ensures
        token::first_token(s + rest, at) == token::first_token(s, at),
{
    let all = s + rest;
    lemma_spans_end(s, rest);
    let digits = token::digit_span(s) as int;
    let word = token::word_span(s) as int;
    assert(all.take(digits) =~= s.take(digits));
    assert(all.take(word) =~= s.take(word));
    assert(all[0] == s[0]);
    if s.len() > 1 {
        assert(all[1] == s[1]);
    } else if rest.len() > 0 {
        assert(all[1] == rest[0]);
    }
}

/// The tokens of a text are those of its parts, when it is put together where
/// every token ends.
pub proof fn tokens_of_joined_texts(s: Seq<char>, rest: Seq<char>, at: nat)
    requires
        rest.len() > 0 ==> ends_tokens(rest[0]),
    ensures
        token::tokens(s + rest, at) == joined(
            token::tokens(s, at),
            token::tokens(rest, at + s.len()),
        ),
    decreases s.len(),
{
    let all = s + rest;
    let after = token::tokens(rest, at + s.len());
    if s.len() == 0 {
        assert(all =~= rest);
        if let Ok(b) = after {
            assert(Seq::<Lexeme>::empty() + b =~= b);
        }
    } else {
        assert(all[0] == s[0]);
        if text::white_space(s[0]) {
            assert(all.skip(1) =~= s.skip(1) + rest);
            tokens_of_joined_texts(s.skip(1), rest, at + 1);
        } else {
            lemma_first_token_stays(s, rest, at);
            token::lemma_first_token(s, at);
            if let Ok((tok, n)) = token::first_token(s, at) {
                assert(all.skip(n as int) =~= s.skip(n as int) + rest);
                tokens_of_joined_texts(s.skip(n as int), rest, at + n);
                if let Ok(a) = token::tokens(s.skip(n as int), at + n) {
                    if let Ok(b) = after {
                        let one = seq![Lexeme { tok, at }];
                        assert(one + (a + b) =~= one + a + b);
                    }
                }
            }
        }
    }
}

/// Where a text starts matters for the places of its tokens alone.
pub proof fn lemma_tokens_elsewhere(s: Seq<char>, at: nat, bt: nat)
    ensures
        match (token::tokens(s, at), token::tokens(s, bt)) {
            (Ok(a), Ok(b)) => grammar::kinds(a) == grammar::kinds(b),
            (Err(_), Err(_)) => true,
            _ => false,
        },
    decreases s.len(),
{
    if s.len() > 0 {
        if text::white_space(s[0]) {
            lemma_tokens_elsewhere(s.skip(1), at + 1, bt + 1);
        } else {
            token::lemma_first_token(s, at);
            if let Ok((tok, n)) = token::first_token(s, at) {
                let rest = s.skip(n as int);
                assert(token::first_token(s, bt) == Ok::<(Tok, nat), Seq<char>>((tok, n)));
                lemma_tokens_elsewhere(rest, at + n, bt + n);
                if let Ok(a) = token::tokens(rest, at + n) {
                    if let Ok(b) = token::tokens(rest, bt + n) {
                        lemma_kinds_join(seq![Lexeme { tok, at }], a);
                        lemma_kinds_join(seq![Lexeme { tok, at: bt }], b);
                        assert(grammar::kinds(seq![Lexeme { tok, at }]) =~= grammar::kinds(
                            seq![Lexeme { tok, at: bt }],
                        ));
                    }
                }
            }
        }
    }
}

/// Tokens keep their kinds when they are put together.
pub proof fn lemma_kinds_join(a: Seq<Lexeme>, b: Seq<Lexeme>)
    ensures
        grammar::kinds(a + b) == grammar::kinds(a) + grammar::kinds(b),
{
    assert(grammar::kinds(a + b) =~= grammar::kinds(a) + grammar::kinds(b));
}

/// A text that parses has tokens, wherever it starts, and they derive its
/// expression.
pub proof fn lemma_parsed_tokens(s: Seq<char>, e: Expr, at: nat) -> (toks: Seq<Lexeme>)
    requires
        grammar::expression(s) == Ok::<Expr, Seq<char>>(e),
    ensures
        token::tokens(s, at) == Ok::<Seq<Lexeme>, Seq<char>>(toks),
        grammar::derives(0, e, grammar::kinds(toks)),
{
    grammar::parser_follows_the_grammar(s, e);
    lemma_tokens_elsewhere(s, 0, at);
    token::tokens(s, at)->Ok_0
}

/// No expression is written with no tokens.
pub proof fn lemma_tokens_found(e: Expr, toks: Seq<Lexeme>)
    requires
        grammar::derives(0, e, grammar::kinds(toks)),
    ensures
        toks.len() > 0,
{
    assert(grammar::kinds(toks).subrange(0, toks.len() as int) =~= grammar::kinds(toks));
    grammar::lemma_binary_complete(0, e, toks, 0, toks.len(), 0);
}

/// A bracket is a token whatever comes after it.
pub proof fn lemma_bracket(c: char, rest: Seq<char>, at: nat)
    requires
        c == '(' || c == ')' || c == '[' || c == ']',
    ensures
        token::tokens(seq![c] + rest, at) == joined(
            Ok(seq![Lexeme { tok: token::single_operator(c)->0, at }]),
            token::tokens(rest, at + 1),
        ),
{
    let all = seq![c] + rest;
    assert(all[0] == c);
    assert(all.skip(1) =~= rest);
}

/// White space at the start has no tokens.
pub proof fn lemma_leading_space(space: Seq<char>, rest: Seq<char>, at: nat)
    requires
        forall|i: int| 0 <= i < space.len() ==> text::white_space(#[trigger] space[i]),
    ensures
        token::tokens(space + rest, at) == token::tokens(rest, at + space.len()),
    decreases space.len(),
{
    let all = space + rest;
    if space.len() == 0 {
        assert(all =~= rest);
    } else {
        let more = space.skip(1);
        assert forall|i: int| 0 <= i < more.len() implies text::white_space(
            #[trigger] more[i],
        ) by {
            assert(more[i] == space[i + 1]);
        }
        assert(all[0] == space[0]);
        assert(all.skip(1) =~= more + rest);
        lemma_leading_space(more, rest, at + 1);
    }
}

/// Whether a token is a binary or a prefix operator.
pub open spec fn operator(tok: Tok) -> bool {
    tok is Bang || exists|tier: nat|
        tier < grammar::TIERS && #[trigger] grammar::operates(tier, tok)
}

/// An operator is one token.
pub proof fn lemma_operator_token(tok: Tok, at: nat)
    requires
        operator(tok),
    ensures
        token::tokens(wording::written_token(tok), at) == Ok::<Seq<Lexeme>, Seq<char>>(
            seq![Lexeme { tok, at }],
        ),
{
    let w = wording::written_token(tok);
    let n = w.len();
    let rest = w.skip(n as int);
    assert(rest.len() == 0);
    assert(token::tokens(rest, at + n) == Ok::<Seq<Lexeme>, Seq<char>>(Seq::empty()));
    assert(!text::white_space(w[0]));
    assert(token::first_token(w, at) == Ok::<(Tok, nat), Seq<char>>((tok, n)));
    assert(seq![Lexeme { tok, at }] + Seq::<Lexeme>::empty() =~= seq![Lexeme { tok, at }]);
}

/// A text of nothing but the characters of a word is one span.
pub proof fn lemma_word_span(word: Seq<char>)
    requires
        forall|i: int| 0 <= i < word.len() ==> text::continues_word(#[trigger] word[i]),
    ensures
        token::word_span(word) == word.len(),
    decreases word.len(),
{
    if word.len() > 0 {
        let rest = word.skip(1);
        assert forall|i: int| 0 <= i < rest.len() implies text::continues_word(
            #[trigger] rest[i],
        ) by {
            assert(rest[i] == word[i + 1]);
        }
        lemma_word_span(rest);
        assert(text::continues_word(word[0]));
    }
}

/// The name of an indexed variable is one token.
proof fn lemma_array_token(tok: Tok, at: nat)
    requires
        tok is Globals || tok is Memory,
    ensures
        token::tokens(wording::written_token(tok), at) == Ok::<Seq<Lexeme>, Seq<char>>(
            seq![Lexeme { tok, at }],
        ),
{
    let w = wording::written_token(tok);
    let n = w.len();
    wording::lemma_keywords();
    lemma_word_span(w);
    assert(w.take(n as int) =~= w);
    let rest = w.skip(n as int);
    assert(rest.len() == 0);
    assert(token::tokens(rest, at + n) == Ok::<Seq<Lexeme>, Seq<char>>(Seq::empty()));
    assert(token::first_token(w, at) == Ok::<(Tok, nat), Seq<char>>((tok, n)));
    assert(seq![Lexeme { tok, at }] + Seq::<Lexeme>::empty() =~= seq![Lexeme { tok, at }]);
}

/// A text between two brackets.
pub open spec fn bracketed(open: char, s: Seq<char>, close: char) -> Seq<char> {
    seq![open] + s + seq![close]
}

/// A text in parentheses.
pub open spec fn parenthesised(s: Seq<char>) -> Seq<char> {
    bracketed('(', s, ')')
}

/// The tokens of a text between brackets, whatever comes after it.
proof fn lemma_bracketed(
    open: char,
    s: Seq<char>,
    close: char,
    rest: Seq<char>,
    e: Expr,
    at: nat,
) -> (toks: Seq<Lexeme>)
    requires
        grammar::expression(s) == Ok::<Expr, Seq<char>>(e),
        open == '(' || open == '[',
        close == ')' || close == ']',
    ensures
        token::tokens(bracketed(open, s, close) + rest, at) == joined(
            Ok(toks),
            token::tokens(rest, at + s.len() + 2),
        ),
        toks.len() > 2,
        toks[0] == (Lexeme { tok: token::single_operator(open)->0, at }),
        toks.last().tok == token::single_operator(close)->0,
        grammar::derives(0, e, grammar::kinds(toks).subrange(1, toks.len() - 1)),
{
    let inner = lemma_parsed_tokens(s, e, at + 1);
    let end = seq![close] + rest;
    assert(bracketed(open, s, close) + rest =~= seq![open] + (s + end));
    lemma_bracket(open, s + end, at);
    assert(end[0] == close);
    tokens_of_joined_texts(s, end, at + 1);
    lemma_bracket(close, rest, at + 1 + s.len());
    let first = seq![Lexeme { tok: token::single_operator(open)->0, at }];
    let last = seq![Lexeme { tok: token::single_operator(close)->0, at: at + 1 + s.len() }];
    let toks = first + inner + last;
    if let Ok(more) = token::tokens(rest, at + s.len() + 2) {
        assert(first + (inner + (last + more)) =~= toks + more);
    }
    let kinds = grammar::kinds(toks);
    assert(kinds.subrange(1, kinds.len() - 1) =~= grammar::kinds(inner));
    lemma_tokens_found(e, inner);
    toks
}

/// The tokens of a text in parentheses, whatever comes after it, derive its
/// expression as an operand of every tier.
pub proof fn lemma_parenthesised(s: Seq<char>, rest: Seq<char>, e: Expr, at: nat) -> (toks: Seq<
    Lexeme,
>)
    requires
        grammar::expression(s) == Ok::<Expr, Seq<char>>(e),
    ensures
        token::tokens(parenthesised(s) + rest, at) == joined(
            Ok(toks),
            token::tokens(rest, at + s.len() + 2),
        ),
        toks.len() > 2,
        toks[0] == (Lexeme { tok: Tok::LParen, at }),
        forall|tier: nat|
            tier <= grammar::TIERS ==> #[trigger] grammar::derives(tier, e, grammar::kinds(toks)),
{
    let toks = lemma_bracketed('(', s, ')', rest, e, at);
    let kinds = grammar::kinds(toks);
    assert(kinds[0] == Tok::LParen && kinds.last() == Tok::RParen);
    assert(grammar::derives_primary(e, kinds));
    assert(grammar::derives_prefixed(e, kinds));
    assert(grammar::derives(grammar::TIERS as nat, e, kinds));
    assert forall|tier: nat| tier <= grammar::TIERS implies #[trigger] grammar::derives(
        tier,
        e,
        kinds,
    ) by {
        grammar::lemma_looser(tier, grammar::TIERS as nat, e, kinds);
    }
    toks
}

/// The end of a text has no tokens.
pub proof fn lemma_nothing_after(s: Seq<char>, toks: Seq<Lexeme>, at: nat)
    ensures
        s + Seq::<char>::empty() == s,
        joined(Ok(toks), token::tokens(Seq::empty(), at)) == Ok::<Seq<Lexeme>, Seq<char>>(toks),
{
    assert(s + Seq::<char>::empty() =~= s);
    assert(toks + Seq::<Lexeme>::empty() =~= toks);
}

/// A text in parentheses parses to the expression of the text.
pub proof fn parentheses_keep_the_expression(s: Seq<char>, e: Expr)
    requires
        grammar::expression(s) == Ok::<Expr, Seq<char>>(e),
    ensures
        grammar::expression(parenthesised(s)) == Ok::<Expr, Seq<char>>(e),
{
    let text = parenthesised(s);
    let toks = lemma_parenthesised(s, Seq::empty(), e, 0);
    lemma_nothing_after(text, toks, s.len() + 2);
    assert(grammar::derives(0, e, grammar::kinds(toks)));
    grammar::parser_follows_the_grammar(text, e);
}

/// A text parses as it does without the white space around it. (The first
/// character after it must not go on with a word, which no ASCII white space
/// does.)
pub proof fn white_space_around_does_not_matter(
    before: Seq<char>,
    s: Seq<char>,
    after: Seq<char>,
    e: Expr,
)
    requires
        forall|i: int| 0 <= i < before.len() ==> text::white_space(#[trigger] before[i]),
        forall|i: int| 0 <= i < after.len() ==> text::white_space(#[trigger] after[i]),
        after.len() > 0 ==> !text::continues_word(after[0]),
    ensures
        grammar::expression(before + s + after) == Ok::<Expr, Seq<char>>(e)
            <==> grammar::expression(s) == Ok::<Expr, Seq<char>>(e),
{
    let all = before + s + after;
    let n = before.len();
    assert(all =~= before + (s + after));
    lemma_leading_space(before, s + after, 0);
    if after.len() > 0 {
        assert(text::white_space(after[0]));
    }
    tokens_of_joined_texts(s, after, n);
    lemma_leading_space(after, Seq::empty(), n + s.len());
    assert(after + Seq::<char>::empty() =~= after);
    lemma_tokens_elsewhere(s, 0, n);
    if let Ok(toks) = token::tokens(s, n) {
        assert(toks + Seq::<Lexeme>::empty() =~= toks);
    }
    grammar::parser_follows_the_grammar(all, e);
    grammar::parser_follows_the_grammar(s, e);
}

/// An operator between two operands.
pub open spec fn infix(a: Seq<char>, op: Tok, b: Seq<char>) -> Seq<char> {
    a + seq![' '] + wording::written_token(op) + seq![' '] + b
}

/// The tokens of an operator and a text in parentheses after it, with a space
/// before each of the two.
proof fn lemma_right_operand(op: Tok, t: Seq<char>, f: Expr, at: nat) -> (toks: Seq<Lexeme>)
    requires
        operator(op),
        grammar::expression(t) == Ok::<Expr, Seq<char>>(f),
    ensures
        token::tokens(infix(Seq::empty(), op, parenthesised(t)), at) == Ok::<
            Seq<Lexeme>,
            Seq<char>,
        >(toks),
        toks.len() > 1,
        toks[0].tok == op,
        forall|tier: nat|
            tier <= grammar::TIERS ==> #[trigger] grammar::derives(
                tier,
                f,
                grammar::kinds(toks).skip(1),
            ),
{
    let w = wording::written_token(op);
    let right = parenthesised(t);
    let space = seq![' '];
    let all = infix(Seq::empty(), op, right);
    let n = at + 1 + w.len();
    assert(all =~= space + (w + (space + right)));
    lemma_leading_space(space, w + (space + right), at);
    lemma_operator_token(op, at + 1);
    assert((space + right)[0] == ' ');
    tokens_of_joined_texts(w, space + right, at + 1);
    lemma_leading_space(space, right, n);
    let operand = lemma_parenthesised(t, Seq::empty(), f, n + 1);
    lemma_nothing_after(right, operand, n + 1 + t.len() + 2);
    let one = Lexeme { tok: op, at: at + 1 };
    let toks = seq![one] + operand;
    assert(grammar::kinds(toks).skip(1) =~= grammar::kinds(operand));
    toks
}

/// Two texts in parentheses with a binary operator between them parse to the
/// expression that the operator makes of theirs.
pub proof fn operators_join_parenthesised_texts(
    s: Seq<char>,
    tier: nat,
    op: Tok,
    t: Seq<char>,
    e: Expr,
    f: Expr,
)
    requires
        tier < grammar::TIERS,
        grammar::operates(tier, op),
        grammar::expression(s) == Ok::<Expr, Seq<char>>(e),
        grammar::expression(t) == Ok::<Expr, Seq<char>>(f),
    ensures
        grammar::expression(infix(parenthesised(s), op, parenthesised(t))) == Ok::<
            Expr,
            Seq<char>,
        >(grammar::combined(op, e, f)),
{
    let rest = infix(Seq::empty(), op, parenthesised(t));
    let all = infix(parenthesised(s), op, parenthesised(t));
    assert(all =~= parenthesised(s) + rest);
    let left = lemma_parenthesised(s, rest, e, 0);
    let right = lemma_right_operand(op, t, f, s.len() + 2);
    lemma_kinds_join(left, right);
    assert(grammar::derives(tier, e, grammar::kinds(left)));
    lemma_joined_derive(tier, op, e, f, grammar::kinds(left), grammar::kinds(right));
    grammar::parser_follows_the_grammar(all, grammar::combined(op, e, f));
}

/// An operand, an operator of its tier and an operand of the next tier derive
/// what the operator makes of them.
proof fn lemma_joined_derive(
    tier: nat,
    op: Tok,
    e: Expr,
    f: Expr,
    left: Seq<Tok>,
    right: Seq<Tok>,
)
    requires
        tier < grammar::TIERS,
        grammar::operates(tier, op),
        left.len() > 0,
        right.len() > 1,
        right[0] == op,
        grammar::derives(tier, e, left),
        grammar::derives(tier + 1, f, right.skip(1)),
    ensures
        grammar::derives(0, grammar::combined(op, e, f), left + right),
{
    let s = left + right;
    let k = left.len() as int;
    assert(s.take(k) =~= left);
    assert(s.skip(k + 1) =~= right.skip(1));
    assert(s[k] == op);
    assert(grammar::combined(s[k], e, f) == grammar::combined(op, e, f));
    assert(grammar::derives(tier, grammar::combined(op, e, f), s));
    grammar::lemma_looser(0, tier, grammar::combined(op, e, f), s);
}

/// `||` binds loosest: it takes the whole text before it as its operand, in
/// parentheses or not.
pub proof fn or_takes_the_whole_text_before_it(s: Seq<char>, t: Seq<char>, e: Expr, f: Expr)
    requires
        grammar::expression(s) == Ok::<Expr, Seq<char>>(e),
        grammar::expression(t) == Ok::<Expr, Seq<char>>(f),
    ensures
        grammar::expression(infix(s, Tok::OrOr, parenthesised(t))) == Ok::<Expr, Seq<char>>(
            Expr::Or(Box::new(e), Box::new(f)),
        ),
{
    let rest = infix(Seq::empty(), Tok::OrOr, parenthesised(t));
    let all = infix(s, Tok::OrOr, parenthesised(t));
    assert(all =~= s + rest);
    assert(rest[0] == ' ');
    tokens_of_joined_texts(s, rest, 0);
    let left = lemma_parsed_tokens(s, e, 0);
    assert(grammar::operates(0, Tok::OrOr));
    let right = lemma_right_operand(Tok::OrOr, t, f, s.len());
    lemma_kinds_join(left, right);
    lemma_tokens_found(e, left);
    lemma_joined_derive(0, Tok::OrOr, e, f, grammar::kinds(left), grammar::kinds(right));
    grammar::parser_follows_the_grammar(all, Expr::Or(Box::new(e), Box::new(f)));
}

/// A text in square brackets after `globals` or `memory` parses to the cell that
/// its expression is the index of.
pub proof fn texts_index_globals_and_memory(s: Seq<char>, e: Expr)
    requires
        grammar::expression(s) == Ok::<Expr, Seq<char>>(e),
    ensures
        grammar::expression("globals"@ + bracketed('[', s, ']')) == Ok::<Expr, Seq<char>>(
            Expr::Global(Box::new(e)),
        ),
        grammar::expression("memory"@ + bracketed('[', s, ']')) == Ok::<Expr, Seq<char>>(
            Expr::Memory(Box::new(e)),
        ),
{
    wording::lemma_names();
    lemma_indexed(Tok::Globals, s, e, Expr::Global(Box::new(e)));
    lemma_indexed(Tok::Memory, s, e, Expr::Memory(Box::new(e)));
}

/// A text in square brackets after the name of an indexed variable parses to the
/// cell.
proof fn lemma_indexed(array: Tok, s: Seq<char>, e: Expr, cell: Expr)
    requires
        grammar::expression(s) == Ok::<Expr, Seq<char>>(e),
        ({
            ||| array is Globals && cell == Expr::Global(Box::new(e))
            ||| array is Memory && cell == Expr::Memory(Box::new(e))
        }),
    ensures
        grammar::expression(wording::written_token(array) + bracketed('[', s, ']')) == Ok::<
            Expr,
            Seq<char>,
        >(cell),
{
    let name = wording::written_token(array);
    let rest = bracketed('[', s, ']');
    let all = name + rest;
    assert(rest[0] == '[');
    tokens_of_joined_texts(name, rest, 0);
    lemma_array_token(array, 0);
    let index = lemma_bracketed('[', s, ']', Seq::empty(), e, name.len());
    lemma_nothing_after(rest, index, name.len() + s.len() + 2);
    let toks = seq![Lexeme { tok: array, at: 0 }] + index;
    let kinds = grammar::kinds(toks);
    assert(kinds[0] == array && kinds[1] == Tok::LBracket && kinds.last() == Tok::RBracket);
    assert(kinds.subrange(2, kinds.len() - 1) =~= grammar::kinds(index).subrange(
        1,
        index.len() - 1,
    ));
    assert(grammar::derives_primary(cell, kinds));
    assert(grammar::derives_prefixed(cell, kinds));
    assert(grammar::derives(grammar::TIERS as nat, cell, kinds));
    grammar::lemma_looser(0, grammar::TIERS as nat, cell, kinds);
    grammar::parser_follows_the_grammar(all, cell);
}

/// A prefix operator before a text in parentheses takes the whole of it.
pub proof fn prefix_operators_take_parenthesised_texts(s: Seq<char>, e: Expr)
    requires
        grammar::expression(s) == Ok::<Expr, Seq<char>>(e),
    ensures
        grammar::expression(seq!['-'] + parenthesised(s)) == Ok::<Expr, Seq<char>>(
            Expr::Neg(Box::new(e)),
        ),
        grammar::expression(seq!['!'] + parenthesised(s)) == Ok::<Expr, Seq<char>>(
            Expr::Not(Box::new(e)),
        ),
{
    assert(grammar::operates(3, Tok::Minus));
    lemma_prefixed(Tok::Minus, s, e, Expr::Neg(Box::new(e)));
    lemma_prefixed(Tok::Bang, s, e, Expr::Not(Box::new(e)));
}

/// A prefix operator before a text in parentheses takes the whole of it.
proof fn lemma_prefixed(op: Tok, s: Seq<char>, e: Expr, all: Expr)
    requires
        grammar::expression(s) == Ok::<Expr, Seq<char>>(e),
        operator(op),
        ({
            ||| op is Minus && all == Expr::Neg(Box::new(e))
            ||| op is Bang && all == Expr::Not(Box::new(e))
        }),
    ensures
        grammar::expression(wording::written_token(op) + parenthesised(s)) == Ok::<
            Expr,
            Seq<char>,
        >(all),
{
    let sign = wording::written_token(op);
    let rest = parenthesised(s);
    assert(rest[0] == '(');
    tokens_of_joined_texts(sign, rest, 0);
    lemma_operator_token(op, 0);
    let operand = lemma_parenthesised(s, Seq::empty(), e, 1);
    lemma_nothing_after(rest, operand, 1 + s.len() + 2);
    let toks = seq![Lexeme { tok: op, at: 0 }] + operand;
    let kinds = grammar::kinds(toks);
    assert(kinds.skip(1) =~= grammar::kinds(operand));
    assert(grammar::derives(grammar::TIERS as nat, e, grammar::kinds(operand)));
    assert(kinds[0] == op);
    assert(grammar::derives_prefixed(all, kinds));
    assert(grammar::derives(grammar::TIERS as nat, all, kinds));
    grammar::lemma_looser(0, grammar::TIERS as nat, all, kinds);
    grammar::parser_follows_the_grammar(sign + rest, all);
}

/// Two texts in parentheses with nothing but a space between them are no
/// expression: the second is input that the first leaves over.
pub proof fn texts_need_an_operator_between_them(s: Seq<char>, t: Seq<char>, e: Expr, f: Expr)
    requires
        grammar::expression(s) == Ok::<Expr, Seq<char>>(e),
        grammar::expression(t) == Ok::<Expr, Seq<char>>(f),
    ensures
        grammar::expression(parenthesised(s) + seq![' '] + parenthesised(t)) == Err::<
            Expr,
            Seq<char>,
        >("unexpected trailing input `"@ + "LParen"@ + "`"@ + token::place(s.len() + 3)),
{
    let all = parenthesised(s) + seq![' '] + parenthesised(t);
    let rest = seq![' '] + parenthesised(t);
    let n = s.len() + 2;
    assert(all =~= parenthesised(s) + rest);
    let left = lemma_parenthesised(s, rest, e, 0);
    lemma_leading_space(seq![' '], parenthesised(t), n);
    let right = lemma_parenthesised(t, Seq::empty(), f, n + 1);
    lemma_nothing_after(parenthesised(t), right, n + 1 + t.len() + 2);
    let toks = left + right;
    let j = left.len();
    assert(grammar::kinds(toks).subrange(0, j as int) =~= grammar::kinds(left));
    assert(grammar::derives(0, e, grammar::kinds(left)));
    assert(toks[j as int] == right[0]);
    grammar::lemma_binary_complete(0, e, toks, 0, j, all.len());
    assert(!grammar::operates(0, Tok::LParen));
}

} // verus!
