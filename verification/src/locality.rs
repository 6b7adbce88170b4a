//! A parse depends only on the tokens it consumes and on the one behind them.
//!
//! The same tokens at another place of another sequence parse to the same
//! tree, if the token that follows them ends the expression there as it does
//! here. One consequence: an expression in parentheses has the tree of
//! the expression alone.

use vstd::prelude::*;
use crate::parser::{
    closed_by,
    parse_expr,
    parse_infix,
    parse_postfix,
    parse_primary,
    parse_rest,
    tokens_left,
    Outcome,
};
use crate::power::{infix_power, postfix_power, prefix_power};
use crate::token::{token_at, Token};
use crate::tree::Tree;

verus! {

/// From `from` up to `to`, the tokens of `a` are those of `b` that stand
/// `shift` places further on.
pub open spec fn same_tokens(a: Seq<Token>, b: Seq<Token>, shift: nat, from: nat, to: nat) -> bool {
    forall|p: nat| from <= p < to ==> #[trigger] token_at(a, p) == token_at(b, p + shift)
}

/// The token ends every expression before it: the end of the input, or a
/// symbol that is neither a postfix nor an infix operator.
pub open spec fn ends_expression(token: Token) -> bool {
    match token {
        Token::Eof => true,
        Token::Op(op) => postfix_power(op) is None && infix_power(op) is None,
        Token::Atom(_) => false,
    }
}

/// The two tokens are equal, or both end every expression.
pub open spec fn same_follower(x: Token, y: Token) -> bool {
    x == y || (ends_expression(x) && ends_expression(y))
}

/// Whether `b`, read `shift` places further on, holds what the outcome
/// `parsed` consumed of `a` from `pos` on, and a like token behind it.
pub open spec fn same_input(
    a: Seq<Token>,
    b: Seq<Token>,
    shift: nat,
    pos: nat,
    parsed: Outcome,
) -> bool {
    &&& parsed is Parsed
    &&& same_tokens(a, b, shift, pos, pos + parsed.used())
    &&& same_follower(
        token_at(a, pos + parsed.used()),
        token_at(b, pos + parsed.used() + shift),
    )
}

/// An expression parses alike wherever its tokens stand.
pub proof fn lemma_expr_local(a: Seq<Token>, b: Seq<Token>, shift: nat, pos: nat, min_bp: u8)
    requires
        same_input(a, b, shift, pos, parse_expr(a, pos, min_bp)),
    ensures
        parse_expr(b, pos + shift, min_bp) == parse_expr(a, pos, min_bp),
    decreases tokens_left(a, pos), 2nat,
{
    let first = parse_primary(a, pos);
    let then = parse_rest(a, pos + first.used(), first->tree, min_bp);
    assert(token_at(a, pos + first.used()) == token_at(a, pos + first.used()));
    lemma_primary_local(a, b, shift, pos);
    lemma_rest_local(a, b, shift, pos + first.used(), first->tree, min_bp);
}

/// A primary term parses alike wherever its tokens stand.
pub proof fn lemma_primary_local(a: Seq<Token>, b: Seq<Token>, shift: nat, pos: nat)
    requires
        same_input(a, b, shift, pos, parse_primary(a, pos)),
    ensures
        parse_primary(b, pos + shift) == parse_primary(a, pos),
    decreases tokens_left(a, pos), 1nat,
{
    assert(token_at(a, pos) == token_at(b, pos + shift));
    if let Token::Op(op) = token_at(a, pos) {
        if op == '(' {
            let inner = parse_expr(a, pos + 1, 0);
            assert(token_at(a, pos + 1 + inner.used()) == token_at(
                b,
                pos + 1 + inner.used() + shift,
            ));
            lemma_expr_local(a, b, shift, pos + 1, 0);
        } else if let Some(right_bp) = prefix_power(op) {
            lemma_expr_local(a, b, shift, pos + 1, right_bp);
        }
    }
}

/// The operators after an operand parse alike wherever their tokens stand.
pub proof fn lemma_rest_local(
    a: Seq<Token>,
    b: Seq<Token>,
    shift: nat,
    pos: nat,
    lhs: Tree,
    min_bp: u8,
)
    requires
        same_input(a, b, shift, pos, parse_rest(a, pos, lhs, min_bp)),
    ensures
        parse_rest(b, pos + shift, lhs, min_bp) == parse_rest(a, pos, lhs, min_bp),
    decreases tokens_left(a, pos), 0nat,
{
    if let Token::Op(op) = token_at(a, pos) {
        if let Some(left_bp) = postfix_power(op) {
            if left_bp >= min_bp {
                let step = parse_postfix(a, pos + 1, lhs, op);
                let at = pos + 1 + step.used();
                assert(token_at(a, pos) == token_at(b, pos + shift));
                assert(token_at(a, at) == token_at(a, at));
                lemma_postfix_local(a, b, shift, pos + 1, lhs, op);
                lemma_rest_local(a, b, shift, at, step->tree, min_bp);
            }
        } else if let Some((left_bp, right_bp)) = infix_power(op) {
            if left_bp >= min_bp {
                let step = parse_infix(a, pos + 1, lhs, op, right_bp);
                let at = pos + 1 + step.used();
                assert(token_at(a, pos) == token_at(b, pos + shift));
                assert(token_at(a, at) == token_at(a, at));
                lemma_infix_local(a, b, shift, pos + 1, lhs, op, right_bp);
                lemma_rest_local(a, b, shift, at, step->tree, min_bp);
            }
        }
    }
}

/// What a postfix operator takes behind it parses alike wherever it stands.
pub proof fn lemma_postfix_local(
    a: Seq<Token>,
    b: Seq<Token>,
    shift: nat,
    pos: nat,
    lhs: Tree,
    op: char,
)
    requires
        parse_postfix(a, pos, lhs, op) is Parsed,
        same_tokens(a, b, shift, pos, pos + parse_postfix(a, pos, lhs, op).used()),
    ensures
        parse_postfix(b, pos + shift, lhs, op) == parse_postfix(a, pos, lhs, op),
    decreases tokens_left(a, pos), 3nat,
{
    if op == '[' {
        let inner = parse_expr(a, pos, 0);
        assert(token_at(a, pos + inner.used()) == token_at(b, pos + inner.used() + shift));
        lemma_expr_local(a, b, shift, pos, 0);
    }
}

/// What an infix operator takes behind it parses alike wherever it stands.
pub proof fn lemma_infix_local(
    a: Seq<Token>,
    b: Seq<Token>,
    shift: nat,
    pos: nat,
    lhs: Tree,
    op: char,
    right_bp: u8,
)
    requires
        same_input(a, b, shift, pos, parse_infix(a, pos, lhs, op, right_bp)),
    ensures
        parse_infix(b, pos + shift, lhs, op, right_bp) == parse_infix(a, pos, lhs, op, right_bp),
    decreases tokens_left(a, pos), 3nat,
{
    if op == '?' {
        let inner = parse_expr(a, pos, 0);
        assert(token_at(a, pos + inner.used()) == token_at(b, pos + inner.used() + shift));
        lemma_expr_local(a, b, shift, pos, 0);
        let first = closed_by(a, pos, inner, ':').used();
        lemma_expr_local(a, b, shift, pos + first, right_bp);
    } else {
        lemma_expr_local(a, b, shift, pos, right_bp);
    }
}

/// The tokens of `tokens` between a pair of parentheses.
pub open spec fn parenthesised(tokens: Seq<Token>) -> Seq<Token> {
    seq![Token::Op('(')] + tokens + seq![Token::Op(')')]
}

/// Parentheses leave no trace: where a token sequence parses as a whole to a
/// tree, the same sequence in parentheses parses to the same tree, under
/// every minimum power.
pub proof fn lemma_parentheses_vanish(tokens: Seq<Token>, tree: Tree, min_bp: u8)
    requires
        parse_expr(tokens, 0, 0) == (Outcome::Parsed { tree, used: tokens.len() }),
    ensures
        parse_expr(parenthesised(tokens), 0, min_bp) == (Outcome::Parsed {
            tree,
            used: tokens.len() + 2,
        }),
{
    let wrapped = parenthesised(tokens);
    assert(wrapped.len() == tokens.len() + 2);
    assert(token_at(wrapped, 0) == Token::Op('('));
    assert(token_at(wrapped, tokens.len() + 1) == Token::Op(')'));
    assert(token_at(wrapped, tokens.len() + 2) == Token::Eof);
    assert forall|p: nat| 0 <= p < tokens.len() implies #[trigger] token_at(tokens, p)
        == token_at(wrapped, p + 1) by {
        assert(wrapped[p as int + 1] == tokens[p as int]);
    }
    lemma_expr_local(tokens, wrapped, 1, 0, 0);
    assert(parse_expr(wrapped, 1, 0) == (Outcome::Parsed { tree, used: tokens.len() }));
    assert(parse_primary(wrapped, 0) == (Outcome::Parsed { tree, used: tokens.len() + 2 }));
}

} // verus!
