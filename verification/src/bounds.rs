//! A parse never reads past the end of its tokens.

use vstd::prelude::*;
use crate::parser::{
    closed_by,
    parse_expr,
    parse_infix,
    parse_postfix,
    parse_primary,
    parse_rest,
    tokens_left,
    Outcome,
};
use crate::power::{infix_power, postfix_power, prefix_power};
use crate::token::{token_at, Token};
use crate::tree::Tree;

verus! {

/// Whether `outcome` consumed at most the `left` tokens that were there, and
/// at least one of them where it gave a tree.
pub open spec fn within(outcome: Outcome, left: nat) -> bool {
    match outcome {
        Outcome::Parsed { tree, used } => 1 <= used <= left,
        Outcome::Failed { error, used } => used <= left,
    }
}

/// An expression consumes at least one token and none past the end; a failed
/// parse stops at or before the end.
pub proof fn lemma_expr_within(tokens: Seq<Token>, pos: nat, min_bp: u8)
    ensures
        within(parse_expr(tokens, pos, min_bp), tokens_left(tokens, pos)),
    decreases tokens_left(tokens, pos), 2nat,
{
    lemma_primary_within(tokens, pos);
    if let Outcome::Parsed { tree, used } = parse_primary(tokens, pos) {
        lemma_rest_within(tokens, pos + used, tree, min_bp);
    }
}

/// A primary term consumes at least one token and none past the end.
pub proof fn lemma_primary_within(tokens: Seq<Token>, pos: nat)
    ensures
        within(parse_primary(tokens, pos), tokens_left(tokens, pos)),
    decreases tokens_left(tokens, pos), 1nat,
{
    if let Token::Op(op) = token_at(tokens, pos) {
        if op == '(' {
            lemma_expr_within(tokens, pos + 1, 0);
        } else if let Some(right_bp) = prefix_power(op) {
            lemma_expr_within(tokens, pos + 1, right_bp);
        }
    }
}

/// The operators after an operand consume no token past the end.
pub proof fn lemma_rest_within(tokens: Seq<Token>, pos: nat, lhs: Tree, min_bp: u8)
    ensures
        parse_rest(tokens, pos, lhs, min_bp).used() <= tokens_left(tokens, pos),
    decreases tokens_left(tokens, pos), 0nat,
{
    if let Token::Op(op) = token_at(tokens, pos) {
        if let Some(left_bp) = postfix_power(op) {
            if left_bp >= min_bp {
                lemma_postfix_within(tokens, pos + 1, lhs, op);
                if let Outcome::Parsed { tree, used } = parse_postfix(tokens, pos + 1, lhs, op) {
                    lemma_rest_within(tokens, pos + 1 + used, tree, min_bp);
                }
            }
        } else if let Some((left_bp, right_bp)) = infix_power(op) {
            if left_bp >= min_bp {
                lemma_infix_within(tokens, pos + 1, lhs, op, right_bp);
                if let Outcome::Parsed { tree, used } = parse_infix(
                    tokens,
                    pos + 1,
                    lhs,
                    op,
                    right_bp,
                ) {
                    lemma_rest_within(tokens, pos + 1 + used, tree, min_bp);
                }
            }
        }
    }
}

/// What a postfix operator takes behind it lies before the end.
pub proof fn lemma_postfix_within(tokens: Seq<Token>, pos: nat, lhs: Tree, op: char)
    ensures
        parse_postfix(tokens, pos, lhs, op).used() <= tokens_left(tokens, pos),
    decreases tokens_left(tokens, pos), 3nat,
{
    if op == '[' {
        lemma_expr_within(tokens, pos, 0);
    }
}

/// What an infix operator takes behind it lies before the end.
pub proof fn lemma_infix_within(tokens: Seq<Token>, pos: nat, lhs: Tree, op: char, right_bp: u8)
    ensures
        parse_infix(tokens, pos, lhs, op, right_bp).used() <= tokens_left(tokens, pos),
    decreases tokens_left(tokens, pos), 3nat,
{
    if op == '?' {
        lemma_expr_within(tokens, pos, 0);
        if let Outcome::Parsed { tree: mid, used: first } = closed_by(
            tokens,
            pos,
            parse_expr(tokens, pos, 0),
            ':',
        ) {
            lemma_expr_within(tokens, pos + first, right_bp);
        }
    } else {
        lemma_expr_within(tokens, pos, right_bp);
    }
}

} // verus!
