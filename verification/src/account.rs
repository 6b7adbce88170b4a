//! Every consumed token is in the tree.
//!
//! Written back in the order of the input, a parsed tree gives the tokens
//! that the parse consumed, without the parentheses. So no token is dropped,
//! and the tree is no deeper than the input is long.

use vstd::prelude::*;
use crate::parser::{
    closed_by,
    parse_expr,
    parse_infix,
    parse_postfix,
    parse_primary,
    parse_rest,
    tokens_left,
    Outcome,
};
use crate::power::{infix_power, postfix_power, prefix_power};
use crate::shape::{form, lemma_expr_well_formed, well_formed, Form};
use crate::token::{token_at, Token};
use crate::tree::Tree;

verus! {

/// The tokens of `tree` in the order of the input: a prefix operator before
/// its operand, a postfix operator behind it, an infix operator between its
/// operands, the index in its brackets, the conditional with `?` and `:`
/// between its operands.
pub open spec fn unparse(tree: Tree) -> Seq<Token>
    decreases tree,
{
    match tree {
        Tree::Leaf(c) => seq![Token::Atom(c)],
        Tree::Node(op, rest) => match form(op, rest.len()) {
            Form::Prefix => seq![Token::Op(op)] + unparse(rest[0]),
            Form::Postfix => unparse(rest[0]) + seq![Token::Op(op)],
            Form::Index => unparse(rest[0]) + seq![Token::Op('[')] + unparse(rest[1])
                + seq![Token::Op(']')],
            Form::Infix => unparse(rest[0]) + seq![Token::Op(op)] + unparse(rest[1]),
            Form::Conditional => unparse(rest[0]) + seq![Token::Op('?')] + unparse(rest[1])
                + seq![Token::Op(':')] + unparse(rest[2]),
            Form::Malformed => Seq::empty(),
        },
    }
}

/// Whether the token is a parenthesis.
pub open spec fn is_parenthesis(token: Token) -> bool {
    token == Token::Op('(') || token == Token::Op(')')
}

/// The tokens of `tokens` from `from` up to `to`, without the parentheses.
pub open spec fn plain_tokens(tokens: Seq<Token>, from: nat, to: nat) -> Seq<Token>
    decreases to,
{
    if to <= from {
        Seq::empty()
    } else if is_parenthesis(token_at(tokens, (to - 1) as nat)) {
        plain_tokens(tokens, from, (to - 1) as nat)
    } else {
        plain_tokens(tokens, from, (to - 1) as nat).push(token_at(tokens, (to - 1) as nat))
    }
}

/// The plain tokens of two ranges that meet are those of the whole range.
pub proof fn lemma_plain_tokens_join(tokens: Seq<Token>, from: nat, mid: nat, to: nat)
    requires
        from <= mid <= to,
    ensures
        plain_tokens(tokens, from, mid) + plain_tokens(tokens, mid, to) == plain_tokens(
            tokens,
            from,
            to,
        ),
    decreases to,
{
    if mid < to {
        lemma_plain_tokens_join(tokens, from, mid, (to - 1) as nat);
    }
    assert(plain_tokens(tokens, from, mid) + plain_tokens(tokens, mid, to) =~= plain_tokens(
        tokens,
        from,
        to,
    ));
}

/// The plain tokens of a range of one token.
pub proof fn lemma_plain_tokens_one(tokens: Seq<Token>, at: nat)
    ensures
        plain_tokens(tokens, at, at + 1) == if is_parenthesis(token_at(tokens, at)) {
            Seq::<Token>::empty()
        } else {
            seq![token_at(tokens, at)]
        },
{
    assert(plain_tokens(tokens, at, at) =~= Seq::<Token>::empty());
    assert(plain_tokens(tokens, at, at + 1) =~= if is_parenthesis(token_at(tokens, at)) {
        Seq::<Token>::empty()
    } else {
        seq![token_at(tokens, at)]
    });
}

/// There are no more plain tokens in a range than places.
pub proof fn lemma_plain_tokens_len(tokens: Seq<Token>, from: nat, to: nat)
    requires
        from <= to,
    ensures
        plain_tokens(tokens, from, to).len() <= to - from,
    decreases to,
{
    if from < to {
        lemma_plain_tokens_len(tokens, from, (to - 1) as nat);
    }
}

/// Whether `outcome`, a parse from `pos` on, is a failure or a tree that
/// holds the plain tokens from `from` up to where the parse ended.
pub open spec fn accounts(outcome: Outcome, tokens: Seq<Token>, from: nat, pos: nat) -> bool {
    match outcome {
        Outcome::Parsed { tree, used } => unparse(tree) == plain_tokens(tokens, from, pos + used),
        Outcome::Failed { error, used } => true,
    }
}

/// The tree of an expression holds, in the order of the input, every token
/// that the parse consumed but the parentheses.
pub proof fn lemma_expr_accounts(tokens: Seq<Token>, pos: nat, min_bp: u8)
    ensures
        accounts(parse_expr(tokens, pos, min_bp), tokens, pos, pos),
    decreases tokens_left(tokens, pos), 2nat,
{
    lemma_primary_accounts(tokens, pos);
    if let Outcome::Parsed { tree, used } = parse_primary(tokens, pos) {
        lemma_rest_accounts(tokens, pos, pos + used, tree, min_bp);
    }
}

/// The tree of a primary term holds every token of the term but the
/// parentheses.
pub proof fn lemma_primary_accounts(tokens: Seq<Token>, pos: nat)
    ensures
        accounts(parse_primary(tokens, pos), tokens, pos, pos),
    decreases tokens_left(tokens, pos), 1nat,
{
    lemma_plain_tokens_one(tokens, pos);
    match token_at(tokens, pos) {
        Token::Atom(c) => {},
        Token::Op(op) => {
            if op == '(' {
                lemma_expr_accounts(tokens, pos + 1, 0);
                if let Outcome::Parsed { tree, used } = parse_expr(tokens, pos + 1, 0) {
                    let end = pos + 1 + used;
                    lemma_plain_tokens_one(tokens, end);
                    lemma_plain_tokens_join(tokens, pos, pos + 1, end);
                    lemma_plain_tokens_join(tokens, pos, end, end + 1);
                    assert(Seq::<Token>::empty() + unparse(tree) + Seq::<Token>::empty()
                        =~= unparse(tree));
                }
            } else if let Some(right_bp) = prefix_power(op) {
                lemma_expr_accounts(tokens, pos + 1, right_bp);
                if let Outcome::Parsed { tree, used } = parse_expr(tokens, pos + 1, right_bp) {
                    let rest = seq![tree];
                    assert(form(op, rest.len()) == Form::Prefix);
                    assert(rest[0] == tree);
                    lemma_plain_tokens_join(tokens, pos, pos + 1, pos + 1 + used);
                }
            }
        },
        Token::Eof => {},
    }
}

/// Where the operand holds the plain tokens from `from` up to `pos`, the tree
/// that the operators after it give holds them up to where the parse ended.
pub proof fn lemma_rest_accounts(tokens: Seq<Token>, from: nat, pos: nat, lhs: Tree, min_bp: u8)
    requires
        from <= pos,
        unparse(lhs) == plain_tokens(tokens, from, pos),
    ensures
        accounts(parse_rest(tokens, pos, lhs, min_bp), tokens, from, pos),
    decreases tokens_left(tokens, pos), 0nat,
{
    if let Token::Op(op) = token_at(tokens, pos) {
        lemma_plain_tokens_one(tokens, pos);
        lemma_plain_tokens_join(tokens, from, pos, pos + 1);
        if let Some(left_bp) = postfix_power(op) {
            if left_bp >= min_bp {
                lemma_postfix_accounts(tokens, from, pos + 1, lhs, op);
                if let Outcome::Parsed { tree, used } = parse_postfix(tokens, pos + 1, lhs, op) {
                    lemma_rest_accounts(tokens, from, pos + 1 + used, tree, min_bp);
                }
            }
        } else if let Some((left_bp, right_bp)) = infix_power(op) {
            if left_bp >= min_bp {
                lemma_infix_accounts(tokens, from, pos + 1, lhs, op, right_bp);
                if let Outcome::Parsed { tree, used } = parse_infix(
                    tokens,
                    pos + 1,
                    lhs,
                    op,
                    right_bp,
                ) {
                    lemma_rest_accounts(tokens, from, pos + 1 + used, tree, min_bp);
                }
            }
        }
    }
}

/// The node of a postfix operator holds the tokens of its operand, the
/// operator and what the operator took behind it.
pub proof fn lemma_postfix_accounts(tokens: Seq<Token>, from: nat, pos: nat, lhs: Tree, op: char)
    requires
        from < pos,
        postfix_power(op) is Some,
        unparse(lhs) + seq![Token::Op(op)] == plain_tokens(tokens, from, pos),
    ensures
        accounts(parse_postfix(tokens, pos, lhs, op), tokens, from, pos),
    decreases tokens_left(tokens, pos), 3nat,
{
    if op == '[' {
        lemma_expr_accounts(tokens, pos, 0);
        if let Outcome::Parsed { tree: index, used } = parse_expr(tokens, pos, 0) {
            let end = pos + used;
            if token_at(tokens, end) == Token::Op(']') {
                let rest = seq![lhs, index];
                assert(form(op, rest.len()) == Form::Index);
                assert(rest[0] == lhs && rest[1] == index);
                lemma_plain_tokens_one(tokens, end);
                lemma_plain_tokens_join(tokens, from, pos, end);
                lemma_plain_tokens_join(tokens, from, end, end + 1);
            }
        }
    } else {
        let rest = seq![lhs];
        assert(form(op, rest.len()) == Form::Postfix);
        assert(rest[0] == lhs);
    }
}

/// The node of an infix operator holds the tokens of its first operand, the
/// operator and what the operator took behind it.
pub proof fn lemma_infix_accounts(
    tokens: Seq<Token>,
    from: nat,
    pos: nat,
    lhs: Tree,
    op: char,
    right_bp: u8,
)
    requires
        from < pos,
        infix_power(op) is Some,
        unparse(lhs) + seq![Token::Op(op)] == plain_tokens(tokens, from, pos),
    ensures
        accounts(parse_infix(tokens, pos, lhs, op, right_bp), tokens, from, pos),
    decreases tokens_left(tokens, pos), 3nat,
{
    if op == '?' {
        lemma_expr_accounts(tokens, pos, 0);
        if let Outcome::Parsed { tree: mid, used: first } = closed_by(
            tokens,
            pos,
            parse_expr(tokens, pos, 0),
            ':',
        ) {
            let colon = (pos + first - 1) as nat;
            lemma_expr_accounts(tokens, pos + first, right_bp);
            if let Outcome::Parsed { tree: rhs, used } = parse_expr(tokens, pos + first, right_bp) {
                let rest = seq![lhs, mid, rhs];
                assert(form(op, rest.len()) == Form::Conditional);
                assert(rest[0] == lhs && rest[1] == mid && rest[2] == rhs);
                lemma_plain_tokens_one(tokens, colon);
                lemma_plain_tokens_join(tokens, from, pos, colon);
                lemma_plain_tokens_join(tokens, from, colon, colon + 1);
                lemma_plain_tokens_join(tokens, from, pos + first, pos + first + used);
            }
        }
    } else {
        lemma_expr_accounts(tokens, pos, right_bp);
        if let Outcome::Parsed { tree: rhs, used } = parse_expr(tokens, pos, right_bp) {
            let rest = seq![lhs, rhs];
            assert(form(op, rest.len()) == Form::Infix);
            assert(rest[0] == lhs && rest[1] == rhs);
            lemma_plain_tokens_join(tokens, from, pos, pos + used);
        }
    }
}

/// The number of nodes on the longest way from the root of `tree` to a leaf.
pub open spec fn depth(tree: Tree) -> nat
    decreases tree,
{
    match tree {
        Tree::Leaf(_) => 1,
        Tree::Node(_, rest) => 1 + deepest(rest),
    }
}

/// The depth of the deepest tree of `rest`.
pub open spec fn deepest(rest: Seq<Tree>) -> nat
    decreases rest,
{
    if rest.len() == 0 {
        0
    } else {
        let before = deepest(rest.drop_last());
        let last = depth(rest.last());
        if before < last {
            last
        } else {
            before
        }
    }
}

/// Where every tree of `rest` is at most `bound` deep, so is the deepest.
pub proof fn lemma_deepest_bound(rest: Seq<Tree>, bound: nat)
    requires
        forall|i: int| 0 <= i < rest.len() ==> depth(#[trigger] rest[i]) <= bound,
    ensures
        deepest(rest) <= bound,
    decreases rest.len(),
{
    if rest.len() > 0 {
        assert forall|i: int| 0 <= i < rest.drop_last().len() implies depth(
            #[trigger] rest.drop_last()[i],
        ) <= bound by {
            assert(rest.drop_last()[i] == rest[i]);
        }
        lemma_deepest_bound(rest.drop_last(), bound);
        assert(rest.last() == rest[rest.len() - 1]);
    }
}

/// A well-formed tree is no deeper than it has tokens.
pub proof fn lemma_depth_within_tokens(tree: Tree)
    requires
        well_formed(tree),
    ensures
        depth(tree) <= unparse(tree).len(),
    decreases tree,
{
    match tree {
        Tree::Leaf(_) => {},
        Tree::Node(op, rest) => {
            let bound = (unparse(tree).len() - 1) as nat;
            assert forall|i: int| 0 <= i < rest.len() implies depth(#[trigger] rest[i])
                <= bound by {
                lemma_depth_within_tokens(rest[i]);
            }
            lemma_deepest_bound(rest, bound);
        },
    }
}

/// The tree of an expression is no deeper than the number of tokens that the
/// parse consumed.
pub proof fn lemma_depth_within_input(tokens: Seq<Token>, pos: nat, min_bp: u8)
    ensures
        match parse_expr(tokens, pos, min_bp) {
            Outcome::Parsed { tree, used } => depth(tree) <= used,
            Outcome::Failed { error, used } => true,
        },
{
    lemma_expr_well_formed(tokens, pos, min_bp);
    lemma_expr_accounts(tokens, pos, min_bp);
    if let Outcome::Parsed { tree, used } = parse_expr(tokens, pos, min_bp) {
        lemma_depth_within_tokens(tree);
        lemma_plain_tokens_len(tokens, pos, pos + used);
    }
}

} // verus!
