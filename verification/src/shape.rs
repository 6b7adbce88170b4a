//! The shape of the trees that the parser builds.
//!
//! Every tree has the arity of its operators. Where the tokens hold no
//! opening parenthesis, the tree moreover respects the binding powers: an
//! operand that stands to the right of an operator holds, along its left
//! edge, only operators that bind at least as strongly as the right power
//! asks, and an operand that stands to the left of an operator holds, along its
//! right edge, only operators that bind more strongly than the left power.

use vstd::prelude::*;
use crate::parser::{
    closed_by,
    parse_expr,
    parse_infix,
    parse_postfix,
    parse_primary,
    parse_rest,
    tokens_left,
    Outcome,
};
use crate::power::{
    infix_left,
    infix_power,
    infix_right,
    left_power,
    postfix_power,
    prefix_power,
};
use crate::token::{token_at, Token};
use crate::tree::Tree;

verus! {

/// What an operator node is, by its symbol and the number of its operands.
pub ghost enum Form {
    Prefix,
    Postfix,
    Index,
    Infix,
    Conditional,
    Malformed,
}

/// The form of a node with the symbol `op` and `n` operands.
pub open spec fn form(op: char, n: nat) -> Form {
    if n == 1 && prefix_power(op) is Some {
        Form::Prefix
    } else if n == 1 && postfix_power(op) is Some && op != '[' {
        Form::Postfix
    } else if n == 2 && op == '[' {
        Form::Index
    } else if n == 2 && infix_power(op) is Some && op != '?' {
        Form::Infix
    } else if n == 3 && op == '?' {
        Form::Conditional
    } else {
        Form::Malformed
    }
}

/// Every node of `tree` has as many operands as its operator takes: one for
/// a prefix or postfix operator, two for an infix operator and for indexing,
/// three for the conditional.
pub open spec fn well_formed(tree: Tree) -> bool
    decreases tree,
{
    match tree {
        Tree::Leaf(_) => true,
        Tree::Node(op, rest) => {
            &&& form(op, rest.len()) != Form::Malformed
            &&& forall|i: int| 0 <= i < rest.len() ==> well_formed(#[trigger] rest[i])
        },
    }
}

/// Every operator of `tree` that took the tree's left edge as its first operand
/// has a left power of at least `min_bp`.
pub open spec fn left_edge_at_least(tree: Tree, min_bp: u8) -> bool
    decreases tree,
{
    match tree {
        Tree::Leaf(_) => true,
        Tree::Node(op, rest) => match form(op, rest.len()) {
            Form::Prefix => true,
            Form::Postfix | Form::Index | Form::Infix | Form::Conditional => {
                &&& left_power(op) is Some
                &&& left_power(op)->0 >= min_bp
                &&& left_edge_at_least(rest[0], min_bp)
            },
            Form::Malformed => false,
        },
    }
}

/// Every operator of `tree` whose last operand reaches the tree's right edge
/// has a right power above `bp`.
pub open spec fn right_edge_above(tree: Tree, bp: u8) -> bool
    decreases tree,
{
    match tree {
        Tree::Leaf(_) => true,
        Tree::Node(op, rest) => match form(op, rest.len()) {
            Form::Prefix => prefix_power(op)->0 > bp && right_edge_above(rest[0], bp),
            Form::Infix => infix_right(op) > bp && right_edge_above(rest[1], bp),
            Form::Conditional => infix_right(op) > bp && right_edge_above(rest[2], bp),
            Form::Postfix | Form::Index => true,
            Form::Malformed => false,
        },
    }
}

/// `tree` respects the binding powers at every node.
pub open spec fn respects_powers(tree: Tree) -> bool
    decreases tree,
{
    match tree {
        Tree::Leaf(_) => true,
        Tree::Node(op, rest) => match form(op, rest.len()) {
            Form::Prefix => {
                &&& respects_powers(rest[0])
                &&& left_edge_at_least(rest[0], prefix_power(op)->0)
            },
            Form::Postfix => {
                &&& respects_powers(rest[0])
                &&& right_edge_above(rest[0], postfix_power(op)->0)
            },
            Form::Index => {
                &&& respects_powers(rest[0])
                &&& right_edge_above(rest[0], postfix_power(op)->0)
                &&& respects_powers(rest[1])
            },
            Form::Infix => {
                &&& respects_powers(rest[0])
                &&& right_edge_above(rest[0], infix_left(op))
                &&& respects_powers(rest[1])
                &&& left_edge_at_least(rest[1], infix_right(op))
            },
            Form::Conditional => {
                &&& respects_powers(rest[0])
                &&& right_edge_above(rest[0], infix_left(op))
                &&& respects_powers(rest[1])
                &&& respects_powers(rest[2])
                &&& left_edge_at_least(rest[2], infix_right(op))
            },
            Form::Malformed => false,
        },
    }
}

/// Every symbol of `tree` is a token of `tokens`: each leaf an atom, each
/// operator an operator symbol.
pub open spec fn made_of(tree: Tree, tokens: Seq<Token>) -> bool
    decreases tree,
{
    match tree {
        Tree::Leaf(c) => tokens.contains(Token::Atom(c)),
        Tree::Node(op, rest) => {
            &&& tokens.contains(Token::Op(op))
            &&& forall|i: int| 0 <= i < rest.len() ==> made_of(#[trigger] rest[i], tokens)
        },
    }
}

/// Whether `outcome` is a failure, or a well-formed tree made of `tokens`.
pub open spec fn sound(outcome: Outcome, tokens: Seq<Token>) -> bool {
    match outcome {
        Outcome::Parsed { tree, used } => well_formed(tree) && made_of(tree, tokens),
        Outcome::Failed { error, used } => true,
    }
}

/// Every expression has a well-formed tree made of its tokens: parentheses
/// and closing symbols leave no node, every operator has the operands of
/// its kind, and nothing stands in the tree that was not in the input.
pub proof fn lemma_expr_well_formed(tokens: Seq<Token>, pos: nat, min_bp: u8)
    ensures
        sound(parse_expr(tokens, pos, min_bp), tokens),
    decreases tokens_left(tokens, pos), 2nat,
{
    lemma_primary_well_formed(tokens, pos);
    if let Outcome::Parsed { tree, used } = parse_primary(tokens, pos) {
        lemma_rest_well_formed(tokens, pos + used, tree, min_bp);
    }
}

/// Every primary term has a well-formed tree made of its tokens.
pub proof fn lemma_primary_well_formed(tokens: Seq<Token>, pos: nat)
    ensures
        sound(parse_primary(tokens, pos), tokens),
    decreases tokens_left(tokens, pos), 1nat,
{
    if pos < tokens.len() {
        assert(tokens.contains(tokens[pos as int]));
    }
    if let Token::Op(op) = token_at(tokens, pos) {
        if op == '(' {
            lemma_expr_well_formed(tokens, pos + 1, 0);
        } else if let Some(right_bp) = prefix_power(op) {
            lemma_expr_well_formed(tokens, pos + 1, right_bp);
            assert(form(op, 1) == Form::Prefix);
        }
    }
}

/// The operators taken after a well-formed operand made of the tokens give
/// such a tree.
pub proof fn lemma_rest_well_formed(tokens: Seq<Token>, pos: nat, lhs: Tree, min_bp: u8)
    requires
        well_formed(lhs),
        made_of(lhs, tokens),
    ensures
        sound(parse_rest(tokens, pos, lhs, min_bp), tokens),
    decreases tokens_left(tokens, pos), 0nat,
{
    if pos < tokens.len() {
        assert(tokens.contains(tokens[pos as int]));
    }
    if let Token::Op(op) = token_at(tokens, pos) {
        if let Some(left_bp) = postfix_power(op) {
            if left_bp >= min_bp {
                lemma_postfix_well_formed(tokens, pos + 1, lhs, op);
                if let Outcome::Parsed { tree, used } = parse_postfix(tokens, pos + 1, lhs, op) {
                    lemma_rest_well_formed(tokens, pos + 1 + used, tree, min_bp);
                }
            }
        } else if let Some((left_bp, right_bp)) = infix_power(op) {
            if left_bp >= min_bp {
                lemma_infix_well_formed(tokens, pos + 1, lhs, op, right_bp);
                if let Outcome::Parsed { tree, used } = parse_infix(
                    tokens,
                    pos + 1,
                    lhs,
                    op,
                    right_bp,
                ) {
                    lemma_rest_well_formed(tokens, pos + 1 + used, tree, min_bp);
                }
            }
        }
    }
}

/// A postfix operator of the tokens over a well-formed operand made of them
/// gives such a node.
pub proof fn lemma_postfix_well_formed(tokens: Seq<Token>, pos: nat, lhs: Tree, op: char)
    requires
        well_formed(lhs),
        made_of(lhs, tokens),
        postfix_power(op) is Some,
        tokens.contains(Token::Op(op)),
    ensures
        sound(parse_postfix(tokens, pos, lhs, op), tokens),
    decreases tokens_left(tokens, pos), 3nat,
{
    if op == '[' {
        lemma_expr_well_formed(tokens, pos, 0);
        assert(form(op, 2) == Form::Index);
    } else {
        assert(form(op, 1) == Form::Postfix);
    }
}

/// An infix operator of the tokens over a well-formed operand made of them
/// gives such a node.
pub proof fn lemma_infix_well_formed(
    tokens: Seq<Token>,
    pos: nat,
    lhs: Tree,
    op: char,
    right_bp: u8,
)
    requires
        well_formed(lhs),
        made_of(lhs, tokens),
        infix_power(op) is Some,
        tokens.contains(Token::Op(op)),
    ensures
        sound(parse_infix(tokens, pos, lhs, op, right_bp), tokens),
    decreases tokens_left(tokens, pos), 3nat,
{
    if op == '?' {
        lemma_expr_well_formed(tokens, pos, 0);
        if let Outcome::Parsed { tree: mid, used: first } = closed_by(
            tokens,
            pos,
            parse_expr(tokens, pos, 0),
            ':',
        ) {
            lemma_expr_well_formed(tokens, pos + first, right_bp);
        }
        assert(form(op, 3) == Form::Conditional);
    } else {
        lemma_expr_well_formed(tokens, pos, right_bp);
        assert(form(op, 2) == Form::Infix);
    }
}

/// A well-formed tree has no node of a parenthesis, of a closing bracket or
/// of the colon.
pub proof fn lemma_no_delimiter_node(op: char, rest: Seq<Tree>)
    requires
        well_formed(Tree::Node(op, rest)),
    ensures
        op != '(' && op != ')' && op != ']' && op != ':',
        1 <= rest.len() <= 3,
{
}

/// Every tree that respects the binding powers has a left edge of at least
/// the power zero.
pub proof fn lemma_left_edge_from_zero(tree: Tree)
    requires
        respects_powers(tree),
    ensures
        left_edge_at_least(tree, 0),
    decreases tree,
{
    if let Tree::Node(op, rest) = tree {
        match form(op, rest.len()) {
            Form::Postfix | Form::Index | Form::Infix | Form::Conditional => {
                lemma_left_edge_from_zero(rest[0]);
            },
            _ => {},
        }
    }
}

/// No token of `tokens` is an opening parenthesis.
pub open spec fn no_opening_parenthesis(tokens: Seq<Token>) -> bool {
    forall|i: int| 0 <= i < tokens.len() ==> tokens[i] != Token::Op('(')
}

/// Whether the token `next` was rightly left alone by a parse under `min_bp`
/// that gave `tree`: if it is an operator that takes a left operand, it binds
/// more weakly than `min_bp` and than every operator on the right edge of
/// `tree`.
pub open spec fn left_to_caller(tree: Tree, min_bp: u8, next: Token) -> bool {
    match next {
        Token::Op(op) => match left_power(op) {
            Some(left_bp) => left_bp < min_bp && right_edge_above(tree, left_bp),
            None => true,
        },
        _ => true,
    }
}

/// Whether `tree` can stand before the token `next` as its left operand.
pub open spec fn fits_before(tree: Tree, next: Token) -> bool {
    match next {
        Token::Op(op) => match left_power(op) {
            Some(left_bp) => right_edge_above(tree, left_bp),
            None => true,
        },
        _ => true,
    }
}

/// Without parentheses, an expression parsed under `min_bp` respects the
/// binding powers, holds along its left edge only operators of at least
/// `min_bp`, and is followed by a token that binds more weakly than all of its
/// right edge.
pub proof fn lemma_expr_respects_powers(tokens: Seq<Token>, pos: nat, min_bp: u8)
    requires
        no_opening_parenthesis(tokens),
    ensures
        match parse_expr(tokens, pos, min_bp) {
            Outcome::Parsed { tree, used } => {
                &&& respects_powers(tree)
                &&& left_edge_at_least(tree, min_bp)
                &&& left_to_caller(tree, min_bp, token_at(tokens, pos + used))
            },
            Outcome::Failed { error, used } => true,
        },
    decreases tokens_left(tokens, pos), 2nat,
{
    lemma_primary_respects_powers(tokens, pos);
    if let Outcome::Parsed { tree, used } = parse_primary(tokens, pos) {
        lemma_rest_respects_powers(tokens, pos + used, tree, min_bp);
    }
}

/// Without parentheses, a primary term is a leaf or a prefix operator over an
/// operand that respects the binding powers.
pub proof fn lemma_primary_respects_powers(tokens: Seq<Token>, pos: nat)
    requires
        no_opening_parenthesis(tokens),
    ensures
        match parse_primary(tokens, pos) {
            Outcome::Parsed { tree, used } => {
                &&& respects_powers(tree)
                &&& forall|min_bp: u8| left_edge_at_least(tree, min_bp)
                &&& fits_before(tree, token_at(tokens, pos + used))
            },
            Outcome::Failed { error, used } => true,
        },
    decreases tokens_left(tokens, pos), 1nat,
{
    if let Token::Op(op) = token_at(tokens, pos) {
        if op == '(' {
            assert(tokens[pos as int] == Token::Op('('));
        } else if let Some(right_bp) = prefix_power(op) {
            lemma_expr_respects_powers(tokens, pos + 1, right_bp);
            if let Outcome::Parsed { tree, used } = parse_expr(tokens, pos + 1, right_bp) {
                let node = Tree::Node(op, seq![tree]);
                assert(form(op, 1) == Form::Prefix);
                assert(seq![tree][0] == tree);
            }
        }
    }
}

/// A postfix operator over an operand that fits before it.
proof fn lemma_postfix_node(lhs: Tree, op: char, min_bp: u8, next: Token)
    requires
        respects_powers(lhs),
        left_edge_at_least(lhs, min_bp),
        postfix_power(op) is Some,
        op != '[',
        postfix_power(op)->0 >= min_bp,
        right_edge_above(lhs, postfix_power(op)->0),
    ensures
        respects_powers(Tree::Node(op, seq![lhs])),
        left_edge_at_least(Tree::Node(op, seq![lhs]), min_bp),
        fits_before(Tree::Node(op, seq![lhs]), next),
{
    let rest = seq![lhs];
    assert(form(op, rest.len()) == Form::Postfix);
    assert(rest[0] == lhs);
}

/// An indexing of an operand that fits before the bracket.
proof fn lemma_index_node(lhs: Tree, index: Tree, min_bp: u8, next: Token)
    requires
        respects_powers(lhs),
        left_edge_at_least(lhs, min_bp),
        postfix_power('[')->0 >= min_bp,
        right_edge_above(lhs, postfix_power('[')->0),
        respects_powers(index),
    ensures
        respects_powers(Tree::Node('[', seq![lhs, index])),
        left_edge_at_least(Tree::Node('[', seq![lhs, index]), min_bp),
        fits_before(Tree::Node('[', seq![lhs, index]), next),
{
    let rest = seq![lhs, index];
    assert(form('[', rest.len()) == Form::Index);
    assert(rest[0] == lhs && rest[1] == index);
}

/// An infix operator between an operand that fits before it and an operand
/// that was parsed under its right power.
proof fn lemma_infix_node(lhs: Tree, op: char, rhs: Tree, min_bp: u8, next: Token)
    requires
        respects_powers(lhs),
        left_edge_at_least(lhs, min_bp),
        infix_power(op) is Some,
        op != '?',
        infix_left(op) >= min_bp,
        right_edge_above(lhs, infix_left(op)),
        respects_powers(rhs),
        left_edge_at_least(rhs, infix_right(op)),
        left_to_caller(rhs, infix_right(op), next),
    ensures
        respects_powers(Tree::Node(op, seq![lhs, rhs])),
        left_edge_at_least(Tree::Node(op, seq![lhs, rhs]), min_bp),
        fits_before(Tree::Node(op, seq![lhs, rhs]), next),
{
    let rest = seq![lhs, rhs];
    assert(form(op, rest.len()) == Form::Infix);
    assert(rest[0] == lhs && rest[1] == rhs);
}

/// A conditional over a condition that fits before it, any middle operand,
/// and a last operand that was parsed under its right power.
proof fn lemma_conditional_node(lhs: Tree, mid: Tree, rhs: Tree, min_bp: u8, next: Token)
    requires
        respects_powers(lhs),
        left_edge_at_least(lhs, min_bp),
        infix_left('?') >= min_bp,
        right_edge_above(lhs, infix_left('?')),
        respects_powers(mid),
        respects_powers(rhs),
        left_edge_at_least(rhs, infix_right('?')),
        left_to_caller(rhs, infix_right('?'), next),
    ensures
        respects_powers(Tree::Node('?', seq![lhs, mid, rhs])),
        left_edge_at_least(Tree::Node('?', seq![lhs, mid, rhs]), min_bp),
        fits_before(Tree::Node('?', seq![lhs, mid, rhs]), next),
{
    let rest = seq![lhs, mid, rhs];
    assert(form('?', rest.len()) == Form::Conditional);
    assert(rest[0] == lhs && rest[1] == mid && rest[2] == rhs);
}

/// Without parentheses, the operators taken after an operand keep what the
/// operand had: respect for the binding powers, and a left edge of at least
/// `min_bp`.
pub proof fn lemma_rest_respects_powers(tokens: Seq<Token>, pos: nat, lhs: Tree, min_bp: u8)
    requires
        no_opening_parenthesis(tokens),
        respects_powers(lhs),
        left_edge_at_least(lhs, min_bp),
        fits_before(lhs, token_at(tokens, pos)),
    ensures
        match parse_rest(tokens, pos, lhs, min_bp) {
            Outcome::Parsed { tree, used } => {
                &&& respects_powers(tree)
                &&& left_edge_at_least(tree, min_bp)
                &&& left_to_caller(tree, min_bp, token_at(tokens, pos + used))
            },
            Outcome::Failed { error, used } => true,
        },
    decreases tokens_left(tokens, pos), 0nat,
{
    if let Token::Op(op) = token_at(tokens, pos) {
        if let Some(left_bp) = postfix_power(op) {
            if left_bp >= min_bp {
                lemma_postfix_respects_powers(tokens, pos + 1, lhs, op, min_bp);
                if let Outcome::Parsed { tree, used } = parse_postfix(tokens, pos + 1, lhs, op) {
                    lemma_rest_respects_powers(tokens, pos + 1 + used, tree, min_bp);
                }
            }
        } else if let Some((left_bp, right_bp)) = infix_power(op) {
            if left_bp >= min_bp {
                lemma_infix_respects_powers(tokens, pos + 1, lhs, op, min_bp);
                if let Outcome::Parsed { tree, used } = parse_infix(
                    tokens,
                    pos + 1,
                    lhs,
                    op,
                    right_bp,
                ) {
                    lemma_rest_respects_powers(tokens, pos + 1 + used, tree, min_bp);
                }
            }
        }
    }
}

/// Without parentheses, a postfix operator over an operand that fits before it
/// gives a node that respects the binding powers and fits before every token.
pub proof fn lemma_postfix_respects_powers(
    tokens: Seq<Token>,
    pos: nat,
    lhs: Tree,
    op: char,
    min_bp: u8,
)
    requires
        no_opening_parenthesis(tokens),
        respects_powers(lhs),
        left_edge_at_least(lhs, min_bp),
        postfix_power(op) is Some,
        postfix_power(op)->0 >= min_bp,
        right_edge_above(lhs, postfix_power(op)->0),
    ensures
        match parse_postfix(tokens, pos, lhs, op) {
            Outcome::Parsed { tree, used } => {
                &&& respects_powers(tree)
                &&& left_edge_at_least(tree, min_bp)
                &&& fits_before(tree, token_at(tokens, pos + used))
            },
            Outcome::Failed { error, used } => true,
        },
    decreases tokens_left(tokens, pos), 3nat,
{
    if op == '[' {
        lemma_expr_respects_powers(tokens, pos, 0);
        if let Outcome::Parsed { tree: index, used } = closed_by(
            tokens,
            pos,
            parse_expr(tokens, pos, 0),
            ']',
        ) {
            lemma_index_node(lhs, index, min_bp, token_at(tokens, pos + used));
        }
    } else {
        lemma_postfix_node(lhs, op, min_bp, token_at(tokens, pos));
    }
}

/// Without parentheses, an infix operator over an operand that fits before it
/// gives a node that respects the binding powers and fits before the token
/// that follows it.
pub proof fn lemma_infix_respects_powers(
    tokens: Seq<Token>,
    pos: nat,
    lhs: Tree,
    op: char,
    min_bp: u8,
)
    requires
        no_opening_parenthesis(tokens),
        respects_powers(lhs),
        left_edge_at_least(lhs, min_bp),
        infix_power(op) is Some,
        infix_left(op) >= min_bp,
        right_edge_above(lhs, infix_left(op)),
    ensures
        match parse_infix(tokens, pos, lhs, op, infix_right(op)) {
            Outcome::Parsed { tree, used } => {
                &&& respects_powers(tree)
                &&& left_edge_at_least(tree, min_bp)
                &&& fits_before(tree, token_at(tokens, pos + used))
            },
            Outcome::Failed { error, used } => true,
        },
    decreases tokens_left(tokens, pos), 3nat,
{
    let right_bp = infix_right(op);
    if op == '?' {
        lemma_expr_respects_powers(tokens, pos, 0);
        if let Outcome::Parsed { tree: mid, used: first } = closed_by(
            tokens,
            pos,
            parse_expr(tokens, pos, 0),
            ':',
        ) {
            lemma_expr_respects_powers(tokens, pos + first, right_bp);
            if let Outcome::Parsed { tree: rhs, used } = parse_expr(tokens, pos + first, right_bp) {
                lemma_conditional_node(
                    lhs,
                    mid,
                    rhs,
                    min_bp,
                    token_at(tokens, pos + first + used),
                );
            }
        }
    } else {
        lemma_expr_respects_powers(tokens, pos, right_bp);
        if let Outcome::Parsed { tree: rhs, used } = parse_expr(tokens, pos, right_bp) {
            lemma_infix_node(lhs, op, rhs, min_bp, token_at(tokens, pos + used));
        }
    }
}

} // verus!
