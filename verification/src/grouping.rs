//! How the operators group, where no parentheses say otherwise.
//!
//! Each rule says which trees cannot stand as an operand of an operator. The
//! rules follow from the respect for the binding powers that every tree
//! parsed from tokens without parentheses has.

use vstd::prelude::*;
use crate::parser::{parse_expr, Outcome};
use crate::shape::{
    lemma_expr_respects_powers,
    no_opening_parenthesis,
    respects_powers,
};
use crate::token::Token;
use crate::tree::Tree;

verus! {

/// Whether `tree` is a node of the symbol `symbol` over `n` operands.
pub open spec fn is_node(tree: Tree, symbol: char, n: nat) -> bool {
    match tree {
        Tree::Leaf(_) => false,
        Tree::Node(op, rest) => op == symbol && rest.len() == n,
    }
}

/// A sum or a difference of two operands.
pub open spec fn is_sum(tree: Tree) -> bool {
    is_node(tree, '+', 2) || is_node(tree, '-', 2)
}

/// A product or a quotient of two operands.
pub open spec fn is_product(tree: Tree) -> bool {
    is_node(tree, '*', 2) || is_node(tree, '/', 2)
}

/// A composition of two operands.
pub open spec fn is_composition(tree: Tree) -> bool {
    is_node(tree, '.', 2)
}

/// An assignment.
pub open spec fn is_assignment(tree: Tree) -> bool {
    is_node(tree, '=', 2)
}

/// A conditional with its three operands.
pub open spec fn is_conditional(tree: Tree) -> bool {
    is_node(tree, '?', 3)
}

/// A postfix `!` over its operand.
pub open spec fn is_factorial(tree: Tree) -> bool {
    is_node(tree, '!', 1)
}

/// The operand of `tree` at position `i`.
pub open spec fn operand(tree: Tree, i: int) -> Tree
    recommends
        tree is Node,
        0 <= i < tree->Node_1.len(),
{
    tree->Node_1[i]
}

/// A rule of grouping.
pub ghost enum Rule {
    /// Products group tighter than sums, and both group to the left.
    Arithmetic,
    /// Composition groups to the right, and tighter than sums, products and `!`.
    Composition,
    /// Conditionals group to the right.
    Conditional,
    /// Assignment groups to the right, and weaker than the conditional.
    Assignment,
}

/// Whether the node at the root of `tree` keeps the rule.
pub open spec fn keeps_at_root(rule: Rule, tree: Tree) -> bool {
    match rule {
        Rule::Arithmetic => {
            &&& is_product(tree) ==> !is_sum(operand(tree, 0)) && !is_sum(operand(tree, 1))
                && !is_product(operand(tree, 1))
            &&& is_sum(tree) ==> !is_sum(operand(tree, 1))
        },
        Rule::Composition => is_composition(tree) ==> {
            &&& !is_composition(operand(tree, 0))
            &&& !is_sum(operand(tree, 0)) && !is_product(operand(tree, 0))
            &&& !is_sum(operand(tree, 1)) && !is_product(operand(tree, 1))
            &&& !is_factorial(operand(tree, 1))
        },
        Rule::Conditional => is_conditional(tree) ==> !is_conditional(operand(tree, 0)),
        Rule::Assignment => {
            &&& is_assignment(tree) ==> !is_assignment(operand(tree, 0))
            &&& is_conditional(tree) ==> !is_assignment(operand(tree, 0)) && !is_assignment(
                operand(tree, 2),
            )
        },
    }
}

/// Whether every node of `tree` keeps the rule.
pub open spec fn keeps(rule: Rule, tree: Tree) -> bool
    decreases tree,
{
    &&& keeps_at_root(rule, tree)
    &&& match tree {
        Tree::Leaf(_) => true,
        Tree::Node(_, rest) => forall|i: int| 0 <= i < rest.len() ==> keeps(rule, #[trigger] rest[i]),
    }
}

/// A tree that respects the binding powers keeps every rule of grouping.
pub proof fn lemma_respect_keeps_rules(rule: Rule, tree: Tree)
    requires
        respects_powers(tree),
    ensures
        keeps(rule, tree),
    decreases tree,
{
    match tree {
        Tree::Leaf(_) => {},
        Tree::Node(op, rest) => {
            assert forall|i: int| 0 <= i < rest.len() implies keeps(rule, #[trigger] rest[i]) by {
                lemma_respect_keeps_rules(rule, rest[i]);
            }
        },
    }
}

/// Whether every token is an operand or one of the symbols `+ - * /`.
pub open spec fn only_arithmetic(tokens: Seq<Token>) -> bool {
    forall|i: int|
        0 <= i < tokens.len() ==> match #[trigger] tokens[i] {
            Token::Atom(_) => true,
            Token::Op(op) => op == '+' || op == '-' || op == '*' || op == '/',
            Token::Eof => false,
        }
}

/// In a tree parsed from operands and `+ - * /` alone, no operand of a
/// product is a sum, and no right operand of a sum or of a product is
/// an operation of the same tier: products group tighter than sums, and
/// operators of one tier group to the left.
pub proof fn lemma_arithmetic_grouping(tokens: Seq<Token>, pos: nat, min_bp: u8)
    requires
        only_arithmetic(tokens),
    ensures
        match parse_expr(tokens, pos, min_bp) {
            Outcome::Parsed { tree, used } => keeps(Rule::Arithmetic, tree),
            Outcome::Failed { error, used } => true,
        },
{
    lemma_expr_respects_powers(tokens, pos, min_bp);
    if let Outcome::Parsed { tree, used } = parse_expr(tokens, pos, min_bp) {
        lemma_respect_keeps_rules(Rule::Arithmetic, tree);
    }
}

/// In a tree parsed from tokens without parentheses, the left operand of a
/// composition is no composition, no operand of a composition is a sum or a
/// product, and its right operand is no `!`: composition groups to the right
/// and tighter than `+ - * /` and `!`.
pub proof fn lemma_composition_grouping(tokens: Seq<Token>, pos: nat, min_bp: u8)
    requires
        no_opening_parenthesis(tokens),
    ensures
        match parse_expr(tokens, pos, min_bp) {
            Outcome::Parsed { tree, used } => keeps(Rule::Composition, tree),
            Outcome::Failed { error, used } => true,
        },
{
    lemma_expr_respects_powers(tokens, pos, min_bp);
    if let Outcome::Parsed { tree, used } = parse_expr(tokens, pos, min_bp) {
        lemma_respect_keeps_rules(Rule::Composition, tree);
    }
}

/// In a tree parsed from tokens without parentheses, the condition of a
/// conditional is no conditional: a chain of conditionals groups to the right.
pub proof fn lemma_conditional_grouping(tokens: Seq<Token>, pos: nat, min_bp: u8)
    requires
        no_opening_parenthesis(tokens),
    ensures
        match parse_expr(tokens, pos, min_bp) {
            Outcome::Parsed { tree, used } => keeps(Rule::Conditional, tree),
            Outcome::Failed { error, used } => true,
        },
{
    lemma_expr_respects_powers(tokens, pos, min_bp);
    if let Outcome::Parsed { tree, used } = parse_expr(tokens, pos, min_bp) {
        lemma_respect_keeps_rules(Rule::Conditional, tree);
    }
}

/// In a tree parsed from tokens without parentheses, the left operand of an
/// assignment is no assignment, and neither the condition nor the last
/// operand of a conditional is one: assignment groups to the right and weaker
/// than the conditional.
pub proof fn lemma_assignment_grouping(tokens: Seq<Token>, pos: nat, min_bp: u8)
    requires
        no_opening_parenthesis(tokens),
    ensures
        match parse_expr(tokens, pos, min_bp) {
            Outcome::Parsed { tree, used } => keeps(Rule::Assignment, tree),
            Outcome::Failed { error, used } => true,
        },
{
    lemma_expr_respects_powers(tokens, pos, min_bp);
    if let Outcome::Parsed { tree, used } = parse_expr(tokens, pos, min_bp) {
        lemma_respect_keeps_rules(Rule::Assignment, tree);
    }
}

} // verus!
