//! Chains: the trees of inputs that repeat one construct.
//!
//! A run of prefix operators nests inwards, a run of index brackets and a
//! chain of infix operators of a tier that groups to the left nest to the
//! left, and a chain of a tier that groups to the right, or of conditionals,
//! nests to the right.

use vstd::prelude::*;
use crate::parser::{
    closed_by,
    parse_expr,
    parse_infix,
    parse_postfix,
    parse_primary,
    parse_rest,
    Outcome,
};
use crate::power::{infix_power, prefix_power};
use crate::token::{token_at, Token};
use crate::tree::Tree;

verus! {

/// `tokens` is the prefix operators `signs`, in order, before the atom `a`.
pub open spec fn is_prefix_chain(tokens: Seq<Token>, signs: Seq<char>, a: char) -> bool {
    &&& tokens.len() == signs.len() + 1
    &&& forall|i: int|
        0 <= i < signs.len() ==> #[trigger] tokens[i] == Token::Op(signs[i]) && prefix_power(
            signs[i],
        ) is Some
    &&& tokens[signs.len() as int] == Token::Atom(a)
}

/// The atom `a` under the prefix operators `signs[from..]`, the first outermost.
pub open spec fn nested_prefixes(signs: Seq<char>, a: char, from: nat) -> Tree
    decreases signs.len() - from,
{
    if from >= signs.len() {
        Tree::Leaf(a)
    } else {
        Tree::Node(signs[from as int], seq![nested_prefixes(signs, a, from + 1)])
    }
}

/// A run of prefix operators before an atom parses, from every position and
/// under every minimum power, as the operators nested inwards: the first
/// operator is applied to what the others give.
pub proof fn lemma_prefix_chain(
    tokens: Seq<Token>,
    signs: Seq<char>,
    a: char,
    from: nat,
    min_bp: u8,
)
    requires
        is_prefix_chain(tokens, signs, a),
        from <= signs.len(),
    ensures
        parse_expr(tokens, from, min_bp) == (Outcome::Parsed {
            tree: nested_prefixes(signs, a, from),
            used: (tokens.len() - from) as nat,
        }),
    decreases signs.len() - from,
{
    if from < signs.len() {
        assert(tokens[from as int] == Token::Op(signs[from as int]));
        lemma_prefix_chain(tokens, signs, a, from + 1, prefix_power(signs[from as int])->0);
    }
}

/// `tokens` is the atom `a` followed by each atom of `indices` in brackets.
pub open spec fn is_index_chain(tokens: Seq<Token>, a: char, indices: Seq<char>) -> bool {
    &&& tokens.len() == 1 + 3 * indices.len()
    &&& tokens[0] == Token::Atom(a)
    &&& forall|i: int|
        0 <= i < indices.len() ==> {
            &&& tokens[1 + 3 * i] == Token::Op('[')
            &&& #[trigger] tokens[2 + 3 * i] == Token::Atom(indices[i])
            &&& tokens[3 + 3 * i] == Token::Op(']')
        }
}

/// The atom `a` indexed by `indices[..upto]` in turn.
pub open spec fn nested_indices(a: char, indices: Seq<char>, upto: nat) -> Tree
    decreases upto,
{
    if upto == 0 {
        Tree::Leaf(a)
    } else {
        Tree::Node(
            '[',
            seq![
                nested_indices(a, indices, (upto - 1) as nat),
                Tree::Leaf(indices[upto - 1]),
            ],
        )
    }
}

/// The brackets from the one at `done` on index what was built before them.
proof fn lemma_index_chain_rest(
    tokens: Seq<Token>,
    a: char,
    indices: Seq<char>,
    done: nat,
    min_bp: u8,
)
    requires
        is_index_chain(tokens, a, indices),
        done <= indices.len(),
        min_bp <= 11,
    ensures
        parse_rest(tokens, 1 + 3 * done, nested_indices(a, indices, done), min_bp)
            == (Outcome::Parsed {
            tree: nested_indices(a, indices, indices.len()),
            used: (3 * (indices.len() - done)) as nat,
        }),
    decreases indices.len() - done,
{
    if done < indices.len() {
        let at = 1 + 3 * done;
        assert(tokens[2 + 3 * (done as int)] == Token::Atom(indices[done as int]));
        assert(token_at(tokens, at) == Token::Op('['));
        assert(token_at(tokens, at + 1) == Token::Atom(indices[done as int]));
        assert(token_at(tokens, at + 2) == Token::Op(']'));
        let index = Tree::Leaf(indices[done as int]);
        assert(parse_primary(tokens, at + 1) == (Outcome::Parsed { tree: index, used: 1 }));
        assert(parse_rest(tokens, at + 2, index, 0) == (Outcome::Parsed {
            tree: index,
            used: 0,
        }));
        assert(parse_expr(tokens, at + 1, 0) == (Outcome::Parsed { tree: index, used: 1 }));
        assert(closed_by(tokens, at + 1, parse_expr(tokens, at + 1, 0), ']')
            == (Outcome::Parsed { tree: index, used: 2 }));
        assert(parse_postfix(tokens, at + 1, nested_indices(a, indices, done), '[')
            == (Outcome::Parsed { tree: nested_indices(a, indices, done + 1), used: 2 }));
        lemma_index_chain_rest(tokens, a, indices, done + 1, min_bp);
    }
}

/// An atom followed by a run of bracketed atoms parses as the indexings nested
/// to the left: each bracket indexes what stands before it.
pub proof fn lemma_index_chain(tokens: Seq<Token>, a: char, indices: Seq<char>, min_bp: u8)
    requires
        is_index_chain(tokens, a, indices),
        min_bp <= 11,
    ensures
        parse_expr(tokens, 0, min_bp) == (Outcome::Parsed {
            tree: nested_indices(a, indices, indices.len()),
            used: tokens.len(),
        }),
{
    lemma_index_chain_rest(tokens, a, indices, 0, min_bp);
}

/// `tokens` is the atoms `atoms` with the infix operators `ops` between them,
/// all of the left power `left_bp` and the right power `right_bp`.
pub open spec fn is_infix_chain(
    tokens: Seq<Token>,
    atoms: Seq<char>,
    ops: Seq<char>,
    left_bp: u8,
    right_bp: u8,
) -> bool {
    &&& atoms.len() == ops.len() + 1
    &&& tokens.len() == atoms.len() + ops.len()
    &&& forall|i: int| 0 <= i < atoms.len() ==> #[trigger] tokens[2 * i] == Token::Atom(atoms[i])
    &&& forall|i: int|
        0 <= i < ops.len() ==> {
            &&& #[trigger] tokens[2 * i + 1] == Token::Op(ops[i])
            &&& infix_power(ops[i]) == Some((left_bp, right_bp))
            &&& ops[i] != '?'
        }
}

/// The chain from the atom at `from` on, nested to the right.
pub open spec fn nested_right(atoms: Seq<char>, ops: Seq<char>, from: nat) -> Tree
    decreases ops.len() - from,
{
    if from >= ops.len() {
        Tree::Leaf(atoms[from as int])
    } else {
        Tree::Node(
            ops[from as int],
            seq![Tree::Leaf(atoms[from as int]), nested_right(atoms, ops, from + 1)],
        )
    }
}

/// The chain up to the atom at `upto`, nested to the left.
pub open spec fn nested_left(atoms: Seq<char>, ops: Seq<char>, upto: nat) -> Tree
    decreases upto,
{
    if upto == 0 {
        Tree::Leaf(atoms[0])
    } else {
        Tree::Node(
            ops[upto - 1],
            seq![nested_left(atoms, ops, (upto - 1) as nat), Tree::Leaf(atoms[upto as int])],
        )
    }
}

/// A chain of infix operators of one tier whose left power is above its
/// right power parses, from every atom on, as the operations nested to the
/// right.
pub proof fn lemma_chain_groups_right(
    tokens: Seq<Token>,
    atoms: Seq<char>,
    ops: Seq<char>,
    left_bp: u8,
    right_bp: u8,
    from: nat,
    min_bp: u8,
)
    requires
        is_infix_chain(tokens, atoms, ops, left_bp, right_bp),
        right_bp < left_bp,
        min_bp <= left_bp,
        from <= ops.len(),
    ensures
        parse_expr(tokens, 2 * from, min_bp) == (Outcome::Parsed {
            tree: nested_right(atoms, ops, from),
            used: (tokens.len() - 2 * from) as nat,
        }),
    decreases ops.len() - from,
{
    let at = 2 * from;
    let leaf = Tree::Leaf(atoms[from as int]);
    assert(tokens[2 * (from as int)] == Token::Atom(atoms[from as int]));
    assert(parse_primary(tokens, at) == (Outcome::Parsed { tree: leaf, used: 1 }));
    if from < ops.len() {
        assert(tokens[2 * (from as int) + 1] == Token::Op(ops[from as int]));
        assert(token_at(tokens, at + 1) == Token::Op(ops[from as int]));
        lemma_chain_groups_right(tokens, atoms, ops, left_bp, right_bp, from + 1, right_bp);
        let rhs = nested_right(atoms, ops, from + 1);
        let used = (tokens.len() - 2 * (from + 1)) as nat;
        assert(parse_expr(tokens, at + 2, right_bp) == (Outcome::Parsed { tree: rhs, used }));
        let node = Tree::Node(ops[from as int], seq![leaf, rhs]);
        assert(parse_infix(tokens, at + 2, leaf, ops[from as int], right_bp)
            == (Outcome::Parsed { tree: node, used }));
        assert(token_at(tokens, at + 2 + used) == Token::Eof);
        assert(parse_rest(tokens, at + 2 + used, node, min_bp) == (Outcome::Parsed {
            tree: node,
            used: 0,
        }));
    } else {
        assert(token_at(tokens, at + 1) == Token::Eof);
    }
}

/// The operators from the one at `done` on take what was built before them
/// as their left operand.
proof fn lemma_chain_rest_groups_left(
    tokens: Seq<Token>,
    atoms: Seq<char>,
    ops: Seq<char>,
    left_bp: u8,
    right_bp: u8,
    done: nat,
    min_bp: u8,
)
    requires
        is_infix_chain(tokens, atoms, ops, left_bp, right_bp),
        left_bp < right_bp,
        min_bp <= left_bp,
        done <= ops.len(),
    ensures
        parse_rest(tokens, 2 * done + 1, nested_left(atoms, ops, done), min_bp)
            == (Outcome::Parsed {
            tree: nested_left(atoms, ops, ops.len()),
            used: (2 * (ops.len() - done)) as nat,
        }),
    decreases ops.len() - done,
{
    let at = 2 * done + 1;
    if done < ops.len() {
        let next: int = done as int + 1;
        let op = ops[done as int];
        let leaf = Tree::Leaf(atoms[next]);
        assert(tokens[2 * (done as int) + 1] == Token::Op(op));
        assert(tokens[2 * next] == Token::Atom(atoms[next]));
        assert(token_at(tokens, at) == Token::Op(op));
        assert(token_at(tokens, at + 1) == Token::Atom(atoms[next]));
        assert(parse_primary(tokens, at + 1) == (Outcome::Parsed { tree: leaf, used: 1 }));
        if next < ops.len() {
            assert(tokens[2 * next + 1] == Token::Op(ops[next]));
            assert(token_at(tokens, at + 2) == Token::Op(ops[next]));
        } else {
            assert(token_at(tokens, at + 2) == Token::Eof);
        }
        assert(parse_rest(tokens, at + 2, leaf, right_bp) == (Outcome::Parsed {
            tree: leaf,
            used: 0,
        }));
        assert(parse_expr(tokens, at + 1, right_bp) == (Outcome::Parsed { tree: leaf, used: 1 }));
        assert(parse_infix(tokens, at + 1, nested_left(atoms, ops, done), op, right_bp)
            == (Outcome::Parsed { tree: nested_left(atoms, ops, done + 1), used: 1 }));
        lemma_chain_rest_groups_left(tokens, atoms, ops, left_bp, right_bp, done + 1, min_bp);
    } else {
        assert(token_at(tokens, at) == Token::Eof);
    }
}

/// A chain of infix operators of one tier whose left power is below its
/// right power parses as the operations nested to the left.
pub proof fn lemma_chain_groups_left(
    tokens: Seq<Token>,
    atoms: Seq<char>,
    ops: Seq<char>,
    left_bp: u8,
    right_bp: u8,
    min_bp: u8,
)
    requires
        is_infix_chain(tokens, atoms, ops, left_bp, right_bp),
        left_bp < right_bp,
        min_bp <= left_bp,
    ensures
        parse_expr(tokens, 0, min_bp) == (Outcome::Parsed {
            tree: nested_left(atoms, ops, ops.len()),
            used: tokens.len(),
        }),
{
    assert(tokens[2 * 0int] == Token::Atom(atoms[0]));
    lemma_chain_rest_groups_left(tokens, atoms, ops, left_bp, right_bp, 0, min_bp);
}

/// `tokens` is a chain of conditionals over atoms: for each `i` the atom
/// `conditions[i]`, a `?`, the atom `choices[i]` and a `:`, and at the end the
/// atom `last`.
pub open spec fn is_conditional_chain(
    tokens: Seq<Token>,
    conditions: Seq<char>,
    choices: Seq<char>,
    last: char,
) -> bool {
    &&& conditions.len() == choices.len()
    &&& tokens.len() == 4 * conditions.len() + 1
    &&& forall|i: int|
        0 <= i < conditions.len() ==> {
            &&& #[trigger] tokens[4 * i] == Token::Atom(conditions[i])
            &&& tokens[4 * i + 1] == Token::Op('?')
            &&& tokens[4 * i + 2] == Token::Atom(choices[i])
            &&& tokens[4 * i + 3] == Token::Op(':')
        }
    &&& tokens[4 * (conditions.len() as int)] == Token::Atom(last)
}

/// The conditionals from the one at `from` on, each the last operand of the
/// one before it.
pub open spec fn nested_conditionals(
    conditions: Seq<char>,
    choices: Seq<char>,
    last: char,
    from: nat,
) -> Tree
    decreases conditions.len() - from,
{
    if from >= conditions.len() {
        Tree::Leaf(last)
    } else {
        Tree::Node(
            '?',
            seq![
                Tree::Leaf(conditions[from as int]),
                Tree::Leaf(choices[from as int]),
                nested_conditionals(conditions, choices, last, from + 1),
            ],
        )
    }
}

/// A chain of conditionals parses, from every condition on, as the
/// conditionals nested to the right: each later conditional is the last
/// operand of the one before it.
pub proof fn lemma_conditional_chain(
    tokens: Seq<Token>,
    conditions: Seq<char>,
    choices: Seq<char>,
    last: char,
    from: nat,
    min_bp: u8,
)
    requires
        is_conditional_chain(tokens, conditions, choices, last),
        from <= conditions.len(),
        min_bp <= 4,
    ensures
        parse_expr(tokens, 4 * from, min_bp) == (Outcome::Parsed {
            tree: nested_conditionals(conditions, choices, last, from),
            used: (tokens.len() - 4 * from) as nat,
        }),
    decreases conditions.len() - from,
{
    let at = 4 * from;
    if from < conditions.len() {
        let first = Tree::Leaf(conditions[from as int]);
        let mid = Tree::Leaf(choices[from as int]);
        assert(tokens[4 * (from as int)] == Token::Atom(conditions[from as int]));
        assert(token_at(tokens, at) == Token::Atom(conditions[from as int]));
        assert(token_at(tokens, at + 1) == Token::Op('?'));
        assert(token_at(tokens, at + 2) == Token::Atom(choices[from as int]));
        assert(token_at(tokens, at + 3) == Token::Op(':'));
        assert(parse_primary(tokens, at) == (Outcome::Parsed { tree: first, used: 1 }));
        assert(parse_primary(tokens, at + 2) == (Outcome::Parsed { tree: mid, used: 1 }));
        assert(parse_rest(tokens, at + 3, mid, 0) == (Outcome::Parsed { tree: mid, used: 0 }));
        assert(parse_expr(tokens, at + 2, 0) == (Outcome::Parsed { tree: mid, used: 1 }));
        assert(closed_by(tokens, at + 2, parse_expr(tokens, at + 2, 0), ':')
            == (Outcome::Parsed { tree: mid, used: 2 }));
        lemma_conditional_chain(tokens, conditions, choices, last, from + 1, 3);
        let rhs = nested_conditionals(conditions, choices, last, from + 1);
        let used = (tokens.len() - 4 * (from + 1)) as nat;
        assert(parse_expr(tokens, at + 4, 3) == (Outcome::Parsed { tree: rhs, used }));
        let node = Tree::Node('?', seq![first, mid, rhs]);
        assert(parse_infix(tokens, at + 2, first, '?', 3) == (Outcome::Parsed {
            tree: node,
            used: 2 + used,
        }));
        assert(token_at(tokens, at + 4 + used) == Token::Eof);
        assert(parse_rest(tokens, at + 4 + used, node, min_bp) == (Outcome::Parsed {
            tree: node,
            used: 0,
        }));
    } else {
        assert(token_at(tokens, at) == Token::Atom(last));
        assert(token_at(tokens, at + 1) == Token::Eof);
    }
}

} // verus!
