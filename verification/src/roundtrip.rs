//! A tree that respects the binding powers parses back to itself.
//!
//! Together with what holds of every parsed tree, this says which tree a
//! parse gives without running it: the one tree that respects the binding
//! powers and has the input as its tokens.

use vstd::prelude::*;
use crate::account::{
    is_parenthesis,
    lemma_expr_accounts,
    plain_tokens,
    unparse,
};
use crate::parser::{closed_by, parse_expr, parse_infix, parse_postfix, parse_rest, Outcome};
use crate::power::{infix_right, prefix_power};
use crate::shape::{
    fits_before,
    form,
    left_edge_at_least,
    left_to_caller,
    lemma_expr_respects_powers,
    lemma_left_edge_from_zero,
    no_opening_parenthesis,
    respects_powers,
    Form,
};
use crate::token::{token_at, Token};
use crate::tree::Tree;

verus! {

/// The tokens of `tokens` from `from` up to `to`.
pub open spec fn window(tokens: Seq<Token>, from: nat, to: nat) -> Seq<Token>
    recommends
        from <= to <= tokens.len(),
{
    tokens.subrange(from as int, to as int)
}

/// Whether `tokens` holds the tokens `part` from `pos` on.
pub open spec fn holds_at(tokens: Seq<Token>, pos: nat, part: Seq<Token>) -> bool {
    &&& pos + part.len() <= tokens.len()
    &&& window(tokens, pos, pos + part.len()) == part
}

/// Where `tokens` holds `first + second` from `pos` on, it holds `first` there
/// and `second` behind it.
pub proof fn lemma_holds_parts(
    tokens: Seq<Token>,
    pos: nat,
    first: Seq<Token>,
    second: Seq<Token>,
)
    requires
        holds_at(tokens, pos, first + second),
    ensures
        holds_at(tokens, pos, first),
        holds_at(tokens, pos + first.len(), second),
{
    let whole = first + second;
    assert(window(tokens, pos, pos + first.len()) =~= whole.subrange(0, first.len() as int));
    assert(whole.subrange(0, first.len() as int) =~= first);
    assert(window(tokens, pos + first.len(), pos + first.len() + second.len())
        =~= whole.subrange(first.len() as int, whole.len() as int));
    assert(whole.subrange(first.len() as int, whole.len() as int) =~= second);
}

/// Where `tokens` holds the one token `token` at `pos`, it is the token there.
pub proof fn lemma_holds_one(tokens: Seq<Token>, pos: nat, token: Token)
    requires
        holds_at(tokens, pos, seq![token]),
    ensures
        token_at(tokens, pos) == token,
{
    assert(window(tokens, pos, pos + 1)[0] == tokens[pos as int]);
}

/// Whether the parse of `tree` can be asked for at `pos`: the tree respects
/// the binding powers and has on its left edge only operators of at least
/// `min_bp`, its tokens stand at `pos`, and the token behind them is no
/// atom and can take the tree as its left operand.
pub open spec fn stands_at(tokens: Seq<Token>, pos: nat, tree: Tree, min_bp: u8) -> bool {
    &&& respects_powers(tree)
    &&& left_edge_at_least(tree, min_bp)
    &&& holds_at(tokens, pos, unparse(tree))
    &&& !(token_at(tokens, pos + unparse(tree).len()) is Atom)
    &&& fits_before(tree, token_at(tokens, pos + unparse(tree).len()))
}

/// Whether the parse from `pos` on comes to `tree` just behind its tokens.
pub open spec fn arrives(tokens: Seq<Token>, pos: nat, tree: Tree, min_bp: u8) -> bool {
    parse_expr(tokens, pos, min_bp) == parse_rest(
        tokens,
        pos + unparse(tree).len(),
        tree,
        min_bp,
    ).after(unparse(tree).len())
}

/// Whether `tree` is a node of the form `of`.
pub open spec fn has_form(tree: Tree, of: Form) -> bool {
    match tree {
        Tree::Leaf(_) => false,
        Tree::Node(op, rest) => form(op, rest.len()) == of,
    }
}

/// The parse of the tokens of a tree arrives at the tree: what follows is
/// decided by the operators behind it.
pub proof fn lemma_arrives_at(tokens: Seq<Token>, pos: nat, tree: Tree, min_bp: u8)
    requires
        stands_at(tokens, pos, tree, min_bp),
    ensures
        arrives(tokens, pos, tree, min_bp),
    decreases tree, 1nat,
{
    match tree {
        Tree::Leaf(c) => {
            lemma_holds_one(tokens, pos, Token::Atom(c));
        },
        Tree::Node(op, rest) => {
            match form(op, rest.len()) {
                Form::Prefix => lemma_arrives_at_prefix(tokens, pos, tree, min_bp),
                Form::Postfix => lemma_arrives_at_postfix(tokens, pos, tree, min_bp),
                Form::Index => lemma_arrives_at_index(tokens, pos, tree, min_bp),
                Form::Infix => lemma_arrives_at_infix(tokens, pos, tree, min_bp),
                Form::Conditional => lemma_arrives_at_conditional(tokens, pos, tree, min_bp),
                Form::Malformed => {},
            }
        },
    }
}

/// The parse arrives at a prefix operator over its operand.
proof fn lemma_arrives_at_prefix(tokens: Seq<Token>, pos: nat, tree: Tree, min_bp: u8)
    requires
        stands_at(tokens, pos, tree, min_bp),
        has_form(tree, Form::Prefix),
    ensures
        arrives(tokens, pos, tree, min_bp),
    decreases tree, 0nat,
{
    let op = tree->Node_0;
    let rest = tree->Node_1;
    let operand = rest[0];
    lemma_holds_parts(tokens, pos, seq![Token::Op(op)], unparse(operand));
    lemma_holds_one(tokens, pos, Token::Op(op));
    lemma_parses_back(tokens, pos + 1, operand, prefix_power(op)->0);
    assert(rest =~= seq![operand]);
}

/// The parse arrives at a postfix operator over what stands before it.
proof fn lemma_arrives_at_postfix(tokens: Seq<Token>, pos: nat, tree: Tree, min_bp: u8)
    requires
        stands_at(tokens, pos, tree, min_bp),
        has_form(tree, Form::Postfix),
    ensures
        arrives(tokens, pos, tree, min_bp),
    decreases tree, 0nat,
{
    let op = tree->Node_0;
    let rest = tree->Node_1;
    let lhs = rest[0];
    let at = pos + unparse(lhs).len();
    lemma_holds_parts(tokens, pos, unparse(lhs), seq![Token::Op(op)]);
    lemma_holds_one(tokens, at, Token::Op(op));
    lemma_arrives_at(tokens, pos, lhs, min_bp);
    assert(rest =~= seq![lhs]);
    assert(parse_postfix(tokens, at + 1, lhs, op) == (Outcome::Parsed { tree, used: 0 }));
}

/// The parse arrives at an indexing of what stands before the bracket.
proof fn lemma_arrives_at_index(tokens: Seq<Token>, pos: nat, tree: Tree, min_bp: u8)
    requires
        stands_at(tokens, pos, tree, min_bp),
        has_form(tree, Form::Index),
    ensures
        arrives(tokens, pos, tree, min_bp),
    decreases tree, 0nat,
{
    let op = tree->Node_0;
    let rest = tree->Node_1;
    let lhs = rest[0];
    let index = rest[1];
    let at = pos + unparse(lhs).len();
    let end = at + 1 + unparse(index).len();
    lemma_holds_parts(
        tokens,
        pos,
        unparse(lhs) + seq![Token::Op('[')] + unparse(index),
        seq![Token::Op(']')],
    );
    lemma_holds_parts(tokens, pos, unparse(lhs) + seq![Token::Op('[')], unparse(index));
    lemma_holds_parts(tokens, pos, unparse(lhs), seq![Token::Op('[')]);
    lemma_holds_one(tokens, at, Token::Op('['));
    lemma_holds_one(tokens, end, Token::Op(']'));
    lemma_arrives_at(tokens, pos, lhs, min_bp);
    lemma_left_edge_from_zero(index);
    lemma_parses_back(tokens, at + 1, index, 0);
    assert(rest =~= seq![lhs, index]);
    assert(parse_postfix(tokens, at + 1, lhs, op) == (Outcome::Parsed {
        tree,
        used: unparse(index).len() + 1,
    }));
}

/// The parse arrives at an infix operator over its two operands.
proof fn lemma_arrives_at_infix(tokens: Seq<Token>, pos: nat, tree: Tree, min_bp: u8)
    requires
        stands_at(tokens, pos, tree, min_bp),
        has_form(tree, Form::Infix),
    ensures
        arrives(tokens, pos, tree, min_bp),
    decreases tree, 0nat,
{
    let op = tree->Node_0;
    let rest = tree->Node_1;
    let lhs = rest[0];
    let rhs = rest[1];
    let at = pos + unparse(lhs).len();
    lemma_holds_parts(tokens, pos, unparse(lhs) + seq![Token::Op(op)], unparse(rhs));
    lemma_holds_parts(tokens, pos, unparse(lhs), seq![Token::Op(op)]);
    lemma_holds_one(tokens, at, Token::Op(op));
    lemma_arrives_at(tokens, pos, lhs, min_bp);
    lemma_parses_back(tokens, at + 1, rhs, infix_right(op));
    assert(rest =~= seq![lhs, rhs]);
    assert(parse_infix(tokens, at + 1, lhs, op, infix_right(op)) == (Outcome::Parsed {
        tree,
        used: unparse(rhs).len(),
    }));
}

/// The parse arrives at a conditional over its three operands.
proof fn lemma_arrives_at_conditional(tokens: Seq<Token>, pos: nat, tree: Tree, min_bp: u8)
    requires
        stands_at(tokens, pos, tree, min_bp),
        has_form(tree, Form::Conditional),
    ensures
        arrives(tokens, pos, tree, min_bp),
    decreases tree, 0nat,
{
    let op = tree->Node_0;
    let rest = tree->Node_1;
    let lhs = rest[0];
    let mid = rest[1];
    let rhs = rest[2];
    let at = pos + unparse(lhs).len();
    let colon = at + 1 + unparse(mid).len();
    lemma_holds_parts(
        tokens,
        pos,
        unparse(lhs) + seq![Token::Op('?')] + unparse(mid) + seq![Token::Op(':')],
        unparse(rhs),
    );
    lemma_holds_parts(
        tokens,
        pos,
        unparse(lhs) + seq![Token::Op('?')] + unparse(mid),
        seq![Token::Op(':')],
    );
    lemma_holds_parts(tokens, pos, unparse(lhs) + seq![Token::Op('?')], unparse(mid));
    lemma_holds_parts(tokens, pos, unparse(lhs), seq![Token::Op('?')]);
    lemma_holds_one(tokens, at, Token::Op('?'));
    lemma_holds_one(tokens, colon, Token::Op(':'));
    lemma_arrives_at(tokens, pos, lhs, min_bp);
    lemma_left_edge_from_zero(mid);
    lemma_parses_back(tokens, at + 1, mid, 0);
    lemma_parses_back(tokens, colon + 1, rhs, infix_right(op));
    assert(rest =~= seq![lhs, mid, rhs]);
    assert(closed_by(tokens, at + 1, parse_expr(tokens, at + 1, 0), ':') == (Outcome::Parsed {
        tree: mid,
        used: unparse(mid).len() + 1,
    }));
    assert(parse_infix(tokens, at + 1, lhs, op, infix_right(op)) == (Outcome::Parsed {
        tree,
        used: unparse(mid).len() + 1 + unparse(rhs).len(),
    }));
}

/// Where the tokens of a tree that respects the binding powers stand at `pos`,
/// and the token behind them binds more weakly than `min_bp` and than the right
/// edge of the tree, the parse under `min_bp` gives that tree and consumes
/// those tokens.
pub proof fn lemma_parses_back(tokens: Seq<Token>, pos: nat, tree: Tree, min_bp: u8)
    requires
        respects_powers(tree),
        left_edge_at_least(tree, min_bp),
        holds_at(tokens, pos, unparse(tree)),
        !(token_at(tokens, pos + unparse(tree).len()) is Atom),
        left_to_caller(tree, min_bp, token_at(tokens, pos + unparse(tree).len())),
    ensures
        parse_expr(tokens, pos, min_bp) == (Outcome::Parsed { tree, used: unparse(tree).len() }),
    decreases tree, 2nat,
{
    lemma_arrives_at(tokens, pos, tree, min_bp);
}

/// Written back as tokens, a tree that respects the binding powers parses to
/// itself.
pub proof fn lemma_round_trip(tree: Tree)
    requires
        respects_powers(tree),
    ensures
        parse_expr(unparse(tree), 0, 0) == (Outcome::Parsed { tree, used: unparse(tree).len() }),
{
    let tokens = unparse(tree);
    lemma_left_edge_from_zero(tree);
    assert(window(tokens, 0, tokens.len()) =~= tokens);
    lemma_parses_back(tokens, 0, tree, 0);
}

/// Two trees that respect the binding powers and have the same tokens are the
/// same tree.
pub proof fn lemma_one_tree(x: Tree, y: Tree)
    requires
        respects_powers(x),
        respects_powers(y),
        unparse(x) == unparse(y),
    ensures
        x == y,
{
    lemma_round_trip(x);
    lemma_round_trip(y);
}

/// The tree of a parse of tokens without an opening parenthesis, written back
/// as tokens, parses to itself.
pub proof fn lemma_parse_again(tokens: Seq<Token>, pos: nat, min_bp: u8)
    requires
        no_opening_parenthesis(tokens),
    ensures
        match parse_expr(tokens, pos, min_bp) {
            Outcome::Parsed { tree, used } => parse_expr(unparse(tree), 0, 0)
                == (Outcome::Parsed { tree, used: unparse(tree).len() }),
            Outcome::Failed { error, used } => true,
        },
{
    lemma_expr_respects_powers(tokens, pos, min_bp);
    if let Outcome::Parsed { tree, used } = parse_expr(tokens, pos, min_bp) {
        lemma_round_trip(tree);
    }
}

/// No token of `tokens` is a parenthesis.
pub open spec fn no_parenthesis(tokens: Seq<Token>) -> bool {
    forall|i: int| 0 <= i < tokens.len() ==> !is_parenthesis(#[trigger] tokens[i])
}

/// Without parentheses, the plain tokens up to `to` are all the tokens up to
/// `to`.
pub proof fn lemma_plain_tokens_all(tokens: Seq<Token>, to: nat)
    requires
        no_parenthesis(tokens),
        to <= tokens.len(),
    ensures
        plain_tokens(tokens, 0, to) == window(tokens, 0, to),
    decreases to,
{
    if to > 0 {
        lemma_plain_tokens_all(tokens, (to - 1) as nat);
        assert(!is_parenthesis(tokens[to - 1]));
        assert(window(tokens, 0, to) =~= window(tokens, 0, (to - 1) as nat).push(
            tokens[to - 1],
        ));
    } else {
        assert(window(tokens, 0, to) =~= Seq::<Token>::empty());
    }
}

/// Without parentheses, a token sequence parses as a whole to a tree exactly if
/// the tree respects the binding powers and has the sequence as its tokens.
pub proof fn lemma_parse_characterised(tokens: Seq<Token>, tree: Tree)
    requires
        no_parenthesis(tokens),
    ensures
        parse_expr(tokens, 0, 0) == (Outcome::Parsed { tree, used: tokens.len() }) <==> (
        respects_powers(tree) && unparse(tree) == tokens),
{
    if parse_expr(tokens, 0, 0) == (Outcome::Parsed { tree, used: tokens.len() }) {
        lemma_expr_respects_powers(tokens, 0, 0);
        lemma_expr_accounts(tokens, 0, 0);
        lemma_plain_tokens_all(tokens, tokens.len());
        assert(window(tokens, 0, tokens.len()) =~= tokens);
    }
    if respects_powers(tree) && unparse(tree) == tokens {
        lemma_round_trip(tree);
    }
}

} // verus!
