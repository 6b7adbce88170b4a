//! The canonical text determines the tree.
//!
//! No two trees have the same text, as long as no leaf is an opening
//! parenthesis: reading a text back gives the tree that was written.

use vstd::prelude::*;
use crate::parser::parse_expr;
use crate::shape::{lemma_expr_well_formed, made_of};
use crate::token::{lemma_tokenize_proper, proper, tokenize, Token};
use crate::tree::{render, render_each, Tree};

verus! {

/// No leaf of `tree` is an opening parenthesis.
pub open spec fn plain_leaves(tree: Tree) -> bool
    decreases tree,
{
    match tree {
        Tree::Leaf(c) => c != '(',
        Tree::Node(_, rest) => forall|i: int| 0 <= i < rest.len() ==> plain_leaves(#[trigger] rest[i]),
    }
}

/// The text of a non-empty list of operands starts with a space and the text
/// of the first operand.
pub proof fn lemma_render_each_front(rest: Seq<Tree>)
    requires
        rest.len() > 0,
    ensures
        render_each(rest) == seq![' '] + render(rest[0]) + render_each(rest.drop_first()),
    decreases rest.len(),
{
    if rest.len() == 1 {
        assert(rest.drop_last() =~= Seq::<Tree>::empty());
        assert(rest.drop_first() =~= Seq::<Tree>::empty());
        assert(render_each(rest.drop_last()) =~= Seq::<char>::empty());
        assert(render_each(rest) =~= seq![' '] + render(rest[0]) + render_each(rest.drop_first()));
    } else {
        let front = rest.drop_last();
        let back = rest.drop_first();
        lemma_render_each_front(front);
        assert(front.drop_first() =~= back.drop_last());
        assert(back.last() == rest.last());
        assert(front[0] == rest[0]);
        assert(render_each(back) == render_each(back.drop_last()) + seq![' '] + render(
            back.last(),
        ));
        assert(render_each(rest) =~= seq![' '] + render(rest[0]) + render_each(back));
    }
}

/// A text starts with the text of at most one tree: where the text of `x`
/// followed by `after_x` is the text of `y` followed by `after_y`, the trees
/// are equal and so is what follows them.
pub proof fn lemma_render_prefix_free(x: Tree, y: Tree, after_x: Seq<char>, after_y: Seq<char>)
    requires
        plain_leaves(x),
        plain_leaves(y),
        render(x) + after_x == render(y) + after_y,
    ensures
        x == y,
        after_x == after_y,
    decreases x,
{
    let text_x = render(x) + after_x;
    let text_y = render(y) + after_y;
    assert(text_x[0] == render(x)[0]);
    assert(text_y[0] == render(y)[0]);
    match x {
        Tree::Leaf(c) => {
            assert(render(x)[0] == c);
            match y {
                Tree::Leaf(d) => {
                    assert(after_x =~= text_x.skip(1));
                    assert(after_y =~= text_y.skip(1));
                },
                Tree::Node(oq, ys) => {
                    assert(render(y)[0] == '(');
                },
            }
        },
        Tree::Node(op, xs) => {
            assert(render(x)[0] == '(');
            match y {
                Tree::Leaf(d) => {},
                Tree::Node(oq, ys) => {
                    assert(text_x[1] == render(x)[1]);
                    assert(text_y[1] == render(y)[1]);
                    assert(render(x)[1] == op);
                    assert(render(y)[1] == oq);
                    assert(render_each(xs) + seq![')'] + after_x =~= text_x.skip(2));
                    assert(render_each(ys) + seq![')'] + after_y =~= text_y.skip(2));
                    lemma_render_each_prefix_free(xs, ys, after_x, after_y);
                },
            }
        },
    }
}

/// A text starts with the text of at most one list of operands and its
/// closing parenthesis.
pub proof fn lemma_render_each_prefix_free(
    xs: Seq<Tree>,
    ys: Seq<Tree>,
    after_x: Seq<char>,
    after_y: Seq<char>,
)
    requires
        forall|i: int| 0 <= i < xs.len() ==> plain_leaves(#[trigger] xs[i]),
        forall|i: int| 0 <= i < ys.len() ==> plain_leaves(#[trigger] ys[i]),
        render_each(xs) + seq![')'] + after_x == render_each(ys) + seq![')'] + after_y,
    ensures
        xs == ys,
        after_x == after_y,
    decreases xs,
{
    let text_x = render_each(xs) + seq![')'] + after_x;
    let text_y = render_each(ys) + seq![')'] + after_y;
    if xs.len() > 0 {
        lemma_render_each_front(xs);
    }
    if ys.len() > 0 {
        lemma_render_each_front(ys);
    }
    assert(text_x[0] == if xs.len() > 0 {
        ' '
    } else {
        ')'
    });
    assert(text_y[0] == if ys.len() > 0 {
        ' '
    } else {
        ')'
    });
    if xs.len() == 0 {
        assert(after_x =~= text_x.skip(1));
        assert(after_y =~= text_y.skip(1));
        assert(xs =~= ys);
    } else {
        let rest_x = render_each(xs.drop_first()) + seq![')'] + after_x;
        let rest_y = render_each(ys.drop_first()) + seq![')'] + after_y;
        assert(render(xs[0]) + rest_x =~= text_x.skip(1));
        assert(render(ys[0]) + rest_y =~= text_y.skip(1));
        lemma_render_prefix_free(xs[0], ys[0], rest_x, rest_y);
        assert forall|i: int| 0 <= i < xs.drop_first().len() implies plain_leaves(
            #[trigger] xs.drop_first()[i],
        ) by {
            assert(xs.drop_first()[i] == xs[i + 1]);
        }
        assert forall|i: int| 0 <= i < ys.drop_first().len() implies plain_leaves(
            #[trigger] ys.drop_first()[i],
        ) by {
            assert(ys.drop_first()[i] == ys[i + 1]);
        }
        lemma_render_each_prefix_free(xs.drop_first(), ys.drop_first(), after_x, after_y);
        assert(xs =~= seq![xs[0]] + xs.drop_first());
        assert(ys =~= seq![ys[0]] + ys.drop_first());
    }
}

/// Two trees with the same canonical text are the same tree.
pub proof fn lemma_text_determines_tree(x: Tree, y: Tree)
    requires
        plain_leaves(x),
        plain_leaves(y),
        render(x) == render(y),
    ensures
        x == y,
{
    assert(render(x) + Seq::<char>::empty() =~= render(y) + Seq::<char>::empty());
    lemma_render_prefix_free(x, y, Seq::empty(), Seq::empty());
}

/// A tree made of proper tokens has no parenthesis as a leaf.
pub proof fn lemma_proper_leaves(tree: Tree, tokens: Seq<Token>)
    requires
        proper(tokens),
        made_of(tree, tokens),
    ensures
        plain_leaves(tree),
    decreases tree,
{
    match tree {
        Tree::Leaf(c) => {
            let i = choose|i: int| 0 <= i < tokens.len() && tokens[i] == Token::Atom(c);
            assert(tokens[i] == Token::Atom(c));
        },
        Tree::Node(_, rest) => {
            assert forall|i: int| 0 <= i < rest.len() implies plain_leaves(#[trigger] rest[i]) by {
                lemma_proper_leaves(rest[i], tokens);
            }
        },
    }
}

/// Where two texts parse to trees with the same canonical text, they parse to
/// the same tree: the canonical text keeps the whole shape of what was parsed.
pub proof fn lemma_canonical_text_keeps_shape(a: Seq<char>, b: Seq<char>)
    requires
        parse_expr(tokenize(a), 0, 0) is Parsed,
        parse_expr(tokenize(b), 0, 0) is Parsed,
        render(parse_expr(tokenize(a), 0, 0)->tree) == render(parse_expr(tokenize(b), 0, 0)->tree),
    ensures
        parse_expr(tokenize(a), 0, 0)->tree == parse_expr(tokenize(b), 0, 0)->tree,
{
    lemma_tokenize_proper(a);
    lemma_tokenize_proper(b);
    lemma_expr_well_formed(tokenize(a), 0, 0);
    lemma_expr_well_formed(tokenize(b), 0, 0);
    let x = parse_expr(tokenize(a), 0, 0)->tree;
    let y = parse_expr(tokenize(b), 0, 0)->tree;
    lemma_proper_leaves(x, tokenize(a));
    lemma_proper_leaves(y, tokenize(b));
    lemma_text_determines_tree(x, y);
}

} // verus!
