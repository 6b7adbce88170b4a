//! The syntax tree and its canonical text.

use vstd::prelude::*;

verus! {

/// The mathematical syntax tree: a leaf, or an operator over its operands.
pub ghost enum Tree {
    Leaf(char),
    Node(char, Seq<Tree>),
}

/// The syntax tree as the parser builds it.
#[derive(Debug)]
pub enum S {
    Atom(char),
    Cons(char, Vec<S>),
}

impl View for S {
    type V = Tree;

    open spec fn view(&self) -> Tree {
        tree_of(*self)
    }
}

/// The mathematical tree that `s` stands for. The operands are taken one by
/// one, within the bounds of the list, so that the recursion is seen to end;
/// `lemma_view_cons` gives the plain form.
pub open spec fn tree_of(s: S) -> Tree
    decreases s,
{
    match s {
        S::Atom(c) => Tree::Leaf(c),
        S::Cons(op, rest) => Tree::Node(
            op,
            Seq::new(
                rest@.len(),
                |i: int|
                    if 0 <= i < rest@.len() {
                        tree_of(rest@[i])
                    } else {
                        arbitrary()
                    },
            ),
        ),
    }
}

/// The views of the trees in `rest`, in order.
pub open spec fn views(rest: Seq<S>) -> Seq<Tree> {
    Seq::new(rest.len(), |i: int| rest[i]@)
}

/// The view of an operator node is the operator over the views of its operands.
pub proof fn lemma_view_cons(op: char, rest: Vec<S>)
    ensures
        S::Cons(op, rest)@ == Tree::Node(op, views(rest@)),
{
    assert(S::Cons(op, rest)@->Node_1 =~= views(rest@));
}

/// The canonical text of a tree: a leaf is its character, a node is its
/// operator and its operands in order, each preceded by a space, in
/// parentheses.
pub open spec fn render(tree: Tree) -> Seq<char>
    decreases tree,
{
    match tree {
        Tree::Leaf(c) => seq![c],
        Tree::Node(op, rest) => seq!['(', op] + render_each(rest) + seq![')'],
    }
}

/// The texts of the trees in `rest`, in order, each preceded by a space.
pub open spec fn render_each(rest: Seq<Tree>) -> Seq<char>
    decreases rest,
{
    if rest.len() == 0 {
        Seq::empty()
    } else {
        render_each(rest.drop_last()) + seq![' '] + render(rest.last())
    }
}

/// `String::push` appends the character `ch` to the end of the string.
pub assume_specification[ String::push ](s: &mut String, ch: char)
    ensures
        final(s)@ == old(s)@.push(ch),
;

impl S {
    /// Appends the canonical text of the tree to `out`.
    fn write_to(&self, out: &mut String)
        ensures
            final(out)@ == old(out)@ + render(self@),
        decreases self,
    {
        match self {
            S::Atom(c) => {
                out.push(*c);
                assert(old(out)@.push(*c) =~= old(out)@ + render(self@));
            },
            S::Cons(op, rest) => {
                out.push('(');
                out.push(*op);
                let n: usize = rest.len();
                let mut i: usize = 0;
                while i < n
                    invariant
                        i <= n,
                        n == rest@.len(),
                        *self == S::Cons(*op, *rest),
                        out@ == old(out)@ + seq!['(', *op] + render_each(
                            views(rest@).take(i as int),
                        ),
                    decreases n - i,
                {
                    let ghost before = out@;
                    out.push(' ');
                    assert(decreases_to!(*self => self->Cons_1));
                    assert(decreases_to!(*rest => rest[i as int]));
                    rest[i].write_to(out);
                    proof {
                        let kids = views(rest@);
                        assert(kids.take(i + 1).drop_last() =~= kids.take(i as int));
                        assert(kids.take(i + 1).last() == rest@[i as int]@);
                        assert(out@ =~= before + seq![' '] + render(kids[i as int]));
                        assert(out@ =~= old(out)@ + seq!['(', *op] + render_each(
                            kids.take(i + 1),
                        ));
                    }
                    i += 1;
                }
                out.push(')');
                proof {
                    lemma_view_cons(*op, *rest);
                    assert(views(rest@).take(n as int) =~= views(rest@));
                    assert(out@ =~= old(out)@ + render(self@));
                }
            },
        }
    }

    /// The canonical text of the tree.
    pub fn to_string(&self) -> (res: String)
        ensures
            res@ == render(self@),
    {
        let mut out = String::new();
        self.write_to(&mut out);
        assert(out@ =~= render(self@));
        out
    }

    /// The node of the operator `op` over one operand.
    pub fn unary(op: char, operand: S) -> (res: S)
        ensures
            res@ == Tree::Node(op, seq![operand@]),
    {
        let rest: Vec<S> = vec![operand];
        let res = S::Cons(op, rest);
        assert(res@->Node_1 =~= seq![operand@]);
        res
    }

    /// The node of the operator `op` over two operands.
    pub fn binary(op: char, left: S, right: S) -> (res: S)
        ensures
            res@ == Tree::Node(op, seq![left@, right@]),
    {
        let rest: Vec<S> = vec![left, right];
        let res = S::Cons(op, rest);
        assert(res@->Node_1 =~= seq![left@, right@]);
        res
    }

    /// The node of the operator `op` over three operands.
    pub fn ternary(op: char, first: S, second: S, third: S) -> (res: S)
        ensures
            res@ == Tree::Node(op, seq![first@, second@, third@]),
    {
        let rest: Vec<S> = vec![first, second, third];
        let res = S::Cons(op, rest);
        assert(res@->Node_1 =~= seq![first@, second@, third@]);
        res
    }
}

} // verus!
