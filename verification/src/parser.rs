//! The parser: from a token stream to a syntax tree.
//!
//! `parse_expr` is the mathematical definition of the parse that starts at a
//! position of a token sequence under a given minimum binding power.
//! `expr_bp` computes it on a token stream, `expr` on a text.

use vstd::prelude::*;
use crate::power::{
    infix_binding_power,
    infix_power,
    postfix_binding_power,
    postfix_power,
    prefix_binding_power,
    prefix_power,
};
use crate::token::{token_at, tokenize, Lexer, Token};
use crate::tree::{Tree, S};

verus! {

/// Why a parse stopped without a tree.
#[derive(Debug, Clone, Copy, PartialEq, Eq, Structural)]
pub enum ParseError {
    /// A closing `)` or `]`, the `:` of a conditional, or an operator after an
    /// operand was required, and another token stood there.
    UnexpectedToken,
    /// An operand was required, and the token there can start none.
    NoPrimaryTerm,
}

/// What a parse comes to: a tree or an error, and the number of tokens that
/// were consumed on the way.
pub ghost enum Outcome {
    Parsed { tree: Tree, used: nat },
    Failed { error: ParseError, used: nat },
}

impl Outcome {
    /// The number of tokens that were consumed.
    pub open spec fn used(self) -> nat {
        match self {
            Outcome::Parsed { tree, used } => used,
            Outcome::Failed { error, used } => used,
        }
    }

    /// The same outcome after `n` more tokens were consumed before it.
    pub open spec fn after(self, n: nat) -> Outcome {
        match self {
            Outcome::Parsed { tree, used } => Outcome::Parsed { tree, used: used + n },
            Outcome::Failed { error, used } => Outcome::Failed { error, used: used + n },
        }
    }
}

/// The number of tokens from position `pos` to the end of `tokens`.
pub open spec fn tokens_left(tokens: Seq<Token>, pos: nat) -> nat {
    if pos <= tokens.len() {
        (tokens.len() - pos) as nat
    } else {
        0
    }
}

/// The outcome of the sub-parse `inner`, which must be followed by the symbol
/// `closer`: the closer is consumed with it, any other token is an error.
pub open spec fn closed_by(tokens: Seq<Token>, pos: nat, inner: Outcome, closer: char) -> Outcome {
    match inner {
        Outcome::Parsed { tree, used } => if token_at(tokens, pos + used) == Token::Op(closer) {
            Outcome::Parsed { tree, used: used + 1 }
        } else {
            Outcome::Failed { error: ParseError::UnexpectedToken, used }
        },
        failed => failed,
    }
}

/// The expression that starts at `pos` and extends over every operator that
/// binds with at least `min_bp`.
pub open spec fn parse_expr(tokens: Seq<Token>, pos: nat, min_bp: u8) -> Outcome
    decreases tokens_left(tokens, pos), 2nat,
{
    match parse_primary(tokens, pos) {
        Outcome::Parsed { tree, used } => parse_rest(tokens, pos + used, tree, min_bp).after(used),
        failed => failed,
    }
}

/// The primary term at `pos`: an atom, an expression in parentheses, or a
/// prefix operator with its operand.
pub open spec fn parse_primary(tokens: Seq<Token>, pos: nat) -> Outcome
    decreases tokens_left(tokens, pos), 1nat,
{
    match token_at(tokens, pos) {
        Token::Atom(c) => Outcome::Parsed { tree: Tree::Leaf(c), used: 1 },
        Token::Op(op) => if op == '(' {
            closed_by(tokens, pos + 1, parse_expr(tokens, pos + 1, 0), ')').after(1)
        } else {
            match prefix_power(op) {
                Some(right_bp) => match parse_expr(tokens, pos + 1, right_bp) {
                    Outcome::Parsed { tree, used } => Outcome::Parsed {
                        tree: Tree::Node(op, seq![tree]),
                        used: used + 1,
                    },
                    failed => failed.after(1),
                },
                None => Outcome::Failed { error: ParseError::NoPrimaryTerm, used: 0 },
            }
        },
        Token::Eof => Outcome::Failed { error: ParseError::NoPrimaryTerm, used: 0 },
    }
}

/// The operators that follow the operand `lhs`, which ends just before `pos`:
/// each postfix or infix operator whose left power is at least `min_bp` takes
/// what was built so far as its first operand. The first token that is no such
/// operator ends the expression; an atom there is an error.
pub open spec fn parse_rest(tokens: Seq<Token>, pos: nat, lhs: Tree, min_bp: u8) -> Outcome
    decreases tokens_left(tokens, pos), 0nat,
{
    match token_at(tokens, pos) {
        Token::Eof => Outcome::Parsed { tree: lhs, used: 0 },
        Token::Atom(_) => Outcome::Failed { error: ParseError::UnexpectedToken, used: 0 },
        Token::Op(op) => if let Some(left_bp) = postfix_power(op) {
            if left_bp < min_bp {
                Outcome::Parsed { tree: lhs, used: 0 }
            } else {
                match parse_postfix(tokens, pos + 1, lhs, op) {
                    Outcome::Parsed { tree, used } => parse_rest(
                        tokens,
                        pos + 1 + used,
                        tree,
                        min_bp,
                    ).after(1 + used),
                    failed => failed.after(1),
                }
            }
        } else if let Some((left_bp, right_bp)) = infix_power(op) {
            if left_bp < min_bp {
                Outcome::Parsed { tree: lhs, used: 0 }
            } else {
                match parse_infix(tokens, pos + 1, lhs, op, right_bp) {
                    Outcome::Parsed { tree, used } => parse_rest(
                        tokens,
                        pos + 1 + used,
                        tree,
                        min_bp,
                    ).after(1 + used),
                    failed => failed.after(1),
                }
            }
        } else {
            Outcome::Parsed { tree: lhs, used: 0 }
        },
    }
}

/// The node of the postfix operator `op` over `lhs`, where `pos` is the
/// position behind the operator: `[` takes an index expression and its
/// closing `]`, any other operator takes nothing more.
pub open spec fn parse_postfix(tokens: Seq<Token>, pos: nat, lhs: Tree, op: char) -> Outcome
    decreases tokens_left(tokens, pos), 3nat,
{
    if op == '[' {
        match closed_by(tokens, pos, parse_expr(tokens, pos, 0), ']') {
            Outcome::Parsed { tree: index, used } => Outcome::Parsed {
                tree: Tree::Node(op, seq![lhs, index]),
                used,
            },
            failed => failed,
        }
    } else {
        Outcome::Parsed { tree: Tree::Node(op, seq![lhs]), used: 0 }
    }
}

/// The node of the infix operator `op` over `lhs`, where `pos` is the position
/// behind the operator and `right_bp` its right power: `?` takes a middle
/// expression, the `:` and a last operand, any other operator takes one
/// operand.
pub open spec fn parse_infix(
    tokens: Seq<Token>,
    pos: nat,
    lhs: Tree,
    op: char,
    right_bp: u8,
) -> Outcome
    decreases tokens_left(tokens, pos), 3nat,
{
    if op == '?' {
        match closed_by(tokens, pos, parse_expr(tokens, pos, 0), ':') {
            Outcome::Parsed { tree: mid, used: first } => match parse_expr(
                tokens,
                pos + first,
                right_bp,
            ) {
                Outcome::Parsed { tree: rhs, used } => Outcome::Parsed {
                    tree: Tree::Node(op, seq![lhs, mid, rhs]),
                    used: first + used,
                },
                failed => failed.after(first),
            },
            failed => failed,
        }
    } else {
        match parse_expr(tokens, pos, right_bp) {
            Outcome::Parsed { tree: rhs, used } => Outcome::Parsed {
                tree: Tree::Node(op, seq![lhs, rhs]),
                used,
            },
            failed => failed,
        }
    }
}

/// Whether the result `res` of a parse that moved the cursor from `start` to
/// `end` is the outcome `outcome`.
pub open spec fn agrees(res: Result<S, ParseError>, start: nat, end: nat, outcome: Outcome) -> bool {
    match outcome {
        Outcome::Parsed { tree, used } => res is Ok && res->Ok_0@ == tree && end == start + used,
        Outcome::Failed { error, used } => res is Err && res->Err_0 == error && end == start
            + used,
    }
}

/// Consumes the symbol `closer` if the stream stands on it.
fn expect(lexer: &mut Lexer, closer: char) -> (res: Result<(), ParseError>)
    ensures
        final(lexer).tokens() == old(lexer).tokens(),
        old(lexer).current() == Token::Op(closer) ==> res is Ok && final(lexer).cursor() == old(
            lexer,
        ).cursor() + 1,
        old(lexer).current() != Token::Op(closer) ==> res == Err::<(), ParseError>(
            ParseError::UnexpectedToken,
        ) && final(lexer).cursor() == old(lexer).cursor(),
{
    match lexer.peek() {
        Token::Op(c) => {
            if c == closer {
                lexer.next();
                Ok(())
            } else {
                Err(ParseError::UnexpectedToken)
            }
        },
        _ => Err(ParseError::UnexpectedToken),
    }
}

/// Parses the expression at the cursor under the minimum binding power
/// `min_bp`. On success the cursor stands behind the expression, on failure
/// on the token that was refused.
pub fn expr_bp(lexer: &mut Lexer, min_bp: u8) -> (res: Result<S, ParseError>)
    ensures
        final(lexer).tokens() == old(lexer).tokens(),
        agrees(
            res,
            old(lexer).cursor(),
            final(lexer).cursor(),
            parse_expr(old(lexer).tokens(), old(lexer).cursor(), min_bp),
        ),
    decreases tokens_left(old(lexer).tokens(), old(lexer).cursor()),
{
    let ghost tokens = lexer.tokens();
    let ghost start = lexer.cursor();
    let mut lhs: S = match lexer.peek() {
        Token::Atom(it) => {
            lexer.next();
            S::Atom(it)
        },
        Token::Op(op) => {
            if op == '(' {
                lexer.next();
                let inner = match expr_bp(lexer, 0) {
                    Ok(inner) => inner,
                    Err(e) => {
                        return Err(e);
                    },
                };
                match expect(lexer, ')') {
                    Ok(_) => inner,
                    Err(e) => {
                        return Err(e);
                    },
                }
            } else {
                match prefix_binding_power(op) {
                    Some(right_bp) => {
                        lexer.next();
                        match expr_bp(lexer, right_bp) {
                            Ok(rhs) => S::unary(op, rhs),
                            Err(e) => {
                                return Err(e);
                            },
                        }
                    },
                    None => {
                        return Err(ParseError::NoPrimaryTerm);
                    },
                }
            }
        },
        Token::Eof => {
            return Err(ParseError::NoPrimaryTerm);
        },
    };
    loop
        invariant
            tokens == old(lexer).tokens(),
            start == old(lexer).cursor(),
            lexer.tokens() == tokens,
            start < lexer.cursor(),
            parse_expr(tokens, start, min_bp) == parse_rest(
                tokens,
                lexer.cursor(),
                lhs@,
                min_bp,
            ).after((lexer.cursor() - start) as nat),
        ensures
            lexer.tokens() == tokens,
            parse_expr(tokens, start, min_bp) == (Outcome::Parsed {
                tree: lhs@,
                used: (lexer.cursor() - start) as nat,
            }),
        decreases tokens_left(tokens, lexer.cursor()),
    {
        let op: char = match lexer.peek() {
            Token::Eof => {
                break ;
            },
            Token::Op(op) => op,
            Token::Atom(_) => {
                return Err(ParseError::UnexpectedToken);
            },
        };
        let ghost at = lexer.cursor();
        let ghost before = lhs@;
        if let Some(left_bp) = postfix_binding_power(op) {
            if left_bp < min_bp {
                break ;
            }
            // Naming the operator's step lets its definition unfold below.
            let ghost step = parse_postfix(tokens, at + 1, before, op);
            assert(step is Parsed || step is Failed);
            lexer.next();
            if op == '[' {
                let index = match expr_bp(lexer, 0) {
                    Ok(index) => index,
                    Err(e) => {
                        return Err(e);
                    },
                };
                match expect(lexer, ']') {
                    Ok(_) => {},
                    Err(e) => {
                        return Err(e);
                    },
                }
                lhs = S::binary(op, lhs, index);
            } else {
                lhs = S::unary(op, lhs);
            }
            continue ;
        }
        if let Some((left_bp, right_bp)) = infix_binding_power(op) {
            if left_bp < min_bp {
                break ;
            }
            // Naming the operator's step lets its definition unfold below.
            let ghost step = parse_infix(tokens, at + 1, before, op, right_bp);
            assert(step is Parsed || step is Failed);
            lexer.next();
            if op == '?' {
                let mid = match expr_bp(lexer, 0) {
                    Ok(mid) => mid,
                    Err(e) => {
                        return Err(e);
                    },
                };
                match expect(lexer, ':') {
                    Ok(_) => {},
                    Err(e) => {
                        return Err(e);
                    },
                }
                let rhs = match expr_bp(lexer, right_bp) {
                    Ok(rhs) => rhs,
                    Err(e) => {
                        return Err(e);
                    },
                };
                lhs = S::ternary(op, lhs, mid, rhs);
            } else {
                let rhs = match expr_bp(lexer, right_bp) {
                    Ok(rhs) => rhs,
                    Err(e) => {
                        return Err(e);
                    },
                };
                lhs = S::binary(op, lhs, rhs);
            }
            continue ;
        }
        break ;
    }
    Ok(lhs)
}

/// Parses the expression that `input` starts with.
pub fn expr(input: &str) -> (res: Result<S, ParseError>)
    ensures
        match parse_expr(tokenize(input@), 0, 0) {
            Outcome::Parsed { tree, used } => res is Ok && res->Ok_0@ == tree,
            Outcome::Failed { error, used } => res is Err && res->Err_0 == error,
        },
{
    let mut lexer = Lexer::new(input);
    expr_bp(&mut lexer, 0)
}

} // verus!
