//! Tokens, character classification and the token stream.

use vstd::prelude::*;
use vstd::std_specs::iter::IteratorSpec;

verus! {

/// One lexical unit: an operand, an operator symbol, or the end of the input.
#[derive(Debug, Clone, Copy, PartialEq, Eq, Structural)]
pub enum Token {
    Atom(char),
    Op(char),
    Eof,
}

/// The characters that separate tokens and are otherwise ignored:
/// space, tab, line feed, form feed and carriage return.
pub open spec fn is_blank(c: char) -> bool {
    c == ' ' || c == '\t' || c == '\n' || c == '\x0C' || c == '\r'
}

/// The characters that form operands: ASCII letters and digits.
pub open spec fn is_operand(c: char) -> bool {
    ('0' <= c && c <= '9') || ('a' <= c && c <= 'z') || ('A' <= c && c <= 'Z')
}

/// The token that a single non-blank character stands for.
pub open spec fn classify(c: char) -> Token {
    if is_operand(c) {
        Token::Atom(c)
    } else {
        Token::Op(c)
    }
}

/// The tokens of a text: blanks are dropped, every other character is one token.
pub open spec fn tokenize(text: Seq<char>) -> Seq<Token>
    decreases text.len(),
{
    if text.len() == 0 {
        Seq::empty()
    } else if is_blank(text.last()) {
        tokenize(text.drop_last())
    } else {
        tokenize(text.drop_last()).push(classify(text.last()))
    }
}

/// Every token stands for a character of its kind: an atom for a letter or a
/// digit, an operator for another character that is no blank; none is `Eof`.
pub open spec fn proper(tokens: Seq<Token>) -> bool {
    forall|i: int|
        0 <= i < tokens.len() ==> match #[trigger] tokens[i] {
            Token::Atom(c) => is_operand(c),
            Token::Op(c) => !is_operand(c) && !is_blank(c),
            Token::Eof => false,
        }
}

/// The tokens of a text are proper.
pub proof fn lemma_tokenize_proper(text: Seq<char>)
    ensures
        proper(tokenize(text)),
    decreases text.len(),
{
    if text.len() > 0 {
        lemma_tokenize_proper(text.drop_last());
    }
}

/// The token at position `at` of `tokens`; past the end it is `Eof`.
pub open spec fn token_at(tokens: Seq<Token>, at: nat) -> Token {
    if at < tokens.len() {
        tokens[at as int]
    } else {
        Token::Eof
    }
}

fn blank(c: char) -> (res: bool)
    ensures
        res == is_blank(c),
{
    c == ' ' || c == '\t' || c == '\n' || c == '\x0C' || c == '\r'
}

fn token_of(c: char) -> (res: Token)
    ensures
        res == classify(c),
{
    if ('0' <= c && c <= '9') || ('a' <= c && c <= 'z') || ('A' <= c && c <= 'Z') {
        Token::Atom(c)
    } else {
        Token::Op(c)
    }
}

/// A token sequence with a cursor that only moves forward.
pub struct Lexer {
    tokens: Vec<Token>,
    pos: usize,
}

impl Lexer {
    /// All tokens of the stream, consumed or not.
    pub closed spec fn tokens(&self) -> Seq<Token> {
        self.tokens@
    }

    /// The number of tokens consumed so far.
    pub closed spec fn cursor(&self) -> nat {
        self.pos as nat
    }

    /// The token that the cursor stands on.
    pub open spec fn current(&self) -> Token {
        token_at(self.tokens(), self.cursor())
    }

    /// The stream over the tokens of `input`, with nothing consumed.
    pub fn new(input: &str) -> (res: Lexer)
        ensures
            res.tokens() == tokenize(input@),
            res.cursor() == 0,
    {
        broadcast use {vstd::string::axiom_spec_iter, vstd::string::next_postcondition};

        let mut tokens: Vec<Token> = Vec::new();
        let mut chars = input.chars();
        let ghost mut seen: Seq<char> = Seq::empty();
        loop
            invariant
                seen + chars.remaining() == input@,
                tokens@ == tokenize(seen),
            ensures
                seen == input@,
            decreases input@.len() - seen.len(),
        {
            let ghost before = chars.remaining();
            match chars.next() {
                Some(c) => {
                    proof {
                        assert(seen.push(c).drop_last() == seen);
                        assert(seen.push(c) + before.drop_first() =~= seen + before);
                        seen = seen.push(c);
                    }
                    if !blank(c) {
                        tokens.push(token_of(c));
                    }
                },
                None => {
                    proof {
                        assert(seen + before =~= seen);
                    }
                    break ;
                },
            }
        }
        Lexer { tokens, pos: 0 }
    }

    /// Consumes the current token and returns it. At the end of the stream it
    /// returns `Eof` and leaves the cursor where it is.
    pub fn next(&mut self) -> (res: Token)
        ensures
            res == old(self).current(),
            final(self).tokens() == old(self).tokens(),
            final(self).cursor() == if old(self).cursor() < old(self).tokens().len() {
                old(self).cursor() + 1
            } else {
                old(self).cursor()
            },
    {
        if self.pos < self.tokens.len() {
            let t: Token = self.tokens[self.pos];
            self.pos += 1;
            t
        } else {
            Token::Eof
        }
    }

    /// Returns the current token without consuming it.
    pub fn peek(&mut self) -> (res: Token)
        ensures
            res == old(self).current(),
            *final(self) == *old(self),
    {
        if self.pos < self.tokens.len() {
            self.tokens[self.pos]
        } else {
            Token::Eof
        }
    }
}

} // verus!
