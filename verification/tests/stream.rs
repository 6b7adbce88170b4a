use pratt::parser::{expr_bp, ParseError};
use pratt::power::{infix_binding_power, postfix_binding_power, prefix_binding_power};
use pratt::token::{Lexer, Token};
use pratt::tree::S;

#[test]
fn lexer_classifies_characters() {
    let mut lexer = Lexer::new("a1 +Z(");
    assert_eq!(lexer.next(), Token::Atom('a'));
    assert_eq!(lexer.next(), Token::Atom('1'));
    assert_eq!(lexer.next(), Token::Op('+'));
    assert_eq!(lexer.next(), Token::Atom('Z'));
    assert_eq!(lexer.next(), Token::Op('('));
    assert_eq!(lexer.next(), Token::Eof);
}

#[test]
fn lexer_treats_other_letters_as_operators() {
    let mut lexer = Lexer::new("é_");
    assert_eq!(lexer.next(), Token::Op('é'));
    assert_eq!(lexer.next(), Token::Op('_'));
    assert_eq!(lexer.next(), Token::Eof);
}

#[test]
fn lexer_peek_does_not_consume() {
    let mut lexer = Lexer::new("x y");
    assert_eq!(lexer.peek(), Token::Atom('x'));
    assert_eq!(lexer.peek(), Token::Atom('x'));
    assert_eq!(lexer.next(), Token::Atom('x'));
    assert_eq!(lexer.peek(), Token::Atom('y'));
    assert_eq!(lexer.next(), Token::Atom('y'));
    assert_eq!(lexer.peek(), Token::Eof);
}

#[test]
fn lexer_end_is_sticky() {
    let mut lexer = Lexer::new(" ");
    assert_eq!(lexer.peek(), Token::Eof);
    assert_eq!(lexer.next(), Token::Eof);
    assert_eq!(lexer.next(), Token::Eof);
    assert_eq!(lexer.peek(), Token::Eof);
}

#[test]
fn prefix_powers() {
    assert_eq!(prefix_binding_power('+'), Some(9));
    assert_eq!(prefix_binding_power('-'), Some(9));
    assert_eq!(prefix_binding_power('*'), None);
    assert_eq!(prefix_binding_power('!'), None);
    assert_eq!(prefix_binding_power('('), None);
}

#[test]
fn postfix_powers() {
    assert_eq!(postfix_binding_power('!'), Some(11));
    assert_eq!(postfix_binding_power('['), Some(11));
    assert_eq!(postfix_binding_power('-'), None);
    assert_eq!(postfix_binding_power(']'), None);
}

#[test]
fn infix_powers() {
    assert_eq!(infix_binding_power('='), Some((2, 1)));
    assert_eq!(infix_binding_power('?'), Some((4, 3)));
    assert_eq!(infix_binding_power('+'), Some((5, 6)));
    assert_eq!(infix_binding_power('-'), Some((5, 6)));
    assert_eq!(infix_binding_power('*'), Some((7, 8)));
    assert_eq!(infix_binding_power('/'), Some((7, 8)));
    assert_eq!(infix_binding_power('.'), Some((14, 13)));
    assert_eq!(infix_binding_power(':'), None);
    assert_eq!(infix_binding_power('!'), None);
    assert_eq!(infix_binding_power('('), None);
}

#[test]
fn minimum_power_stops_the_expression() {
    let mut lexer = Lexer::new("a * b + c");
    let s = expr_bp(&mut lexer, 6).ok().unwrap();
    assert_eq!(s.to_string(), "(* a b)");
    assert_eq!(lexer.peek(), Token::Op('+'));

    let mut lexer = Lexer::new("a * b + c");
    let s = expr_bp(&mut lexer, 8).ok().unwrap();
    assert_eq!(s.to_string(), "a");
    assert_eq!(lexer.peek(), Token::Op('*'));

    let mut lexer = Lexer::new("a ! . b");
    let s = expr_bp(&mut lexer, 12).ok().unwrap();
    assert_eq!(s.to_string(), "a");
    assert_eq!(lexer.peek(), Token::Op('!'));
}

#[test]
fn failure_leaves_the_cursor_on_the_refused_token() {
    let mut lexer = Lexer::new("(1 + 2 ] 3");
    assert_eq!(expr_bp(&mut lexer, 0).err(), Some(ParseError::UnexpectedToken));
    assert_eq!(lexer.next(), Token::Op(']'));
    assert_eq!(lexer.next(), Token::Atom('3'));

    let mut lexer = Lexer::new("1 + * 2");
    assert_eq!(expr_bp(&mut lexer, 0).err(), Some(ParseError::NoPrimaryTerm));
    assert_eq!(lexer.next(), Token::Op('*'));
}

#[test]
fn success_leaves_the_cursor_behind_the_expression() {
    let mut lexer = Lexer::new("(1 + 2) ) 3");
    let s = expr_bp(&mut lexer, 0).ok().unwrap();
    assert_eq!(s.to_string(), "(+ 1 2)");
    assert_eq!(lexer.next(), Token::Op(')'));
    assert_eq!(lexer.next(), Token::Atom('3'));
    assert_eq!(lexer.next(), Token::Eof);
}

#[test]
fn rendering_of_built_trees() {
    assert_eq!(S::Atom('x').to_string(), "x");
    assert_eq!(S::unary('-', S::Atom('x')).to_string(), "(- x)");
    assert_eq!(S::binary('+', S::Atom('x'), S::Atom('y')).to_string(), "(+ x y)");
    assert_eq!(
        S::ternary('?', S::Atom('x'), S::Atom('y'), S::Atom('z')).to_string(),
        "(? x y z)"
    );
    assert_eq!(S::Cons('f', Vec::new()).to_string(), "(f)");
    assert_eq!(
        S::Cons('*', vec![S::unary('-', S::Atom('1')), S::Atom('2')]).to_string(),
        "(* (- 1) 2)"
    );
}
