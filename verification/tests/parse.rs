use pratt::parser::{expr, ParseError};

fn text(input: &str) -> String {
    match expr(input) {
        Ok(s) => s.to_string(),
        Err(e) => panic!("{:?} on {:?}", e, input),
    }
}

#[test]
fn tests() {
    let s = expr("1").unwrap();
    assert_eq!(s.to_string(), "1");

    let s = expr("1 + 2 * 3").unwrap();
    assert_eq!(s.to_string(), "(+ 1 (* 2 3))");

    let s = expr("a + b * c * d + e").unwrap();
    assert_eq!(s.to_string(), "(+ (+ a (* (* b c) d)) e)");

    let s = expr("f . g .h ").unwrap();
    assert_eq!(s.to_string(), "(. f (. g h))");

    let s = expr("1 + 2 + f . g . h * 3 * 4").unwrap();
    assert_eq!(s.to_string(), "(+ (+ 1 2) (* (* (. f (. g h)) 3) 4))");

    let s = expr("--1 * 2").unwrap();
    assert_eq!(s.to_string(), "(* (- (- 1)) 2)");

    let s = expr("--f . g").unwrap();
    assert_eq!(s.to_string(), "(- (- (. f g)))");

    let s = expr("-9!").unwrap();
    assert_eq!(s.to_string(), "(- (! 9))");

    let s = expr("f . g !").unwrap();
    assert_eq!(s.to_string(), "(! (. f g))");

    let s = expr("(((0)))").unwrap();
    assert_eq!(s.to_string(), "0");

    let s = expr("a[i][j]").unwrap();
    assert_eq!(s.to_string(), "([ ([ a i) j)");

    let s = expr("a ? b : c ? d : e").unwrap();
    assert_eq!(s.to_string(), "(? a b (? c d e))");

    let s = expr("a = 0 ? b : c = d").unwrap();
    assert_eq!(s.to_string(), "(= a (= (? 0 b c) d))");
}

#[test]
fn single_atom() {
    assert_eq!(text("1"), "1");
}

#[test]
fn product_binds_tighter_than_sum() {
    assert_eq!(text("1 + 2 * 3"), "(+ 1 (* 2 3))");
    assert_eq!(text("1 * 2 + 3"), "(+ (* 1 2) 3)");
    assert_eq!(text("1 - 2 / 3"), "(- 1 (/ 2 3))");
}

#[test]
fn same_tier_groups_to_the_left() {
    assert_eq!(text("a + b * c * d + e"), "(+ (+ a (* (* b c) d)) e)");
    assert_eq!(text("a - b + c"), "(+ (- a b) c)");
    assert_eq!(text("a / b * c"), "(* (/ a b) c)");
}

#[test]
fn composition_groups_to_the_right() {
    assert_eq!(text("f . g . h"), "(. f (. g h))");
}

#[test]
fn composition_binds_tightest() {
    assert_eq!(text("a * f . g"), "(* a (. f g))");
    assert_eq!(text("f . g * a"), "(* (. f g) a)");
    assert_eq!(text("a + f . g"), "(+ a (. f g))");
    assert_eq!(text("f . g !"), "(! (. f g))");
    assert_eq!(text("--f . g"), "(- (- (. f g)))");
}

#[test]
fn prefix_chain() {
    assert_eq!(text("--1"), "(- (- 1))");
    assert_eq!(text("--1 * 2"), "(* (- (- 1)) 2)");
    assert_eq!(text("+-1"), "(+ (- 1))");
}

#[test]
fn postfix_binds_tighter_than_prefix() {
    assert_eq!(text("-9!"), "(- (! 9))");
    assert_eq!(text("9!!"), "(! (! 9))");
}

#[test]
fn indexing_groups_to_the_left() {
    assert_eq!(text("a[i][j]"), "([ ([ a i) j)");
    assert_eq!(text("a[i + j]"), "([ a (+ i j))");
    assert_eq!(text("-a[i]"), "(- ([ a i))");
}

#[test]
fn conditional_groups_to_the_right() {
    assert_eq!(text("a ? b : c ? d : e"), "(? a b (? c d e))");
    assert_eq!(text("a ? b ? c : d : e"), "(? a (? b c d) e)");
}

#[test]
fn assignment_groups_to_the_right_and_binds_weakest() {
    assert_eq!(text("a = 0 ? b : c = d"), "(= a (= (? 0 b c) d))");
    assert_eq!(text("a = b = c"), "(= a (= b c))");
    assert_eq!(text("a = b + c"), "(= a (+ b c))");
}

#[test]
fn parentheses_leave_no_node() {
    assert_eq!(text("(((0)))"), "0");
    assert_eq!(text("(((0)))"), text("0"));
    assert_eq!(text("(1 + 2) * 3"), "(* (+ 1 2) 3)");
    assert_eq!(text("a . (b . c) . d"), "(. a (. (. b c) d))");
}

#[test]
fn blanks_are_ignored() {
    assert_eq!(text(" 1\t+\n2\r*\x0C3 "), "(+ 1 (* 2 3))");
    assert_eq!(text("1+2*3"), "(+ 1 (* 2 3))");
}

#[test]
fn missing_closing_parenthesis() {
    assert_eq!(expr("(1 + 2").err(), Some(ParseError::UnexpectedToken));
}

#[test]
fn missing_closing_bracket() {
    assert_eq!(expr("a[1").err(), Some(ParseError::UnexpectedToken));
    assert_eq!(expr("a[1)").err(), Some(ParseError::UnexpectedToken));
}

#[test]
fn missing_colon() {
    assert_eq!(expr("a ? b").err(), Some(ParseError::UnexpectedToken));
    assert_eq!(expr("a ? b c").err(), Some(ParseError::UnexpectedToken));
}

#[test]
fn operand_after_operand() {
    assert_eq!(expr("1 2").err(), Some(ParseError::UnexpectedToken));
}

#[test]
fn no_primary_term() {
    assert_eq!(expr("").err(), Some(ParseError::NoPrimaryTerm));
    assert_eq!(expr("   ").err(), Some(ParseError::NoPrimaryTerm));
    assert_eq!(expr("*").err(), Some(ParseError::NoPrimaryTerm));
    assert_eq!(expr("1 +").err(), Some(ParseError::NoPrimaryTerm));
    assert_eq!(expr("1 + * 2").err(), Some(ParseError::NoPrimaryTerm));
    assert_eq!(expr("()").err(), Some(ParseError::NoPrimaryTerm));
}

#[test]
fn unknown_operator_ends_the_expression() {
    assert_eq!(text("1 + 2 ) 3"), "(+ 1 2)");
    assert_eq!(text("1 # 2"), "1");
    assert_eq!(text("a : b"), "a");
}

#[test]
fn canonical_text_is_stable() {
    let first = text("a + b * c");
    let second = text("a + b * c");
    assert_eq!(first, second);
    assert_eq!(text(" a+b * c "), first);
    assert_eq!(text("a + (b * c)"), first);
    assert_ne!(text("(a + b) * c"), first);
}

#[test]
fn every_token_is_in_the_tree() {
    assert_eq!(text("-a ! + b [ c ] * d ? e : f"), "(? (+ (- (! a)) (* ([ b c) d)) e f)");
    assert_eq!(text("((a))[(b)]"), "([ a b)");
}

#[test]
fn long_chains() {
    assert_eq!(text("a . b . c . d . e"), "(. a (. b (. c (. d e))))");
    assert_eq!(text("a = b = c = d"), "(= a (= b (= c d)))");
    assert_eq!(text("a - b + c - d"), "(- (+ (- a b) c) d)");
    assert_eq!(text("a / b * c / d"), "(/ (* (/ a b) c) d)");
    assert_eq!(text("-+-+a"), "(- (+ (- (+ a))))");
    assert_eq!(text("a[1][2][3]"), "([ ([ ([ a 1) 2) 3)");
    assert_eq!(text("a ? b : c ? d : e ? f : g"), "(? a b (? c d (? e f g)))");
}
