use ch06_regex::ast::AST;
use ch06_regex::parser::{parse, ParseError};

#[test]
fn parse_errors_carry_their_position() {
    assert_eq!(parse("ab\\x").unwrap_err(), ParseError::InvalidEscape(3, 'x'));
    assert_eq!(parse("ab)").unwrap_err(), ParseError::InvalidRightParen(2));
    assert_eq!(parse("a|*").unwrap_err(), ParseError::NoPrev(2));
    assert_eq!(parse("a||b").unwrap_err(), ParseError::NoPrev(2));
    assert_eq!(parse("(ab").unwrap_err(), ParseError::NoRightParen);
    assert_eq!(parse("").unwrap_err(), ParseError::Empty);
    assert_eq!(parse("()").unwrap_err(), ParseError::Empty);
}

#[test]
fn escapes_give_literal_characters() {
    match parse("\\*").unwrap() {
        AST::Cat(v) => {
            assert_eq!(v.len(), 1);
            assert!(matches!(v[0], AST::Char('*')));
        }
        _ => panic!("expected a sequence"),
    }
    assert!(parse("\\(\\)\\|\\+\\?\\\\").is_ok());
}

#[test]
fn alternation_folds_to_the_right() {
    match parse("a|b|c").unwrap() {
        AST::Or(l, r) => {
            assert!(matches!(*l, AST::Cat(_)));
            assert!(matches!(*r, AST::Or(_, _)));
        }
        _ => panic!("expected an alternation"),
    }
}
