use ch06_regex::ast::AST;
use ch06_regex::codegen::get_code;
use ch06_regex::engine::Instruction::{AnyChar, Char, Head, Jump, Match, MatchEnd, Split};
use ch06_regex::parser::parse;

#[test]
fn test_get_code() {
    assert_eq!(get_code(&AST::Char('a')).unwrap(), vec![Char('a'), Match]);
    assert_eq!(
        get_code(&AST::Or(Box::new(AST::Char('a')), Box::new(AST::Char('b')))).unwrap(),
        vec![Split(1, 3), Char('a'), Jump(4), Char('b'), Match]
    );
    assert_eq!(
        get_code(&parse("ab|bc").unwrap()).unwrap(),
        vec![
            Split(1, 4),
            Char('a'),
            Char('b'),
            Jump(6),
            Char('b'),
            Char('c'),
            Match
        ]
    );
    assert_eq!(
        get_code(&parse("a.b").unwrap()).unwrap(),
        vec![Char('a'), AnyChar, Char('b'), Match]
    );
    assert_eq!(
        get_code(&parse("ab(de)?").unwrap()).unwrap(),
        vec![
            Char('a'),
            Char('b'),
            Split(3, 5),
            Char('d'),
            Char('e'),
            Match
        ]
    );
    assert_eq!(
        get_code(&parse("a(bc|e+)*").unwrap()).unwrap(),
        vec![
            Char('a'),   // 0:
            Split(2, 9), // 1: split of *
            Split(3, 6), // 2: split of |
            Char('b'),   // 3:
            Char('c'),   // 4:
            Jump(8),     // 5: jump of |
            Char('e'),   // 6:
            Split(6, 8), // 7: split of +
            Jump(1),     // 8: jump of *
            Match
        ]
    );
    assert_eq!(get_code(&parse("^a").unwrap()).unwrap(), vec![Head, Char('a'), Match]);
    assert_eq!(
        get_code(&parse("a^a").unwrap()).unwrap(),
        vec![Char('a'), Head, Char('a'), Match]
    );
    assert_eq!(
        get_code(&parse("(a|^b)c").unwrap()).unwrap(),
        vec![
            Split(1, 3), // 0:
            Char('a'),   // 1:
            Jump(5),     // 2:
            Head,        // 3:
            Char('b'),   // 4:
            Char('c'),   // 5:
            Match,       // 6:
        ]
    );
    assert_eq!(get_code(&parse("a$").unwrap()).unwrap(), vec![Char('a'), MatchEnd, Match]);
    assert_eq!(
        get_code(&parse("a$b").unwrap()).unwrap(),
        vec![Char('a'), MatchEnd, Char('b'), Match]
    );
    assert_eq!(
        get_code(&parse("a(b|c$)").unwrap()).unwrap(),
        vec![
            Char('a'),   // 0:
            Split(2, 4), // 1:
            Char('b'),   // 2:
            Jump(6),     // 3:
            Char('c'),   // 4:
            MatchEnd,    // 5:
            Match,       // 6:
        ]
    );
}

#[test]
fn star_code_loops_back_to_its_split() {
    assert_eq!(
        get_code(&parse("a*").unwrap()).unwrap(),
        vec![Split(1, 3), Char('a'), Jump(0), Match]
    );
    assert_eq!(
        get_code(&parse("a+").unwrap()).unwrap(),
        vec![Char('a'), Split(0, 2), Match]
    );
}
