use ch06_regex::engine::{compile, do_matching, match_line, MatchError};
use ch06_regex::parser::ParseError;

#[test]
fn test_do_matching() {
    // parse errors
    assert!(do_matching("+b", "bbb", true).is_err());
    assert!(do_matching("*b", "bbb", true).is_err());
    assert!(do_matching("|b", "bbb", true).is_err());
    assert!(do_matching("?b", "bbb", true).is_err());

    // parsed, matched
    assert!(do_matching("abc|def", "def", true).unwrap());
    assert!(do_matching("(abc)*", "abcabc", true).unwrap());
    assert!(do_matching("(ab|cd)+", "abcdcd", true).unwrap());
    assert!(do_matching("abc?", "ab", true).unwrap());
    assert!(do_matching("((((a*)*)*)*)", "aaaaaaaaa", true).unwrap());
    assert!(do_matching("(a*)*b", "aaaaaaaaab", true).unwrap());
    assert!(do_matching("(a*)*b", "b", true).unwrap());
    assert!(do_matching("a**b", "aaaaaaaaab", true).unwrap());
    assert!(do_matching("a**b", "b", true).unwrap());

    // parsed, not matched
    assert!(!do_matching("abc|def", "efa", true).unwrap());
    assert!(!do_matching("(ab|cd)+", "", true).unwrap());
    assert!(!do_matching("abc?", "acb", true).unwrap());
}

#[test]
fn test_match_line() {
    assert_eq!(match_line("abc|def", "abc").unwrap(), true);
    assert_eq!(match_line("abc|def", "def").unwrap(), true);
    assert_eq!(match_line("abc|def", "123def").unwrap(), true);

    assert_eq!(match_line("^abc", "abcdef").unwrap(), true);
    assert_eq!(match_line("^abc", "123abc").unwrap(), false);

    assert_eq!(match_line("^^abc", "abc").unwrap(), true);
    assert_eq!(match_line("^^abc", "123abc").unwrap(), false);

    assert_eq!(match_line("(a|^b)c", "ac").unwrap(), true);
    assert_eq!(match_line("(a|^b)c", "bc").unwrap(), true);
    assert_eq!(match_line("(a|^b)c", "123ac").unwrap(), true);
    assert_eq!(match_line("(a|^b)c", "123bc").unwrap(), false);

    assert_eq!(match_line("x(a|^b)c", "xac").unwrap(), true);
    assert_eq!(match_line("x(a|^b)c", "xbc").unwrap(), false);
    assert_eq!(match_line("x(a|^b)c", "bc").unwrap(), false);
    assert_eq!(match_line("x(a|^b)c", "123xac").unwrap(), true);
    assert_eq!(match_line("x(a|^b)c", "123xbc").unwrap(), false);

    assert_eq!(match_line("(^ab)?c", "c").unwrap(), true);
    assert_eq!(match_line("(^ab)?c", "abc").unwrap(), true);
    assert_eq!(match_line("(^ab)?c", "123c").unwrap(), true);
    assert_eq!(match_line("(^ab)?c", "123abc").unwrap(), true);
}

#[test]
fn head_anchor_scenarios() {
    assert!(match_line("^abc", "abcdef").unwrap());
    assert!(!match_line("^abc", "123abc").unwrap());
    for line in ["abcdef", "123abc", "abc", "ab", "xabc"] {
        assert_eq!(match_line("^^abc", line).unwrap(), match_line("^abc", line).unwrap());
    }
}

#[test]
fn anchored_branch_scenarios() {
    assert!(match_line("(a|^b)c", "ac").unwrap());
    assert!(match_line("(a|^b)c", "bc").unwrap());
    assert!(match_line("(a|^b)c", "123ac").unwrap());
    assert!(!match_line("(a|^b)c", "123bc").unwrap());
}

#[test]
fn period_matches_any_one_character() {
    for x in ['X', 'a', 'b', '.', ' ', 'あ', '𐂂', '💥'] {
        let line: String = ['a', x, 'b'].iter().collect();
        assert!(do_matching("a.b", &line, true).unwrap());
        assert!(do_matching("a.b", &line, false).unwrap());
        assert!(match_line("a.b", &line).unwrap());
    }
    assert!(!match_line("a.b", "ab").unwrap());
    assert!(!match_line("a.b", "aXYb").unwrap());
    assert!(!do_matching("a.b", "ab", true).unwrap());
}

#[test]
fn nested_repetition_scenarios() {
    assert!(do_matching("((((a*)*)*)*)", "aaaaaaaaa", true).unwrap());
    assert!(do_matching("((((a*)*)*)*)", "", true).unwrap());
    assert!(do_matching("a**b", "b", true).unwrap());
    assert!(do_matching("a**b", "aaaaaaaaab", true).unwrap());
    assert!(do_matching("((((a*)*)*)*)", "aaaaaaaaa", false).unwrap());
    assert!(do_matching("a**b", "aaaaaaaaab", false).unwrap());
    // nested stars compile to the code of a single star
    assert_eq!(compile("((((a*)*)*)*)").unwrap(), compile("a*").unwrap());
    assert_eq!(compile("a**b").unwrap(), compile("a*b").unwrap());
}

#[test]
fn empty_loop_bodies_terminate() {
    assert!(do_matching("(a?)*b", "b", true).unwrap());
    assert!(do_matching("(a?)*b", "aab", false).unwrap());
    assert!(!do_matching("(a?)*c", "b", true).unwrap());
    assert!(!do_matching("(a?)*c", "b", false).unwrap());
    assert!(match_line("(a*b*)*c", "xxabababbc").unwrap());
    assert!(!match_line("(a*b*)*c", "xxababab").unwrap());
}

#[test]
fn dangling_operators_fail_to_parse() {
    assert_eq!(do_matching("+b", "b", true), Err(MatchError::Parse(ParseError::NoPrev(0))));
    assert_eq!(do_matching("*b", "b", true), Err(MatchError::Parse(ParseError::NoPrev(0))));
    assert_eq!(do_matching("?b", "b", true), Err(MatchError::Parse(ParseError::NoPrev(0))));
    assert_eq!(do_matching("|b", "b", true), Err(MatchError::Parse(ParseError::NoPrev(0))));
}

#[test]
fn end_anchor_scenarios() {
    assert!(match_line("a$", "a").unwrap());
    assert!(!match_line("a$", "ab").unwrap());
    assert!(match_line("a$", "ba").unwrap());
    // `$` ends the evaluation as a match at the end of the input, so the `b`
    // after it is never reached: only lines ending in `a` match
    for line in ["ab", "b", "xab", "abab", ""] {
        assert!(!match_line("a$b", line).unwrap());
    }
    assert!(match_line("a$b", "a").unwrap());
    assert!(match_line("a$b", "xa").unwrap());
}

#[test]
fn strategies_agree_on_compiled_patterns() {
    let cases = [
        ("abc|def", "def"),
        ("(ab|cd)+", "abcdcd"),
        ("a(bc|e+)*", "abceebc"),
        ("abc?", "acb"),
        ("(a|^b)c", "bc"),
        ("a$", "ab"),
        ("x.y", "x"),
    ];
    for (p, l) in cases {
        assert_eq!(do_matching(p, l, true).unwrap(), do_matching(p, l, false).unwrap());
    }
}

#[test]
fn compiling_twice_gives_the_same_program() {
    for p in ["a(bc|e+)*", "(a|^b)c", "a$b", "((((a*)*)*)*)"] {
        assert_eq!(compile(p).unwrap(), compile(p).unwrap());
    }
}

#[test]
fn match_line_on_empty_line_tries_no_position() {
    assert!(!match_line("a*", "").unwrap());
    assert!(do_matching("a*", "", true).unwrap());
}

#[test]
fn errors_pass_through_the_driver() {
    assert_eq!(match_line("a)", "a"), Err(MatchError::Parse(ParseError::InvalidRightParen(1))));
    assert_eq!(match_line("", "a"), Err(MatchError::Parse(ParseError::Empty)));
}
