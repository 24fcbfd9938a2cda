use ch06_regex::engine::EvalResult;
use ch06_regex::engine::Instruction;
use ch06_regex::engine::Instruction::{AnyChar, Char, Head, Jump, Match, MatchEnd, Split};
use ch06_regex::evaluator::{eval, EvalError};

fn check(inst: &[Instruction], line: &[char], result: EvalResult) {
    assert_eq!(eval(inst, line, true).unwrap(), result);
    assert_eq!(eval(inst, line, false).unwrap(), result);
}

#[test]
fn test_eval() {
    check(&[Char('a'), Char('b'), Char('c'), Match], &['a', 'b', 'c'], EvalResult::matched());
    check(&[Char('a'), Char('b'), Char('c'), Match], &['a', 'b', 'c', 'd'], EvalResult::matched());
    check(&[Match], &[], EvalResult::matched());
    check(&[Char('b')], &['a'], EvalResult::unmatched());
    check(&[Jump(2), Char('a'), Match], &['b'], EvalResult::matched());
    check(&[Char('a'), AnyChar, Char('b'), Match], &['a', 'b'], EvalResult::unmatched());
    check(&[Char('a'), AnyChar, Char('b'), Match], &['a', 'a', 'b'], EvalResult::matched());
    check(&[Char('a'), AnyChar, Char('b'), Match], &['a', 'b', 'b'], EvalResult::matched());
    check(&[Char('a'), AnyChar, Char('b'), Match], &['a', 'c', 'b'], EvalResult::matched());
    check(&[Char('a'), AnyChar, Char('b'), Match], &['a', 'あ', 'b'], EvalResult::matched());
    check(&[Char('a'), AnyChar, Char('b'), Match], &['a', '𐂂', 'b'], EvalResult::matched());
    check(&[Char('a'), AnyChar, Char('b'), Match], &['a', '💥', 'b'], EvalResult::matched());
    check(
        &[Char('a'), Split(2, 4), Char('b'), Char('c'), Match],
        &['a', 'b', 'c'],
        EvalResult::matched(),
    );
    check(&[Char('a'), Split(2, 4), Char('b'), Char('c'), Match], &['a'], EvalResult::matched());
    check(&[Head, Char('a'), Char('b'), Match], &['a', 'b'], EvalResult::matched_if_head());
    check(&[Char('a'), Head, Char('b'), Match], &['a', 'b'], EvalResult::unmatched());
    check(
        &[
            Split(1, 1), // 0:
            Head,        // 1:
            Char('a'),   // 2:
            Jump(6),     // 3:
            Char('b'),   // 4:
            Char('c'),   // 5:
            Match,       // 6:
        ],
        &['a'],
        EvalResult::matched_if_head(),
    );
    check(
        &[
            Split(1, 4), // 0:
            Head,        // 1:
            Char('a'),   // 2:
            Jump(6),     // 3:
            Char('b'),   // 4:
            Char('c'),   // 5:
            Match,       // 6:
        ],
        &['b', 'c'],
        EvalResult::matched(),
    );
    check(
        &[
            Char('a'),   // 0:
            Split(2, 5), // 1:
            Head,        // 2:
            Char('b'),   // 3:
            Jump(6),     // 4:
            Char('d'),   // 5:
            Char('e'),   // 6:
            Match,       // 7:
        ],
        &['a', 'b'],
        EvalResult::unmatched(),
    );
    check(
        &[
            Char('a'),   // 0:
            Split(2, 5), // 1:
            Head,        // 2:
            Char('b'),   // 3:
            Jump(7),     // 4:
            Char('d'),   // 5:
            Char('e'),   // 6:
            Match,       // 7:
        ],
        &['a', 'd', 'e'],
        EvalResult::matched(),
    );
    check(&[Char('a'), MatchEnd], &['a'], EvalResult::matched());
    check(&[Char('a'), MatchEnd], &['a', 'b'], EvalResult::unmatched());
    check(&[Char('a'), MatchEnd], &['c'], EvalResult::unmatched());
    check(
        &[
            Head,      // 0:
            Char('a'), // 1:
            MatchEnd,  // 2:
        ],
        &['a'],
        EvalResult::matched_if_head(),
    );
    let alt_end = [
        Char('a'),   // 0:
        Split(2, 4), // 1:
        Char('b'),   // 2:
        Jump(6),     // 3:
        Char('c'),   // 4:
        MatchEnd,    // 5:
        Match,       // 6:
    ];
    check(&alt_end, &['a', 'b'], EvalResult::matched());
    check(&alt_end, &['a', 'c'], EvalResult::matched());
    check(&alt_end, &['a', 'd'], EvalResult::unmatched());
}

#[test]
fn leaving_the_program_is_an_error() {
    assert_eq!(eval(&[Jump(5)], &['a'], true), Err(EvalError::InvalidPC));
    assert_eq!(eval(&[Jump(5)], &['a'], false), Err(EvalError::InvalidPC));
    assert_eq!(eval(&[Char('a')], &['a'], true), Err(EvalError::InvalidPC));
    assert_eq!(eval(&[], &[], false), Err(EvalError::InvalidPC));
}

#[test]
fn strategies_differ_on_anchor_preference() {
    // both branches match; depth-first prefers the one without `^`,
    // breadth-first reports the first one found
    let prog = [Split(1, 3), Head, Jump(3), Char('a'), Match];
    assert_eq!(eval(&prog, &['a'], true).unwrap(), EvalResult::matched());
    assert_eq!(eval(&prog, &['a'], false).unwrap(), EvalResult::matched_if_head());
}

#[test]
fn idle_loops_are_cut() {
    // `(a?)*` without normalisation of its body: the loop can spin on no input
    let prog = [Split(1, 4), Split(2, 3), Char('a'), Jump(0), Match];
    assert_eq!(eval(&prog, &['b'], true).unwrap(), EvalResult::matched());
    assert_eq!(eval(&prog, &['b'], false).unwrap(), EvalResult::matched());
    let spin = [Jump(0)];
    assert_eq!(eval(&spin, &[], true).unwrap(), EvalResult::unmatched());
    assert_eq!(eval(&spin, &[], false).unwrap(), EvalResult::unmatched());
}

#[test]
fn merge_prefers_matches_without_anchor() {
    let m = EvalResult::matched();
    let h = EvalResult::matched_if_head();
    let u = EvalResult::unmatched();
    assert_eq!(m.merge(&h), m);
    assert_eq!(h.merge(&m), m);
    assert_eq!(h.merge(&h), h);
    assert_eq!(u.merge(&h), h);
    assert_eq!(h.merge(&u), h);
    assert_eq!(u.merge(&u), u);
}
