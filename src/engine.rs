use vstd::prelude::*;
use crate::ast::Re;
use crate::codegen::{CodeGenError, atom_inst, code_of, get_code, lemma_code_plain, lemma_code_targets};
use crate::evaluator::{
    EvalError, depth_spec, eval, first_spec, lemma_strategies_agree_from, lemma_well_formed_runs,
    match_with, no_match, well_formed, width_result,
};
use crate::helper::to_chars;
use crate::parser::{ParseError, is_plain, lemma_parse_plain, parse, parse_spec};

verus! {

/// One instruction of a compiled program; its index in the program is its address.
#[derive(Debug, Clone, Copy, PartialEq, Eq, Structural)]
pub enum Instruction {
    /// Consume one character equal to the operand.
    Char(char),
    /// Consume any one character.
    AnyChar,
    /// Succeed only at the very start of the line.
    Head,
    /// Succeed, and end as a match, only at the end of the input.
    MatchEnd,
    /// The whole expression matched.
    Match,
    /// Continue at the operand.
    Jump(usize),
    /// Try the first address, then the second.
    Split(usize, usize),
}


/// Outcome of one evaluation: whether the program matched, and whether that
/// match relied on the input starting at the very start of the line.
#[derive(Debug, Clone, Copy, PartialEq, Eq, Structural)]
pub struct EvalResult {
    pub matched: bool,
    pub should_be_head: bool,
}

impl EvalResult {
    pub fn matched() -> (r: Self)
        ensures
            r == (EvalResult { matched: true, should_be_head: false }),
    {
        Self { matched: true, should_be_head: false }
    }

    pub fn unmatched() -> (r: Self)
        ensures
            r == (EvalResult { matched: false, should_be_head: false }),
    {
        Self { matched: false, should_be_head: false }
    }

    pub fn matched_if_head() -> (r: Self)
        ensures
            r == (EvalResult { matched: true, should_be_head: true }),
    {
        Self { matched: true, should_be_head: true }
    }

    /// Combines the outcomes of two alternatives: a match beats no match, and
    /// of two matches the one that needs no line start wins.
    pub fn merge(&self, other: &Self) -> (r: Self)
        ensures
            r == merge_spec(*self, *other),
    {
        if self.matched {
            if other.matched {
                Self { matched: true, should_be_head: self.should_be_head && other.should_be_head }
            } else {
                Self { matched: true, should_be_head: self.should_be_head }
            }
        } else {
            Self { matched: other.matched, should_be_head: other.should_be_head }
        }
    }
}

/// The better of two outcomes: a match beats no match, and of two matches the
/// one that needs no line start wins.
pub open spec fn merge_spec(a: EvalResult, b: EvalResult) -> EvalResult {
    if a.matched && b.matched {
        EvalResult { matched: true, should_be_head: a.should_be_head && b.should_be_head }
    } else if a.matched {
        a
    } else {
        b
    }
}


/// Why a pattern could not be matched against a line.
#[derive(Debug, Clone, Copy, PartialEq, Eq, Structural)]
pub enum MatchError {
    Parse(ParseError),
    CodeGen(CodeGenError),
    Eval(EvalError),
}

/// The program compiled from the pattern `expr`, or why there is none.
pub open spec fn compile_spec(expr: Seq<char>) -> Result<Seq<Instruction>, MatchError> {
    match parse_spec(expr) {
        Err(e) => Err(MatchError::Parse(e)),
        Ok(ast) => {
            let code = code_of(ast, 0).push(Instruction::Match);
            if code.len() <= usize::MAX {
                Ok(code)
            } else {
                Err(MatchError::CodeGen(CodeGenError::PCOverFlow))
            }
        },
    }
}

/// Evaluation of `p` on `line` from its start, depth-first or breadth-first.
pub open spec fn run_spec(p: Seq<Instruction>, line: Seq<char>, is_depth: bool) -> Result<EvalResult, EvalError> {
    if is_depth {
        depth_spec(p, line, 0, 0, false, 0)
    } else {
        width_result(first_spec(p, line, 0, 0, false, 0))
    }
}

/// The evaluation of `p` on the part of `line` from character `k` on is a
/// match, and one that may stand there: a match that needs the line start
/// counts only at `k == 0`.
pub open spec fn accepted_at(p: Seq<Instruction>, line: Seq<char>, k: int) -> bool {
    let r = depth_spec(p, line.subrange(k, line.len() as int), 0, 0, false, 0)->Ok_0;
    r.matched && (!r.should_be_head || k == 0)
}

/// Some position of `line` accepts `p`.
pub open spec fn line_matches(p: Seq<Instruction>, line: Seq<char>) -> bool {
    exists|k: int| 0 <= k < line.len() && accepted_at(p, line, k)
}

proof fn lemma_compiled_well_formed(e: Re)
    requires
        code_of(e, 0).len() + 1 <= usize::MAX,
    ensures
        well_formed(code_of(e, 0).push(Instruction::Match)),
{
    let code = code_of(e, 0);
    let p = code.push(Instruction::Match);
    lemma_code_targets(e, 0);
    assert forall|i: int| 0 <= i < p.len() implies match #[trigger] p[i] {
        Instruction::Jump(a) => 0 <= a <= p.len() - 1,
        Instruction::Split(a, b) => 0 <= a <= p.len() - 1 && 0 <= b <= p.len() - 1,
        _ => true,
    } by {
        if i < code.len() {
            assert(p[i] == code[i]);
        }
    }
}

/// Compiles a pattern into a program.
pub fn compile(expr: &str) -> (r: Result<Vec<Instruction>, MatchError>)
    ensures
        match compile_spec(expr@) {
            Ok(p) => r is Ok && r->Ok_0@ == p,
            Err(e) => r == Err::<Vec<Instruction>, MatchError>(e),
        },
        r is Ok ==> well_formed(r->Ok_0@),
{
    let ast = match parse(expr) {
        Ok(ast) => ast,
        Err(e) => return Err(MatchError::Parse(e)),
    };
    let code = match get_code(&ast) {
        Ok(code) => code,
        Err(e) => return Err(MatchError::CodeGen(e)),
    };
    proof {
        lemma_compiled_well_formed(ast@);
    }
    Ok(code)
}

/// Whether the pattern `expr` matches `line` from its first character, by the
/// chosen strategy.
pub fn do_matching(expr: &str, line: &str, is_depth: bool) -> (r: Result<bool, MatchError>)
    ensures
        match compile_spec(expr@) {
            Err(e) => r == Err::<bool, MatchError>(e),
            Ok(p) => run_spec(p, line@, is_depth) is Ok && r == Ok::<bool, MatchError>(
                run_spec(p, line@, is_depth)->Ok_0.matched,
            ),
        },
{
    let code = compile(expr)?;
    let line = to_chars(line);
    proof {
        lemma_well_formed_runs(code@, line@, 0, 0, false, 0);
    }
    match eval(code.as_slice(), line.as_slice(), is_depth) {
        Ok(result) => Ok(result.matched),
        Err(e) => Err(MatchError::Eval(e)),
    }
}

/// Whether the pattern `expr` matches somewhere in `line`: evaluation is tried
/// from each character on, and a match that needs the line start counts only
/// from the first character.
pub fn match_line(expr: &str, line: &str) -> (r: Result<bool, MatchError>)
    ensures
        match compile_spec(expr@) {
            Err(e) => r == Err::<bool, MatchError>(e),
            Ok(p) => r == Ok::<bool, MatchError>(line_matches(p, line@)),
        },
{
    let code = compile(expr)?;
    let chars = to_chars(line);
    let n = chars.len();
    let mut i: usize = 0;
    while i < n
        invariant
            n == chars@.len(),
            chars@ == line@,
            compile_spec(expr@) == Ok::<Seq<Instruction>, MatchError>(code@),
            well_formed(code@),
            i <= n,
            forall|k: int| 0 <= k < i ==> !accepted_at(code@, line@, k),
        decreases n - i,
    {
        let partial_line = vstd::slice::slice_subrange(chars.as_slice(), i, n);
        proof {
            lemma_well_formed_runs(code@, partial_line@, 0, 0, false, 0);
        }
        let result = match eval(code.as_slice(), partial_line, true) {
            Ok(result) => result,
            Err(e) => return Err(MatchError::Eval(e)),
        };
        if result.matched {
            if !result.should_be_head || i == 0 {
                assert(accepted_at(code@, line@, i as int));
                return Ok(true);
            }
        }
        i = i + 1;
    }
    Ok(false)
}

/// Compiling a pattern and running the program always comes to an end without
/// error, by either strategy.
pub proof fn lemma_compiled_runs(expr: Seq<char>, line: Seq<char>)
    requires
        compile_spec(expr) is Ok,
    ensures
        run_spec(compile_spec(expr)->Ok_0, line, true) is Ok,
        run_spec(compile_spec(expr)->Ok_0, line, false) is Ok,
{
    let ast = parse_spec(expr)->Ok_0;
    lemma_compiled_well_formed(ast);
    lemma_well_formed_runs(compile_spec(expr)->Ok_0, line, 0, 0, false, 0);
}

/// Compiling the same pattern twice gives the same program.
pub proof fn lemma_compile_deterministic(a: Seq<char>, b: Seq<char>)
    requires
        a == b,
    ensures
        compile_spec(a) == compile_spec(b),
{
}

/// On a compiled pattern, depth-first and breadth-first evaluation agree on
/// whether the line matches.
pub proof fn lemma_strategies_agree(expr: Seq<char>, line: Seq<char>)
    requires
        compile_spec(expr) is Ok,
    ensures
        run_spec(compile_spec(expr)->Ok_0, line, true)->Ok_0.matched
            == run_spec(compile_spec(expr)->Ok_0, line, false)->Ok_0.matched,
{
    let p = compile_spec(expr)->Ok_0;
    lemma_compiled_runs(expr, line);
    lemma_strategies_agree_from(p, line, 0, 0, false, 0);
}

/// A pattern of plain characters compiles to one instruction per character,
/// then `Match`.
pub proof fn lemma_plain_program(cs: Seq<char>)
    requires
        cs.len() > 0,
        cs.len() + 1 <= usize::MAX,
        forall|i: int| 0 <= i < cs.len() ==> is_plain(#[trigger] cs[i]),
    ensures
        compile_spec(cs) == Ok::<Seq<Instruction>, MatchError>(
            cs.map_values(|c: char| atom_inst(c)).push(Instruction::Match),
        ),
{
    lemma_parse_plain(cs);
    lemma_code_plain(cs, 0);
    assert(cs.subrange(0, cs.len() as int) =~= cs);
}

/// The pattern `a.b` compiles to: `a`, any character, `b`, match.
pub proof fn lemma_period_program()
    ensures
        compile_spec(seq!['a', '.', 'b']) == Ok::<Seq<Instruction>, MatchError>(
            seq![Instruction::Char('a'), Instruction::AnyChar, Instruction::Char('b'), Instruction::Match],
        ),
{
    let cs = seq!['a', '.', 'b'];
    assert(cs[0] == 'a' && cs[1] == '.' && cs[2] == 'b');
    lemma_plain_program(cs);
    assert(cs.map_values(|c: char| atom_inst(c)).push(Instruction::Match) =~= seq![
        Instruction::Char('a'),
        Instruction::AnyChar,
        Instruction::Char('b'),
        Instruction::Match,
    ]);
}

/// `a.b` matches a line made of `a`, any one character and `b`, by either
/// strategy; it matches neither `ab` nor `a`, two characters and `b` where the
/// second of the two is not `b`.
pub proof fn lemma_period_matches_any_char(x: char, y: char, is_depth: bool)
    requires
        y != 'b',
    ensures
        run_spec(compile_spec(seq!['a', '.', 'b'])->Ok_0, seq!['a', x, 'b'], is_depth)->Ok_0.matched,
        !run_spec(compile_spec(seq!['a', '.', 'b'])->Ok_0, seq!['a', 'b'], is_depth)->Ok_0.matched,
        !run_spec(compile_spec(seq!['a', '.', 'b'])->Ok_0, seq!['a', x, y, 'b'], is_depth)->Ok_0.matched,
{
    lemma_period_program();
    let p = seq![Instruction::Char('a'), Instruction::AnyChar, Instruction::Char('b'), Instruction::Match];
    assert(p[0] == Instruction::Char('a') && p[1] == Instruction::AnyChar && p[2] == Instruction::Char('b')
        && p[3] == Instruction::Match && p.len() == 4);

    let l1 = seq!['a', x, 'b'];
    assert(l1[0] == 'a' && l1[1] == x && l1[2] == 'b' && l1.len() == 3);
    assert(depth_spec(p, l1, 3, 3, false, 0) == Ok::<EvalResult, EvalError>(EvalResult { matched: true, should_be_head: false }));
    assert(depth_spec(p, l1, 2, 2, false, 0) == depth_spec(p, l1, 3, 3, false, 0));
    assert(depth_spec(p, l1, 1, 1, false, 0) == depth_spec(p, l1, 2, 2, false, 0));
    assert(depth_spec(p, l1, 0, 0, false, 0) == depth_spec(p, l1, 1, 1, false, 0));
    assert(first_spec(p, l1, 3, 3, false, 0) == Ok::<Option<bool>, EvalError>(Some(false)));
    assert(first_spec(p, l1, 2, 2, false, 0) == first_spec(p, l1, 3, 3, false, 0));
    assert(first_spec(p, l1, 1, 1, false, 0) == first_spec(p, l1, 2, 2, false, 0));
    assert(first_spec(p, l1, 0, 0, false, 0) == first_spec(p, l1, 1, 1, false, 0));

    let l2 = seq!['a', 'b'];
    assert(l2[0] == 'a' && l2[1] == 'b' && l2.len() == 2);
    assert(depth_spec(p, l2, 2, 2, false, 0) == Ok::<EvalResult, EvalError>(EvalResult { matched: false, should_be_head: false }));
    assert(depth_spec(p, l2, 1, 1, false, 0) == depth_spec(p, l2, 2, 2, false, 0));
    assert(depth_spec(p, l2, 0, 0, false, 0) == depth_spec(p, l2, 1, 1, false, 0));
    assert(first_spec(p, l2, 2, 2, false, 0) == Ok::<Option<bool>, EvalError>(None));
    assert(first_spec(p, l2, 1, 1, false, 0) == first_spec(p, l2, 2, 2, false, 0));
    assert(first_spec(p, l2, 0, 0, false, 0) == first_spec(p, l2, 1, 1, false, 0));

    let l3 = seq!['a', x, y, 'b'];
    assert(l3[0] == 'a' && l3[1] == x && l3[2] == y && l3[3] == 'b' && l3.len() == 4);
    assert(depth_spec(p, l3, 2, 2, false, 0) == Ok::<EvalResult, EvalError>(EvalResult { matched: false, should_be_head: false }));
    assert(depth_spec(p, l3, 1, 1, false, 0) == depth_spec(p, l3, 2, 2, false, 0));
    assert(depth_spec(p, l3, 0, 0, false, 0) == depth_spec(p, l3, 1, 1, false, 0));
    assert(first_spec(p, l3, 2, 2, false, 0) == Ok::<Option<bool>, EvalError>(None));
    assert(first_spec(p, l3, 1, 1, false, 0) == first_spec(p, l3, 2, 2, false, 0));
    assert(first_spec(p, l3, 0, 0, false, 0) == first_spec(p, l3, 1, 1, false, 0));
}

/// The line starts with `abc`.
spec fn starts_abc(l: Seq<char>) -> bool {
    l.len() >= 3 && l[0] == 'a' && l[1] == 'b' && l[2] == 'c'
}

/// From the start of a line, after a `^`, the code `a`, `b`, `c`, `Match`
/// matches, needing the line start, exactly when the line starts with `abc`.
proof fn lemma_abc_after_head(p: Seq<Instruction>, l: Seq<char>, base: int, idle: int)
    requires
        0 <= base,
        p.len() == base + 4,
        p[base] == Instruction::Char('a'),
        p[base + 1] == Instruction::Char('b'),
        p[base + 2] == Instruction::Char('c'),
        p[base + 3] == Instruction::Match,
        0 <= idle < p.len(),
    ensures
        depth_spec(p, l, base, 0, true, idle) == Ok::<EvalResult, EvalError>(
            if starts_abc(l) { match_with(true) } else { no_match() },
        ),
        first_spec(p, l, base, 0, true, idle) == Ok::<Option<bool>, EvalError>(
            if starts_abc(l) { Some(true) } else { None },
        ),
{
    if l.len() >= 1 && l[0] == 'a' {
        if l.len() >= 2 && l[1] == 'b' {
            if l.len() >= 3 && l[2] == 'c' {
                assert(depth_spec(p, l, base + 3, 3, true, 0) == Ok::<EvalResult, EvalError>(match_with(true)));
                assert(first_spec(p, l, base + 3, 3, true, 0) == Ok::<Option<bool>, EvalError>(Some(true)));
            }
            assert(depth_spec(p, l, base + 2, 2, true, 0) == Ok::<EvalResult, EvalError>(
                if starts_abc(l) { match_with(true) } else { no_match() },
            ));
            assert(first_spec(p, l, base + 2, 2, true, 0) == Ok::<Option<bool>, EvalError>(
                if starts_abc(l) { Some(true) } else { None },
            ));
        }
        assert(depth_spec(p, l, base + 1, 1, true, 0) == Ok::<EvalResult, EvalError>(
            if starts_abc(l) { match_with(true) } else { no_match() },
        ));
        assert(first_spec(p, l, base + 1, 1, true, 0) == Ok::<Option<bool>, EvalError>(
            if starts_abc(l) { Some(true) } else { None },
        ));
    }
}

/// `^^abc` behaves as `^abc`: on every input both strategies give the same
/// outcome for the two patterns, and they match the same lines.
pub proof fn lemma_double_caret(line: Seq<char>)
    ensures
        compile_spec(seq!['^', 'a', 'b', 'c']) is Ok,
        compile_spec(seq!['^', '^', 'a', 'b', 'c']) is Ok,
        run_spec(compile_spec(seq!['^', '^', 'a', 'b', 'c'])->Ok_0, line, true)
            == run_spec(compile_spec(seq!['^', 'a', 'b', 'c'])->Ok_0, line, true),
        run_spec(compile_spec(seq!['^', '^', 'a', 'b', 'c'])->Ok_0, line, false)
            == run_spec(compile_spec(seq!['^', 'a', 'b', 'c'])->Ok_0, line, false),
        line_matches(compile_spec(seq!['^', '^', 'a', 'b', 'c'])->Ok_0, line)
            == line_matches(compile_spec(seq!['^', 'a', 'b', 'c'])->Ok_0, line),
{
    let pat_one = seq!['^', 'a', 'b', 'c'];
    let pat_two = seq!['^', '^', 'a', 'b', 'c'];
    assert(pat_one[0] == '^' && pat_one[1] == 'a' && pat_one[2] == 'b' && pat_one[3] == 'c');
    assert(pat_two[0] == '^' && pat_two[1] == '^' && pat_two[2] == 'a' && pat_two[3] == 'b' && pat_two[4] == 'c');
    lemma_plain_program(pat_one);
    lemma_plain_program(pat_two);
    let one = seq![
        Instruction::Head,
        Instruction::Char('a'),
        Instruction::Char('b'),
        Instruction::Char('c'),
        Instruction::Match,
    ];
    let two = seq![
        Instruction::Head,
        Instruction::Head,
        Instruction::Char('a'),
        Instruction::Char('b'),
        Instruction::Char('c'),
        Instruction::Match,
    ];
    assert(pat_one.map_values(|c: char| atom_inst(c)).push(Instruction::Match) =~= one);
    assert(pat_two.map_values(|c: char| atom_inst(c)).push(Instruction::Match) =~= two);
    assert forall|l: Seq<char>|
        #[trigger] depth_spec(two, l, 0, 0, false, 0) == depth_spec(one, l, 0, 0, false, 0)
        && first_spec(two, l, 0, 0, false, 0) == first_spec(one, l, 0, 0, false, 0) by {
        lemma_abc_after_head(one, l, 1, 1);
        lemma_abc_after_head(two, l, 2, 2);
        assert(depth_spec(two, l, 1, 0, true, 1) == depth_spec(two, l, 2, 0, true, 2));
        assert(first_spec(two, l, 1, 0, true, 1) == first_spec(two, l, 2, 0, true, 2));
    }
    assert forall|k: int| accepted_at(two, line, k) == accepted_at(one, line, k) by {
        let l = line.subrange(k, line.len() as int);
        assert(depth_spec(two, l, 0, 0, false, 0) == depth_spec(one, l, 0, 0, false, 0));
    }
    assert(line_matches(two, line) == line_matches(one, line));
}

/// From the start of a line, the code `a`, end of input, then anything,
/// matches exactly the line `a`: the end-of-input instruction ends the
/// evaluation, so whatever follows it is never reached.
proof fn lemma_a_then_end(p: Seq<Instruction>, l: Seq<char>)
    requires
        p.len() >= 3,
        p[0] == Instruction::Char('a'),
        p[1] == Instruction::MatchEnd,
    ensures
        depth_spec(p, l, 0, 0, false, 0) == Ok::<EvalResult, EvalError>(
            if l =~= seq!['a'] { match_with(false) } else { no_match() },
        ),
        first_spec(p, l, 0, 0, false, 0) == Ok::<Option<bool>, EvalError>(
            if l =~= seq!['a'] { Some(false) } else { None },
        ),
{
    if l.len() >= 1 && l[0] == 'a' {
        assert(depth_spec(p, l, 1, 1, false, 0) == Ok::<EvalResult, EvalError>(
            if l.len() == 1 { match_with(false) } else { no_match() },
        ));
        assert(first_spec(p, l, 1, 1, false, 0) == Ok::<Option<bool>, EvalError>(
            if l.len() == 1 { Some(false) } else { None },
        ));
        if l.len() == 1 {
            assert(l =~= seq!['a']);
        }
    } else {
        assert(!(l =~= seq!['a']));
    }
}

/// `a$` and `a$b`, run from the start of a line by either strategy, both
/// match exactly the line `a`: `$` demands the end of the input and ends the
/// evaluation there, so the `b` of `a$b` is never reached.
pub proof fn lemma_end_anchor(line: Seq<char>, is_depth: bool)
    ensures
        compile_spec(seq!['a', '$']) is Ok,
        compile_spec(seq!['a', '$', 'b']) is Ok,
        run_spec(compile_spec(seq!['a', '$'])->Ok_0, line, is_depth)->Ok_0.matched <==> line =~= seq!['a'],
        run_spec(compile_spec(seq!['a', '$', 'b'])->Ok_0, line, is_depth)->Ok_0.matched <==> line =~= seq!['a'],
{
    let pat_end = seq!['a', '$'];
    let pat_after = seq!['a', '$', 'b'];
    assert(pat_end[0] == 'a' && pat_end[1] == '$');
    assert(pat_after[0] == 'a' && pat_after[1] == '$' && pat_after[2] == 'b');
    lemma_plain_program(pat_end);
    lemma_plain_program(pat_after);
    let end = pat_end.map_values(|c: char| atom_inst(c)).push(Instruction::Match);
    let after = pat_after.map_values(|c: char| atom_inst(c)).push(Instruction::Match);
    assert(end[0] == Instruction::Char('a') && end[1] == Instruction::MatchEnd && end.len() == 3);
    assert(after[0] == Instruction::Char('a') && after[1] == Instruction::MatchEnd && after.len() == 4);
    lemma_a_then_end(end, line);
    lemma_a_then_end(after, line);
}

} // verus!
