use vstd::prelude::*;
use crate::ast::{AST, Re, views, lemma_views, lemma_views_push};

verus! {

broadcast use vstd::std_specs::vec::group_vec_axioms, vstd::seq::group_seq_axioms;

/// Why a pattern could not be parsed.
#[derive(Debug, Clone, Copy, PartialEq, Eq, Structural)]
pub enum ParseError {
    /// `\` followed by a character that cannot be escaped, at the given position.
    InvalidEscape(usize, char),
    /// A `)` at the given position with no group open.
    InvalidRightParen(usize),
    /// A quantifier or `|` at the given position with nothing before it.
    NoPrev(usize),
    /// The pattern ended with a group still open.
    NoRightParen,
    /// The pattern produced no expression.
    Empty,
}

/// The characters that may follow `\`.
pub open spec fn is_escapable(c: char) -> bool {
    c == '\\' || c == '(' || c == ')' || c == '|' || c == '+' || c == '*' || c == '?'
}

/// Branches of one alternation, folded to the right: `[a, b, c]` gives
/// `a | (b | c)`; no branch gives no expression.
pub open spec fn fold_alts(s: Seq<Re>) -> Option<Re>
    decreases s.len(),
{
    if s.len() == 0 {
        None
    } else if s.len() == 1 {
        Some(s[0])
    } else {
        Some(Re::Or(Box::new(s[0]), Box::new(fold_alts(s.drop_first())->Some_0)))
    }
}

/// The branches of a level once its current sequence is closed: a non-empty
/// sequence becomes one more branch.
pub open spec fn close_branch(cur: Seq<Re>, alts: Seq<Re>) -> Seq<Re> {
    if cur.len() > 0 {
        alts.push(Re::Cat(cur))
    } else {
        alts
    }
}

/// Where the parser stands between two characters: the sequence being built,
/// the branches finished at this level, the saved outer levels, and whether the
/// previous character was `\`.
pub struct ParseState {
    pub cur: Seq<Re>,
    pub alts: Seq<Re>,
    pub stack: Seq<(Seq<Re>, Seq<Re>)>,
    pub escape: bool,
}

pub open spec fn initial_state() -> ParseState {
    ParseState { cur: Seq::empty(), alts: Seq::empty(), stack: Seq::empty(), escape: false }
}

/// `e` wrapped in the quantifier `q` (one of `+`, `*`, `?`).
pub open spec fn quantified(q: char, e: Re) -> Re {
    if q == '+' {
        Re::Plus(Box::new(e))
    } else if q == '*' {
        Re::Star(Box::new(e))
    } else {
        Re::Question(Box::new(e))
    }
}

/// The node that an ordinary (unescaped, non-operator) character stands for.
pub open spec fn atom(c: char) -> Re {
    if c == '.' {
        Re::Period
    } else if c == '^' {
        Re::Caret
    } else if c == '$' {
        Re::Dollar
    } else {
        Re::Char(c)
    }
}

/// The parser's move on character `c` at position `i`.
pub open spec fn step(st: ParseState, i: usize, c: char) -> Result<ParseState, ParseError> {
    if st.escape {
        if is_escapable(c) {
            Ok(ParseState { cur: st.cur.push(Re::Char(c)), escape: false, ..st })
        } else {
            Err(ParseError::InvalidEscape(i, c))
        }
    } else if c == '+' || c == '*' || c == '?' {
        if st.cur.len() == 0 {
            Err(ParseError::NoPrev(i))
        } else {
            Ok(ParseState { cur: st.cur.drop_last().push(quantified(c, st.cur.last())), ..st })
        }
    } else if c == '(' {
        Ok(ParseState { cur: Seq::empty(), alts: Seq::empty(), stack: st.stack.push((st.cur, st.alts)), escape: false })
    } else if c == ')' {
        if st.stack.len() == 0 {
            Err(ParseError::InvalidRightParen(i))
        } else {
            let outer = st.stack.last();
            let cur = match fold_alts(close_branch(st.cur, st.alts)) {
                Some(e) => outer.0.push(e),
                None => outer.0,
            };
            Ok(ParseState { cur, alts: outer.1, stack: st.stack.drop_last(), escape: false })
        }
    } else if c == '|' {
        if st.cur.len() == 0 {
            Err(ParseError::NoPrev(i))
        } else {
            Ok(ParseState { cur: Seq::empty(), alts: st.alts.push(Re::Cat(st.cur)), ..st })
        }
    } else if c == '\\' {
        Ok(ParseState { escape: true, ..st })
    } else {
        Ok(ParseState { cur: st.cur.push(atom(c)), ..st })
    }
}

/// The parser's state after the first `n` characters of `cs`, or the first error.
pub open spec fn run(cs: Seq<char>, n: nat) -> Result<ParseState, ParseError>
    decreases n,
{
    if n == 0 {
        Ok(initial_state())
    } else {
        match run(cs, (n - 1) as nat) {
            Ok(st) => step(st, (n - 1) as usize, cs[n - 1]),
            Err(e) => Err(e),
        }
    }
}

/// What parsing the pattern `cs` gives.
pub open spec fn parse_spec(cs: Seq<char>) -> Result<Re, ParseError> {
    match run(cs, cs.len()) {
        Err(e) => Err(e),
        Ok(st) => if st.stack.len() > 0 {
            Err(ParseError::NoRightParen)
        } else {
            match fold_alts(close_branch(st.cur, st.alts)) {
                Some(e) => Ok(e),
                None => Err(ParseError::Empty),
            }
        },
    }
}

pub proof fn lemma_run_err(cs: Seq<char>, m: nat, n: nat)
    requires
        m <= n,
        run(cs, m) is Err,
    ensures
        run(cs, n) == run(cs, m),
    decreases n,
{
    if n > m {
        lemma_run_err(cs, m, (n - 1) as nat);
    }
}


/// The saved outer levels, in mathematical form.
pub open spec fn stack_views(s: Seq<(Vec<AST>, Vec<AST>)>) -> Seq<(Seq<Re>, Seq<Re>)> {
    s.map_values(|p: (Vec<AST>, Vec<AST>)| (views(p.0@), views(p.1@)))
}

/// The node for an escaped character, or the error for one that cannot be escaped.
fn parse_escape(pos: usize, c: char) -> (r: Result<AST, ParseError>)
    ensures
        is_escapable(c) ==> r is Ok && r->Ok_0@ == Re::Char(c),
        !is_escapable(c) ==> r == Err::<AST, ParseError>(ParseError::InvalidEscape(pos, c)),
{
    match c {
        '\\' | '(' | ')' | '|' | '+' | '*' | '?' => Ok(AST::Char(c)),
        _ => {
            let err = ParseError::InvalidEscape(pos, c);
            Err(err)
        },
    }
}

/// The three postfix quantifiers.
enum PSQ {
    Plus,
    Star,
    Question,
}

spec fn psq_char(q: PSQ) -> char {
    match q {
        PSQ::Plus => '+',
        PSQ::Star => '*',
        PSQ::Question => '?',
    }
}

/// Wraps the last node of `seq` in the quantifier `ast_type`.
fn parse_plus_question(seq: &mut Vec<AST>, ast_type: PSQ, pos: usize) -> (r: Result<(), ParseError>)
    ensures
        old(seq)@.len() == 0 ==> r == Err::<(), ParseError>(ParseError::NoPrev(pos)),
        old(seq)@.len() > 0 ==> r is Ok && views(final(seq)@) == views(old(seq)@).drop_last().push(
            quantified(psq_char(ast_type), views(old(seq)@).last()),
        ),
{
    proof {
        lemma_views(seq@);
    }
    if let Some(prev) = seq.pop() {
        proof {
            assert(old(seq)@.drop_last() =~= seq@);
            assert(views(old(seq)@) == views(seq@).push(prev@));
            assert(views(old(seq)@).drop_last() =~= views(seq@));
        }
        let ast = match ast_type {
            PSQ::Plus => AST::Plus(Box::new(prev)),
            PSQ::Star => AST::Star(Box::new(prev)),
            PSQ::Question => AST::Question(Box::new(prev)),
        };
        proof {
            lemma_views_push(seq@, ast);
        }
        seq.push(ast);
        Ok(())
    } else {
        Err(ParseError::NoPrev(pos))
    }
}

/// Folds the branches of one level into nested alternations, the first branch
/// tried first; `None` when there is no branch.
fn fold_or(seq_or: Vec<AST>) -> (r: Option<AST>)
    ensures
        match fold_alts(views(seq_or@)) {
            None => r is None,
            Some(e) => r is Some && r->Some_0@ == e,
        },
{
    let ghost all = views(seq_or@);
    proof {
        lemma_views(seq_or@);
        assert(all.subrange(0, seq_or@.len() as int) =~= all);
    }
    let mut rest = seq_or;
    let mut acc: Option<AST> = None;
    while rest.len() > 0
        invariant
            rest@.len() <= all.len(),
            views(rest@) == all.subrange(0, rest@.len() as int),
            acc is None ==> rest@.len() == all.len(),
            match fold_alts(all.subrange(rest@.len() as int, all.len() as int)) {
                None => acc is None,
                Some(e) => acc is Some && acc->Some_0@ == e,
            },
        decreases rest@.len(),
    {
        let ghost before = rest@;
        let s = rest.pop().unwrap();
        proof {
            assert(before.drop_last() =~= rest@);
            assert(views(before) == views(rest@).push(s@));
            assert(views(rest@) =~= all.subrange(0, rest@.len() as int));
            let k = rest@.len() as int;
            let tail = all.subrange(k, all.len() as int);
            assert(tail.drop_first() =~= all.subrange(k + 1, all.len() as int));
            assert(views(before)[k] == s@);
            assert(all[k] == views(before)[k]);
            assert(tail[0] == s@);
        }
        acc = match acc {
            None => Some(s),
            Some(a) => Some(AST::Or(Box::new(s), Box::new(a))),
        };
    }
    proof {
        assert(all.subrange(0, all.len() as int) =~= all);
    }
    acc
}


/// The node for a character that is no operator.
fn atom_of(c: char) -> (r: AST)
    ensures
        r@ == atom(c),
{
    if c == '.' {
        AST::Period
    } else if c == '^' {
        AST::Caret
    } else if c == '$' {
        AST::Dollar
    } else {
        AST::Char(c)
    }
}

/// Parses a pattern into its syntax tree.
pub fn parse(expr: &str) -> (r: Result<AST, ParseError>)
    ensures
        match parse_spec(expr@) {
            Ok(e) => r is Ok && r->Ok_0@ == e,
            Err(e) => r == Err::<AST, ParseError>(e),
        },
{
    let cs = crate::helper::to_chars(expr);
    let mut seq: Vec<AST> = Vec::new();
    let mut seq_or: Vec<AST> = Vec::new();
    let mut stack: Vec<(Vec<AST>, Vec<AST>)> = Vec::new();
    let mut escape = false;
    let mut i: usize = 0;
    proof {
        assert(stack_views(stack@) =~= Seq::empty());
        assert(ParseState { cur: views(seq@), alts: views(seq_or@), stack: stack_views(stack@), escape }
            == initial_state());
    }
    while i < cs.len()
        invariant
            cs@ == expr@,
            i <= cs@.len(),
            run(expr@, i as nat) == Ok::<ParseState, ParseError>(
                ParseState { cur: views(seq@), alts: views(seq_or@), stack: stack_views(stack@), escape },
            ),
        decreases cs@.len() - i,
    {
        let c = cs[i];
        let ghost st = ParseState { cur: views(seq@), alts: views(seq_or@), stack: stack_views(stack@), escape };
        proof {
            lemma_views(seq@);
            lemma_views(seq_or@);
        }
        let res: Result<(), ParseError> = if escape {
            match parse_escape(i, c) {
                Ok(ast) => {
                    proof {
                        lemma_views_push(seq@, ast);
                    }
                    seq.push(ast);
                    escape = false;
                    Ok(())
                },
                Err(e) => Err(e),
            }
        } else {
            match c {
                '+' => parse_plus_question(&mut seq, PSQ::Plus, i),
                '*' => parse_plus_question(&mut seq, PSQ::Star, i),
                '?' => parse_plus_question(&mut seq, PSQ::Question, i),
                '(' => {
                    let ghost old_stack = stack@;
                    stack.push((seq, seq_or));
                    seq = Vec::new();
                    seq_or = Vec::new();
                    proof {
                        assert(stack_views(stack@) =~= stack_views(old_stack).push((st.cur, st.alts)));
                        assert(views(seq@) =~= Seq::<Re>::empty());
                        assert(views(seq_or@) =~= Seq::<Re>::empty());
                    }
                    Ok(())
                },
                ')' => {
                    let ghost old_stack = stack@;
                    if let Some((mut prev, prev_or)) = stack.pop() {
                        proof {
                            assert(stack_views(stack@) =~= stack_views(old_stack).drop_last());
                            assert(st.stack.last() == (views(prev@), views(prev_or@)));
                        }
                        if seq.len() > 0 {
                            proof {
                                lemma_views_push(seq_or@, AST::Cat(seq));
                            }
                            seq_or.push(AST::Cat(seq));
                        }
                        assert(views(seq_or@) == close_branch(st.cur, st.alts));
                        if let Some(ast) = fold_or(seq_or) {
                            proof {
                                lemma_views_push(prev@, ast);
                            }
                            prev.push(ast);
                        }
                        seq = prev;
                        seq_or = prev_or;
                        Ok(())
                    } else {
                        Err(ParseError::InvalidRightParen(i))
                    }
                },
                '|' => {
                    if seq.len() == 0 {
                        Err(ParseError::NoPrev(i))
                    } else {
                        proof {
                            lemma_views_push(seq_or@, AST::Cat(seq));
                        }
                        seq_or.push(AST::Cat(seq));
                        seq = Vec::new();
                        proof {
                            assert(views(seq@) =~= Seq::<Re>::empty());
                        }
                        Ok(())
                    }
                },
                '\\' => {
                    escape = true;
                    Ok(())
                },
                _ => {
                    let ast = atom_of(c);
                    proof {
                        lemma_views_push(seq@, ast);
                    }
                    seq.push(ast);
                    Ok(())
                },
            }
        };
        proof {
            assert(run(expr@, (i + 1) as nat) == step(st, i, c));
        }
        if let Err(e) = res {
            proof {
                lemma_run_err(expr@, (i + 1) as nat, expr@.len());
            }
            return Err(e);
        }
        i = i + 1;
    }
    if stack.len() > 0 {
        return Err(ParseError::NoRightParen);
    }
    proof {
        lemma_views(seq@);
    }
    if seq.len() > 0 {
        proof {
            lemma_views_push(seq_or@, AST::Cat(seq));
        }
        seq_or.push(AST::Cat(seq));
    }
    if let Some(ast) = fold_or(seq_or) {
        Ok(ast)
    } else {
        Err(ParseError::Empty)
    }
}


/// A character that is no operator of the pattern syntax.
pub open spec fn is_plain(c: char) -> bool {
    !(c == '+' || c == '*' || c == '?' || c == '(' || c == ')' || c == '|' || c == '\\')
}

/// The nodes for a run of plain characters.
pub open spec fn atoms(cs: Seq<char>) -> Seq<Re> {
    cs.map_values(|c: char| atom(c))
}

proof fn lemma_run_plain(cs: Seq<char>, n: nat)
    requires
        n <= cs.len(),
        forall|i: int| 0 <= i < cs.len() ==> is_plain(#[trigger] cs[i]),
    ensures
        run(cs, n) == Ok::<ParseState, ParseError>(ParseState { cur: atoms(cs.take(n as int)), ..initial_state() }),
    decreases n,
{
    if n == 0 {
        assert(atoms(cs.take(0)) =~= Seq::<Re>::empty());
    } else {
        lemma_run_plain(cs, (n - 1) as nat);
        assert(is_plain(cs[n - 1]));
        assert(atoms(cs.take(n as int)) =~= atoms(cs.take(n - 1)).push(atom(cs[n - 1])));
    }
}

/// A pattern of plain characters parses to the sequence of their nodes.
pub proof fn lemma_parse_plain(cs: Seq<char>)
    requires
        cs.len() > 0,
        forall|i: int| 0 <= i < cs.len() ==> is_plain(#[trigger] cs[i]),
    ensures
        parse_spec(cs) == Ok::<Re, ParseError>(Re::Cat(atoms(cs))),
{
    lemma_run_plain(cs, cs.len());
    assert(cs.take(cs.len() as int) =~= cs);
    let alts = close_branch(atoms(cs), Seq::empty());
    assert(alts =~= seq![Re::Cat(atoms(cs))]);
}

} // verus!
