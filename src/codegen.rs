use vstd::prelude::*;
use crate::ast::{AST, Re, views, lemma_views};
use crate::parser::{atom, atoms};
use crate::engine::Instruction;
use crate::helper::safe_add;

verus! {

broadcast use vstd::std_specs::vec::group_vec_axioms, vstd::seq::group_seq_axioms;

/// Why code generation failed.
#[derive(Debug, Clone, Copy, PartialEq, Eq, Structural)]
pub enum CodeGenError {
    /// An address does not fit in `usize`.
    PCOverFlow,
    /// The split of a repetition was not where it was emitted.
    FailStar,
    /// The split or jump of an alternation was not where it was emitted.
    FailOr,
    /// The split of an optional part was not where it was emitted.
    FailQuestion,
}

/// The code for `e` when its first instruction stands at address `pc`.
/// Nested repetition (`(e*)*`, and a one-element sequence holding a `*`
/// under a `*`) is generated as the inner repetition alone.
pub open spec fn code_of(e: Re, pc: int) -> Seq<Instruction>
    decreases e, 0int,
{
    match e {
        Re::Char(c) => seq![Instruction::Char(c)],
        Re::Period => seq![Instruction::AnyChar],
        Re::Caret => seq![Instruction::Head],
        Re::Dollar => seq![Instruction::MatchEnd],
        Re::Plus(b) => {
            let body = code_of(*b, pc);
            body.push(Instruction::Split(pc as usize, (pc + body.len() + 1) as usize))
        },
        Re::Star(b) => match *b {
            Re::Star(_) => code_of(*b, pc),
            Re::Cat(s) => if s.len() == 1 && s[0] is Star {
                code_of(s[0], pc)
            } else {
                star_code(*b, pc)
            },
            _ => star_code(*b, pc),
        },
        Re::Question(b) => {
            let body = code_of(*b, pc + 1);
            seq![Instruction::Split((pc + 1) as usize, (pc + 1 + body.len()) as usize)] + body
        },
        Re::Or(a, b) => {
            let left = code_of(*a, pc + 1);
            let right = code_of(*b, pc + 2 + left.len());
            seq![Instruction::Split((pc + 1) as usize, (pc + 2 + left.len()) as usize)] + left
                + seq![Instruction::Jump((pc + 2 + left.len() + right.len()) as usize)] + right
        },
        Re::Cat(s) => cat_code(s, 0, pc),
    }
}

/// Plain repetition of `b` starting at `pc`: a split that enters or leaves
/// the loop, the body, and a jump back to the split.
pub open spec fn star_code(b: Re, pc: int) -> Seq<Instruction>
    decreases b, 1int,
{
    let body = code_of(b, pc + 1);
    seq![Instruction::Split((pc + 1) as usize, (pc + 2 + body.len()) as usize)] + body
        + seq![Instruction::Jump(pc as usize)]
}

/// The code for `s[k..]` one after the other, starting at `pc`.
pub open spec fn cat_code(s: Seq<Re>, k: int, pc: int) -> Seq<Instruction>
    decreases s, s.len() - k,
{
    if k < 0 || k >= s.len() {
        Seq::empty()
    } else {
        let head = code_of(s[k], pc);
        head + cat_code(s, k + 1, pc + head.len())
    }
}


/// Builds a program one instruction at a time; `pc` is the address of the
/// next instruction, which is the number emitted so far.
struct Generator {
    pc: usize,
    insts: Vec<Instruction>,
}

impl Generator {
    spec fn inv(&self) -> bool {
        self.pc == self.insts@.len()
    }

    /// Moves `pc` on by one, failing instead of wrapping.
    fn inc_pc(&mut self) -> (r: Result<(), CodeGenError>)
        ensures
            final(self).insts == old(self).insts,
            old(self).pc < usize::MAX ==> r is Ok && final(self).pc == old(self).pc + 1,
            old(self).pc == usize::MAX ==> r == Err::<(), CodeGenError>(CodeGenError::PCOverFlow),
    {
        let overflow = || -> (e: CodeGenError)
            ensures
                e == CodeGenError::PCOverFlow,
        {
            CodeGenError::PCOverFlow
        };
        safe_add(&mut self.pc, &1, overflow)
    }

    /// Appends one instruction.
    fn gen_inst(&mut self, inst: Instruction) -> (r: Result<(), CodeGenError>)
        requires
            old(self).inv(),
        ensures
            emitted(&*old(self), &*final(self), r, seq![inst]),
    {
        self.insts.push(inst);
        assert(self.insts@ =~= old(self).insts@ + seq![inst]);
        self.inc_pc()?;
        Ok(())
    }

    fn gen_char(&mut self, c: char) -> (r: Result<(), CodeGenError>)
        requires
            old(self).inv(),
        ensures
            emitted(&*old(self), &*final(self), r, seq![Instruction::Char(c)]),
    {
        let inst = Instruction::Char(c);
        self.gen_inst(inst)
    }

    fn gen_caret(&mut self) -> (r: Result<(), CodeGenError>)
        requires
            old(self).inv(),
        ensures
            emitted(&*old(self), &*final(self), r, seq![Instruction::Head]),
    {
        let inst = Instruction::Head;
        self.gen_inst(inst)
    }

    fn gen_dollar(&mut self) -> (r: Result<(), CodeGenError>)
        requires
            old(self).inv(),
        ensures
            emitted(&*old(self), &*final(self), r, seq![Instruction::MatchEnd]),
    {
        let inst = Instruction::MatchEnd;
        self.gen_inst(inst)
    }

    fn gen_period(&mut self) -> (r: Result<(), CodeGenError>)
        requires
            old(self).inv(),
        ensures
            emitted(&*old(self), &*final(self), r, seq![Instruction::AnyChar]),
    {
        let inst = Instruction::AnyChar;
        self.gen_inst(inst)
    }
}

/// `g1` is `g0` with `code` appended, or the program did not fit and the
/// error says so; which of the two is decided by the length of `code` alone.
spec fn emitted(g0: &Generator, g1: &Generator, r: Result<(), CodeGenError>, code: Seq<Instruction>) -> bool {
    &&& (r is Ok <==> g0.pc + code.len() <= usize::MAX)
    &&& r is Ok ==> g1.inv() && g1.insts@ == g0.insts@ + code
    &&& r is Err ==> r->Err_0 == CodeGenError::PCOverFlow
}

impl Generator {
    /// Appends the code of `ast`, then the final `Match`.
    fn gen_code(&mut self, ast: &AST) -> (r: Result<(), CodeGenError>)
        requires
            old(self).inv(),
        ensures
            emitted(
                &*old(self),
                &*final(self),
                r,
                code_of(ast@, old(self).pc as int).push(Instruction::Match),
            ),
    {
        self.gen_expr(ast)?;
        self.inc_pc()?;
        self.insts.push(Instruction::Match);
        assert(self.insts@ =~= old(self).insts@ + code_of(ast@, old(self).pc as int).push(Instruction::Match));
        Ok(())
    }

    /// Appends the code of `ast`.
    fn gen_expr(&mut self, ast: &AST) -> (r: Result<(), CodeGenError>)
        requires
            old(self).inv(),
        ensures
            emitted(&*old(self), &*final(self), r, code_of(ast@, old(self).pc as int)),
        decreases ast, 1int,
    {
        match ast {
            AST::Char(c) => self.gen_char(*c)?,
            AST::Period => self.gen_period()?,
            AST::Caret => self.gen_caret()?,
            AST::Dollar => self.gen_dollar()?,
            AST::Or(_, _) => self.gen_or(ast)?,
            AST::Plus(e) => self.gen_plus(e)?,
            AST::Star(e) => {
                match &**e {
                    // `((e*)*)*` is generated as `e*`: repeating a repetition
                    // matches nothing more, and the nested loops would let the
                    // evaluator spin without consuming input.
                    AST::Star(_) => self.gen_expr(e)?,
                    AST::Cat(e2) => {
                        proof {
                            lemma_views(e2@);
                        }
                        if e2.len() == 1 {
                            if let AST::Star(_) = &e2[0] {
                                assert(e@ == Re::Cat(views(e2@)));
                                assert(views(e2@)[0] is Star);
                                assert(code_of(ast@, self.pc as int) == code_of(e2@[0]@, self.pc as int));
                                self.gen_expr(&e2[0])?
                            } else {
                                self.gen_star(e)?
                            }
                        } else {
                            self.gen_star(e)?
                        }
                    },
                    _ => self.gen_star(e)?,
                }
            },
            AST::Question(e) => self.gen_question(e)?,
            AST::Cat(_) => self.gen_seq(ast)?,
        }
        Ok(())
    }

    /// Appends the code of the children of the sequence `ast`, in order.
    fn gen_seq(&mut self, ast: &AST) -> (r: Result<(), CodeGenError>)
        requires
            old(self).inv(),
            ast is Cat,
        ensures
            emitted(&*old(self), &*final(self), r, code_of(ast@, old(self).pc as int)),
        decreases ast, 0int,
    {
        match ast {
            AST::Cat(exprs) => {
                let ghost s = views(exprs@);
                let ghost pc_start = self.pc as int;
                let ghost insts_start = self.insts@;
                proof {
                    lemma_views(exprs@);
                    assert(code_of(ast@, pc_start) == cat_code(s, 0, pc_start));
                }
                let mut i: usize = 0;
                while i < exprs.len()
                    invariant
                        s == views(exprs@),
                        s.len() == exprs@.len(),
                        forall|j: int| 0 <= j < s.len() ==> #[trigger] s[j] == exprs@[j]@,
                        ast == AST::Cat(*exprs),
                        pc_start == old(self).pc,
                        insts_start == old(self).insts@,
                        code_of(ast@, pc_start) == cat_code(s, 0, pc_start),
                        self.inv(),
                        i <= exprs.len(),
                        self.insts@ + cat_code(s, i as int, self.pc as int) == insts_start + cat_code(s, 0, pc_start),
                        self.pc + cat_code(s, i as int, self.pc as int).len() == pc_start + cat_code(s, 0, pc_start).len(),
                    decreases exprs.len() - i,
                {
                    let ghost pc = self.pc as int;
                    let ghost before = self.insts@;
                    let ghost head = code_of(s[i as int], pc);
                    proof {
                        assert(cat_code(s, i as int, pc) == head + cat_code(s, i + 1, pc + head.len()));
                        assert(head == code_of(exprs@[i as int]@, pc));
                        assert(decreases_to!(*exprs => exprs[i as int]));
                    }
                    let res = self.gen_expr(&exprs[i]);
                    if res.is_err() {
                        assert(cat_code(s, i as int, pc).len() >= head.len());
                        return res;
                    }
                    proof {
                        assert(self.insts@ + cat_code(s, i + 1, self.pc as int) =~= before + cat_code(s, i as int, pc));
                    }
                    i = i + 1;
                }
                assert(self.insts@ =~= insts_start + cat_code(s, 0, pc_start));
                Ok(())
            },
            _ => Ok(()),
        }
    }

    /// Appends `e1|e2` for the alternation `ast`: a split to the two branches,
    /// the first branch, a jump past the second, the second branch.
    fn gen_or(&mut self, ast: &AST) -> (r: Result<(), CodeGenError>)
        requires
            old(self).inv(),
            ast is Or,
        ensures
            emitted(&*old(self), &*final(self), r, code_of(ast@, old(self).pc as int)),
        decreases ast, 0int,
    {
        match ast {
            AST::Or(e1, e2) => {
                let ghost pc_start = self.pc as int;
                let ghost insts_start = self.insts@;
                let ghost left = code_of(e1@, pc_start + 1);
                let ghost right = code_of(e2@, pc_start + 2 + left.len());
                let split_addr = self.pc;
                self.inc_pc()?;

                let split = Instruction::Split(self.pc, 0);
                self.insts.push(split);

                self.gen_expr(e1)?;

                let jmp_addr = self.pc;
                self.insts.push(Instruction::Jump(0));

                self.inc_pc()?;
                if split_addr < self.insts.len() {
                    if let Instruction::Split(l1, _) = self.insts[split_addr] {
                        self.insts.set(split_addr, Instruction::Split(l1, self.pc));
                    } else {
                        return Err(CodeGenError::FailOr);
                    }
                } else {
                    return Err(CodeGenError::FailOr);
                }

                self.gen_expr(e2)?;

                if jmp_addr < self.insts.len() {
                    if let Instruction::Jump(_) = self.insts[jmp_addr] {
                        self.insts.set(jmp_addr, Instruction::Jump(self.pc));
                    } else {
                        return Err(CodeGenError::FailOr);
                    }
                } else {
                    return Err(CodeGenError::FailOr);
                }
                assert(self.insts@ =~= insts_start + code_of(ast@, pc_start));
                Ok(())
            },
            _ => Err(CodeGenError::FailOr),
        }
    }

    /// Appends `e+`: the body, then a split back to its start or onwards.
    fn gen_plus(&mut self, e: &AST) -> (r: Result<(), CodeGenError>)
        requires
            old(self).inv(),
        ensures
            emitted(&*old(self), &*final(self), r, code_of(Re::Plus(Box::new(e@)), old(self).pc as int)),
        decreases e, 2int,
    {
        let l1 = self.pc;
        self.gen_expr(e)?;

        self.inc_pc()?;
        let split = Instruction::Split(l1, self.pc);
        self.insts.push(split);
        assert(self.insts@ =~= old(self).insts@ + code_of(Re::Plus(Box::new(e@)), l1 as int));
        Ok(())
    }

    /// Appends `e*`: a split into the body or past it, the body, a jump back
    /// to the split.
    fn gen_star(&mut self, e: &AST) -> (r: Result<(), CodeGenError>)
        requires
            old(self).inv(),
        ensures
            emitted(&*old(self), &*final(self), r, star_code(e@, old(self).pc as int)),
        decreases e, 2int,
    {
        let l1 = self.pc;
        self.inc_pc()?;
        let split = Instruction::Split(self.pc, 0);
        self.insts.push(split);

        self.gen_expr(e)?;

        self.inc_pc()?;
        self.insts.push(Instruction::Jump(l1));

        if l1 < self.insts.len() {
            if let Instruction::Split(a, _) = self.insts[l1] {
                self.insts.set(l1, Instruction::Split(a, self.pc));
                assert(self.insts@ =~= old(self).insts@ + star_code(e@, l1 as int));
                Ok(())
            } else {
                Err(CodeGenError::FailStar)
            }
        } else {
            Err(CodeGenError::FailStar)
        }
    }

    /// Appends `e?`: a split into the body or past it, then the body.
    fn gen_question(&mut self, e: &AST) -> (r: Result<(), CodeGenError>)
        requires
            old(self).inv(),
        ensures
            emitted(&*old(self), &*final(self), r, code_of(Re::Question(Box::new(e@)), old(self).pc as int)),
        decreases e, 2int,
    {
        let split_addr = self.pc;
        self.inc_pc()?;
        let split = Instruction::Split(self.pc, 0);
        self.insts.push(split);

        self.gen_expr(e)?;

        if split_addr < self.insts.len() {
            if let Instruction::Split(a, _) = self.insts[split_addr] {
                self.insts.set(split_addr, Instruction::Split(a, self.pc));
                assert(self.insts@ =~= old(self).insts@ + code_of(Re::Question(Box::new(e@)), split_addr as int));
                Ok(())
            } else {
                Err(CodeGenError::FailQuestion)
            }
        } else {
            Err(CodeGenError::FailQuestion)
        }
    }
}

/// Compiles a syntax tree into a program: the code of the tree followed by
/// one `Match`. Fails with `PCOverFlow` exactly when that program would be
/// longer than `usize::MAX` instructions.
pub fn get_code(ast: &AST) -> (r: Result<Vec<Instruction>, CodeGenError>)
    ensures
        r is Ok <==> code_of(ast@, 0).len() + 1 <= usize::MAX,
        r is Ok ==> r->Ok_0@ == code_of(ast@, 0).push(Instruction::Match),
        r is Err ==> r->Err_0 == CodeGenError::PCOverFlow,
{
    let mut generator = Generator { pc: 0, insts: Vec::new() };
    generator.gen_code(ast)?;
    assert(generator.insts@ =~= code_of(ast@, 0).push(Instruction::Match));
    Ok(generator.insts)
}


/// Every jump and split of `code` targets an address in `lo..=hi`.
pub open spec fn targets_within(code: Seq<Instruction>, lo: int, hi: int) -> bool {
    forall|i: int| 0 <= i < code.len() ==> match #[trigger] code[i] {
        Instruction::Jump(a) => lo <= a <= hi,
        Instruction::Split(a, b) => lo <= a <= hi && lo <= b <= hi,
        _ => true,
    }
}

proof fn lemma_targets_concat(a: Seq<Instruction>, b: Seq<Instruction>, lo: int, hi: int)
    requires
        targets_within(a, lo, hi),
        targets_within(b, lo, hi),
    ensures
        targets_within(a + b, lo, hi),
{
    assert forall|i: int| 0 <= i < (a + b).len() implies match #[trigger] (a + b)[i] {
        Instruction::Jump(x) => lo <= x <= hi,
        Instruction::Split(x, y) => lo <= x <= hi && lo <= y <= hi,
        _ => true,
    } by {
        if i < a.len() {
            assert((a + b)[i] == a[i]);
        } else {
            assert((a + b)[i] == b[i - a.len()]);
        }
    }
}

proof fn lemma_targets_widen(a: Seq<Instruction>, lo: int, hi: int, lo2: int, hi2: int)
    requires
        targets_within(a, lo, hi),
        lo2 <= lo,
        hi <= hi2,
    ensures
        targets_within(a, lo2, hi2),
{
    assert forall|i: int| 0 <= i < a.len() implies match #[trigger] a[i] {
        Instruction::Jump(x) => lo2 <= x <= hi2,
        Instruction::Split(x, y) => lo2 <= x <= hi2 && lo2 <= y <= hi2,
        _ => true,
    } by {
        assert(match a[i] {
            Instruction::Jump(x) => lo <= x <= hi,
            Instruction::Split(x, y) => lo <= x <= hi && lo <= y <= hi,
            _ => true,
        });
    }
}

/// The code of `e` placed at `pc` jumps only within itself or to the address
/// right after it.
pub proof fn lemma_code_targets(e: Re, pc: int)
    requires
        0 <= pc,
        pc + code_of(e, pc).len() <= usize::MAX,
    ensures
        targets_within(code_of(e, pc), pc, pc + code_of(e, pc).len()),
    decreases e, 0int,
{
    let code = code_of(e, pc);
    match e {
        Re::Plus(b) => {
            let body = code_of(*b, pc);
            lemma_code_targets(*b, pc);
            lemma_targets_widen(body, pc, pc + body.len(), pc, pc + code.len());
            let tail = seq![Instruction::Split(pc as usize, (pc + body.len() + 1) as usize)];
            assert(tail[0] == Instruction::Split(pc as usize, (pc + body.len() + 1) as usize));
            lemma_targets_concat(body, tail, pc, pc + code.len());
            assert(code =~= body + tail);
        },
        Re::Star(b) => match *b {
            Re::Star(_) => {
                lemma_code_targets(*b, pc);
            },
            Re::Cat(s) => if s.len() == 1 && s[0] is Star {
                lemma_code_targets(s[0], pc);
            } else {
                lemma_star_targets(*b, pc);
            },
            _ => {
                lemma_star_targets(*b, pc);
            },
        },
        Re::Question(b) => {
            let body = code_of(*b, pc + 1);
            lemma_code_targets(*b, pc + 1);
            lemma_targets_widen(body, pc + 1, pc + 1 + body.len(), pc, pc + code.len());
            let head = seq![Instruction::Split((pc + 1) as usize, (pc + 1 + body.len()) as usize)];
            assert(head[0] == Instruction::Split((pc + 1) as usize, (pc + 1 + body.len()) as usize));
            lemma_targets_concat(head, body, pc, pc + code.len());
        },
        Re::Or(a, b) => {
            let left = code_of(*a, pc + 1);
            let right = code_of(*b, pc + 2 + left.len());
            lemma_code_targets(*a, pc + 1);
            lemma_code_targets(*b, pc + 2 + left.len());
            let hi = pc + code.len();
            lemma_targets_widen(left, pc + 1, pc + 1 + left.len(), pc, hi);
            lemma_targets_widen(right, pc + 2 + left.len(), pc + 2 + left.len() + right.len(), pc, hi);
            let s1 = seq![Instruction::Split((pc + 1) as usize, (pc + 2 + left.len()) as usize)];
            let j = seq![Instruction::Jump((pc + 2 + left.len() + right.len()) as usize)];
            assert(s1[0] == Instruction::Split((pc + 1) as usize, (pc + 2 + left.len()) as usize));
            assert(j[0] == Instruction::Jump((pc + 2 + left.len() + right.len()) as usize));
            lemma_targets_concat(s1, left, pc, hi);
            lemma_targets_concat(s1 + left, j, pc, hi);
            lemma_targets_concat(s1 + left + j, right, pc, hi);
        },
        Re::Cat(s) => {
            lemma_cat_targets(s, 0, pc);
        },
        _ => {
            assert(code.len() == 1);
            assert(code[0] is Char || code[0] is AnyChar || code[0] is Head || code[0] is MatchEnd);
        },
    }
}

proof fn lemma_star_targets(b: Re, pc: int)
    requires
        0 <= pc,
        pc + star_code(b, pc).len() <= usize::MAX,
    ensures
        targets_within(star_code(b, pc), pc, pc + star_code(b, pc).len()),
    decreases b, 1int,
{
    let code = star_code(b, pc);
    let body = code_of(b, pc + 1);
    let hi = pc + code.len();
    lemma_code_targets(b, pc + 1);
    lemma_targets_widen(body, pc + 1, pc + 1 + body.len(), pc, hi);
    let s1 = seq![Instruction::Split((pc + 1) as usize, (pc + 2 + body.len()) as usize)];
    let j = seq![Instruction::Jump(pc as usize)];
    assert(s1[0] == Instruction::Split((pc + 1) as usize, (pc + 2 + body.len()) as usize));
    assert(j[0] == Instruction::Jump(pc as usize));
    lemma_targets_concat(s1, body, pc, hi);
    lemma_targets_concat(s1 + body, j, pc, hi);
}

proof fn lemma_cat_targets(s: Seq<Re>, k: int, pc: int)
    requires
        0 <= pc,
        pc + cat_code(s, k, pc).len() <= usize::MAX,
    ensures
        targets_within(cat_code(s, k, pc), pc, pc + cat_code(s, k, pc).len()),
    decreases s, s.len() - k,
{
    if 0 <= k < s.len() {
        let head = code_of(s[k], pc);
        let rest = cat_code(s, k + 1, pc + head.len());
        let hi = pc + head.len() + rest.len();
        lemma_code_targets(s[k], pc);
        lemma_cat_targets(s, k + 1, pc + head.len());
        lemma_targets_widen(head, pc, pc + head.len(), pc, hi);
        lemma_targets_widen(rest, pc + head.len(), hi, pc, hi);
        lemma_targets_concat(head, rest, pc, hi);
    }
}


/// Number of nodes of a tree.
pub open spec fn re_size(e: Re) -> nat
    decreases e, 0int,
{
    match e {
        Re::Plus(b) => 1 + re_size(*b),
        Re::Star(b) => 1 + re_size(*b),
        Re::Question(b) => 1 + re_size(*b),
        Re::Or(a, b) => 1 + re_size(*a) + re_size(*b),
        Re::Cat(s) => 1 + seq_size(s, 0),
        _ => 1,
    }
}

/// Number of nodes of the trees `s[k..]`.
pub open spec fn seq_size(s: Seq<Re>, k: int) -> nat
    decreases s, s.len() - k,
{
    if 0 <= k < s.len() {
        re_size(s[k]) + seq_size(s, k + 1)
    } else {
        0
    }
}

/// The code of a tree has at most two instructions per node: nested
/// repetition adds nothing, so the program grows linearly with the tree.
pub proof fn lemma_code_size(e: Re, pc: int)
    ensures
        code_of(e, pc).len() <= 2 * re_size(e),
    decreases e, 0int,
{
    match e {
        Re::Plus(b) => {
            lemma_code_size(*b, pc);
            assert(code_of(e, pc).len() == code_of(*b, pc).len() + 1);
        },
        Re::Star(b) => {
            lemma_code_size(*b, pc + 1);
            assert(star_code(*b, pc).len() == code_of(*b, pc + 1).len() + 2);
            match *b {
                Re::Star(_) => {
                    lemma_code_size(*b, pc);
                },
                Re::Cat(s) => if s.len() == 1 && s[0] is Star {
                    lemma_code_size(s[0], pc);
                    assert(seq_size(s, 0) == re_size(s[0]) + seq_size(s, 1));
                },
                _ => {},
            }
        },
        Re::Question(b) => {
            lemma_code_size(*b, pc + 1);
        },
        Re::Or(a, b) => {
            lemma_code_size(*a, pc + 1);
            lemma_code_size(*b, pc + 2 + code_of(*a, pc + 1).len());
        },
        Re::Cat(s) => {
            lemma_cat_size(s, 0, pc);
        },
        _ => {},
    }
}

proof fn lemma_cat_size(s: Seq<Re>, k: int, pc: int)
    ensures
        cat_code(s, k, pc).len() <= 2 * seq_size(s, k),
    decreases s, s.len() - k,
{
    if 0 <= k < s.len() {
        lemma_code_size(s[k], pc);
        lemma_cat_size(s, k + 1, pc + code_of(s[k], pc).len());
    }
}


/// The instruction for a plain pattern character.
pub open spec fn atom_inst(c: char) -> Instruction {
    if c == '.' {
        Instruction::AnyChar
    } else if c == '^' {
        Instruction::Head
    } else if c == '$' {
        Instruction::MatchEnd
    } else {
        Instruction::Char(c)
    }
}

/// A sequence of plain-character nodes compiles to one instruction each.
pub proof fn lemma_code_plain(cs: Seq<char>, k: int)
    requires
        0 <= k <= cs.len(),
    ensures
        cat_code(atoms(cs), k, k) == cs.subrange(k, cs.len() as int).map_values(|c: char| atom_inst(c)),
    decreases cs.len() - k,
{
    let s = atoms(cs);
    if k < cs.len() {
        lemma_code_plain(cs, k + 1);
        assert(s[k] == atom(cs[k]));
        assert(code_of(s[k], k) == seq![atom_inst(cs[k])]);
        assert(cs.subrange(k, cs.len() as int).map_values(|c: char| atom_inst(c)) =~= seq![atom_inst(cs[k])]
            + cs.subrange(k + 1, cs.len() as int).map_values(|c: char| atom_inst(c)));
    } else {
        assert(cs.subrange(k, cs.len() as int).map_values(|c: char| atom_inst(c)) =~= Seq::<Instruction>::empty());
    }
}

} // verus!
