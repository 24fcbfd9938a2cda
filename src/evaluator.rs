use vstd::prelude::*;
use crate::engine::{EvalResult, Instruction, merge_spec};
use crate::helper::safe_add;
use crate::codegen::targets_within;
use vstd::arithmetic::power2::{pow2, lemma_pow2_unfold, lemma_pow2_strictly_increases, lemma_pow2_pos};

verus! {

broadcast use vstd::std_specs::vec::group_vec_axioms, vstd::seq::group_seq_axioms;

/// Why an evaluation failed.
#[derive(Debug, Clone, Copy, PartialEq, Eq, Structural)]
pub enum EvalError {
    /// The program counter does not fit in `usize`.
    PCOverFlow,
    /// The input offset does not fit in `usize`.
    SPOverFlow,
    /// The program counter left the program.
    InvalidPC,
    /// A saved alternative was needed and none was left.
    InvalidContext,
}

pub open spec fn no_match() -> EvalResult {
    EvalResult { matched: false, should_be_head: false }
}

/// A match, needing the line start when `head` holds.
pub open spec fn match_with(head: bool) -> EvalResult {
    EvalResult { matched: true, should_be_head: head }
}

/// Outcome of depth-first evaluation of `p` on `line` from instruction `pc` at
/// offset `sp`, where `head` records that a `^` has been passed and `idle`
/// counts the steps taken since a character was last consumed. Both branches
/// of a split are followed and merged. A path whose idle steps reach the number
/// of instructions has come back to an instruction at the same offset; it is cut,
/// as a shorter path already gives whatever it could give.
pub open spec fn depth_spec(p: Seq<Instruction>, line: Seq<char>, pc: int, sp: int, head: bool, idle: int) -> Result<EvalResult, EvalError>
    decreases line.len() - sp, p.len() - idle,
{
    if sp < 0 || sp > line.len() || idle < 0 {
        Ok(no_match())
    } else if pc < 0 || pc >= p.len() {
        Err(EvalError::InvalidPC)
    } else if idle >= p.len() {
        Ok(no_match())
    } else {
        match p[pc] {
            Instruction::Char(c) => if sp < line.len() && line[sp] == c {
                depth_spec(p, line, pc + 1, sp + 1, head, 0)
            } else {
                Ok(no_match())
            },
            Instruction::AnyChar => if sp < line.len() {
                depth_spec(p, line, pc + 1, sp + 1, head, 0)
            } else {
                Ok(no_match())
            },
            Instruction::Head => if sp != 0 {
                Ok(no_match())
            } else {
                depth_spec(p, line, pc + 1, sp, true, idle + 1)
            },
            Instruction::Match => Ok(match_with(head)),
            Instruction::MatchEnd => if sp < line.len() {
                Ok(no_match())
            } else {
                Ok(match_with(head))
            },
            Instruction::Jump(a) => depth_spec(p, line, a as int, sp, head, idle + 1),
            Instruction::Split(a1, a2) => match depth_spec(p, line, a1 as int, sp, head, idle + 1) {
                Err(e) => Err(e),
                Ok(r1) => match depth_spec(p, line, a2 as int, sp, head, idle + 1) {
                    Err(e) => Err(e),
                    Ok(r2) => Ok(merge_spec(r1, r2)),
                },
            },
        }
    }
}

/// Outcome of breadth-first evaluation from the same state as [`depth_spec`]:
/// the alternatives of a split are tried in order, and the first path that
/// reaches a match decides. `Some(h)` is a match, needing the line start when
/// `h` holds; `None` is no match.
pub open spec fn first_spec(p: Seq<Instruction>, line: Seq<char>, pc: int, sp: int, head: bool, idle: int) -> Result<Option<bool>, EvalError>
    decreases line.len() - sp, p.len() - idle,
{
    if sp < 0 || sp > line.len() || idle < 0 {
        Ok(None)
    } else if pc < 0 || pc >= p.len() {
        Err(EvalError::InvalidPC)
    } else if idle >= p.len() {
        Ok(None)
    } else {
        match p[pc] {
            Instruction::Char(c) => if sp < line.len() && line[sp] == c {
                first_spec(p, line, pc + 1, sp + 1, head, 0)
            } else {
                Ok(None)
            },
            Instruction::AnyChar => if sp < line.len() {
                first_spec(p, line, pc + 1, sp + 1, head, 0)
            } else {
                Ok(None)
            },
            Instruction::Head => if sp != 0 {
                Ok(None)
            } else {
                first_spec(p, line, pc + 1, sp, true, idle + 1)
            },
            Instruction::Match => Ok(Some(head)),
            Instruction::MatchEnd => if sp < line.len() {
                Ok(None)
            } else {
                Ok(Some(head))
            },
            Instruction::Jump(a) => first_spec(p, line, a as int, sp, head, idle + 1),
            Instruction::Split(a1, a2) => match first_spec(p, line, a1 as int, sp, head, idle + 1) {
                Ok(None) => first_spec(p, line, a2 as int, sp, head, idle + 1),
                other => other,
            },
        }
    }
}

/// What breadth-first evaluation reports for an outcome of [`first_spec`].
pub open spec fn width_result(o: Result<Option<bool>, EvalError>) -> Result<EvalResult, EvalError> {
    match o {
        Err(e) => Err(e),
        Ok(Some(h)) => Ok(match_with(h)),
        Ok(None) => Ok(no_match()),
    }
}

/// Depth-first evaluation from `pc` at offset `sp`.
fn eval_depth(
    inst: &[Instruction],
    line: &[char],
    pc0: usize,
    sp0: usize,
    head0: bool,
    idle0: usize,
) -> (r: Result<EvalResult, EvalError>)
    ensures
        r == depth_spec(inst@, line@, pc0 as int, sp0 as int, head0, idle0 as int),
    decreases line@.len() - sp0, inst@.len() - idle0,
{
    if sp0 > line.len() {
        return Ok(EvalResult::unmatched());
    }
    if pc0 >= inst.len() {
        return Err(EvalError::InvalidPC);
    }
    if idle0 >= inst.len() {
        return Ok(EvalResult::unmatched());
    }
    let mut pc = pc0;
    let mut sp = sp0;
    let mut should_be_head = head0;
    let mut idle = idle0;
    let ghost entry = depth_spec(inst@, line@, pc0 as int, sp0 as int, head0, idle0 as int);

    loop
        invariant
            sp <= line@.len(),
            idle <= inst@.len(),
            sp0 < sp || (sp0 == sp && idle0 <= idle),
            depth_spec(inst@, line@, pc as int, sp as int, should_be_head, idle as int) == entry,
            entry == depth_spec(inst@, line@, pc0 as int, sp0 as int, head0, idle0 as int),
        decreases line@.len() - sp, inst@.len() - idle,
    {
        if pc >= inst.len() {
            return Err(EvalError::InvalidPC);
        }
        if idle >= inst.len() {
            return Ok(EvalResult::unmatched());
        }
        let pc_overflow = || -> (e: EvalError)
            ensures
                e == EvalError::PCOverFlow,
        {
            EvalError::PCOverFlow
        };
        let sp_overflow = || -> (e: EvalError)
            ensures
                e == EvalError::SPOverFlow,
        {
            EvalError::SPOverFlow
        };
        match inst[pc] {
            Instruction::Char(c) => {
                if sp < line.len() && line[sp] == c {
                    safe_add(&mut pc, &1, pc_overflow)?;
                    safe_add(&mut sp, &1, sp_overflow)?;
                    idle = 0;
                } else {
                    return Ok(EvalResult::unmatched());
                }
            },
            Instruction::AnyChar => {
                if sp < line.len() {
                    safe_add(&mut pc, &1, pc_overflow)?;
                    safe_add(&mut sp, &1, sp_overflow)?;
                    idle = 0;
                } else {
                    return Ok(EvalResult::unmatched());
                }
            },
            Instruction::Head => {
                if sp != 0 {
                    return Ok(EvalResult::unmatched());
                } else {
                    should_be_head = true;
                    safe_add(&mut pc, &1, pc_overflow)?;
                    idle = idle + 1;
                }
            },
            Instruction::Match => {
                return if should_be_head {
                    Ok(EvalResult::matched_if_head())
                } else {
                    Ok(EvalResult::matched())
                };
            },
            Instruction::MatchEnd => {
                if sp < line.len() {
                    return Ok(EvalResult::unmatched());
                }
                return if should_be_head {
                    Ok(EvalResult::matched_if_head())
                } else {
                    Ok(EvalResult::matched())
                };
            },
            Instruction::Jump(addr) => {
                pc = addr;
                idle = idle + 1;
            },
            Instruction::Split(addr1, addr2) => {
                let r1 = eval_depth(inst, line, addr1, sp, should_be_head, idle + 1)?;
                let r2 = eval_depth(inst, line, addr2, sp, should_be_head, idle + 1)?;
                return Ok(r1.merge(&r2));
            },
        }
    }
}

/// A saved alternative of breadth-first evaluation: program counter, offset,
/// whether a `^` has been passed, and idle steps.
pub type Ctx = (usize, usize, bool, usize);

/// Outcome of breadth-first evaluation that stands at `cur` with the saved
/// alternatives `s`: `cur` first, then the alternatives from the last saved.
pub open spec fn chain(p: Seq<Instruction>, line: Seq<char>, cur: Ctx, s: Seq<Ctx>) -> Result<Option<bool>, EvalError>
    decreases s.len(),
{
    match first_spec(p, line, cur.0 as int, cur.1 as int, cur.2, cur.3 as int) {
        Ok(None) => if s.len() == 0 {
            Ok(None)
        } else {
            chain(p, line, s.last(), s.drop_last())
        },
        other => other,
    }
}

/// How far a state is from the end of every path through it: characters left
/// to consume, and idle steps left before the cut.
spec fn height(n: int, l: int, c: Ctx) -> nat {
    ((l - c.1) * (n + 1) + (n - c.3)) as nat
}

/// A bound on the number of steps left from a state: the size of a binary
/// tree of that height.
spec fn weight(n: int, l: int, c: Ctx) -> nat {
    (pow2(height(n, l, c) + 1) - 1) as nat
}

spec fn ctx_weight(n: int, l: int, s: Seq<Ctx>) -> nat
    decreases s.len(),
{
    if s.len() == 0 {
        0
    } else {
        ctx_weight(n, l, s.drop_last()) + weight(n, l, s.last())
    }
}

spec fn fits(n: int, l: int, c: Ctx) -> bool {
    c.1 <= l && c.3 <= n
}

proof fn lemma_ctx_weight_push(n: int, l: int, s: Seq<Ctx>, c: Ctx)
    ensures
        ctx_weight(n, l, s.push(c)) == ctx_weight(n, l, s) + weight(n, l, c),
{
    assert(s.push(c).drop_last() =~= s);
}

/// A step that consumes a character, or one idle step before the cut, lowers
/// the height.
proof fn lemma_height_step(n: int, l: int, a: Ctx, b: Ctx)
    requires
        0 <= a.1 <= l,
        0 <= a.3 <= n,
        (b.1 == a.1 + 1 && b.1 <= l && b.3 == 0) || (b.1 == a.1 && b.3 == a.3 + 1 && b.3 <= n),
    ensures
        height(n, l, b) < height(n, l, a),
        weight(n, l, b) < weight(n, l, a),
        b.1 == a.1 ==> 2 * weight(n, l, b) < weight(n, l, a),
{
    assert((l - a.1) * (n + 1) >= 0) by (nonlinear_arith)
        requires l - a.1 >= 0, n + 1 > 0;
    if b.1 == a.1 + 1 {
        assert((l - b.1) * (n + 1) == (l - a.1) * (n + 1) - (n + 1)) by (nonlinear_arith)
            requires b.1 == a.1 + 1;
        assert((l - b.1) * (n + 1) >= 0) by (nonlinear_arith)
            requires l - b.1 >= 0, n + 1 > 0;
    }
    let hb = height(n, l, b);
    let ha = height(n, l, a);
    lemma_pow2_strictly_increases(hb + 1, ha + 1);
    lemma_pow2_pos(hb + 1);
    if b.1 == a.1 {
        assert(ha == hb + 1);
        lemma_pow2_unfold(ha + 1);
    }
}

/// Takes the last saved alternative as the current state.
fn pop_ctx(
    pc: &mut usize,
    sp: &mut usize,
    should_be_head: &mut bool,
    idle: &mut usize,
    ctx: &mut Vec<Ctx>,
) -> (r: Result<(), EvalError>)
    ensures
        old(ctx)@.len() == 0 ==> r == Err::<(), EvalError>(EvalError::InvalidContext),
        old(ctx)@.len() > 0 ==> {
            &&& r is Ok
            &&& final(ctx)@ == old(ctx)@.drop_last()
            &&& (*final(pc), *final(sp), *final(should_be_head), *final(idle)) == old(ctx)@.last()
        },
{
    if let Some((p, s, sh, i)) = ctx.pop() {
        *pc = p;
        *sp = s;
        *should_be_head = sh;
        *idle = i;
        Ok(())
    } else {
        Err(EvalError::InvalidContext)
    }
}

/// Breadth-first evaluation from the first instruction at offset zero: a split
/// saves its second alternative and goes on with the first; a failing path
/// resumes the alternative saved last.
fn eval_width(inst: &[Instruction], line: &[char]) -> (r: Result<EvalResult, EvalError>)
    ensures
        r == width_result(first_spec(inst@, line@, 0, 0, false, 0)),
{
    let mut ctx: Vec<Ctx> = Vec::new();
    let mut pc: usize = 0;
    let mut sp: usize = 0;
    let mut should_be_head = false;
    let mut idle: usize = 0;
    let ghost n = inst@.len() as int;
    let ghost l = line@.len() as int;
    let ghost goal = first_spec(inst@, line@, 0, 0, false, 0);

    loop
        invariant
            n == inst@.len(),
            l == line@.len(),
            fits(n, l, (pc, sp, should_be_head, idle)),
            forall|k: int| 0 <= k < ctx@.len() ==> fits(n, l, #[trigger] ctx@[k]),
            chain(inst@, line@, (pc, sp, should_be_head, idle), ctx@) == goal,
            goal == first_spec(inst@, line@, 0, 0, false, 0),
        decreases weight(n, l, (pc, sp, should_be_head, idle)) + ctx_weight(n, l, ctx@),
    {
        let ghost cur: Ctx = (pc, sp, should_be_head, idle);
        let ghost before = ctx@;
        let pc_overflow = || -> (e: EvalError)
            ensures
                e == EvalError::PCOverFlow,
        {
            EvalError::PCOverFlow
        };
        let sp_overflow = || -> (e: EvalError)
            ensures
                e == EvalError::SPOverFlow,
        {
            EvalError::SPOverFlow
        };
        let mut failed = false;
        if pc >= inst.len() {
            return Err(EvalError::InvalidPC);
        } else if idle >= inst.len() {
            failed = true;
        } else {
            match inst[pc] {
                Instruction::Char(c) => {
                    if sp < line.len() && line[sp] == c {
                        safe_add(&mut pc, &1, pc_overflow)?;
                        safe_add(&mut sp, &1, sp_overflow)?;
                        idle = 0;
                    } else {
                        failed = true;
                    }
                },
                Instruction::AnyChar => {
                    if sp < line.len() {
                        safe_add(&mut pc, &1, pc_overflow)?;
                        safe_add(&mut sp, &1, sp_overflow)?;
                        idle = 0;
                    } else {
                        failed = true;
                    }
                },
                Instruction::Head => {
                    if sp != 0 {
                        failed = true;
                    } else {
                        should_be_head = true;
                        safe_add(&mut pc, &1, pc_overflow)?;
                        idle = idle + 1;
                    }
                },
                Instruction::Match => {
                    return if should_be_head {
                        Ok(EvalResult::matched_if_head())
                    } else {
                        Ok(EvalResult::matched())
                    };
                },
                Instruction::MatchEnd => {
                    if sp < line.len() {
                        failed = true;
                    } else {
                        return if should_be_head {
                            Ok(EvalResult::matched_if_head())
                        } else {
                            Ok(EvalResult::matched())
                        };
                    }
                },
                Instruction::Jump(addr) => {
                    pc = addr;
                    idle = idle + 1;
                },
                Instruction::Split(addr1, addr2) => {
                    pc = addr1;
                    ctx.push((addr2, sp, should_be_head, idle + 1));
                    idle = idle + 1;
                    proof {
                        lemma_ctx_weight_push(n, l, before, (addr2, sp, should_be_head, idle));
                        assert(ctx@.last() == (addr2, sp, should_be_head, idle));
                        assert(ctx@.drop_last() =~= before);
                        let c2: Ctx = (addr2, sp, should_be_head, idle);
                        assert(chain(inst@, line@, (pc, sp, should_be_head, idle), ctx@) == match first_spec(inst@, line@, pc as int, sp as int, should_be_head, idle as int) {
                            Ok(None) => chain(inst@, line@, c2, before),
                            other => other,
                        });
                        assert(chain(inst@, line@, c2, before) == match first_spec(inst@, line@, addr2 as int, sp as int, should_be_head, idle as int) {
                            Ok(None) => if before.len() == 0 {
                                Ok(None)
                            } else {
                                chain(inst@, line@, before.last(), before.drop_last())
                            },
                            other => other,
                        });
                        assert(chain(inst@, line@, cur, before) == chain(inst@, line@, (pc, sp, should_be_head, idle), ctx@));
                    }
                },
            }
        }
        if failed {
            proof {
                assert(first_spec(inst@, line@, cur.0 as int, cur.1 as int, cur.2, cur.3 as int) == Ok::<Option<bool>, EvalError>(None));
            }
            if ctx.len() == 0 {
                return Ok(EvalResult::unmatched());
            }
            pop_ctx(&mut pc, &mut sp, &mut should_be_head, &mut idle, &mut ctx)?;
            proof {
                let h = height(n, l, cur);
                lemma_pow2_unfold(h + 1);
                lemma_pow2_pos(h);
                assert(before.last() == (pc, sp, should_be_head, idle));
                assert(chain(inst@, line@, cur, before) == chain(inst@, line@, before.last(), before.drop_last()));
                assert(fits(n, l, before[before.len() - 1]));
            }
        } else {
            proof {
                let next: Ctx = (pc, sp, should_be_head, idle);
                lemma_height_step(n, l, cur, next);
                if !(inst@[cur.0 as int] is Split) {
                    assert(first_spec(inst@, line@, cur.0 as int, cur.1 as int, cur.2, cur.3 as int)
                        == first_spec(inst@, line@, next.0 as int, next.1 as int, next.2, next.3 as int));
                    assert(chain(inst@, line@, cur, before) == chain(inst@, line@, next, ctx@));
                }
            }
        }
    }
}

/// Evaluates a program on a line: depth-first when `is_depth` holds, else
/// breadth-first.
pub fn eval(inst: &[Instruction], line: &[char], is_depth: bool) -> (r: Result<EvalResult, EvalError>)
    ensures
        is_depth ==> r == depth_spec(inst@, line@, 0, 0, false, 0),
        !is_depth ==> r == width_result(first_spec(inst@, line@, 0, 0, false, 0)),
{
    if is_depth {
        eval_depth(inst, line, 0, 0, false, 0)
    } else {
        eval_width(inst, line)
    }
}

/// A program that evaluation runs without error: it ends with `Match`, and
/// every jump and split targets one of its instructions.
pub open spec fn well_formed(p: Seq<Instruction>) -> bool {
    &&& p.len() > 0
    &&& p.last() == Instruction::Match
    &&& targets_within(p, 0, p.len() - 1)
}

/// Neither strategy fails on a well-formed program, from any of its
/// instructions.
pub proof fn lemma_well_formed_runs(p: Seq<Instruction>, line: Seq<char>, pc: int, sp: int, head: bool, idle: int)
    requires
        well_formed(p),
        0 <= pc < p.len(),
    ensures
        depth_spec(p, line, pc, sp, head, idle) is Ok,
        first_spec(p, line, pc, sp, head, idle) is Ok,
    decreases line.len() - sp, p.len() - idle,
{
    if sp < 0 || sp > line.len() || idle < 0 || idle >= p.len() {
    } else {
        let inst = p[pc];
        assert(match inst {
            Instruction::Jump(a) => 0 <= a <= p.len() - 1,
            Instruction::Split(a, b) => 0 <= a <= p.len() - 1 && 0 <= b <= p.len() - 1,
            _ => true,
        });
        if !(inst is Match) {
            assert(pc != p.len() - 1);
        }
        match inst {
            Instruction::Char(c) => if sp < line.len() && line[sp] == c {
                lemma_well_formed_runs(p, line, pc + 1, sp + 1, head, 0);
            },
            Instruction::AnyChar => if sp < line.len() {
                lemma_well_formed_runs(p, line, pc + 1, sp + 1, head, 0);
            },
            Instruction::Head => if sp == 0 {
                lemma_well_formed_runs(p, line, pc + 1, sp, true, idle + 1);
            },
            Instruction::Jump(a) => {
                lemma_well_formed_runs(p, line, a as int, sp, head, idle + 1);
            },
            Instruction::Split(a1, a2) => {
                lemma_well_formed_runs(p, line, a1 as int, sp, head, idle + 1);
                lemma_well_formed_runs(p, line, a2 as int, sp, head, idle + 1);
            },
            _ => {},
        }
    }
}

/// Where depth-first evaluation succeeds, breadth-first evaluation from the
/// same state succeeds too, and the two agree on whether there is a match.
pub proof fn lemma_strategies_agree_from(p: Seq<Instruction>, line: Seq<char>, pc: int, sp: int, head: bool, idle: int)
    requires
        depth_spec(p, line, pc, sp, head, idle) is Ok,
    ensures
        first_spec(p, line, pc, sp, head, idle) is Ok,
        depth_spec(p, line, pc, sp, head, idle)->Ok_0.matched == first_spec(p, line, pc, sp, head, idle)->Ok_0 is Some,
    decreases line.len() - sp, p.len() - idle,
{
    if sp < 0 || sp > line.len() || idle < 0 || idle >= p.len() {
    } else if pc < 0 || pc >= p.len() {
    } else {
        match p[pc] {
            Instruction::Char(c) => if sp < line.len() && line[sp] == c {
                lemma_strategies_agree_from(p, line, pc + 1, sp + 1, head, 0);
            },
            Instruction::AnyChar => if sp < line.len() {
                lemma_strategies_agree_from(p, line, pc + 1, sp + 1, head, 0);
            },
            Instruction::Head => if sp == 0 {
                lemma_strategies_agree_from(p, line, pc + 1, sp, true, idle + 1);
            },
            Instruction::Jump(a) => {
                lemma_strategies_agree_from(p, line, a as int, sp, head, idle + 1);
            },
            Instruction::Split(a1, a2) => {
                lemma_strategies_agree_from(p, line, a1 as int, sp, head, idle + 1);
                lemma_strategies_agree_from(p, line, a2 as int, sp, head, idle + 1);
            },
            _ => {},
        }
    }
}

} // verus!
