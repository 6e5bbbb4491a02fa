//! The depth-first backtracking virtual machine.
use vstd::prelude::*;

use crate::helper::safe_add;
use crate::Instruction;

verus! {

/// Why a program could not be run to an answer.
#[derive(Debug, Clone, Copy, PartialEq, Eq, Structural)]
pub enum EvalError {
    PCOverFlow,
    SPOverFlow,
    InvalidPC,
}

/// The number of steps a single search path may take: one more than the number
/// of distinct states `(pc, sp)` with `pc < n` and `sp <= m`, capped at
/// `usize::MAX`. A longer path visits some state twice, and from there the
/// search would repeat itself forever, so such a path is treated as failing.
pub open spec fn path_budget(n: nat, m: nat) -> nat {
    if n * (m + 1) + 1 <= usize::MAX {
        n * (m + 1) + 1
    } else {
        usize::MAX as nat
    }
}

/// The outcome of the depth-first search from program counter `pc` and string
/// pointer `sp`, when the current path may take at most `fuel` more steps.
///
/// `Char` and `AnyChar` consume one character and fail at the end of the input;
/// `HeadOfLine` holds only at position 0 of an anchored run; `EndOfLine` only at
/// the end of the input; `Split` searches its first target completely and only
/// turns to the second when the first reported no match; `Match` accepts
/// whatever input remains.
pub open spec fn run(
    prog: Seq<Instruction>,
    line: Seq<char>,
    anchored: bool,
    pc: int,
    sp: int,
    fuel: nat,
) -> Result<bool, EvalError>
    decreases fuel,
{
    if fuel == 0 {
        Ok(false)
    } else if !(0 <= pc < prog.len()) {
        Err(EvalError::InvalidPC)
    } else {
        match prog[pc] {
            Instruction::Char(c) => if 0 <= sp < line.len() && line[sp] == c {
                run(prog, line, anchored, pc + 1, sp + 1, (fuel - 1) as nat)
            } else {
                Ok(false)
            },
            Instruction::AnyChar => if 0 <= sp < line.len() {
                run(prog, line, anchored, pc + 1, sp + 1, (fuel - 1) as nat)
            } else {
                Ok(false)
            },
            Instruction::HeadOfLine => if anchored && sp == 0 {
                run(prog, line, anchored, pc + 1, sp, (fuel - 1) as nat)
            } else {
                Ok(false)
            },
            Instruction::EndOfLine => if sp == line.len() {
                run(prog, line, anchored, pc + 1, sp, (fuel - 1) as nat)
            } else {
                Ok(false)
            },
            Instruction::Jump(a) => run(prog, line, anchored, a as int, sp, (fuel - 1) as nat),
            Instruction::Split(a, b) => match run(prog, line, anchored, a as int, sp, (fuel - 1) as nat) {
                Ok(false) => run(prog, line, anchored, b as int, sp, (fuel - 1) as nat),
                other => other,
            },
            Instruction::Match => Ok(true),
        }
    }
}

/// Whether `prog` matches a prefix of `line`, searching from address 0 and
/// position 0. `include_head_of_line` enables the `HeadOfLine` assertion.
pub open spec fn eval_spec(prog: Seq<Instruction>, line: Seq<char>, include_head_of_line: bool) -> Result<bool, EvalError> {
    run(prog, line, include_head_of_line, 0, 0, path_budget(prog.len(), line.len()))
}

/// A `Split` searches its first target to the end before it looks at the
/// second: an error or a match there is the answer, and only "no match" leads
/// on to the second target, from the same position.
pub proof fn lemma_split_left_first(
    prog: Seq<Instruction>,
    line: Seq<char>,
    anchored: bool,
    pc: int,
    sp: int,
    fuel: nat,
)
    requires
        fuel > 0,
        0 <= pc < prog.len(),
        prog[pc] is Split,
    ensures
        ({
            let left = run(prog, line, anchored, prog[pc]->Split_0 as int, sp, (fuel - 1) as nat);
            let right = run(prog, line, anchored, prog[pc]->Split_1 as int, sp, (fuel - 1) as nat);
            &&& left != Ok::<bool, EvalError>(false) ==> run(prog, line, anchored, pc, sp, fuel) == left
            &&& left == Ok::<bool, EvalError>(false) ==> run(prog, line, anchored, pc, sp, fuel) == right
        }),
{
}

/// `HeadOfLine` fails wherever it stands unless the run is anchored, and in an
/// anchored run it fails at every position but 0.
pub proof fn lemma_head_of_line(
    prog: Seq<Instruction>,
    line: Seq<char>,
    anchored: bool,
    pc: int,
    sp: int,
    fuel: nat,
)
    requires
        0 <= pc < prog.len(),
        prog[pc] == Instruction::HeadOfLine,
        !anchored || sp != 0,
    ensures
        run(prog, line, anchored, pc, sp, fuel) == Ok::<bool, EvalError>(false),
{
}

/// Runs `inst` against `line`.
pub fn eval(inst: &[Instruction], line: &[char], include_head_of_line: bool) -> (r: Result<bool, EvalError>)
    ensures
        r == eval_spec(inst@, line@, include_head_of_line),
{
    let ghost n = inst@.len();
    let ghost m = line@.len();
    let mut budget: usize = usize::MAX;
    if inst.len() == 0 {
        budget = 1;
    } else if line.len() < usize::MAX {
        if let Some(states) = inst.len().checked_mul(line.len() + 1) {
            if states < usize::MAX {
                budget = states + 1;
            }
        }
    } else {
        assert(n * (m + 1) + 1 > usize::MAX) by (nonlinear_arith)
            requires
                m == usize::MAX,
                n >= 1,
        ;
    }
    eval_depth(inst, line, 0, 0, include_head_of_line, budget)
}

/// The search of [`run`], executed in place until a `Split`, which recurses.
fn eval_depth(
    inst: &[Instruction],
    line: &[char],
    pc: usize,
    sp: usize,
    include_head_of_line: bool,
    fuel: usize,
) -> (r: Result<bool, EvalError>)
    ensures
        r == run(inst@, line@, include_head_of_line, pc as int, sp as int, fuel as nat),
    decreases fuel,
{
    let ghost goal = run(inst@, line@, include_head_of_line, pc as int, sp as int, fuel as nat);
    let mut pc_now = pc;
    let mut sp_now = sp;
    let mut fuel_now = fuel;
    loop
        invariant
            goal == run(inst@, line@, include_head_of_line, pc as int, sp as int, fuel as nat),
            fuel_now <= fuel,
            goal == run(inst@, line@, include_head_of_line, pc_now as int, sp_now as int, fuel_now as nat),
        decreases fuel_now,
    {
        if fuel_now == 0 {
            return Ok(false);
        }
        fuel_now = fuel_now - 1;
        if pc_now >= inst.len() {
            return Err(EvalError::InvalidPC);
        }
        match inst[pc_now] {
            Instruction::Char(c) => {
                if sp_now < line.len() && line[sp_now] == c {
                    safe_add(&mut pc_now, 1, EvalError::PCOverFlow)?;
                    safe_add(&mut sp_now, 1, EvalError::SPOverFlow)?;
                } else {
                    return Ok(false);
                }
            },
            Instruction::AnyChar => {
                if sp_now < line.len() {
                    safe_add(&mut pc_now, 1, EvalError::PCOverFlow)?;
                    safe_add(&mut sp_now, 1, EvalError::SPOverFlow)?;
                } else {
                    return Ok(false);
                }
            },
            Instruction::HeadOfLine => {
                if !include_head_of_line || sp_now != 0 {
                    return Ok(false);
                }
                safe_add(&mut pc_now, 1, EvalError::PCOverFlow)?;
            },
            Instruction::EndOfLine => {
                if sp_now != line.len() {
                    return Ok(false);
                }
                safe_add(&mut pc_now, 1, EvalError::PCOverFlow)?;
            },
            Instruction::Jump(addr) => {
                pc_now = addr;
            },
            Instruction::Split(addr1, addr2) => {
                return match eval_depth(inst, line, addr1, sp_now, include_head_of_line, fuel_now) {
                    Ok(false) => eval_depth(inst, line, addr2, sp_now, include_head_of_line, fuel_now),
                    other => other,
                };
            },
            Instruction::Match => {
                return Ok(true);
            },
        }
    }
}

} // verus!
