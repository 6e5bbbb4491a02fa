//! A small backtracking regular-expression engine.
//!
//! A pattern is parsed into a syntax tree ([`parser`]), compiled into a linear
//! program of [`Instruction`]s ([`codegen`]) and run against a line of text by a
//! depth-first virtual machine ([`evaluator`]).
use vstd::prelude::*;

pub mod codegen;
pub mod evaluator;
pub mod helper;
pub mod parser;

use crate::codegen::{compile, gen_code, size, CodeGenError};
use crate::evaluator::{eval, eval_spec, EvalError};
use crate::helper::chars_of;
use crate::parser::{parse, parse_spec, ParseError};

verus! {

/// One instruction of a compiled program. Addresses are indices into the program.
#[derive(Debug, Clone, Copy, PartialEq, Eq, Structural)]
pub enum Instruction {
    /// Consume one character equal to the given one.
    Char(char),
    /// Accept.
    Match,
    /// Continue at the given address.
    Jump(usize),
    /// Try the first address; if that branch fails, try the second one.
    Split(usize, usize),
    /// Consume any one character.
    AnyChar,
    /// Succeed without consuming only at position 0 of an anchored run.
    HeadOfLine,
    /// Succeed without consuming only at the end of the input.
    EndOfLine,
}

/// A failure of one of the three stages.
#[derive(Debug, Clone, Copy, PartialEq, Eq, Structural)]
pub enum EngineError {
    Parse(ParseError),
    CodeGen(CodeGenError),
    Eval(EvalError),
}

/// The answer for `pattern` against `line`: parse, compile, then run from the
/// start of the line, stopping at the first stage that fails.
pub open spec fn matches_spec(pattern: Seq<char>, line: Seq<char>, include_head_of_line: bool) -> Result<bool, EngineError> {
    match parse_spec(pattern) {
        Err(e) => Err(EngineError::Parse(e)),
        Ok(t) => if size(t) + 1 > usize::MAX {
            Err(EngineError::CodeGen(CodeGenError::PCOverFlow))
        } else {
            match eval_spec(compile(t), line, include_head_of_line) {
                Ok(b) => Ok(b),
                Err(e) => Err(EngineError::Eval(e)),
            }
        },
    }
}

/// Whether `expr` matches a prefix of `line`. `include_head_of_line` makes `^`
/// hold at the start of `line`; without it `^` never holds.
pub fn do_matching(expr: &str, line: &str, include_head_of_line: bool) -> (r: Result<bool, EngineError>)
    ensures
        r == matches_spec(expr@, line@, include_head_of_line),
{
    let ast = match parse(expr) {
        Ok(a) => a,
        Err(e) => return Err(EngineError::Parse(e)),
    };
    let code = match gen_code(&ast) {
        Ok(c) => c,
        Err(e) => return Err(EngineError::CodeGen(e)),
    };
    let line = chars_of(line);
    match eval(code.as_slice(), line.as_slice(), include_head_of_line) {
        Ok(b) => Ok(b),
        Err(e) => Err(EngineError::Eval(e)),
    }
}

} // verus!
