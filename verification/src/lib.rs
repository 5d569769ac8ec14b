//! A toolchain for a tiny stack-machine language whose only syntactically
//! meaningful characters are space, tab and line feed; every other character
//! is a comment. The parser decodes program text into a closed instruction
//! set through a short prefix code, and the interpreter executes the decoded
//! program against a data stack, a call stack and a sparse heap.
use vstd::prelude::*;

pub mod parser;
pub mod interpreter;

verus! {

/// One significant character of program text.
#[derive(Clone, Copy, PartialEq, Eq, Structural, Debug)]
pub enum Token {
    Space,
    Tab,
    LineFeed,
}

/// A jump or subroutine target. Labels share the integer encoding of number
/// literals but form their own numeric domain, distinct from heap addresses.
pub type Label = i64;

/// The closed instruction set. Every value-carrying variant holds a signed
/// 64-bit integer; any token sequence that decodes to none of these is
/// rejected by the parser rather than defaulted.
#[derive(Clone, Copy, PartialEq, Eq, Structural, Debug)]
pub enum Instruction {
    PushNrOnStack(i64),
    /* Stack operations */
    DuplicateTopStack,
    CopyNthOnTop(i64),
    SwapTopTwoOnStack,
    DiscardTopOfStack,
    SlideNOfTopOfStackKeepTopItem(i64),
    /* Arithmetic */
    Addition,
    Substraction,
    Multiplication,
    IntegerDivision,
    Modulo,
    /* Heap access */
    StoreInHeap,
    RetreiveFomHeap,
    /* Flow control */
    MarkLocation(Label),
    CallSubroutine(Label),
    Jmp(Label),
    JmpTopZero(Label),
    JmpTopNegative(Label),
    Ret,
    End,
    /* IO */
    OutputChar,
    OutputNum,
    ReadChar,
    ReadNum,
}

} // verus!
