//! A small Brainfuck runtime: a single-pass parser that resolves loop
//! brackets into direct jump targets, and a step engine that advances a
//! bounded tape machine one instruction at a time.

use vstd::prelude::*;

pub mod brackets;
pub mod interpreter;
pub mod parser;
pub mod run;
pub mod source;

verus! {

/// One operation of the machine. The two bracket variants carry the index of
/// their partner in the instruction sequence.
#[derive(Debug, Clone, Copy, PartialEq, Eq, Structural)]
pub enum BrainfuckInstruction {
    IncrCell,
    DecrCell,
    Input,
    Output,
    IncrPtr,
    DecrPtr,
    LeftBracket { matching_pos: usize },
    RightBracket { matching_pos: usize },
}

/// Where in the source text an instruction came from. Both coordinates start
/// at 1: `row` is the line, one more than the number of newline bytes before
/// the byte; `column` is the byte's place in that line.
#[derive(Debug, Clone, Copy, PartialEq, Eq, Structural)]
pub struct DocumentSpan {
    pub column: usize,
    pub row: usize,
}

/// A parsed program: its instructions and, position by position, where each
/// came from in the source.
#[derive(Debug, PartialEq, Eq)]
pub struct BrainfuckProgram {
    pub instructions: Vec<BrainfuckInstruction>,
    pub spans: Vec<DocumentSpan>,
}

/// A program as contracts see it.
pub struct Listing {
    pub instructions: Seq<BrainfuckInstruction>,
    pub spans: Seq<DocumentSpan>,
}

impl View for BrainfuckProgram {
    type V = Listing;

    open spec fn view(&self) -> Listing {
        Listing { instructions: self.instructions@, spans: self.spans@ }
    }
}

impl Listing {
    /// Every instruction has its span, and the brackets pair up.
    pub open spec fn wf(self) -> bool {
        &&& self.spans.len() == self.instructions.len()
        &&& brackets::well_bracketed(self.instructions)
    }
}

} // verus!
