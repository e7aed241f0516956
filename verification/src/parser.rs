//! The parser: fed one source byte at a time, it builds the instruction
//! sequence and resolves each bracket pair as soon as it closes.

use vstd::prelude::*;

use crate::brackets::{nested, paired, rights_paired, target};
use crate::{BrainfuckInstruction, BrainfuckProgram, DocumentSpan, Listing};

verus! {

/// Why a source text is not a program.
#[derive(Debug, Clone, Copy, PartialEq, Eq, Structural)]
pub enum ParseError {
    /// A `[` is still open at the end of the source.
    UnmatchedOpenBracket,
    /// A `]` came with no `[` open.
    UnmatchedCloseBracket,
}

/// The source byte `+`.
pub const PLUS: u8 = 0x2b;

/// The source byte `-`.
pub const MINUS: u8 = 0x2d;

/// The source byte `,`.
pub const COMMA: u8 = 0x2c;

/// The source byte `.`.
pub const DOT: u8 = 0x2e;

/// The source byte `>`.
pub const GREATER: u8 = 0x3e;

/// The source byte `<`.
pub const LESS: u8 = 0x3c;

/// The source byte `[`.
pub const OPEN: u8 = 0x5b;

/// The source byte `]`.
pub const CLOSE: u8 = 0x5d;

/// The instruction of a source byte that is neither bracket, if it has one.
pub open spec fn plain_instruction(byte: u8) -> Option<BrainfuckInstruction> {
    if byte == PLUS {
        Some(BrainfuckInstruction::IncrCell)
    } else if byte == MINUS {
        Some(BrainfuckInstruction::DecrCell)
    } else if byte == COMMA {
        Some(BrainfuckInstruction::Input)
    } else if byte == DOT {
        Some(BrainfuckInstruction::Output)
    } else if byte == GREATER {
        Some(BrainfuckInstruction::IncrPtr)
    } else if byte == LESS {
        Some(BrainfuckInstruction::DecrPtr)
    } else {
        None
    }
}

/// The byte is `[`.
pub open spec fn opens(byte: u8) -> bool {
    byte == OPEN
}

/// The byte is `]`.
pub open spec fn closes(byte: u8) -> bool {
    byte == CLOSE
}

/// The byte is one of the eight that mean something.
pub open spec fn is_command(byte: u8) -> bool {
    opens(byte) || closes(byte) || plain_instruction(byte) is Some
}

/// A parser as contracts see it: the positions of the left brackets that are
/// still open, innermost last, and what has been built so far.
pub struct ParserView {
    pub pending: Seq<usize>,
    pub instructions: Seq<BrainfuckInstruction>,
    pub spans: Seq<DocumentSpan>,
}

impl ParserView {
    /// Nothing consumed yet.
    pub open spec fn empty() -> Self {
        ParserView { pending: Seq::empty(), instructions: Seq::empty(), spans: Seq::empty() }
    }

    /// What the parser is after one more source byte.
    pub open spec fn consume(self, byte: u8, span: DocumentSpan) -> Result<ParserView, ParseError> {
        let here = self.instructions.len() as usize;
        if opens(byte) {
            Ok(
                ParserView {
                    pending: self.pending.push(here),
                    instructions: self.instructions.push(BrainfuckInstruction::LeftBracket { matching_pos: 0 }),
                    spans: self.spans.push(span),
                },
            )
        } else if closes(byte) {
            if self.pending.len() == 0 {
                Err(ParseError::UnmatchedCloseBracket)
            } else {
                let left = self.pending.last();
                Ok(
                    ParserView {
                        pending: self.pending.drop_last(),
                        instructions: self.instructions.update(
                            left as int,
                            BrainfuckInstruction::LeftBracket { matching_pos: here },
                        ).push(BrainfuckInstruction::RightBracket { matching_pos: left }),
                        spans: self.spans.push(span),
                    },
                )
            }
        } else {
            match plain_instruction(byte) {
                Some(instruction) => Ok(
                    ParserView {
                        pending: self.pending,
                        instructions: self.instructions.push(instruction),
                        spans: self.spans.push(span),
                    },
                ),
                None => Ok(self),
            }
        }
    }

    /// What the parser hands over at the end of the source.
    pub open spec fn finish(self) -> Result<Listing, ParseError> {
        if self.pending.len() == 0 {
            Ok(Listing { instructions: self.instructions, spans: self.spans })
        } else {
            Err(ParseError::UnmatchedOpenBracket)
        }
    }

    /// The open left brackets are listed in source order, each still holding
    /// its placeholder.
    pub open spec fn pending_wf(self) -> bool {
        &&& forall|k: int|
            0 <= k < self.pending.len() ==> {
                &&& (#[trigger] self.pending[k]) < self.instructions.len()
                &&& self.instructions[self.pending[k] as int] == BrainfuckInstruction::LeftBracket {
                    matching_pos: 0,
                }
            }
        &&& forall|j: int, k: int|
            0 <= j < k < self.pending.len() ==> (#[trigger] self.pending[j]) < (#[trigger] self.pending[k])
    }

    /// Every left bracket is either still open or paired.
    pub open spec fn lefts_wf(self) -> bool {
        forall|i: int|
            0 <= i < self.instructions.len() && (#[trigger] self.instructions[i]) is LeftBracket ==> {
                ||| self.pending.contains(i as usize)
                ||| paired(self.instructions, i, target(self.instructions[i]))
            }
    }

    /// Every right bracket is paired.
    pub open spec fn rights_wf(self) -> bool {
        rights_paired(self.instructions)
    }

    /// No open left bracket lies inside a pair.
    pub open spec fn pending_outside_pairs(self) -> bool {
        forall|a: int, b: int, k: int|
            #![trigger paired(self.instructions, a, b), self.pending[k]]
            paired(self.instructions, a, b) && 0 <= k < self.pending.len() ==> !(a < self.pending[k] < b)
    }

    /// The invariant of a parser.
    pub open spec fn wf(self) -> bool {
        &&& self.spans.len() == self.instructions.len()
        &&& self.pending_wf()
        &&& self.lefts_wf()
        &&& self.rights_wf()
        &&& nested(self.instructions)
        &&& self.pending_outside_pairs()
    }
}

/// A byte that is not a command leaves the parser as it is.
pub proof fn law_other_bytes_ignored(parser: ParserView, byte: u8, span: DocumentSpan)
    requires
        !is_command(byte),
    ensures
        parser.consume(byte, span) == Ok::<ParserView, ParseError>(parser),
{
}

/// A parser that has consumed nothing is well-formed.
pub proof fn law_empty_is_wf()
    ensures
        ParserView::empty().wf(),
{
    assert forall|a: int, b: int| !paired(ParserView::empty().instructions, a, b) by {}
}

/// Consuming a byte keeps a parser's invariant.
pub proof fn law_consume_keeps_wf(parser: ParserView, byte: u8, span: DocumentSpan)
    requires
        parser.wf(),
        parser.instructions.len() < usize::MAX,
    ensures
        parser.consume(byte, span) matches Ok(next) ==> next.wf(),
{
    let code = parser.instructions;
    let len = code.len() as int;
    if opens(byte) {
        let next = parser.consume(byte, span)->Ok_0;
        let grown = next.instructions;
        assert forall|a: int, b: int| paired(grown, a, b) == paired(code, a, b) by {
            if 0 <= a < b < len {
                assert(grown[a] == code[a] && grown[b] == code[b]);
            }
        }
        assert(next.pending_wf()) by {
            assert forall|k: int| 0 <= k < next.pending.len() implies {
                &&& (#[trigger] next.pending[k]) < grown.len()
                &&& grown[next.pending[k] as int] == BrainfuckInstruction::LeftBracket { matching_pos: 0 }
            } by {
                if k < parser.pending.len() {
                    assert(next.pending[k] == parser.pending[k]);
                }
            }
        }
        assert(next.lefts_wf()) by {
            assert forall|i: int| 0 <= i < grown.len() && (#[trigger] grown[i]) is LeftBracket implies {
                ||| next.pending.contains(i as usize)
                ||| paired(grown, i, target(grown[i]))
            } by {
                if i < len {
                    assert(grown[i] == code[i]);
                    if parser.pending.contains(i as usize) {
                        let k = choose|k: int| 0 <= k < parser.pending.len() && parser.pending[k] == i as usize;
                        assert(next.pending[k] == i as usize);
                    }
                } else {
                    assert(next.pending[parser.pending.len() as int] == i as usize);
                }
            }
        }
        assert(next.rights_wf()) by {
            assert forall|i: int| 0 <= i < grown.len() && (#[trigger] grown[i]) is RightBracket implies paired(
                grown,
                target(grown[i]),
                i,
            ) by {
                assert(grown[i] == code[i]);
            }
        }
        assert(next.pending_outside_pairs()) by {
            assert forall|a: int, b: int, k: int|
                #![trigger paired(grown, a, b), next.pending[k]]
                paired(grown, a, b) && 0 <= k < next.pending.len() implies !(a < next.pending[k] < b) by {
                assert(paired(code, a, b));
                if k < parser.pending.len() {
                    assert(next.pending[k] == parser.pending[k]);
                }
            }
        }
    } else if closes(byte) {
        if parser.pending.len() > 0 {
            let next = parser.consume(byte, span)->Ok_0;
            let grown = next.instructions;
            let top = parser.pending.len() - 1;
            let left = parser.pending[top] as int;
            assert(code[left] == BrainfuckInstruction::LeftBracket { matching_pos: 0 });
            assert(paired(grown, left, len));
            assert forall|a: int, b: int| paired(grown, a, b) == (paired(code, a, b) || (a == left && b == len)) by {
                if 0 <= a < b < len && a != left && b != left {
                    assert(grown[a] == code[a] && grown[b] == code[b]);
                }
            }
            assert(next.pending_wf()) by {
                assert forall|k: int| 0 <= k < next.pending.len() implies {
                    &&& (#[trigger] next.pending[k]) < grown.len()
                    &&& grown[next.pending[k] as int] == BrainfuckInstruction::LeftBracket { matching_pos: 0 }
                } by {
                    assert(next.pending[k] == parser.pending[k]);
                    assert(parser.pending[k] < parser.pending[top]);
                }
                assert forall|j: int, k: int| 0 <= j < k < next.pending.len() implies (#[trigger] next.pending[j])
                    < (#[trigger] next.pending[k]) by {
                    assert(next.pending[j] == parser.pending[j]);
                    assert(next.pending[k] == parser.pending[k]);
                }
            }
            assert(next.lefts_wf()) by {
                assert forall|i: int| 0 <= i < grown.len() && (#[trigger] grown[i]) is LeftBracket implies {
                    ||| next.pending.contains(i as usize)
                    ||| paired(grown, i, target(grown[i]))
                } by {
                    if i != left {
                        assert(grown[i] == code[i]);
                        if parser.pending.contains(i as usize) {
                            let k = choose|k: int| 0 <= k < parser.pending.len() && parser.pending[k] == i as usize;
                            assert(next.pending[k] == i as usize);
                        }
                    }
                }
            }
            assert(next.rights_wf()) by {
                assert forall|i: int| 0 <= i < grown.len() && (#[trigger] grown[i]) is RightBracket implies paired(
                    grown,
                    target(grown[i]),
                    i,
                ) by {
                    if i < len {
                        assert(grown[i] == code[i]);
                    }
                }
            }
            assert(nested(grown)) by {
                assert forall|a: int, b: int, c: int, d: int|
                    #![trigger paired(grown, a, b), paired(grown, c, d)]
                    paired(grown, a, b) && paired(grown, c, d) && a < c < b implies d < b by {
                    if paired(code, a, b) && !paired(code, c, d) {
                        assert(parser.pending[top] == c);
                    }
                }
            }
            assert(next.pending_outside_pairs()) by {
                assert forall|a: int, b: int, k: int|
                    #![trigger paired(grown, a, b), next.pending[k]]
                    paired(grown, a, b) && 0 <= k < next.pending.len() implies !(a < next.pending[k] < b) by {
                    assert(next.pending[k] == parser.pending[k]);
                    assert(parser.pending[k] < parser.pending[top]);
                }
            }
        }
    } else if plain_instruction(byte) is Some {
        let next = parser.consume(byte, span)->Ok_0;
        let grown = next.instructions;
        assert forall|a: int, b: int| paired(grown, a, b) == paired(code, a, b) by {
            if 0 <= a < b < len {
                assert(grown[a] == code[a] && grown[b] == code[b]);
            }
        }
        assert(next.lefts_wf()) by {
            assert forall|i: int| 0 <= i < grown.len() && (#[trigger] grown[i]) is LeftBracket implies {
                ||| next.pending.contains(i as usize)
                ||| paired(grown, i, target(grown[i]))
            } by {
                assert(grown[i] == code[i]);
            }
        }
        assert(next.rights_wf()) by {
            assert forall|i: int| 0 <= i < grown.len() && (#[trigger] grown[i]) is RightBracket implies paired(
                grown,
                target(grown[i]),
                i,
            ) by {
                assert(grown[i] == code[i]);
            }
        }
    }
}

/// A parser with nothing open has built a well-formed program.
pub proof fn law_finish_is_wf(parser: ParserView)
    requires
        parser.wf(),
    ensures
        parser.finish() matches Ok(listing) ==> listing.wf(),
{
    if parser.pending.len() == 0 {
        assert forall|i: int|
            0 <= i < parser.instructions.len() && (#[trigger] parser.instructions[i]) is LeftBracket implies paired(
            parser.instructions,
            i,
            target(parser.instructions[i]),
        ) by {
            assert(!parser.pending.contains(i as usize));
        }
    }
}

/// Builds a program from source bytes, one at a time.
#[derive(Debug)]
pub struct ProgramParser {
    bracket_stack: Vec<usize>,
    instructions: Vec<BrainfuckInstruction>,
    instruction_spans: Vec<DocumentSpan>,
}

impl View for ProgramParser {
    type V = ParserView;

    closed spec fn view(&self) -> ParserView {
        ParserView {
            pending: self.bracket_stack@,
            instructions: self.instructions@,
            spans: self.instruction_spans@,
        }
    }
}

impl Default for ProgramParser {
    /// A parser that has consumed nothing.
    fn default() -> (parser: Self)
        ensures
            parser@ == ParserView::empty(),
            parser@.wf(),
    {
        proof {
            law_empty_is_wf();
        }
        ProgramParser { bracket_stack: Vec::new(), instructions: Vec::new(), instruction_spans: Vec::new() }
    }
}

impl ProgramParser {
    /// Every parser that exists is well-formed.
    #[verifier::type_invariant]
    closed spec fn well_formed(self) -> bool {
        self@.wf()
    }

    /// Consumes one source byte found at `span`.
    ///
    /// A byte that is not a command changes nothing. `]` with no `[` open is
    /// the one error.
    pub fn input_byte(self, c: u8, span: DocumentSpan) -> (result: Result<Self, ParseError>)
        ensures
            self@.wf(),
            match result {
                Ok(next) => self@.consume(c, span) == Ok::<ParserView, ParseError>(next@) && next@.wf(),
                Err(error) => self@.consume(c, span) == Err::<ParserView, ParseError>(error),
            },
            result is Err <==> closes(c) && self@.pending.len() == 0,
            !is_command(c) ==> (result matches Ok(next) && next@ == self@),
    {
        proof {
            use_type_invariant(&self);
        }
        let ghost before = self@;
        let ProgramParser { mut bracket_stack, mut instructions, mut instruction_spans } = self;
        let pos = instructions.len();
        let instruction = match c {
            PLUS => BrainfuckInstruction::IncrCell,
            MINUS => BrainfuckInstruction::DecrCell,
            COMMA => BrainfuckInstruction::Input,
            DOT => BrainfuckInstruction::Output,
            GREATER => BrainfuckInstruction::IncrPtr,
            LESS => BrainfuckInstruction::DecrPtr,
            OPEN => {
                bracket_stack.push(pos);
                BrainfuckInstruction::LeftBracket { matching_pos: 0 }
            },
            CLOSE => {
                match bracket_stack.pop() {
                    Some(left_pos) => {
                        instructions[left_pos] = BrainfuckInstruction::LeftBracket { matching_pos: pos };
                        BrainfuckInstruction::RightBracket { matching_pos: left_pos }
                    },
                    None => {
                        return Err(ParseError::UnmatchedCloseBracket);
                    },
                }
            },
            _ => {
                return Ok(ProgramParser { bracket_stack, instructions, instruction_spans });
            },
        };
        instructions.push(instruction);
        instruction_spans.push(span);
        proof {
            assert(before.instructions.len() + 1 == instructions.len());
            law_consume_keeps_wf(before, c, span);
            assert(instructions@ =~= before.consume(c, span)->Ok_0.instructions);
            assert(bracket_stack@ =~= before.consume(c, span)->Ok_0.pending);
        }
        Ok(ProgramParser { bracket_stack, instructions, instruction_spans })
    }

    /// Ends the source. The program is handed over unless a `[` is still
    /// open.
    pub fn finalize(self) -> (result: Result<BrainfuckProgram, ParseError>)
        ensures
            self@.wf(),
            match result {
                Ok(program) => self@.finish() == Ok::<Listing, ParseError>(program@) && program@.wf(),
                Err(error) => self@.finish() == Err::<Listing, ParseError>(error),
            },
            result is Err <==> self@.pending.len() > 0,
            result matches Ok(program) ==> program.instructions@.len() == program.spans@.len(),
    {
        proof {
            use_type_invariant(&self);
            law_finish_is_wf(self@);
        }
        if self.bracket_stack.len() == 0 {
            Ok(BrainfuckProgram { instructions: self.instructions, spans: self.instruction_spans })
        } else {
            Err(ParseError::UnmatchedOpenBracket)
        }
    }
}

} // verus!
