//! The step engine: one instruction at a time against a bounded tape.

use vstd::prelude::*;

use crate::brackets::{law_pairing_is_involution, target, well_bracketed};
use crate::BrainfuckInstruction;

verus! {

/// The machine a program runs on: where it is in the program, which cell it
/// addresses, and the tape itself.
#[derive(Debug)]
pub struct BrainfuckState<Cell, const N: usize> {
    pub instruction_pointer: usize,
    pub data_pointer: usize,
    pub cells: [Cell; N],
}

/// The machine as contracts see it.
pub struct Machine<Cell> {
    pub instruction_pointer: nat,
    pub data_pointer: nat,
    pub cells: Seq<Cell>,
}

impl<Cell, const N: usize> View for BrainfuckState<Cell, N> {
    type V = Machine<Cell>;

    open spec fn view(&self) -> Machine<Cell> {
        Machine {
            instruction_pointer: self.instruction_pointer as nat,
            data_pointer: self.data_pointer as nat,
            cells: self.cells@,
        }
    }
}

impl<Cell: Default + Copy, const N: usize> Default for BrainfuckState<Cell, N> {
    /// Both pointers at zero and every cell holding the cell type's default.
    fn default() -> (state: Self)
        ensures
            state@.instruction_pointer == 0,
            state@.data_pointer == 0,
            state@.cells.len() == N,
            forall|i: int| 0 <= i < N ==> call_ensures(Cell::default, (), #[trigger] state@.cells[i]),
            forall|i: int, j: int| 0 <= i < N && 0 <= j < N ==> state@.cells[i] == state@.cells[j],
    {
        let blank = Cell::default();
        BrainfuckState { instruction_pointer: 0, data_pointer: 0, cells: [blank; N] }
    }
}

/// The machine before the first step of a run on `len` byte cells: both
/// pointers at zero, every cell zero.
pub open spec fn initial(len: nat) -> Machine<u8> {
    Machine { instruction_pointer: 0, data_pointer: 0, cells: Seq::new(len, |i: int| 0u8) }
}

/// With byte cells the default state is the initial machine: what `default`
/// promises of each cell means zero for a byte.
pub proof fn law_default_bytes_are_zero(machine: Machine<u8>)
    requires
        machine.instruction_pointer == 0,
        machine.data_pointer == 0,
        forall|i: int| 0 <= i < machine.cells.len() ==> call_ensures(u8::default, (), #[trigger] machine.cells[i]),
    ensures
        machine == initial(machine.cells.len()),
{
    assert(machine.cells =~= initial(machine.cells.len()).cells);
}

/// What to store in the current cell when the input has run out.
#[derive(Debug, Clone, Copy, PartialEq, Eq, Structural)]
pub enum EOFBehaviour {
    Value(u8),
    Unchanged,
}

/// Whether another step can follow.
#[derive(Debug, Clone, Copy, PartialEq, Eq, Structural)]
pub enum StepResult {
    Continue,
    Terminated,
}

/// Why a step was abandoned. The two I/O variants carry what the
/// collaborator reported.
#[derive(Debug, PartialEq, Eq)]
pub enum StepError<E> {
    PointerUnderflow,
    PointerOverflow,
    InputFailure(E),
    OutputFailure(E),
}

/// Number of cells on the tape that programs run on.
pub const TAPE_LEN: usize = 30_000;

impl<Cell> Machine<Cell> {
    /// The cell under the data pointer.
    pub open spec fn cell(self) -> Cell {
        self.cells[self.data_pointer as int]
    }

    /// The same machine with `value` in the cell under the data pointer.
    pub open spec fn store(self, value: Cell) -> Self {
        Machine { cells: self.cells.update(self.data_pointer as int, value), ..self }
    }

    /// The same machine with its data pointer at `index`.
    pub open spec fn point_at(self, index: nat) -> Self {
        Machine { data_pointer: index, ..self }
    }

    /// The same machine with its instruction pointer at `target`.
    pub open spec fn jump(self, target: nat) -> Self {
        Machine { instruction_pointer: target, ..self }
    }
}

/// A cell value one up, 255 going to 0.
pub open spec fn incremented(value: u8) -> u8 {
    if value == 255 {
        0
    } else {
        (value + 1) as u8
    }
}

/// A cell value one down, 0 going to 255.
pub open spec fn decremented(value: u8) -> u8 {
    if value == 0 {
        255
    } else {
        (value - 1) as u8
    }
}

/// A step seen from outside: the machine it leaves and what it reports.
pub struct Outcome<E> {
    pub machine: Machine<u8>,
    pub result: Result<StepResult, StepError<E>>,
}

/// The instruction's effect is done: move to the next instruction and say
/// whether there is one.
pub open spec fn proceed<E>(machine: Machine<u8>, len: nat) -> Outcome<E> {
    Outcome {
        machine: machine.jump(machine.instruction_pointer + 1),
        result: Ok(
            if machine.instruction_pointer + 1 < len {
                StepResult::Continue
            } else {
                StepResult::Terminated
            },
        ),
    }
}

/// The step is abandoned with the machine as it stands.
pub open spec fn abandon<E>(machine: Machine<u8>, error: StepError<E>) -> Outcome<E> {
    Outcome { machine, result: Err(error) }
}

/// One step on an instruction that needs no collaborator, in a program of
/// `len` instructions.
pub open spec fn silent_step<E>(machine: Machine<u8>, instruction: BrainfuckInstruction, len: nat) -> Outcome<E>
    recommends
        instruction != BrainfuckInstruction::Input,
        instruction != BrainfuckInstruction::Output,
{
    match instruction {
        BrainfuckInstruction::IncrCell => proceed(machine.store(incremented(machine.cell())), len),
        BrainfuckInstruction::DecrCell => proceed(machine.store(decremented(machine.cell())), len),
        BrainfuckInstruction::IncrPtr => {
            if machine.data_pointer + 1 < machine.cells.len() {
                proceed(machine.point_at(machine.data_pointer + 1), len)
            } else {
                abandon(machine, StepError::PointerOverflow)
            }
        },
        BrainfuckInstruction::DecrPtr => {
            if machine.data_pointer == 0 {
                abandon(machine, StepError::PointerUnderflow)
            } else {
                proceed(machine.point_at((machine.data_pointer - 1) as nat), len)
            }
        },
        BrainfuckInstruction::LeftBracket { matching_pos } => {
            if machine.cell() == 0 {
                proceed(machine.jump(matching_pos as nat), len)
            } else {
                proceed(machine, len)
            }
        },
        BrainfuckInstruction::RightBracket { matching_pos } => {
            if machine.cell() != 0 {
                proceed(machine.jump(matching_pos as nat), len)
            } else {
                proceed(machine, len)
            }
        },
        BrainfuckInstruction::Input | BrainfuckInstruction::Output => proceed(machine, len),
    }
}

/// One step on an `Input` instruction, given what the input provider
/// reported.
pub open spec fn input_step<E>(
    machine: Machine<u8>,
    read: Result<Option<u8>, E>,
    eof_behaviour: EOFBehaviour,
    len: nat,
) -> Outcome<E> {
    match read {
        Ok(Some(value)) => proceed(machine.store(value), len),
        Ok(None) => match eof_behaviour {
            EOFBehaviour::Value(value) => proceed(machine.store(value), len),
            EOFBehaviour::Unchanged => proceed(machine, len),
        },
        Err(cause) => abandon(machine, StepError::InputFailure(cause)),
    }
}

/// One step on an `Output` instruction, given what the output consumer
/// reported.
pub open spec fn output_step<E>(machine: Machine<u8>, written: Result<(), E>, len: nat) -> Outcome<E> {
    match written {
        Ok(_) => proceed(machine, len),
        Err(cause) => abandon(machine, StepError::OutputFailure(cause)),
    }
}

/// One step of `machine` on `program`, given what the collaborators report
/// when the instruction under the instruction pointer turns to them.
pub open spec fn step<E>(
    machine: Machine<u8>,
    program: Seq<BrainfuckInstruction>,
    read: Result<Option<u8>, E>,
    written: Result<(), E>,
    eof_behaviour: EOFBehaviour,
) -> Outcome<E> {
    match program[machine.instruction_pointer as int] {
        BrainfuckInstruction::Input => input_step(machine, read, eof_behaviour, program.len()),
        BrainfuckInstruction::Output => output_step(machine, written, program.len()),
        instruction => silent_step(machine, instruction, program.len()),
    }
}

/// The machine can execute the instruction under its instruction pointer:
/// both pointers are in range, and a jump that would be taken lands on an
/// index that has a successor.
pub open spec fn ready(machine: Machine<u8>, program: Seq<BrainfuckInstruction>) -> bool {
    &&& machine.instruction_pointer < program.len()
    &&& machine.data_pointer < machine.cells.len()
    &&& match program[machine.instruction_pointer as int] {
        BrainfuckInstruction::LeftBracket { matching_pos } => machine.cell() == 0 ==> matching_pos < usize::MAX,
        BrainfuckInstruction::RightBracket { matching_pos } => machine.cell() != 0 ==> matching_pos < usize::MAX,
        _ => true,
    }
}

/// Whether the machine can execute the instruction under its instruction
/// pointer.
pub fn is_ready(state: &BrainfuckState<u8, 30_000>, instructions: &[BrainfuckInstruction]) -> (ok: bool)
    ensures
        ok == ready(state@, instructions@),
{
    if state.instruction_pointer >= instructions.len() || state.data_pointer >= TAPE_LEN {
        return false;
    }
    let cell = state.cells[state.data_pointer];
    match instructions[state.instruction_pointer] {
        BrainfuckInstruction::LeftBracket { matching_pos } => cell != 0 || matching_pos < usize::MAX,
        BrainfuckInstruction::RightBracket { matching_pos } => cell == 0 || matching_pos < usize::MAX,
        _ => true,
    }
}

/// Moves to the next instruction and reports whether there is one.
fn advance<E>(state: &mut BrainfuckState<u8, 30_000>, len: usize) -> (result: Result<StepResult, StepError<E>>)
    requires
        old(state).instruction_pointer < usize::MAX,
    ensures
        (Outcome { machine: final(state)@, result }) == proceed::<E>(old(state)@, len as nat),
{
    state.instruction_pointer = state.instruction_pointer + 1;
    if state.instruction_pointer < len {
        Ok(StepResult::Continue)
    } else {
        Ok(StepResult::Terminated)
    }
}

/// Finishes a step on an `Input` instruction once the input provider has
/// answered: a byte is stored, end of stream follows `eof_behaviour`, and a
/// failure abandons the step with the machine untouched.
pub fn complete_input<E>(
    state: &mut BrainfuckState<u8, 30_000>,
    instructions: &[BrainfuckInstruction],
    read: Result<Option<u8>, E>,
    eof_behaviour: EOFBehaviour,
) -> (result: Result<StepResult, StepError<E>>)
    requires
        ready(old(state)@, instructions@),
        instructions@[old(state).instruction_pointer as int] == BrainfuckInstruction::Input,
    ensures
        (Outcome { machine: final(state)@, result }) == input_step(
            old(state)@,
            read,
            eof_behaviour,
            instructions@.len(),
        ),
{
    match read {
        Ok(Some(value)) => {
            state.cells[state.data_pointer] = value;
        },
        Ok(None) => match eof_behaviour {
            EOFBehaviour::Value(value) => {
                state.cells[state.data_pointer] = value;
            },
            EOFBehaviour::Unchanged => {},
        },
        Err(cause) => {
            return Err(StepError::InputFailure(cause));
        },
    }
    advance(state, instructions.len())
}

/// Finishes a step on an `Output` instruction once the output consumer has
/// answered: a failure abandons the step with the machine untouched.
pub fn complete_output<E>(
    state: &mut BrainfuckState<u8, 30_000>,
    instructions: &[BrainfuckInstruction],
    written: Result<(), E>,
) -> (result: Result<StepResult, StepError<E>>)
    requires
        ready(old(state)@, instructions@),
        instructions@[old(state).instruction_pointer as int] == BrainfuckInstruction::Output,
    ensures
        (Outcome { machine: final(state)@, result }) == output_step(
            old(state)@,
            written,
            instructions@.len(),
        ),
{
    match written {
        Ok(_) => advance(state, instructions.len()),
        Err(cause) => Err(StepError::OutputFailure(cause)),
    }
}

/// Executes the instruction under the instruction pointer.
///
/// `input` is called once if and only if that instruction is `Input`, and
/// `output` once, with the current cell, if and only if it is `Output`; what
/// the step then does with their answer is `input_step` and `output_step`.
/// Every other instruction is `silent_step`.
pub fn brainfuck_step<E>(
    state: &mut BrainfuckState<u8, 30_000>,
    instructions: &[BrainfuckInstruction],
    input: impl FnOnce() -> Result<Option<u8>, E>,
    output: impl FnOnce(u8) -> Result<(), E>,
    eof_behaviour: EOFBehaviour,
) -> (result: Result<StepResult, StepError<E>>)
    requires
        ready(old(state)@, instructions@),
        instructions@[old(state).instruction_pointer as int] == BrainfuckInstruction::Input
            ==> call_requires(input, ()),
        instructions@[old(state).instruction_pointer as int] == BrainfuckInstruction::Output
            ==> call_requires(output, (old(state)@.cell(),)),
    ensures
        ({
            let before = old(state)@;
            let after = Outcome { machine: final(state)@, result };
            let len = instructions@.len();
            match instructions@[before.instruction_pointer as int] {
                BrainfuckInstruction::Input => exists|read: Result<Option<u8>, E>|
                    call_ensures(input, (), read) && after == input_step(
                        before,
                        read,
                        eof_behaviour,
                        len,
                    ),
                BrainfuckInstruction::Output => exists|written: Result<(), E>|
                    call_ensures(output, (before.cell(),), written) && after == output_step(
                        before,
                        written,
                        len,
                    ),
                instruction => after == silent_step::<E>(before, instruction, len),
            }
        }),
        final(state).data_pointer < TAPE_LEN,
        result is Ok ==> (result matches Ok(StepResult::Continue) <==> final(state).instruction_pointer
            < instructions@.len()),
        result is Ok && well_bracketed(instructions@) ==> in_domain(final(state)@, instructions@),
        result is Err ==> final(state)@ == old(state)@,
{
    proof {
        let instruction = instructions@[state.instruction_pointer as int];
        if well_bracketed(instructions@) && (instruction is LeftBracket || instruction is RightBracket) {
            law_pairing_is_involution(instructions@, state.instruction_pointer as int);
        }
    }
    let len = instructions.len();
    match instructions[state.instruction_pointer] {
        BrainfuckInstruction::IncrCell => {
            let value = state.cells[state.data_pointer];
            state.cells[state.data_pointer] = value.wrapping_add(1);
        },
        BrainfuckInstruction::DecrCell => {
            let value = state.cells[state.data_pointer];
            state.cells[state.data_pointer] = value.wrapping_sub(1);
        },
        BrainfuckInstruction::Input => {
            let read = input();
            return complete_input(state, instructions, read, eof_behaviour);
        },
        BrainfuckInstruction::Output => {
            let written = output(state.cells[state.data_pointer]);
            return complete_output(state, instructions, written);
        },
        BrainfuckInstruction::IncrPtr => {
            if state.data_pointer + 1 >= TAPE_LEN {
                return Err(StepError::PointerOverflow);
            }
            state.data_pointer = state.data_pointer + 1;
        },
        BrainfuckInstruction::DecrPtr => {
            match state.data_pointer.checked_sub(1) {
                Some(moved) => {
                    state.data_pointer = moved;
                },
                None => {
                    return Err(StepError::PointerUnderflow);
                },
            }
        },
        BrainfuckInstruction::LeftBracket { matching_pos } => {
            if state.cells[state.data_pointer] == 0 {
                state.instruction_pointer = matching_pos;
            }
        },
        BrainfuckInstruction::RightBracket { matching_pos } => {
            if state.cells[state.data_pointer] != 0 {
                state.instruction_pointer = matching_pos;
            }
        },
    }
    advance(state, len)
}

/// Cell arithmetic wraps modulo 256 in both directions: a step on
/// `IncrCell` or `DecrCell` always succeeds, moves the current cell one up
/// or one down modulo 256, and leaves every other cell and the data pointer
/// alone.
pub proof fn law_cell_arithmetic_wraps<E>(machine: Machine<u8>, len: nat)
    requires
        machine.data_pointer < machine.cells.len(),
    ensures
        ({
            let up = silent_step::<E>(machine, BrainfuckInstruction::IncrCell, len);
            let down = silent_step::<E>(machine, BrainfuckInstruction::DecrCell, len);
            &&& up.result is Ok
            &&& down.result is Ok
            &&& up.machine.cell() == (machine.cell() + 1) % 256
            &&& down.machine.cell() == (machine.cell() - 1) % 256
            &&& machine.cell() == 255 ==> up.machine.cell() == 0
            &&& machine.cell() == 0 ==> down.machine.cell() == 255
            &&& up.machine.data_pointer == machine.data_pointer
            &&& down.machine.data_pointer == machine.data_pointer
            &&& up.machine.cells.len() == machine.cells.len()
            &&& down.machine.cells.len() == machine.cells.len()
            &&& forall|i: int|
                0 <= i < machine.cells.len() && i != machine.data_pointer ==> up.machine.cells[i]
                    == machine.cells[i] && down.machine.cells[i] == machine.cells[i]
        }),
{
}

/// The data pointer never leaves the tape: `IncrPtr` fails with
/// `PointerOverflow` exactly on the last cell, `DecrPtr` with
/// `PointerUnderflow` exactly on the first, and below those bounds each
/// moves the pointer by one. A step that fails leaves the machine as it
/// was, and no other instruction reports either error.
pub proof fn law_pointer_bounds<E>(machine: Machine<u8>, instruction: BrainfuckInstruction, len: nat)
    requires
        machine.data_pointer < machine.cells.len(),
        instruction != BrainfuckInstruction::Input,
        instruction != BrainfuckInstruction::Output,
    ensures
        ({
            let outcome = silent_step::<E>(machine, instruction, len);
            &&& outcome.result == Err::<StepResult, StepError<E>>(StepError::PointerOverflow) <==> instruction
                == BrainfuckInstruction::IncrPtr && machine.data_pointer == machine.cells.len() - 1
            &&& outcome.result == Err::<StepResult, StepError<E>>(StepError::PointerUnderflow) <==> instruction
                == BrainfuckInstruction::DecrPtr && machine.data_pointer == 0
            &&& outcome.result is Err ==> instruction == BrainfuckInstruction::IncrPtr || instruction
                == BrainfuckInstruction::DecrPtr
            &&& outcome.result is Err ==> outcome.machine == machine
            &&& outcome.machine.data_pointer < machine.cells.len()
            &&& outcome.result is Ok && instruction == BrainfuckInstruction::IncrPtr
                ==> outcome.machine.data_pointer == machine.data_pointer + 1
            &&& outcome.result is Ok && instruction == BrainfuckInstruction::DecrPtr
                ==> outcome.machine.data_pointer == machine.data_pointer - 1
        }),
{
}

/// The end-of-stream policy is honoured exactly: when the input has run
/// out, `Value(v)` puts `v` in the current cell and `Unchanged` leaves the
/// tape as it is; either way the step succeeds, and no other cell changes.
pub proof fn law_eof_policy<E>(machine: Machine<u8>, value: u8, len: nat)
    requires
        machine.data_pointer < machine.cells.len(),
    ensures
        ({
            let substituted = input_step::<E>(machine, Ok(None), EOFBehaviour::Value(value), len);
            let unchanged = input_step::<E>(machine, Ok(None), EOFBehaviour::Unchanged, len);
            &&& substituted.result is Ok
            &&& unchanged.result is Ok
            &&& substituted.machine.cell() == value
            &&& substituted.machine.cells == machine.cells.update(machine.data_pointer as int, value)
            &&& unchanged.machine.cells == machine.cells
            &&& unchanged.machine.cell() == machine.cell()
        }),
{
}

/// A byte that the input provider yields is stored whatever the
/// end-of-stream policy.
pub proof fn law_input_byte_stored<E>(machine: Machine<u8>, byte: u8, eof_behaviour: EOFBehaviour, len: nat)
    requires
        machine.data_pointer < machine.cells.len(),
    ensures
        ({
            let outcome = input_step::<E>(machine, Ok(Some(byte)), eof_behaviour, len);
            &&& outcome.result is Ok
            &&& outcome.machine.cells == machine.cells.update(machine.data_pointer as int, byte)
        }),
{
}

/// The machine is inside its domain for `program`: the instruction pointer
/// is at an instruction or just past the last, and the data pointer is on
/// the tape.
pub open spec fn in_domain(machine: Machine<u8>, program: Seq<BrainfuckInstruction>) -> bool {
    &&& machine.instruction_pointer <= program.len()
    &&& machine.data_pointer < machine.cells.len()
}

/// On a well-bracketed program every machine that has not run off the end
/// can take a step.
pub proof fn law_well_bracketed_is_ready(machine: Machine<u8>, program: Seq<BrainfuckInstruction>)
    requires
        well_bracketed(program),
        program.len() <= usize::MAX,
        in_domain(machine, program),
        machine.instruction_pointer < program.len(),
    ensures
        ready(machine, program),
{
    let instruction = program[machine.instruction_pointer as int];
    if instruction is LeftBracket || instruction is RightBracket {
        law_pairing_is_involution(program, machine.instruction_pointer as int);
    }
}

/// A successful step on a well-bracketed program leaves the machine inside
/// its domain with a tape of the same length, reports `Continue` exactly
/// when an instruction is left to execute, and a jump lands just past the
/// partner of the bracket that caused it.
pub proof fn law_step_stays_in_domain<E>(
    machine: Machine<u8>,
    program: Seq<BrainfuckInstruction>,
    read: Result<Option<u8>, E>,
    written: Result<(), E>,
    eof_behaviour: EOFBehaviour,
)
    requires
        well_bracketed(program),
        in_domain(machine, program),
        machine.instruction_pointer < program.len(),
    ensures
        ({
            let instruction = program[machine.instruction_pointer as int];
            let outcome = step(machine, program, read, written, eof_behaviour);
            outcome.result is Ok ==> {
                &&& in_domain(outcome.machine, program)
                &&& outcome.machine.cells.len() == machine.cells.len()
                &&& outcome.result == Ok::<StepResult, StepError<E>>(StepResult::Continue)
                    <==> outcome.machine.instruction_pointer < program.len()
                &&& outcome.machine.instruction_pointer == machine.instruction_pointer + 1
                    || outcome.machine.instruction_pointer == target(instruction) + 1
            }
        }),
{
    let instruction = program[machine.instruction_pointer as int];
    if instruction is LeftBracket || instruction is RightBracket {
        law_pairing_is_involution(program, machine.instruction_pointer as int);
    }
}

} // verus!
