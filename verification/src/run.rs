//! Whole runs: the step engine iterated against given collaborators.

use vstd::prelude::*;

use crate::interpreter::{
    initial, input_step, output_step, silent_step, step, EOFBehaviour, Machine, StepError, StepResult, TAPE_LEN,
};
use crate::parser::{ParserView, CLOSE, DOT, GREATER, MINUS, OPEN, PLUS};
use crate::source::{parsed, parsed_prefix};
use crate::BrainfuckInstruction;

verus! {

/// Where a run stands.
pub enum Status<E> {
    /// The next step can be taken.
    Running,
    /// The instruction pointer has walked off the end of the program.
    Terminated,
    /// A step was abandoned; no step follows.
    Failed(StepError<E>),
}

/// A run in progress: the machine, where the run stands, how often the
/// input provider has been asked, and the bytes that the output consumer
/// has accepted.
pub struct Run<E> {
    pub machine: Machine<u8>,
    pub status: Status<E>,
    pub reads: nat,
    pub output: Seq<u8>,
}

/// What a run meets outside: `input` answers the read that follows the
/// given number of earlier reads, `sink` answers the offer of a byte after
/// the given number of accepted bytes, and `eof_behaviour` is the policy for
/// the end of the input.
pub struct World<E> {
    pub input: spec_fn(nat) -> Result<Option<u8>, E>,
    pub sink: spec_fn(nat, u8) -> Result<(), E>,
    pub eof_behaviour: EOFBehaviour,
}

/// A run of `program` before its first step. An empty program has
/// terminated at once.
pub open spec fn begin<E>(program: Seq<BrainfuckInstruction>) -> Run<E> {
    Run {
        machine: initial(TAPE_LEN as nat),
        status: if program.len() == 0 {
            Status::Terminated
        } else {
            Status::Running
        },
        reads: 0,
        output: Seq::empty(),
    }
}

/// Where a run stands after a step with the given result.
pub open spec fn status_after<E>(result: Result<StepResult, StepError<E>>) -> Status<E> {
    match result {
        Ok(StepResult::Continue) => Status::Running,
        Ok(StepResult::Terminated) => Status::Terminated,
        Err(error) => Status::Failed(error),
    }
}

/// The run one step on. A run that has terminated or failed stays as it is.
pub open spec fn run_step<E>(run: Run<E>, program: Seq<BrainfuckInstruction>, world: World<E>) -> Run<E> {
    if run.status is Running {
        match program[run.machine.instruction_pointer as int] {
            BrainfuckInstruction::Input => {
                let outcome = input_step(
                    run.machine,
                    (world.input)(run.reads),
                    world.eof_behaviour,
                    program.len(),
                );
                Run {
                    machine: outcome.machine,
                    status: status_after(outcome.result),
                    reads: run.reads + 1,
                    output: run.output,
                }
            },
            BrainfuckInstruction::Output => {
                let written = (world.sink)(run.output.len(), run.machine.cell());
                let outcome = output_step(run.machine, written, program.len());
                Run {
                    machine: outcome.machine,
                    status: status_after(outcome.result),
                    reads: run.reads,
                    output: if written is Ok {
                        run.output.push(run.machine.cell())
                    } else {
                        run.output
                    },
                }
            },
            instruction => {
                let outcome = silent_step::<E>(run.machine, instruction, program.len());
                Run {
                    machine: outcome.machine,
                    status: status_after(outcome.result),
                    reads: run.reads,
                    output: run.output,
                }
            },
        }
    } else {
        run
    }
}

/// The run `steps` steps on.
pub open spec fn run_for<E>(
    run: Run<E>,
    program: Seq<BrainfuckInstruction>,
    world: World<E>,
    steps: nat,
) -> Run<E>
    decreases steps,
{
    if steps == 0 {
        run
    } else {
        run_step(run_for(run, program, world, (steps - 1) as nat), program, world)
    }
}

/// A step of a run is a step of the engine on what the world answers.
pub proof fn law_run_step_is_step<E>(run: Run<E>, program: Seq<BrainfuckInstruction>, world: World<E>)
    requires
        run.status is Running,
    ensures
        ({
            let outcome = step(
                run.machine,
                program,
                (world.input)(run.reads),
                (world.sink)(run.output.len(), run.machine.cell()),
                world.eof_behaviour,
            );
            let next = run_step(run, program, world);
            &&& next.machine == outcome.machine
            &&& next.status == status_after(outcome.result)
        }),
{
}

/// A run that has terminated or failed never moves again.
pub proof fn law_ended_runs_stay<E>(
    run: Run<E>,
    program: Seq<BrainfuckInstruction>,
    world: World<E>,
    steps: nat,
)
    requires
        !(run.status is Running),
    ensures
        run_for(run, program, world, steps) == run,
    decreases steps,
{
    if steps > 0 {
        law_ended_runs_stay(run, program, world, (steps - 1) as nat);
    }
}

/// The text `+++.` denotes three increments and an output.
proof fn lemma_reading_of_count_and_print()
    ensures
        parsed(seq![PLUS, PLUS, PLUS, DOT]) matches Ok(listing) && listing.instructions == seq![
            BrainfuckInstruction::IncrCell,
            BrainfuckInstruction::IncrCell,
            BrainfuckInstruction::IncrCell,
            BrainfuckInstruction::Output,
        ],
{
    let source = seq![PLUS, PLUS, PLUS, DOT];
    reveal_with_fuel(parsed_prefix, 5);
    let parser = parsed_prefix(source, 4)->Ok_0;
    assert(parsed_prefix(source, 4) is Ok);
    assert(parser.pending.len() == 0);
    assert(parser.instructions =~= seq![
        BrainfuckInstruction::IncrCell,
        BrainfuckInstruction::IncrCell,
        BrainfuckInstruction::IncrCell,
        BrainfuckInstruction::Output,
    ]);
}

/// The program `+++.` takes four steps whatever the input holds. It offers
/// the output consumer the byte 3 once: if that is accepted the run has
/// terminated with exactly that byte emitted, and if not it has failed with
/// what the consumer reported. The input provider is never asked.
pub proof fn law_count_and_print<E>(world: World<E>)
    ensures
        ({
            let program = parsed(seq![PLUS, PLUS, PLUS, DOT])->Ok_0.instructions;
            let end = run_for(begin(program), program, world, 4);
            &&& parsed(seq![PLUS, PLUS, PLUS, DOT]) is Ok
            &&& end.reads == 0
            &&& match (world.sink)(0, 3) {
                Ok(_) => end.status is Terminated && end.output == seq![3u8],
                Err(cause) => end.status == Status::Failed(StepError::OutputFailure(cause)) && end.output.len() == 0,
            }
        }),
{
    lemma_reading_of_count_and_print();
    let program = parsed(seq![PLUS, PLUS, PLUS, DOT])->Ok_0.instructions;
    let start = begin::<E>(program);
    reveal_with_fuel(run_for, 5);
    let one = run_for(start, program, world, 1);
    let two = run_for(start, program, world, 2);
    let three = run_for(start, program, world, 3);
    assert(one.machine.cell() == 1 && one.status is Running);
    assert(two.machine.cell() == 2 && two.status is Running);
    assert(three.machine.cell() == 3 && three.status is Running);
    let end = run_for(start, program, world, 4);
    if (world.sink)(0, 3) is Ok {
        assert(end.output =~= seq![3u8]);
    }
}

/// The text `+[-]` denotes an increment and a loop around a decrement.
proof fn lemma_reading_of_set_and_clear()
    ensures
        parsed(seq![PLUS, OPEN, MINUS, CLOSE]) matches Ok(listing) && listing.instructions == seq![
            BrainfuckInstruction::IncrCell,
            BrainfuckInstruction::LeftBracket { matching_pos: 3 },
            BrainfuckInstruction::DecrCell,
            BrainfuckInstruction::RightBracket { matching_pos: 1 },
        ],
{
    let source = seq![PLUS, OPEN, MINUS, CLOSE];
    reveal_with_fuel(parsed_prefix, 5);
    let two = parsed_prefix(source, 2)->Ok_0;
    assert(parsed_prefix(source, 2) is Ok);
    assert(two.pending =~= seq![1usize]);
    let three = parsed_prefix(source, 3)->Ok_0;
    assert(parsed_prefix(source, 3) is Ok);
    assert(three.pending.last() == 1);
    let parser = parsed_prefix(source, 4)->Ok_0;
    assert(parsed_prefix(source, 4) is Ok);
    assert(parser.pending.len() == 0);
    assert(parser.instructions =~= seq![
        BrainfuckInstruction::IncrCell,
        BrainfuckInstruction::LeftBracket { matching_pos: 3 },
        BrainfuckInstruction::DecrCell,
        BrainfuckInstruction::RightBracket { matching_pos: 1 },
    ]);
}

/// The program `+[-]` takes four steps whatever the world holds: it sets
/// the first cell to 1, enters the loop, brings the cell back to 0, and
/// leaves the loop at the closing bracket. The run has then terminated with
/// the whole tape zero, nothing read and nothing emitted.
pub proof fn law_set_and_clear<E>(world: World<E>)
    ensures
        ({
            let program = parsed(seq![PLUS, OPEN, MINUS, CLOSE])->Ok_0.instructions;
            let start = begin::<E>(program);
            let end = run_for(start, program, world, 4);
            &&& parsed(seq![PLUS, OPEN, MINUS, CLOSE]) is Ok
            &&& run_for(start, program, world, 1).machine.cell() == 1
            &&& run_for(start, program, world, 2).machine.instruction_pointer == 2
            &&& run_for(start, program, world, 3).machine.cell() == 0
            &&& run_for(start, program, world, 3).status is Running
            &&& end.status is Terminated
            &&& end.machine.instruction_pointer == 4
            &&& end.machine.cells == start.machine.cells
            &&& end.reads == 0
            &&& end.output.len() == 0
        }),
{
    lemma_reading_of_set_and_clear();
    let program = parsed(seq![PLUS, OPEN, MINUS, CLOSE])->Ok_0.instructions;
    let start = begin::<E>(program);
    reveal_with_fuel(run_for, 5);
    let one = run_for(start, program, world, 1);
    let two = run_for(start, program, world, 2);
    let three = run_for(start, program, world, 3);
    let end = run_for(start, program, world, 4);
    assert(one.machine.cell() == 1 && one.status is Running && one.machine.instruction_pointer == 1);
    assert(two.machine.cell() == 1 && two.status is Running && two.machine.instruction_pointer == 2);
    assert(three.machine.cell() == 0 && three.status is Running && three.machine.instruction_pointer == 3);
    assert(end.machine.cells =~= start.machine.cells);
}

/// A source text of `len` bytes, each of them `>`.
pub open spec fn all_right(len: nat) -> Seq<u8> {
    Seq::new(len, |i: int| GREATER)
}

/// A program of `len` instructions, each of them `IncrPtr`.
pub open spec fn all_incr_ptr(len: nat) -> Seq<BrainfuckInstruction> {
    Seq::new(len, |i: int| BrainfuckInstruction::IncrPtr)
}

/// After `n` bytes of a text of `>` the parser holds `n` times `IncrPtr`
/// and nothing is open.
proof fn lemma_reading_of_all_right(len: nat, n: nat)
    requires
        n <= len,
    ensures
        parsed_prefix(all_right(len), n) matches Ok(parser) && parser.pending.len() == 0 && parser.instructions
            == all_incr_ptr(n),
    decreases n,
{
    if n > 0 {
        lemma_reading_of_all_right(len, (n - 1) as nat);
        let before = parsed_prefix(all_right(len), (n - 1) as nat)->Ok_0;
        let parser = parsed_prefix(all_right(len), n)->Ok_0;
        assert(all_right(len)[n - 1] == GREATER);
        assert(parser.instructions =~= all_incr_ptr(n));
    } else {
        assert(ParserView::empty().instructions =~= all_incr_ptr(0));
    }
}

/// A text of as many `>` as the tape has cells denotes as many `IncrPtr`.
/// Its run moves the data pointer one cell to the right with each step up
/// to the last cell; the step after that fails with `PointerOverflow` and
/// leaves the pointer on the last cell. Nothing is read or emitted.
pub proof fn law_walk_off_the_tape<E>(world: World<E>, steps: nat)
    ensures
        ({
            let program = all_incr_ptr(TAPE_LEN as nat);
            let run = run_for(begin(program), program, world, steps);
            &&& parsed(all_right(TAPE_LEN as nat)) matches Ok(listing) && listing.instructions == program
            &&& steps < TAPE_LEN ==> run.status is Running && run.machine.data_pointer == steps
            &&& steps >= TAPE_LEN ==> run.status == Status::<E>::Failed(StepError::PointerOverflow)
                && run.machine.data_pointer == TAPE_LEN - 1
            &&& run.machine.instruction_pointer == run.machine.data_pointer
            &&& run.machine.cells == initial(TAPE_LEN as nat).cells
            &&& run.reads == 0
            &&& run.output.len() == 0
        }),
    decreases steps,
{
    lemma_reading_of_all_right(TAPE_LEN as nat, TAPE_LEN as nat);
    if steps > 0 {
        law_walk_off_the_tape(world, (steps - 1) as nat);
        let program = all_incr_ptr(TAPE_LEN as nat);
        let before = run_for(begin(program), program, world, (steps - 1) as nat);
        if before.status is Running {
            assert(program[before.machine.instruction_pointer as int] == BrainfuckInstruction::IncrPtr);
        }
    }
}

} // verus!
