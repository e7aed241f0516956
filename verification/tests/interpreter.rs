use brainfuck_interpreter::interpreter::{
    brainfuck_step, complete_input, complete_output, is_ready, BrainfuckState, EOFBehaviour, StepError, StepResult,
    TAPE_LEN,
};
use brainfuck_interpreter::source::parse_source;
use brainfuck_interpreter::BrainfuckInstruction;

type Tape = BrainfuckState<u8, 30_000>;

struct Run {
    state: Tape,
    output: Vec<u8>,
    steps: usize,
    end: Result<StepResult, StepError<String>>,
}

fn run(source: &[u8], input: &[u8], eof_behaviour: EOFBehaviour) -> Run {
    let program = parse_source(source).unwrap();
    let mut state = Tape::default();
    let mut pending = input.iter().copied();
    let mut output = Vec::new();
    let mut steps = 0;
    let mut end = Ok(StepResult::Terminated);
    while state.instruction_pointer < program.instructions.len() {
        assert!(steps < 1_000_000);
        end = brainfuck_step(
            &mut state,
            &program.instructions,
            || Ok(pending.next()),
            |byte| {
                output.push(byte);
                Ok(())
            },
            eof_behaviour,
        );
        steps += 1;
        match end {
            Ok(StepResult::Continue) => {}
            _ => break,
        }
    }
    Run { state, output, steps, end }
}

fn never_read() -> Result<Option<u8>, String> {
    panic!("the input provider was called")
}

fn never_write(_: u8) -> Result<(), String> {
    panic!("the output consumer was called")
}

#[test]
fn fresh_state_is_zeroed() {
    let state = Tape::default();
    assert_eq!(state.instruction_pointer, 0);
    assert_eq!(state.data_pointer, 0);
    assert_eq!(state.cells.len(), 30_000);
    assert_eq!(TAPE_LEN, 30_000);
    assert!(state.cells.iter().all(|cell| *cell == 0));
}

#[test]
fn three_increments_then_output_emits_three() {
    let finished = run(b"+++.", b"", EOFBehaviour::Value(0));
    assert_eq!(finished.output, vec![3]);
    assert_eq!(finished.end, Ok(StepResult::Terminated));
    assert_eq!(finished.steps, 4);
    let with_input = run(b"+++.", b"ignored", EOFBehaviour::Unchanged);
    assert_eq!(with_input.output, vec![3]);
    assert_eq!(with_input.end, Ok(StepResult::Terminated));
}

#[test]
fn clear_loop_runs_once_and_exits() {
    let finished = run(b"+[-]", b"anything", EOFBehaviour::Value(0));
    assert_eq!(finished.end, Ok(StepResult::Terminated));
    assert_eq!(finished.state.cells[0], 0);
    assert!(finished.output.is_empty());
    assert_eq!(finished.steps, 4);
    assert_eq!(finished.state.instruction_pointer, 4);
}

#[test]
fn thirty_thousand_moves_right_overflow_on_the_last() {
    let source = vec![b'>'; 30_000];
    let finished = run(&source, b"", EOFBehaviour::Value(0));
    assert_eq!(finished.end, Err(StepError::PointerOverflow));
    assert_eq!(finished.steps, 30_000);
    assert_eq!(finished.state.instruction_pointer, 29_999);
    assert_eq!(finished.state.data_pointer, 29_999);
}

#[test]
fn last_cell_is_reachable() {
    let mut source = vec![b'>'; 29_999];
    source.push(b'+');
    let finished = run(&source, b"", EOFBehaviour::Value(0));
    assert_eq!(finished.end, Ok(StepResult::Terminated));
    assert_eq!(finished.state.data_pointer, 29_999);
    assert_eq!(finished.state.cells[29_999], 1);
}

#[test]
fn input_at_end_of_stream_follows_policy() {
    let substituted = run(b",", b"", EOFBehaviour::Value(0));
    assert_eq!(substituted.end, Ok(StepResult::Terminated));
    assert_eq!(substituted.state.cells[0], 0);
    let unchanged = run(b",", b"", EOFBehaviour::Unchanged);
    assert_eq!(unchanged.end, Ok(StepResult::Terminated));
    assert_eq!(unchanged.state.cells[0], 0);
}

#[test]
fn end_of_stream_value_replaces_prior_cell() {
    let finished = run(b"+++++,", b"", EOFBehaviour::Value(42));
    assert_eq!(finished.end, Ok(StepResult::Terminated));
    assert_eq!(finished.state.cells[0], 42);
}

#[test]
fn end_of_stream_unchanged_keeps_prior_cell() {
    let finished = run(b"+++++,", b"", EOFBehaviour::Unchanged);
    assert_eq!(finished.end, Ok(StepResult::Terminated));
    assert_eq!(finished.state.cells[0], 5);
}

#[test]
fn input_byte_is_stored_under_either_policy() {
    let first = run(b"+,", b"A", EOFBehaviour::Value(9));
    assert_eq!(first.state.cells[0], b'A');
    let second = run(b"+,", b"A", EOFBehaviour::Unchanged);
    assert_eq!(second.state.cells[0], b'A');
}

#[test]
fn increment_wraps_from_255_to_0() {
    let mut state = Tape::default();
    state.cells[0] = 255;
    let program = [BrainfuckInstruction::IncrCell];
    let result = brainfuck_step(&mut state, &program, never_read, never_write, EOFBehaviour::Unchanged);
    assert_eq!(result, Ok(StepResult::Terminated));
    assert_eq!(state.cells[0], 0);
}

#[test]
fn decrement_wraps_from_0_to_255() {
    let mut state = Tape::default();
    let program = [BrainfuckInstruction::DecrCell, BrainfuckInstruction::DecrCell];
    let result = brainfuck_step(&mut state, &program, never_read, never_write, EOFBehaviour::Unchanged);
    assert_eq!(result, Ok(StepResult::Continue));
    assert_eq!(state.cells[0], 255);
    let result = brainfuck_step(&mut state, &program, never_read, never_write, EOFBehaviour::Unchanged);
    assert_eq!(result, Ok(StepResult::Terminated));
    assert_eq!(state.cells[0], 254);
}

#[test]
fn two_hundred_fifty_six_increments_come_back_to_zero() {
    let source = vec![b'+'; 256];
    let finished = run(&source, b"", EOFBehaviour::Unchanged);
    assert_eq!(finished.state.cells[0], 0);
    let source = vec![b'+'; 257];
    let finished = run(&source, b"", EOFBehaviour::Unchanged);
    assert_eq!(finished.state.cells[0], 1);
}

#[test]
fn move_left_at_cell_zero_underflows() {
    let finished = run(b"<", b"", EOFBehaviour::Value(0));
    assert_eq!(finished.end, Err(StepError::PointerUnderflow));
    assert_eq!(finished.state.data_pointer, 0);
    assert_eq!(finished.state.instruction_pointer, 0);
}

#[test]
fn move_right_then_left_is_fine() {
    let finished = run(b"><", b"", EOFBehaviour::Value(0));
    assert_eq!(finished.end, Ok(StepResult::Terminated));
    assert_eq!(finished.state.data_pointer, 0);
}

#[test]
fn overflow_leaves_pointer_on_the_last_cell() {
    let mut state = Tape::default();
    state.data_pointer = 29_999;
    let program = [BrainfuckInstruction::IncrPtr];
    let result = brainfuck_step(&mut state, &program, never_read, never_write, EOFBehaviour::Unchanged);
    assert_eq!(result, Err(StepError::PointerOverflow));
    assert_eq!(state.data_pointer, 29_999);
    assert_eq!(state.instruction_pointer, 0);
    assert!(state.cells.iter().all(|cell| *cell == 0));
}

#[test]
fn input_failure_is_surfaced_and_state_untouched() {
    let mut state = Tape::default();
    state.cells[0] = 17;
    let program = [BrainfuckInstruction::Input, BrainfuckInstruction::IncrCell];
    let result = brainfuck_step(
        &mut state,
        &program,
        || Err(String::from("broken pipe")),
        never_write,
        EOFBehaviour::Value(0),
    );
    assert_eq!(result, Err(StepError::InputFailure(String::from("broken pipe"))));
    assert_eq!(state.cells[0], 17);
    assert_eq!(state.instruction_pointer, 0);
}

#[test]
fn output_failure_is_surfaced_and_state_untouched() {
    let mut state = Tape::default();
    state.cells[0] = 17;
    let program = [BrainfuckInstruction::Output, BrainfuckInstruction::IncrCell];
    let mut offered = None;
    let result = brainfuck_step(
        &mut state,
        &program,
        never_read,
        |byte| {
            offered = Some(byte);
            Err(String::from("disk full"))
        },
        EOFBehaviour::Value(0),
    );
    assert_eq!(result, Err(StepError::OutputFailure(String::from("disk full"))));
    assert_eq!(offered, Some(17));
    assert_eq!(state.cells[0], 17);
    assert_eq!(state.instruction_pointer, 0);
}

#[test]
fn providers_are_called_once_per_io_instruction() {
    let mut reads = 0;
    let mut writes = 0;
    let program = [BrainfuckInstruction::Input, BrainfuckInstruction::Output, BrainfuckInstruction::IncrCell];
    let mut state = Tape::default();
    for _ in 0..3 {
        let result: Result<StepResult, StepError<String>> = brainfuck_step(
            &mut state,
            &program,
            || {
                reads += 1;
                Ok(Some(b'x'))
            },
            |_| {
                writes += 1;
                Ok(())
            },
            EOFBehaviour::Unchanged,
        );
        assert!(result.is_ok());
    }
    assert_eq!(reads, 1);
    assert_eq!(writes, 1);
    assert_eq!(state.cells[0], b'x' + 1);
}

#[test]
fn left_bracket_skips_loop_on_zero() {
    let finished = run(b"[+++.]-", b"", EOFBehaviour::Unchanged);
    assert_eq!(finished.end, Ok(StepResult::Terminated));
    assert!(finished.output.is_empty());
    assert_eq!(finished.state.cells[0], 255);
    assert_eq!(finished.steps, 2);
}

#[test]
fn left_bracket_jump_lands_past_partner() {
    let mut state = Tape::default();
    let program = parse_source(b"[+]-").unwrap().instructions;
    let result: Result<StepResult, StepError<String>> =
        brainfuck_step(&mut state, &program, never_read, never_write, EOFBehaviour::Unchanged);
    assert_eq!(result, Ok(StepResult::Continue));
    assert_eq!(state.instruction_pointer, 3);
}

#[test]
fn right_bracket_jump_lands_on_first_body_instruction() {
    let mut state = Tape::default();
    state.cells[0] = 2;
    state.instruction_pointer = 2;
    let program = parse_source(b"[-]").unwrap().instructions;
    let result: Result<StepResult, StepError<String>> =
        brainfuck_step(&mut state, &program, never_read, never_write, EOFBehaviour::Unchanged);
    assert_eq!(result, Ok(StepResult::Continue));
    assert_eq!(state.instruction_pointer, 1);
}

#[test]
fn right_bracket_falls_through_on_zero() {
    let mut state = Tape::default();
    state.instruction_pointer = 2;
    let program = parse_source(b"[-]").unwrap().instructions;
    let result: Result<StepResult, StepError<String>> =
        brainfuck_step(&mut state, &program, never_read, never_write, EOFBehaviour::Unchanged);
    assert_eq!(result, Ok(StepResult::Terminated));
    assert_eq!(state.instruction_pointer, 3);
}

#[test]
fn multiplication_loop() {
    let finished = run(b"++++++[>+++++++<-]>.", b"", EOFBehaviour::Unchanged);
    assert_eq!(finished.end, Ok(StepResult::Terminated));
    assert_eq!(finished.output, vec![42]);
    assert_eq!(finished.state.cells[0], 0);
    assert_eq!(finished.state.cells[1], 42);
}

#[test]
fn echo_until_end_of_stream() {
    let finished = run(b",[.,]", b"hi!", EOFBehaviour::Value(0));
    assert_eq!(finished.end, Ok(StepResult::Terminated));
    assert_eq!(finished.output, b"hi!".to_vec());
}

#[test]
fn nested_loops_move_a_value_two_cells() {
    let finished = run(b"+++[>[-]+++[>+<-]<-]>>.", b"", EOFBehaviour::Unchanged);
    assert_eq!(finished.end, Ok(StepResult::Terminated));
    assert_eq!(finished.output, vec![9]);
}

#[test]
fn complete_input_stores_byte_and_advances() {
    let mut state = Tape::default();
    let program = [BrainfuckInstruction::Input, BrainfuckInstruction::Output];
    let result: Result<StepResult, StepError<String>> =
        complete_input(&mut state, &program, Ok(Some(200)), EOFBehaviour::Value(1));
    assert_eq!(result, Ok(StepResult::Continue));
    assert_eq!(state.cells[0], 200);
    assert_eq!(state.instruction_pointer, 1);
}

#[test]
fn complete_input_applies_policy_on_end_of_stream() {
    let program = [BrainfuckInstruction::Input];
    let mut state = Tape::default();
    state.cells[0] = 5;
    let result: Result<StepResult, StepError<String>> =
        complete_input(&mut state, &program, Ok(None), EOFBehaviour::Value(77));
    assert_eq!(result, Ok(StepResult::Terminated));
    assert_eq!(state.cells[0], 77);
    let mut state = Tape::default();
    state.cells[0] = 5;
    let result: Result<StepResult, StepError<String>> =
        complete_input(&mut state, &program, Ok(None), EOFBehaviour::Unchanged);
    assert_eq!(result, Ok(StepResult::Terminated));
    assert_eq!(state.cells[0], 5);
}

#[test]
fn complete_input_reports_failure() {
    let program = [BrainfuckInstruction::Input];
    let mut state = Tape::default();
    let result = complete_input(&mut state, &program, Err(7u32), EOFBehaviour::Value(77));
    assert_eq!(result, Err(StepError::InputFailure(7u32)));
    assert_eq!(state.cells[0], 0);
    assert_eq!(state.instruction_pointer, 0);
}

#[test]
fn complete_output_advances_or_reports_failure() {
    let program = [BrainfuckInstruction::Output, BrainfuckInstruction::Output];
    let mut state = Tape::default();
    let result: Result<StepResult, StepError<u32>> = complete_output(&mut state, &program, Ok(()));
    assert_eq!(result, Ok(StepResult::Continue));
    assert_eq!(state.instruction_pointer, 1);
    let result = complete_output(&mut state, &program, Err(3u32));
    assert_eq!(result, Err(StepError::OutputFailure(3u32)));
    assert_eq!(state.instruction_pointer, 1);
}

#[test]
fn step_touches_only_the_current_cell() {
    let mut state = Tape::default();
    state.cells[4] = 10;
    state.cells[6] = 20;
    state.data_pointer = 5;
    let program = [BrainfuckInstruction::IncrCell];
    let result: Result<StepResult, StepError<String>> =
        brainfuck_step(&mut state, &program, never_read, never_write, EOFBehaviour::Unchanged);
    assert_eq!(result, Ok(StepResult::Terminated));
    assert_eq!(state.cells[4], 10);
    assert_eq!(state.cells[5], 1);
    assert_eq!(state.cells[6], 20);
    assert_eq!(state.data_pointer, 5);
}

#[test]
fn ready_needs_both_pointers_in_range() {
    let program = [BrainfuckInstruction::IncrCell];
    let mut state = Tape::default();
    assert!(is_ready(&state, &program));
    assert!(!is_ready(&state, &[]));
    state.instruction_pointer = 1;
    assert!(!is_ready(&state, &program));
    state.instruction_pointer = 0;
    state.data_pointer = 30_000;
    assert!(!is_ready(&state, &program));
    state.data_pointer = 29_999;
    assert!(is_ready(&state, &program));
}

#[test]
fn ready_needs_a_successor_for_a_jump_that_is_taken() {
    let left = [BrainfuckInstruction::LeftBracket { matching_pos: usize::MAX }];
    let right = [BrainfuckInstruction::RightBracket { matching_pos: usize::MAX }];
    let mut state = Tape::default();
    assert!(!is_ready(&state, &left));
    assert!(is_ready(&state, &right));
    state.cells[0] = 1;
    assert!(is_ready(&state, &left));
    assert!(!is_ready(&state, &right));
    let near = [BrainfuckInstruction::RightBracket { matching_pos: usize::MAX - 1 }];
    assert!(is_ready(&state, &near));
}

#[test]
fn a_failed_step_can_be_seen_to_have_changed_nothing() {
    let mut state = Tape::default();
    state.cells[3] = 9;
    state.data_pointer = 29_999;
    state.instruction_pointer = 1;
    let program = [BrainfuckInstruction::IncrCell, BrainfuckInstruction::IncrPtr];
    let result: Result<StepResult, StepError<String>> =
        brainfuck_step(&mut state, &program, never_read, never_write, EOFBehaviour::Unchanged);
    assert_eq!(result, Err(StepError::PointerOverflow));
    assert_eq!(state.instruction_pointer, 1);
    assert_eq!(state.data_pointer, 29_999);
    assert_eq!(state.cells[3], 9);
}
