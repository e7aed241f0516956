use brainfuck_interpreter::parser::ParseError;
use brainfuck_interpreter::source::{parse_source, SourceError};
use brainfuck_interpreter::{BrainfuckInstruction, DocumentSpan};

fn spot(row: usize, column: usize) -> DocumentSpan {
    DocumentSpan { column, row }
}

#[test]
fn source_on_one_line_counts_columns_from_one() {
    let program = parse_source(b"+ -").unwrap();
    assert_eq!(program.instructions, vec![BrainfuckInstruction::IncrCell, BrainfuckInstruction::DecrCell]);
    assert_eq!(program.spans, vec![spot(1, 1), spot(1, 3)]);
}

#[test]
fn newline_moves_to_next_row_and_first_column() {
    let program = parse_source(b"+\n-\n\n  .").unwrap();
    assert_eq!(
        program.instructions,
        vec![BrainfuckInstruction::IncrCell, BrainfuckInstruction::DecrCell, BrainfuckInstruction::Output]
    );
    assert_eq!(program.spans, vec![spot(1, 1), spot(2, 1), spot(4, 3)]);
}

#[test]
fn source_starting_with_newline() {
    let program = parse_source(b"\n+").unwrap();
    assert_eq!(program.spans, vec![spot(2, 1)]);
}

#[test]
fn whole_source_matches_byte_by_byte_parsing() {
    let program = parse_source(b"+[-]").unwrap();
    assert_eq!(
        program.instructions,
        vec![
            BrainfuckInstruction::IncrCell,
            BrainfuckInstruction::LeftBracket { matching_pos: 3 },
            BrainfuckInstruction::DecrCell,
            BrainfuckInstruction::RightBracket { matching_pos: 1 },
        ]
    );
    assert_eq!(program.spans, vec![spot(1, 1), spot(1, 2), spot(1, 3), spot(1, 4)]);
}

#[test]
fn unopened_close_is_reported_with_its_span() {
    let error = parse_source(b"+\n[]\n ]+[").unwrap_err();
    assert_eq!(error, SourceError { kind: ParseError::UnmatchedCloseBracket, span: Some(spot(3, 2)) });
}

#[test]
fn first_unopened_close_wins() {
    let error = parse_source(b"]]").unwrap_err();
    assert_eq!(error, SourceError { kind: ParseError::UnmatchedCloseBracket, span: Some(spot(1, 1)) });
}

#[test]
fn open_left_at_end_is_reported_without_span() {
    let error = parse_source(b"[[]\n").unwrap_err();
    assert_eq!(error, SourceError { kind: ParseError::UnmatchedOpenBracket, span: None });
}

#[test]
fn unopened_close_wins_over_open_left_at_end() {
    let error = parse_source(b"][").unwrap_err();
    assert_eq!(error.kind, ParseError::UnmatchedCloseBracket);
}

#[test]
fn empty_source_parses() {
    let program = parse_source(b"").unwrap();
    assert!(program.instructions.is_empty());
    assert!(program.spans.is_empty());
}

#[test]
fn source_need_not_be_text() {
    let program = parse_source(&[0xff, 0x00, b'+', 0x80, b'.']).unwrap();
    assert_eq!(program.instructions, vec![BrainfuckInstruction::IncrCell, BrainfuckInstruction::Output]);
    assert_eq!(program.spans, vec![spot(1, 3), spot(1, 5)]);
}

#[test]
fn second_line_is_row_two_column_one() {
    let program = parse_source(b"+\n+").unwrap();
    assert_eq!(program.instructions, vec![BrainfuckInstruction::IncrCell, BrainfuckInstruction::IncrCell]);
    assert_eq!(program.spans[0], DocumentSpan { column: 1, row: 1 });
    assert_eq!(program.spans[1], DocumentSpan { column: 1, row: 2 });
}

#[test]
fn column_counts_every_byte_of_the_line() {
    let program = parse_source(b"ab\ncd+").unwrap();
    assert_eq!(program.spans, vec![DocumentSpan { column: 3, row: 2 }]);
}

#[test]
fn other_bytes_leave_no_trace_in_the_program() {
    let noisy: &[u8] = b"read, then\n[ loop - while ]\tnot zero; > . <";
    let bare: Vec<u8> = noisy.iter().copied().filter(|byte| b"+-,.><[]".contains(byte)).collect();
    assert_eq!(bare, b",[-]>.<".to_vec());
    let full = parse_source(noisy).unwrap();
    let stripped = parse_source(&bare).unwrap();
    assert_eq!(full.instructions, stripped.instructions);
    assert_eq!(full.instructions[1], BrainfuckInstruction::LeftBracket { matching_pos: 3 });
}

#[test]
fn other_bytes_leave_no_trace_in_the_error() {
    let noisy: &[u8] = b"a [ b\n c";
    assert_eq!(parse_source(noisy).unwrap_err().kind, ParseError::UnmatchedOpenBracket);
    assert_eq!(parse_source(b"[").unwrap_err().kind, ParseError::UnmatchedOpenBracket);
    let noisy: &[u8] = b"x\n y ] z [";
    assert_eq!(parse_source(noisy).unwrap_err().kind, ParseError::UnmatchedCloseBracket);
    assert_eq!(parse_source(b"][").unwrap_err().kind, ParseError::UnmatchedCloseBracket);
}
