//! Whole source texts: where each byte sits, and the program that a text
//! denotes.

use vstd::prelude::*;

use crate::brackets::{paired, target};
use crate::parser::{
    closes, is_command, law_consume_keeps_wf, law_empty_is_wf, law_finish_is_wf, opens, plain_instruction, ParseError,
    ParserView, ProgramParser, CLOSE, COMMA, DOT, GREATER, LESS, MINUS, OPEN, PLUS,
};
use crate::{BrainfuckInstruction, BrainfuckProgram, DocumentSpan, Listing};

verus! {

/// The byte that ends a line.
pub const NEWLINE: u8 = 0x0a;

/// How many of the first `end` bytes of `source` end a line.
pub open spec fn newlines_before(source: Seq<u8>, end: int) -> nat
    decreases end,
{
    if end <= 0 {
        0
    } else if source[end - 1] == NEWLINE {
        newlines_before(source, end - 1) + 1
    } else {
        newlines_before(source, end - 1)
    }
}

/// The index at which the line that holds byte `index` begins.
pub open spec fn line_start(source: Seq<u8>, index: int) -> int
    decreases index,
{
    if index <= 0 {
        0
    } else if source[index - 1] == NEWLINE {
        index
    } else {
        line_start(source, index - 1)
    }
}

/// Where byte `index` of `source` sits: `row` is one more than the number
/// of line ends before it, `column` its place in its line, the first being
/// 1.
pub open spec fn span_at(source: Seq<u8>, index: int) -> DocumentSpan {
    DocumentSpan {
        column: (index - line_start(source, index) + 1) as usize,
        row: (newlines_before(source, index) + 1) as usize,
    }
}

/// Why a source text is not a program, and for a `]` that nothing opened,
/// where it sits.
#[derive(Debug, Clone, Copy, PartialEq, Eq)]
pub struct SourceError {
    pub kind: ParseError,
    pub span: Option<DocumentSpan>,
}

/// The parser after the first `n` bytes of `source`, each consumed with its
/// own span, or the first error on the way.
pub open spec fn parsed_prefix(source: Seq<u8>, n: nat) -> Result<ParserView, SourceError>
    decreases n,
{
    if n == 0 {
        Ok(ParserView::empty())
    } else {
        match parsed_prefix(source, (n - 1) as nat) {
            Err(error) => Err(error),
            Ok(parser) => match parser.consume(source[n - 1], span_at(source, n - 1)) {
                Ok(next) => Ok(next),
                Err(kind) => Err(SourceError { kind, span: Some(span_at(source, n - 1)) }),
            },
        }
    }
}

/// The program that `source` denotes, or why it denotes none.
pub open spec fn parsed(source: Seq<u8>) -> Result<Listing, SourceError> {
    match parsed_prefix(source, source.len()) {
        Err(error) => Err(error),
        Ok(parser) => match parser.finish() {
            Ok(listing) => Ok(listing),
            Err(kind) => Err(SourceError { kind, span: None }),
        },
    }
}

/// How many more `[` than `]` there are among the first `end` bytes of
/// `source`.
pub open spec fn depth(source: Seq<u8>, end: int) -> int
    decreases end,
{
    if end <= 0 {
        0
    } else if opens(source[end - 1]) {
        depth(source, end - 1) + 1
    } else if closes(source[end - 1]) {
        depth(source, end - 1) - 1
    } else {
        depth(source, end - 1)
    }
}

/// Up to `end`, no prefix of `source` closes more brackets than it opens.
pub open spec fn never_negative(source: Seq<u8>, end: int) -> bool {
    forall|k: int| 0 <= k <= end ==> depth(source, k) >= 0
}

/// Byte `index` of `source` is the first `]` that nothing opened.
pub open spec fn first_unopened(source: Seq<u8>, index: int) -> bool {
    &&& 0 <= index < source.len()
    &&& never_negative(source, index)
    &&& depth(source, index + 1) < 0
}

/// How many of the first `end` bytes of `source` are commands.
pub open spec fn commands_before(source: Seq<u8>, end: int) -> nat
    decreases end,
{
    if end <= 0 {
        0
    } else if is_command(source[end - 1]) {
        commands_before(source, end - 1) + 1
    } else {
        commands_before(source, end - 1)
    }
}

/// The source byte that an instruction is written as.
pub open spec fn symbol(instruction: BrainfuckInstruction) -> u8 {
    match instruction {
        BrainfuckInstruction::IncrCell => PLUS,
        BrainfuckInstruction::DecrCell => MINUS,
        BrainfuckInstruction::Input => COMMA,
        BrainfuckInstruction::Output => DOT,
        BrainfuckInstruction::IncrPtr => GREATER,
        BrainfuckInstruction::DecrPtr => LESS,
        BrainfuckInstruction::LeftBracket { .. } => OPEN,
        BrainfuckInstruction::RightBracket { .. } => CLOSE,
    }
}

/// `instructions` and `spans` hold, in source order, exactly the commands
/// among the first `end` bytes of `source`, each with the span of its byte.
pub open spec fn follows_commands(
    instructions: Seq<BrainfuckInstruction>,
    spans: Seq<DocumentSpan>,
    source: Seq<u8>,
    end: int,
) -> bool {
    &&& instructions.len() == commands_before(source, end)
    &&& spans.len() == instructions.len()
    &&& forall|j: int|
        0 <= j < end && is_command(#[trigger] source[j]) ==> {
            let k = commands_before(source, j) as int;
            &&& k < instructions.len()
            &&& symbol(instructions[k]) == source[j]
            &&& spans[k] == span_at(source, j)
        }
}

/// What tells a command from any other byte.
pub open spec fn command_bytes() -> spec_fn(u8) -> bool {
    |byte: u8| is_command(byte)
}

/// The command bytes of `source`, in order, with all else removed.
pub open spec fn commands(source: Seq<u8>) -> Seq<u8> {
    source.filter(command_bytes())
}

/// Neither coordinate of a byte's span exceeds the number of bytes up to
/// and including it.
proof fn lemma_span_bounds(source: Seq<u8>, index: int)
    requires
        0 <= index,
    ensures
        newlines_before(source, index) <= index,
        0 <= line_start(source, index) <= index,
    decreases index,
{
    if index > 0 {
        lemma_span_bounds(source, index - 1);
    }
}

/// Parses a whole source text.
///
/// Bytes that are not commands are skipped. The first `]` that nothing
/// opened is reported with its span; a `[` left open at the end is reported
/// without one.
pub fn parse_source(source: &[u8]) -> (result: Result<BrainfuckProgram, SourceError>)
    ensures
        match result {
            Ok(program) => parsed(source@) == Ok::<Listing, SourceError>(program@) && program@.wf(),
            Err(error) => parsed(source@) == Err::<Listing, SourceError>(error),
        },
        result matches Ok(program) ==> program.instructions@.len() == program.spans@.len(),
{
    let mut parser = ProgramParser::default();
    let mut newline_count: usize = 0;
    let mut start: usize = 0;
    let mut i: usize = 0;
    while i < source.len()
        invariant
            i <= source.len(),
            parsed_prefix(source@, i as nat) == Ok::<ParserView, SourceError>(parser@),
            newline_count == newlines_before(source@, i as int),
            start == line_start(source@, i as int),
        decreases source.len() - i,
    {
        proof {
            lemma_span_bounds(source@, i as int);
        }
        let byte = source[i];
        let span = DocumentSpan { column: i - start + 1, row: newline_count + 1 };
        assert(span == span_at(source@, i as int));
        match parser.input_byte(byte, span) {
            Ok(next) => {
                parser = next;
            },
            Err(kind) => {
                proof {
                    law_errors_persist(source@, (i + 1) as nat, source@.len());
                }
                return Err(SourceError { kind, span: Some(span) });
            },
        }
        if byte == NEWLINE {
            newline_count = newline_count + 1;
            start = i + 1;
        }
        i = i + 1;
    }
    match parser.finalize() {
        Ok(program) => Ok(program),
        Err(kind) => Err(SourceError { kind, span: None }),
    }
}

/// Once a prefix has failed, every longer prefix fails in the same way.
pub proof fn law_errors_persist(source: Seq<u8>, n: nat, m: nat)
    requires
        n <= m,
        parsed_prefix(source, n) is Err,
    ensures
        parsed_prefix(source, m) == parsed_prefix(source, n),
    decreases m,
{
    if n < m {
        law_errors_persist(source, n, (m - 1) as nat);
    }
}

/// There are no more commands among the first `end` bytes than bytes.
proof fn lemma_commands_bound(source: Seq<u8>, end: int)
    requires
        0 <= end,
    ensures
        commands_before(source, end) <= end,
    decreases end,
{
    if end > 0 {
        lemma_commands_bound(source, end - 1);
    }
}

/// What holds of the parser after every prefix, and of the first error.
proof fn lemma_prefix(source: Seq<u8>, n: nat)
    requires
        n <= source.len() <= usize::MAX,
    ensures
        match parsed_prefix(source, n) {
            Ok(parser) => {
                &&& parser.wf()
                &&& never_negative(source, n as int)
                &&& parser.pending.len() == depth(source, n as int)
                &&& follows_commands(parser.instructions, parser.spans, source, n as int)
            },
            Err(error) => exists|k: int|
                {
                    &&& k < n
                    &&& #[trigger] first_unopened(source, k)
                    &&& error == SourceError {
                        kind: ParseError::UnmatchedCloseBracket,
                        span: Some(span_at(source, k)),
                    }
                },
        },
    decreases n,
{
    if n == 0 {
        law_empty_is_wf();
    } else {
        let last = (n - 1) as int;
        lemma_prefix(source, last as nat);
        match parsed_prefix(source, last as nat) {
            Err(error) => {
                let k = choose|k: int|
                    {
                        &&& k < last
                        &&& #[trigger] first_unopened(source, k)
                        &&& error == SourceError {
                            kind: ParseError::UnmatchedCloseBracket,
                            span: Some(span_at(source, k)),
                        }
                    };
                assert(k < n && first_unopened(source, k));
            },
            Ok(parser) => {
                let byte = source[last];
                let span = span_at(source, last);
                lemma_commands_bound(source, last);
                law_consume_keeps_wf(parser, byte, span);
                match parser.consume(byte, span) {
                    Err(kind) => {
                        assert(first_unopened(source, last));
                    },
                    Ok(next) => {
                        assert(never_negative(source, n as int)) by {
                            assert forall|k: int| 0 <= k <= n implies depth(source, k) >= 0 by {
                                if k < n {
                                    assert(depth(source, k) >= 0);
                                }
                            }
                        }
                        assert forall|j: int| 0 <= j < n && is_command(#[trigger] source[j]) implies {
                            let k = commands_before(source, j) as int;
                            &&& k < next.instructions.len()
                            &&& symbol(next.instructions[k]) == source[j]
                            &&& next.spans[k] == span_at(source, j)
                        } by {
                            let k = commands_before(source, j) as int;
                            if j < last {
                                assert(symbol(parser.instructions[k]) == source[j]);
                                assert(parser.spans[k] == span_at(source, j));
                                if closes(byte) {
                                    let left = parser.pending.last() as int;
                                    assert(parser.pending[parser.pending.len() - 1] == left);
                                    assert(symbol(parser.instructions[left]) == OPEN);
                                }
                            }
                        }
                    },
                }
            },
        }
    }
}

/// Whatever a source text denotes is a well-formed program.
pub proof fn law_parsed_is_wf(source: Seq<u8>)
    requires
        source.len() <= usize::MAX,
    ensures
        parsed(source) matches Ok(listing) ==> listing.wf(),
{
    lemma_prefix(source, source.len());
    if let Ok(parser) = parsed_prefix(source, source.len()) {
        law_finish_is_wf(parser);
    }
}

/// A source text denotes a program exactly when its brackets balance: no
/// prefix closes more than it opens, and the whole text closes all that it
/// opens.
pub proof fn law_parsed_iff_balanced(source: Seq<u8>)
    requires
        source.len() <= usize::MAX,
    ensures
        parsed(source) is Ok <==> never_negative(source, source.len() as int) && depth(
            source,
            source.len() as int,
        ) == 0,
{
    lemma_prefix(source, source.len());
    if let Err(error) = parsed_prefix(source, source.len()) {
        let k = choose|k: int| k < source.len() && #[trigger] first_unopened(source, k);
        assert(depth(source, k + 1) < 0);
    }
}

/// The one error with a span is the first `]` that nothing opened, and it
/// comes exactly when some prefix closes more than it opens.
pub proof fn law_unmatched_close(source: Seq<u8>)
    requires
        source.len() <= usize::MAX,
    ensures
        !never_negative(source, source.len() as int) <==> (parsed(source) matches Err(error)
            && error.kind == ParseError::UnmatchedCloseBracket),
        match parsed(source) {
            Err(error) => error.kind == ParseError::UnmatchedCloseBracket ==> exists|k: int| #[trigger]
                first_unopened(source, k) && error.span == Some(span_at(source, k)),
            Ok(_) => true,
        },
{
    lemma_prefix(source, source.len());
    if let Err(error) = parsed_prefix(source, source.len()) {
        let k = choose|k: int|
            {
                &&& k < source.len()
                &&& #[trigger] first_unopened(source, k)
                &&& error == SourceError {
                    kind: ParseError::UnmatchedCloseBracket,
                    span: Some(span_at(source, k)),
                }
            };
        assert(depth(source, k + 1) < 0);
        assert(first_unopened(source, k) && error.span == Some(span_at(source, k)));
    }
}

/// A `[` left open is reported, without a span, exactly when no prefix
/// closes more than it opens and the whole text opens more than it closes.
pub proof fn law_unmatched_open(source: Seq<u8>)
    requires
        source.len() <= usize::MAX,
    ensures
        never_negative(source, source.len() as int) && depth(source, source.len() as int) > 0 <==> parsed(source)
            == Err::<Listing, SourceError>(
            SourceError { kind: ParseError::UnmatchedOpenBracket, span: None },
        ),
{
    lemma_prefix(source, source.len());
    if let Err(error) = parsed_prefix(source, source.len()) {
        let k = choose|k: int| k < source.len() && #[trigger] first_unopened(source, k);
        assert(depth(source, k + 1) < 0);
    }
}

/// The program that a source text denotes holds its commands and nothing
/// else: one instruction for each command byte, in source order, written as
/// that byte and tagged with its span.
pub proof fn law_parsed_follows_commands(source: Seq<u8>)
    requires
        source.len() <= usize::MAX,
    ensures
        parsed(source) matches Ok(listing) ==> follows_commands(
            listing.instructions,
            listing.spans,
            source,
            source.len() as int,
        ),
{
    lemma_prefix(source, source.len());
}

/// The count of commands never goes down along the source.
proof fn lemma_commands_monotone(source: Seq<u8>, lower: int, upper: int)
    requires
        lower <= upper,
    ensures
        commands_before(source, lower) <= commands_before(source, upper),
    decreases upper - lower,
{
    if lower < upper {
        lemma_commands_monotone(source, lower, upper - 1);
    }
}

/// With the first `built` instructions of `code` in place, the left bracket
/// at `k` still waits for its partner.
spec fn awaiting(code: Seq<BrainfuckInstruction>, built: int, k: int) -> bool {
    code[k] is LeftBracket && target(code[k]) >= built
}

/// `parser` holds the first `built` instructions of `listing`, but for the
/// left brackets that still wait for their partner: those hold the
/// placeholder and are exactly the ones pending.
spec fn tracks(parser: ParserView, listing: Listing, built: int) -> bool {
    &&& parser.instructions.len() == built
    &&& built <= listing.instructions.len()
    &&& parser.spans == listing.spans.take(built)
    &&& forall|k: int|
        0 <= k < built ==> #[trigger] parser.instructions[k] == if awaiting(listing.instructions, built, k) {
            BrainfuckInstruction::LeftBracket { matching_pos: 0 }
        } else {
            listing.instructions[k]
        }
    &&& forall|k: int|
        0 <= k < built ==> (#[trigger] awaiting(listing.instructions, built, k) <==> parser.pending.contains(
            k as usize,
        ))
    &&& forall|i: int| 0 <= i < parser.pending.len() ==> #[trigger] parser.pending[i] < built
}

/// Parsing a source whose commands a well-formed listing follows never
/// fails on the way, and builds that listing.
proof fn lemma_prefix_tracks(source: Seq<u8>, listing: Listing, n: nat)
    requires
        n <= source.len() <= usize::MAX,
        listing.wf(),
        follows_commands(listing.instructions, listing.spans, source, source.len() as int),
    ensures
        parsed_prefix(source, n) matches Ok(parser) && tracks(
            parser,
            listing,
            commands_before(source, n as int) as int,
        ),
    decreases n,
{
    let code = listing.instructions;
    lemma_commands_monotone(source, n as int, source.len() as int);
    if n == 0 {
        assert(ParserView::empty().spans =~= listing.spans.take(0));
    } else {
        let last = (n - 1) as int;
        lemma_prefix_tracks(source, listing, last as nat);
        lemma_prefix(source, last as nat);
        lemma_commands_bound(source, last);
        let parser = parsed_prefix(source, last as nat)->Ok_0;
        let byte = source[last];
        let span = span_at(source, last);
        let k = commands_before(source, last) as int;
        if is_command(byte) {
            assert(symbol(code[k]) == byte && listing.spans[k] == span);
            if closes(byte) {
                let left = target(code[k]);
                assert(paired(code, left, k));
                assert(awaiting(code, k, left));
                assert(parser.pending.contains(left as usize));
                let at = choose|at: int| 0 <= at < parser.pending.len() && parser.pending[at] == left as usize;
                let top = parser.pending[parser.pending.len() - 1] as int;
                assert(parser.pending.contains(top as usize));
                assert(awaiting(code, k, top));
                assert(paired(code, top, target(code[top])));
                assert(top == left) by {
                    if top != left {
                        assert(parser.pending[at] < parser.pending[parser.pending.len() - 1]);
                        assert(target(code[top]) > k);
                    }
                }
                let next = parser.consume(byte, span)->Ok_0;
                assert(next.spans =~= listing.spans.take(k + 1));
                assert forall|j: int| 0 <= j < k + 1 implies #[trigger] next.instructions[j] == if awaiting(
                    code,
                    k + 1,
                    j,
                ) {
                    BrainfuckInstruction::LeftBracket { matching_pos: 0 }
                } else {
                    code[j]
                } by {
                    if j < k && j != left {
                        assert(next.instructions[j] == parser.instructions[j]);
                        if code[j] is LeftBracket {
                            assert(paired(code, j, target(code[j])));
                        }
                    }
                }
                assert forall|j: int| 0 <= j < k + 1 implies (#[trigger] awaiting(code, k + 1, j)
                    <==> next.pending.contains(j as usize)) by {
                    if j < k && j != left {
                        if code[j] is LeftBracket {
                            assert(paired(code, j, target(code[j])));
                        }
                        if awaiting(code, k, j) {
                            let i = choose|i: int| 0 <= i < parser.pending.len() && parser.pending[i] == j as usize;
                            assert(next.pending[i] == j as usize);
                        }
                        if next.pending.contains(j as usize) {
                            let i = choose|i: int| 0 <= i < next.pending.len() && next.pending[i] == j as usize;
                            assert(parser.pending[i] == j as usize);
                        }
                    } else if j == left {
                        if next.pending.contains(j as usize) {
                            let i = choose|i: int| 0 <= i < next.pending.len() && next.pending[i] == j as usize;
                            assert(parser.pending[i] < parser.pending[parser.pending.len() - 1]);
                        }
                    } else {
                        if next.pending.contains(j as usize) {
                            let i = choose|i: int| 0 <= i < next.pending.len() && next.pending[i] == j as usize;
                            assert(parser.pending[i] == j as usize);
                        }
                    }
                }
                assert forall|i: int| 0 <= i < next.pending.len() implies #[trigger] next.pending[i] < k + 1 by {
                    assert(next.pending[i] == parser.pending[i]);
                }
            } else {
                let next = parser.consume(byte, span)->Ok_0;
                if opens(byte) {
                    assert(paired(code, k, target(code[k])));
                } else {
                    assert(plain_instruction(byte) == Some(code[k]));
                }
                assert(next.spans =~= listing.spans.take(k + 1));
                assert forall|j: int| 0 <= j < k + 1 implies #[trigger] next.instructions[j] == if awaiting(
                    code,
                    k + 1,
                    j,
                ) {
                    BrainfuckInstruction::LeftBracket { matching_pos: 0 }
                } else {
                    code[j]
                } by {
                    if j < k {
                        assert(next.instructions[j] == parser.instructions[j]);
                        if code[j] is LeftBracket {
                            assert(paired(code, j, target(code[j])));
                        }
                    }
                }
                assert forall|j: int| 0 <= j < k + 1 implies (#[trigger] awaiting(code, k + 1, j)
                    <==> next.pending.contains(j as usize)) by {
                    if j < k {
                        if code[j] is LeftBracket {
                            assert(paired(code, j, target(code[j])));
                        }
                        if awaiting(code, k, j) {
                            let i = choose|i: int| 0 <= i < parser.pending.len() && parser.pending[i] == j as usize;
                            assert(next.pending[i] == j as usize);
                        }
                        if next.pending.contains(j as usize) {
                            let i = choose|i: int| 0 <= i < next.pending.len() && next.pending[i] == j as usize;
                            if i < parser.pending.len() {
                                assert(parser.pending[i] == j as usize);
                            }
                        }
                    } else {
                        if opens(byte) {
                            assert(next.pending[parser.pending.len() as int] == k as usize);
                        } else {
                            if next.pending.contains(j as usize) {
                                let i = choose|i: int| 0 <= i < next.pending.len() && next.pending[i] == j as usize;
                                assert(parser.pending[i] < k);
                            }
                        }
                    }
                }
                assert forall|i: int| 0 <= i < next.pending.len() implies #[trigger] next.pending[i] < k + 1 by {
                    if i < parser.pending.len() {
                        assert(next.pending[i] == parser.pending[i]);
                    }
                }
            }
        }
    }
}

/// A source text has one reading only: a well-formed listing that follows
/// the commands of the source is the program that the source denotes.
pub proof fn law_parsed_is_the_only_reading(source: Seq<u8>, listing: Listing)
    requires
        source.len() <= usize::MAX,
        listing.wf(),
        follows_commands(listing.instructions, listing.spans, source, source.len() as int),
    ensures
        parsed(source) == Ok::<Listing, SourceError>(listing),
{
    lemma_prefix_tracks(source, listing, source.len());
    let parser = parsed_prefix(source, source.len())->Ok_0;
    let code = listing.instructions;
    assert forall|k: int| 0 <= k < code.len() implies !awaiting(code, code.len() as int, k) by {
        if code[k] is LeftBracket {
            assert(paired(code, k, target(code[k])));
        }
    }
    assert(parser.pending.len() == 0) by {
        if parser.pending.len() > 0 {
            let k = parser.pending[0] as int;
            assert(parser.pending.contains(k as usize));
            assert(awaiting(code, code.len() as int, k));
        }
    }
    assert(parser.instructions =~= code);
    assert(parser.spans =~= listing.spans);
}

/// The commands of a prefix are those of the prefix one shorter, and its
/// last byte if that is a command.
proof fn lemma_commands_take(source: Seq<u8>, n: int)
    requires
        0 < n <= source.len(),
    ensures
        commands(source.take(n)) == if is_command(source[n - 1]) {
            commands(source.take(n - 1)).push(source[n - 1])
        } else {
            commands(source.take(n - 1))
        },
{
    assert(source.take(n) =~= source.take(n - 1).push(source[n - 1]));
    source.take(n - 1).lemma_filter_push(source[n - 1], command_bytes());
}

/// A prefix has as many commands as `commands_before` counts, and they
/// open the commands of the whole source.
proof fn lemma_commands_of_prefix(source: Seq<u8>, n: int)
    requires
        0 <= n <= source.len(),
    ensures
        commands(source.take(n)).len() == commands_before(source, n),
        commands_before(source, n) <= commands(source).len(),
        commands(source).take(commands_before(source, n) as int) == commands(source.take(n)),
    decreases n,
{
    if n > 0 {
        lemma_commands_of_prefix(source, n - 1);
        lemma_commands_take(source, n);
    } else {
        reveal(Seq::filter);
        assert(source.take(0).len() == 0);
    }
    assert(source =~= source.take(n) + source.skip(n));
    Seq::filter_distributes_over_add(source.take(n), source.skip(n), command_bytes());
    assert(commands(source).take(commands_before(source, n) as int) =~= commands(source.take(n)));
}

/// Feeding the parser a source and feeding it the commands of that source
/// alone build the same instructions, or end in the same kind of error.
proof fn lemma_commands_alone(source: Seq<u8>, n: nat)
    requires
        n <= source.len(),
    ensures
        match (parsed_prefix(source, n), parsed_prefix(commands(source), commands_before(source, n as int))) {
            (Ok(full), Ok(bare)) => full.instructions == bare.instructions && full.pending == bare.pending,
            (Err(full), Err(bare)) => full.kind == bare.kind,
            _ => false,
        },
    decreases n,
{
    if n > 0 {
        let last = (n - 1) as int;
        lemma_commands_alone(source, last as nat);
        if is_command(source[last]) {
            lemma_commands_of_prefix(source, last);
            lemma_commands_of_prefix(source, n as int);
            lemma_commands_take(source, n as int);
            let k = commands_before(source, last) as int;
            assert(commands(source)[k] == commands(source).take(k + 1)[k]);
            assert(commands(source)[k] == source[last]);
        }
    }
}

/// Bytes that are not commands leave no trace: a source and the same source
/// without them denote programs with the same instructions, or fail with
/// the same kind of error.
pub proof fn law_other_bytes_leave_no_trace(source: Seq<u8>)
    ensures
        match (parsed(source), parsed(commands(source))) {
            (Ok(full), Ok(bare)) => full.instructions == bare.instructions,
            (Err(full), Err(bare)) => full.kind == bare.kind,
            _ => false,
        },
{
    lemma_commands_alone(source, source.len());
    lemma_commands_of_prefix(source, source.len() as int);
    assert(source.take(source.len() as int) =~= source);
}

} // verus!
