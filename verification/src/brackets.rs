//! What it means for the brackets of an instruction sequence to pair up.

use vstd::prelude::*;

use crate::BrainfuckInstruction;

verus! {

/// The jump target that a bracket carries.
pub open spec fn target(instruction: BrainfuckInstruction) -> int {
    match instruction {
        BrainfuckInstruction::LeftBracket { matching_pos } => matching_pos as int,
        BrainfuckInstruction::RightBracket { matching_pos } => matching_pos as int,
        _ => 0,
    }
}

/// `left` holds a left bracket, `right`, further on, a right bracket, and
/// each carries the other's index.
pub open spec fn paired(code: Seq<BrainfuckInstruction>, left: int, right: int) -> bool {
    &&& 0 <= left < right < code.len()
    &&& code[left] is LeftBracket
    &&& code[right] is RightBracket
    &&& target(code[left]) == right
    &&& target(code[right]) == left
}

/// Every left bracket is paired with the right bracket that it names.
pub open spec fn lefts_paired(code: Seq<BrainfuckInstruction>) -> bool {
    forall|i: int|
        0 <= i < code.len() && (#[trigger] code[i]) is LeftBracket ==> paired(code, i, target(code[i]))
}

/// Every right bracket is paired with the left bracket that it names.
pub open spec fn rights_paired(code: Seq<BrainfuckInstruction>) -> bool {
    forall|i: int|
        0 <= i < code.len() && (#[trigger] code[i]) is RightBracket ==> paired(code, target(code[i]), i)
}

/// No two pairs cross: a pair that opens inside another closes inside it.
pub open spec fn nested(code: Seq<BrainfuckInstruction>) -> bool {
    forall|a: int, b: int, c: int, d: int|
        #![trigger paired(code, a, b), paired(code, c, d)]
        paired(code, a, b) && paired(code, c, d) && a < c < b ==> d < b
}

/// All brackets are paired, each pair symmetric, and the pairs nest.
pub open spec fn well_bracketed(code: Seq<BrainfuckInstruction>) -> bool {
    &&& lefts_paired(code)
    &&& rights_paired(code)
    &&& nested(code)
}

/// Pairing is an involution: following a bracket's target and then the
/// target found there leads back to the bracket, which sits on the other
/// side of its partner.
pub proof fn law_pairing_is_involution(code: Seq<BrainfuckInstruction>, i: int)
    requires
        well_bracketed(code),
        0 <= i < code.len(),
        code[i] is LeftBracket || code[i] is RightBracket,
    ensures
        0 <= target(code[i]) < code.len(),
        target(code[target(code[i])]) == i,
        code[i] is LeftBracket ==> code[target(code[i])] is RightBracket && i < target(code[i]),
        code[i] is RightBracket ==> code[target(code[i])] is LeftBracket && target(code[i]) < i,
{
}

} // verus!
