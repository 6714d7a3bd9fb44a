//! Literal tokens: a signed DIMACS variable reference packed into one
//! non-negative integer, `(|v| - 1) * 2 + polarity`, where the polarity bit
//! is set for a negated variable.
use vstd::prelude::*;

verus! {

/// The largest variable count whose literal tokens all fit in an `i32`.
pub const MAX_VARS: i32 = 0x4000_0000;

/// The 0-based variable index that a literal token refers to.
pub open spec fn var_of(lit: int) -> int {
    lit / 2
}

/// Whether a literal token stands for the positive polarity of its variable.
pub open spec fn positive(lit: int) -> bool {
    lit % 2 == 0
}

/// The complementary literal: the same variable with the other polarity.
pub open spec fn negation(lit: int) -> int {
    if lit % 2 == 0 {
        lit + 1
    } else {
        lit - 1
    }
}

/// A token that names one of the variables `1..=nvar`.
pub open spec fn lit_in_range(lit: int, nvar: int) -> bool {
    0 <= lit < 2 * nvar
}

/// A signed DIMACS reference that names one of the variables `1..=nvar`.
pub open spec fn signed_in_range(v: int, nvar: int) -> bool {
    v != 0 && -nvar <= v <= nvar
}

/// The token of a signed DIMACS variable reference.
pub open spec fn encoding(v: int) -> int {
    if v > 0 {
        (v - 1) * 2
    } else {
        (-v - 1) * 2 + 1
    }
}

/// The signed DIMACS variable reference of a token.
pub open spec fn decoding(lit: int) -> int {
    if lit % 2 == 0 {
        lit / 2 + 1
    } else {
        -(lit / 2 + 1)
    }
}

/// Encodes a signed variable reference (`3` or `-3`) into its token.
pub fn encode(v: i32) -> (lit: i32)
    requires
        signed_in_range(v as int, MAX_VARS as int),
    ensures
        lit == encoding(v as int),
        lit_in_range(lit as int, MAX_VARS as int),
{
    if v > 0 {
        (v - 1) * 2
    } else {
        (-v - 1) * 2 + 1
    }
}

/// Decodes a token back into its signed variable reference.
pub fn decode(lit: i32) -> (v: i32)
    requires
        0 <= lit,
    ensures
        v == decoding(lit as int),
{
    if lit % 2 == 0 {
        lit / 2 + 1
    } else {
        -(lit / 2 + 1)
    }
}

/// The complementary literal, `lit XOR 1`.
pub fn negate(lit: i32) -> (r: i32)
    requires
        0 <= lit,
    ensures
        r == negation(lit as int),
{
    assert(lit ^ 1i32 == if lit & 1i32 == 0 { lit + 1 } else { lit - 1 }) by (bit_vector)
        requires
            0 <= lit,
    ;
    assert(lit & 1i32 == lit % 2) by (bit_vector)
        requires
            0 <= lit,
    ;
    lit ^ 1
}

/// The 0-based variable index of a token.
pub fn variable(lit: i32) -> (v: usize)
    requires
        0 <= lit,
    ensures
        v == var_of(lit as int),
{
    (lit / 2) as usize
}

/// Whether a token is the positive polarity of its variable.
pub fn is_positive(lit: i32) -> (b: bool)
    requires
        0 <= lit,
    ensures
        b == positive(lit as int),
{
    lit % 2 == 0
}

/// Decoding an encoded reference gives it back, for every variable of a
/// formula over `nvar` variables and both polarities; the token lies in the
/// formula's range.
pub proof fn lemma_literal_round_trip(v: int, nvar: int)
    requires
        signed_in_range(v, nvar),
    ensures
        decoding(encoding(v)) == v,
        lit_in_range(encoding(v), nvar),
{
}

} // verus!
