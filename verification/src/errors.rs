//! Error taxonomy for alphabet validation and conversion.
use vstd::prelude::*;

verus! {

/// Which of the two caller-supplied alphabets a table error refers to.
#[derive(Clone, Copy, Debug, PartialEq, Eq, Structural)]
pub enum TableKind {
    Source,
    Destination,
}

/// Which validation rule a table broke.
#[derive(Clone, Copy, Debug, PartialEq, Eq, Structural)]
pub enum TableRule {
    /// The table holds no characters at all.
    Empty,
    /// The table holds the same character at two positions.
    Duplicate,
}

/// Every failure the library reports.
///
/// A conversion either fully succeeds or reports exactly one of these,
/// describing the first violation met while scanning left to right.
#[derive(Clone, Copy, Debug, PartialEq, Eq, Structural)]
pub enum ConvertError {
    /// A supplied alphabet is empty or contains a repeated character.
    InvalidTable { table: TableKind, rule: TableRule },
    /// An input character has no entry in the source alphabet.
    InvalidDigit { ch: char, pos: usize },
    /// A divisor of zero reached the arbitrary-precision division.
    /// Defensive only: construction rejects empty destination tables.
    DivisionByZero,
    /// A non-zero value cannot be written over a one-character alphabet:
    /// every string over such an alphabet denotes zero.
    NotRepresentable,
}

} // verus!
