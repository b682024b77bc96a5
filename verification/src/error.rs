use vstd::prelude::*;

verus! {

/// Why a Euclidean construct was refused.
#[derive(Debug, PartialEq, Eq, Clone, Copy, Structural)]
pub enum EuclideanError {
    /// More pulses than steps.
    NGreaterThanM,
    /// The rotation is not strictly less than the number of steps.
    RGreaterEqualThanM,
}

/// Why a text was refused.
#[derive(Debug, PartialEq, Eq, Clone, Copy, Structural)]
pub enum ParsingError {
    /// The text does not match the grammar.
    Generic,
    /// The text matches the grammar, but a Euclidean construct in it is
    /// not valid.
    EuclideanError(EuclideanError),
}

/// Everything that can go wrong while compiling a pattern.
#[derive(Debug, PartialEq, Eq, Clone, Copy, Structural)]
pub enum Error {
    /// A number in the text does not fit the type it is read into.
    EventParsingError,
    /// The text was refused.
    DSLParsingError(ParsingError),
    /// A value left the range in which the compiler can work: a cycle that
    /// is empty, a tick index or a count beyond 32 bits, or a Euclidean
    /// rhythm without pulses.
    UnexpectedError,
}

} // verus!
