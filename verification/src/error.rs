use vstd::prelude::*;

verus! {

/// The ways a stage or the container can refuse its input.
#[derive(Clone, Copy, Debug, PartialEq, Eq, Structural)]
pub enum CodecError {
    /// A move-to-front index has no position in the alphabet (or the
    /// alphabet has no position that fits a byte).
    AlphabetMismatch,
    /// A metadata value does not fit the digits of its header field.
    FieldOverflow,
    /// The magic marker, the printable envelope or the text inside it is wrong.
    MalformedContainer,
    /// A literal would collide with the two reserved run-length markers.
    AmbiguousToken,
    /// Accumulated bits match no codeword of the table.
    CodeLookupFailure,
    /// A zero-run count is larger than the machine can address.
    RunOverflow,
    /// An instruction program looks for a bracket that is not there, or is
    /// still running when its step budget is spent.
    ProgramFault,
}

} // verus!
