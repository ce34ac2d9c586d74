use vstd::prelude::*;

verus! {

/// The recoverable failures of the steganographic core.
#[derive(Clone, Copy, Debug, PartialEq, Eq, Structural)]
pub enum StegoError {
    /// The coordinate generator has emitted every coordinate of the grid;
    /// no further bit can be read or written in this session.
    CapacityExhausted,
    /// A requested write (header plus payload) does not fit in the bits
    /// that are still addressable; the carrier is left unmodified.
    InsufficientCapacity,
    /// The next bytes of the stream do not form a `{{length}}` header:
    /// either the two opening characters are wrong, or capacity ran out
    /// before the closing braces.  Signals "no further record", not a crash.
    NoRecord,
    /// The captured field between the braces is not a decimal number that
    /// fits the length type.
    MalformedLength,
}

} // verus!
