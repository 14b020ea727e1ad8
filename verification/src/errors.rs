//! Typed errors of the evaluator and of the record codec. Every failure is
//! detected at the point it occurs and propagated upward; none is retried.
use vstd::prelude::*;

verus! {

/// An operand had the wrong variant, or could not be used by the operation
/// that resolved it.
#[derive(Clone, Copy, PartialEq, Eq, Structural, Debug)]
pub enum ValueError {
    /// An array was expected.
    ExpectedArray,
    /// An integer was expected.
    ExpectedInteger,
    /// The declared slice length must be a compile-time constant.
    NonConstantLength,
    /// Two integers of differing widths cannot be related by a constraint.
    WidthMismatch,
    /// A conditional select was asked to fold two values of differing shapes.
    ShapeMismatch,
}

/// An array access could not be constructed.
#[derive(Clone, Copy, PartialEq, Eq, Structural, Debug)]
pub enum ArrayError {
    /// The bounds of a slice disagree with its declared length.
    InvalidSliceLength,
    /// A constant bound reaches past the end of the array.
    IndexOutOfBounds { index: u64, length: u64 },
    /// The array is longer than the index width can address.
    LengthOutOfBounds,
}

/// A failure while evaluating an instruction; fatal to circuit construction.
#[derive(Clone, Copy, PartialEq, Eq, Structural, Debug)]
pub enum EvalError {
    Value(ValueError),
    Array(ArrayError),
    /// An operand referenced a register that holds no value.
    UnsetRegister(usize),
}

/// A failure of a record codec step, naming the field that failed.
#[derive(Clone, Copy, PartialEq, Eq, Structural, Debug)]
pub enum TransactionError {
    /// The input ended before the named field was complete.
    UnexpectedEnd(RecordField),
}

/// The fields of a serialized record, in wire order.
#[derive(Clone, Copy, PartialEq, Eq, Structural, Debug)]
pub enum RecordField {
    SerialNumber,
    Commitment,
    Memorandum,
    LedgerDigest,
    InnerCircuitId,
    Proof,
    ProgramCommitment,
    LocalDataRoot,
    ValueBalance,
    Network,
    Signature,
    EncryptedRecord,
}

/// A failure of a collision-resistant hash capability.
#[derive(Clone, Copy, PartialEq, Eq, Structural, Debug)]
pub enum CRHError {
    /// The input does not have the size the instance was set up for.
    MalformedInput,
}

/// A failure of a pseudorandom-function capability.
#[derive(Clone, Copy, PartialEq, Eq, Structural, Debug)]
pub enum PRFError {
    /// The seed does not have the expected size.
    MalformedSeed,
    /// The input does not have the expected size.
    MalformedInput,
}

} // verus!
