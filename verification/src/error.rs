use vstd::prelude::*;

verus! {

/// Every way an encode or decode call can fail.
#[derive(Debug, Clone, PartialEq)]
pub enum FluxPackError {
    UnsupportedVersion(u8),
    UnknownToken(u16),
    TableOverflow,
    DuplicateDef(u16),
    InvalidUtf8,
    MalformedFrame,
    InvalidValueType(u8),
    UnknownStruct(u16),
    BufferOverrun,
    VarintOverflow,
    ExpectedObject,
    InternalError,
    ColumnarError(String),
    UnsupportedTensorDtype(u8),
    TensorShapeMismatch { expected: usize, got: usize },
    IncompleteStream { expected: usize },
    SchemaMismatch(String),
}

} // verus!
