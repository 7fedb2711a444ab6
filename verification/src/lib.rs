//! FluxPack: a schema-free binary serialisation format for ML pipelines.
//!
//! The first message of a session registers field names in DEF frames; later
//! messages refer to them by token in DATA frames.
pub mod error;
pub mod varint;
pub mod json;
pub mod outside;
pub mod symbol_table;
pub mod wire;
pub mod decoder;
pub mod encoder;
pub mod roundtrip;
pub mod float_bits;
pub mod tensor;
pub mod ml;
pub mod hyperparams;
pub mod delta;
pub mod columnar;
pub mod columnar_laws;
pub mod text;
pub mod inline;
pub mod fast_decoder;
pub mod fast_decoder_laws;
pub mod zero_copy;
pub mod zero_copy_laws;
pub mod stream;
pub mod stream_laws;
pub mod compress;
pub mod parallel;
pub mod batch_laws;

use vstd::prelude::*;

verus! {

/// Magic bytes that identify a FluxPack stream: F X P 0x01.
pub const MAGIC: [u8; 4] = [0x46u8, 0x58u8, 0x50u8, 0x01u8];

/// Maximum number of tokens per session (14-bit space).
pub const MAX_TOKENS: u16 = 0x3FFF;

/// Frame types.
#[derive(Debug, Clone, Copy, PartialEq, Eq, Structural)]
pub enum FrameType {
    Def,
    Data,
    Struct,
    Reset,
    Debug,
    Ack,
    Columnar,
    Eos,
}

/// The byte that marks each frame type, and the frame type of a byte.
pub open spec fn frame_type_byte(t: FrameType) -> u8 {
    match t {
        FrameType::Def => 0x01,
        FrameType::Data => 0x02,
        FrameType::Struct => 0x03,
        FrameType::Reset => 0x04,
        FrameType::Debug => 0x05,
        FrameType::Ack => 0x06,
        FrameType::Columnar => 0x0D,
        FrameType::Eos => 0xFF,
    }
}

impl FrameType {
    /// The byte that marks this frame type.
    pub fn tag(self) -> (r: u8)
        ensures
            r == frame_type_byte(self),
    {
        match self {
            FrameType::Def => 0x01,
            FrameType::Data => 0x02,
            FrameType::Struct => 0x03,
            FrameType::Reset => 0x04,
            FrameType::Debug => 0x05,
            FrameType::Ack => 0x06,
            FrameType::Columnar => 0x0D,
            FrameType::Eos => 0xFF,
        }
    }

    /// The frame type a byte marks, if any.
    pub fn from_tag(b: u8) -> (r: Option<FrameType>)
        ensures
            match r {
                Some(t) => frame_type_byte(t) == b,
                None => forall|t: FrameType| frame_type_byte(t) != b,
            },
    {
        if b == 0x01 {
            Some(FrameType::Def)
        } else if b == 0x02 {
            Some(FrameType::Data)
        } else if b == 0x03 {
            Some(FrameType::Struct)
        } else if b == 0x04 {
            Some(FrameType::Reset)
        } else if b == 0x05 {
            Some(FrameType::Debug)
        } else if b == 0x06 {
            Some(FrameType::Ack)
        } else if b == 0x0D {
            Some(FrameType::Columnar)
        } else if b == 0xFF {
            Some(FrameType::Eos)
        } else {
            None
        }
    }
}

/// Value types.
#[derive(Debug, Clone, Copy, PartialEq, Eq, Structural)]
pub enum ValueType {
    Null,
    BoolTrue,
    BoolFalse,
    IntVar,
    UintVar,
    String,
    Float64,
    Float32,
    Bytes,
    Array,
    Object,
    Interned,
    Timestamp,
    Columnar,
    Tensor,
    DeltaNums,
}

/// The byte that tags each value type.
pub open spec fn value_type_byte(t: ValueType) -> u8 {
    match t {
        ValueType::Null => 0x00,
        ValueType::BoolTrue => 0x01,
        ValueType::BoolFalse => 0x02,
        ValueType::IntVar => 0x03,
        ValueType::UintVar => 0x04,
        ValueType::String => 0x05,
        ValueType::Float64 => 0x06,
        ValueType::Float32 => 0x07,
        ValueType::Bytes => 0x08,
        ValueType::Array => 0x09,
        ValueType::Object => 0x0A,
        ValueType::Interned => 0x0B,
        ValueType::Timestamp => 0x0C,
        ValueType::Columnar => 0x0D,
        ValueType::Tensor => 0x10,
        ValueType::DeltaNums => 0x11,
    }
}

impl ValueType {
    /// The byte that tags this value type.
    pub fn tag(self) -> (r: u8)
        ensures
            r == value_type_byte(self),
    {
        match self {
            ValueType::Null => 0x00,
            ValueType::BoolTrue => 0x01,
            ValueType::BoolFalse => 0x02,
            ValueType::IntVar => 0x03,
            ValueType::UintVar => 0x04,
            ValueType::String => 0x05,
            ValueType::Float64 => 0x06,
            ValueType::Float32 => 0x07,
            ValueType::Bytes => 0x08,
            ValueType::Array => 0x09,
            ValueType::Object => 0x0A,
            ValueType::Interned => 0x0B,
            ValueType::Timestamp => 0x0C,
            ValueType::Columnar => 0x0D,
            ValueType::Tensor => 0x10,
            ValueType::DeltaNums => 0x11,
        }
    }

    /// The value type a byte tags, if any.
    pub fn from_tag(b: u8) -> (r: Option<ValueType>)
        ensures
            match r {
                Some(t) => value_type_byte(t) == b,
                None => forall|t: ValueType| value_type_byte(t) != b,
            },
    {
        if b <= 0x0D {
            Some(if b == 0x00 {
                ValueType::Null
            } else if b == 0x01 {
                ValueType::BoolTrue
            } else if b == 0x02 {
                ValueType::BoolFalse
            } else if b == 0x03 {
                ValueType::IntVar
            } else if b == 0x04 {
                ValueType::UintVar
            } else if b == 0x05 {
                ValueType::String
            } else if b == 0x06 {
                ValueType::Float64
            } else if b == 0x07 {
                ValueType::Float32
            } else if b == 0x08 {
                ValueType::Bytes
            } else if b == 0x09 {
                ValueType::Array
            } else if b == 0x0A {
                ValueType::Object
            } else if b == 0x0B {
                ValueType::Interned
            } else if b == 0x0C {
                ValueType::Timestamp
            } else {
                ValueType::Columnar
            })
        } else if b == 0x10 {
            Some(ValueType::Tensor)
        } else if b == 0x11 {
            Some(ValueType::DeltaNums)
        } else {
            None
        }
    }
}

/// Law: distinct frame types are marked by distinct bytes, so `from_tag` of a frame type's
/// `tag` gives the frame type back.
pub proof fn law_frame_tag_roundtrip(a: FrameType, b: FrameType)
    ensures
        frame_type_byte(a) == frame_type_byte(b) ==> a == b,
{
}

/// Law: distinct value types are marked by distinct bytes, so `from_tag` of a value type's
/// `tag` gives the value type back.
pub proof fn law_value_tag_roundtrip(a: ValueType, b: ValueType)
    ensures
        value_type_byte(a) == value_type_byte(b) ==> a == b,
{
}

} // verus!
