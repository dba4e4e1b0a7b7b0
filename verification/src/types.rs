//! Wire-type codes of the BiWi stream and their classification predicates.

use vstd::prelude::*;

verus! {

/// The type codes a value may carry on the wire.  `Boolean` is written as
/// `0x01` for true and as the special marker `0xFF` for false; all other
/// variants are written as their single code byte.
#[derive(Debug, Clone, Copy, PartialEq, Eq, Structural)]
pub enum BiWiType {
    Null,
    Boolean,
    Int32,
    Int64,
    Float32,
    Float64,
    String,
    Binary,
    Array,
    Object,
    ChunkStart,
    ChunkData,
    ChunkEnd,
}

impl BiWiType {
    /// The code byte this type is written as in the stream.
    pub open spec fn spec_code(self) -> u8 {
        match self {
            BiWiType::Null => 0x00,
            BiWiType::Boolean => 0x01,
            BiWiType::Int32 => 0x02,
            BiWiType::Int64 => 0x03,
            BiWiType::Float32 => 0x04,
            BiWiType::Float64 => 0x05,
            BiWiType::String => 0x06,
            BiWiType::Binary => 0x07,
            BiWiType::Array => 0x08,
            BiWiType::Object => 0x09,
            BiWiType::ChunkStart => 0x0A,
            BiWiType::ChunkData => 0x0B,
            BiWiType::ChunkEnd => 0x0C,
        }
    }

    /// The code byte of this type.
    pub fn to_u8(self) -> (r: u8)
        ensures
            r == self.spec_code(),
    {
        match self {
            BiWiType::Null => 0x00,
            BiWiType::Boolean => 0x01,
            BiWiType::Int32 => 0x02,
            BiWiType::Int64 => 0x03,
            BiWiType::Float32 => 0x04,
            BiWiType::Float64 => 0x05,
            BiWiType::String => 0x06,
            BiWiType::Binary => 0x07,
            BiWiType::Array => 0x08,
            BiWiType::Object => 0x09,
            BiWiType::ChunkStart => 0x0A,
            BiWiType::ChunkData => 0x0B,
            BiWiType::ChunkEnd => 0x0C,
        }
    }

    /// Convert a code byte to its type.  Exactly the codes `0x00` through
    /// `0x0C` are recognized.
    pub fn from_u8(value: u8) -> (r: Option<BiWiType>)
        ensures
            match r {
                Some(t) => t.spec_code() == value,
                None => value > 0x0C,
            },
    {
        match value {
            0x00 => Some(BiWiType::Null),
            0x01 => Some(BiWiType::Boolean),
            0x02 => Some(BiWiType::Int32),
            0x03 => Some(BiWiType::Int64),
            0x04 => Some(BiWiType::Float32),
            0x05 => Some(BiWiType::Float64),
            0x06 => Some(BiWiType::String),
            0x07 => Some(BiWiType::Binary),
            0x08 => Some(BiWiType::Array),
            0x09 => Some(BiWiType::Object),
            0x0A => Some(BiWiType::ChunkStart),
            0x0B => Some(BiWiType::ChunkData),
            0x0C => Some(BiWiType::ChunkEnd),
            _ => None,
        }
    }

    /// The display name of this type.
    pub open spec fn spec_name(self) -> Seq<char> {
        match self {
            BiWiType::Null => "NULL"@,
            BiWiType::Boolean => "BOOLEAN"@,
            BiWiType::Int32 => "INT32"@,
            BiWiType::Int64 => "INT64"@,
            BiWiType::Float32 => "FLOAT32"@,
            BiWiType::Float64 => "FLOAT64"@,
            BiWiType::String => "STRING"@,
            BiWiType::Binary => "BINARY"@,
            BiWiType::Array => "ARRAY"@,
            BiWiType::Object => "OBJECT"@,
            BiWiType::ChunkStart => "CHUNK_START"@,
            BiWiType::ChunkData => "CHUNK_DATA"@,
            BiWiType::ChunkEnd => "CHUNK_END"@,
        }
    }

    /// The display name of this type.
    pub fn name(&self) -> (r: &'static str)
        ensures
            r@ == self.spec_name(),
    {
        match self {
            BiWiType::Null => "NULL",
            BiWiType::Boolean => "BOOLEAN",
            BiWiType::Int32 => "INT32",
            BiWiType::Int64 => "INT64",
            BiWiType::Float32 => "FLOAT32",
            BiWiType::Float64 => "FLOAT64",
            BiWiType::String => "STRING",
            BiWiType::Binary => "BINARY",
            BiWiType::Array => "ARRAY",
            BiWiType::Object => "OBJECT",
            BiWiType::ChunkStart => "CHUNK_START",
            BiWiType::ChunkData => "CHUNK_DATA",
            BiWiType::ChunkEnd => "CHUNK_END",
        }
    }

    /// Whether a value of this type occupies a fixed number of payload bytes.
    pub open spec fn spec_is_fixed_size(self) -> bool {
        match self {
            BiWiType::Null
            | BiWiType::Boolean
            | BiWiType::Int32
            | BiWiType::Int64
            | BiWiType::Float32
            | BiWiType::Float64 => true,
            _ => false,
        }
    }

    /// Whether this is one of the fixed-size types.
    pub fn is_fixed_size(&self) -> (r: bool)
        ensures
            r == self.spec_is_fixed_size(),
    {
        match self {
            BiWiType::Null
            | BiWiType::Boolean
            | BiWiType::Int32
            | BiWiType::Int64
            | BiWiType::Float32
            | BiWiType::Float64 => true,
            _ => false,
        }
    }

    /// Whether this is one of the variable-size types.
    pub fn is_variable_size(&self) -> (r: bool)
        ensures
            r == match *self {
                BiWiType::String | BiWiType::Binary | BiWiType::Array | BiWiType::Object => true,
                _ => false,
            },
    {
        match self {
            BiWiType::String | BiWiType::Binary | BiWiType::Array | BiWiType::Object => true,
            _ => false,
        }
    }

    /// Whether this is one of the streaming chunk types.
    pub fn is_streaming_type(&self) -> (r: bool)
        ensures
            r == match *self {
                BiWiType::ChunkStart | BiWiType::ChunkData | BiWiType::ChunkEnd => true,
                _ => false,
            },
    {
        match self {
            BiWiType::ChunkStart | BiWiType::ChunkData | BiWiType::ChunkEnd => true,
            _ => false,
        }
    }

    /// The payload size in bytes of a fixed-size type, `None` otherwise.
    /// The size does not count the leading type byte, so `Null` and
    /// `Boolean` report zero and one respectively only through their
    /// special encodings.
    pub fn fixed_size(&self) -> (r: Option<usize>)
        ensures
            match *self {
                BiWiType::Null => r == Some(0usize),
                BiWiType::Boolean => r == Some(1usize),
                BiWiType::Int32 => r == Some(4usize),
                BiWiType::Int64 => r == Some(8usize),
                BiWiType::Float32 => r == Some(4usize),
                BiWiType::Float64 => r == Some(8usize),
                _ => r is None,
            },
    {
        match self {
            BiWiType::Null => Some(0),
            BiWiType::Boolean => Some(1),
            BiWiType::Int32 => Some(4),
            BiWiType::Int64 => Some(8),
            BiWiType::Float32 => Some(4),
            BiWiType::Float64 => Some(8),
            _ => None,
        }
    }
}

} // verus!
