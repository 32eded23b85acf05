use vstd::prelude::*;

verus! {

/// A structured value: scalars of several widths, text, and the two composites
/// (an ordered sequence, and an ordered list of key/value pairs).
///
/// Floating-point numbers are held by their IEEE 754 bit pattern.
#[derive(Debug, PartialEq)]
pub enum Value {
    Bool(bool),
    U8(u8),
    U16(u16),
    U32(u32),
    U64(u64),
    I8(i8),
    I16(i16),
    I32(i32),
    I64(i64),
    F32(u32),
    F64(u64),
    Char(char),
    String(String),
    Unit,
    Option(Option<Box<Value>>),
    Newtype(Box<Value>),
    Sequence(Vec<Value>),
    Mapping(Vec<(Value, Value)>),
    Bytes(Vec<u8>),
}

impl Value {
    /// A value is a composite when it is a sequence or a map; every other variant
    /// is a leaf of the tree.
    pub open spec fn is_composite(&self) -> bool {
        self is Sequence || self is Mapping
    }
}

} // verus!
