use vstd::prelude::*;

verus! {

/// What a `Value` holds, one of five kinds.
#[derive(Debug, PartialEq, PartialOrd)]
pub enum Value {
    String(String),
    Binary(Vec<u8>),
    Integer(i64),
    /// A double, held as its IEEE-754 bit pattern.
    Float(u64),
    Bool(bool),
}

} // verus!
