use vstd::prelude::*;
use crate::types::TypeId;

verus! {

/// A value read out of the tracee: its type and its raw bytes.
#[derive(Debug, Clone)]
pub struct Value {
    pub type_id: TypeId,
    pub buf: Vec<u8>,
}

impl Value {
    pub fn new(type_id: TypeId, buf: Vec<u8>) -> (r: Self)
        ensures
            r.type_id == type_id,
            r.buf == buf,
    {
        Self { type_id, buf }
    }
}

/// A named value, ready for printing.
#[derive(Debug, Clone)]
pub struct Var {
    pub name: String,
    pub value: Value,
}

impl Var {
    pub fn new(name: String, value: Value) -> (r: Self)
        ensures
            r.name == name,
            r.value == value,
    {
        Self { name, value }
    }
}

} // verus!
