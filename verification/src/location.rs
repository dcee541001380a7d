use vstd::prelude::*;
use crate::consts::WORD_SIZE;
use crate::error::DebuggerError;
use crate::types::TypeId;

verus! {

/// Where a value lives: part of a register, tracee memory, or an
/// immediate the DWARF expression produced.
#[derive(Debug, Clone, Copy, PartialEq, Eq, Structural)]
pub enum ValueLoc {
    Register { register: u16, offset: u16 },
    Address(u64),
    Value(u64),
}

/// What moving a location `delta` bytes forward yields: legal within a
/// register's word and for addresses, never for immediates.
pub open spec fn with_offset_spec(l: ValueLoc, delta: int) -> Result<ValueLoc, DebuggerError> {
    match l {
        ValueLoc::Register { register, offset } => if offset + delta < WORD_SIZE {
            Ok(ValueLoc::Register { register, offset: (offset + delta) as u16 })
        } else {
            Err(DebuggerError::InvalidLocation)
        },
        ValueLoc::Address(address) => if address + delta <= u64::MAX {
            Ok(ValueLoc::Address((address + delta) as u64))
        } else {
            Err(DebuggerError::InvalidLocation)
        },
        ValueLoc::Value(_) => Err(DebuggerError::InvalidLocation),
    }
}

impl ValueLoc {
    /// Move the location `delta` bytes forward: legal within a register's
    /// word and for addresses, never for immediates.
    pub fn with_offset(self, delta: usize) -> (r: Result<Self, DebuggerError>)
        ensures
            r == with_offset_spec(self, delta as int),
    {
        match self {
            ValueLoc::Register { register, offset } => {
                if delta < WORD_SIZE && (offset as usize) + delta < WORD_SIZE {
                    Ok(ValueLoc::Register { register, offset: offset + (delta as u16) })
                } else {
                    Err(DebuggerError::InvalidLocation)
                }
            },
            ValueLoc::Address(address) => {
                if (delta as u64) <= u64::MAX - address {
                    Ok(ValueLoc::Address(address + delta as u64))
                } else {
                    Err(DebuggerError::InvalidLocation)
                }
            },
            ValueLoc::Value(_) => Err(DebuggerError::InvalidLocation),
        }
    }
}

/// A location together with the type of the value stored there.
#[derive(Debug, Clone, Copy, PartialEq, Eq, Structural)]
pub struct TypedValueLoc {
    pub location: ValueLoc,
    pub type_id: TypeId,
}

impl TypedValueLoc {
    pub fn new(location: ValueLoc, type_id: TypeId) -> (r: Self)
        ensures
            r.location == location,
            r.type_id == type_id,
    {
        Self { location, type_id }
    }

    /// The same location seen as another type.
    pub fn with_type(self, type_id: TypeId) -> (r: Self)
        ensures
            r.location == self.location,
            r.type_id == type_id,
    {
        Self { location: self.location, type_id }
    }
}

} // verus!
