use vstd::prelude::*;

verus! {

/// A transient trap: a one-shot stop installed by the stepping engine at a
/// next-line or return address.  Unlike a breakpoint it auto-removes when
/// the tracee hits it and is never listed to the user.  Only the word read
/// from text before the trap byte was written needs to be remembered.
#[derive(Debug, Clone, PartialEq, Eq, Structural)]
pub struct Trap {
    pub original_bytecode: i64,
}

impl Trap {
    pub fn new(original_bytecode: i64) -> (r: Self)
        ensures
            r.original_bytecode == original_bytecode,
    {
        Self { original_bytecode }
    }
}

} // verus!
