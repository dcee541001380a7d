use vstd::prelude::*;

verus! {

/// A user breakpoint.  `addr` is absolute in the tracee's address space;
/// `original_bytecode` is the word read from text before the trap byte was
/// written; `loc` is the user-supplied location string the breakpoint was
/// created from.  While `enabled` holds, the low byte at `addr` in tracee
/// text is the trap byte and writing `original_bytecode` back restores the
/// original instruction.
#[derive(Debug, Clone)]
pub struct Breakpoint {
    pub addr: u64,
    pub original_bytecode: i64,
    pub loc: String,
    pub enabled: bool,
}

impl Breakpoint {
    /// A fresh breakpoint starts disabled; the manager enables it eagerly
    /// right after creation.
    pub fn new(addr: u64, original_bytecode: i64, loc: String) -> (r: Self)
        ensures
            r.addr == addr,
            r.original_bytecode == original_bytecode,
            r.loc == loc,
            !r.enabled,
    {
        Self { addr, original_bytecode, loc, enabled: false }
    }
}

} // verus!
