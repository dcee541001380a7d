use vstd::prelude::*;

verus! {

/// User-facing failures of debugger operations.  The session reports these
/// at the command boundary and keeps running; operating-system failures are
/// outside this crate and are fatal there.
#[derive(Debug, Clone, PartialEq, Eq)]
pub enum DebuggerError {
    BreakpointNotFound,
    BreakpointAlreadyExist,
    LocNotFound,
    VarNotFound(String),
    InvalidPath,
    InvalidValue,
    InvalidLocation,
    InvalidCommand,
}

impl DebuggerError {
    /// Rendering of the error, as shown to the user.
    pub fn message(&self) -> (r: String)
        ensures
            r@ == self.message_spec(),
    {
        match self {
            DebuggerError::BreakpointNotFound => "breakpoint not found".to_owned(),
            DebuggerError::BreakpointAlreadyExist => "breakpoint already exist".to_owned(),
            DebuggerError::LocNotFound => "loc not found".to_owned(),
            DebuggerError::VarNotFound(name) => name.clone().concat(" not found"),
            DebuggerError::InvalidPath => "invalid path".to_owned(),
            DebuggerError::InvalidValue => "invalid value".to_owned(),
            DebuggerError::InvalidLocation => "invalid location".to_owned(),
            DebuggerError::InvalidCommand => "invalid command".to_owned(),
        }
    }

    pub open spec fn message_spec(&self) -> Seq<char> {
        match self {
            DebuggerError::BreakpointNotFound => "breakpoint not found"@,
            DebuggerError::BreakpointAlreadyExist => "breakpoint already exist"@,
            DebuggerError::LocNotFound => "loc not found"@,
            DebuggerError::VarNotFound(name) => name@ + " not found"@,
            DebuggerError::InvalidPath => "invalid path"@,
            DebuggerError::InvalidValue => "invalid value"@,
            DebuggerError::InvalidLocation => "invalid location"@,
            DebuggerError::InvalidCommand => "invalid command"@,
        }
    }
}

} // verus!
