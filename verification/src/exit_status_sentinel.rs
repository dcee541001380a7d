use vstd::prelude::*;

verus! {

/// A return value that doubles as an error marker: the C convention of
/// `-1` for failed calls.
pub trait ExitStatusSentinel: Sized {
    spec fn sentinel_spec() -> Self;

    fn is_sentinel(&self) -> (r: bool)
        ensures
            r == (*self == Self::sentinel_spec()),
    ;
}

impl ExitStatusSentinel for i32 {
    open spec fn sentinel_spec() -> Self {
        -1i32
    }

    fn is_sentinel(&self) -> (r: bool) {
        *self == -1
    }
}

impl ExitStatusSentinel for i64 {
    open spec fn sentinel_spec() -> Self {
        -1i64
    }

    fn is_sentinel(&self) -> (r: bool) {
        *self == -1
    }
}

/// The sentinel was hit; the caller asks the operating system for the
/// actual error.
#[derive(Debug, Clone, Copy, PartialEq, Eq, Structural)]
pub struct SentinelHit;

/// Pass a call's return value through, turning the sentinel into an
/// error.
pub fn check<T: ExitStatusSentinel>(value: T) -> (r: Result<T, SentinelHit>)
    ensures
        value == T::sentinel_spec() ==> r == Err::<T, SentinelHit>(SentinelHit),
        value != T::sentinel_spec() ==> r == Ok::<T, SentinelHit>(value),
{
    if value.is_sentinel() {
        Err(SentinelHit)
    } else {
        Ok(value)
    }
}

} // verus!
