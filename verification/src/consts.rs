use vstd::prelude::*;

verus! {

/// Size in bytes of a machine word on the target (x86-64).
pub const WORD_SIZE: usize = 8;

/// Name of the entry function, which the stepping engine treats specially.
pub const MAIN_FUNC_NAME: &'static str = "main";

/// endbr64; push %rbp; mov %rsp,%rbp — the prologue the stepping engine
/// expects at a function's start when computing a return address.
pub open spec fn prologue_magic_spec() -> Seq<u8> {
    seq![0xf3u8, 0x0fu8, 0x1eu8, 0xfau8, 0x55u8, 0x48u8, 0x89u8, 0xe5u8]
}

pub fn func_prologue_magic() -> (r: Vec<u8>)
    ensures
        r@ == prologue_magic_spec(),
{
    let r: Vec<u8> = vec![0xf3, 0x0f, 0x1e, 0xfa, 0x55, 0x48, 0x89, 0xe5];
    proof {
        assert(r@ =~= prologue_magic_spec());
    }
    r
}

/// Length of the prologue pattern above.
pub const FUNC_PROLOGUE_SIZE: usize = 8;

/// Length of the epilogue (`pop %rbp; ret` or `leave; ret`).
pub const FUNC_EPILOGUE_SIZE: usize = 2;

} // verus!
