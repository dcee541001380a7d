use vstd::prelude::*;
use crate::codec::{encode_i64_le, encode_u64_le, le_bytes_of, le_value, lemma_pow256_values,
    pow256};
use crate::consts::WORD_SIZE;
use crate::error::DebuggerError;
use crate::loc_finder::LocFinder;
use crate::location::{TypedValueLoc, ValueLoc};
use crate::string_parser::parse_json_string_literal;
use crate::text::{all_dec_digits, dec_value, parse_u64, str_eq};
use crate::types::{EnumVariant, Type, TypeEncoding, TypeId, TypeStorage};

verus! {

/// The x86-64 general-purpose registers and the instruction pointer, as
/// read from the stopped tracee.
#[derive(Debug, Clone, Copy, PartialEq, Eq, Structural)]
pub struct Regs {
    pub rax: u64,
    pub rdx: u64,
    pub rcx: u64,
    pub rbx: u64,
    pub rsi: u64,
    pub rdi: u64,
    pub rbp: u64,
    pub rsp: u64,
    pub r8: u64,
    pub r9: u64,
    pub r10: u64,
    pub r11: u64,
    pub r12: u64,
    pub r13: u64,
    pub r14: u64,
    pub r15: u64,
    pub rip: u64,
}

/// The DWARF register numbering for x86-64: `0` is `rax`, `1` is `rdx`,
/// `2` is `rcx`, `3` is `rbx`, `4` is `rsi`, `5` is `rdi`, `6` is `rbp`,
/// `7` is `rsp`, `8` to `15` are `r8` to `r15`.
pub open spec fn reg_value_spec(regs: Regs, reg: u16) -> Option<u64> {
    if reg == 0 {
        Some(regs.rax)
    } else if reg == 1 {
        Some(regs.rdx)
    } else if reg == 2 {
        Some(regs.rcx)
    } else if reg == 3 {
        Some(regs.rbx)
    } else if reg == 4 {
        Some(regs.rsi)
    } else if reg == 5 {
        Some(regs.rdi)
    } else if reg == 6 {
        Some(regs.rbp)
    } else if reg == 7 {
        Some(regs.rsp)
    } else if reg == 8 {
        Some(regs.r8)
    } else if reg == 9 {
        Some(regs.r9)
    } else if reg == 10 {
        Some(regs.r10)
    } else if reg == 11 {
        Some(regs.r11)
    } else if reg == 12 {
        Some(regs.r12)
    } else if reg == 13 {
        Some(regs.r13)
    } else if reg == 14 {
        Some(regs.r14)
    } else if reg == 15 {
        Some(regs.r15)
    } else {
        None
    }
}

impl Regs {
    /// Value of the register with DWARF number `reg`.
    pub fn get_dwarf(&self, reg: u16) -> (r: Result<u64, DebuggerError>)
        ensures
            match reg_value_spec(*self, reg) {
                Some(v) => r == Ok::<u64, DebuggerError>(v),
                None => r == Err::<u64, DebuggerError>(DebuggerError::InvalidLocation),
            },
    {
        match reg {
            0 => Ok(self.rax),
            1 => Ok(self.rdx),
            2 => Ok(self.rcx),
            3 => Ok(self.rbx),
            4 => Ok(self.rsi),
            5 => Ok(self.rdi),
            6 => Ok(self.rbp),
            7 => Ok(self.rsp),
            8 => Ok(self.r8),
            9 => Ok(self.r9),
            10 => Ok(self.r10),
            11 => Ok(self.r11),
            12 => Ok(self.r12),
            13 => Ok(self.r13),
            14 => Ok(self.r14),
            15 => Ok(self.r15),
            _ => Err(DebuggerError::InvalidLocation),
        }
    }

    /// The registers with the DWARF register `reg` set to `value`.
    pub fn set_dwarf(&self, reg: u16, value: u64) -> (r: Result<Regs, DebuggerError>)
        ensures
            reg_value_spec(*self, reg) is None ==> r == Err::<Regs, DebuggerError>(
                DebuggerError::InvalidLocation,
            ),
            reg_value_spec(*self, reg) is Some ==> (r matches Ok(updated) && reg_value_spec(
                updated,
                reg,
            ) == Some(value) && updated.rip == self.rip && forall|other: u16|
                other != reg ==> reg_value_spec(updated, other) == reg_value_spec(*self, other)),
    {
        let mut updated = *self;
        match reg {
            0 => updated.rax = value,
            1 => updated.rdx = value,
            2 => updated.rcx = value,
            3 => updated.rbx = value,
            4 => updated.rsi = value,
            5 => updated.rdi = value,
            6 => updated.rbp = value,
            7 => updated.rsp = value,
            8 => updated.r8 = value,
            9 => updated.r9 = value,
            10 => updated.r10 = value,
            11 => updated.r11 = value,
            12 => updated.r12 = value,
            13 => updated.r13 = value,
            14 => updated.r14 = value,
            15 => updated.r15 = value,
            _ => {
                return Err(DebuggerError::InvalidLocation);
            },
        }
        Ok(updated)
    }
}

/// The registers the session logic actually consults: instruction,
/// stack and frame pointer.
#[derive(Debug, Clone, Copy, PartialEq, Eq, Structural)]
pub struct Context {
    pub ip: u64,
    pub sp: u64,
    pub bp: u64,
}

impl Context {
    pub fn new(regs: Regs) -> (r: Self)
        ensures
            r.ip == regs.rip,
            r.sp == regs.rsp,
            r.bp == regs.rbp,
    {
        Self { ip: regs.rip, sp: regs.rsp, bp: regs.rbp }
    }
}

/// The registers set up for injecting an anonymous private `mmap` call
/// into the tracee: `rax` selects the syscall, the argument registers ask
/// for `size` readable-writable bytes backed by no file.
pub fn mmap_call_regs(regs: Regs, size: u64) -> (r: Regs)
    ensures
        r.rax == 9,  // mmap
        r.rdi == 0,  // any address
        r.rsi == size,
        r.rdx == 3,  // PROT_READ | PROT_WRITE
        r.r10 == 0x22,  // MAP_PRIVATE | MAP_ANONYMOUS
        r.r8 == u64::MAX,  // no file descriptor
        r.r9 == 0,  // no offset
        r.rip == regs.rip,
        r.rsp == regs.rsp,
        r.rbp == regs.rbp,
{
    Regs {
        rax: 9,
        rdi: 0,
        rsi: size,
        rdx: 3,
        r10: 0x22,
        r8: u64::MAX,
        r9: 0,
        ..regs
    }
}

/// The word at the instruction pointer with its two low bytes replaced by
/// the `syscall` opcode `0F 05`.
pub open spec fn syscall_word_spec(w: i64) -> i64 {
    (w & !0xffff) | 0x050f
}

pub fn syscall_word(w: i64) -> (r: i64)
    ensures
        r == syscall_word_spec(w),
{
    (w & !0xffffi64) | 0x050f
}

/// Injecting the syscall opcode touches the two low bytes alone, so
/// restoring the saved word undoes it exactly.
pub proof fn lemma_syscall_word(w: i64)
    ensures
        syscall_word_spec(w) & 0xffff == 0x050f,
        syscall_word_spec(w) & !0xffff == w & !0xffff,
{
    assert(((w & !0xffff) | 0x050f) & 0xffff == 0x050f) by (bit_vector);
    assert((((w & !0xffff) | 0x050f) & !0xffff) == (w & !0xffff)) by (bit_vector);
}

/// A resumed DWARF address is the raw address relocated by the load base.
pub fn relocate_address(base: u64, address: u64) -> (r: Result<u64, DebuggerError>)
    ensures
        base + address <= u64::MAX ==> r == Ok::<u64, DebuggerError>((base + address) as u64),
        base + address > u64::MAX ==> r == Err::<u64, DebuggerError>(DebuggerError::InvalidLocation),
{
    if address <= u64::MAX - base {
        Ok(base + address)
    } else {
        Err(DebuggerError::InvalidLocation)
    }
}

/// The canonical frame address from a register rule: the register's value
/// plus the rule's offset, wrapping as the unwinder does.
pub fn cfa_from_register(reg_value: u64, offset: i64) -> (r: u64)
    ensures
        offset >= 0 ==> r as int == (reg_value + offset) % 0x10000000000000000,
        offset < 0 && reg_value + offset >= 0 ==> r as int == reg_value + offset,
        offset < 0 && reg_value + offset < 0 ==> r as int == reg_value + offset
            + 0x10000000000000000,
{
    if offset >= 0 {
        reg_value.wrapping_add(offset as u64)
    } else {
        let m = ((-(offset + 1)) as u64) + 1;
        reg_value.wrapping_sub(m)
    }
}

/// How the controller obtains the bytes of a located value.
#[derive(Debug, Clone, PartialEq, Eq)]
pub enum ReadPlan {
    /// Slice the register's word: `register_slice_bytes` does it once the
    /// register is read.
    FromRegister { register: u16, offset: u16 },
    /// Read `size` bytes of tracee memory at this address.
    FromMemory { addr: u64 },
    /// The expression produced the value itself; here are its bytes.
    Immediate(Vec<u8>),
}

/// Decide how to read `size` bytes from a location: registers and
/// immediates hold at most a word, memory any size.
pub fn read_value_loc_plan(loc: ValueLoc, size: usize) -> (r: Result<ReadPlan, DebuggerError>)
    ensures
        match loc {
            ValueLoc::Register { register, offset } => if offset + size <= WORD_SIZE {
                r == Ok::<ReadPlan, DebuggerError>(ReadPlan::FromRegister { register, offset })
            } else {
                r == Err::<ReadPlan, DebuggerError>(DebuggerError::InvalidLocation)
            },
            ValueLoc::Address(addr) => r == Ok::<ReadPlan, DebuggerError>(
                ReadPlan::FromMemory { addr },
            ),
            ValueLoc::Value(v) => if size <= WORD_SIZE {
                r matches Ok(p) && p matches ReadPlan::Immediate(bytes) && bytes@.len() == size
                    && le_value(bytes@) == (v as int) % pow256(size as int)
            } else {
                r == Err::<ReadPlan, DebuggerError>(DebuggerError::InvalidLocation)
            },
        },
{
    match loc {
        ValueLoc::Register { register, offset } => {
            if size <= WORD_SIZE && (offset as usize) <= WORD_SIZE - size {
                Ok(ReadPlan::FromRegister { register, offset })
            } else {
                Err(DebuggerError::InvalidLocation)
            }
        },
        ValueLoc::Address(addr) => Ok(ReadPlan::FromMemory { addr }),
        ValueLoc::Value(v) => {
            if size <= WORD_SIZE {
                let truncated = truncate_to_size(v, size);
                let bytes = encode_u64_le(truncated, size);
                Ok(ReadPlan::Immediate(bytes))
            } else {
                Err(DebuggerError::InvalidLocation)
            }
        },
    }
}

/// The low `size` bytes of `v` as a value.
fn truncate_to_size(v: u64, size: usize) -> (r: u64)
    requires
        size <= 8,
    ensures
        r as int == (v as int) % pow256(size as int),
        (r as int) < pow256(size as int),
{
    proof {
        lemma_pow256_values();
    }
    if size >= 8 {
        v
    } else {
        let m: u64 = match size {
            0 => 1,
            1 => 0x100,
            2 => 0x10000,
            3 => 0x1000000,
            4 => 0x100000000,
            5 => 0x10000000000,
            6 => 0x1000000000000,
            _ => 0x100000000000000,
        };
        v % m
    }
}

/// Bytes `offset .. offset + size` of a register's word.
pub fn register_slice_bytes(reg_value: u64, offset: u16, size: usize) -> (r: Vec<u8>)
    requires
        offset + size <= WORD_SIZE,
    ensures
        r@.len() == size,
        r@ == le_bytes_of(reg_value as int, 8).subrange(offset as int, offset + size),
{
    proof {
        lemma_pow256_values();
    }
    let word = encode_u64_le(reg_value, 8);
    let mut out: Vec<u8> = Vec::new();
    let mut i: usize = 0;
    while i < size
        invariant
            word@.len() == 8,
            word@ == le_bytes_of(reg_value as int, 8),
            offset + size <= 8,
            i <= size,
            out@ =~= word@.subrange(offset as int, offset + i),
        decreases size - i,
    {
        out.push(word[(offset as usize) + i]);
        i = i + 1;
        proof {
            assert(out@ =~= word@.subrange(offset as int, offset + i));
        }
    }
    out
}

/// A register's word with bytes `offset .. offset + len(bytes)` replaced,
/// for a write that touches part of a register.
pub fn register_spliced_value(current: u64, offset: u16, bytes: &Vec<u8>) -> (r: Result<
    u64,
    DebuggerError,
>)
    ensures
        offset + bytes@.len() <= WORD_SIZE ==> (r matches Ok(v) && le_bytes_of(v as int, 8)
            =~= le_bytes_of(current as int, 8).subrange(0, offset as int) + bytes@ + le_bytes_of(
            current as int,
            8,
        ).subrange(offset + bytes@.len(), 8)),
        offset + bytes@.len() > WORD_SIZE ==> r == Err::<u64, DebuggerError>(
            DebuggerError::InvalidValue,
        ),
{
    let blen = bytes.len();
    if blen > WORD_SIZE || (offset as usize) > WORD_SIZE - blen {
        return Err(DebuggerError::InvalidValue);
    }
    proof {
        lemma_pow256_values();
    }
    let mut word = encode_u64_le(current, 8);
    let ghost w0 = word@;
    let mut i: usize = 0;
    while i < blen
        invariant
            word@.len() == 8,
            blen == bytes@.len(),
            offset + blen <= 8,
            i <= blen,
            forall|k: int| 0 <= k < offset ==> word@[k] == w0[k],
            forall|k: int| 0 <= k < i ==> word@[offset + k] == bytes@[k],
            forall|k: int| offset + blen <= k < 8 ==> word@[k] == w0[k],
        decreases blen - i,
    {
        word.set((offset as usize) + i, bytes[i]);
        i = i + 1;
    }
    let v = crate::codec::decode_u64_le(&word, 0, 8);
    proof {
        assert(word@.subrange(0, 8) =~= word@);
        crate::codec::lemma_le_bytes_roundtrip(word@);
        assert(le_bytes_of(v as int, 8) =~= word@);
        assert(word@ =~= w0.subrange(0, offset as int) + bytes@ + w0.subrange(
            offset + bytes@.len(),
            8,
        ));
    }
    Ok(v)
}

/// One step of walking the postfix operators of a path.
#[derive(Debug, Clone, PartialEq, Eq, Structural)]
pub enum WalkAction {
    /// All operators consumed: this is the resolved location.
    Done(TypedValueLoc),
    /// Progress without touching the tracee; continue from here.
    Advance(TypedValueLoc, usize),
    /// A pointer must be dereferenced: read a word at the given location,
    /// then resume via `after_pointer_read` with the subtype.
    Deref(TypedValueLoc, TypeId, usize),
}

/// Walk one postfix operator (or one qualifier layer) at position `pos`:
/// `.field` on a struct adds the member offset and narrows the type, on a
/// union only narrows; `[i]` on an array advances by `i` elements;
/// reaching either through a pointer first dereferences it; a name or an
/// index the type cannot take is an invalid path.
#[verifier::loop_isolation(false)]
pub fn walk_step(
    types: &TypeStorage,
    loc: TypedValueLoc,
    ops: &Vec<crate::path::PostfixOperator>,
    pos: usize,
) -> (r: Result<WalkAction, DebuggerError>)
    ensures
        pos >= ops@.len() ==> r == Ok::<WalkAction, DebuggerError>(WalkAction::Done(loc)),
        (pos < ops@.len() && loc.type_id >= types@.len()) ==> r == Err::<
            WalkAction,
            DebuggerError,
        >(DebuggerError::InvalidPath),
        (pos < ops@.len() && loc.type_id < types@.len()) ==> (match types@[loc.type_id as int] {
            Type::Const(sub) => r == Ok::<WalkAction, DebuggerError>(
                WalkAction::Advance(TypedValueLoc { location: loc.location, type_id: sub }, pos),
            ),
            Type::Volatile(sub) => r == Ok::<WalkAction, DebuggerError>(
                WalkAction::Advance(TypedValueLoc { location: loc.location, type_id: sub }, pos),
            ),
            Type::Atomic(sub) => r == Ok::<WalkAction, DebuggerError>(
                WalkAction::Advance(TypedValueLoc { location: loc.location, type_id: sub }, pos),
            ),
            Type::Typedef(_, sub) => r == Ok::<WalkAction, DebuggerError>(
                WalkAction::Advance(TypedValueLoc { location: loc.location, type_id: sub }, pos),
            ),
            Type::Pointer(sub) => r == Ok::<WalkAction, DebuggerError>(
                WalkAction::Deref(loc, sub, pos),
            ),
            Type::Struct { fields, .. } => match ops@[pos as int] {
                crate::path::PostfixOperator::Field(fname) => match crate::types::field_by_name(
                    fields@,
                    fname@,
                ) {
                    Some(f) => match crate::location::with_offset_spec(
                        loc.location,
                        f.offset as int,
                    ) {
                        Ok(l2) => r == Ok::<WalkAction, DebuggerError>(
                            WalkAction::Advance(
                                TypedValueLoc { location: l2, type_id: f.type_id },
                                (pos + 1) as usize,
                            ),
                        ),
                        Err(e) => r == Err::<WalkAction, DebuggerError>(e),
                    },
                    None => r == Err::<WalkAction, DebuggerError>(DebuggerError::InvalidPath),
                },
                crate::path::PostfixOperator::Index(_) => r == Err::<WalkAction, DebuggerError>(
                    DebuggerError::InvalidPath,
                ),
            },
            Type::Union { fields, .. } => match ops@[pos as int] {
                crate::path::PostfixOperator::Field(fname) => match crate::types::union_field_by_name(
                    fields@,
                    fname@,
                ) {
                    Some(f) => r == Ok::<WalkAction, DebuggerError>(
                        WalkAction::Advance(
                            TypedValueLoc { location: loc.location, type_id: f.type_id },
                            (pos + 1) as usize,
                        ),
                    ),
                    None => r == Err::<WalkAction, DebuggerError>(DebuggerError::InvalidPath),
                },
                crate::path::PostfixOperator::Index(_) => r == Err::<WalkAction, DebuggerError>(
                    DebuggerError::InvalidPath,
                ),
            },
            Type::Array { subtype_id, .. } => match ops@[pos as int] {
                crate::path::PostfixOperator::Index(idx) => match crate::types::size_of_spec(
                    types@,
                    subtype_id as int,
                    types@.len() as nat,
                ) {
                    Ok(es) => if idx * es > usize::MAX {
                        r == Err::<WalkAction, DebuggerError>(DebuggerError::InvalidPath)
                    } else {
                        match crate::location::with_offset_spec(loc.location, idx * es) {
                            Ok(l2) => r == Ok::<WalkAction, DebuggerError>(
                                WalkAction::Advance(
                                    TypedValueLoc { location: l2, type_id: subtype_id },
                                    (pos + 1) as usize,
                                ),
                            ),
                            Err(e) => r == Err::<WalkAction, DebuggerError>(e),
                        }
                    },
                    Err(_) => r == Err::<WalkAction, DebuggerError>(DebuggerError::InvalidPath),
                },
                crate::path::PostfixOperator::Field(_) => r == Err::<WalkAction, DebuggerError>(
                    DebuggerError::InvalidPath,
                ),
            },
            _ => r == Err::<WalkAction, DebuggerError>(DebuggerError::InvalidPath),
        }),
{
    if pos >= ops.len() {
        return Ok(WalkAction::Done(loc));
    }
    let t = match types.get(loc.type_id) {
        Ok(t) => t,
        Err(_) => {
            return Err(DebuggerError::InvalidPath);
        },
    };
    match t {
        Type::Const(sub) | Type::Volatile(sub) | Type::Atomic(sub) | Type::Typedef(_, sub) => {
            Ok(WalkAction::Advance(loc.with_type(*sub), pos))
        },
        Type::Pointer(sub) => Ok(WalkAction::Deref(loc, *sub, pos)),
        Type::Struct { fields, .. } => {
            match &ops[pos] {
                crate::path::PostfixOperator::Field(fname) => {
                    let m = fields.len();
                    let mut i: usize = 0;
                    while i < m
                        invariant
                            m == fields@.len(),
                            i <= m,
                            forall|j: int| 0 <= j < i ==> (#[trigger] fields@[j]).name@ != fname@,
                        decreases m - i,
                    {
                        if str_eq(fields[i].name.as_str(), fname.as_str()) {
                            proof {
                                crate::types::lemma_field_by_name_first(fields@, fname@, i as int);
                            }
                            let new_loc = match loc.location.with_offset(
                                fields[i].offset as usize,
                            ) {
                                Ok(l) => l,
                                Err(e) => {
                                    return Err(e);
                                },
                            };
                            return Ok(
                                WalkAction::Advance(
                                    TypedValueLoc::new(new_loc, fields[i].type_id),
                                    pos + 1,
                                ),
                            );
                        }
                        i = i + 1;
                    }
                    proof {
                        crate::types::lemma_field_by_name_none(fields@, fname@);
                    }
                    Err(DebuggerError::InvalidPath)
                },
                crate::path::PostfixOperator::Index(_) => Err(DebuggerError::InvalidPath),
            }
        },
        Type::Union { fields, .. } => {
            match &ops[pos] {
                crate::path::PostfixOperator::Field(fname) => {
                    let m = fields.len();
                    let mut i: usize = 0;
                    while i < m
                        invariant
                            m == fields@.len(),
                            i <= m,
                            forall|j: int| 0 <= j < i ==> (#[trigger] fields@[j]).name@ != fname@,
                        decreases m - i,
                    {
                        if str_eq(fields[i].name.as_str(), fname.as_str()) {
                            proof {
                                crate::types::lemma_union_field_by_name_first(
                                    fields@,
                                    fname@,
                                    i as int,
                                );
                            }
                            return Ok(
                                WalkAction::Advance(loc.with_type(fields[i].type_id), pos + 1),
                            );
                        }
                        i = i + 1;
                    }
                    proof {
                        crate::types::lemma_union_field_by_name_none(fields@, fname@);
                    }
                    Err(DebuggerError::InvalidPath)
                },
                crate::path::PostfixOperator::Index(_) => Err(DebuggerError::InvalidPath),
            }
        },
        Type::Array { subtype_id, .. } => {
            let subtype_id = *subtype_id;
            match &ops[pos] {
                crate::path::PostfixOperator::Index(idx) => {
                    let elem_size = match types.get_type_size(subtype_id) {
                        Ok(s) => s,
                        Err(_) => {
                            return Err(DebuggerError::InvalidPath);
                        },
                    };
                    let delta = match idx.checked_mul(elem_size) {
                        Some(d) => d,
                        None => {
                            return Err(DebuggerError::InvalidPath);
                        },
                    };
                    let new_loc = match loc.location.with_offset(delta) {
                        Ok(l) => l,
                        Err(e) => {
                            return Err(e);
                        },
                    };
                    Ok(WalkAction::Advance(TypedValueLoc::new(new_loc, subtype_id), pos + 1))
                },
                crate::path::PostfixOperator::Field(_) => Err(DebuggerError::InvalidPath),
            }
        },
        _ => Err(DebuggerError::InvalidPath),
    }
}

/// Resume a walk after the controller read the pointer's word: a null
/// pointer is refused, anything else becomes the pointed-to address.
pub fn after_pointer_read(ptr: u64, subtype: TypeId) -> (r: Result<TypedValueLoc, DebuggerError>)
    ensures
        ptr == 0 ==> r == Err::<TypedValueLoc, DebuggerError>(DebuggerError::InvalidPath),
        ptr != 0 ==> r == Ok::<TypedValueLoc, DebuggerError>(
            TypedValueLoc { location: ValueLoc::Address(ptr), type_id: subtype },
        ),
{
    if ptr == 0 {
        Err(DebuggerError::InvalidPath)
    } else {
        Ok(TypedValueLoc::new(ValueLoc::Address(ptr), subtype))
    }
}

/// One step of applying the prefix operators right to left.
#[derive(Debug, Clone, PartialEq, Eq, Structural)]
pub enum PrefixAction {
    Done(TypedValueLoc),
    Advance(TypedValueLoc, usize),
    /// `*`: read the pointer's word at the location, then resume via
    /// `after_pointer_read`.
    Deref(TypedValueLoc, TypeId, usize),
    /// `&`: the location's address becomes a value of a pointer type the
    /// caller must obtain from the type store.
    TakeRef(u64, usize),
}

/// Apply the prefix operator at position `pos` (counting from the end, as
/// `*` and `&` bind right to left): `&` is only legal on a memory
/// location, `*` needs a pointer after stripping qualifiers; anything
/// else is an invalid path.
pub fn prefix_step(
    types: &TypeStorage,
    loc: TypedValueLoc,
    ops: &Vec<crate::path::PrefixOperator>,
    remaining: usize,
) -> (r: Result<PrefixAction, DebuggerError>)
    requires
        remaining <= ops@.len(),
    ensures
        remaining == 0 ==> r == Ok::<PrefixAction, DebuggerError>(PrefixAction::Done(loc)),
        (remaining > 0 && ops@[remaining - 1] == crate::path::PrefixOperator::Ref) ==> (
        match loc.location {
            ValueLoc::Address(address) => r == Ok::<PrefixAction, DebuggerError>(
                PrefixAction::TakeRef(address, (remaining - 1) as usize),
            ),
            _ => r == Err::<PrefixAction, DebuggerError>(DebuggerError::InvalidPath),
        }),
        (remaining > 0 && ops@[remaining - 1] == crate::path::PrefixOperator::Deref) ==> (
        if loc.type_id >= types@.len() {
            r == Err::<PrefixAction, DebuggerError>(DebuggerError::InvalidPath)
        } else {
            match types@[loc.type_id as int] {
                Type::Pointer(sub) => r == Ok::<PrefixAction, DebuggerError>(
                    PrefixAction::Deref(loc, sub, (remaining - 1) as usize),
                ),
                Type::Const(sub) => r == Ok::<PrefixAction, DebuggerError>(
                    PrefixAction::Advance(
                        TypedValueLoc { location: loc.location, type_id: sub },
                        remaining,
                    ),
                ),
                Type::Volatile(sub) => r == Ok::<PrefixAction, DebuggerError>(
                    PrefixAction::Advance(
                        TypedValueLoc { location: loc.location, type_id: sub },
                        remaining,
                    ),
                ),
                Type::Atomic(sub) => r == Ok::<PrefixAction, DebuggerError>(
                    PrefixAction::Advance(
                        TypedValueLoc { location: loc.location, type_id: sub },
                        remaining,
                    ),
                ),
                Type::Typedef(_, sub) => r == Ok::<PrefixAction, DebuggerError>(
                    PrefixAction::Advance(
                        TypedValueLoc { location: loc.location, type_id: sub },
                        remaining,
                    ),
                ),
                _ => r == Err::<PrefixAction, DebuggerError>(DebuggerError::InvalidPath),
            }
        }),
{
    if remaining == 0 {
        return Ok(PrefixAction::Done(loc));
    }
    match ops[remaining - 1] {
        crate::path::PrefixOperator::Ref => {
            match loc.location {
                ValueLoc::Address(address) => Ok(PrefixAction::TakeRef(address, remaining - 1)),
                _ => Err(DebuggerError::InvalidPath),
            }
        },
        crate::path::PrefixOperator::Deref => {
            let t = match types.get(loc.type_id) {
                Ok(t) => t,
                Err(_) => {
                    return Err(DebuggerError::InvalidPath);
                },
            };
            match t {
                Type::Pointer(sub) => Ok(PrefixAction::Deref(loc, *sub, remaining - 1)),
                Type::Const(sub) | Type::Volatile(sub) | Type::Atomic(sub) | Type::Typedef(
                    _,
                    sub,
                ) => Ok(PrefixAction::Advance(loc.with_type(*sub), remaining)),
                _ => Err(DebuggerError::InvalidPath),
            }
        },
    }
}

/// The first variant with this name, as `set` resolves an enum value.
pub open spec fn variant_by_name(variants: Seq<EnumVariant>, name: Seq<char>) -> Option<i64>
    decreases variants.len(),
{
    if variants.len() == 0 {
        None
    } else if variants[0].name@ == name {
        Some(variants[0].value)
    } else {
        variant_by_name(variants.skip(1), name)
    }
}

/// What the `set` command needs done for a value written as `text`.
#[derive(Debug, Clone, PartialEq, Eq)]
pub enum SetPlan {
    /// Write these bytes at the resolved location.
    Bytes(Vec<u8>),
    /// Allocate this string in the tracee first, then finish with
    /// `set_cstring_finish`.
    AllocCString(String),
    /// The scalar is a float of this size: the controller encodes it.
    FloatBytes(usize),
}

/// Decide what bytes a `set PATH text` writes for a value of the given
/// type: integers parse per target width, booleans as `true`/`false`,
/// pointers as `null` or hex, strings as JSON-escaped literals to
/// allocate, enums by variant name, function pointers by resolvable
/// name.
pub fn plan_set(
    types: &TypeStorage,
    loc_finder: &LocFinder,
    type_id: TypeId,
    text: &str,
) -> (r: Result<SetPlan, DebuggerError>)
    requires
        loc_finder.wf(),
    ensures
        ({
            let resolved = crate::types::unwind_id_spec(
                types@,
                type_id as int,
                types@.len() as nat,
            );
            resolved matches Ok(rid) ==> match types@[rid] {
                Type::Base { encoding, size, .. } => (((encoding == TypeEncoding::Unsigned
                    || encoding == TypeEncoding::UnsignedChar) && 1 <= size <= 8
                    && all_dec_digits(text@) && text@.len() > 0 && dec_value(text@) < pow256(
                    size as int,
                )) ==> (r matches Ok(p) && p matches SetPlan::Bytes(bytes) && le_value(bytes@)
                    == dec_value(text@) && bytes@.len() == size)) && (((encoding
                    == TypeEncoding::Signed || encoding == TypeEncoding::SignedChar) && 1 <= size
                    <= 8 && all_dec_digits(text@) && text@.len() > 0 && dec_value(text@) < pow256(
                    size as int,
                ) / 2) ==> (r matches Ok(p) && p matches SetPlan::Bytes(bytes)
                    && crate::codec::sign_of(le_value(bytes@), size as int) == dec_value(text@)
                    && bytes@.len() == size)) && (((encoding == TypeEncoding::Signed || encoding
                    == TypeEncoding::SignedChar) && 1 <= size <= 8 && text@.len() > 1 && text@[0]
                    == '-' && all_dec_digits(text@.skip(1)) && dec_value(text@.skip(1)) <= pow256(
                    size as int,
                ) / 2) ==> (r matches Ok(p) && p matches SetPlan::Bytes(bytes)
                    && crate::codec::sign_of(le_value(bytes@), size as int) == -dec_value(
                    text@.skip(1),
                ) && bytes@.len() == size)) && ((encoding == TypeEncoding::Boolean && 1 <= size
                    <= 8 && text@ == "true"@) ==> (r matches Ok(p) && p matches SetPlan::Bytes(
                    bytes,
                ) && le_value(bytes@) == 1 && bytes@.len() == 1)) && ((encoding
                    == TypeEncoding::Boolean && 1 <= size <= 8 && text@ == "false"@) ==> (
                r matches Ok(p) && p matches SetPlan::Bytes(bytes) && le_value(bytes@) == 0
                    && bytes@.len() == 1)) && ((encoding == TypeEncoding::Boolean && text@
                    != "true"@ && text@ != "false"@) ==> r == Err::<SetPlan, DebuggerError>(
                    DebuggerError::InvalidValue,
                )),
                Type::Pointer(_) => ((text@ == "null"@) ==> (r matches Ok(p) && p matches
                    SetPlan::Bytes(bytes) && le_value(bytes@) == 0 && bytes@.len() == 8)) && ((
                text@ != "null"@) ==> (match hex_pointer_spec(text@) {
                    Some(v) => r matches Ok(p) && p matches SetPlan::Bytes(bytes) && le_value(
                        bytes@,
                    ) == v && bytes@.len() == 8,
                    None => r == Err::<SetPlan, DebuggerError>(DebuggerError::InvalidValue),
                })),
                Type::CString(_) => (match crate::string_parser::json_literal_spec(text@) {
                    Ok(content) => r matches Ok(p) && p matches SetPlan::AllocCString(s) && s@
                        == content,
                    Err(_) => r == Err::<SetPlan, DebuggerError>(DebuggerError::InvalidValue),
                }),
                Type::Enum { encoding, size, variants, .. } => (if !(1 <= size <= 8) {
                    r == Err::<SetPlan, DebuggerError>(DebuggerError::InvalidValue)
                } else {
                    match variant_by_name(variants@, text@) {
                        None => r == Err::<SetPlan, DebuggerError>(DebuggerError::InvalidValue),
                        Some(v) => if encoding == TypeEncoding::Signed {
                            if -(pow256(size as int) / 2) <= v && (v as int) < pow256(
                                size as int,
                            ) / 2 {
                                r matches Ok(p) && p matches SetPlan::Bytes(bytes) && bytes@.len()
                                    == size && crate::codec::sign_of(
                                    le_value(bytes@),
                                    size as int,
                                ) == v
                            } else {
                                r == Err::<SetPlan, DebuggerError>(DebuggerError::InvalidValue)
                            }
                        } else if encoding == TypeEncoding::Unsigned {
                            if 0 <= v && (v as int) < pow256(size as int) {
                                r matches Ok(p) && p matches SetPlan::Bytes(bytes) && bytes@.len()
                                    == size && le_value(bytes@) == v
                            } else {
                                r == Err::<SetPlan, DebuggerError>(DebuggerError::InvalidValue)
                            }
                        } else {
                            r == Err::<SetPlan, DebuggerError>(DebuggerError::InvalidValue)
                        },
                    }
                }),
                Type::Func(_) => (if loc_finder.locations_spec().dom().contains(text@) {
                    r matches Ok(p) && p matches SetPlan::Bytes(bytes) && bytes@.len() == 8
                        && le_value(bytes@) == loc_finder.locations_spec()[text@]
                } else {
                    r == Err::<SetPlan, DebuggerError>(DebuggerError::InvalidValue)
                }),
                _ => true,
            }
        }),
{
    proof {
        lemma_pow256_values();
    }
    let t = match types.unwind_type(type_id) {
        Ok(t) => t,
        Err(_) => {
            return Err(DebuggerError::InvalidPath);
        },
    };
    match t {
        Type::Base { encoding, size, .. } => {
            let size = *size as usize;
            if size < 1 || size > 8 {
                return Err(DebuggerError::InvalidValue);
            }
            proof {
                lemma_pow256_values();
            }
            match encoding {
                TypeEncoding::Boolean => {
                    proof {
                        reveal_strlit("true");
                        reveal_strlit("false");
                    }
                    if str_eq(text, "true") {
                        let b = encode_u64_le(1, 1);
                        proof {
                            reveal_strlit("true");
                            reveal_strlit("false");
                            assert("true"@.len() == 4);
                            assert("false"@.len() == 5);
                            assert(text@ != "false"@);
                        }
                        Ok(SetPlan::Bytes(b))
                    } else if str_eq(text, "false") {
                        Ok(SetPlan::Bytes(encode_u64_le(0, 1)))
                    } else {
                        Err(DebuggerError::InvalidValue)
                    }
                },
                TypeEncoding::Signed | TypeEncoding::SignedChar => {
                    match parse_i64_in_width(text, size) {
                        Some(v) => Ok(SetPlan::Bytes(encode_i64_le(v, size))),
                        None => Err(DebuggerError::InvalidValue),
                    }
                },
                TypeEncoding::Unsigned | TypeEncoding::UnsignedChar => {
                    match parse_u64(text) {
                        Some(v) => {
                            let limit_ok = size == 8 || v < pow256_u64(size);
                            if limit_ok {
                                Ok(SetPlan::Bytes(encode_u64_le(v, size)))
                            } else {
                                Err(DebuggerError::InvalidValue)
                            }
                        },
                        None => Err(DebuggerError::InvalidValue),
                    }
                },
                TypeEncoding::Float => Ok(SetPlan::FloatBytes(size)),
                TypeEncoding::Other => Err(DebuggerError::InvalidValue),
            }
        },
        Type::Pointer(_) => {
            proof {
                reveal_strlit("null");
            }
            if str_eq(text, "null") {
                return Ok(SetPlan::Bytes(encode_u64_le(0, 8)));
            }
            match parse_hex_pointer(text) {
                Some(p) => Ok(SetPlan::Bytes(encode_u64_le(p, 8))),
                None => Err(DebuggerError::InvalidValue),
            }
        },
        Type::CString(_) => {
            match parse_json_string_literal(text) {
                Ok(s) => Ok(SetPlan::AllocCString(s)),
                Err(_) => Err(DebuggerError::InvalidValue),
            }
        },
        Type::Enum { encoding, size, variants, .. } => {
            let size = *size as usize;
            if size < 1 || size > 8 {
                return Err(DebuggerError::InvalidValue);
            }
            let v = match variant_value_by_name(variants, text) {
                Some(v) => v,
                None => {
                    return Err(DebuggerError::InvalidValue);
                },
            };
            proof {
                lemma_pow256_values();
            }
            match encoding {
                TypeEncoding::Signed => {
                    if in_signed_width(v, size) {
                        Ok(SetPlan::Bytes(encode_i64_le(v, size)))
                    } else {
                        Err(DebuggerError::InvalidValue)
                    }
                },
                TypeEncoding::Unsigned => {
                    if v >= 0 && (size == 8 || (v as u64) < pow256_u64(size)) {
                        Ok(SetPlan::Bytes(encode_u64_le(v as u64, size)))
                    } else {
                        Err(DebuggerError::InvalidValue)
                    }
                },
                _ => Err(DebuggerError::InvalidValue),
            }
        },
        Type::Func(_) => {
            match loc_finder.find_loc(text) {
                Some(addr) => Ok(SetPlan::Bytes(encode_u64_le(addr, 8))),
                None => Err(DebuggerError::InvalidValue),
            }
        },
        _ => Err(DebuggerError::InvalidPath),
    }
}

pub proof fn lemma_variant_by_name_at(variants: Seq<EnumVariant>, name: Seq<char>, k: int)
    requires
        0 <= k < variants.len(),
        variants[k].name@ == name,
        forall|j: int| 0 <= j < k ==> (#[trigger] variants[j]).name@ != name,
    ensures
        variant_by_name(variants, name) == Some(variants[k].value),
    decreases k,
{
    if k > 0 {
        assert forall|j: int| 0 <= j < k - 1 implies (#[trigger] variants.skip(1)[j]).name@
            != name by {
            assert(variants.skip(1)[j] == variants[j + 1]);
        }
        assert(variants.skip(1)[k - 1] == variants[k]);
        lemma_variant_by_name_at(variants.skip(1), name, k - 1);
    }
}

pub proof fn lemma_variant_by_name_absent(variants: Seq<EnumVariant>, name: Seq<char>)
    requires
        forall|j: int| 0 <= j < variants.len() ==> (#[trigger] variants[j]).name@ != name,
    ensures
        variant_by_name(variants, name) is None,
    decreases variants.len(),
{
    if variants.len() > 0 {
        assert forall|j: int|
            0 <= j < variants.skip(1).len() implies (#[trigger] variants.skip(1)[j]).name@
            != name by {
            assert(variants.skip(1)[j] == variants[j + 1]);
        }
        lemma_variant_by_name_absent(variants.skip(1), name);
    }
}

/// Value of the first variant whose name is `text`.
fn variant_value_by_name(variants: &Vec<EnumVariant>, text: &str) -> (r: Option<i64>)
    ensures
        r == variant_by_name(variants@, text@),
{
    let m = variants.len();
    let mut i: usize = 0;
    while i < m
        invariant
            m == variants@.len(),
            i <= m,
            forall|j: int| 0 <= j < i ==> (#[trigger] variants@[j]).name@ != text@,
        decreases m - i,
    {
        if str_eq(variants[i].name.as_str(), text) {
            proof {
                lemma_variant_by_name_at(variants@, text@, i as int);
            }
            return Some(variants[i].value);
        }
        i = i + 1;
    }
    proof {
        lemma_variant_by_name_absent(variants@, text@);
    }
    None
}

/// After the tracee-side allocation: the new string's address is the
/// pointer value to write.
pub fn set_cstring_finish(addr: u64) -> (r: Vec<u8>)
    ensures
        r@.len() == 8,
        le_value(r@) == addr as int,
{
    proof {
        lemma_pow256_values();
    }
    encode_u64_le(addr, 8)
}

fn pow256_u64(size: usize) -> (r: u64)
    requires
        1 <= size <= 7,
    ensures
        r as int == pow256(size as int),
{
    proof {
        lemma_pow256_values();
    }
    match size {
        1 => 0x100,
        2 => 0x10000,
        3 => 0x1000000,
        4 => 0x100000000,
        5 => 0x10000000000,
        6 => 0x1000000000000,
        _ => 0x100000000000000,
    }
}

fn in_signed_width(v: i64, size: usize) -> (r: bool)
    requires
        1 <= size <= 8,
    ensures
        r == (-(pow256(size as int) / 2) <= v as int && (v as int) < pow256(size as int) / 2),
{
    proof {
        lemma_pow256_values();
    }
    if size == 8 {
        true
    } else {
        let half = pow256_u64(size) / 2;
        v >= -(half as i64) && v < (half as i64)
    }
}

/// Parse a signed decimal and check it fits the width.
fn parse_i64_in_width(text: &str, size: usize) -> (r: Option<i64>)
    requires
        1 <= size <= 8,
    ensures
        r matches Some(v) ==> (-(pow256(size as int) / 2) <= (v as int) && (v as int) < pow256(
            size as int,
        ) / 2),
        r matches Some(v) ==> (if text@.len() > 0 && text@[0] == '-' {
            v as int == -dec_value(text@.skip(1))
        } else {
            v as int == dec_value(text@)
        }),
        (text@.len() > 0 && all_dec_digits(text@) && dec_value(text@) < pow256(size as int) / 2)
            ==> r is Some,
        (text@.len() > 1 && text@[0] == '-' && all_dec_digits(text@.skip(1)) && dec_value(
            text@.skip(1),
        ) <= pow256(size as int) / 2) ==> r is Some,
{
    proof {
        lemma_pow256_values();
        if text@.len() > 0 && all_dec_digits(text@) {
            assert(crate::text::is_dec_digit(text@[0]));
        }
    }
    let chars = crate::text::string_to_chars(text);
    if chars.len() == 0 {
        return None;
    }
    let negative = chars[0] == '-';
    if negative {
        let rest = make_suffix(&chars, 1);
        match parse_u64(rest.as_str()) {
            Some(mag) => {
                if mag > 0x8000000000000000 {
                    return None;
                }
                let v: i64 = if mag == 0x8000000000000000 {
                    i64::MIN
                } else {
                    -(mag as i64)
                };
                if in_signed_width(v, size) {
                    Some(v)
                } else {
                    None
                }
            },
            None => None,
        }
    } else {
        match parse_u64(text) {
            Some(mag) => {
                if mag > i64::MAX as u64 {
                    return None;
                }
                let v = mag as i64;
                if in_signed_width(v, size) {
                    Some(v)
                } else {
                    None
                }
            },
            None => None,
        }
    }
}

fn make_suffix(chars: &Vec<char>, from: usize) -> (r: String)
    requires
        from <= chars@.len(),
    ensures
        r@ == chars@.skip(from as int),
{
    let mut out: Vec<char> = Vec::new();
    let n = chars.len();
    let mut i: usize = from;
    while i < n
        invariant
            from <= i <= n,
            n == chars@.len(),
            out@ =~= chars@.subrange(from as int, i as int),
        decreases n - i,
    {
        out.push(chars[i]);
        i = i + 1;
        proof {
            assert(out@ =~= chars@.subrange(from as int, i as int));
        }
    }
    proof {
        assert(chars@.subrange(from as int, n as int) =~= chars@.skip(from as int));
    }
    crate::text::chars_to_string(out)
}

/// A hex pointer text with its optional `0x` prefix stripped.
pub open spec fn hex_body_of(t: Seq<char>) -> Seq<char> {
    if t.len() >= 2 && t[0] == '0' && t[1] == 'x' {
        t.skip(2)
    } else {
        t
    }
}

pub open spec fn all_hex_digits(s: Seq<char>) -> bool {
    forall|i: int| 0 <= i < s.len() ==> crate::text::is_hex_digit(#[trigger] s[i])
}

/// The pointer value a `set` text denotes in hex: an optional `0x`
/// prefix, then hex digits that fit a word.
pub open spec fn hex_pointer_spec(t: Seq<char>) -> Option<int> {
    if hex_body_of(t).len() > 0 && all_hex_digits(hex_body_of(t)) && crate::text::hex_seq_value_of(
        hex_body_of(t),
    ) <= u64::MAX {
        Some(crate::text::hex_seq_value_of(hex_body_of(t)))
    } else {
        None
    }
}

/// Parse a pointer value: optional `0x` prefix, hex digits.
#[verifier::loop_isolation(false)]
fn parse_hex_pointer(text: &str) -> (r: Option<u64>)
    ensures
        match hex_pointer_spec(text@) {
            Some(v) => 0 <= v <= u64::MAX && r == Some(v as u64),
            None => r is None,
        },
{
    let chars = crate::text::string_to_chars(text);
    let n = chars.len();
    let start: usize = if n >= 2 && chars[0] == '0' && chars[1] == 'x' {
        2
    } else {
        0
    };
    let ghost body = hex_body_of(text@);
    proof {
        assert(text@.skip(0) =~= text@);
        assert(body =~= text@.skip(start as int));
        assert forall|j: int| 0 <= j < body.len() implies body[j] == text@[start + j] by {}
    }
    if start >= n {
        proof {
            assert(body.len() == 0);
        }
        return None;
    }
    let mut v: u64 = 0;
    let mut i: usize = start;
    proof {
        assert(text@.subrange(start as int, start as int) =~= Seq::<char>::empty());
    }
    while i < n
        invariant
            start <= i <= n,
            forall|j: int| start <= j < i ==> crate::text::is_hex_digit(#[trigger] text@[j]),
            v as int == crate::text::hex_seq_value_of(text@.subrange(start as int, i as int)),
        decreases n - i,
    {
        let c = chars[i];
        if !crate::text::hex_digit(c) {
            proof {
                assert(body[(i - start) as int] == text@[i as int]);
                assert(!all_hex_digits(body));
            }
            return None;
        }
        proof {
            let sub = text@.subrange(start as int, i + 1);
            assert(sub.drop_last() =~= text@.subrange(start as int, i as int));
            assert(sub.last() == text@[i as int]);
            assert(text@[i as int] == c);
            assert(body.subrange(0, (i - start) + 1) =~= sub);
        }
        let d = crate::text::hex_digit_value(c);
        if v > u64::MAX / 16 {
            proof {
                // every longer prefix holds at least this value, so the
                // whole body overflows a word wherever it is all digits
                if all_hex_digits(body) {
                    assert(crate::text::hex_seq_value_of(body.subrange(0, (i - start) + 1)) == (
                    v as int) * 16 + d);
                    crate::text::lemma_hex_seq_value_grows(body, (i - start) + 1, body.len() as int);
                    assert(body.subrange(0, body.len() as int) =~= body);
                    assert(crate::text::hex_seq_value_of(body) > u64::MAX);
                }
            }
            return None;
        }
        let shifted = v * 16;
        if (d as u64) > u64::MAX - shifted {
            proof {
                if all_hex_digits(body) {
                    assert(crate::text::hex_seq_value_of(body.subrange(0, (i - start) + 1)) == (
                    v as int) * 16 + d);
                    crate::text::lemma_hex_seq_value_grows(body, (i - start) + 1, body.len() as int);
                    assert(body.subrange(0, body.len() as int) =~= body);
                    assert(crate::text::hex_seq_value_of(body) > u64::MAX);
                }
            }
            return None;
        }
        v = shifted + (d as u64);
        i = i + 1;
    }
    proof {
        assert(text@.subrange(start as int, n as int) =~= body);
        assert forall|j: int| 0 <= j < body.len() implies crate::text::is_hex_digit(
            #[trigger] body[j]) by {
            assert(body[j] == text@[start + j]);
        }
        assert(all_hex_digits(body));
    }
    Some(v)
}

} // verus!
