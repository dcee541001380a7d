use vstd::prelude::*;
use crate::loc_finder::EntryRef;

verus! {

pub type TypeId = usize;

/// Identifier of the distinguished `Void` slot every store starts with.
pub const VOID_TYPE_ID: TypeId = 0;

#[derive(Debug, Clone, PartialEq, Eq)]
pub enum TypeError {
    InvalidTypeId(TypeId),
    /// The type has no size (`Void`, a function definition, an array of
    /// unresolved length).
    NoSize(TypeId),
    /// Qualifier or alias chains that come back to themselves.
    CyclicType(TypeId),
}

/// DWARF base-type encodings the debugger understands.
#[derive(Debug, Clone, Copy, PartialEq, Eq, Structural)]
pub enum TypeEncoding {
    Boolean,
    Float,
    Signed,
    SignedChar,
    Unsigned,
    UnsignedChar,
    Other,
}

#[derive(Debug, Clone)]
pub struct Field {
    pub name: String,
    pub type_id: TypeId,
    pub offset: u16,
}

#[derive(Debug, Clone)]
pub struct EnumVariant {
    pub name: String,
    pub value: i64,
}

#[derive(Debug, Clone)]
pub struct UnionField {
    pub name: String,
    pub type_id: TypeId,
}

/// Number of elements of an array type: known at parse time, recoverable
/// from a DWARF expression later, or absent (a flexible array member).
#[derive(Debug, Clone)]
pub enum ArrayCount {
    Static(usize),
    Dynamic(EntryRef),
    Flexible,
}

/// A node of the type graph.  Nodes refer to each other by `TypeId`, which
/// lets the graph hold cycles (a struct pointing to itself) while the
/// store stays a flat vector.
#[derive(Debug, Clone)]
pub enum Type {
    Void,
    Base { name: String, encoding: TypeEncoding, size: u16 },
    Const(TypeId),
    Volatile(TypeId),
    Atomic(TypeId),
    Pointer(TypeId),
    /// Pointer to a signed-char base type: a C NUL-terminated string.
    CString(TypeId),
    Array { subtype_id: TypeId, count: ArrayCount },
    Struct { name: Option<String>, size: u16, fields: Vec<Field> },
    Enum { name: Option<String>, encoding: TypeEncoding, size: u16, variants: Vec<EnumVariant> },
    Union { name: Option<String>, size: u16, fields: Vec<UnionField> },
    Typedef(String, TypeId),
    FuncDef { name: Option<String>, return_type_id: TypeId, args: Vec<TypeId> },
    /// Pointer to a function definition.
    Func(TypeId),
}

/// The first struct member with this name, as `.field` selects it.
pub open spec fn field_by_name(fields: Seq<Field>, name: Seq<char>) -> Option<Field>
    decreases fields.len(),
{
    if fields.len() == 0 {
        None
    } else if fields[0].name@ == name {
        Some(fields[0])
    } else {
        field_by_name(fields.skip(1), name)
    }
}

pub proof fn lemma_field_by_name_first(fields: Seq<Field>, name: Seq<char>, k: int)
    requires
        0 <= k < fields.len(),
        fields[k].name@ == name,
        forall|j: int| 0 <= j < k ==> (#[trigger] fields[j]).name@ != name,
    ensures
        field_by_name(fields, name) == Some(fields[k]),
    decreases k,
{
    if k > 0 {
        assert forall|j: int| 0 <= j < k - 1 implies (#[trigger] fields.skip(1)[j]).name@
            != name by {
            assert(fields.skip(1)[j] == fields[j + 1]);
        }
        assert(fields.skip(1)[k - 1] == fields[k]);
        lemma_field_by_name_first(fields.skip(1), name, k - 1);
    }
}

pub proof fn lemma_field_by_name_none(fields: Seq<Field>, name: Seq<char>)
    requires
        forall|j: int| 0 <= j < fields.len() ==> (#[trigger] fields[j]).name@ != name,
    ensures
        field_by_name(fields, name) is None,
    decreases fields.len(),
{
    if fields.len() > 0 {
        assert forall|j: int|
            0 <= j < fields.skip(1).len() implies (#[trigger] fields.skip(1)[j]).name@ != name by {
            assert(fields.skip(1)[j] == fields[j + 1]);
        }
        lemma_field_by_name_none(fields.skip(1), name);
    }
}

/// The first union member with this name.
pub open spec fn union_field_by_name(fields: Seq<UnionField>, name: Seq<char>) -> Option<
    UnionField,
>
    decreases fields.len(),
{
    if fields.len() == 0 {
        None
    } else if fields[0].name@ == name {
        Some(fields[0])
    } else {
        union_field_by_name(fields.skip(1), name)
    }
}

pub proof fn lemma_union_field_by_name_first(fields: Seq<UnionField>, name: Seq<char>, k: int)
    requires
        0 <= k < fields.len(),
        fields[k].name@ == name,
        forall|j: int| 0 <= j < k ==> (#[trigger] fields[j]).name@ != name,
    ensures
        union_field_by_name(fields, name) == Some(fields[k]),
    decreases k,
{
    if k > 0 {
        assert forall|j: int| 0 <= j < k - 1 implies (#[trigger] fields.skip(1)[j]).name@
            != name by {
            assert(fields.skip(1)[j] == fields[j + 1]);
        }
        assert(fields.skip(1)[k - 1] == fields[k]);
        lemma_union_field_by_name_first(fields.skip(1), name, k - 1);
    }
}

pub proof fn lemma_union_field_by_name_none(fields: Seq<UnionField>, name: Seq<char>)
    requires
        forall|j: int| 0 <= j < fields.len() ==> (#[trigger] fields[j]).name@ != name,
    ensures
        union_field_by_name(fields, name) is None,
    decreases fields.len(),
{
    if fields.len() > 0 {
        assert forall|j: int|
            0 <= j < fields.skip(1).len() implies (#[trigger] fields.skip(1)[j]).name@ != name by {
            assert(fields.skip(1)[j] == fields[j + 1]);
        }
        lemma_union_field_by_name_none(fields.skip(1), name);
    }
}

/// The qualifier or alias a node forwards to, if it is one.
pub open spec fn forward_of(t: Type) -> Option<TypeId> {
    match t {
        Type::Const(sub) => Some(sub),
        Type::Volatile(sub) => Some(sub),
        Type::Atomic(sub) => Some(sub),
        Type::Typedef(_, sub) => Some(sub),
        _ => None,
    }
}

/// Where qualifier unwinding from `id` ends, given at most `fuel` steps.
pub open spec fn unwind_id_spec(s: Seq<Type>, id: int, fuel: nat) -> Result<int, TypeError>
    decreases fuel,
{
    if !(0 <= id < s.len()) {
        Err(TypeError::InvalidTypeId(id as usize))
    } else {
        match forward_of(s[id]) {
            Some(sub) => if fuel == 0 {
                Err(TypeError::CyclicType(id as usize))
            } else {
                unwind_id_spec(s, sub as int, (fuel - 1) as nat)
            },
            None => Ok(id),
        }
    }
}

/// Size in bytes of the type at `id`, with at most `fuel` indirections.
pub open spec fn size_of_spec(s: Seq<Type>, id: int, fuel: nat) -> Result<int, TypeError>
    decreases fuel,
{
    if !(0 <= id < s.len()) {
        Err(TypeError::InvalidTypeId(id as usize))
    } else {
        match s[id] {
            Type::Void => Err(TypeError::NoSize(id as usize)),
            Type::FuncDef { .. } => Err(TypeError::NoSize(id as usize)),
            Type::Base { size, .. } => Ok(size as int),
            Type::Struct { size, .. } => Ok(size as int),
            Type::Enum { size, .. } => Ok(size as int),
            Type::Union { size, .. } => Ok(size as int),
            Type::Pointer(_) => Ok(crate::consts::WORD_SIZE as int),
            Type::CString(_) => Ok(crate::consts::WORD_SIZE as int),
            Type::Func(_) => Ok(crate::consts::WORD_SIZE as int),
            Type::Const(sub) | Type::Volatile(sub) | Type::Atomic(sub) | Type::Typedef(
                _,
                sub,
            ) => if fuel == 0 {
                Err(TypeError::CyclicType(id as usize))
            } else {
                size_of_spec(s, sub as int, (fuel - 1) as nat)
            },
            Type::Array { subtype_id, count } => match count {
                ArrayCount::Static(n) => if fuel == 0 {
                    Err(TypeError::CyclicType(id as usize))
                } else {
                    match size_of_spec(s, subtype_id as int, (fuel - 1) as nat) {
                        Ok(es) => if n * es <= usize::MAX as int {
                            Ok(n * es)
                        } else {
                            Err(TypeError::NoSize(id as usize))
                        },
                        Err(e) => Err(e),
                    }
                },
                _ => Err(TypeError::NoSize(id as usize)),
            },
        }
    }
}

/// Append-only store of type nodes keyed by `TypeId`.  Slot `0` is always
/// `Void`; identifiers are stable for the life of the session.
#[derive(Debug)]
pub struct TypeStorage {
    types: Vec<Type>,
}

impl TypeStorage {
    pub closed spec fn view(&self) -> Seq<Type> {
        self.types@
    }

    pub fn new() -> (r: Self)
        ensures
            r@.len() == 1,
            r@[0] is Void,
    {
        let mut types: Vec<Type> = Vec::new();
        types.push(Type::Void);
        TypeStorage { types }
    }

    /// Append a node, returning its fresh identifier.
    pub fn add(&mut self, typ: Type) -> (r: TypeId)
        ensures
            final(self)@ == old(self)@.push(typ),
            r == old(self)@.len(),
    {
        self.types.push(typ);
        self.types.len() - 1
    }

    /// Complete a reserved slot (the parser's cycle-break protocol).
    pub fn replace(&mut self, type_id: TypeId, typ: Type) -> (r: Result<(), TypeError>)
        ensures
            type_id < old(self)@.len() ==> (r is Ok && final(self)@ == old(self)@.update(
                type_id as int,
                typ,
            )),
            type_id >= old(self)@.len() ==> (r == Err::<(), TypeError>(
                TypeError::InvalidTypeId(type_id),
            ) && final(self)@ == old(self)@),
    {
        if type_id < self.types.len() {
            self.types.set(type_id, typ);
            Ok(())
        } else {
            Err(TypeError::InvalidTypeId(type_id))
        }
    }

    pub fn get(&self, type_id: TypeId) -> (r: Result<&Type, TypeError>)
        ensures
            type_id < self@.len() ==> (r matches Ok(t) && *t == self@[type_id as int]),
            type_id >= self@.len() ==> r == Err::<&Type, TypeError>(
                TypeError::InvalidTypeId(type_id),
            ),
    {
        if type_id < self.types.len() {
            Ok(&self.types[type_id])
        } else {
            Err(TypeError::InvalidTypeId(type_id))
        }
    }

    /// Strip `const`, `volatile`, `_Atomic` and typedef aliases down to
    /// the underlying type.  A chain longer than the store is circular and
    /// reported as such (the store cannot hold an acyclic chain that long).
    pub fn unwind_type(&self, type_id: TypeId) -> (r: Result<&Type, TypeError>)
        ensures
            match unwind_id_spec(self@, type_id as int, self@.len() as nat) {
                Ok(rid) => r matches Ok(t) && 0 <= rid < self@.len() && *t == self@[rid]
                    && forward_of(self@[rid]) is None,
                Err(e) => r == Err::<&Type, TypeError>(e),
            },
    {
        let mut id = type_id;
        let mut fuel = self.types.len();
        loop
            invariant
                unwind_id_spec(self@, type_id as int, self@.len() as nat) == unwind_id_spec(
                    self@,
                    id as int,
                    fuel as nat,
                ),
                fuel <= self@.len(),
            decreases fuel,
        {
            if id >= self.types.len() {
                return Err(TypeError::InvalidTypeId(id));
            }
            match &self.types[id] {
                Type::Const(sub) | Type::Volatile(sub) | Type::Atomic(sub) | Type::Typedef(
                    _,
                    sub,
                ) => {
                    if fuel == 0 {
                        return Err(TypeError::CyclicType(id));
                    }
                    fuel = fuel - 1;
                    id = *sub;
                },
                _ => {
                    return Ok(&self.types[id]);
                },
            }
        }
    }

    /// Size in bytes of the type at `type_id`.  Qualifiers and arrays are
    /// followed with bounded fuel, so the computation finishes on every
    /// store, cyclic type graphs included.
    pub fn get_type_size(&self, type_id: TypeId) -> (r: Result<usize, TypeError>)
        ensures
            match size_of_spec(self@, type_id as int, self@.len() as nat) {
                Ok(sz) => r matches Ok(got) && got == sz,
                Err(e) => r == Err::<usize, TypeError>(e),
            },
    {
        self.size_of_fuel(type_id, self.types.len())
    }

    fn size_of_fuel(&self, type_id: TypeId, fuel: usize) -> (r: Result<usize, TypeError>)
        ensures
            match size_of_spec(self@, type_id as int, fuel as nat) {
                Ok(sz) => r matches Ok(got) && got == sz,
                Err(e) => r == Err::<usize, TypeError>(e),
            },
        decreases fuel,
    {
        if type_id >= self.types.len() {
            return Err(TypeError::InvalidTypeId(type_id));
        }
        match &self.types[type_id] {
            Type::Void => Err(TypeError::NoSize(type_id)),
            Type::FuncDef { .. } => Err(TypeError::NoSize(type_id)),
            Type::Base { size, .. } => Ok(*size as usize),
            Type::Struct { size, .. } => Ok(*size as usize),
            Type::Enum { size, .. } => Ok(*size as usize),
            Type::Union { size, .. } => Ok(*size as usize),
            Type::Pointer(_) => Ok(crate::consts::WORD_SIZE),
            Type::CString(_) => Ok(crate::consts::WORD_SIZE),
            Type::Func(_) => Ok(crate::consts::WORD_SIZE),
            Type::Const(sub) | Type::Volatile(sub) | Type::Atomic(sub) | Type::Typedef(_, sub) => {
                if fuel == 0 {
                    return Err(TypeError::CyclicType(type_id));
                }
                self.size_of_fuel(*sub, fuel - 1)
            },
            Type::Array { subtype_id, count } => match count {
                ArrayCount::Static(n) => {
                    if fuel == 0 {
                        return Err(TypeError::CyclicType(type_id));
                    }
                    match self.size_of_fuel(*subtype_id, fuel - 1) {
                        Ok(es) => match n.checked_mul(es) {
                            Some(total) => Ok(total),
                            None => Err(TypeError::NoSize(type_id)),
                        },
                        Err(e) => Err(e),
                    }
                },
                _ => Err(TypeError::NoSize(type_id)),
            },
        }
    }

    /// Size in bytes of the array at `type_id` when it has `count`
    /// elements, for arrays whose length only a DWARF expression yields:
    /// the caller evaluates the expression and supplies the count.
    pub fn get_array_size_with(&self, type_id: TypeId, count: usize) -> (r: Result<
        usize,
        TypeError,
    >)
        ensures
            type_id >= self@.len() ==> r == Err::<usize, TypeError>(
                TypeError::InvalidTypeId(type_id),
            ),
            type_id < self@.len() ==> match self@[type_id as int] {
                Type::Array { subtype_id, .. } => match size_of_spec(
                    self@,
                    subtype_id as int,
                    self@.len() as nat,
                ) {
                    Ok(es) => if count * es <= usize::MAX {
                        r == Ok::<usize, TypeError>((count * es) as usize)
                    } else {
                        r == Err::<usize, TypeError>(TypeError::NoSize(type_id))
                    },
                    Err(e) => r == Err::<usize, TypeError>(e),
                },
                _ => r == Err::<usize, TypeError>(TypeError::InvalidTypeId(type_id)),
            },
    {
        let subtype_id = match self.get(type_id) {
            Ok(Type::Array { subtype_id, .. }) => *subtype_id,
            Ok(_) => {
                return Err(TypeError::InvalidTypeId(type_id));
            },
            Err(e) => {
                return Err(e);
            },
        };
        let es = match self.get_type_size(subtype_id) {
            Ok(es) => es,
            Err(e) => {
                return Err(e);
            },
        };
        match count.checked_mul(es) {
            Some(total) => Ok(total),
            None => Err(TypeError::NoSize(type_id)),
        }
    }

    /// Identifier of `Pointer(type_id)`, adding the node if the store does
    /// not hold one yet (used when the `&` operator is applied).  The least
    /// matching slot is returned, so two calls on one store agree even when
    /// the parser left duplicate pointer nodes behind.
    pub fn get_type_ref(&mut self, type_id: TypeId) -> (r: TypeId)
        ensures
            final(self)@ == old(self)@ || final(self)@ == old(self)@.push(Type::Pointer(type_id)),
            r < final(self)@.len() && final(self)@[r as int] == Type::Pointer(type_id),
            forall|j: int| 0 <= j < r ==> final(self)@[j] != Type::Pointer(type_id),
            (exists|i: int|
                0 <= i < old(self)@.len() && old(self)@[i] == Type::Pointer(type_id))
                ==> final(self)@ == old(self)@,
    {
        let n = self.types.len();
        let mut i: usize = 0;
        while i < n
            invariant
                n == self@.len(),
                i <= n,
                forall|j: int| 0 <= j < i ==> self@[j] != Type::Pointer(type_id),
            decreases n - i,
        {
            let hit = match &self.types[i] {
                Type::Pointer(sub) => *sub == type_id,
                _ => false,
            };
            if hit {
                return i;
            }
            proof {
                if self@[i as int] == Type::Pointer(type_id) {
                    assert(false);
                }
            }
            i = i + 1;
        }
        self.types.push(Type::Pointer(type_id));
        self.types.len() - 1
    }
}

} // verus!
