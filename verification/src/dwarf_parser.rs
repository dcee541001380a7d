use vstd::prelude::*;
use crate::loc_finder::{EntryRef, LocFinder, VarRef};
use crate::tables::U64Map;
use crate::types::{ArrayCount, EnumVariant, Field, Type, TypeEncoding, TypeId, TypeStorage,
    UnionField, VOID_TYPE_ID};

verus! {

/// The DWARF entry tags the debugger reads.
#[derive(Debug, Clone, Copy, PartialEq, Eq, Structural)]
pub enum DieTag {
    CompileUnit,
    Subprogram,
    Variable,
    FormalParameter,
    BaseType,
    ConstType,
    VolatileType,
    AtomicType,
    PointerType,
    ArrayType,
    SubrangeType,
    StructureType,
    EnumerationType,
    Enumerator,
    UnionType,
    Member,
    Typedef,
    SubroutineType,
    Other,
}

/// `DW_AT_high_pc` comes as an absolute address or as a size relative to
/// the low pc.
#[derive(Debug, Clone, Copy, PartialEq, Eq, Structural)]
pub enum HighPcAttr {
    Absolute(u64),
    Size(u64),
}

/// `DW_AT_type` is a reference into the same unit, or a form the debugger
/// does not follow.
#[derive(Debug, Clone, Copy, PartialEq, Eq, Structural)]
pub enum TypeRefAttr {
    UnitRef(usize),
    Unsupported,
}

/// One debugging information entry, reduced to the attributes the parser
/// reads.  `children` are indices into the unit's node vector.
#[derive(Debug, Clone)]
pub struct DieNode {
    pub tag: DieTag,
    pub offset: usize,
    pub name: Option<String>,
    pub low_pc: Option<u64>,
    pub high_pc: Option<HighPcAttr>,
    pub byte_size: Option<u64>,
    pub encoding: Option<u16>,
    pub type_ref: Option<TypeRefAttr>,
    pub count: Option<u64>,
    pub lower_bound: Option<u64>,
    pub upper_bound: Option<u64>,
    pub data_member_location: Option<u64>,
    pub const_value: Option<i64>,
    pub children: Vec<usize>,
}

/// One compile unit's entries; node `0` is the unit's root entry.
#[derive(Debug, Clone)]
pub struct UnitDies {
    pub unit_offset: usize,
    pub nodes: Vec<DieNode>,
}

/// One row of the line program, with the file path already materialized.
#[derive(Debug, Clone)]
pub struct LineRow {
    pub unit_offset: usize,
    pub filepath: String,
    pub line: Option<u64>,
    pub address: u64,
    pub end_sequence: bool,
}

/// Structural failures while digesting the debug information.
#[derive(Debug, Clone, PartialEq, Eq, Structural)]
pub enum DwarfError {
    MissingAttr,
    UnknownType,
    UnexpectedTag,
    BadValue,
    Overflow,
    CyclicType,
}

/// DWARF base-type encoding numbers the debugger understands.
pub open spec fn encoding_of_spec(ate: u16) -> TypeEncoding {
    if ate == 2 {
        TypeEncoding::Boolean
    } else if ate == 4 {
        TypeEncoding::Float
    } else if ate == 5 {
        TypeEncoding::Signed
    } else if ate == 6 {
        TypeEncoding::SignedChar
    } else if ate == 7 {
        TypeEncoding::Unsigned
    } else if ate == 8 {
        TypeEncoding::UnsignedChar
    } else {
        TypeEncoding::Other
    }
}

pub fn encoding_of(ate: u16) -> (r: TypeEncoding)
    ensures
        r == encoding_of_spec(ate),
{
    if ate == 2 {
        TypeEncoding::Boolean
    } else if ate == 4 {
        TypeEncoding::Float
    } else if ate == 5 {
        TypeEncoding::Signed
    } else if ate == 6 {
        TypeEncoding::SignedChar
    } else if ate == 7 {
        TypeEncoding::Unsigned
    } else if ate == 8 {
        TypeEncoding::UnsignedChar
    } else {
        TypeEncoding::Other
    }
}

/// Whether child `j` of this unit's root entry is a subprogram node.
pub open spec fn unit_subprog_at(unit: UnitDies, j: int) -> bool {
    &&& unit.nodes@.len() > 0
    &&& 0 <= j < unit.nodes@[0].children@.len()
    &&& (unit.nodes@[0].children@[j] as int) < unit.nodes@.len()
    &&& unit.nodes@[unit.nodes@[0].children@[j] as int].tag == DieTag::Subprogram
}

pub open spec fn unit_subprog_node(unit: UnitDies, j: int) -> DieNode {
    unit.nodes@[unit.nodes@[0].children@[j] as int]
}

/// Whether child `j` of this unit's root entry is a variable node.
pub open spec fn unit_global_at(unit: UnitDies, j: int) -> bool {
    &&& unit.nodes@.len() > 0
    &&& 0 <= j < unit.nodes@[0].children@.len()
    &&& (unit.nodes@[0].children@[j] as int) < unit.nodes@.len()
    &&& unit.nodes@[unit.nodes@[0].children@[j] as int].tag == DieTag::Variable
}

/// Whether child `j` of unit `u`'s root entry is a subprogram node.
pub open spec fn subprog_at(units: Seq<UnitDies>, u: int, j: int) -> bool {
    0 <= u < units.len() && unit_subprog_at(units[u], j)
}

pub open spec fn subprog_node(units: Seq<UnitDies>, u: int, j: int) -> DieNode {
    unit_subprog_node(units[u], j)
}

/// No other subprogram root child anywhere shares this one's name.
pub open spec fn subprog_name_unique(units: Seq<UnitDies>, u: int, j: int) -> bool {
    forall|u2: int, j2: int|
        (subprog_at(units, u2, j2) && (u2 != u || j2 != j)) ==> !(#[trigger] subprog_node(
            units,
            u2,
            j2,
        ).name matches Some(n2) && n2@ == subprog_node(units, u, j).name.unwrap()@)
}

/// The `filepath:line` key a line row resolves under.
pub open spec fn row_key(row: LineRow) -> Seq<char> {
    row.filepath@ + seq![':'] + crate::text::dec_digits(row.line.unwrap() as nat)
}

/// A line row the parser accepts: a line number present and fitting, at
/// an address the load base does not push past the address space.
pub open spec fn row_ok(row: LineRow, base: u64) -> bool {
    &&& row.line is Some
    &&& row.line.unwrap() < usize::MAX
    &&& base + row.address <= u64::MAX
}

/// The first node at `off` is a base type carrying the name, encoding
/// and size the parser reads of it.
pub open spec fn base_target_ok(unit: UnitDies, off: usize) -> bool {
    exists|i: int|
        0 <= i < unit.nodes@.len() && (#[trigger] unit.nodes@[i]).offset == off && (forall|j: int|
            0 <= j < i ==> (#[trigger] unit.nodes@[j]).offset != off) && unit.nodes@[i].tag
            == DieTag::BaseType && unit.nodes@[i].name is Some && unit.nodes@[i].encoding is Some
            && unit.nodes@[i].byte_size is Some && unit.nodes@[i].byte_size.unwrap() <= u16::MAX
}

/// A parameter or variable node the parser always accepts: anonymous
/// entries are skipped, an entry without a type reference gets the void
/// type, and one typed by a well-formed base type digests it.
pub open spec fn var_node_ok(unit: UnitDies, n: DieNode) -> bool {
    n.name is None || n.type_ref is None || (match n.type_ref {
        Some(TypeRefAttr::UnitRef(off)) => base_target_ok(unit, off),
        _ => false,
    })
}

/// A compile-unit root whose name and range attributes the parser
/// accepts.
pub open spec fn cu_node_ok(n: DieNode, base: u64) -> bool {
    &&& n.name is Some
    &&& n.low_pc is Some
    &&& match n.high_pc {
        Some(HighPcAttr::Absolute(a)) => a > 0 && base + n.low_pc.unwrap() <= u64::MAX && base + a
            - 1 <= u64::MAX,
        Some(HighPcAttr::Size(sz)) => n.low_pc.unwrap() + sz <= u64::MAX && n.low_pc.unwrap() + sz
            > 0 && base + n.low_pc.unwrap() <= u64::MAX && base + n.low_pc.unwrap() + sz - 1
            <= u64::MAX,
        None => false,
    }
}

/// A subprogram node, with its parameter and variable children, that the
/// parser always accepts.
pub open spec fn subprog_node_ok(unit: UnitDies, ci: int, base: u64) -> bool {
    let n = unit.nodes@[ci];
    &&& n.name is Some
    &&& (n.low_pc is Some ==> ({
        let low = n.low_pc.unwrap();
        &&& base + low <= u64::MAX
        &&& (match n.high_pc {
            Some(HighPcAttr::Absolute(a)) => a > 0 && base + a - 1 <= u64::MAX,
            Some(HighPcAttr::Size(sz)) => low + sz <= u64::MAX && low + sz > 0 && base + low + sz
                - 1 <= u64::MAX,
            None => true,
        })
        &&& (n.high_pc is Some ==> forall|j: int|
            0 <= j < n.children@.len() ==> ({
                let cj = (#[trigger] n.children@[j]) as int;
                (cj < unit.nodes@.len() && (unit.nodes@[cj].tag == DieTag::FormalParameter
                    || unit.nodes@[cj].tag == DieTag::Variable)) ==> var_node_ok(unit, unit.nodes@[cj])
            }))
    }))
}

/// A unit the parser always accepts: an empty one, or one whose root
/// range is well formed and whose top-level subprograms and variables
/// carry what the parser asks of them.
pub open spec fn unit_parse_ok(unit: UnitDies, base: u64) -> bool {
    unit.nodes@.len() == 0 || ({
        &&& (unit.nodes@[0].tag == DieTag::CompileUnit ==> cu_node_ok(unit.nodes@[0], base))
        &&& forall|j: int|
            0 <= j < unit.nodes@[0].children@.len() ==> ({
                let ci = (#[trigger] unit.nodes@[0].children@[j]) as int;
                ci < unit.nodes@.len() ==> ({
                    &&& (unit.nodes@[ci].tag == DieTag::Subprogram ==> subprog_node_ok(
                        unit,
                        ci,
                        base,
                    ))
                    &&& (unit.nodes@[ci].tag == DieTag::Variable ==> var_node_ok(
                        unit,
                        unit.nodes@[ci],
                    ))
                })
            })
    })
}

/// The node a pointer entry stores for pointee `sub`: a pointee that
/// unwinds to a signed-char base is a C string, one that unwinds to a
/// function definition a function pointer, anything else a plain pointer.
pub open spec fn pointer_classification(s: Seq<Type>, sub: TypeId) -> Type {
    match crate::types::unwind_id_spec(s, sub as int, s.len() as nat) {
        Ok(rid) => match s[rid] {
            Type::Base { encoding, .. } => if encoding == TypeEncoding::SignedChar {
                Type::CString(sub)
            } else {
                Type::Pointer(sub)
            },
            Type::FuncDef { .. } => Type::Func(sub),
            _ => Type::Pointer(sub),
        },
        Err(_) => Type::Pointer(sub),
    }
}

/// Qualifier unwinding reads the same chain in two stores that differ
/// only at a slot holding a non-forwarding node in both.
proof fn lemma_unwind_update_agrees(s1: Seq<Type>, s2: Seq<Type>, id: int, fuel: nat, k: int)
    requires
        s1.len() == s2.len(),
        0 <= k < s1.len(),
        forall|j: int| 0 <= j < s1.len() && j != k ==> s1[j] == s2[j],
        crate::types::forward_of(s1[k]) is None,
        crate::types::forward_of(s2[k]) is None,
    ensures
        crate::types::unwind_id_spec(s1, id, fuel) == crate::types::unwind_id_spec(s2, id, fuel),
    decreases fuel,
{
    if 0 <= id < s1.len() && id != k {
        match crate::types::forward_of(s1[id]) {
            Some(sub) => {
                if fuel > 0 {
                    lemma_unwind_update_agrees(s1, s2, sub as int, (fuel - 1) as nat, k);
                }
            },
            None => {},
        }
    }
}

/// A pointer's classification is unchanged by rewriting one slot from one
/// pointer form to another: both forms stop unwinding and neither is a
/// signed-char base or a function definition.
proof fn lemma_classification_update(s1: Seq<Type>, s2: Seq<Type>, sub: TypeId, k: int)
    requires
        s1.len() == s2.len(),
        0 <= k < s1.len(),
        forall|j: int| 0 <= j < s1.len() && j != k ==> s1[j] == s2[j],
        s1[k] is Pointer || s1[k] is CString || s1[k] is Func,
        s2[k] is Pointer || s2[k] is CString || s2[k] is Func,
    ensures
        pointer_classification(s1, sub) == pointer_classification(s2, sub),
{
    lemma_unwind_update_agrees(s1, s2, sub as int, s1.len() as nat, k);
    lemma_unwind_ok_in_bounds(s1, sub as int, s1.len() as nat);
    match crate::types::unwind_id_spec(s1, sub as int, s1.len() as nat) {
        Ok(rid) => {
            if rid == k {
                assert(pointer_classification(s1, sub) == Type::Pointer(sub));
                assert(pointer_classification(s2, sub) == Type::Pointer(sub));
            } else {
                assert(s1[rid] == s2[rid]);
            }
        },
        Err(_) => {},
    }
}

proof fn lemma_unwind_ok_in_bounds(s: Seq<Type>, id: int, fuel: nat)
    ensures
        crate::types::unwind_id_spec(s, id, fuel) matches Ok(rid) ==> 0 <= rid < s.len(),
    decreases fuel,
{
    if 0 <= id < s.len() {
        match crate::types::forward_of(s[id]) {
            Some(sub) => {
                if fuel > 0 {
                    lemma_unwind_ok_in_bounds(s, sub as int, (fuel - 1) as nat);
                }
            },
            None => {},
        }
    }
}

/// One-shot traversal of the compile units: builds the location index and
/// the type store from the entries and the line rows.  Every function it
/// calls keeps the index well formed, so the product is ready for the
/// session whatever the input held.
pub struct DwarfParser;

impl DwarfParser {
    pub fn parse(units: &Vec<UnitDies>, rows: &Vec<LineRow>, base_address: u64) -> (r: Result<
        (LocFinder, TypeStorage),
        DwarfError,
    >)
        ensures
            r matches Ok(p) ==> p.0.wf() && p.0.base_spec() == base_address,
            r matches Ok(p) ==> forall|a: u64|
                p.0.addr2line_spec().dom().contains(a) ==> !p.0.in_prologue_spec(a)
                    && !p.0.in_epilogue_spec(a),
            // every subprogram is named, and its entry address is indexed
            r matches Ok(p) ==> forall|u: int, j: int| #[trigger]
                subprog_at(units@, u, j) ==> subprog_node(units@, u, j).name is Some,
            r matches Ok(p) ==> forall|u: int, j: int|
                (#[trigger] subprog_at(units@, u, j) && subprog_node(units@, u, j).low_pc is Some)
                    ==> (base_address + subprog_node(units@, u, j).low_pc.unwrap() <= u64::MAX
                    && p.0.locations_spec().dom().contains(
                    subprog_node(units@, u, j).name.unwrap()@,
                )),
            r matches Ok(p) ==> forall|u: int, j: int|
                (#[trigger] subprog_at(units@, u, j) && subprog_node(units@, u, j).low_pc is Some
                    && subprog_name_unique(units@, u, j)) ==> p.0.locations_spec()[subprog_node(
                    units@,
                    u,
                    j,
                ).name.unwrap()@] == (base_address + subprog_node(units@, u, j).low_pc.unwrap()) as u64,
            // every named parameter or local of a ranged subprogram resolves
            r matches Ok(p) ==> forall|u: int, j: int|
                (#[trigger] subprog_at(units@, u, j) && subprog_node(units@, u, j).low_pc is Some
                    && subprog_node(units@, u, j).high_pc is Some) ==> (forall|j2: int|
                    0 <= j2 < subprog_node(units@, u, j).children@.len() ==> ({
                        let ci = (#[trigger] subprog_node(units@, u, j).children@[j2]) as int;
                        (ci < units@[u].nodes@.len() && (units@[u].nodes@[ci].tag
                            == DieTag::FormalParameter || units@[u].nodes@[ci].tag
                            == DieTag::Variable) && units@[u].nodes@[ci].name is Some)
                            ==> p.0.func_var_spec(
                            subprog_node(units@, u, j).name.unwrap()@,
                            units@[u].nodes@[ci].name.unwrap()@,
                        ) is Some
                    })),
            // every named variable at a unit root resolves as a global
            r matches Ok(p) ==> forall|u: int, j: int|
                (0 <= u < units@.len() && #[trigger] unit_global_at(units@[u], j)
                    && units@[u].nodes@[units@[u].nodes@[0].children@[j] as int].name is Some)
                    ==> p.0.global_var_spec().dom().contains(
                    units@[u].nodes@[units@[u].nodes@[0].children@[j] as int].name.unwrap()@,
                ),
            // every accepted line row keys the location table, and its
            // address answers line queries unless excluded
            r matches Ok(p) ==> forall|k: int|
                0 <= k < rows@.len() ==> row_ok(#[trigger] rows@[k], base_address),
            r matches Ok(p) ==> forall|k: int|
                0 <= k < rows@.len() ==> p.0.locations_spec().dom().contains(
                    row_key(#[trigger] rows@[k]),
                ),
            r matches Ok(p) ==> forall|k: int|
                (0 <= k < rows@.len() && !(#[trigger] rows@[k]).end_sequence
                    && !p.0.in_prologue_spec((base_address + rows@[k].address) as u64)
                    && !p.0.in_epilogue_spec((base_address + rows@[k].address) as u64))
                    ==> p.0.addr2line_spec().dom().contains(
                    (base_address + rows@[k].address) as u64,
                ),
            // success is owed where every entry carries what the parser
            // reads of it and every row is in range
            ((forall|u: int| 0 <= u < units@.len() ==> unit_parse_ok(#[trigger] units@[u], base_address))
                && (forall|k: int|
                0 <= k < rows@.len() ==> row_ok(#[trigger] rows@[k], base_address))) ==> r is Ok,
    {
        let mut loc_finder = LocFinder::new(base_address);
        let mut type_storage = TypeStorage::new();

        let nu = units.len();
        let mut i: usize = 0;
        while i < nu
            invariant
                loc_finder.wf(),
                loc_finder.base_spec() == base_address,
                nu == units@.len(),
                loc_finder.addr2line_spec() == Map::<u64, Seq<char>>::empty(),
                forall|u: int, j: int|
                    (0 <= u < i && #[trigger] subprog_at(units@, u, j)) ==> subprog_node(
                        units@,
                        u,
                        j,
                    ).name is Some,
                forall|u: int, j: int|
                    (0 <= u < i && #[trigger] subprog_at(units@, u, j) && subprog_node(
                        units@,
                        u,
                        j,
                    ).low_pc is Some) ==> (base_address + subprog_node(units@, u, j).low_pc.unwrap()
                        <= u64::MAX && loc_finder.locations_spec().dom().contains(
                        subprog_node(units@, u, j).name.unwrap()@,
                    )),
                forall|u: int, j: int|
                    (0 <= u < i && #[trigger] subprog_at(units@, u, j) && subprog_node(
                        units@,
                        u,
                        j,
                    ).low_pc is Some && (forall|u2: int, j2: int|
                        (0 <= u2 < i && #[trigger] subprog_at(units@, u2, j2) && (u2 != u || j2
                            != j)) ==> !(subprog_node(units@, u2, j2).name is Some && subprog_node(
                            units@,
                            u2,
                            j2,
                        ).name.unwrap()@ == subprog_node(units@, u, j).name.unwrap()@)))
                        ==> loc_finder.locations_spec()[subprog_node(units@, u, j).name.unwrap()@]
                        == (base_address + subprog_node(units@, u, j).low_pc.unwrap()) as u64,
                forall|u: int, j: int|
                    (0 <= u < i && #[trigger] subprog_at(units@, u, j) && subprog_node(
                        units@,
                        u,
                        j,
                    ).low_pc is Some && subprog_node(units@, u, j).high_pc is Some) ==> (forall|
                        j2: int,
                    |
                        0 <= j2 < subprog_node(units@, u, j).children@.len() ==> ({
                            let ci = (#[trigger] subprog_node(units@, u, j).children@[j2]) as int;
                            (ci < units@[u].nodes@.len() && (units@[u].nodes@[ci].tag
                                == DieTag::FormalParameter || units@[u].nodes@[ci].tag
                                == DieTag::Variable) && units@[u].nodes@[ci].name is Some)
                                ==> loc_finder.func_var_spec(
                                subprog_node(units@, u, j).name.unwrap()@,
                                units@[u].nodes@[ci].name.unwrap()@,
                            ) is Some
                        })),
                forall|u: int, j: int|
                    (0 <= u < i && #[trigger] unit_global_at(units@[u], j) && units@[u].nodes@[
                        units@[u].nodes@[0].children@[j] as int].name is Some)
                        ==> loc_finder.global_var_spec().dom().contains(
                        units@[u].nodes@[units@[u].nodes@[0].children@[j] as int].name.unwrap()@,
                    ),
            decreases nu - i,
        {
            let ghost prev = loc_finder;
            match Self::process_unit(&mut loc_finder, &mut type_storage, &units[i]) {
                Ok(_) => {},
                Err(e) => {
                    proof {
                        if forall|u: int|
                            0 <= u < units@.len() ==> unit_parse_ok(
                                #[trigger] units@[u],
                                base_address,
                            ) {
                            assert(unit_parse_ok(units@[i as int], base_address));
                            assert(false);
                        }
                    }
                    return Err(e);
                },
            }
            proof {
                assert forall|u: int, j: int|
                    (0 <= u < i + 1 && #[trigger] subprog_at(units@, u, j) && subprog_node(
                        units@,
                        u,
                        j,
                    ).low_pc is Some && (forall|u2: int, j2: int|
                        (0 <= u2 < i + 1 && #[trigger] subprog_at(units@, u2, j2) && (u2 != u || j2
                            != j)) ==> !(subprog_node(units@, u2, j2).name is Some && subprog_node(
                            units@,
                            u2,
                            j2,
                        ).name.unwrap()@ == subprog_node(units@, u, j).name.unwrap()@))) implies
                    loc_finder.locations_spec()[subprog_node(units@, u, j).name.unwrap()@] == (
                base_address + subprog_node(units@, u, j).low_pc.unwrap()) as u64 by {
                    if u == i {
                        assert(unit_subprog_at(units@[i as int], j));
                        assert forall|j2: int|
                            (unit_subprog_at(units@[i as int], j2) && j2 != j) implies !(
                        unit_subprog_node(units@[i as int], j2).name is Some && unit_subprog_node(
                            units@[i as int],
                            j2,
                        ).name.unwrap()@ == unit_subprog_node(units@[i as int], j).name.unwrap()@) by {
                            assert(subprog_at(units@, i as int, j2));
                        }
                    }
                    if u < i {
                        // no subprogram of the unit just processed shares
                        // the name, so its resolution survived
                        assert(prev.locations_spec()[subprog_node(units@, u, j).name.unwrap()@]
                            == (base_address + subprog_node(units@, u, j).low_pc.unwrap()) as u64);
                        assert(!(exists|j2: int|
                            #[trigger] unit_subprog_at(units@[i as int], j2) && unit_subprog_node(
                                units@[i as int],
                                j2,
                            ).name is Some && unit_subprog_node(units@[i as int], j2).name.unwrap()@
                                == subprog_node(units@, u, j).name.unwrap()@)) by {
                            if exists|j2: int|
                                #[trigger] unit_subprog_at(units@[i as int], j2)
                                    && unit_subprog_node(units@[i as int], j2).name is Some
                                    && unit_subprog_node(units@[i as int], j2).name.unwrap()@
                                    == subprog_node(units@, u, j).name.unwrap()@ {
                                let j2 = choose|j2: int|
                                    #[trigger] unit_subprog_at(units@[i as int], j2)
                                        && unit_subprog_node(units@[i as int], j2).name is Some
                                        && unit_subprog_node(units@[i as int], j2).name.unwrap()@
                                        == subprog_node(units@, u, j).name.unwrap()@;
                                assert(subprog_at(units@, i as int, j2));
                            }
                        }
                    }
                }
            }
            i = i + 1;
        }

        let nr = rows.len();
        let ghost after_units = loc_finder;
        let mut j: usize = 0;
        while j < nr
            invariant
                loc_finder.wf(),
                loc_finder.base_spec() == base_address,
                nr == rows@.len(),
                nu == units@.len(),
                // the functions are all recorded by now, so every line
                // address admitted so far avoids their prologues and
                // epilogues for good
                forall|a: u64|
                    loc_finder.addr2line_spec().dom().contains(a) ==> !loc_finder.in_prologue_spec(
                        a,
                    ) && !loc_finder.in_epilogue_spec(a),
                loc_finder.func_ranges_spec() == after_units.func_ranges_spec(),
                forall|k: Seq<char>|
                    #![trigger after_units.locations_spec().dom().contains(k)]
                    after_units.locations_spec().dom().contains(k)
                        ==> loc_finder.locations_spec().dom().contains(k)
                        && loc_finder.locations_spec()[k] == after_units.locations_spec()[k],
                forall|f2: Seq<char>, v2: Seq<char>|
                    loc_finder.func_var_spec(f2, v2) == after_units.func_var_spec(f2, v2),
                loc_finder.global_var_spec() == after_units.global_var_spec(),
                forall|u: int, j2: int|
                    #[trigger] subprog_at(units@, u, j2) ==> subprog_node(units@, u, j2).name
                        is Some,
                forall|u: int, j2: int|
                    (#[trigger] subprog_at(units@, u, j2) && subprog_node(units@, u, j2).low_pc
                        is Some) ==> (base_address + subprog_node(units@, u, j2).low_pc.unwrap()
                        <= u64::MAX && after_units.locations_spec().dom().contains(
                        subprog_node(units@, u, j2).name.unwrap()@,
                    )),
                forall|u: int, j2: int|
                    (#[trigger] subprog_at(units@, u, j2) && subprog_node(units@, u, j2).low_pc
                        is Some && subprog_name_unique(units@, u, j2))
                        ==> after_units.locations_spec()[subprog_node(units@, u, j2).name.unwrap()@]
                        == (base_address + subprog_node(units@, u, j2).low_pc.unwrap()) as u64,
                forall|u: int, j2: int|
                    (#[trigger] subprog_at(units@, u, j2) && subprog_node(units@, u, j2).low_pc
                        is Some && subprog_node(units@, u, j2).high_pc is Some) ==> (forall|
                        j3: int,
                    |
                        0 <= j3 < subprog_node(units@, u, j2).children@.len() ==> ({
                            let ci = (#[trigger] subprog_node(units@, u, j2).children@[j3]) as int;
                            (ci < units@[u].nodes@.len() && (units@[u].nodes@[ci].tag
                                == DieTag::FormalParameter || units@[u].nodes@[ci].tag
                                == DieTag::Variable) && units@[u].nodes@[ci].name is Some)
                                ==> after_units.func_var_spec(
                                subprog_node(units@, u, j2).name.unwrap()@,
                                units@[u].nodes@[ci].name.unwrap()@,
                            ) is Some
                        })),
                forall|u: int, j2: int|
                    (0 <= u < units@.len() && #[trigger] unit_global_at(units@[u], j2) && units@[
                        u].nodes@[units@[u].nodes@[0].children@[j2] as int].name is Some)
                        ==> after_units.global_var_spec().dom().contains(
                        units@[u].nodes@[units@[u].nodes@[0].children@[j2] as int].name.unwrap()@,
                    ),
                forall|k: int|
                    0 <= k < j ==> row_ok(#[trigger] rows@[k], base_address),
                forall|k: int|
                    0 <= k < j ==> loc_finder.locations_spec().dom().contains(
                        row_key(#[trigger] rows@[k]),
                    ),
                forall|k: int|
                    (0 <= k < j && !(#[trigger] rows@[k]).end_sequence
                        && !loc_finder.in_prologue_spec((base_address + rows@[k].address) as u64)
                        && !loc_finder.in_epilogue_spec((base_address + rows@[k].address) as u64))
                        ==> loc_finder.addr2line_spec().dom().contains(
                        (base_address + rows@[k].address) as u64,
                    ),
            decreases nr - j,
        {
            let ghost prev = loc_finder;
            let res = Self::process_line_row(&mut loc_finder, &rows[j]);
            match res {
                Ok(_) => {},
                Err(e) => {
                    proof {
                        if forall|k: int|
                            0 <= k < rows@.len() ==> row_ok(#[trigger] rows@[k], base_address) {
                            assert(row_ok(rows@[j as int], base_address));
                            assert(false);
                        }
                    }
                    return Err(e);
                },
            }
            proof {
                assert forall|a: u64|
                    loc_finder.addr2line_spec().dom().contains(a) implies !loc_finder
                    .in_prologue_spec(a) && !loc_finder.in_epilogue_spec(a) by {
                    LocFinder::lemma_exclusion_depends_on_ranges(&prev, &loc_finder, a);
                }
                assert forall|a: u64| prev.in_prologue_spec(a) == loc_finder.in_prologue_spec(a)
                    && prev.in_epilogue_spec(a) == loc_finder.in_epilogue_spec(a) by {
                    LocFinder::lemma_exclusion_depends_on_ranges(&prev, &loc_finder, a);
                }
                assert forall|k: Seq<char>|
                    after_units.locations_spec().dom().contains(k) implies loc_finder
                    .locations_spec().dom().contains(k) && loc_finder.locations_spec()[k]
                    == after_units.locations_spec()[k] by {
                    assert(prev.locations_spec().dom().contains(k));
                }
                assert forall|k: int| 0 <= k < j implies loc_finder.locations_spec().dom().contains(
                    row_key(#[trigger] rows@[k]),
                ) by {
                    assert(prev.locations_spec().dom().contains(row_key(rows@[k])));
                }
            }
            j = j + 1;
        }

        Ok((loc_finder, type_storage))
    }

    fn process_line_row(loc_finder: &mut LocFinder, row: &LineRow) -> (r: Result<(), DwarfError>)
        requires
            old(loc_finder).wf(),
        ensures
            final(loc_finder).wf(),
            final(loc_finder).base_spec() == old(loc_finder).base_spec(),
            final(loc_finder).func_ranges_spec() == old(loc_finder).func_ranges_spec(),
            final(loc_finder).unit_ranges_spec() == old(loc_finder).unit_ranges_spec(),
            final(loc_finder).main_unit_spec() == old(loc_finder).main_unit_spec(),
            forall|a: u64|
                final(loc_finder).addr2line_spec().dom().contains(a) ==> (old(loc_finder).addr2line_spec().dom().contains(a) || (!old(loc_finder).in_prologue_spec(a)
                    && !old(loc_finder).in_epilogue_spec(a))),
            r is Ok <==> row_ok(*row, old(loc_finder).base_spec()),
            r is Err ==> *final(loc_finder) == *old(loc_finder),
            forall|f2: Seq<char>, v2: Seq<char>|
                final(loc_finder).func_var_spec(f2, v2) == old(loc_finder).func_var_spec(f2, v2),
            final(loc_finder).global_var_spec() == old(loc_finder).global_var_spec(),
            r is Ok ==> final(loc_finder).locations_spec().dom().contains(row_key(*row)),
            r is Ok ==> forall|k: Seq<char>|
                #![trigger old(loc_finder).locations_spec().dom().contains(k)]
                old(loc_finder).locations_spec().dom().contains(k) ==> final(loc_finder).locations_spec().dom().contains(k) && final(loc_finder).locations_spec()[k] == old(loc_finder).locations_spec()[k],
            r is Ok ==> ((!row.end_sequence && !old(loc_finder).in_prologue_spec(
                (old(loc_finder).base_spec() + row.address) as u64,
            ) && !old(loc_finder).in_epilogue_spec(
                (old(loc_finder).base_spec() + row.address) as u64,
            )) ==> final(loc_finder).addr2line_spec().dom().contains(
                (old(loc_finder).base_spec() + row.address) as u64,
            )),
            r is Ok ==> forall|a2: u64|
                old(loc_finder).addr2line_spec().dom().contains(a2) ==> final(loc_finder).addr2line_spec().dom().contains(a2),
    {
        let line = match row.line {
            Some(l) => l,
            None => {
                return Err(DwarfError::MissingAttr);
            },
        };
        if line >= usize::MAX as u64 {
            return Err(DwarfError::Overflow);
        }
        let base = loc_finder.base();
        if row.address > u64::MAX - base {
            return Err(DwarfError::Overflow);
        }
        loc_finder.add_line(row.filepath.clone(), line as usize, row.address, row.end_sequence);
        proof {
            assert(row_key(*row) == row.filepath@ + seq![':'] + crate::text::dec_digits(
                line as nat,
            ));
        }
        Ok(())
    }

    fn process_unit(
        loc_finder: &mut LocFinder,
        type_storage: &mut TypeStorage,
        unit: &UnitDies,
    ) -> (r: Result<(), DwarfError>)
        requires
            old(loc_finder).wf(),
        ensures
            final(loc_finder).wf(),
            final(loc_finder).base_spec() == old(loc_finder).base_spec(),
            final(loc_finder).addr2line_spec() == old(loc_finder).addr2line_spec(),
            unit.nodes@.len() == 0 ==> r is Ok,
            forall|k: Seq<char>|
                old(loc_finder).locations_spec().dom().contains(k) ==> final(loc_finder).locations_spec().dom().contains(k),
            forall|k: Seq<char>|
                (old(loc_finder).locations_spec().dom().contains(k) && !(exists|j: int|
                    #[trigger] unit_subprog_at(*unit, j) && unit_subprog_node(*unit, j).name
                        is Some && unit_subprog_node(*unit, j).name.unwrap()@ == k)) ==> final(loc_finder).locations_spec()[k] == old(loc_finder).locations_spec()[k],
            r is Ok ==> forall|j: int| #[trigger]
                unit_subprog_at(*unit, j) ==> unit_subprog_node(*unit, j).name is Some,
            r is Ok ==> forall|j: int|
                (#[trigger] unit_subprog_at(*unit, j) && unit_subprog_node(*unit, j).low_pc
                    is Some) ==> (old(loc_finder).base_spec() + unit_subprog_node(
                    *unit,
                    j,
                ).low_pc.unwrap() <= u64::MAX && final(loc_finder).locations_spec().dom().contains(
                    unit_subprog_node(*unit, j).name.unwrap()@,
                )),
            r is Ok ==> forall|j: int|
                (#[trigger] unit_subprog_at(*unit, j) && unit_subprog_node(*unit, j).low_pc
                    is Some && (forall|j2: int|
                    (unit_subprog_at(*unit, j2) && j2 != j) ==> !((#[trigger] unit_subprog_node(
                        *unit,
                        j2,
                    )).name is Some && unit_subprog_node(*unit, j2).name.unwrap()@
                        == unit_subprog_node(*unit, j).name.unwrap()@))) ==> final(loc_finder).locations_spec()[unit_subprog_node(*unit, j).name.unwrap()@] == (old(loc_finder).base_spec() + unit_subprog_node(*unit, j).low_pc.unwrap()) as u64,
            r is Ok ==> forall|j: int|
                (#[trigger] unit_subprog_at(*unit, j) && unit_subprog_node(*unit, j).low_pc
                    is Some && unit_subprog_node(*unit, j).high_pc is Some) ==> (forall|j2: int|
                    0 <= j2 < unit_subprog_node(*unit, j).children@.len() ==> ({
                        let ci = (#[trigger] unit_subprog_node(*unit, j).children@[j2]) as int;
                        (ci < unit.nodes@.len() && (unit.nodes@[ci].tag
                            == DieTag::FormalParameter || unit.nodes@[ci].tag == DieTag::Variable)
                            && unit.nodes@[ci].name is Some) ==> final(loc_finder).func_var_spec(
                            unit_subprog_node(*unit, j).name.unwrap()@,
                            unit.nodes@[ci].name.unwrap()@,
                        ) is Some
                    })),
            r is Ok ==> forall|j: int|
                (#[trigger] unit_global_at(*unit, j) && unit.nodes@[unit.nodes@[0].children@[
                    j] as int].name is Some) ==> final(loc_finder).global_var_spec().dom().contains(
                    unit.nodes@[unit.nodes@[0].children@[j] as int].name.unwrap()@,
                ),
            forall|g: Seq<char>|
                old(loc_finder).global_var_spec().dom().contains(g) ==> final(loc_finder).global_var_spec().dom().contains(g),
            forall|f2: Seq<char>, v2: Seq<char>|
                old(loc_finder).func_var_spec(f2, v2) is Some ==> final(loc_finder).func_var_spec(
                    f2,
                    v2,
                ) is Some,
            unit_parse_ok(*unit, old(loc_finder).base_spec()) ==> r is Ok,
    {
        if unit.nodes.len() == 0 {
            return Ok(());
        }
        if unit.nodes[0].tag == DieTag::CompileUnit {
            match Self::process_compile_unit(loc_finder, &unit.nodes[0]) {
                Ok(_) => {},
                Err(e) => {
                    return Err(e);
                },
            }
        }
        let mut visited: U64Map<TypeId> = U64Map::new();
        let root_children = unit.nodes[0].children.len();
        let mut i: usize = 0;
        while i < root_children
            invariant
                loc_finder.wf(),
                loc_finder.base_spec() == old(loc_finder).base_spec(),
                loc_finder.addr2line_spec() == old(loc_finder).addr2line_spec(),
                visited.wf(),
                root_children == unit.nodes@[0].children@.len(),
                unit.nodes@.len() > 0,
                unit_parse_ok(*unit, old(loc_finder).base_spec()) ==> forall|j: int|
                    0 <= j < unit.nodes@[0].children@.len() ==> ({
                        let ci = (#[trigger] unit.nodes@[0].children@[j]) as int;
                        ci < unit.nodes@.len() ==> ({
                            &&& (unit.nodes@[ci].tag == DieTag::Subprogram ==> subprog_node_ok(
                                *unit,
                                ci,
                                old(loc_finder).base_spec(),
                            ))
                            &&& (unit.nodes@[ci].tag == DieTag::Variable ==> var_node_ok(
                                *unit,
                                unit.nodes@[ci],
                            ))
                        })
                    }),
                forall|k: Seq<char>|
                    old(loc_finder).locations_spec().dom().contains(k)
                        ==> loc_finder.locations_spec().dom().contains(k),
                forall|k: Seq<char>|
                    (old(loc_finder).locations_spec().dom().contains(k) && !(exists|j: int|
                        0 <= j < i && #[trigger] unit_subprog_at(*unit, j) && unit_subprog_node(
                            *unit,
                            j,
                        ).name is Some && unit_subprog_node(*unit, j).name.unwrap()@ == k))
                        ==> loc_finder.locations_spec()[k] == old(loc_finder).locations_spec()[k],
                forall|j: int|
                    (0 <= j < i && #[trigger] unit_subprog_at(*unit, j)) ==> unit_subprog_node(
                        *unit,
                        j,
                    ).name is Some,
                forall|j: int|
                    (0 <= j < i && #[trigger] unit_subprog_at(*unit, j) && unit_subprog_node(
                        *unit,
                        j,
                    ).low_pc is Some) ==> (old(loc_finder).base_spec() + unit_subprog_node(
                        *unit,
                        j,
                    ).low_pc.unwrap() <= u64::MAX
                        && loc_finder.locations_spec().dom().contains(
                        unit_subprog_node(*unit, j).name.unwrap()@,
                    )),
                forall|j: int|
                    (0 <= j < i && #[trigger] unit_subprog_at(*unit, j) && unit_subprog_node(
                        *unit,
                        j,
                    ).low_pc is Some && (forall|j2: int|
                        (j < j2 < i && #[trigger] unit_subprog_at(*unit, j2)) ==> !(
                        unit_subprog_node(*unit, j2).name is Some && unit_subprog_node(
                            *unit,
                            j2,
                        ).name.unwrap()@ == unit_subprog_node(*unit, j).name.unwrap()@)))
                        ==> loc_finder.locations_spec()[unit_subprog_node(*unit, j).name.unwrap()@]
                        == (old(loc_finder).base_spec() + unit_subprog_node(
                        *unit,
                        j,
                    ).low_pc.unwrap()) as u64,
                forall|j: int|
                    (0 <= j < i && #[trigger] unit_subprog_at(*unit, j) && unit_subprog_node(
                        *unit,
                        j,
                    ).low_pc is Some && unit_subprog_node(*unit, j).high_pc is Some) ==> (forall|
                        j2: int,
                    |
                        0 <= j2 < unit_subprog_node(*unit, j).children@.len() ==> ({
                            let ci = (#[trigger] unit_subprog_node(*unit, j).children@[
                                j2]) as int;
                            (ci < unit.nodes@.len() && (unit.nodes@[ci].tag
                                == DieTag::FormalParameter || unit.nodes@[ci].tag
                                == DieTag::Variable) && unit.nodes@[ci].name is Some)
                                ==> loc_finder.func_var_spec(
                                unit_subprog_node(*unit, j).name.unwrap()@,
                                unit.nodes@[ci].name.unwrap()@,
                            ) is Some
                        })),
                forall|j: int|
                    (0 <= j < i && #[trigger] unit_global_at(*unit, j) && unit.nodes@[unit.nodes@[
                        0].children@[j] as int].name is Some)
                        ==> loc_finder.global_var_spec().dom().contains(
                        unit.nodes@[unit.nodes@[0].children@[j] as int].name.unwrap()@,
                    ),
                forall|g: Seq<char>|
                    old(loc_finder).global_var_spec().dom().contains(g)
                        ==> loc_finder.global_var_spec().dom().contains(g),
                forall|f2: Seq<char>, v2: Seq<char>|
                    old(loc_finder).func_var_spec(f2, v2) is Some ==> loc_finder.func_var_spec(
                        f2,
                        v2,
                    ) is Some,
            decreases root_children - i,
        {
            let ci = unit.nodes[0].children[i];
            proof {
                assert(unit.nodes@[0].children@[i as int] == ci);
                if (ci as int) < unit.nodes@.len() {
                    if unit.nodes@[ci as int].tag == DieTag::Subprogram {
                        assert(unit_subprog_at(*unit, i as int));
                        assert(unit_subprog_node(*unit, i as int) == unit.nodes@[ci as int]);
                    }
                    if unit.nodes@[ci as int].tag == DieTag::Variable {
                        assert(unit_global_at(*unit, i as int));
                    }
                }
            }
            if ci < unit.nodes.len() {
                let child = &unit.nodes[ci];
                let res: Result<(), DwarfError> = match child.tag {
                    DieTag::Subprogram => Self::process_subprogram(
                        loc_finder,
                        type_storage,
                        unit,
                        ci,
                        &mut visited,
                    ),
                    DieTag::Variable => Self::process_var(
                        loc_finder,
                        type_storage,
                        unit,
                        ci,
                        None,
                        &mut visited,
                    ),
                    _ => Ok(()),
                };
                match res {
                    Ok(_) => {},
                    Err(e) => {
                        return Err(e);
                    },
                }
            }
            i = i + 1;
        }
        Ok(())
    }

    /// The unit's own range: `high_pc` normalized to an inclusive end.
    fn process_compile_unit(loc_finder: &mut LocFinder, entry: &DieNode) -> (r: Result<
        (),
        DwarfError,
    >)
        requires
            old(loc_finder).wf(),
        ensures
            final(loc_finder).wf(),
            final(loc_finder).base_spec() == old(loc_finder).base_spec(),
            final(loc_finder).addr2line_spec() == old(loc_finder).addr2line_spec(),
            final(loc_finder).locations_spec() == old(loc_finder).locations_spec(),
            final(loc_finder).func_ranges_spec() == old(loc_finder).func_ranges_spec(),
            final(loc_finder).main_unit_spec() == old(loc_finder).main_unit_spec(),
            forall|f2: Seq<char>, v2: Seq<char>|
                final(loc_finder).func_var_spec(f2, v2) == old(loc_finder).func_var_spec(f2, v2),
            final(loc_finder).global_var_spec() == old(loc_finder).global_var_spec(),
            cu_node_ok(*entry, old(loc_finder).base_spec()) ==> r is Ok,
    {
        let name = match &entry.name {
            Some(n) => n.clone(),
            None => {
                return Err(DwarfError::MissingAttr);
            },
        };
        let low_pc = match entry.low_pc {
            Some(l) => l,
            None => {
                return Err(DwarfError::MissingAttr);
            },
        };
        let high_pc = match entry.high_pc {
            Some(HighPcAttr::Absolute(a)) => a,
            Some(HighPcAttr::Size(s)) => {
                if s > u64::MAX - low_pc {
                    return Err(DwarfError::Overflow);
                }
                low_pc + s
            },
            None => {
                return Err(DwarfError::MissingAttr);
            },
        };
        if high_pc == 0 {
            return Err(DwarfError::BadValue);
        }
        let base = loc_finder.base();
        if low_pc > u64::MAX - base || high_pc - 1 > u64::MAX - base {
            return Err(DwarfError::Overflow);
        }
        // high_pc is the first location past the last instruction, so the
        // recorded range is inclusive of high_pc - 1
        loc_finder.add_compile_unit(name, low_pc, high_pc - 1);
        Ok(())
    }

    fn process_subprogram(
        loc_finder: &mut LocFinder,
        type_storage: &mut TypeStorage,
        unit: &UnitDies,
        idx: usize,
        visited: &mut U64Map<TypeId>,
    ) -> (r: Result<(), DwarfError>)
        requires
            old(loc_finder).wf(),
            old(visited).wf(),
            idx < unit.nodes@.len(),
        ensures
            final(loc_finder).wf(),
            final(loc_finder).base_spec() == old(loc_finder).base_spec(),
            final(loc_finder).addr2line_spec() == old(loc_finder).addr2line_spec(),
            final(loc_finder).unit_ranges_spec() == old(loc_finder).unit_ranges_spec(),
            final(visited).wf(),
            final(loc_finder).locations_spec() == old(loc_finder).locations_spec() || (
            unit.nodes@[idx as int].name is Some && unit.nodes@[idx as int].low_pc is Some && old(loc_finder).base_spec() + unit.nodes@[idx as int].low_pc.unwrap() <= u64::MAX && final(loc_finder).locations_spec() == old(loc_finder).locations_spec().insert(
                unit.nodes@[idx as int].name.unwrap()@,
                (old(loc_finder).base_spec() + unit.nodes@[idx as int].low_pc.unwrap()) as u64,
            )),
            r is Ok ==> unit.nodes@[idx as int].name is Some,
            (r is Ok && unit.nodes@[idx as int].low_pc is Some) ==> (old(loc_finder).base_spec()
                + unit.nodes@[idx as int].low_pc.unwrap() <= u64::MAX && final(loc_finder).locations_spec() == old(loc_finder).locations_spec().insert(
                unit.nodes@[idx as int].name.unwrap()@,
                (old(loc_finder).base_spec() + unit.nodes@[idx as int].low_pc.unwrap()) as u64,
            )),
            (r is Ok && unit.nodes@[idx as int].low_pc is Some && unit.nodes@[idx as int].high_pc
                is Some) ==> forall|j: int|
                0 <= j < unit.nodes@[idx as int].children@.len() ==> ({
                    let ci = (#[trigger] unit.nodes@[idx as int].children@[j]) as int;
                    (ci < unit.nodes@.len() && (unit.nodes@[ci].tag == DieTag::FormalParameter
                        || unit.nodes@[ci].tag == DieTag::Variable) && unit.nodes@[ci].name
                        is Some) ==> final(loc_finder).func_var_spec(
                        unit.nodes@[idx as int].name.unwrap()@,
                        unit.nodes@[ci].name.unwrap()@,
                    ) is Some
                }),
            forall|f2: Seq<char>, v2: Seq<char>|
                old(loc_finder).func_var_spec(f2, v2) is Some ==> final(loc_finder).func_var_spec(
                    f2,
                    v2,
                ) is Some,
            forall|g: Seq<char>|
                old(loc_finder).global_var_spec().dom().contains(g) ==> final(loc_finder).global_var_spec().dom().contains(g),
            subprog_node_ok(*unit, idx as int, old(loc_finder).base_spec()) ==> r is Ok,
    {
        let entry = &unit.nodes[idx];
        let name = match &entry.name {
            Some(n) => n.clone(),
            None => {
                return Err(DwarfError::MissingAttr);
            },
        };
        let entry_ref = EntryRef::new(unit.unit_offset, entry.offset);
        loc_finder.add_func_entry_ref(name.clone(), entry_ref);

        let low_pc = match entry.low_pc {
            Some(l) => l,
            None => {
                return Ok(());
            },
        };
        let base = loc_finder.base();
        if low_pc > u64::MAX - base {
            return Err(DwarfError::Overflow);
        }
        loc_finder.add_location(name.clone(), low_pc);

        let high_pc = match entry.high_pc {
            Some(HighPcAttr::Absolute(a)) => a,
            Some(HighPcAttr::Size(s)) => {
                if s > u64::MAX - low_pc {
                    return Err(DwarfError::Overflow);
                }
                low_pc + s
            },
            None => {
                return Ok(());
            },
        };
        if high_pc == 0 {
            return Err(DwarfError::BadValue);
        }
        if high_pc - 1 > u64::MAX - base {
            return Err(DwarfError::Overflow);
        }
        loc_finder.add_func_range(name.clone(), low_pc, high_pc - 1);

        // the subprogram's parameters and local variables
        let ghost locs1 = loc_finder.locations_spec();
        let nc = entry.children.len();
        let mut i: usize = 0;
        while i < nc
            invariant
                loc_finder.wf(),
                loc_finder.base_spec() == old(loc_finder).base_spec(),
                loc_finder.addr2line_spec() == old(loc_finder).addr2line_spec(),
                loc_finder.unit_ranges_spec() == old(loc_finder).unit_ranges_spec(),
                loc_finder.locations_spec() == locs1,
                locs1 == old(loc_finder).locations_spec().insert(
                    unit.nodes@[idx as int].name.unwrap()@,
                    (old(loc_finder).base_spec() + unit.nodes@[idx as int].low_pc.unwrap()) as u64,
                ),
                old(loc_finder).base_spec() + unit.nodes@[idx as int].low_pc.unwrap() <= u64::MAX,
                unit.nodes@[idx as int].name matches Some(nm) && nm@ == name@,
                unit.nodes@[idx as int].low_pc is Some,
                unit.nodes@[idx as int].high_pc is Some,
                subprog_node_ok(*unit, idx as int, old(loc_finder).base_spec()) ==> forall|j: int|
                    0 <= j < unit.nodes@[idx as int].children@.len() ==> ({
                        let cj = (#[trigger] unit.nodes@[idx as int].children@[j]) as int;
                        (cj < unit.nodes@.len() && (unit.nodes@[cj].tag
                            == DieTag::FormalParameter || unit.nodes@[cj].tag == DieTag::Variable))
                            ==> var_node_ok(*unit, unit.nodes@[cj])
                    }),
                visited.wf(),
                nc == unit.nodes@[idx as int].children@.len(),
                idx < unit.nodes@.len(),
                forall|j: int|
                    0 <= j < i ==> ({
                        let ci = (#[trigger] unit.nodes@[idx as int].children@[j]) as int;
                        (ci < unit.nodes@.len() && (unit.nodes@[ci].tag
                            == DieTag::FormalParameter || unit.nodes@[ci].tag == DieTag::Variable)
                            && unit.nodes@[ci].name is Some) ==> loc_finder.func_var_spec(
                            name@,
                            unit.nodes@[ci].name.unwrap()@,
                        ) is Some
                    }),
                forall|f2: Seq<char>, v2: Seq<char>|
                    old(loc_finder).func_var_spec(f2, v2) is Some ==> loc_finder.func_var_spec(
                        f2,
                        v2,
                    ) is Some,
                forall|g: Seq<char>|
                    old(loc_finder).global_var_spec().dom().contains(g)
                        ==> loc_finder.global_var_spec().dom().contains(g),
            decreases nc - i,
        {
            let ci = unit.nodes[idx].children[i];
            if ci < unit.nodes.len() {
                let child_tag = unit.nodes[ci].tag;
                if child_tag == DieTag::FormalParameter || child_tag == DieTag::Variable {
                    match Self::process_var(
                        loc_finder,
                        type_storage,
                        unit,
                        ci,
                        Some(name.clone()),
                        visited,
                    ) {
                        Ok(_) => {},
                        Err(e) => {
                            return Err(e);
                        },
                    }
                }
            }
            i = i + 1;
        }
        Ok(())
    }

    fn process_var(
        loc_finder: &mut LocFinder,
        type_storage: &mut TypeStorage,
        unit: &UnitDies,
        idx: usize,
        func_name: Option<String>,
        visited: &mut U64Map<TypeId>,
    ) -> (r: Result<(), DwarfError>)
        requires
            old(loc_finder).wf(),
            old(visited).wf(),
            idx < unit.nodes@.len(),
        ensures
            final(loc_finder).wf(),
            final(loc_finder).base_spec() == old(loc_finder).base_spec(),
            final(loc_finder).addr2line_spec() == old(loc_finder).addr2line_spec(),
            final(loc_finder).locations_spec() == old(loc_finder).locations_spec(),
            final(loc_finder).func_ranges_spec() == old(loc_finder).func_ranges_spec(),
            final(loc_finder).unit_ranges_spec() == old(loc_finder).unit_ranges_spec(),
            final(loc_finder).main_unit_spec() == old(loc_finder).main_unit_spec(),
            final(visited).wf(),
            (r is Ok && func_name is Some && unit.nodes@[idx as int].name is Some) ==> final(loc_finder).func_var_spec(
                func_name.unwrap()@,
                unit.nodes@[idx as int].name.unwrap()@,
            ) is Some,
            forall|f2: Seq<char>, v2: Seq<char>|
                old(loc_finder).func_var_spec(f2, v2) is Some ==> final(loc_finder).func_var_spec(
                    f2,
                    v2,
                ) is Some,
            (r is Ok && func_name is None && unit.nodes@[idx as int].name is Some) ==> final(loc_finder).global_var_spec().dom().contains(unit.nodes@[idx as int].name.unwrap()@),
            forall|g: Seq<char>|
                old(loc_finder).global_var_spec().dom().contains(g) ==> final(loc_finder).global_var_spec().dom().contains(g),
            var_node_ok(*unit, unit.nodes@[idx as int]) ==> r is Ok,
    {
        let name = match &unit.nodes[idx].name {
            Some(n) => n.clone(),
            None => {
                return Ok(());
            },
        };
        let entry_ref = EntryRef::new(unit.unit_offset, unit.nodes[idx].offset);
        let fuel = if unit.nodes.len() < usize::MAX {
            unit.nodes.len() + 1
        } else {
            unit.nodes.len()
        };
        let type_id = match Self::process_entry_type(type_storage, unit, idx, visited, fuel) {
            Ok(t) => t,
            Err(e) => {
                return Err(e);
            },
        };
        let var_ref = VarRef::new(entry_ref, type_id);
        loc_finder.add_var(name, var_ref, func_name);
        Ok(())
    }

    /// Index of the first entry at `offset` in the unit.
    fn find_node(unit: &UnitDies, offset: usize) -> (r: Option<usize>)
        ensures
            r matches Some(i) ==> i < unit.nodes@.len() && unit.nodes@[i as int].offset == offset
                && forall|j: int| 0 <= j < i ==> (#[trigger] unit.nodes@[j]).offset != offset,
            r is None ==> forall|j: int|
                0 <= j < unit.nodes@.len() ==> (#[trigger] unit.nodes@[j]).offset != offset,
    {
        let n = unit.nodes.len();
        let mut i: usize = 0;
        while i < n
            invariant
                n == unit.nodes@.len(),
                i <= n,
                forall|j: int| 0 <= j < i ==> (#[trigger] unit.nodes@[j]).offset != offset,
            decreases n - i,
        {
            if unit.nodes[i].offset == offset {
                return Some(i);
            }
            i = i + 1;
        }
        None
    }

    /// Type of the entry at `idx`, following `DW_AT_type`; no attribute
    /// means `void`.  Whatever happens, identifiers already handed out
    /// keep their nodes and their offset associations.
    fn process_entry_type(
        type_storage: &mut TypeStorage,
        unit: &UnitDies,
        idx: usize,
        visited: &mut U64Map<TypeId>,
        fuel: usize,
    ) -> (r: Result<TypeId, DwarfError>)
        requires
            old(visited).wf(),
            idx < unit.nodes@.len(),
        ensures
            final(visited).wf(),
            final(type_storage)@.len() >= old(type_storage)@.len(),
            (fuel > 0 && unit.nodes@[idx as int].type_ref is None) ==> r is Ok,
            (fuel > 1 && (match unit.nodes@[idx as int].type_ref {
                Some(TypeRefAttr::UnitRef(off)) => base_target_ok(*unit, off),
                _ => false,
            })) ==> r is Ok,
        decreases fuel, 0nat,
    {
        if fuel == 0 {
            return Err(DwarfError::CyclicType);
        }
        match unit.nodes[idx].type_ref {
            Some(TypeRefAttr::UnitRef(offset)) => {
                match Self::find_node(unit, offset) {
                    Some(sub_idx) => {
                        proof {
                            // the first node at the offset is the one found
                            if base_target_ok(*unit, offset) {
                                let i = choose|i: int|
                                    0 <= i < unit.nodes@.len() && (#[trigger] unit.nodes@[
                                        i]).offset == offset && (forall|j: int|
                                        0 <= j < i ==> (#[trigger] unit.nodes@[j]).offset
                                            != offset) && unit.nodes@[i].tag == DieTag::BaseType
                                        && unit.nodes@[i].name is Some && unit.nodes@[i].encoding
                                        is Some && unit.nodes@[i].byte_size is Some
                                        && unit.nodes@[i].byte_size.unwrap() <= u16::MAX;
                                if i < sub_idx {
                                    assert(unit.nodes@[i].offset != offset);
                                }
                                if i > sub_idx {
                                    assert(unit.nodes@[sub_idx as int].offset != offset);
                                }
                                assert(i == sub_idx);
                            }
                        }
                        Self::process_type(type_storage, unit, sub_idx, visited, fuel - 1)
                    },
                    None => {
                        proof {
                            if base_target_ok(*unit, offset) {
                                let i = choose|i: int|
                                    0 <= i < unit.nodes@.len() && (#[trigger] unit.nodes@[
                                        i]).offset == offset && (forall|j: int|
                                        0 <= j < i ==> (#[trigger] unit.nodes@[j]).offset
                                            != offset) && unit.nodes@[i].tag == DieTag::BaseType
                                        && unit.nodes@[i].name is Some && unit.nodes@[i].encoding
                                        is Some && unit.nodes@[i].byte_size is Some
                                        && unit.nodes@[i].byte_size.unwrap() <= u16::MAX;
                                assert(unit.nodes@[i].offset != offset);
                            }
                        }
                        Err(DwarfError::UnknownType)
                    },
                }
            },
            Some(TypeRefAttr::Unsupported) => Err(DwarfError::UnknownType),
            None => Ok(VOID_TYPE_ID),
        }
    }

    /// Digest one type entry into the store.  An offset seen before
    /// resolves to the identifier recorded for it, with nothing touched;
    /// otherwise a slot is reserved and recorded under the entry's offset
    /// before any recursion, so self-referential types (a struct holding
    /// a pointer to itself) resolve to the reserved identifier instead of
    /// recursing forever, and `replace` fills that slot at the end.
    fn process_type(
        type_storage: &mut TypeStorage,
        unit: &UnitDies,
        idx: usize,
        visited: &mut U64Map<TypeId>,
        fuel: usize,
    ) -> (r: Result<TypeId, DwarfError>)
        requires
            old(visited).wf(),
            idx < unit.nodes@.len(),
        ensures
            final(visited).wf(),
            final(type_storage)@.len() >= old(type_storage)@.len(),
            old(visited)@.dom().contains(unit.nodes@[idx as int].offset as u64) ==> (r == Ok::<
                TypeId,
                DwarfError,
            >(old(visited)@[unit.nodes@[idx as int].offset as u64]) && final(visited)@ == old(visited)@ && final(type_storage)@ == old(type_storage)@),
            !old(visited)@.dom().contains(unit.nodes@[idx as int].offset as u64) ==> (final(type_storage)@.len() > old(type_storage)@.len() && (r matches Ok(id) ==> id == old(type_storage)@.len())),
            (!old(visited)@.dom().contains(unit.nodes@[idx as int].offset as u64)
                && unit.nodes@[idx as int].tag == DieTag::PointerType && r is Ok) ==> (exists|
                sub: TypeId,
            |
                final(type_storage)@[old(type_storage)@.len() as int] == pointer_classification(
                    final(type_storage)@,
                    sub,
                )),
            (unit.nodes@[idx as int].tag == DieTag::BaseType && unit.nodes@[idx as int].name
                is Some && unit.nodes@[idx as int].encoding is Some && unit.nodes@[idx as int].byte_size
                is Some && unit.nodes@[idx as int].byte_size.unwrap() <= u16::MAX) ==> r is Ok,
        decreases fuel, 1nat,
    {
        let entry = &unit.nodes[idx];
        let key = entry.offset as u64;
        if let Some(existing) = visited.get(key) {
            return Ok(*existing);
        }
        // take the slot
        let type_id = type_storage.add(Type::Void);
        visited.insert(key, type_id);
        let ghost mut cls_state: Seq<Type> = Seq::empty();
        let ghost mut cls_sub: TypeId = 0;

        let typ: Type = match entry.tag {
            DieTag::BaseType => {
                let name = match &entry.name {
                    Some(n) => n.clone(),
                    None => {
                        return Err(DwarfError::MissingAttr);
                    },
                };
                let ate = match entry.encoding {
                    Some(e) => e,
                    None => {
                        return Err(DwarfError::MissingAttr);
                    },
                };
                let size = match Self::byte_size_u16(entry) {
                    Ok(s) => s,
                    Err(e) => {
                        return Err(e);
                    },
                };
                Type::Base { name, encoding: encoding_of(ate), size }
            },
            DieTag::ConstType => {
                let sub = Self::process_entry_type(type_storage, unit, idx, visited, fuel)?;
                Type::Const(sub)
            },
            DieTag::VolatileType => {
                let sub = Self::process_entry_type(type_storage, unit, idx, visited, fuel)?;
                Type::Volatile(sub)
            },
            DieTag::AtomicType => {
                let sub = Self::process_entry_type(type_storage, unit, idx, visited, fuel)?;
                Type::Atomic(sub)
            },
            DieTag::PointerType => {
                let sub = Self::process_entry_type(type_storage, unit, idx, visited, fuel)?;
                // settle the reserved slot as a plain pointer first, so the
                // classification reads a store of settled nodes; the refined
                // class replaces it below
                let settled = type_storage.replace(type_id, Type::Pointer(sub));
                proof {
                    assert(settled is Ok);
                    cls_state = type_storage@;
                    cls_sub = sub;
                }
                match Self::classify_pointer(type_storage, sub) {
                    Ok(t) => t,
                    Err(e) => {
                        return Err(e);
                    },
                }
            },
            DieTag::ArrayType => {
                let sub = Self::process_entry_type(type_storage, unit, idx, visited, fuel)?;
                let mut dimensions: Vec<usize> = Vec::new();
                let nc = entry.children.len();
                let mut i: usize = 0;
                while i < nc
                    invariant
                        visited.wf(),
                        nc == unit.nodes@[idx as int].children@.len(),
                        idx < unit.nodes@.len(),
                        type_storage@.len() > old(type_storage)@.len(),
                        !old(visited)@.dom().contains(unit.nodes@[idx as int].offset as u64),
                        unit.nodes@[idx as int].tag != DieTag::BaseType,
                    decreases nc - i,
                {
                    let ci = unit.nodes[idx].children[i];
                    if ci < unit.nodes.len() && unit.nodes[ci].tag == DieTag::SubrangeType {
                        let child = &unit.nodes[ci];
                        let count: u64 = match child.count {
                            Some(c) => c,
                            None => {
                                let lower = match child.lower_bound {
                                    Some(l) => l,
                                    None => 0,
                                };
                                let upper = match child.upper_bound {
                                    Some(u) => u,
                                    None => {
                                        return Err(DwarfError::MissingAttr);
                                    },
                                };
                                if upper < lower || upper - lower == u64::MAX {
                                    return Err(DwarfError::BadValue);
                                }
                                upper - lower + 1
                            },
                        };
                        if count > usize::MAX as u64 {
                            return Err(DwarfError::Overflow);
                        }
                        dimensions.push(count as usize);
                    }
                    i = i + 1;
                }
                if dimensions.len() == 0 {
                    return Err(DwarfError::MissingAttr);
                }
                // nested dimensions become nested array types, innermost
                // last
                let mut inner_sub = sub;
                let mut k: usize = dimensions.len();
                while k > 1
                    invariant
                        k <= dimensions@.len(),
                        type_storage@.len() > old(type_storage)@.len(),
                    decreases k,
                {
                    k = k - 1;
                    inner_sub = type_storage.add(
                        Type::Array {
                            subtype_id: inner_sub,
                            count: ArrayCount::Static(dimensions[k]),
                        },
                    );
                }
                Type::Array { subtype_id: inner_sub, count: ArrayCount::Static(dimensions[0]) }
            },
            DieTag::StructureType => {
                let name = Self::clone_name(entry);
                let size = match Self::byte_size_u16(entry) {
                    Ok(s) => s,
                    Err(e) => {
                        return Err(e);
                    },
                };
                let mut fields: Vec<Field> = Vec::new();
                let nc = entry.children.len();
                let mut i: usize = 0;
                while i < nc
                    invariant
                        visited.wf(),
                        nc == unit.nodes@[idx as int].children@.len(),
                        idx < unit.nodes@.len(),
                        type_storage@.len() > old(type_storage)@.len(),
                        !old(visited)@.dom().contains(unit.nodes@[idx as int].offset as u64),
                        unit.nodes@[idx as int].tag != DieTag::BaseType,
                    decreases nc - i,
                {
                    let ci = unit.nodes[idx].children[i];
                    if ci < unit.nodes.len() && unit.nodes[ci].tag == DieTag::Member {
                        let member_name = match &unit.nodes[ci].name {
                            Some(n) => n.clone(),
                            None => {
                                return Err(DwarfError::MissingAttr);
                            },
                        };
                        let member_location = match unit.nodes[ci].data_member_location {
                            Some(l) => {
                                if l > u16::MAX as u64 {
                                    return Err(DwarfError::Overflow);
                                }
                                l as u16
                            },
                            None => {
                                return Err(DwarfError::MissingAttr);
                            },
                        };
                        let member_type_id = Self::process_entry_type(
                            type_storage,
                            unit,
                            ci,
                            visited,
                            fuel,
                        )?;
                        fields.push(
                            Field {
                                name: member_name,
                                type_id: member_type_id,
                                offset: member_location,
                            },
                        );
                    }
                    i = i + 1;
                }
                Type::Struct { name, size, fields }
            },
            DieTag::EnumerationType => {
                let name = Self::clone_name(entry);
                let (enc, size): (TypeEncoding, u16) = match entry.type_ref {
                    Some(_) => {
                        let sub = Self::process_entry_type(
                            type_storage,
                            unit,
                            idx,
                            visited,
                            fuel,
                        )?;
                        match type_storage.get(sub) {
                            Ok(Type::Base { encoding, size, .. }) => (*encoding, *size),
                            _ => {
                                return Err(DwarfError::BadValue);
                            },
                        }
                    },
                    None => {
                        let ate = match entry.encoding {
                            Some(e) => e,
                            None => {
                                return Err(DwarfError::MissingAttr);
                            },
                        };
                        let size = match Self::byte_size_u16(entry) {
                            Ok(s) => s,
                            Err(e) => {
                                return Err(e);
                            },
                        };
                        (encoding_of(ate), size)
                    },
                };
                let mut variants: Vec<EnumVariant> = Vec::new();
                let nc = entry.children.len();
                let mut i: usize = 0;
                while i < nc
                    invariant
                        visited.wf(),
                        nc == unit.nodes@[idx as int].children@.len(),
                        idx < unit.nodes@.len(),
                        type_storage@.len() > old(type_storage)@.len(),
                        !old(visited)@.dom().contains(unit.nodes@[idx as int].offset as u64),
                        unit.nodes@[idx as int].tag != DieTag::BaseType,
                    decreases nc - i,
                {
                    let ci = unit.nodes[idx].children[i];
                    if ci < unit.nodes.len() && unit.nodes[ci].tag == DieTag::Enumerator {
                        let vname = match &unit.nodes[ci].name {
                            Some(n) => n.clone(),
                            None => {
                                return Err(DwarfError::MissingAttr);
                            },
                        };
                        let vvalue = match unit.nodes[ci].const_value {
                            Some(v) => v,
                            None => {
                                return Err(DwarfError::MissingAttr);
                            },
                        };
                        variants.push(EnumVariant { name: vname, value: vvalue });
                    }
                    i = i + 1;
                }
                Type::Enum { name, encoding: enc, size, variants }
            },
            DieTag::UnionType => {
                let name = Self::clone_name(entry);
                let size = match Self::byte_size_u16(entry) {
                    Ok(s) => s,
                    Err(e) => {
                        return Err(e);
                    },
                };
                let mut fields: Vec<UnionField> = Vec::new();
                let nc = entry.children.len();
                let mut i: usize = 0;
                while i < nc
                    invariant
                        visited.wf(),
                        nc == unit.nodes@[idx as int].children@.len(),
                        idx < unit.nodes@.len(),
                        type_storage@.len() > old(type_storage)@.len(),
                        !old(visited)@.dom().contains(unit.nodes@[idx as int].offset as u64),
                        unit.nodes@[idx as int].tag != DieTag::BaseType,
                    decreases nc - i,
                {
                    let ci = unit.nodes[idx].children[i];
                    if ci < unit.nodes.len() && unit.nodes[ci].tag == DieTag::Member {
                        let member_name = match &unit.nodes[ci].name {
                            Some(n) => n.clone(),
                            None => {
                                return Err(DwarfError::MissingAttr);
                            },
                        };
                        let member_type_id = Self::process_entry_type(
                            type_storage,
                            unit,
                            ci,
                            visited,
                            fuel,
                        )?;
                        fields.push(UnionField { name: member_name, type_id: member_type_id });
                    }
                    i = i + 1;
                }
                Type::Union { name, size, fields }
            },
            DieTag::Typedef => {
                let name = match &entry.name {
                    Some(n) => n.clone(),
                    None => {
                        return Err(DwarfError::MissingAttr);
                    },
                };
                let sub = Self::process_entry_type(type_storage, unit, idx, visited, fuel)?;
                Type::Typedef(name, sub)
            },
            DieTag::SubroutineType => {
                let name = Self::clone_name(entry);
                let return_type_id = Self::process_entry_type(
                    type_storage,
                    unit,
                    idx,
                    visited,
                    fuel,
                )?;
                let mut args: Vec<TypeId> = Vec::new();
                let nc = entry.children.len();
                let mut i: usize = 0;
                while i < nc
                    invariant
                        visited.wf(),
                        nc == unit.nodes@[idx as int].children@.len(),
                        idx < unit.nodes@.len(),
                        type_storage@.len() > old(type_storage)@.len(),
                        !old(visited)@.dom().contains(unit.nodes@[idx as int].offset as u64),
                        unit.nodes@[idx as int].tag != DieTag::BaseType,
                    decreases nc - i,
                {
                    let ci = unit.nodes[idx].children[i];
                    if ci < unit.nodes.len() && unit.nodes[ci].tag == DieTag::FormalParameter {
                        let at = Self::process_entry_type(type_storage, unit, ci, visited, fuel)?;
                        args.push(at);
                    }
                    i = i + 1;
                }
                Type::FuncDef { name, return_type_id, args }
            },
            _ => {
                return Err(DwarfError::UnexpectedTag);
            },
        };

        let ghost pre_final = type_storage@;
        match type_storage.replace(type_id, typ) {
            Ok(_) => {
                proof {
                    if unit.nodes@[idx as int].tag == DieTag::PointerType {
                        assert(pre_final == cls_state);
                        assert(typ == pointer_classification(cls_state, cls_sub));
                        assert(cls_state[type_id as int] == Type::Pointer(cls_sub));
                        assert(typ is Pointer || typ is CString || typ is Func);
                        assert(type_storage@ == cls_state.update(type_id as int, typ));
                        assert forall|j: int|
                            0 <= j < cls_state.len() && j != type_id implies cls_state[j]
                            == type_storage@[j] by {}
                        lemma_classification_update(
                            cls_state,
                            type_storage@,
                            cls_sub,
                            type_id as int,
                        );
                        assert(type_storage@[type_id as int] == pointer_classification(
                            type_storage@,
                            cls_sub,
                        ));
                    }
                }
                Ok(type_id)
            },
            Err(_) => Err(DwarfError::BadValue),
        }
    }

    /// The node a pointer entry stores, decided from its pointee as
    /// `pointer_classification` says; a pointee whose qualifier chain
    /// comes back to itself cannot be classified.
    fn classify_pointer(type_storage: &TypeStorage, sub: TypeId) -> (r: Result<Type, DwarfError>)
        ensures
            crate::types::unwind_id_spec(type_storage@, sub as int, type_storage@.len() as nat)
                is Ok ==> r == Ok::<Type, DwarfError>(pointer_classification(type_storage@, sub)),
            crate::types::unwind_id_spec(type_storage@, sub as int, type_storage@.len() as nat)
                is Err ==> r == Err::<Type, DwarfError>(DwarfError::CyclicType),
    {
        match type_storage.unwind_type(sub) {
            Ok(t) => match t {
                Type::Base { encoding, .. } => {
                    // a pointer to signed char is shown as a C string
                    if *encoding == TypeEncoding::SignedChar {
                        Ok(Type::CString(sub))
                    } else {
                        Ok(Type::Pointer(sub))
                    }
                },
                Type::FuncDef { .. } => Ok(Type::Func(sub)),
                _ => Ok(Type::Pointer(sub)),
            },
            Err(_) => Err(DwarfError::CyclicType),
        }
    }

    fn clone_name(entry: &DieNode) -> (r: Option<String>)
        ensures
            r is Some <==> entry.name is Some,
    {
        match &entry.name {
            Some(n) => Some(n.clone()),
            None => None,
        }
    }

    fn byte_size_u16(entry: &DieNode) -> (r: Result<u16, DwarfError>)
        ensures
            r matches Ok(s) ==> entry.byte_size == Some(s as u64),
            entry.byte_size is None ==> r == Err::<u16, DwarfError>(DwarfError::MissingAttr),
            (entry.byte_size is Some && entry.byte_size.unwrap() <= u16::MAX) ==> r is Ok,
    {
        match entry.byte_size {
            Some(s) => {
                if s > u16::MAX as u64 {
                    Err(DwarfError::Overflow)
                } else {
                    Ok(s as u16)
                }
            },
            None => Err(DwarfError::MissingAttr),
        }
    }
}

} // verus!
