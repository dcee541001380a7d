use vstd::prelude::*;
use crate::codec::{decode_i64_le, decode_u64_le, le_value, lemma_pow256_values, pow256, sign_of};
use crate::error::DebuggerError;
use crate::loc_finder::LocFinder;
use crate::tables::U64Map;
use crate::text::{dec_digits, dec_signed, hex_digits, i64_to_string, u64_to_hex_string,
    u64_to_string};
use crate::types::{ArrayCount, EnumVariant, Field, Type, TypeEncoding, TypeId, TypeStorage,
    UnionField, size_of_spec};
use crate::var::Var;

verus! {

/// Renders types and values the way the `print` command shows them.  The
/// strings behind C string pointers live in the tracee; the controller
/// reads them beforehand and passes them in by address.
pub struct Printer<'a> {
    pub types: &'a TypeStorage,
    pub loc_finder: &'a LocFinder,
    pub strings: &'a U64Map<String>,
}

/// What `print` shows for a decoded scalar: the exact decimal for signed
/// and unsigned bases, `true`/`false` for booleans, `null` or hex for
/// pointers.
pub open spec fn scalar_rendering(encoding: TypeEncoding, size: int, bytes: Seq<u8>) -> Option<
    Seq<char>,
> {
    if encoding == TypeEncoding::Signed {
        Some(dec_signed(sign_of(le_value(bytes.subrange(0, size)), size)))
    } else if encoding == TypeEncoding::Unsigned {
        Some(dec_digits(le_value(bytes.subrange(0, size)) as nat))
    } else if encoding == TypeEncoding::Boolean {
        if bytes[0] != 0 {
            Some("true"@)
        } else {
            Some("false"@)
        }
    } else {
        None
    }
}

/// The first variant holding this value, as `print` names an enum.
pub open spec fn variant_name_by_value(variants: Seq<crate::types::EnumVariant>, v: i64) -> Option<
    Seq<char>,
>
    decreases variants.len(),
{
    if variants.len() == 0 {
        None
    } else if variants[0].value == v {
        Some(variants[0].name@)
    } else {
        variant_name_by_value(variants.skip(1), v)
    }
}

pub proof fn lemma_variant_name_by_value_first(
    variants: Seq<crate::types::EnumVariant>,
    v: i64,
    k: int,
)
    requires
        0 <= k < variants.len(),
        variants[k].value == v,
        forall|j: int| 0 <= j < k ==> (#[trigger] variants[j]).value != v,
    ensures
        variant_name_by_value(variants, v) == Some(variants[k].name@),
    decreases k,
{
    if k > 0 {
        lemma_variant_name_by_value_first(variants.skip(1), v, k - 1);
        assert forall|j: int| 0 <= j < k - 1 implies (#[trigger] variants.skip(1)[j]).value
            != v by {
            assert(variants.skip(1)[j] == variants[j + 1]);
        }
        assert(variants.skip(1)[k - 1] == variants[k]);
    }
}

pub proof fn lemma_variant_name_by_value_none(variants: Seq<crate::types::EnumVariant>, v: i64)
    requires
        forall|j: int| 0 <= j < variants.len() ==> (#[trigger] variants[j]).value != v,
    ensures
        variant_name_by_value(variants, v) is None,
    decreases variants.len(),
{
    if variants.len() > 0 {
        assert forall|j: int|
            0 <= j < variants.skip(1).len() implies (#[trigger] variants.skip(1)[j]).value
            != v by {
            assert(variants.skip(1)[j] == variants[j + 1]);
        }
        lemma_variant_name_by_value_none(variants.skip(1), v);
    }
}

pub proof fn lemma_variant_by_name_first(variants: Seq<crate::types::EnumVariant>, nm: Seq<char>)
    ensures
        match crate::evaluator::variant_by_name(variants, nm) {
            Some(v) => exists|k: int|
                0 <= k < variants.len() && (#[trigger] variants[k]).name@ == nm && (
                variants[k]).value == v,
            None => forall|j: int|
                0 <= j < variants.len() ==> (#[trigger] variants[j]).name@ != nm,
        },
    decreases variants.len(),
{
    if variants.len() > 0 {
        lemma_variant_by_name_first(variants.skip(1), nm);
        if variants[0].name@ != nm {
            match crate::evaluator::variant_by_name(variants.skip(1), nm) {
                Some(v) => {
                    let k = choose|k: int|
                        0 <= k < variants.skip(1).len() && (#[trigger] variants.skip(1)[k]).name@
                            == nm && variants.skip(1)[k].value == v;
                    assert(variants[k + 1] == variants.skip(1)[k]);
                },
                None => {
                    assert forall|j: int|
                        0 <= j < variants.len() implies (#[trigger] variants[j]).name@ != nm by {
                        if j > 0 {
                            assert(variants.skip(1)[j - 1] == variants[j]);
                        }
                    }
                },
            }
        }
    }
}

/// Setting an enum by variant name and printing it back shows the same
/// name, provided the variants carry distinct values (with a shared
/// value, `print` names the first variant holding it).
pub proof fn lemma_enum_set_print_round_trip(
    variants: Seq<crate::types::EnumVariant>,
    nm: Seq<char>,
)
    requires
        forall|i: int, j: int|
            0 <= i < j < variants.len() ==> (#[trigger] variants[i]).value != (
            #[trigger] variants[j]).value,
        crate::evaluator::variant_by_name(variants, nm) is Some,
    ensures
        variant_name_by_value(
            variants,
            crate::evaluator::variant_by_name(variants, nm).unwrap(),
        ) == Some(nm),
{
    let v = crate::evaluator::variant_by_name(variants, nm).unwrap();
    lemma_variant_by_name_first(variants, nm);
    let k = choose|k: int|
        0 <= k < variants.len() && (#[trigger] variants[k]).name@ == nm && variants[k].value == v;
    let k0 = choose|k0: int|
        0 <= k0 <= k && (#[trigger] variants[k0]).value == v && forall|j: int|
            0 <= j < k0 ==> (#[trigger] variants[j]).value != v;
    assert(exists|k0: int|
        0 <= k0 <= k && (#[trigger] variants[k0]).value == v && forall|j: int|
            0 <= j < k0 ==> (#[trigger] variants[j]).value != v) by {
        assert forall|m: int|
            0 <= m <= k && (#[trigger] variants[m]).value == v implies m == k by {
            if m < k {
                assert(variants[m].value != variants[k].value);
            }
        }
        assert(variants[k].value == v);
        assert(forall|j: int| 0 <= j < k ==> (#[trigger] variants[j]).value != v);
    }
    assert(variants[k0].value == v);
    assert(k0 == k) by {
        if k0 < k {
            assert(variants[k0].value != variants[k].value);
        }
    }
    lemma_variant_name_by_value_first(variants, v, k);
}

/// Setting an unsigned scalar from its decimal text and printing it back
/// shows the same number in canonical digits.
pub proof fn lemma_scalar_set_print_round_trip(text: Seq<char>, size: int, full: Seq<u8>)
    requires
        1 <= size <= 8,
        text.len() > 0,
        crate::text::all_dec_digits(text),
        crate::text::dec_value(text) < pow256(size),
        full.len() >= size,
        le_value(full.subrange(0, size)) == crate::text::dec_value(text),
    ensures
        scalar_rendering(TypeEncoding::Unsigned, size, full) == Some(
            dec_digits(crate::text::dec_value(text) as nat),
        ),
        crate::text::dec_value(dec_digits(crate::text::dec_value(text) as nat))
            == crate::text::dec_value(text),
{
    crate::text::lemma_dec_value_grows(text, 0, text.len() as int);
    assert(text.subrange(0, text.len() as int) =~= text);
    crate::text::lemma_dec_roundtrip(crate::text::dec_value(text) as nat);
}

/// Setting a signed scalar and printing it back shows the same number:
/// whatever bytes hold the value's two's complement, the rendering is its
/// signed decimal.
pub proof fn lemma_signed_scalar_set_print_round_trip(v: i64, size: int, full: Seq<u8>)
    requires
        1 <= size <= 8,
        full.len() >= size,
        sign_of(le_value(full.subrange(0, size)), size) == v as int,
    ensures
        scalar_rendering(TypeEncoding::Signed, size, full) == Some(dec_signed(v as int)),
{
}

/// The name of the function whose recorded range contains `a`, if any;
/// well defined because a well-formed index holds disjoint ranges.
pub open spec fn func_name_at(funcs: Seq<(u64, u64, String)>, a: u64) -> Option<Seq<char>> {
    if exists|i: int| 0 <= i < funcs.len() && (#[trigger] funcs[i]).0 <= a && a <= funcs[i].1 {
        Some(
            funcs[choose|i: int|
                0 <= i < funcs.len() && (#[trigger] funcs[i]).0 <= a && a <= funcs[i].1].2@,
        )
    } else {
        None
    }
}

/// The C-style name of the type at `id`, exactly as `render_type` prints
/// it; the fuel bounds recursion through the graph, and a store or fuel
/// that gives out is an invalid path.
pub open spec fn type_rendering(s: Seq<Type>, id: int, fuel: nat) -> Result<
    Seq<char>,
    DebuggerError,
>
    decreases fuel, 0nat, 0nat,
{
    if fuel == 0 {
        Err(DebuggerError::InvalidPath)
    } else if !(0 <= id < s.len()) {
        Err(DebuggerError::InvalidPath)
    } else {
        match s[id] {
            Type::Void => Ok("void"@),
            Type::Base { name, encoding, .. } => if encoding == TypeEncoding::Boolean {
                Ok("bool"@)
            } else {
                Ok(name@)
            },
            Type::Const(sub) => match type_rendering(s, sub as int, (fuel - 1) as nat) {
                Ok(inner) => Ok("const "@ + inner),
                Err(e) => Err(e),
            },
            Type::Volatile(sub) => match type_rendering(s, sub as int, (fuel - 1) as nat) {
                Ok(inner) => Ok("volatile "@ + inner),
                Err(e) => Err(e),
            },
            Type::Atomic(sub) => match type_rendering(s, sub as int, (fuel - 1) as nat) {
                Ok(inner) => Ok("_Atomic "@ + inner),
                Err(e) => Err(e),
            },
            Type::Pointer(sub) => match type_rendering(s, sub as int, (fuel - 1) as nat) {
                Ok(inner) => Ok(inner + "*"@),
                Err(e) => Err(e),
            },
            Type::CString(sub) => match type_rendering(s, sub as int, (fuel - 1) as nat) {
                Ok(inner) => Ok(inner + "*"@),
                Err(e) => Err(e),
            },
            Type::Array { subtype_id, count } => match type_rendering(
                s,
                subtype_id as int,
                (fuel - 1) as nat,
            ) {
                Ok(inner) => match count {
                    ArrayCount::Static(n) => Ok(inner + "["@ + dec_digits(n as nat) + "]"@),
                    _ => Ok(inner + "[]"@),
                },
                Err(e) => Err(e),
            },
            Type::Struct { name, fields, .. } => match name {
                Some(n) => Ok(n@),
                None => match struct_fields_rendering(
                    s,
                    fields@,
                    fields@.len() as int,
                    (fuel - 1) as nat,
                ) {
                    Ok(body) => Ok("struct { "@ + body + " }"@),
                    Err(e) => Err(e),
                },
            },
            Type::Enum { name, variants, .. } => match name {
                Some(n) => Ok(n@),
                None => Ok(
                    "enum { "@ + variant_names_rendering(variants@, variants@.len() as int)
                        + " }"@,
                ),
            },
            Type::Union { name, fields, .. } => match name {
                Some(n) => Ok("union "@ + n@),
                None => match union_fields_rendering(
                    s,
                    fields@,
                    fields@.len() as int,
                    (fuel - 1) as nat,
                ) {
                    Ok(body) => Ok("union { "@ + body + " }"@),
                    Err(e) => Err(e),
                },
            },
            Type::Typedef(name, _) => Ok(name@),
            Type::FuncDef { name, return_type_id, args } => match type_rendering(
                s,
                return_type_id as int,
                (fuel - 1) as nat,
            ) {
                Ok(rt) => match args_rendering(s, args@, args@.len() as int, (fuel - 1) as nat) {
                    Ok(ar) => Ok(
                        rt + " "@ + (match name {
                            Some(n) => n@,
                            None => Seq::<char>::empty(),
                        }) + "("@ + ar + ")"@,
                    ),
                    Err(e) => Err(e),
                },
                Err(e) => Err(e),
            },
            Type::Func(sub) => type_rendering(s, sub as int, (fuel - 1) as nat),
        }
    }
}

/// The first `i` members of an anonymous struct, comma separated, each
/// as `TYPE NAME`.
pub open spec fn struct_fields_rendering(
    s: Seq<Type>,
    fields: Seq<Field>,
    i: int,
    fuel: nat,
) -> Result<Seq<char>, DebuggerError>
    decreases fuel, 1nat, (if i <= 0 { 0int } else { i }),
{
    if i <= 0 {
        Ok(Seq::<char>::empty())
    } else {
        match struct_fields_rendering(s, fields, i - 1, fuel) {
            Err(e) => Err(e),
            Ok(prefix) => match type_rendering(s, fields[i - 1].type_id as int, fuel) {
                Err(e) => Err(e),
                Ok(ft) => Ok(
                    prefix + (if i > 1 {
                        ", "@
                    } else {
                        Seq::<char>::empty()
                    }) + ft + " "@ + fields[i - 1].name@,
                ),
            },
        }
    }
}

/// The first `i` variant names of an anonymous enum, comma separated.
pub open spec fn variant_names_rendering(variants: Seq<EnumVariant>, i: int) -> Seq<char>
    decreases (if i <= 0 { 0int } else { i }),
{
    if i <= 0 {
        Seq::<char>::empty()
    } else {
        variant_names_rendering(variants, i - 1) + (if i > 1 {
            ", "@
        } else {
            Seq::<char>::empty()
        }) + variants[i - 1].name@
    }
}

/// The first `i` members of an anonymous union, comma separated.
pub open spec fn union_fields_rendering(
    s: Seq<Type>,
    fields: Seq<UnionField>,
    i: int,
    fuel: nat,
) -> Result<Seq<char>, DebuggerError>
    decreases fuel, 1nat, (if i <= 0 { 0int } else { i }),
{
    if i <= 0 {
        Ok(Seq::<char>::empty())
    } else {
        match union_fields_rendering(s, fields, i - 1, fuel) {
            Err(e) => Err(e),
            Ok(prefix) => match type_rendering(s, fields[i - 1].type_id as int, fuel) {
                Err(e) => Err(e),
                Ok(ft) => Ok(
                    prefix + (if i > 1 {
                        ", "@
                    } else {
                        Seq::<char>::empty()
                    }) + ft + " "@ + fields[i - 1].name@,
                ),
            },
        }
    }
}

/// The first `i` argument types of a function type, comma separated.
pub open spec fn args_rendering(s: Seq<Type>, args: Seq<TypeId>, i: int, fuel: nat) -> Result<
    Seq<char>,
    DebuggerError,
>
    decreases fuel, 1nat, (if i <= 0 { 0int } else { i }),
{
    if i <= 0 {
        Ok(Seq::<char>::empty())
    } else {
        match args_rendering(s, args, i - 1, fuel) {
            Err(e) => Err(e),
            Ok(prefix) => match type_rendering(s, args[i - 1] as int, fuel) {
                Err(e) => Err(e),
                Ok(at) => Ok(
                    prefix + (if i > 1 {
                        ", "@
                    } else {
                        Seq::<char>::empty()
                    }) + at,
                ),
            },
        }
    }
}

/// The text `render_value` prints for the value whose bytes start at
/// `offset` in `buf`, given the pre-read C strings and the function
/// ranges that name function pointers.
pub open spec fn value_rendering(
    s: Seq<Type>,
    strings: Map<u64, String>,
    funcs: Seq<(u64, u64, String)>,
    id: int,
    buf: Seq<u8>,
    offset: int,
    fuel: nat,
) -> Result<Seq<char>, DebuggerError>
    decreases fuel, 0nat, 0nat,
{
    if fuel == 0 {
        Err(DebuggerError::InvalidPath)
    } else if !(0 <= id < s.len()) {
        Err(DebuggerError::InvalidPath)
    } else {
        match s[id] {
            Type::Void => Err(DebuggerError::InvalidPath),
            Type::Union { .. } => Err(DebuggerError::InvalidPath),
            Type::FuncDef { .. } => Err(DebuggerError::InvalidPath),
            Type::Base { encoding, size, .. } => if !(1 <= size <= 8) || offset < 0 || offset
                + size > buf.len() {
                Err(DebuggerError::InvalidValue)
            } else if encoding == TypeEncoding::Boolean {
                if buf[offset] != 0 {
                    Ok("true"@)
                } else {
                    Ok("false"@)
                }
            } else if encoding == TypeEncoding::Signed || encoding == TypeEncoding::SignedChar {
                Ok(dec_signed(sign_of(le_value(buf.subrange(offset, offset + size)), size as int)))
            } else if encoding == TypeEncoding::Unsigned || encoding
                == TypeEncoding::UnsignedChar {
                Ok(dec_digits(le_value(buf.subrange(offset, offset + size)) as nat))
            } else {
                Err(DebuggerError::InvalidValue)
            },
            Type::Const(sub) => value_rendering(
                s,
                strings,
                funcs,
                sub as int,
                buf,
                offset,
                (fuel - 1) as nat,
            ),
            Type::Volatile(sub) => value_rendering(
                s,
                strings,
                funcs,
                sub as int,
                buf,
                offset,
                (fuel - 1) as nat,
            ),
            Type::Atomic(sub) => value_rendering(
                s,
                strings,
                funcs,
                sub as int,
                buf,
                offset,
                (fuel - 1) as nat,
            ),
            Type::Typedef(_, sub) => value_rendering(
                s,
                strings,
                funcs,
                sub as int,
                buf,
                offset,
                (fuel - 1) as nat,
            ),
            Type::Pointer(_) => if offset < 0 || offset + 8 > buf.len() {
                Err(DebuggerError::InvalidValue)
            } else {
                let p = le_value(buf.subrange(offset, offset + 8));
                if p == 0 {
                    Ok("null"@)
                } else {
                    Ok(seq!['0', 'x'] + hex_digits(p as nat))
                }
            },
            Type::Func(_) => if offset < 0 || offset + 8 > buf.len() {
                Err(DebuggerError::InvalidValue)
            } else {
                let p = le_value(buf.subrange(offset, offset + 8));
                if p == 0 {
                    Ok("null"@)
                } else {
                    match func_name_at(funcs, p as u64) {
                        Some(nm) => Ok(nm),
                        None => Ok(seq!['0', 'x'] + hex_digits(p as nat)),
                    }
                }
            },
            Type::CString(_) => if offset < 0 || offset + 8 > buf.len() {
                Err(DebuggerError::InvalidValue)
            } else {
                let p = le_value(buf.subrange(offset, offset + 8));
                if strings.dom().contains(p as u64) {
                    Ok(seq!['"'] + escaped_seq(strings[p as u64]@) + seq!['"'])
                } else {
                    Err(DebuggerError::InvalidLocation)
                }
            },
            Type::Array { subtype_id, count } => match count {
                ArrayCount::Static(n) => match size_of_spec(s, subtype_id as int, s.len() as nat) {
                    Ok(es) => match array_elems_rendering(
                        s,
                        strings,
                        funcs,
                        subtype_id as int,
                        n as int,
                        buf,
                        offset,
                        es,
                        (fuel - 1) as nat,
                    ) {
                        Ok(body) => Ok("["@ + body + "]"@),
                        Err(e) => Err(e),
                    },
                    Err(_) => Err(DebuggerError::InvalidValue),
                },
                _ => Ok("[...]"@),
            },
            Type::Struct { fields, .. } => match struct_values_rendering(
                s,
                strings,
                funcs,
                fields@,
                fields@.len() as int,
                buf,
                offset,
                (fuel - 1) as nat,
            ) {
                Ok(body) => Ok("{ "@ + body + " }"@),
                Err(e) => Err(e),
            },
            Type::Enum { encoding, size, variants, .. } => if !(1 <= size <= 8) || offset < 0
                || offset + size > buf.len() {
                Err(DebuggerError::InvalidValue)
            } else {
                let u = le_value(buf.subrange(offset, offset + size));
                if encoding == TypeEncoding::Signed {
                    match variant_name_by_value(variants@, sign_of(u, size as int) as i64) {
                        Some(nm) => Ok(nm),
                        None => Ok(dec_signed(sign_of(u, size as int))),
                    }
                } else if encoding == TypeEncoding::Unsigned {
                    if u > i64::MAX {
                        Err(DebuggerError::InvalidValue)
                    } else {
                        match variant_name_by_value(variants@, u as i64) {
                            Some(nm) => Ok(nm),
                            None => Ok(dec_signed(u)),
                        }
                    }
                } else {
                    Err(DebuggerError::InvalidValue)
                }
            },
        }
    }
}

/// The first `i` elements of an array value, comma separated; an element
/// offset past the address space is refused.
pub open spec fn array_elems_rendering(
    s: Seq<Type>,
    strings: Map<u64, String>,
    funcs: Seq<(u64, u64, String)>,
    subtype_id: int,
    i: int,
    buf: Seq<u8>,
    offset: int,
    elem_size: int,
    fuel: nat,
) -> Result<Seq<char>, DebuggerError>
    decreases fuel, 1nat, (if i <= 0 { 0int } else { i }),
{
    if i <= 0 {
        Ok(Seq::<char>::empty())
    } else {
        match array_elems_rendering(
            s,
            strings,
            funcs,
            subtype_id,
            i - 1,
            buf,
            offset,
            elem_size,
            fuel,
        ) {
            Err(e) => Err(e),
            Ok(prefix) => if (i - 1) * elem_size > usize::MAX || (i - 1) * elem_size + offset
                > usize::MAX {
                Err(DebuggerError::InvalidValue)
            } else {
                match value_rendering(
                    s,
                    strings,
                    funcs,
                    subtype_id,
                    buf,
                    offset + (i - 1) * elem_size,
                    fuel,
                ) {
                    Err(e) => Err(e),
                    Ok(ev) => Ok(
                        prefix + (if i > 1 {
                            ", "@
                        } else {
                            Seq::<char>::empty()
                        }) + ev,
                    ),
                }
            },
        }
    }
}

/// The first `i` members of a struct value, comma separated, each as
/// `name = value` at the member's offset.
pub open spec fn struct_values_rendering(
    s: Seq<Type>,
    strings: Map<u64, String>,
    funcs: Seq<(u64, u64, String)>,
    fields: Seq<Field>,
    i: int,
    buf: Seq<u8>,
    offset: int,
    fuel: nat,
) -> Result<Seq<char>, DebuggerError>
    decreases fuel, 1nat, (if i <= 0 { 0int } else { i }),
{
    if i <= 0 {
        Ok(Seq::<char>::empty())
    } else {
        match struct_values_rendering(s, strings, funcs, fields, i - 1, buf, offset, fuel) {
            Err(e) => Err(e),
            Ok(prefix) => if offset + fields[i - 1].offset > usize::MAX {
                Err(DebuggerError::InvalidValue)
            } else {
                match value_rendering(
                    s,
                    strings,
                    funcs,
                    fields[i - 1].type_id as int,
                    buf,
                    offset + fields[i - 1].offset,
                    fuel,
                ) {
                    Err(e) => Err(e),
                    Ok(fv) => Ok(
                        prefix + (if i > 1 {
                            ", "@
                        } else {
                            Seq::<char>::empty()
                        }) + fields[i - 1].name@ + " = "@ + fv,
                    ),
                }
            },
        }
    }
}

impl<'a> Printer<'a> {
    pub fn new(
        types: &'a TypeStorage,
        loc_finder: &'a LocFinder,
        strings: &'a U64Map<String>,
    ) -> (r: Self)
        ensures
            r.types == types,
            r.loc_finder == loc_finder,
            r.strings == strings,
    {
        Printer { types, loc_finder, strings }
    }

    /// `TYPE NAME = VALUE`, the full `print` line for one variable.
    pub fn render(&self, var: &Var) -> (r: Result<String, DebuggerError>)
        requires
            self.loc_finder.wf(),
            self.strings.wf(),
        ensures
            (match type_rendering(self.types@, var.value.type_id as int, 32) {
                Err(e) => r == Err::<String, DebuggerError>(e),
                Ok(t) => match value_rendering(
                    self.types@,
                    self.strings@,
                    self.loc_finder.func_ranges_spec(),
                    var.value.type_id as int,
                    var.value.buf@,
                    0,
                    32,
                ) {
                    Err(e) => r == Err::<String, DebuggerError>(e),
                    Ok(v) => r matches Ok(out) && out@ == t + " "@ + var.name@ + " = "@ + v,
                },
            }),
    {
        let t = self.render_type(var.value.type_id, 32)?;
        let v = self.render_value(var.value.type_id, &var.value.buf, 0, 32)?;
        let out = t.concat(" ").concat(var.name.as_str()).concat(" = ").concat(v.as_str());
        proof {
            assert(out@ =~= t@ + " "@ + var.name@ + " = "@ + v@);
        }
        Ok(out)
    }

    /// The C-style rendering of a type's name.  Recursion through the
    /// type graph carries fuel, so malformed cyclic stores report an
    /// error instead of spinning.
    pub fn render_type(&self, type_id: usize, fuel: usize) -> (r: Result<String, DebuggerError>)
        ensures
            (match type_rendering(self.types@, type_id as int, fuel as nat) {
                Ok(t) => r matches Ok(out) && out@ == t,
                Err(e) => r == Err::<String, DebuggerError>(e),
            }),
        decreases fuel, 0nat, 0nat,
    {
        if fuel == 0 {
            return Err(DebuggerError::InvalidPath);
        }
        let t = match self.types.get(type_id) {
            Ok(t) => t,
            Err(_) => {
                return Err(DebuggerError::InvalidPath);
            },
        };
        match t {
            Type::Void => Ok("void".to_owned()),
            Type::Base { name, encoding, .. } => {
                if *encoding == TypeEncoding::Boolean {
                    Ok("bool".to_owned())
                } else {
                    Ok(name.clone())
                }
            },
            Type::Const(sub) => {
                let inner = self.render_type(*sub, fuel - 1)?;
                Ok("const ".to_owned().concat(inner.as_str()))
            },
            Type::Volatile(sub) => {
                let inner = self.render_type(*sub, fuel - 1)?;
                Ok("volatile ".to_owned().concat(inner.as_str()))
            },
            Type::Atomic(sub) => {
                let inner = self.render_type(*sub, fuel - 1)?;
                Ok("_Atomic ".to_owned().concat(inner.as_str()))
            },
            Type::Pointer(sub) => {
                let inner = self.render_type(*sub, fuel - 1)?;
                Ok(inner.concat("*"))
            },
            Type::CString(sub) => {
                let inner = self.render_type(*sub, fuel - 1)?;
                Ok(inner.concat("*"))
            },
            Type::Array { subtype_id, count } => {
                let inner = self.render_type(*subtype_id, fuel - 1)?;
                match count {
                    ArrayCount::Static(n) => {
                        let num = u64_to_string(*n as u64);
                        let out = inner.concat("[").concat(num.as_str()).concat("]");
                        proof {
                            assert(out@ =~= inner@ + "["@ + dec_digits(*n as nat) + "]"@);
                        }
                        Ok(out)
                    },
                    _ => Ok(inner.concat("[]")),
                }
            },
            Type::Struct { name, fields, .. } => {
                match name {
                    Some(n) => Ok(n.clone()),
                    None => {
                        let body = self.render_struct_fields(fields, fields.len(), fuel - 1)?;
                        let out = "struct { ".to_owned().concat(body.as_str()).concat(" }");
                        proof {
                            assert(out@ =~= "struct { "@ + body@ + " }"@);
                        }
                        Ok(out)
                    },
                }
            },
            Type::Enum { name, variants, .. } => {
                match name {
                    Some(n) => Ok(n.clone()),
                    None => {
                        let body = self.render_variant_names(variants, variants.len());
                        let out = "enum { ".to_owned().concat(body.as_str()).concat(" }");
                        proof {
                            assert(out@ =~= "enum { "@ + body@ + " }"@);
                        }
                        Ok(out)
                    },
                }
            },
            Type::Union { name, fields, .. } => {
                match name {
                    Some(n) => Ok("union ".to_owned().concat(n.as_str())),
                    None => {
                        let body = self.render_union_fields(fields, fields.len(), fuel - 1)?;
                        let out = "union { ".to_owned().concat(body.as_str()).concat(" }");
                        proof {
                            assert(out@ =~= "union { "@ + body@ + " }"@);
                        }
                        Ok(out)
                    },
                }
            },
            Type::Typedef(name, _) => Ok(name.clone()),
            Type::FuncDef { name, return_type_id, args } => {
                let rt = self.render_type(*return_type_id, fuel - 1)?;
                let ar = self.render_args(args, args.len(), fuel - 1)?;
                let mut out = rt.concat(" ");
                if let Some(n) = name {
                    out = out.concat(n.as_str());
                }
                out = out.concat("(").concat(ar.as_str()).concat(")");
                proof {
                    match name {
                        Some(n) => {
                            assert(out@ =~= rt@ + " "@ + n@ + "("@ + ar@ + ")"@);
                        },
                        None => {
                            assert(out@ =~= rt@ + " "@ + Seq::<char>::empty() + "("@ + ar@
                                + ")"@);
                        },
                    }
                }
                Ok(out)
            },
            Type::Func(sub) => self.render_type(*sub, fuel - 1),
        }
    }

    fn render_struct_fields(&self, fields: &Vec<Field>, i: usize, fuel: usize) -> (r: Result<
        String,
        DebuggerError,
    >)
        requires
            i <= fields@.len(),
        ensures
            (match struct_fields_rendering(self.types@, fields@, i as int, fuel as nat) {
                Ok(t) => r matches Ok(out) && out@ == t,
                Err(e) => r == Err::<String, DebuggerError>(e),
            }),
        decreases fuel, 1nat, i,
    {
        if i == 0 {
            return Ok(String::new());
        }
        let prefix = self.render_struct_fields(fields, i - 1, fuel)?;
        let ft = self.render_type(fields[i - 1].type_id, fuel)?;
        let mut out = prefix;
        if i > 1 {
            out = out.concat(", ");
        }
        out = out.concat(ft.as_str()).concat(" ").concat(fields[i - 1].name.as_str());
        proof {
            let whole = struct_fields_rendering(self.types@, fields@, i - 1, fuel as nat).unwrap();
            if i > 1 {
                assert(out@ =~= whole + ", "@ + ft@ + " "@ + fields@[i - 1].name@);
            } else {
                assert(out@ =~= whole + Seq::<char>::empty() + ft@ + " "@ + fields@[i - 1].name@);
            }
        }
        Ok(out)
    }

    fn render_variant_names(&self, variants: &Vec<EnumVariant>, i: usize) -> (r: String)
        requires
            i <= variants@.len(),
        ensures
            r@ == variant_names_rendering(variants@, i as int),
        decreases i,
    {
        if i == 0 {
            return String::new();
        }
        let prefix = self.render_variant_names(variants, i - 1);
        let mut out = prefix;
        if i > 1 {
            out = out.concat(", ");
        }
        out = out.concat(variants[i - 1].name.as_str());
        proof {
            if i > 1 {
                assert(out@ =~= variant_names_rendering(variants@, i - 1) + ", "@ + variants@[i
                    - 1].name@);
            } else {
                assert(out@ =~= variant_names_rendering(variants@, i - 1) + Seq::<char>::empty()
                    + variants@[i - 1].name@);
            }
        }
        out
    }

    fn render_union_fields(&self, fields: &Vec<UnionField>, i: usize, fuel: usize) -> (r: Result<
        String,
        DebuggerError,
    >)
        requires
            i <= fields@.len(),
        ensures
            (match union_fields_rendering(self.types@, fields@, i as int, fuel as nat) {
                Ok(t) => r matches Ok(out) && out@ == t,
                Err(e) => r == Err::<String, DebuggerError>(e),
            }),
        decreases fuel, 1nat, i,
    {
        if i == 0 {
            return Ok(String::new());
        }
        let prefix = self.render_union_fields(fields, i - 1, fuel)?;
        let ft = self.render_type(fields[i - 1].type_id, fuel)?;
        let mut out = prefix;
        if i > 1 {
            out = out.concat(", ");
        }
        out = out.concat(ft.as_str()).concat(" ").concat(fields[i - 1].name.as_str());
        proof {
            let whole = union_fields_rendering(self.types@, fields@, i - 1, fuel as nat).unwrap();
            if i > 1 {
                assert(out@ =~= whole + ", "@ + ft@ + " "@ + fields@[i - 1].name@);
            } else {
                assert(out@ =~= whole + Seq::<char>::empty() + ft@ + " "@ + fields@[i - 1].name@);
            }
        }
        Ok(out)
    }

    fn render_args(&self, args: &Vec<TypeId>, i: usize, fuel: usize) -> (r: Result<
        String,
        DebuggerError,
    >)
        requires
            i <= args@.len(),
        ensures
            (match args_rendering(self.types@, args@, i as int, fuel as nat) {
                Ok(t) => r matches Ok(out) && out@ == t,
                Err(e) => r == Err::<String, DebuggerError>(e),
            }),
        decreases fuel, 1nat, i,
    {
        if i == 0 {
            return Ok(String::new());
        }
        let prefix = self.render_args(args, i - 1, fuel)?;
        let at = self.render_type(args[i - 1], fuel)?;
        let mut out = prefix;
        if i > 1 {
            out = out.concat(", ");
        }
        out = out.concat(at.as_str());
        proof {
            let whole = args_rendering(self.types@, args@, i - 1, fuel as nat).unwrap();
            if i > 1 {
                assert(out@ =~= whole + ", "@ + at@);
            } else {
                assert(out@ =~= whole + Seq::<char>::empty() + at@);
            }
        }
        Ok(out)
    }

    /// Rendering of the value whose bytes start at `offset` in `buf`:
    /// scalars as their decoded text, pointers as `null` or hex, enums by
    /// variant name, strings quoted from the pre-read table, arrays and
    /// structs by composing their parts.
    #[verifier::loop_isolation(false)]
    pub fn render_value(&self, type_id: usize, buf: &Vec<u8>, offset: usize, fuel: usize) -> (r:
        Result<String, DebuggerError>)
        requires
            self.loc_finder.wf(),
            self.strings.wf(),
        ensures
            (match value_rendering(
                self.types@,
                self.strings@,
                self.loc_finder.func_ranges_spec(),
                type_id as int,
                buf@,
                offset as int,
                fuel as nat,
            ) {
                Ok(t) => r matches Ok(out) && out@ == t,
                Err(e) => r == Err::<String, DebuggerError>(e),
            }),
        decreases fuel, 0nat, 0nat,
    {
        if fuel == 0 {
            return Err(DebuggerError::InvalidPath);
        }
        let t = match self.types.get(type_id) {
            Ok(t) => t,
            Err(_) => {
                return Err(DebuggerError::InvalidPath);
            },
        };
        match t {
            Type::Void | Type::Union { .. } | Type::FuncDef { .. } => Err(
                DebuggerError::InvalidPath,
            ),
            Type::Base { encoding, size, .. } => {
                let size = *size as usize;
                if size < 1 || size > 8 || offset > buf.len() || size > buf.len() - offset {
                    return Err(DebuggerError::InvalidValue);
                }
                match encoding {
                    TypeEncoding::Boolean => {
                        let b = buf[offset];
                        if b != 0 {
                            Ok("true".to_owned())
                        } else {
                            Ok("false".to_owned())
                        }
                    },
                    TypeEncoding::Signed | TypeEncoding::SignedChar => {
                        let v = decode_i64_le(buf, offset, size);
                        Ok(i64_to_string(v))
                    },
                    TypeEncoding::Unsigned | TypeEncoding::UnsignedChar => {
                        let v = decode_u64_le(buf, offset, size);
                        Ok(u64_to_string(v))
                    },
                    _ => Err(DebuggerError::InvalidValue),
                }
            },
            Type::Const(sub) | Type::Volatile(sub) | Type::Atomic(sub) | Type::Typedef(_, sub) => {
                let sub = *sub;
                self.render_value(sub, buf, offset, fuel - 1)
            },
            Type::Pointer(_) => {
                if offset > buf.len() || 8 > buf.len() - offset {
                    return Err(DebuggerError::InvalidValue);
                }
                let p = decode_u64_le(buf, offset, 8);
                if p == 0 {
                    Ok("null".to_owned())
                } else {
                    Ok(u64_to_hex_string(p))
                }
            },
            Type::Func(_) => {
                if offset > buf.len() || 8 > buf.len() - offset {
                    return Err(DebuggerError::InvalidValue);
                }
                let p = decode_u64_le(buf, offset, 8);
                if p == 0 {
                    return Ok("null".to_owned());
                }
                let found = self.loc_finder.find_func_by_address(p);
                proof {
                    self.loc_finder.lemma_func_ranges_disjoint();
                    let fr = self.loc_finder.func_ranges_spec();
                    match &found {
                        Some(name) => {
                            let i = choose|i: int|
                                0 <= i < fr.len() && (#[trigger] fr[i]).0 <= p && p <= fr[i].1
                                    && fr[i].2@ == name@;
                            assert((fr[i]).0 <= p && p <= fr[i].1);
                            let i0 = choose|i2: int|
                                0 <= i2 < fr.len() && (#[trigger] fr[i2]).0 <= p && p <= fr[i2].1;
                            if i < i0 {
                                assert(fr[i].1 < fr[i0].0);
                            } else if i > i0 {
                                assert(fr[i0].1 < fr[i].0);
                            }
                            assert(func_name_at(fr, p) == Some(name@));
                        },
                        None => {
                            if exists|i2: int|
                                0 <= i2 < fr.len() && (#[trigger] fr[i2]).0 <= p && p
                                    <= fr[i2].1 {
                                let i2 = choose|i2: int|
                                    0 <= i2 < fr.len() && (#[trigger] fr[i2]).0 <= p && p
                                        <= fr[i2].1;
                                assert(!((fr[i2]).0 <= p && p <= fr[i2].1));
                            }
                            assert(func_name_at(fr, p) is None);
                        },
                    }
                }
                match found {
                    Some(name) => Ok(name),
                    None => Ok(u64_to_hex_string(p)),
                }
            },
            Type::CString(_) => {
                if offset > buf.len() || 8 > buf.len() - offset {
                    return Err(DebuggerError::InvalidValue);
                }
                let p = decode_u64_le(buf, offset, 8);
                match self.strings.get(p) {
                    Some(s) => Ok(quote_string(s.as_str())),
                    None => Err(DebuggerError::InvalidLocation),
                }
            },
            Type::Array { subtype_id, count } => {
                let subtype_id = *subtype_id;
                let n = match count {
                    ArrayCount::Static(n) => *n,
                    _ => {
                        // lengths that need evaluation render as opaque
                        return Ok("[...]".to_owned());
                    },
                };
                let subtype_size = match self.types.get_type_size(subtype_id) {
                    Ok(s) => s,
                    Err(_) => {
                        return Err(DebuggerError::InvalidValue);
                    },
                };
                let body = self.render_array_elems(
                    subtype_id,
                    n,
                    buf,
                    offset,
                    subtype_size,
                    fuel - 1,
                )?;
                let out = "[".to_owned().concat(body.as_str()).concat("]");
                proof {
                    assert(out@ =~= "["@ + body@ + "]"@);
                }
                Ok(out)
            },
            Type::Struct { fields, .. } => {
                let body = self.render_struct_values(fields, fields.len(), buf, offset, fuel - 1)?;
                let out = "{ ".to_owned().concat(body.as_str()).concat(" }");
                proof {
                    assert(out@ =~= "{ "@ + body@ + " }"@);
                }
                Ok(out)
            },
            Type::Enum { encoding, size, variants, .. } => {
                let size = *size as usize;
                if size < 1 || size > 8 || offset > buf.len() || size > buf.len() - offset {
                    return Err(DebuggerError::InvalidValue);
                }
                let enum_value: i64 = match encoding {
                    TypeEncoding::Signed => decode_i64_le(buf, offset, size),
                    TypeEncoding::Unsigned => {
                        let u = decode_u64_le(buf, offset, size);
                        if u > i64::MAX as u64 {
                            return Err(DebuggerError::InvalidValue);
                        }
                        u as i64
                    },
                    _ => {
                        return Err(DebuggerError::InvalidValue);
                    },
                };
                proof {
                    lemma_pow256_values();
                    crate::codec::lemma_le_value_bound(
                        buf@.subrange(offset as int, offset + size),
                    );
                    crate::codec::lemma_pow256_mono(size as int, 8);
                    let u = le_value(buf@.subrange(offset as int, offset + size));
                    if *encoding == TypeEncoding::Signed {
                        assert(sign_of(u, size as int) as i64 == enum_value);
                    } else {
                        assert(u as i64 == enum_value);
                    }
                }
                let m = variants.len();
                let mut i: usize = 0;
                while i < m
                    invariant
                        m == variants@.len(),
                        i <= m,
                        forall|j: int| 0 <= j < i ==> (#[trigger] variants@[j]).value != enum_value,
                    decreases m - i,
                {
                    if variants[i].value == enum_value {
                        proof {
                            lemma_variant_name_by_value_first(variants@, enum_value, i as int);
                        }
                        let nm = variants[i].name.clone();
                        proof {
                            assert(nm@ == variants@[i as int].name@);
                            assert(variant_name_by_value(variants@, enum_value) == Some(nm@));
                        }
                        return Ok(nm);
                    }
                    i = i + 1;
                }
                proof {
                    lemma_variant_name_by_value_none(variants@, enum_value);
                }
                Ok(i64_to_string(enum_value))
            },
        }
    }

    /// Rendering of an array value whose element count only a DWARF
    /// length expression yields: the caller evaluates the expression and
    /// supplies the count, and the elements render as for a static array.
    pub fn render_value_with_count(
        &self,
        type_id: usize,
        count: usize,
        buf: &Vec<u8>,
        offset: usize,
        fuel: usize,
    ) -> (r: Result<String, DebuggerError>)
        requires
            self.loc_finder.wf(),
            self.strings.wf(),
        ensures
            (fuel == 0 || type_id >= self.types@.len()) ==> r == Err::<String, DebuggerError>(
                DebuggerError::InvalidPath,
            ),
            (fuel > 0 && type_id < self.types@.len()) ==> match self.types@[type_id as int] {
                Type::Array { subtype_id, .. } => match size_of_spec(
                    self.types@,
                    subtype_id as int,
                    self.types@.len() as nat,
                ) {
                    Ok(es) => match array_elems_rendering(
                        self.types@,
                        self.strings@,
                        self.loc_finder.func_ranges_spec(),
                        subtype_id as int,
                        count as int,
                        buf@,
                        offset as int,
                        es,
                        (fuel - 1) as nat,
                    ) {
                        Ok(body) => r matches Ok(out) && out@ == "["@ + body + "]"@,
                        Err(e) => r == Err::<String, DebuggerError>(e),
                    },
                    Err(_) => r == Err::<String, DebuggerError>(DebuggerError::InvalidValue),
                },
                _ => r == Err::<String, DebuggerError>(DebuggerError::InvalidPath),
            },
    {
        if fuel == 0 {
            return Err(DebuggerError::InvalidPath);
        }
        let subtype_id = match self.types.get(type_id) {
            Ok(Type::Array { subtype_id, .. }) => *subtype_id,
            Ok(_) => {
                return Err(DebuggerError::InvalidPath);
            },
            Err(_) => {
                return Err(DebuggerError::InvalidPath);
            },
        };
        let subtype_size = match self.types.get_type_size(subtype_id) {
            Ok(s) => s,
            Err(_) => {
                return Err(DebuggerError::InvalidValue);
            },
        };
        let body = self.render_array_elems(subtype_id, count, buf, offset, subtype_size, fuel
            - 1)?;
        let out = "[".to_owned().concat(body.as_str()).concat("]");
        proof {
            assert(out@ =~= "["@ + body@ + "]"@);
        }
        Ok(out)
    }

    fn render_array_elems(
        &self,
        subtype_id: usize,
        i: usize,
        buf: &Vec<u8>,
        offset: usize,
        elem_size: usize,
        fuel: usize,
    ) -> (r: Result<String, DebuggerError>)
        requires
            self.loc_finder.wf(),
            self.strings.wf(),
        ensures
            (match array_elems_rendering(
                self.types@,
                self.strings@,
                self.loc_finder.func_ranges_spec(),
                subtype_id as int,
                i as int,
                buf@,
                offset as int,
                elem_size as int,
                fuel as nat,
            ) {
                Ok(t) => r matches Ok(out) && out@ == t,
                Err(e) => r == Err::<String, DebuggerError>(e),
            }),
        decreases fuel, 1nat, i,
    {
        if i == 0 {
            return Ok(String::new());
        }
        let prefix = self.render_array_elems(subtype_id, i - 1, buf, offset, elem_size, fuel)?;
        let delta = match (i - 1).checked_mul(elem_size) {
            Some(d) => d,
            None => {
                return Err(DebuggerError::InvalidValue);
            },
        };
        let elem_off = match offset.checked_add(delta) {
            Some(x) => x,
            None => {
                return Err(DebuggerError::InvalidValue);
            },
        };
        let ev = self.render_value(subtype_id, buf, elem_off, fuel)?;
        let mut out = prefix;
        if i > 1 {
            out = out.concat(", ");
        }
        out = out.concat(ev.as_str());
        proof {
            let whole = array_elems_rendering(
                self.types@,
                self.strings@,
                self.loc_finder.func_ranges_spec(),
                subtype_id as int,
                i - 1,
                buf@,
                offset as int,
                elem_size as int,
                fuel as nat,
            ).unwrap();
            if i > 1 {
                assert(out@ =~= whole + ", "@ + ev@);
            } else {
                assert(out@ =~= whole + Seq::<char>::empty() + ev@);
            }
        }
        Ok(out)
    }

    fn render_struct_values(
        &self,
        fields: &Vec<Field>,
        i: usize,
        buf: &Vec<u8>,
        offset: usize,
        fuel: usize,
    ) -> (r: Result<String, DebuggerError>)
        requires
            self.loc_finder.wf(),
            self.strings.wf(),
            i <= fields@.len(),
        ensures
            (match struct_values_rendering(
                self.types@,
                self.strings@,
                self.loc_finder.func_ranges_spec(),
                fields@,
                i as int,
                buf@,
                offset as int,
                fuel as nat,
            ) {
                Ok(t) => r matches Ok(out) && out@ == t,
                Err(e) => r == Err::<String, DebuggerError>(e),
            }),
        decreases fuel, 1nat, i,
    {
        if i == 0 {
            return Ok(String::new());
        }
        let prefix = self.render_struct_values(fields, i - 1, buf, offset, fuel)?;
        let field_off = match offset.checked_add(fields[i - 1].offset as usize) {
            Some(x) => x,
            None => {
                return Err(DebuggerError::InvalidValue);
            },
        };
        let fv = self.render_value(fields[i - 1].type_id, buf, field_off, fuel)?;
        let mut out = prefix;
        if i > 1 {
            out = out.concat(", ");
        }
        out = out.concat(fields[i - 1].name.as_str()).concat(" = ").concat(fv.as_str());
        proof {
            let whole = struct_values_rendering(
                self.types@,
                self.strings@,
                self.loc_finder.func_ranges_spec(),
                fields@,
                i - 1,
                buf@,
                offset as int,
                fuel as nat,
            ).unwrap();
            if i > 1 {
                assert(out@ =~= whole + ", "@ + fields@[i - 1].name@ + " = "@ + fv@);
            } else {
                assert(out@ =~= whole + Seq::<char>::empty() + fields@[i - 1].name@ + " = "@
                    + fv@);
            }
        }
        Ok(out)
    }
}

/// The addresses of every C string a value's rendering will show: the
/// pointer words in `buf` at each string slot the type graph reaches,
/// in rendering order.  The controller reads these from the tracee
/// beforehand and hands the printer the table.
pub open spec fn string_addrs_spec(
    s: Seq<Type>,
    id: int,
    buf: Seq<u8>,
    offset: int,
    fuel: nat,
) -> Seq<u64>
    decreases fuel, 0nat, 0nat,
{
    if fuel == 0 || !(0 <= id < s.len()) {
        Seq::<u64>::empty()
    } else {
        match s[id] {
            Type::CString(_) => if 0 <= offset && offset + 8 <= buf.len() {
                seq![le_value(buf.subrange(offset, offset + 8)) as u64]
            } else {
                Seq::<u64>::empty()
            },
            Type::Const(sub) => string_addrs_spec(s, sub as int, buf, offset, (fuel - 1) as nat),
            Type::Volatile(sub) => string_addrs_spec(
                s,
                sub as int,
                buf,
                offset,
                (fuel - 1) as nat,
            ),
            Type::Atomic(sub) => string_addrs_spec(s, sub as int, buf, offset, (fuel - 1) as nat),
            Type::Typedef(_, sub) => string_addrs_spec(
                s,
                sub as int,
                buf,
                offset,
                (fuel - 1) as nat,
            ),
            Type::Struct { fields, .. } => struct_string_addrs(
                s,
                fields@,
                fields@.len() as int,
                buf,
                offset,
                (fuel - 1) as nat,
            ),
            Type::Array { subtype_id, count } => match count {
                ArrayCount::Static(n) => match size_of_spec(s, subtype_id as int, s.len() as nat) {
                    Ok(es) => array_string_addrs(
                        s,
                        subtype_id as int,
                        n as int,
                        buf,
                        offset,
                        es,
                        (fuel - 1) as nat,
                    ),
                    Err(_) => Seq::<u64>::empty(),
                },
                _ => Seq::<u64>::empty(),
            },
            _ => Seq::<u64>::empty(),
        }
    }
}

/// String addresses of the first `i` struct members; a member offset
/// past the address space contributes nothing.
pub open spec fn struct_string_addrs(
    s: Seq<Type>,
    fields: Seq<Field>,
    i: int,
    buf: Seq<u8>,
    offset: int,
    fuel: nat,
) -> Seq<u64>
    decreases fuel, 1nat, (if i <= 0 { 0int } else { i }),
{
    if i <= 0 {
        Seq::<u64>::empty()
    } else {
        struct_string_addrs(s, fields, i - 1, buf, offset, fuel) + (if offset + fields[i
            - 1].offset <= usize::MAX {
            string_addrs_spec(s, fields[i - 1].type_id as int, buf, offset + fields[i - 1].offset, fuel)
        } else {
            Seq::<u64>::empty()
        })
    }
}

/// String addresses of the first `i` array elements.
pub open spec fn array_string_addrs(
    s: Seq<Type>,
    subtype_id: int,
    i: int,
    buf: Seq<u8>,
    offset: int,
    elem_size: int,
    fuel: nat,
) -> Seq<u64>
    decreases fuel, 1nat, (if i <= 0 { 0int } else { i }),
{
    if i <= 0 {
        Seq::<u64>::empty()
    } else {
        array_string_addrs(s, subtype_id, i - 1, buf, offset, elem_size, fuel) + (if (i - 1)
            * elem_size <= usize::MAX && (i - 1) * elem_size + offset <= usize::MAX {
            string_addrs_spec(s, subtype_id, buf, offset + (i - 1) * elem_size, fuel)
        } else {
            Seq::<u64>::empty()
        })
    }
}

/// The pointer words of every C string slot a value holds, for the
/// controller to read from the tracee before printing.
pub fn string_addrs(
    types: &TypeStorage,
    type_id: usize,
    buf: &Vec<u8>,
    offset: usize,
    fuel: usize,
) -> (r: Vec<u64>)
    ensures
        r@ == string_addrs_spec(types@, type_id as int, buf@, offset as int, fuel as nat),
    decreases fuel, 0nat, 0nat,
{
    let mut out: Vec<u64> = Vec::new();
    if fuel == 0 {
        return out;
    }
    let t = match types.get(type_id) {
        Ok(t) => t,
        Err(_) => {
            return out;
        },
    };
    match t {
        Type::CString(_) => {
            if offset <= buf.len() && 8 <= buf.len() - offset {
                out.push(decode_u64_le(buf, offset, 8));
                proof {
                    lemma_pow256_values();
                    crate::codec::lemma_le_value_bound(
                        buf@.subrange(offset as int, offset + 8),
                    );
                    assert(out@ =~= string_addrs_spec(
                        types@,
                        type_id as int,
                        buf@,
                        offset as int,
                        fuel as nat,
                    ));
                }
            }
            out
        },
        Type::Const(sub) | Type::Volatile(sub) | Type::Atomic(sub) | Type::Typedef(_, sub) => {
            string_addrs(types, *sub, buf, offset, fuel - 1)
        },
        Type::Struct { fields, .. } => struct_string_addrs_walk(
            types,
            fields,
            fields.len(),
            buf,
            offset,
            fuel - 1,
        ),
        Type::Array { subtype_id, count } => {
            let subtype_id = *subtype_id;
            match count {
                ArrayCount::Static(n) => {
                    match types.get_type_size(subtype_id) {
                        Ok(es) => array_string_addrs_walk(
                            types,
                            subtype_id,
                            *n,
                            buf,
                            offset,
                            es,
                            fuel - 1,
                        ),
                        Err(_) => out,
                    }
                },
                _ => out,
            }
        },
        _ => out,
    }
}

fn struct_string_addrs_walk(
    types: &TypeStorage,
    fields: &Vec<Field>,
    i: usize,
    buf: &Vec<u8>,
    offset: usize,
    fuel: usize,
) -> (r: Vec<u64>)
    requires
        i <= fields@.len(),
    ensures
        r@ == struct_string_addrs(types@, fields@, i as int, buf@, offset as int, fuel as nat),
    decreases fuel, 1nat, i,
{
    if i == 0 {
        return Vec::new();
    }
    let mut out = struct_string_addrs_walk(types, fields, i - 1, buf, offset, fuel);
    let ghost prefix = out@;
    match offset.checked_add(fields[i - 1].offset as usize) {
        Some(field_off) => {
            let mut sub = string_addrs(types, fields[i - 1].type_id, buf, field_off, fuel);
            let ghost subv = sub@;
            out.append(&mut sub);
            proof {
                assert(out@ =~= prefix + subv);
            }
        },
        None => {
            proof {
                assert(prefix + Seq::<u64>::empty() =~= prefix);
            }
        },
    }
    out
}

fn array_string_addrs_walk(
    types: &TypeStorage,
    subtype_id: usize,
    i: usize,
    buf: &Vec<u8>,
    offset: usize,
    elem_size: usize,
    fuel: usize,
) -> (r: Vec<u64>)
    ensures
        r@ == array_string_addrs(
            types@,
            subtype_id as int,
            i as int,
            buf@,
            offset as int,
            elem_size as int,
            fuel as nat,
        ),
    decreases fuel, 1nat, i,
{
    if i == 0 {
        return Vec::new();
    }
    let mut out = array_string_addrs_walk(types, subtype_id, i - 1, buf, offset, elem_size, fuel);
    let ghost prefix = out@;
    let elem_off = match (i - 1).checked_mul(elem_size) {
        Some(d) => match offset.checked_add(d) {
            Some(x) => Some(x),
            None => None,
        },
        None => None,
    };
    match elem_off {
        Some(x) => {
            let mut sub = string_addrs(types, subtype_id, buf, x, fuel);
            let ghost subv = sub@;
            out.append(&mut sub);
            proof {
                assert(out@ =~= prefix + subv);
            }
        },
        None => {
            proof {
                assert(prefix + Seq::<u64>::empty() =~= prefix);
            }
        },
    }
    out
}

/// The escaping `print` applies inside quoted strings: quotes,
/// backslashes and the common control characters become two-character
/// escapes, everything else stands as itself.
pub open spec fn escaped_char(c: char) -> Seq<char> {
    if c == '"' {
        seq!['\\', '"']
    } else if c == '\\' {
        seq!['\\', '\\']
    } else if c == '\n' {
        seq!['\\', 'n']
    } else if c == '\r' {
        seq!['\\', 'r']
    } else if c == '\t' {
        seq!['\\', 't']
    } else {
        seq![c]
    }
}

pub open spec fn escaped_seq(s: Seq<char>) -> Seq<char>
    decreases s.len(),
{
    if s.len() == 0 {
        Seq::empty()
    } else {
        escaped_char(s[0]) + escaped_seq(s.skip(1))
    }
}

/// Double-quote a string, escaping quotes, backslashes and the common
/// control characters, the way `print` shows C strings.
#[verifier::loop_isolation(false)]
pub fn quote_string(s: &str) -> (r: String)
    ensures
        r@ == seq!['"'] + escaped_seq(s@) + seq!['"'],
{
    let chars = crate::text::string_to_chars(s);
    let mut out: Vec<char> = Vec::new();
    out.push('"');
    let n = chars.len();
    let mut i: usize = 0;
    while i < n
        invariant
            i <= n,
            out@ == seq!['"'] + escaped_seq(s@.subrange(0, i as int)),
        decreases n - i,
    {
        let c = chars[i];
        if c == '"' {
            out.push('\\');
            out.push('"');
        } else if c == '\\' {
            out.push('\\');
            out.push('\\');
        } else if c == '\n' {
            out.push('\\');
            out.push('n');
        } else if c == '\r' {
            out.push('\\');
            out.push('r');
        } else if c == '\t' {
            out.push('\\');
            out.push('t');
        } else {
            out.push(c);
        }
        i = i + 1;
        proof {
            lemma_escaped_snoc(s@, i as int);
        }
    }
    proof {
        assert(s@.subrange(0, n as int) =~= s@);
    }
    out.push('"');
    crate::text::chars_to_string(out)
}

proof fn lemma_quote_parses(s: Seq<char>, lit: Seq<char>, i: int)
    requires
        0 <= i <= lit.len(),
        lit.subrange(i, lit.len() as int) == escaped_seq(s) + seq!['"'],
    ensures
        crate::string_parser::parse_content_spec(lit, i) == Ok::<
            Seq<char>,
            crate::string_parser::ParseError,
        >(s),
    decreases s.len(),
{
    let suffix = lit.subrange(i, lit.len() as int);
    assert(suffix.len() == lit.len() - i);
    if s.len() == 0 {
        assert(escaped_seq(s) =~= Seq::<char>::empty());
        assert(suffix =~= seq!['"']);
        assert(lit.len() - i == 1);
        assert(lit[i] == suffix[0]);
        assert(lit[i] == '"');
        assert(i + 1 == lit.len());
        assert(s =~= Seq::<char>::empty());
    } else {
        let c = s[0];
        let rest = escaped_seq(s.skip(1));
        assert(escaped_seq(s) == escaped_char(c) + rest);
        if c == '"' || c == '\\' || c == '\n' || c == '\r' || c == '\t' {
            let x: char = if c == '"' {
                '"'
            } else if c == '\\' {
                '\\'
            } else if c == '\n' {
                'n'
            } else if c == '\r' {
                'r'
            } else {
                't'
            };
            assert(escaped_char(c) =~= seq!['\\', x]);
            assert(suffix =~= seq!['\\', x] + rest + seq!['"']);
            assert(lit.len() - i == rest.len() + 3);
            assert(lit[i] == suffix[0]);
            assert(lit[i + 1] == suffix[1]);
            assert(suffix[0] == '\\');
            assert(suffix[1] == x);
            assert(lit.subrange(i + 2, lit.len() as int) =~= rest + seq!['"']) by {
                assert forall|k: int| 0 <= k < lit.len() - i - 2 implies lit.subrange(
                    i + 2,
                    lit.len() as int,
                )[k] == (rest + seq!['"'])[k] by {
                    assert(lit.subrange(i + 2, lit.len() as int)[k] == lit[i + 2 + k]);
                    assert(lit[i + 2 + k] == suffix[k + 2]);
                }
            }
            lemma_quote_parses(s.skip(1), lit, i + 2);
            assert(crate::string_parser::escape_char(x) == c);
            assert(seq![c] + s.skip(1) =~= s);
            assert(crate::string_parser::parse_content_spec(lit, i) == Ok::<
                Seq<char>,
                crate::string_parser::ParseError,
            >(s));
        } else {
            assert(escaped_char(c) =~= seq![c]);
            assert(suffix =~= seq![c] + rest + seq!['"']);
            assert(lit.len() - i == rest.len() + 2);
            assert(lit[i] == suffix[0]);
            assert(suffix[0] == c);
            assert(lit.subrange(i + 1, lit.len() as int) =~= rest + seq!['"']) by {
                assert forall|k: int| 0 <= k < lit.len() - i - 1 implies lit.subrange(
                    i + 1,
                    lit.len() as int,
                )[k] == (rest + seq!['"'])[k] by {
                    assert(lit.subrange(i + 1, lit.len() as int)[k] == lit[i + 1 + k]);
                    assert(lit[i + 1 + k] == suffix[k + 1]);
                }
            }
            lemma_quote_parses(s.skip(1), lit, i + 1);
            assert(seq![c] + s.skip(1) =~= s);
            assert(crate::string_parser::parse_content_spec(lit, i) == Ok::<
                Seq<char>,
                crate::string_parser::ParseError,
            >(s));
        }
    }
}

/// Quoting a string the way `print` shows C strings and parsing the
/// result back as a `set` string literal hands the original back: the
/// `set`-then-`print` round trip for strings.
pub proof fn lemma_string_quote_parse_round_trip(s: Seq<char>)
    ensures
        crate::string_parser::parse_literal_spec(seq!['"'] + escaped_seq(s) + seq!['"']) == Ok::<
            Seq<char>,
            crate::string_parser::ParseError,
        >(s),
{
    let lit = seq!['"'] + escaped_seq(s) + seq!['"'];
    assert(lit[0] == '"');
    assert(lit.subrange(1, lit.len() as int) =~= escaped_seq(s) + seq!['"']);
    lemma_quote_parses(s, lit, 1);
}

proof fn lemma_quote_json_parses(s: Seq<char>, lit: Seq<char>, i: int)
    requires
        0 <= i <= lit.len(),
        lit.subrange(i, lit.len() as int) == escaped_seq(s) + seq!['"'],
    ensures
        crate::string_parser::json_content_spec(lit, i) == Ok::<
            Seq<char>,
            crate::string_parser::ParseError,
        >(s),
    decreases s.len(),
{
    let suffix = lit.subrange(i, lit.len() as int);
    assert(suffix.len() == lit.len() - i);
    if s.len() == 0 {
        assert(escaped_seq(s) =~= Seq::<char>::empty());
        assert(suffix =~= seq!['"']);
        assert(lit.len() - i == 1);
        assert(lit[i] == suffix[0]);
        assert(lit[i] == '"');
        assert(i + 1 == lit.len());
        assert(s =~= Seq::<char>::empty());
    } else {
        let c = s[0];
        let rest = escaped_seq(s.skip(1));
        assert(escaped_seq(s) == escaped_char(c) + rest);
        if c == '"' || c == '\\' || c == '\n' || c == '\r' || c == '\t' {
            let x: char = if c == '"' {
                '"'
            } else if c == '\\' {
                '\\'
            } else if c == '\n' {
                'n'
            } else if c == '\r' {
                'r'
            } else {
                't'
            };
            assert(escaped_char(c) =~= seq!['\\', x]);
            assert(suffix =~= seq!['\\', x] + rest + seq!['"']);
            assert(lit.len() - i == rest.len() + 3);
            assert(lit[i] == suffix[0]);
            assert(lit[i + 1] == suffix[1]);
            assert(suffix[0] == '\\');
            assert(suffix[1] == x);
            assert(lit.subrange(i + 2, lit.len() as int) =~= rest + seq!['"']) by {
                assert forall|k: int| 0 <= k < lit.len() - i - 2 implies lit.subrange(
                    i + 2,
                    lit.len() as int,
                )[k] == (rest + seq!['"'])[k] by {
                    assert(lit.subrange(i + 2, lit.len() as int)[k] == lit[i + 2 + k]);
                    assert(lit[i + 2 + k] == suffix[k + 2]);
                }
            }
            lemma_quote_json_parses(s.skip(1), lit, i + 2);
            assert(crate::string_parser::json_escape_char(x) == c);
            assert(seq![c] + s.skip(1) =~= s);
            assert(crate::string_parser::json_content_spec(lit, i) == Ok::<
                Seq<char>,
                crate::string_parser::ParseError,
            >(s));
        } else {
            assert(escaped_char(c) =~= seq![c]);
            assert(suffix =~= seq![c] + rest + seq!['"']);
            assert(lit.len() - i == rest.len() + 2);
            assert(lit[i] == suffix[0]);
            assert(suffix[0] == c);
            assert(lit.subrange(i + 1, lit.len() as int) =~= rest + seq!['"']) by {
                assert forall|k: int| 0 <= k < lit.len() - i - 1 implies lit.subrange(
                    i + 1,
                    lit.len() as int,
                )[k] == (rest + seq!['"'])[k] by {
                    assert(lit.subrange(i + 1, lit.len() as int)[k] == lit[i + 1 + k]);
                    assert(lit[i + 1 + k] == suffix[k + 1]);
                }
            }
            lemma_quote_json_parses(s.skip(1), lit, i + 1);
            assert(seq![c] + s.skip(1) =~= s);
            assert(crate::string_parser::json_content_spec(lit, i) == Ok::<
                Seq<char>,
                crate::string_parser::ParseError,
            >(s));
        }
    }
}

/// Quoting a string the way `print` shows C strings and parsing the
/// result back as a JSON-escaped `set` string value hands the original
/// back: the `set`-then-`print` round trip over the grammar `set` uses.
pub proof fn lemma_string_quote_json_round_trip(s: Seq<char>)
    ensures
        crate::string_parser::json_literal_spec(seq!['"'] + escaped_seq(s) + seq!['"']) == Ok::<
            Seq<char>,
            crate::string_parser::ParseError,
        >(s),
{
    let lit = seq!['"'] + escaped_seq(s) + seq!['"'];
    assert(lit[0] == '"');
    assert(lit.subrange(1, lit.len() as int) =~= escaped_seq(s) + seq!['"']);
    lemma_quote_json_parses(s, lit, 1);
}

proof fn lemma_escaped_snoc(s: Seq<char>, i: int)
    requires
        0 < i <= s.len(),
    ensures
        escaped_seq(s.subrange(0, i)) == escaped_seq(s.subrange(0, i - 1)) + escaped_char(
            s[i - 1],
        ),
    decreases i,
{
    if i == 1 {
        let p = s.subrange(0, 1);
        assert(p.skip(1) =~= Seq::<char>::empty());
        assert(escaped_seq(p) == escaped_char(p[0]) + escaped_seq(p.skip(1)));
        assert(escaped_char(s[0]) + Seq::<char>::empty() =~= escaped_char(s[0]));
        assert(escaped_seq(s.subrange(0, 0)) =~= Seq::<char>::empty());
        assert(Seq::<char>::empty() + escaped_char(s[0]) =~= escaped_char(s[0]));
    } else {
        lemma_escaped_snoc(s.skip(1), i - 1);
        let p = s.subrange(0, i);
        let q = s.subrange(0, i - 1);
        assert(p.skip(1) =~= s.skip(1).subrange(0, i - 1));
        assert(q.skip(1) =~= s.skip(1).subrange(0, i - 2));
        assert(escaped_seq(p) == escaped_char(s[0]) + escaped_seq(p.skip(1)));
        assert(escaped_seq(q) == escaped_char(s[0]) + escaped_seq(q.skip(1)));
        assert(s.skip(1)[i - 2] == s[i - 1]);
        assert(escaped_char(s[0]) + (escaped_seq(s.skip(1).subrange(0, i - 2)) + escaped_char(
            s[i - 1],
        )) =~= (escaped_char(s[0]) + escaped_seq(s.skip(1).subrange(0, i - 2))) + escaped_char(
            s[i - 1],
        ));
    }
}

} // verus!
