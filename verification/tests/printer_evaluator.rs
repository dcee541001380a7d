use dbgcore::error::DebuggerError;
use dbgcore::evaluator::{plan_set, walk_step, SetPlan, WalkAction, after_pointer_read};
use dbgcore::loc_finder::LocFinder;
use dbgcore::location::{TypedValueLoc, ValueLoc};
use dbgcore::path::{Path, PostfixOperator, PrefixOperator};
use dbgcore::printer::Printer;
use dbgcore::tables::U64Map;
use dbgcore::types::{ArrayCount, EnumVariant, Field, Type, TypeEncoding, TypeStorage};
use dbgcore::var::{Value, Var};

struct Fixture {
    types: TypeStorage,
    lf: LocFinder,
    int_id: usize,
    char_id: usize,
    cstr_id: usize,
    struct_id: usize,
    enum_id: usize,
    arr_id: usize,
    uint_id: usize,
    bool_id: usize,
    ptr_int_id: usize,
}

fn fixture() -> Fixture {
    let mut types = TypeStorage::new();
    let int_id = types.add(Type::Base {
        name: "int".to_string(),
        encoding: TypeEncoding::Signed,
        size: 4,
    });
    let uint_id = types.add(Type::Base {
        name: "unsigned int".to_string(),
        encoding: TypeEncoding::Unsigned,
        size: 4,
    });
    let bool_id = types.add(Type::Base {
        name: "_Bool".to_string(),
        encoding: TypeEncoding::Boolean,
        size: 1,
    });
    let char_id = types.add(Type::Base {
        name: "char".to_string(),
        encoding: TypeEncoding::SignedChar,
        size: 1,
    });
    let cstr_id = types.add(Type::CString(char_id));
    let struct_id = types.add(Type::Struct {
        name: Some("P".to_string()),
        size: 16,
        fields: vec![
            Field { name: "a".to_string(), type_id: int_id, offset: 0 },
            Field { name: "s".to_string(), type_id: cstr_id, offset: 8 },
        ],
    });
    let enum_id = types.add(Type::Enum {
        name: Some("E".to_string()),
        encoding: TypeEncoding::Unsigned,
        size: 4,
        variants: vec![
            EnumVariant { name: "A".to_string(), value: 0 },
            EnumVariant { name: "B".to_string(), value: 2 },
        ],
    });
    let arr_id = types.add(Type::Array { subtype_id: int_id, count: ArrayCount::Static(3) });
    let ptr_int_id = types.add(Type::Pointer(int_id));
    let lf = LocFinder::new(0);
    Fixture {
        types,
        lf,
        int_id,
        char_id,
        cstr_id,
        struct_id,
        enum_id,
        arr_id,
        uint_id,
        bool_id,
        ptr_int_id,
    }
}

#[test]
fn print_int_variable() {
    let f = fixture();
    let strings = U64Map::new();
    let p = Printer::new(&f.types, &f.lf, &strings);
    let var = Var::new("x".to_string(), Value::new(f.int_id, vec![3, 0, 0, 0]));
    assert_eq!(p.render(&var).unwrap(), "int x = 3");
}

#[test]
fn print_negative_int() {
    let f = fixture();
    let strings = U64Map::new();
    let p = Printer::new(&f.types, &f.lf, &strings);
    let var = Var::new("x".to_string(), Value::new(f.int_id, vec![0xff, 0xff, 0xff, 0xff]));
    assert_eq!(p.render(&var).unwrap(), "int x = -1");
}

#[test]
fn print_struct_with_string() {
    let f = fixture();
    let mut strings = U64Map::new();
    strings.insert(0x5000, "hello".to_string());
    let p = Printer::new(&f.types, &f.lf, &strings);
    let mut buf = vec![5, 0, 0, 0, 0, 0, 0, 0];
    buf.extend_from_slice(&[0x00, 0x50, 0, 0, 0, 0, 0, 0]);
    let var = Var::new("p".to_string(), Value::new(f.struct_id, buf));
    assert_eq!(p.render(&var).unwrap(), "P p = { a = 5, s = \"hello\" }");
}

#[test]
fn print_enum_variant_name() {
    let f = fixture();
    let strings = U64Map::new();
    let p = Printer::new(&f.types, &f.lf, &strings);
    let var = Var::new("e".to_string(), Value::new(f.enum_id, vec![2, 0, 0, 0]));
    assert_eq!(p.render(&var).unwrap(), "E e = B");
    // a value that matches no variant falls back to the number
    let var2 = Var::new("e".to_string(), Value::new(f.enum_id, vec![9, 0, 0, 0]));
    assert_eq!(p.render(&var2).unwrap(), "E e = 9");
}

#[test]
fn print_array_elements() {
    let f = fixture();
    let strings = U64Map::new();
    let p = Printer::new(&f.types, &f.lf, &strings);
    let buf = vec![10, 0, 0, 0, 20, 0, 0, 0, 30, 0, 0, 0];
    let var = Var::new("arr".to_string(), Value::new(f.arr_id, buf));
    assert_eq!(p.render(&var).unwrap(), "int[3] arr = [10, 20, 30]");
}

#[test]
fn print_pointer_null_and_hex() {
    let f = fixture();
    let strings = U64Map::new();
    let p = Printer::new(&f.types, &f.lf, &strings);
    let var = Var::new("q".to_string(), Value::new(f.ptr_int_id, vec![0; 8]));
    assert_eq!(p.render(&var).unwrap(), "int* q = null");
    let var2 = Var::new(
        "q".to_string(),
        Value::new(f.ptr_int_id, vec![0x2b, 0x1a, 0, 0, 0, 0, 0, 0]),
    );
    assert_eq!(p.render(&var2).unwrap(), "int* q = 0x1a2b");
}

#[test]
fn print_bool() {
    let f = fixture();
    let strings = U64Map::new();
    let p = Printer::new(&f.types, &f.lf, &strings);
    let var = Var::new("b".to_string(), Value::new(f.bool_id, vec![1]));
    assert_eq!(p.render(&var).unwrap(), "bool b = true");
    let var2 = Var::new("b".to_string(), Value::new(f.bool_id, vec![0]));
    assert_eq!(p.render(&var2).unwrap(), "bool b = false");
}

#[test]
fn set_int_value() {
    let f = fixture();
    match plan_set(&f.types, &f.lf, f.int_id, "7").unwrap() {
        SetPlan::Bytes(b) => assert_eq!(b, vec![7, 0, 0, 0]),
        other => panic!("unexpected plan {:?}", other),
    }
    match plan_set(&f.types, &f.lf, f.int_id, "-2").unwrap() {
        SetPlan::Bytes(b) => assert_eq!(b, vec![0xfe, 0xff, 0xff, 0xff]),
        other => panic!("unexpected plan {:?}", other),
    }
    // out of width
    assert!(plan_set(&f.types, &f.lf, f.int_id, "4294967296").is_err());
    assert!(plan_set(&f.types, &f.lf, f.int_id, "abc").is_err());
}

#[test]
fn set_bool_and_pointer() {
    let f = fixture();
    match plan_set(&f.types, &f.lf, f.bool_id, "true").unwrap() {
        SetPlan::Bytes(b) => assert_eq!(b, vec![1]),
        other => panic!("unexpected plan {:?}", other),
    }
    match plan_set(&f.types, &f.lf, f.ptr_int_id, "null").unwrap() {
        SetPlan::Bytes(b) => assert_eq!(b, vec![0; 8]),
        other => panic!("unexpected plan {:?}", other),
    }
    match plan_set(&f.types, &f.lf, f.ptr_int_id, "0x1a2b").unwrap() {
        SetPlan::Bytes(b) => assert_eq!(b, vec![0x2b, 0x1a, 0, 0, 0, 0, 0, 0]),
        other => panic!("unexpected plan {:?}", other),
    }
}

#[test]
fn set_enum_by_variant_name() {
    let f = fixture();
    match plan_set(&f.types, &f.lf, f.enum_id, "B").unwrap() {
        SetPlan::Bytes(b) => assert_eq!(b, vec![2, 0, 0, 0]),
        other => panic!("unexpected plan {:?}", other),
    }
    assert!(plan_set(&f.types, &f.lf, f.enum_id, "C").is_err());
}

#[test]
fn set_string_asks_for_allocation() {
    let f = fixture();
    match plan_set(&f.types, &f.lf, f.cstr_id, "\"hi\\n\"").unwrap() {
        SetPlan::AllocCString(s) => assert_eq!(s, "hi\n"),
        other => panic!("unexpected plan {:?}", other),
    }
}

#[test]
fn offsets_are_refused_on_immediates() {
    let v = ValueLoc::Value(7);
    assert_eq!(v.with_offset(4), Err(DebuggerError::InvalidLocation));
    let a = ValueLoc::Address(0x100);
    assert_eq!(a.with_offset(4), Ok(ValueLoc::Address(0x104)));
    let r = ValueLoc::Register { register: 0, offset: 6 };
    assert_eq!(r.with_offset(4), Err(DebuggerError::InvalidLocation));
    assert_eq!(
        r.with_offset(1),
        Ok(ValueLoc::Register { register: 0, offset: 7 })
    );
}

#[test]
fn walk_array_index_advances_by_element_size() {
    let f = fixture();
    let loc = TypedValueLoc::new(ValueLoc::Address(0x9000), f.arr_id);
    let ops = vec![PostfixOperator::Index(1)];
    match walk_step(&f.types, loc, &ops, 0).unwrap() {
        WalkAction::Advance(l2, p2) => {
            assert_eq!(p2, 1);
            assert_eq!(l2.location, ValueLoc::Address(0x9004));
            assert_eq!(l2.type_id, f.int_id);
        },
        other => panic!("unexpected action {:?}", other),
    }
}

#[test]
fn walk_struct_field_adds_offset() {
    let f = fixture();
    let loc = TypedValueLoc::new(ValueLoc::Address(0x9000), f.struct_id);
    let ops = vec![PostfixOperator::Field("s".to_string())];
    match walk_step(&f.types, loc, &ops, 0).unwrap() {
        WalkAction::Advance(l2, p2) => {
            assert_eq!(p2, 1);
            assert_eq!(l2.location, ValueLoc::Address(0x9008));
            assert_eq!(l2.type_id, f.cstr_id);
        },
        other => panic!("unexpected action {:?}", other),
    }
    // an unknown field is an invalid path
    let ops2 = vec![PostfixOperator::Field("zz".to_string())];
    assert!(walk_step(&f.types, loc, &ops2, 0).is_err());
}

#[test]
fn walk_through_pointer_dereferences() {
    let f = fixture();
    let loc = TypedValueLoc::new(ValueLoc::Address(0x9000), f.ptr_int_id);
    let ops = vec![PostfixOperator::Field("a".to_string())];
    match walk_step(&f.types, loc, &ops, 0).unwrap() {
        WalkAction::Deref(l, sub, p) => {
            assert_eq!(l.location, ValueLoc::Address(0x9000));
            assert_eq!(sub, f.int_id);
            assert_eq!(p, 0);
        },
        other => panic!("unexpected action {:?}", other),
    }
    // a null pointer is refused, a real one becomes the new address
    assert!(after_pointer_read(0, f.int_id).is_err());
    let l2 = after_pointer_read(0x7700, f.int_id).unwrap();
    assert_eq!(l2.location, ValueLoc::Address(0x7700));
}

#[test]
fn dynamic_array_sized_and_rendered_with_supplied_count() {
    let mut f = fixture();
    let dyn_arr = f.types.add(Type::Array {
        subtype_id: f.int_id,
        count: ArrayCount::Dynamic(dbgcore::loc_finder::EntryRef::new(0, 0)),
    });
    assert_eq!(f.types.get_array_size_with(dyn_arr, 5), Ok(20));
    assert_eq!(f.types.get_array_size_with(f.arr_id, 3), Ok(12));
    assert!(f.types.get_array_size_with(f.int_id, 3).is_err());
    let strings = U64Map::new();
    let p = Printer::new(&f.types, &f.lf, &strings);
    let mut buf: Vec<u8> = Vec::new();
    for v in [10i32, 20, 30] {
        buf.extend_from_slice(&v.to_le_bytes());
    }
    assert_eq!(p.render_value_with_count(dyn_arr, 3, &buf, 0, 32).unwrap(), "[10, 20, 30]");
    assert_eq!(p.render_value_with_count(dyn_arr, 0, &buf, 0, 32).unwrap(), "[]");
    // without a supplied count the value stays opaque
    assert_eq!(p.render_value(dyn_arr, &buf, 0, 32).unwrap(), "[...]");
}

#[test]
fn set_string_value_parses_json_escapes() {
    let f = fixture();
    match plan_set(&f.types, &f.lf, f.cstr_id, r#""hi\n\/A""#).unwrap() {
        SetPlan::AllocCString(s) => assert_eq!(s, "hi\n/A"),
        other => panic!("unexpected plan: {:?}", other),
    }
    // the non-JSON escape is refused
    assert!(plan_set(&f.types, &f.lf, f.cstr_id, r#""a\'b""#).is_err());
}

#[test]
fn string_addrs_lists_every_cstring_slot() {
    let f = fixture();
    // struct P { int a; char* s; } with the pointer word 0x5000 at offset 8
    let mut buf = vec![0u8; 16];
    buf[0..4].copy_from_slice(&5i32.to_le_bytes());
    buf[8..16].copy_from_slice(&0x5000u64.to_le_bytes());
    let addrs = dbgcore::printer::string_addrs(&f.types, f.struct_id, &buf, 0, 32);
    assert_eq!(addrs, vec![0x5000]);
    // an int carries no string slots
    assert!(dbgcore::printer::string_addrs(&f.types, f.int_id, &buf, 0, 32).is_empty());
}

#[test]
fn display_name_shows_stars_and_last_selector() {
    let mut p = Path::new("p".to_string());
    assert_eq!(dbgcore::path::display_name(&p), "p");
    p.prefix_operators.push(PrefixOperator::Deref);
    p.prefix_operators.push(PrefixOperator::Deref);
    assert_eq!(dbgcore::path::display_name(&p), "**p");
    p.postfix_operators.push(PostfixOperator::Field("a".to_string()));
    assert_eq!(dbgcore::path::display_name(&p), "**a");
    let mut q = Path::new("arr".to_string());
    q.postfix_operators.push(PostfixOperator::Index(1));
    assert_eq!(dbgcore::path::display_name(&q), "arr[1]");
}
