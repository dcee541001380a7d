use dbgcore::exit_status_sentinel::{check, SentinelHit};
use dbgcore::types::{ArrayCount, Type, TypeEncoding, TypeError, TypeStorage, VOID_TYPE_ID};

fn int_type() -> Type {
    Type::Base { name: "int".to_string(), encoding: TypeEncoding::Signed, size: 4 }
}

#[test]
fn slot_zero_is_void() {
    let types = TypeStorage::new();
    assert!(matches!(types.get(VOID_TYPE_ID).unwrap(), Type::Void));
    assert!(matches!(types.get(99), Err(TypeError::InvalidTypeId(99))));
}

#[test]
fn unwind_strips_qualifiers_and_aliases() {
    let mut types = TypeStorage::new();
    let int_id = types.add(int_type());
    let const_id = types.add(Type::Const(int_id));
    let alias_id = types.add(Type::Typedef("myint".to_string(), const_id));
    let vol_id = types.add(Type::Volatile(alias_id));
    match types.unwind_type(vol_id).unwrap() {
        Type::Base { name, .. } => assert_eq!(name, "int"),
        other => panic!("unexpected type {:?}", other),
    }
}

#[test]
fn cyclic_alias_chain_is_reported_not_followed_forever() {
    let mut types = TypeStorage::new();
    let a = types.add(Type::Void);
    let b = types.add(Type::Const(a));
    // complete the reserved slot with a reference back to `b`
    types.replace(a, Type::Typedef("loop_t".to_string(), b)).unwrap();
    assert!(matches!(types.unwind_type(a), Err(TypeError::CyclicType(_))));
    assert!(matches!(types.get_type_size(a), Err(TypeError::CyclicType(_))));
}

#[test]
fn sizes_follow_the_type_shape() {
    let mut types = TypeStorage::new();
    let int_id = types.add(int_type());
    assert_eq!(types.get_type_size(int_id).unwrap(), 4);
    let ptr_id = types.add(Type::Pointer(int_id));
    assert_eq!(types.get_type_size(ptr_id).unwrap(), 8);
    let arr_id = types.add(Type::Array { subtype_id: int_id, count: ArrayCount::Static(3) });
    assert_eq!(types.get_type_size(arr_id).unwrap(), 12);
    let flex_id = types.add(Type::Array { subtype_id: int_id, count: ArrayCount::Flexible });
    assert!(matches!(types.get_type_size(flex_id), Err(TypeError::NoSize(_))));
    assert!(matches!(types.get_type_size(VOID_TYPE_ID), Err(TypeError::NoSize(_))));
}

#[test]
fn pointer_ref_is_created_once() {
    let mut types = TypeStorage::new();
    let int_id = types.add(int_type());
    let p1 = types.get_type_ref(int_id);
    let p2 = types.get_type_ref(int_id);
    assert_eq!(p1, p2);
    assert!(matches!(types.get(p1).unwrap(), Type::Pointer(sub) if *sub == int_id));
}

#[test]
fn sentinel_check_flags_minus_one() {
    assert_eq!(check(0i32), Ok(0));
    assert_eq!(check(7i64), Ok(7));
    assert_eq!(check(-1i32), Err(SentinelHit));
    assert_eq!(check(-1i64), Err(SentinelHit));
}
