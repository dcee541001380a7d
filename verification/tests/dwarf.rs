use dbgcore::dwarf_parser::{DieNode, DieTag, DwarfError, DwarfParser, HighPcAttr, LineRow,
    TypeRefAttr, UnitDies};
use dbgcore::types::{Type, TypeEncoding};

fn node(tag: DieTag, offset: usize) -> DieNode {
    DieNode {
        tag,
        offset,
        name: None,
        low_pc: None,
        high_pc: None,
        byte_size: None,
        encoding: None,
        type_ref: None,
        count: None,
        lower_bound: None,
        upper_bound: None,
        data_member_location: None,
        const_value: None,
        children: Vec::new(),
    }
}

/// A small unit: `int x;` as a global, `int main()` spanning one range,
/// with a struct that points at itself to exercise the cycle break.
fn sample_unit() -> UnitDies {
    let mut root = node(DieTag::CompileUnit, 1);
    root.name = Some("main.c".to_string());
    root.low_pc = Some(0x1000);
    root.high_pc = Some(HighPcAttr::Size(0x200));
    root.children = vec![1, 2, 3];

    // 1: int
    let mut int_t = node(DieTag::BaseType, 50);
    int_t.name = Some("int".to_string());
    int_t.encoding = Some(5);
    int_t.byte_size = Some(4);

    // 2: subprogram main with a local `y`
    let mut main_f = node(DieTag::Subprogram, 100);
    main_f.name = Some("main".to_string());
    main_f.low_pc = Some(0x1100);
    main_f.high_pc = Some(HighPcAttr::Absolute(0x1180));
    main_f.children = vec![4];

    // 3: global variable x of type int
    let mut x_v = node(DieTag::Variable, 200);
    x_v.name = Some("x".to_string());
    x_v.type_ref = Some(TypeRefAttr::UnitRef(50));

    // 4: local y of type struct Node (self-referential)
    let mut y_v = node(DieTag::Variable, 210);
    y_v.name = Some("y".to_string());
    y_v.type_ref = Some(TypeRefAttr::UnitRef(300));

    // 5: struct Node { struct Node* next; } — a cycle through a pointer
    let mut node_t = node(DieTag::StructureType, 300);
    node_t.name = Some("Node".to_string());
    node_t.byte_size = Some(8);
    node_t.children = vec![6];

    // 6: member next
    let mut next_m = node(DieTag::Member, 310);
    next_m.name = Some("next".to_string());
    next_m.data_member_location = Some(0);
    next_m.type_ref = Some(TypeRefAttr::UnitRef(320));

    // 7: pointer back to the struct
    let mut ptr_t = node(DieTag::PointerType, 320);
    ptr_t.type_ref = Some(TypeRefAttr::UnitRef(300));

    UnitDies { unit_offset: 7, nodes: vec![root, int_t, main_f, x_v, y_v, node_t, next_m, ptr_t] }
}

#[test]
fn parse_builds_locations_and_variables() {
    let units = vec![sample_unit()];
    let rows = vec![
        LineRow {
            unit_offset: 7,
            filepath: "main.c".to_string(),
            line: Some(3),
            address: 0x1110,
            end_sequence: false,
        },
        LineRow {
            unit_offset: 7,
            filepath: "main.c".to_string(),
            line: Some(4),
            address: 0x1120,
            end_sequence: false,
        },
    ];
    let (lf, types) = DwarfParser::parse(&units, &rows, 0).unwrap();

    assert_eq!(lf.find_loc("main"), Some(0x1100));
    // the range end is inclusive: high_pc minus one
    assert_eq!(lf.find_func_end(0x1100), Some(0x117f));
    assert_eq!(lf.find_unit(None).unwrap(), "main.c");
    assert_eq!(lf.find_loc("main.c:3"), Some(0x1110));
    assert_eq!(lf.find_next_line_address("main.c:3"), Some(0x1120));

    let x = lf.get_var("x", None).unwrap();
    match types.get(x.type_id).unwrap() {
        Type::Base { name, encoding, size } => {
            assert_eq!(name, "int");
            assert_eq!(*encoding, TypeEncoding::Signed);
            assert_eq!(*size, 4);
        },
        other => panic!("unexpected type {:?}", other),
    }
    assert_eq!(types.get_type_size(x.type_id).unwrap(), 4);

    // the local is visible from main and carries the self-referential
    // struct, whose size computation still finishes
    let y = lf.get_var("y", Some("main")).unwrap();
    assert_eq!(types.get_type_size(y.type_id).unwrap(), 8);
    match types.get(y.type_id).unwrap() {
        Type::Struct { name, fields, .. } => {
            assert_eq!(name.as_deref(), Some("Node"));
            assert_eq!(fields.len(), 1);
            // the member's pointer resolves back to the struct's own id
            match types.get(fields[0].type_id).unwrap() {
                Type::Pointer(sub) => assert_eq!(*sub, y.type_id),
                other => panic!("unexpected member type {:?}", other),
            }
        },
        other => panic!("unexpected type {:?}", other),
    }
}

#[test]
fn relative_high_pc_and_base_address() {
    let units = vec![sample_unit()];
    let rows = Vec::new();
    let (lf, _) = DwarfParser::parse(&units, &rows, 0x5000_0000).unwrap();
    assert_eq!(lf.find_loc("main"), Some(0x5000_1100));
    // the unit range uses low_pc + size - 1, relocated
    assert_eq!(lf.find_unit(Some(0x5000_11ff)).unwrap(), "main.c");
    assert!(lf.find_unit(Some(0x5000_1200)).is_none());
}

#[test]
fn missing_attributes_are_reported() {
    // a compile unit without a name cannot be digested
    let mut root = node(DieTag::CompileUnit, 1);
    root.low_pc = Some(0);
    root.high_pc = Some(HighPcAttr::Size(1));
    let unit = UnitDies { unit_offset: 0, nodes: vec![root] };
    match DwarfParser::parse(&vec![unit], &Vec::new(), 0) {
        Err(e) => assert_eq!(e, DwarfError::MissingAttr),
        Ok(_) => panic!("a nameless unit was accepted"),
    }
}

#[test]
fn char_pointer_becomes_c_string() {
    let mut root = node(DieTag::CompileUnit, 1);
    root.name = Some("s.c".to_string());
    root.low_pc = Some(0);
    root.high_pc = Some(HighPcAttr::Size(1));
    root.children = vec![1];
    let mut v = node(DieTag::Variable, 10);
    v.name = Some("s".to_string());
    v.type_ref = Some(TypeRefAttr::UnitRef(20));
    let mut ptr = node(DieTag::PointerType, 20);
    ptr.type_ref = Some(TypeRefAttr::UnitRef(30));
    let mut ch = node(DieTag::BaseType, 30);
    ch.name = Some("char".to_string());
    ch.encoding = Some(6);
    ch.byte_size = Some(1);
    let unit = UnitDies { unit_offset: 0, nodes: vec![root, v, ptr, ch] };
    let (lf, types) = DwarfParser::parse(&vec![unit], &Vec::new(), 0).unwrap();
    let s = lf.get_var("s", None).unwrap();
    assert!(matches!(types.get(s.type_id).unwrap(), Type::CString(_)));
}

#[test]
fn well_formed_unit_always_parses() {
    // a compile unit with a named, ranged subprogram whose local is typed
    // by a well-formed base type: the parser owes success here
    let mut root = node(DieTag::CompileUnit, 1);
    root.name = Some("ok.c".to_string());
    root.low_pc = Some(0x4000);
    root.high_pc = Some(HighPcAttr::Size(0x100));
    root.children = vec![1, 2];

    let mut int_t = node(DieTag::BaseType, 40);
    int_t.name = Some("int".to_string());
    int_t.encoding = Some(5);
    int_t.byte_size = Some(4);

    let mut f = node(DieTag::Subprogram, 80);
    f.name = Some("f".to_string());
    f.low_pc = Some(0x4010);
    f.high_pc = Some(HighPcAttr::Size(0x20));
    f.children = vec![3];

    let mut v = node(DieTag::Variable, 120);
    v.name = Some("v".to_string());
    v.type_ref = Some(TypeRefAttr::UnitRef(40));

    let unit = UnitDies { unit_offset: 0, nodes: vec![root, int_t, f, v] };
    let (lf, types) = DwarfParser::parse(&vec![unit], &Vec::new(), 0).unwrap();
    assert_eq!(lf.find_loc("f"), Some(0x4010));
    let vr = lf.get_var("v", Some("f")).unwrap();
    match types.get(vr.type_id).unwrap() {
        Type::Base { name, encoding, size } => {
            assert_eq!(name, "int");
            assert_eq!(*encoding, TypeEncoding::Signed);
            assert_eq!(*size, 4);
        }
        other => panic!("unexpected type: {:?}", other),
    }
}
