use dbgcore::loc_finder::{EntryRef, LocFinder, VarRef};

#[test]
fn prologue_and_epilogue_lines_are_excluded() {
    // a function spanning [0x100, 0x1ff] with the standard 8-byte prologue
    let mut lf = LocFinder::new(0);
    lf.add_func_range("f".to_string(), 0x100, 0x1ff);
    // a line address inside the prologue never lands in the line map
    lf.add_line("a.c".to_string(), 1, 0x104, false);
    assert!(lf.find_line(0x104).is_none());
    // inside the epilogue (last 2 bytes) neither
    lf.add_line("a.c".to_string(), 9, 0x1fe, false);
    assert!(lf.find_line(0x1fe).is_none());
    // a body address does
    lf.add_line("a.c".to_string(), 2, 0x120, false);
    assert_eq!(lf.find_line(0x120).unwrap(), "a.c:2");
    // but the location key resolves even for the prologue line
    assert_eq!(lf.find_loc("a.c:1"), Some(0x104));
}

#[test]
fn end_sequence_rows_are_excluded() {
    let mut lf = LocFinder::new(0);
    lf.add_line("a.c".to_string(), 3, 0x300, true);
    assert!(lf.find_line(0x300).is_none());
}

#[test]
fn next_line_address_skips_empty_lines() {
    let mut lf = LocFinder::new(0);
    // lines 2 and 7 are populated; 3..6 are gaps
    lf.add_line("a.c".to_string(), 2, 0x210, false);
    lf.add_line("a.c".to_string(), 7, 0x270, false);
    assert_eq!(lf.find_next_line_address("a.c:2"), Some(0x270));
    assert_eq!(lf.find_next_line_address("a.c:7"), None);
    assert_eq!(lf.find_next_line_address("b.c:2"), None);
    assert_eq!(lf.find_next_line_address("nocolon"), None);
}

#[test]
fn first_address_per_line_is_kept() {
    let mut lf = LocFinder::new(0);
    lf.add_line("a.c".to_string(), 4, 0x240, false);
    lf.add_line("a.c".to_string(), 4, 0x260, false);
    lf.add_line("a.c".to_string(), 3, 0x230, false);
    assert_eq!(lf.find_next_line_address("a.c:3"), Some(0x240));
}

#[test]
fn base_address_is_applied_everywhere() {
    let mut lf = LocFinder::new(0x1000);
    lf.add_location("g".to_string(), 0x20);
    assert_eq!(lf.find_loc("g"), Some(0x1020));
    lf.add_func_range("g".to_string(), 0x20, 0x40);
    assert_eq!(lf.find_func_start(0x1030), Some(0x1020));
    assert_eq!(lf.find_func_end(0x1030), Some(0x1040));
    assert_eq!(lf.find_func_by_address(0x1030).unwrap(), "g");
    assert!(lf.find_func_by_address(0x30).is_none());
}

#[test]
fn main_unit_is_the_unit_containing_main() {
    let mut lf = LocFinder::new(0);
    lf.add_compile_unit("one.c".to_string(), 0x100, 0x1ff);
    lf.add_compile_unit("two.c".to_string(), 0x200, 0x2ff);
    lf.add_func_range("main".to_string(), 0x210, 0x250);
    // no address known: the unit of main
    assert_eq!(lf.find_unit(None).unwrap(), "two.c");
    // with an address: the containing unit
    assert_eq!(lf.find_unit(Some(0x120)).unwrap(), "one.c");
    assert!(lf.find_unit(Some(0x900)).is_none());
    assert!(lf.is_inside_main(0x220));
    assert!(!lf.is_inside_main(0x120));
}

#[test]
fn locals_shadow_globals() {
    let mut lf = LocFinder::new(0);
    let g = VarRef::new(EntryRef::new(0, 1), 11);
    let l = VarRef::new(EntryRef::new(0, 2), 22);
    let other = VarRef::new(EntryRef::new(0, 3), 33);
    lf.add_var("x".to_string(), g, None);
    lf.add_var("x".to_string(), l, Some("f".to_string()));
    lf.add_var("y".to_string(), other, None);
    // lookup from inside f sees the local
    assert_eq!(lf.get_var("x", Some("f")), Some(l));
    // from outside, the global
    assert_eq!(lf.get_var("x", None), Some(g));
    assert_eq!(lf.get_var("y", Some("f")), Some(other));
    assert_eq!(lf.get_var("z", Some("f")), None);
    // the merged table prefers locals too
    let vars = lf.get_vars(Some("f"));
    assert_eq!(vars.get("x"), Some(&l));
    assert_eq!(vars.get("y"), Some(&other));
    assert!(vars.get("z").is_none());
}
