use dbgcore::loc_finder::LocFinder;
use dbgcore::session::{DebugSession, SessionState, StepOutMode, StepPlan, StopAction, trap_word};
use dbgcore::types::TypeStorage;

fn fresh_session() -> DebugSession {
    let mut lf = LocFinder::new(0);
    lf.add_compile_unit("main.c".to_string(), 0x1000, 0x1fff);
    lf.add_func_entry_ref("main".to_string(), dbgcore::loc_finder::EntryRef::new(0, 10));
    lf.add_location("main".to_string(), 0x1100);
    lf.add_func_range("main".to_string(), 0x1100, 0x11ff);
    lf.add_func_entry_ref("f".to_string(), dbgcore::loc_finder::EntryRef::new(0, 20));
    lf.add_location("f".to_string(), 0x1200);
    lf.add_func_range("f".to_string(), 0x1200, 0x12ff);
    // lines of main.c: addresses for lines 3, 4 and 5 inside main
    lf.add_line("main.c".to_string(), 3, 0x1110, false);
    lf.add_line("main.c".to_string(), 4, 0x1120, false);
    lf.add_line("main.c".to_string(), 5, 0x1130, false);
    DebugSession::new(lf, TypeStorage::new(), 0)
}

#[test]
fn trap_word_sets_low_byte() {
    let w = trap_word(0x1122334455667788);
    assert_eq!(w & 0xff, 0xcc);
    assert_eq!(w & !0xff, 0x1122334455667700);
}

#[test]
fn breakpoint_add_remove_add_round_trip() {
    // the byte pattern before the first add equals the byte pattern
    // after the remove, and the saved original after the second add
    let mut s = fresh_session();
    let original: i64 = 0x4848484848484848;
    let (addr, loc) = s.resolve_breakpoint("main", None).unwrap();
    assert_eq!(addr, 0x1100);
    let armed = s.install_breakpoint(addr, original, loc);
    assert_eq!(armed & 0xff, 0xcc);
    let (raddr, restored) = s.remove_breakpoint("main").unwrap();
    assert_eq!(raddr, addr);
    assert_eq!(restored, original);
    // adding again succeeds and saves the same original
    let (addr2, loc2) = s.resolve_breakpoint("main", None).unwrap();
    assert_eq!(addr2, addr);
    let armed2 = s.install_breakpoint(addr2, restored, loc2);
    assert_eq!(armed2, armed);
}

#[test]
fn duplicate_breakpoint_refused() {
    let mut s = fresh_session();
    let (addr, loc) = s.resolve_breakpoint("main", None).unwrap();
    s.install_breakpoint(addr, 0x90, loc);
    assert!(s.resolve_breakpoint("main", None).is_err());
}

#[test]
fn unknown_location_refused() {
    let s = fresh_session();
    assert!(s.resolve_breakpoint("nosuch", None).is_err());
}

#[test]
fn bare_decimal_location_uses_current_unit() {
    let mut s = fresh_session();
    // line 4 of the main unit
    let (addr, loc) = s.resolve_breakpoint("4", None).unwrap();
    assert_eq!(addr, 0x1120);
    assert_eq!(loc, "main.c:4");
    s.install_breakpoint(addr, 0, loc);
}

#[test]
fn stop_at_breakpoint_rewinds_by_one() {
    let mut s = fresh_session();
    let (addr, loc) = s.resolve_breakpoint("main", None).unwrap();
    let original: i64 = 0x55;
    s.install_breakpoint(addr, original, loc);
    s.run();
    assert_eq!(s.get_state(), SessionState::Running);
    // the tracee stops one byte past the trap
    let action = s.on_stop(addr + 1);
    assert_eq!(action, StopAction::SuspendBreakpoint { addr, word: original });
    // continuing from the rewound ip needs a step over the breakpoint
    assert!(s.needs_step_over(addr));
    let rearmed = s.rearm_breakpoint(addr).unwrap();
    assert_eq!(rearmed, trap_word(original));
}

#[test]
fn stop_at_trap_removes_it() {
    let mut s = fresh_session();
    assert!(s.trap_needed(0x1120));
    let word = s.install_trap(0x1120, 0x77);
    assert_eq!(word, trap_word(0x77));
    assert!(!s.trap_needed(0x1120));
    let action = s.on_stop(0x1121);
    assert_eq!(action, StopAction::RestoreTrap { addr: 0x1120, word: 0x77 });
    // the trap auto-removed
    assert!(s.trap_needed(0x1120));
}

#[test]
fn clear_restores_every_breakpoint() {
    let mut s = fresh_session();
    let (a1, l1) = s.resolve_breakpoint("main", None).unwrap();
    s.install_breakpoint(a1, 0x11, l1);
    let (a2, l2) = s.resolve_breakpoint("f", None).unwrap();
    s.install_breakpoint(a2, 0x22, l2);
    let mut restores = s.clear_breakpoints();
    restores.sort();
    assert_eq!(restores, vec![(0x1100, 0x11), (0x1200, 0x22)]);
    assert_eq!(s.count_breakpoints(), 0);
}

#[test]
fn enable_disable_round_trip() {
    let mut s = fresh_session();
    let (addr, loc) = s.resolve_breakpoint("main", None).unwrap();
    s.install_breakpoint(addr, 0x4242, loc);
    let (daddr, dword) = s.disable_breakpoint("main").unwrap();
    assert_eq!((daddr, dword), (addr, 0x4242));
    let (eaddr, eword) = s.enable_breakpoint("main").unwrap();
    assert_eq!(eaddr, addr);
    assert_eq!(eword, trap_word(0x4242));
    assert!(s.enable_breakpoint("nosuch").is_err());
}

#[test]
fn step_plans_trap_at_next_line() {
    let s = fresh_session();
    // at line 3 the next line of the same file is line 4
    let plan = s.plan_step(0x1110).unwrap();
    assert_eq!(plan, StepPlan::TrapAt(0x1120));
    // no line is known for this address
    assert!(s.plan_step(0x1500).is_err());
}

#[test]
fn step_at_last_line_falls_to_step_out() {
    let s = fresh_session();
    // line 5 is the last recorded line: nothing after it
    let plan = s.plan_step(0x1130).unwrap();
    assert_eq!(plan, StepPlan::StepOut);
}

#[test]
fn step_out_from_main_just_continues() {
    let s = fresh_session();
    assert_eq!(s.plan_step_out(0x1110).unwrap(), StepOutMode::ContinueOnly);
    assert_eq!(
        s.plan_step_out(0x1210).unwrap(),
        StepOutMode::NeedReturnAddr { func_start: 0x1200 }
    );
}

#[test]
fn return_addr_slot_follows_prologue_phase() {
    // endbr64; push rbp; mov rsp,rbp
    let prologue: Vec<u8> = vec![0xf3, 0x0f, 0x1e, 0xfa, 0x55, 0x48, 0x89, 0xe5];
    let sp = 0x7fff_0000;
    let bp = 0x7fff_1000;
    // before push rbp ran: return address at *rsp
    assert_eq!(DebugSession::return_addr_slot(0x1202, 0x1200, sp, bp, &prologue), Ok(sp));
    // after push rbp, before the frame is set: *(rsp + 8)
    assert_eq!(DebugSession::return_addr_slot(0x1206, 0x1200, sp, bp, &prologue), Ok(sp + 8));
    // frame established: *(rbp + 8)
    assert_eq!(DebugSession::return_addr_slot(0x1230, 0x1200, sp, bp, &prologue), Ok(bp + 8));
    // wrong prologue bytes are refused
    let bad: Vec<u8> = vec![0x90; 8];
    assert!(DebugSession::return_addr_slot(0x1230, 0x1200, sp, bp, &bad).is_err());
}

#[test]
fn step_in_stops_when_line_changes() {
    let s = fresh_session();
    assert!(!s.step_in_should_stop("main.c:3", 0x1110));
    assert!(s.step_in_should_stop("main.c:3", 0x1120));
    // addresses without a line do not stop the walk
    assert!(!s.step_in_should_stop("main.c:3", 0x1500));
}

#[test]
fn locations_are_trimmed_before_resolution() {
    let mut s = fresh_session();
    // whitespace around a bare decimal still means a line of the main unit
    let (addr, loc) = s.resolve_breakpoint(" 4\t", None).unwrap();
    assert_eq!(addr, 0x1120);
    assert_eq!(loc, "main.c:4");
    s.install_breakpoint(addr, 0, loc);
    // and around a function name too
    let (addr2, loc2) = s.resolve_breakpoint("  main ", None).unwrap();
    assert_eq!(loc2, "main");
    let _ = addr2;
}
