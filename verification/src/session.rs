use vstd::prelude::*;
use crate::breakpoint::Breakpoint;
use crate::consts::MAIN_FUNC_NAME;
use crate::error::DebuggerError;
use crate::loc_finder::LocFinder;
use crate::tables::U64Map;
use crate::text::{parse_u64, str_eq};
use crate::trap::Trap;
use crate::types::TypeStorage;

verus! {

/// Lifecycle of the tracee as the session sees it.
#[derive(Debug, Clone, Copy, PartialEq, Eq, Structural)]
pub enum SessionState {
    Started,
    Running,
    Exited,
}

/// The word at a trap site once the trap byte is written: low byte `0xCC`,
/// the rest untouched.
pub open spec fn trap_word_spec(w: i64) -> i64 {
    (w & !0xff) | 0xcc
}

/// Writing the trap byte touches the low byte alone, and writing the saved
/// word back restores the original exactly: the heart of the breakpoint
/// round trip.
pub proof fn lemma_trap_word(w: i64)
    ensures
        trap_word_spec(w) & 0xff == 0xcc,
        trap_word_spec(w) & !0xff == w & !0xff,
{
    assert(((w & !0xff) | 0xcc) & 0xff == 0xcc) by (bit_vector);
    assert((((w & !0xff) | 0xcc) & !0xff) == (w & !0xff)) by (bit_vector);
}

pub fn trap_word(w: i64) -> (r: i64)
    ensures
        r == trap_word_spec(w),
{
    (w & !0xffi64) | 0xcc
}

/// What the tracee controller must do after a stop was identified.
#[derive(Debug, Clone, PartialEq, Eq, Structural)]
pub enum StopAction {
    /// A transient trap fired: write `word` back at `addr` and rewind the
    /// instruction pointer to `addr`.
    RestoreTrap { addr: u64, word: i64 },
    /// A user breakpoint fired: restore its original word at `addr` and
    /// rewind the instruction pointer to `addr`; the breakpoint stays
    /// recorded, merely disabled until the next `cont`.
    SuspendBreakpoint { addr: u64, word: i64 },
    /// The stop was not ours: leave the instruction pointer alone.
    NoAdjustment,
}

/// What `step` decides to do.
#[derive(Debug, Clone, PartialEq, Eq, Structural)]
pub enum StepPlan {
    /// Install a transient trap at this address, then continue.
    TrapAt(u64),
    /// The next line leaves the function: step out instead.
    StepOut,
}

/// What `step-out` decides to do.
#[derive(Debug, Clone, PartialEq, Eq, Structural)]
pub enum StepOutMode {
    /// Inside `main` there is nowhere to return to: just continue.
    ContinueOnly,
    /// Read the return address; the function starts here.
    NeedReturnAddr { func_start: u64 },
}

/// The session core: the state machine coupling the location index, the
/// type store and the breakpoint and trap tables.  All process work —
/// ptrace calls, `/proc` memory access, waiting — happens outside; the
/// session makes every decision and hands the controller exact words to
/// write and addresses to adjust.
pub struct DebugSession {
    state: SessionState,
    loc_finder: LocFinder,
    type_storage: TypeStorage,
    base_address: u64,
    breakpoints: U64Map<Breakpoint>,
    traps: U64Map<Trap>,
}

impl DebugSession {
    pub closed spec fn state_spec(&self) -> SessionState {
        self.state
    }

    pub closed spec fn breakpoints_spec(&self) -> Map<u64, Breakpoint> {
        self.breakpoints@
    }

    pub closed spec fn traps_spec(&self) -> Map<u64, Trap> {
        self.traps@
    }

    pub closed spec fn base_spec(&self) -> u64 {
        self.base_address
    }

    pub closed spec fn loc_finder_spec(&self) -> LocFinder {
        self.loc_finder
    }

    pub closed spec fn type_storage_spec(&self) -> TypeStorage {
        self.type_storage
    }

    /// Breakpoints are keyed by their own address, and trap addresses stay
    /// disjoint from breakpoint addresses.
    pub closed spec fn wf(&self) -> bool {
        &&& self.loc_finder.wf()
        &&& self.breakpoints.wf()
        &&& self.traps.wf()
        &&& forall|a: u64|
            self.breakpoints@.dom().contains(a) ==> (#[trigger] self.breakpoints@[a]).addr == a
        &&& forall|a: u64|
            self.traps@.dom().contains(a) ==> !self.breakpoints@.dom().contains(a)
    }

    pub fn new(loc_finder: LocFinder, type_storage: TypeStorage, base_address: u64) -> (r: Self)
        requires
            loc_finder.wf(),
        ensures
            r.wf(),
            r.state_spec() == SessionState::Started,
            r.breakpoints_spec() == Map::<u64, Breakpoint>::empty(),
            r.traps_spec() == Map::<u64, Trap>::empty(),
            r.base_spec() == base_address,
            r.loc_finder_spec() == loc_finder,
            r.type_storage_spec() == type_storage,
    {
        DebugSession {
            state: SessionState::Started,
            loc_finder,
            type_storage,
            base_address,
            breakpoints: U64Map::new(),
            traps: U64Map::new(),
        }
    }

    pub fn get_state(&self) -> (r: SessionState)
        ensures
            r == self.state_spec(),
    {
        self.state
    }

    pub fn get_loc_finder(&self) -> (r: &LocFinder)
        ensures
            *r == self.loc_finder_spec(),
    {
        &self.loc_finder
    }

    pub fn get_type_storage(&self) -> (r: &TypeStorage)
        ensures
            *r == self.type_storage_spec(),
    {
        &self.type_storage
    }

    /// Identifier of the pointer-to-`type_id` node, adding it to the type
    /// store if absent (the `&` operator needs it).
    pub fn pointer_type_ref(&mut self, type_id: crate::types::TypeId) -> (r: crate::types::TypeId)
        requires
            old(self).wf(),
        ensures
            final(self).wf(),
            final(self).type_storage_spec()@ == old(self).type_storage_spec()@ || final(self).type_storage_spec()@ == old(self).type_storage_spec()@.push(
                crate::types::Type::Pointer(type_id),
            ),
            r < final(self).type_storage_spec()@.len() && (final(self).type_storage_spec()@[
                r as int]) == crate::types::Type::Pointer(type_id),
            forall|j: int|
                0 <= j < r ==> final(self).type_storage_spec()@[j] != crate::types::Type::Pointer(
                    type_id,
                ),
            final(self).state_spec() == old(self).state_spec(),
            final(self).breakpoints_spec() == old(self).breakpoints_spec(),
            final(self).traps_spec() == old(self).traps_spec(),
            final(self).base_spec() == old(self).base_spec(),
            final(self).loc_finder_spec() == old(self).loc_finder_spec(),
    {
        self.type_storage.get_type_ref(type_id)
    }

    /// The tracee was told to run.
    pub fn run(&mut self)
        requires
            old(self).wf(),
        ensures
            final(self).wf(),
            final(self).state_spec() == SessionState::Running,
            final(self).traps_spec() == old(self).traps_spec(),
            final(self).breakpoints_spec() == old(self).breakpoints_spec(),
            final(self).base_spec() == old(self).base_spec(),
            final(self).loc_finder_spec() == old(self).loc_finder_spec(),
            final(self).type_storage_spec() == old(self).type_storage_spec(),
    {
        self.state = SessionState::Running;
    }

    /// The tracee was killed, or `waitpid` reported its exit.
    pub fn stop(&mut self)
        requires
            old(self).wf(),
        ensures
            final(self).wf(),
            final(self).state_spec() == SessionState::Exited,
            final(self).traps_spec() == old(self).traps_spec(),
            final(self).breakpoints_spec() == old(self).breakpoints_spec(),
            final(self).base_spec() == old(self).base_spec(),
            final(self).loc_finder_spec() == old(self).loc_finder_spec(),
            final(self).type_storage_spec() == old(self).type_storage_spec(),
    {
        self.state = SessionState::Exited;
    }

    /// Identify the cause of a stop at instruction pointer `ip` and decide
    /// what to undo.  A trap byte is one instruction long, so a fired trap
    /// or breakpoint leaves the tracee stopped one byte past its address:
    /// the byte at `ip - 1` is the culprit, and the rewind target equals
    /// exactly that address.  A fired trap auto-removes; a fired breakpoint
    /// is suspended but stays recorded.
    pub fn on_stop(&mut self, ip: u64) -> (r: StopAction)
        requires
            old(self).wf(),
            ip >= 1,
        ensures
            final(self).wf(),
            final(self).state_spec() == SessionState::Running,
            final(self).base_spec() == old(self).base_spec(),
            final(self).loc_finder_spec() == old(self).loc_finder_spec(),
            final(self).type_storage_spec() == old(self).type_storage_spec(),
            old(self).traps_spec().dom().contains((ip - 1) as u64) ==> r == (
            StopAction::RestoreTrap {
                addr: (ip - 1) as u64,
                word: old(self).traps_spec()[(ip - 1) as u64].original_bytecode,
            }) && final(self).traps_spec() == old(self).traps_spec().remove((ip - 1) as u64)
                && final(self).breakpoints_spec() == old(self).breakpoints_spec(),
            (!old(self).traps_spec().dom().contains((ip - 1) as u64) && old(self).breakpoints_spec().dom().contains((ip - 1) as u64)) ==> r == (
            StopAction::SuspendBreakpoint {
                addr: (ip - 1) as u64,
                word: old(self).breakpoints_spec()[(ip - 1) as u64].original_bytecode,
            }) && final(self).traps_spec() == old(self).traps_spec() && final(self).breakpoints_spec() == old(self).breakpoints_spec().insert(
                (ip - 1) as u64,
                (Breakpoint {
                    addr: old(self).breakpoints_spec()[(ip - 1) as u64].addr,
                    original_bytecode: old(self).breakpoints_spec()[(ip - 1) as u64].original_bytecode,
                    loc: old(self).breakpoints_spec()[(ip - 1) as u64].loc,
                    enabled: false,
                }),
            ),
            (!old(self).traps_spec().dom().contains((ip - 1) as u64) && !old(self).breakpoints_spec().dom().contains((ip - 1) as u64)) ==> r
                == StopAction::NoAdjustment && final(self).traps_spec() == old(self).traps_spec()
                && final(self).breakpoints_spec() == old(self).breakpoints_spec(),
    {
        self.state = SessionState::Running;
        let prev_addr = ip - 1;

        if let Some(trap) = self.traps.remove(prev_addr) {
            return StopAction::RestoreTrap { addr: prev_addr, word: trap.original_bytecode };
        }

        if let Some(bp) = self.breakpoints.get(prev_addr) {
            let updated = Breakpoint {
                addr: bp.addr,
                original_bytecode: bp.original_bytecode,
                loc: bp.loc.clone(),
                enabled: false,
            };
            let word = updated.original_bytecode;
            proof {
                assert(updated.loc@ == old(self).breakpoints_spec()[(ip - 1) as u64].loc@);
            }
            self.breakpoints.insert(prev_addr, updated);
            return StopAction::SuspendBreakpoint { addr: prev_addr, word };
        }

        StopAction::NoAdjustment
    }

    /// On `cont`, a breakpoint sitting exactly at the current instruction
    /// pointer was suspended by the last stop; the controller must
    /// single-step past it before re-arming it, else the tracee re-traps
    /// immediately.
    pub fn needs_step_over(&self, ip: u64) -> (r: bool)
        requires
            self.wf(),
        ensures
            r == self.breakpoints_spec().dom().contains(ip),
    {
        self.breakpoints.contains_key(ip)
    }

    /// Re-arm the breakpoint at `addr`, handing back the word to write.
    pub fn rearm_breakpoint(&mut self, addr: u64) -> (r: Option<i64>)
        requires
            old(self).wf(),
        ensures
            final(self).wf(),
            old(self).breakpoints_spec().dom().contains(addr) ==> r == Some(
                trap_word_spec(old(self).breakpoints_spec()[addr].original_bytecode),
            ) && final(self).breakpoints_spec() == old(self).breakpoints_spec().insert(
                addr,
                (Breakpoint {
                    addr: old(self).breakpoints_spec()[addr].addr,
                    original_bytecode: old(self).breakpoints_spec()[addr].original_bytecode,
                    loc: old(self).breakpoints_spec()[addr].loc,
                    enabled: true,
                }),
            ),
            !old(self).breakpoints_spec().dom().contains(addr) ==> r is None && final(self).breakpoints_spec() == old(self).breakpoints_spec(),
            final(self).traps_spec() == old(self).traps_spec(),
            final(self).state_spec() == old(self).state_spec(),
            final(self).base_spec() == old(self).base_spec(),
            final(self).loc_finder_spec() == old(self).loc_finder_spec(),
            final(self).type_storage_spec() == old(self).type_storage_spec(),
    {
        if let Some(bp) = self.breakpoints.get(addr) {
            let updated = Breakpoint {
                addr: bp.addr,
                original_bytecode: bp.original_bytecode,
                loc: bp.loc.clone(),
                enabled: true,
            };
            let word = trap_word(updated.original_bytecode);
            proof {
                assert(updated.loc@ == old(self).breakpoints_spec()[addr].loc@);
            }
            self.breakpoints.insert(addr, updated);
            Some(word)
        } else {
            None
        }
    }

    /// Turn a user location into a resolvable key, stripping the
    /// whitespace the command layer may leave: a bare decimal `N` means
    /// line `N` of the current compile unit (the unit containing `ip`
    /// when running, else the unit of `main`), so the answer is that
    /// unit's name, a colon and the digits; with no such unit the
    /// location is unresolvable.  Anything else passes through trimmed.
    pub fn prepare_breakpoint_loc(&self, loc: &str, ip: Option<u64>) -> (r: Result<
        String,
        DebuggerError,
    >)
        requires
            self.wf(),
        ensures
            (crate::text::all_dec_digits(crate::text::trim_spec(loc@)) && crate::text::trim_spec(loc@).len() > 0 && crate::text::dec_value(crate::text::trim_spec(loc@))
                <= u64::MAX) ==> (match r {
                Ok(out) => match ip {
                    Some(a) => exists|i: int|
                        0 <= i < self.loc_finder_spec().unit_ranges_spec().len() && (
                        #[trigger] self.loc_finder_spec().unit_ranges_spec()[i]).0 <= a && a
                            <= self.loc_finder_spec().unit_ranges_spec()[i].1 && out@
                            == self.loc_finder_spec().unit_ranges_spec()[i].2@ + seq![':'] + crate::text::trim_spec(loc@),
                    None => self.loc_finder_spec().main_unit_spec() matches Some(u) && out@ == u@
                        + seq![':'] + crate::text::trim_spec(loc@),
                },
                Err(e) => e == DebuggerError::LocNotFound && (match ip {
                    Some(a) => forall|i: int|
                        0 <= i < self.loc_finder_spec().unit_ranges_spec().len() ==> !((
                        #[trigger] self.loc_finder_spec().unit_ranges_spec()[i]).0 <= a && a
                            <= self.loc_finder_spec().unit_ranges_spec()[i].1),
                    None => self.loc_finder_spec().main_unit_spec() is None,
                }),
            }),
            !(crate::text::all_dec_digits(crate::text::trim_spec(loc@)) && crate::text::trim_spec(loc@).len() > 0 && crate::text::dec_value(crate::text::trim_spec(loc@))
                <= u64::MAX) ==> (r matches Ok(out) && out@ == crate::text::trim_spec(loc@)),
    {
        let trimmed = crate::text::trim_str(loc);
        match parse_u64(trimmed.as_str()) {
            Some(_) => {
                match self.loc_finder.find_unit(ip) {
                    Some(unit_name) => {
                        let out = unit_name.concat(":").concat(trimmed.as_str());
                        proof {
                            reveal_strlit(":");
                            assert(":"@ =~= seq![':']);
                            if let Some(a) = ip {
                                let i = choose|i: int|
                                    0 <= i < self.loc_finder_spec().unit_ranges_spec().len() && (
                                    #[trigger] self.loc_finder_spec().unit_ranges_spec()[i]).0 <= a
                                        && a <= self.loc_finder_spec().unit_ranges_spec()[i].1
                                        && self.loc_finder_spec().unit_ranges_spec()[i].2@
                                        == unit_name@;
                                assert((self.loc_finder_spec().unit_ranges_spec()[i]).0 <= a);
                                assert(out@ == self.loc_finder_spec().unit_ranges_spec()[i].2@
                                    + seq![':'] + crate::text::trim_spec(loc@));
                            }
                        }
                        Ok(out)
                    },
                    None => Err(DebuggerError::LocNotFound),
                }
            },
            None => Ok(trimmed),
        }
    }

    /// Resolve a (prepared) location to its breakpoint address, refusing
    /// unknown locations and duplicates.
    pub fn resolve_breakpoint(&self, loc: &str, ip: Option<u64>) -> (r: Result<
        (u64, String),
        DebuggerError,
    >)
        requires
            self.wf(),
        ensures
            r matches Ok(p) ==> (self.loc_finder_spec().locations_spec().dom().contains(p.1@)
                && self.loc_finder_spec().locations_spec()[p.1@] == p.0
                && !self.breakpoints_spec().dom().contains(p.0)),
            !(crate::text::all_dec_digits(crate::text::trim_spec(loc@)) && crate::text::trim_spec(loc@).len() > 0 && crate::text::dec_value(crate::text::trim_spec(loc@))
                <= u64::MAX) ==> ({
                let locs = self.loc_finder_spec().locations_spec();
                if !locs.dom().contains(crate::text::trim_spec(loc@)) {
                    r == Err::<(u64, String), DebuggerError>(DebuggerError::LocNotFound)
                } else if self.breakpoints_spec().dom().contains(locs[crate::text::trim_spec(loc@)]) {
                    r == Err::<(u64, String), DebuggerError>(DebuggerError::BreakpointAlreadyExist)
                } else {
                    r matches Ok(p) && p.0 == locs[crate::text::trim_spec(loc@)] && p.1@ == crate::text::trim_spec(loc@)
                }
            }),
            (crate::text::all_dec_digits(crate::text::trim_spec(loc@)) && crate::text::trim_spec(loc@).len() > 0 && crate::text::dec_value(crate::text::trim_spec(loc@))
                <= u64::MAX) ==> ({
                let locs = self.loc_finder_spec().locations_spec();
                let ur = self.loc_finder_spec().unit_ranges_spec();
                match r {
                    Ok(p) => match ip {
                        Some(a) => exists|i: int|
                            0 <= i < ur.len() && (#[trigger] ur[i]).0 <= a && a <= ur[i].1 && p.1@
                                == ur[i].2@ + seq![':'] + crate::text::trim_spec(loc@),
                        None => self.loc_finder_spec().main_unit_spec() matches Some(u) && p.1@
                            == u@ + seq![':'] + crate::text::trim_spec(loc@),
                    },
                    Err(e) => match ip {
                        Some(a) => if (forall|i: int|
                            0 <= i < ur.len() ==> !((#[trigger] ur[i]).0 <= a && a <= ur[i].1)) {
                            e == DebuggerError::LocNotFound
                        } else {
                            forall|i: int|
                                0 <= i < ur.len() && (#[trigger] ur[i]).0 <= a && a <= ur[i].1
                                    ==> ({
                                    let key = ur[i].2@ + seq![':'] + crate::text::trim_spec(loc@);
                                    if !locs.dom().contains(key) {
                                        e == DebuggerError::LocNotFound
                                    } else if self.breakpoints_spec().dom().contains(locs[key]) {
                                        e == DebuggerError::BreakpointAlreadyExist
                                    } else {
                                        false
                                    }
                                })
                        },
                        None => match self.loc_finder_spec().main_unit_spec() {
                            None => e == DebuggerError::LocNotFound,
                            Some(u) => ({
                                let key = u@ + seq![':'] + crate::text::trim_spec(loc@);
                                if !locs.dom().contains(key) {
                                    e == DebuggerError::LocNotFound
                                } else if self.breakpoints_spec().dom().contains(locs[key]) {
                                    e == DebuggerError::BreakpointAlreadyExist
                                } else {
                                    false
                                }
                            }),
                        },
                    },
                }
            }),
    {
        let prepared = match self.prepare_breakpoint_loc(loc, ip) {
            Ok(p) => p,
            Err(e) => {
                return Err(e);
            },
        };
        proof {
            // at most one unit contains the instruction pointer, so every
            // containing unit names the key that was just prepared
            if crate::text::all_dec_digits(crate::text::trim_spec(loc@)) && crate::text::trim_spec(loc@).len() > 0 && crate::text::dec_value(crate::text::trim_spec(loc@))
                <= u64::MAX {
                if let Some(a) = ip {
                    let ur = self.loc_finder_spec().unit_ranges_spec();
                    self.loc_finder.lemma_unit_ranges_disjoint();
                    let i0 = choose|i: int|
                        0 <= i < ur.len() && (#[trigger] ur[i]).0 <= a && a <= ur[i].1 && prepared@
                            == ur[i].2@ + seq![':'] + crate::text::trim_spec(loc@);
                    assert forall|i: int|
                        0 <= i < ur.len() && (#[trigger] ur[i]).0 <= a && a <= ur[i].1 implies ur[i].2@
                        + seq![':'] + crate::text::trim_spec(loc@) == prepared@ by {
                        if i < i0 {
                            assert(ur[i].1 < ur[i0].0);
                        } else if i > i0 {
                            assert(ur[i0].1 < ur[i].0);
                        }
                    }
                }
            }
        }
        let addr = match self.loc_finder.find_loc(prepared.as_str()) {
            Some(a) => a,
            None => {
                return Err(DebuggerError::LocNotFound);
            },
        };
        if self.breakpoints.contains_key(addr) {
            return Err(DebuggerError::BreakpointAlreadyExist);
        }
        Ok((addr, prepared))
    }

    /// Record a breakpoint whose site held `original`, handing back the
    /// word (low byte `0xCC`) the controller must write to arm it.
    pub fn install_breakpoint(&mut self, addr: u64, original: i64, loc: String) -> (r: i64)
        requires
            old(self).wf(),
            !old(self).breakpoints_spec().dom().contains(addr),
        ensures
            final(self).wf(),
            r == trap_word_spec(original),
            final(self).breakpoints_spec() == old(self).breakpoints_spec().insert(
                addr,
                (Breakpoint { addr, original_bytecode: original, loc, enabled: true }),
            ),
            final(self).traps_spec() == old(self).traps_spec().remove(addr),
            final(self).state_spec() == old(self).state_spec(),
            final(self).base_spec() == old(self).base_spec(),
            final(self).loc_finder_spec() == old(self).loc_finder_spec(),
            final(self).type_storage_spec() == old(self).type_storage_spec(),
    {
        let bp = Breakpoint { addr, original_bytecode: original, loc, enabled: true };
        let word = trap_word(original);
        // keep trap addresses disjoint from breakpoint addresses
        let _ = self.traps.remove(addr);
        self.breakpoints.insert(addr, bp);
        word
    }

    /// The recorded breakpoints, keyed by address.
    pub fn list_breakpoints(&self) -> (r: &Vec<(u64, Breakpoint)>)
        requires
            self.wf(),
        ensures
            crate::tables::distinct_u64_keys(r@),
            forall|i: int|
                0 <= i < r@.len() ==> self.breakpoints_spec().dom().contains(
                    (#[trigger] r@[i]).0,
                ) && self.breakpoints_spec()[r@[i].0] == r@[i].1,
            forall|k: u64|
                self.breakpoints_spec().dom().contains(k) ==> exists|i: int|
                    0 <= i < r@.len() && (#[trigger] r@[i]).0 == k,
    {
        self.breakpoints.pairs()
    }

    /// How many breakpoints are recorded.
    pub fn count_breakpoints(&self) -> (r: usize)
        requires
            self.wf(),
        ensures
            r == self.breakpoints_spec().dom().len(),
    {
        self.breakpoints.len()
    }

    /// The breakpoint created from the location string `loc`, if any.
    pub fn get_breakpoint(&self, loc: &str) -> (r: Option<&Breakpoint>)
        requires
            self.wf(),
        ensures
            r matches Some(bp) ==> self.breakpoints_spec().dom().contains(bp.addr)
                && self.breakpoints_spec()[bp.addr] == *bp && bp.loc@ == loc@,
            r is None ==> forall|a: u64|
                self.breakpoints_spec().dom().contains(a) ==> (
                #[trigger] self.breakpoints_spec()[a]).loc@ != loc@,
    {
        let pairs = self.breakpoints.pairs();
        let n = pairs.len();
        let mut i: usize = 0;
        while i < n
            invariant
                n == pairs@.len(),
                i <= n,
                forall|j: int| 0 <= j < i ==> (#[trigger] pairs@[j]).1.loc@ != loc@,
                self.wf(),
                crate::tables::distinct_u64_keys(pairs@),
                forall|j: int|
                    0 <= j < pairs@.len() ==> self.breakpoints_spec().dom().contains(
                        (#[trigger] pairs@[j]).0,
                    ) && self.breakpoints_spec()[pairs@[j].0] == pairs@[j].1,
                forall|k: u64|
                    self.breakpoints_spec().dom().contains(k) ==> exists|j: int|
                        0 <= j < pairs@.len() && (#[trigger] pairs@[j]).0 == k,
            decreases n - i,
        {
            if str_eq(pairs[i].1.loc.as_str(), loc) {
                proof {
                    assert(pairs@[i as int].1.addr == pairs@[i as int].0);
                }
                return Some(&pairs[i].1);
            }
            i = i + 1;
        }
        proof {
            assert forall|a: u64|
                self.breakpoints_spec().dom().contains(a) implies (
            #[trigger] self.breakpoints_spec()[a]).loc@ != loc@ by {
                let j = choose|j: int| 0 <= j < pairs@.len() && (#[trigger] pairs@[j]).0 == a;
                assert(pairs@[j].1.loc@ != loc@);
            }
        }
        None
    }

    /// Drop the breakpoint created from `loc`; the controller must write
    /// the returned original word back to undo the trap byte.
    pub fn remove_breakpoint(&mut self, loc: &str) -> (r: Result<(u64, i64), DebuggerError>)
        requires
            old(self).wf(),
        ensures
            final(self).wf(),
            r matches Ok(p) ==> old(self).breakpoints_spec().dom().contains(p.0) && old(self).breakpoints_spec()[p.0].loc@ == loc@ && p.1 == old(self).breakpoints_spec()[p.0].original_bytecode && final(self).breakpoints_spec() == old(self).breakpoints_spec().remove(p.0),
            r is Err ==> r == Err::<(u64, i64), DebuggerError>(DebuggerError::BreakpointNotFound)
                && *final(self) == *old(self) && (forall|a: u64|
                old(self).breakpoints_spec().dom().contains(a) ==> (#[trigger] old(self).breakpoints_spec()[a]).loc@ != loc@),
            final(self).traps_spec() == old(self).traps_spec(),
            final(self).state_spec() == old(self).state_spec(),
            final(self).base_spec() == old(self).base_spec(),
            final(self).loc_finder_spec() == old(self).loc_finder_spec(),
            final(self).type_storage_spec() == old(self).type_storage_spec(),
    {
        let addr = match self.get_breakpoint(loc) {
            Some(bp) => bp.addr,
            None => {
                return Err(DebuggerError::BreakpointNotFound);
            },
        };
        match self.breakpoints.remove(addr) {
            Some(bp) => Ok((addr, bp.original_bytecode)),
            None => {
                // unreachable: the lookup by location just found this address
                proof {
                    assert(false);
                }
                Err(DebuggerError::BreakpointNotFound)
            },
        }
    }

    /// Drop every breakpoint; the controller must write each returned
    /// original word back at its address.
    pub fn clear_breakpoints(&mut self) -> (r: Vec<(u64, i64)>)
        requires
            old(self).wf(),
        ensures
            final(self).wf(),
            final(self).breakpoints_spec() == Map::<u64, Breakpoint>::empty(),
            forall|i: int|
                0 <= i < r@.len() ==> old(self).breakpoints_spec().dom().contains(
                    (#[trigger] r@[i]).0,
                ) && r@[i].1 == old(self).breakpoints_spec()[r@[i].0].original_bytecode,
            forall|k: u64|
                old(self).breakpoints_spec().dom().contains(k) ==> exists|i: int|
                    0 <= i < r@.len() && (#[trigger] r@[i]).0 == k,
            final(self).traps_spec() == old(self).traps_spec(),
            final(self).state_spec() == old(self).state_spec(),
            final(self).base_spec() == old(self).base_spec(),
            final(self).loc_finder_spec() == old(self).loc_finder_spec(),
            final(self).type_storage_spec() == old(self).type_storage_spec(),
    {
        let mut restores: Vec<(u64, i64)> = Vec::new();
        let pairs = self.breakpoints.pairs();
        let n = pairs.len();
        let mut i: usize = 0;
        while i < n
            invariant
                n == pairs@.len(),
                i <= n,
                self.wf(),
                crate::tables::distinct_u64_keys(pairs@),
                forall|j: int|
                    0 <= j < pairs@.len() ==> self.breakpoints_spec().dom().contains(
                        (#[trigger] pairs@[j]).0,
                    ) && self.breakpoints_spec()[pairs@[j].0] == pairs@[j].1,
                forall|k: u64|
                    self.breakpoints_spec().dom().contains(k) ==> exists|j: int|
                        0 <= j < pairs@.len() && (#[trigger] pairs@[j]).0 == k,
                restores@.len() == i,
                forall|j: int|
                    0 <= j < i ==> #[trigger] restores@[j] == (
                        pairs@[j].0,
                        pairs@[j].1.original_bytecode,
                    ),
            decreases n - i,
        {
            restores.push((pairs[i].0, pairs[i].1.original_bytecode));
            i = i + 1;
        }
        let ghost bp0 = self.breakpoints@;
        self.breakpoints = U64Map::new();
        proof {
            assert forall|k: u64| bp0.dom().contains(k) implies exists|i2: int|
                0 <= i2 < restores@.len() && (#[trigger] restores@[i2]).0 == k by {
                let j = choose|j: int| 0 <= j < pairs@.len() && (#[trigger] pairs@[j]).0 == k;
                assert(restores@[j] == (pairs@[j].0, pairs@[j].1.original_bytecode));
            }
        }
        restores
    }

    /// Re-arm the breakpoint created from `loc`, handing back its address
    /// and the word to write.
    pub fn enable_breakpoint(&mut self, loc: &str) -> (r: Result<(u64, i64), DebuggerError>)
        requires
            old(self).wf(),
        ensures
            final(self).wf(),
            r matches Ok(p) ==> old(self).breakpoints_spec().dom().contains(p.0) && old(self).breakpoints_spec()[p.0].loc@ == loc@ && p.1 == trap_word_spec(
                old(self).breakpoints_spec()[p.0].original_bytecode,
            ) && final(self).breakpoints_spec() == old(self).breakpoints_spec().insert(
                p.0,
                (Breakpoint {
                    addr: old(self).breakpoints_spec()[p.0].addr,
                    original_bytecode: old(self).breakpoints_spec()[p.0].original_bytecode,
                    loc: old(self).breakpoints_spec()[p.0].loc,
                    enabled: true,
                }),
            ),
            r is Err ==> r == Err::<(u64, i64), DebuggerError>(DebuggerError::BreakpointNotFound)
                && *final(self) == *old(self),
            final(self).traps_spec() == old(self).traps_spec(),
            final(self).state_spec() == old(self).state_spec(),
            final(self).loc_finder_spec() == old(self).loc_finder_spec(),
            final(self).type_storage_spec() == old(self).type_storage_spec(),
    {
        let addr = match self.get_breakpoint(loc) {
            Some(bp) => bp.addr,
            None => {
                return Err(DebuggerError::BreakpointNotFound);
            },
        };
        match self.rearm_breakpoint(addr) {
            Some(word) => Ok((addr, word)),
            None => {
                // unreachable: the lookup by location just found this address
                proof {
                    assert(false);
                }
                Err(DebuggerError::BreakpointNotFound)
            },
        }
    }

    /// Suspend the breakpoint created from `loc`, handing back its address
    /// and the original word to write.
    pub fn disable_breakpoint(&mut self, loc: &str) -> (r: Result<(u64, i64), DebuggerError>)
        requires
            old(self).wf(),
        ensures
            final(self).wf(),
            r matches Ok(p) ==> old(self).breakpoints_spec().dom().contains(p.0) && old(self).breakpoints_spec()[p.0].loc@ == loc@ && p.1 == old(self).breakpoints_spec()[p.0].original_bytecode && final(self).breakpoints_spec() == old(self).breakpoints_spec().insert(
                p.0,
                (Breakpoint {
                    addr: old(self).breakpoints_spec()[p.0].addr,
                    original_bytecode: old(self).breakpoints_spec()[p.0].original_bytecode,
                    loc: old(self).breakpoints_spec()[p.0].loc,
                    enabled: false,
                }),
            ),
            r is Err ==> r == Err::<(u64, i64), DebuggerError>(DebuggerError::BreakpointNotFound)
                && *final(self) == *old(self),
            final(self).traps_spec() == old(self).traps_spec(),
            final(self).state_spec() == old(self).state_spec(),
            final(self).loc_finder_spec() == old(self).loc_finder_spec(),
            final(self).type_storage_spec() == old(self).type_storage_spec(),
    {
        let (addr, original) = match self.get_breakpoint(loc) {
            Some(bp) => (bp.addr, bp.original_bytecode),
            None => {
                return Err(DebuggerError::BreakpointNotFound);
            },
        };
        if let Some(bp) = self.breakpoints.get(addr) {
            let updated = Breakpoint {
                addr: bp.addr,
                original_bytecode: bp.original_bytecode,
                loc: bp.loc.clone(),
                enabled: false,
            };
            proof {
                assert(updated.loc@ == old(self).breakpoints_spec()[addr].loc@);
            }
            self.breakpoints.insert(addr, updated);
            Ok((addr, original))
        } else {
            // unreachable: the lookup by location just found this address
            proof {
                assert(false);
            }
            Err(DebuggerError::BreakpointNotFound)
        }
    }

    /// A trap is needed only where no trap and no breakpoint sit already:
    /// an armed breakpoint's byte already stops the tracee, and doubling
    /// up would save a trap byte as the "original" word.
    pub fn trap_needed(&self, addr: u64) -> (r: bool)
        requires
            self.wf(),
        ensures
            r == (!self.traps_spec().dom().contains(addr) && !self.breakpoints_spec().dom().contains(
                addr,
            )),
    {
        !self.traps.contains_key(addr) && !self.breakpoints.contains_key(addr)
    }

    /// Record a transient trap whose site held `original`, handing back
    /// the word to write to arm it.
    pub fn install_trap(&mut self, addr: u64, original: i64) -> (r: i64)
        requires
            old(self).wf(),
            !old(self).breakpoints_spec().dom().contains(addr),
        ensures
            final(self).wf(),
            r == trap_word_spec(original),
            final(self).traps_spec() == old(self).traps_spec().insert(
                addr,
                (Trap { original_bytecode: original }),
            ),
            final(self).breakpoints_spec() == old(self).breakpoints_spec(),
            final(self).state_spec() == old(self).state_spec(),
            final(self).base_spec() == old(self).base_spec(),
            final(self).loc_finder_spec() == old(self).loc_finder_spec(),
            final(self).type_storage_spec() == old(self).type_storage_spec(),
    {
        self.traps.insert(addr, Trap::new(original));
        trap_word(original)
    }

    /// Decide what `step` (next source line) does at `ip`: trap the next
    /// line of the same file, or fall through to `step-out` when the next
    /// line lies beyond the current function's end.
    pub fn plan_step(&self, ip: u64) -> (r: Result<StepPlan, DebuggerError>)
        requires
            self.wf(),
        ensures
            !self.loc_finder_spec().addr2line_spec().dom().contains(ip) ==> r == Err::<
                StepPlan,
                DebuggerError,
            >(DebuggerError::LocNotFound),
            self.loc_finder_spec().addr2line_spec().dom().contains(ip) ==> ({
                let fl = self.loc_finder_spec().addr2line_spec()[ip];
                match self.loc_finder_spec().next_line_addr_spec(fl) {
                    None => r == Ok::<StepPlan, DebuggerError>(StepPlan::StepOut),
                    Some(next) => if !self.loc_finder_spec().has_func_at_spec(ip) {
                        r == Err::<StepPlan, DebuggerError>(DebuggerError::LocNotFound)
                    } else if next >= self.loc_finder_spec().func_range_at_spec(ip).1 {
                        r == Ok::<StepPlan, DebuggerError>(StepPlan::StepOut)
                    } else {
                        r == Ok::<StepPlan, DebuggerError>(StepPlan::TrapAt(next))
                    },
                }
            }),
    {
        let start_line = match self.loc_finder.find_line(ip) {
            Some(l) => l,
            None => {
                return Err(DebuggerError::LocNotFound);
            },
        };
        let next_line_address = match self.loc_finder.find_next_line_address(start_line.as_str()) {
            Some(a) => a,
            None => {
                return Ok(StepPlan::StepOut);
            },
        };
        let func_end = match self.loc_finder.find_func_end(ip) {
            Some(e) => e,
            None => {
                return Err(DebuggerError::LocNotFound);
            },
        };
        if next_line_address >= func_end {
            return Ok(StepPlan::StepOut);
        }
        Ok(StepPlan::TrapAt(next_line_address))
    }

    /// During `step-in` the controller single-steps until the reported
    /// source line moves away from the starting one (or the tracee exits);
    /// this is the decision for one step.
    pub fn step_in_should_stop(&self, start_line: &str, ip: u64) -> (r: bool)
        requires
            self.wf(),
        ensures
            r == (self.loc_finder_spec().addr2line_spec().dom().contains(ip)
                && self.loc_finder_spec().addr2line_spec()[ip] != start_line@),
    {
        match self.loc_finder.find_line(ip) {
            Some(l) => !str_eq(l.as_str(), start_line),
            None => false,
        }
    }

    /// Decide how `step-out` proceeds at `ip`: from `main` there is no
    /// caller to return to, elsewhere the controller must fetch the
    /// return address of the function starting at `func_start`.
    pub fn plan_step_out(&self, ip: u64) -> (r: Result<StepOutMode, DebuggerError>)
        requires
            self.wf(),
        ensures
            match r {
                Ok(StepOutMode::NeedReturnAddr { func_start }) => exists|i: int|
                    0 <= i < self.loc_finder_spec().func_ranges_spec().len() && (
                    #[trigger] self.loc_finder_spec().func_ranges_spec()[i]).0 == func_start
                        && func_start <= ip && ip <= (self.loc_finder_spec().func_ranges_spec()[i]).1,
                Ok(StepOutMode::ContinueOnly) => exists|i: int|
                    0 <= i < self.loc_finder_spec().func_ranges_spec().len() && (
                    #[trigger] self.loc_finder_spec().func_ranges_spec()[i]).0 <= ip && ip <= (
                    self.loc_finder_spec().func_ranges_spec()[i]).1 && (
                    self.loc_finder_spec().func_ranges_spec()[i]).2@
                        == crate::consts::MAIN_FUNC_NAME@,
                _ => true,
            },
            r is Err ==> r == Err::<StepOutMode, DebuggerError>(DebuggerError::LocNotFound)
                && (forall|i: int|
                0 <= i < self.loc_finder_spec().func_ranges_spec().len() ==> !((
                #[trigger] self.loc_finder_spec().func_ranges_spec()[i]).0 <= ip && ip
                    <= self.loc_finder_spec().func_ranges_spec()[i].1)),
    {
        if self.loc_finder.is_inside_main(ip) {
            proof {
                let i = choose|i: int|
                    0 <= i < self.loc_finder.func_ranges_spec().len() && (
                    #[trigger] self.loc_finder.func_ranges_spec()[i]).0 <= ip && ip
                        <= self.loc_finder.func_ranges_spec()[i].1
                        && self.loc_finder.func_ranges_spec()[i].2@ == MAIN_FUNC_NAME@;
                assert((self.loc_finder_spec().func_ranges_spec()[i]).0 <= ip);
            }
            return Ok(StepOutMode::ContinueOnly);
        }
        let found = self.loc_finder.find_func_start(ip);
        proof {
            if found is Some {
                let fs = found.unwrap();
                let i = choose|i: int|
                    0 <= i < self.loc_finder.func_ranges_spec().len() && (
                    #[trigger] self.loc_finder.func_ranges_spec()[i]).0 == fs && fs <= ip && ip
                        <= self.loc_finder.func_ranges_spec()[i].1;
                assert((self.loc_finder_spec().func_ranges_spec()[i]).0 == fs);
            }
        }
        match found {
            Some(func_start) => Ok(StepOutMode::NeedReturnAddr { func_start }),
            None => Err(DebuggerError::LocNotFound),
        }
    }

    /// Where the return address lives, given the bytes at the function's
    /// start and the stopped registers.  The function must begin with the
    /// expected prologue; before `push %rbp` has run the return address is
    /// at `*rsp`, after it but before `mov %rsp,%rbp` at `*(rsp+8)`, and
    /// once the frame is established at `*(rbp+8)`.
    pub fn return_addr_slot(
        ip: u64,
        func_start: u64,
        sp: u64,
        bp: u64,
        prologue: &Vec<u8>,
    ) -> (r: Result<u64, DebuggerError>)
        requires
            func_start <= ip,
        ensures
            prologue@ != crate::consts::prologue_magic_spec() ==> r == Err::<u64, DebuggerError>(
                DebuggerError::InvalidLocation,
            ),
            prologue@ == crate::consts::prologue_magic_spec() ==> match r {
                Ok(slot) => {
                    &&& (ip - func_start <= 4 ==> slot == sp)
                    &&& (4 < ip - func_start <= 8 ==> sp + 8 <= u64::MAX && slot == sp + 8)
                    &&& (ip - func_start > 8 ==> bp + 8 <= u64::MAX && slot == bp + 8)
                },
                Err(e) => e == DebuggerError::InvalidLocation && (ip - func_start > 4) && (ip
                    - func_start <= 8 ==> sp + 8 > u64::MAX) && (ip - func_start > 8 ==> bp + 8
                    > u64::MAX),
            },
    {
        let magic = crate::consts::func_prologue_magic();
        if prologue.len() != magic.len() {
            return Err(DebuggerError::InvalidLocation);
        }
        let mut i: usize = 0;
        let n = prologue.len();
        while i < n
            invariant
                n == prologue@.len(),
                n == magic@.len(),
                i <= n,
                magic@ == crate::consts::prologue_magic_spec(),
                forall|j: int| 0 <= j < i ==> prologue@[j] == magic@[j],
            decreases n - i,
        {
            if prologue[i] != magic[i] {
                return Err(DebuggerError::InvalidLocation);
            }
            i = i + 1;
        }
        proof {
            assert(prologue@ =~= magic@);
        }
        if ip - func_start <= 4 {
            Ok(sp)
        } else if ip - func_start <= 8 {
            if sp > u64::MAX - 8 {
                return Err(DebuggerError::InvalidLocation);
            }
            Ok(sp + 8)
        } else {
            if bp > u64::MAX - 8 {
                return Err(DebuggerError::InvalidLocation);
            }
            Ok(bp + 8)
        }
    }
}

} // verus!
