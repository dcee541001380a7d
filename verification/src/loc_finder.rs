use vstd::prelude::*;
use crate::consts::{FUNC_EPILOGUE_SIZE, FUNC_PROLOGUE_SIZE, MAIN_FUNC_NAME};
use crate::ranges::{Ranges, range_add_post};
use crate::tables::{StrMap, U64Map};
use crate::text::{all_dec_digits, dec_value, parse_u64, str_eq, u64_to_string};

verus! {

/// Reference back into the DWARF data: a compile unit's offset in
/// `.debug_info` and an entry's offset inside that unit.  The session uses
/// it to recover a variable's location expression lazily.
#[derive(Debug, Clone, Copy, PartialEq, Eq, Structural)]
pub struct EntryRef {
    pub unit_offset: usize,
    pub entry_offset: usize,
}

impl EntryRef {
    pub fn new(unit_offset: usize, entry_offset: usize) -> (r: Self)
        ensures
            r.unit_offset == unit_offset,
            r.entry_offset == entry_offset,
    {
        Self { unit_offset, entry_offset }
    }
}

/// A variable: where its DWARF entry lives and what type it has.
#[derive(Debug, Clone, Copy, PartialEq, Eq, Structural)]
pub struct VarRef {
    pub entry_ref: EntryRef,
    pub type_id: crate::types::TypeId,
}

impl VarRef {
    pub fn new(entry_ref: EntryRef, type_id: crate::types::TypeId) -> (r: Self)
        ensures
            r.entry_ref == entry_ref,
            r.type_id == type_id,
    {
        Self { entry_ref, type_id }
    }
}

/// Index of the last `c` in `s`, or `-1`.
pub open spec fn last_index_of(s: Seq<char>, c: char) -> int
    decreases s.len(),
{
    if s.len() == 0 {
        -1
    } else if s.last() == c {
        s.len() - 1
    } else {
        last_index_of(s.drop_last(), c)
    }
}

/// First non-zero slot of `s` at or after `i`, if any.
pub open spec fn next_nonzero(s: Seq<u64>, i: int) -> Option<u64>
    decreases s.len() - i,
{
    if i < 0 || i >= s.len() {
        None
    } else if s[i] != 0 {
        Some(s[i])
    } else {
        next_nonzero(s, i + 1)
    }
}

/// A found next-line address really comes from a strictly later slot of
/// the file's line table, and `None` really means every later slot is
/// empty: the reason stepping over straight-line code always moves to a
/// later source line rather than revisiting the current one.
pub proof fn lemma_next_nonzero_is_later(s: Seq<u64>, i: int)
    requires
        0 <= i,
    ensures
        match next_nonzero(s, i) {
            Some(a) => exists|j: int| i <= j < s.len() && s[j] == a && a != 0,
            None => forall|j: int| i <= j < s.len() ==> s[j] == 0,
        },
    decreases s.len() - i,
{
    if i < s.len() {
        if s[i] != 0 {
        } else {
            lemma_next_nonzero_is_later(s, i + 1);
            match next_nonzero(s, i) {
                Some(a) => {
                    let j = choose|j: int| i + 1 <= j < s.len() && s[j] == a && a != 0;
                    assert(i <= j < s.len());
                },
                None => {},
            }
        }
    }
}

/// The one-time product of the DWARF parse: lookup tables answering every
/// resolution query the session makes (location to address, address to
/// source line, address to function or unit, variable name to entry).
/// Every address stored or returned is absolute: `base_address` is added
/// to each raw DWARF address at ingestion.
pub struct LocFinder {
    base_address: u64,
    locations: StrMap<u64>,
    addr2line: U64Map<String>,
    lines: StrMap<Vec<u64>>,
    funcs: StrMap<EntryRef>,
    func_ranges: Ranges<String>,
    unit_ranges: Ranges<String>,
    main_unit: Option<String>,
    func_variables: StrMap<StrMap<VarRef>>,
    global_variables: StrMap<VarRef>,
}

impl LocFinder {
    pub closed spec fn base_spec(&self) -> u64 {
        self.base_address
    }

    pub closed spec fn locations_spec(&self) -> Map<Seq<char>, u64> {
        self.locations@
    }

    pub closed spec fn addr2line_spec(&self) -> Map<u64, Seq<char>> {
        Map::new(
            |k: u64| self.addr2line@.dom().contains(k),
            |k: u64| self.addr2line@[k]@,
        )
    }

    /// Line-number table of one file: slot `l` holds the first address
    /// seen for line `l`, `0` standing for no address.
    pub closed spec fn line_addrs_spec(&self, filepath: Seq<char>) -> Seq<u64> {
        if self.lines@.dom().contains(filepath) {
            self.lines@[filepath]@
        } else {
            Seq::empty()
        }
    }

    pub closed spec fn funcs_spec(&self) -> Map<Seq<char>, EntryRef> {
        self.funcs@
    }

    pub closed spec fn func_ranges_spec(&self) -> Seq<(u64, u64, String)> {
        self.func_ranges@
    }

    pub closed spec fn unit_ranges_spec(&self) -> Seq<(u64, u64, String)> {
        self.unit_ranges@
    }

    pub closed spec fn main_unit_spec(&self) -> Option<String> {
        self.main_unit
    }

    pub closed spec fn global_var_spec(&self) -> Map<Seq<char>, VarRef> {
        self.global_variables@
    }

    /// The variable `vname` local to function `fname`, if recorded.
    pub closed spec fn func_var_spec(&self, fname: Seq<char>, vname: Seq<char>) -> Option<VarRef> {
        if self.func_variables@.dom().contains(fname) && self.func_variables@[fname]@.dom().contains(
            vname,
        ) {
            Some(self.func_variables@[fname]@[vname])
        } else {
            None
        }
    }

    pub closed spec fn wf(&self) -> bool {
        &&& self.locations.wf()
        &&& self.addr2line.wf()
        &&& self.lines.wf()
        &&& self.funcs.wf()
        &&& self.func_ranges.wf()
        &&& self.unit_ranges.wf()
        &&& self.func_variables.wf()
        &&& self.global_variables.wf()
        &&& forall|k: Seq<char>|
            self.func_variables@.dom().contains(k) ==> (#[trigger] self.func_variables@[k]).wf()
    }

    pub fn base(&self) -> (r: u64)
        ensures
            r == self.base_spec(),
    {
        self.base_address
    }

    pub fn new(base_address: u64) -> (r: Self)
        ensures
            r.wf(),
            r.base_spec() == base_address,
            r.locations_spec() == Map::<Seq<char>, u64>::empty(),
            r.addr2line_spec() == Map::<u64, Seq<char>>::empty(),
            r.funcs_spec() == Map::<Seq<char>, EntryRef>::empty(),
            r.func_ranges_spec() == Seq::<(u64, u64, String)>::empty(),
            r.unit_ranges_spec() == Seq::<(u64, u64, String)>::empty(),
            r.main_unit_spec() is None,
            r.global_var_spec() == Map::<Seq<char>, VarRef>::empty(),
            forall|f: Seq<char>, v: Seq<char>| r.func_var_spec(f, v) is None,
            forall|f: Seq<char>| r.line_addrs_spec(f) == Seq::<u64>::empty(),
    {
        LocFinder {
            base_address,
            locations: StrMap::new(),
            addr2line: U64Map::new(),
            lines: StrMap::new(),
            funcs: StrMap::new(),
            func_ranges: Ranges::new(),
            unit_ranges: Ranges::new(),
            main_unit: None,
            func_variables: StrMap::new(),
            global_variables: StrMap::new(),
        }
    }

    /// Record a compile unit's (inclusive) code range.
    pub fn add_compile_unit(&mut self, name: String, low_pc: u64, high_pc: u64)
        requires
            old(self).wf(),
            old(self).base_spec() + low_pc <= u64::MAX,
            old(self).base_spec() + high_pc <= u64::MAX,
        ensures
            final(self).wf(),
            range_add_post(
                old(self).unit_ranges_spec(),
                final(self).unit_ranges_spec(),
                (old(self).base_spec() + low_pc) as u64,
                (old(self).base_spec() + high_pc) as u64,
                name,
            ),
            final(self).base_spec() == old(self).base_spec(),
            final(self).locations_spec() == old(self).locations_spec(),
            final(self).addr2line_spec() == old(self).addr2line_spec(),
            final(self).funcs_spec() == old(self).funcs_spec(),
            final(self).func_ranges_spec() == old(self).func_ranges_spec(),
            final(self).main_unit_spec() == old(self).main_unit_spec(),
            final(self).global_var_spec() == old(self).global_var_spec(),
            forall|f: Seq<char>, v: Seq<char>|
                final(self).func_var_spec(f, v) == old(self).func_var_spec(f, v),
            forall|f: Seq<char>| final(self).line_addrs_spec(f) == old(self).line_addrs_spec(f),
    {
        let start = self.base_address + low_pc;
        let end = self.base_address + high_pc;
        self.unit_ranges.add(start, end, name);
    }

    /// Remember a function's DWARF entry under its name.
    pub fn add_func_entry_ref(&mut self, name: String, entry_ref: EntryRef)
        requires
            old(self).wf(),
        ensures
            final(self).wf(),
            final(self).funcs_spec() == old(self).funcs_spec().insert(name@, entry_ref),
            final(self).base_spec() == old(self).base_spec(),
            final(self).locations_spec() == old(self).locations_spec(),
            final(self).addr2line_spec() == old(self).addr2line_spec(),
            final(self).func_ranges_spec() == old(self).func_ranges_spec(),
            final(self).unit_ranges_spec() == old(self).unit_ranges_spec(),
            final(self).main_unit_spec() == old(self).main_unit_spec(),
            final(self).global_var_spec() == old(self).global_var_spec(),
            forall|f: Seq<char>, v: Seq<char>|
                final(self).func_var_spec(f, v) == old(self).func_var_spec(f, v),
            forall|f: Seq<char>| final(self).line_addrs_spec(f) == old(self).line_addrs_spec(f),
    {
        self.funcs.insert(name, entry_ref);
    }

    /// Resolve `name` to the absolute address `base + address` from now on.
    pub fn add_location(&mut self, name: String, address: u64)
        requires
            old(self).wf(),
            old(self).base_spec() + address <= u64::MAX,
        ensures
            final(self).wf(),
            final(self).locations_spec() == old(self).locations_spec().insert(
                name@,
                (old(self).base_spec() + address) as u64,
            ),
            final(self).base_spec() == old(self).base_spec(),
            final(self).addr2line_spec() == old(self).addr2line_spec(),
            final(self).funcs_spec() == old(self).funcs_spec(),
            final(self).func_ranges_spec() == old(self).func_ranges_spec(),
            final(self).unit_ranges_spec() == old(self).unit_ranges_spec(),
            final(self).main_unit_spec() == old(self).main_unit_spec(),
            final(self).global_var_spec() == old(self).global_var_spec(),
            forall|f: Seq<char>, v: Seq<char>|
                final(self).func_var_spec(f, v) == old(self).func_var_spec(f, v),
            forall|f: Seq<char>| final(self).line_addrs_spec(f) == old(self).line_addrs_spec(f),
    {
        let addr = self.base_address + address;
        self.locations.insert(name, addr);
    }

    /// Record a function's (inclusive) code range; seeing `main` also pins
    /// down the main unit as the unit containing it.
    pub fn add_func_range(&mut self, name: String, low_pc: u64, high_pc: u64)
        requires
            old(self).wf(),
            old(self).base_spec() + low_pc <= u64::MAX,
            old(self).base_spec() + high_pc <= u64::MAX,
        ensures
            final(self).wf(),
            range_add_post(
                old(self).func_ranges_spec(),
                final(self).func_ranges_spec(),
                (old(self).base_spec() + low_pc) as u64,
                (old(self).base_spec() + high_pc) as u64,
                name,
            ),
            name@ != MAIN_FUNC_NAME@ ==> final(self).main_unit_spec() == old(self).main_unit_spec(),
            name@ == MAIN_FUNC_NAME@ ==> match final(self).main_unit_spec() {
                Some(u) => exists|i: int|
                    0 <= i < old(self).unit_ranges_spec().len() && (#[trigger] old(
                        self,
                    ).unit_ranges_spec()[i]).0 <= old(self).base_spec() + low_pc && old(
                        self,
                    ).base_spec() + low_pc <= old(self).unit_ranges_spec()[i].1 && old(
                        self,
                    ).unit_ranges_spec()[i].2@ == u@,
                None => forall|i: int|
                    0 <= i < old(self).unit_ranges_spec().len() ==> !((#[trigger] old(
                        self,
                    ).unit_ranges_spec()[i]).0 <= old(self).base_spec() + low_pc && old(
                        self,
                    ).base_spec() + low_pc <= old(self).unit_ranges_spec()[i].1),
            },
            final(self).base_spec() == old(self).base_spec(),
            final(self).locations_spec() == old(self).locations_spec(),
            final(self).addr2line_spec() == old(self).addr2line_spec(),
            final(self).funcs_spec() == old(self).funcs_spec(),
            final(self).unit_ranges_spec() == old(self).unit_ranges_spec(),
            final(self).global_var_spec() == old(self).global_var_spec(),
            forall|f: Seq<char>, v: Seq<char>|
                final(self).func_var_spec(f, v) == old(self).func_var_spec(f, v),
            forall|f: Seq<char>| final(self).line_addrs_spec(f) == old(self).line_addrs_spec(f),
    {
        let start = self.base_address + low_pc;
        let end = self.base_address + high_pc;
        let is_main = str_eq(name.as_str(), MAIN_FUNC_NAME);
        self.func_ranges.add(start, end, name);
        if is_main {
            // the compile unit must have been recorded by now
            let found = self.unit_ranges.find_value(start);
            proof {
                if found is Some {
                    let v = found.unwrap();
                    let i = choose|i: int|
                        0 <= i < self.unit_ranges_spec().len() && (
                        #[trigger] self.unit_ranges_spec()[i]).0 <= start && start
                            <= self.unit_ranges_spec()[i].1 && self.unit_ranges_spec()[i].2 == *v;
                    assert((old(self).unit_ranges_spec()[i]).0 <= old(self).base_spec() + low_pc);
                }
            }
            self.main_unit = match found {
                Some(u) => Some(u.clone()),
                None => None,
            };
        }
    }

    /// Record a variable, local to `func_name` or global.
    pub fn add_var(&mut self, name: String, var_ref: VarRef, func_name: Option<String>)
        requires
            old(self).wf(),
        ensures
            final(self).wf(),
            match func_name {
                Some(f) => final(self).global_var_spec() == old(self).global_var_spec() && forall|
                    f2: Seq<char>,
                    v2: Seq<char>,
                |
                    final(self).func_var_spec(f2, v2) == (if f2 == f@ && v2 == name@ {
                        Some(var_ref)
                    } else {
                        old(self).func_var_spec(f2, v2)
                    }),
                None => final(self).global_var_spec() == old(self).global_var_spec().insert(
                    name@,
                    var_ref,
                ) && forall|f2: Seq<char>, v2: Seq<char>|
                    final(self).func_var_spec(f2, v2) == old(self).func_var_spec(f2, v2),
            },
            final(self).base_spec() == old(self).base_spec(),
            final(self).locations_spec() == old(self).locations_spec(),
            final(self).addr2line_spec() == old(self).addr2line_spec(),
            final(self).funcs_spec() == old(self).funcs_spec(),
            final(self).func_ranges_spec() == old(self).func_ranges_spec(),
            final(self).unit_ranges_spec() == old(self).unit_ranges_spec(),
            final(self).main_unit_spec() == old(self).main_unit_spec(),
            forall|f: Seq<char>| final(self).line_addrs_spec(f) == old(self).line_addrs_spec(f),
    {
        match func_name {
            Some(f) => {
                let mut inner = match self.func_variables.remove(f.as_str()) {
                    Some(m) => m,
                    None => StrMap::new(),
                };
                inner.insert(name, var_ref);
                self.func_variables.insert(f, inner);
            },
            None => {
                self.global_variables.insert(name, var_ref);
            },
        }
    }

    /// Whether `address` sits in the first `FUNC_PROLOGUE_SIZE` bytes of a
    /// recorded function.
    pub open spec fn in_prologue_spec(&self, address: u64) -> bool {
        exists|i: int|
            0 <= i < self.func_ranges_spec().len() && (#[trigger] self.func_ranges_spec()[i]).0
                <= address && address <= self.func_ranges_spec()[i].1 && address
                - self.func_ranges_spec()[i].0 < FUNC_PROLOGUE_SIZE
    }

    /// Whether `address` sits in the last `FUNC_EPILOGUE_SIZE` bytes of a
    /// recorded function.
    pub open spec fn in_epilogue_spec(&self, address: u64) -> bool {
        exists|i: int|
            0 <= i < self.func_ranges_spec().len() && (#[trigger] self.func_ranges_spec()[i]).0
                <= address && address <= self.func_ranges_spec()[i].1
                && self.func_ranges_spec()[i].1 - address < FUNC_EPILOGUE_SIZE
    }

    /// What one line-table row does to a file's line slots: pad with empty
    /// slots up to `line`, then record `address` if the slot is fresh.
    pub open spec fn updated_line_addrs(s: Seq<u64>, line: int, address: u64) -> Seq<u64> {
        if s.len() > line {
            s
        } else {
            s + Seq::new((line - s.len()) as nat, |k: int| 0u64) + seq![address]
        }
    }

    /// Record one row of the line program.  The `filepath:line` location
    /// key resolves to the first address seen for it.  Addresses inside a
    /// function prologue or epilogue, and end-of-sequence rows, are kept
    /// out of both line indexes, so stepping never pauses on them.
    #[verifier::loop_isolation(false)]
    pub fn add_line(&mut self, filepath: String, line: usize, address: u64, end_sequence: bool)
        requires
            old(self).wf(),
            old(self).base_spec() + address <= u64::MAX,
            line < usize::MAX,
        ensures
            final(self).wf(),
            ({
                let a = (old(self).base_spec() + address) as u64;
                let key = filepath@ + seq![':'] + crate::text::dec_digits(line as nat);
                let skip = end_sequence || old(self).in_prologue_spec(a) || old(
                    self,
                ).in_epilogue_spec(a);
                &&& final(self).locations_spec() == (if old(self).locations_spec().dom().contains(
                    key,
                ) {
                    old(self).locations_spec()
                } else {
                    old(self).locations_spec().insert(key, a)
                })
                &&& (skip ==> final(self).addr2line_spec() == old(self).addr2line_spec() && forall|
                    f: Seq<char>,
                |
                    final(self).line_addrs_spec(f) == old(self).line_addrs_spec(f))
                &&& (!skip ==> final(self).addr2line_spec() == old(self).addr2line_spec().insert(
                    a,
                    key,
                ) && (forall|f: Seq<char>|
                    f != filepath@ ==> final(self).line_addrs_spec(f) == old(self).line_addrs_spec(
                        f,
                    )) && final(self).line_addrs_spec(filepath@) == Self::updated_line_addrs(
                    old(self).line_addrs_spec(filepath@),
                    line as int,
                    a,
                ))
            }),
            final(self).base_spec() == old(self).base_spec(),
            final(self).funcs_spec() == old(self).funcs_spec(),
            final(self).func_ranges_spec() == old(self).func_ranges_spec(),
            final(self).unit_ranges_spec() == old(self).unit_ranges_spec(),
            final(self).main_unit_spec() == old(self).main_unit_spec(),
            final(self).global_var_spec() == old(self).global_var_spec(),
            forall|f: Seq<char>, v: Seq<char>|
                final(self).func_var_spec(f, v) == old(self).func_var_spec(f, v),
    {
        let line_str = u64_to_string(line as u64);
        let fileline = filepath.clone().concat(":").concat(line_str.as_str());
        proof {
            reveal_strlit(":");
            assert(":"@ =~= seq![':']);
            assert(fileline@ == filepath@ + seq![':'] + crate::text::dec_digits(line as nat));
        }
        let address = self.base_address + address;
        let skip = end_sequence || self.is_func_prologue(address) || self.is_func_epilogue(
            address,
        );
        self.locations.insert_if_absent(fileline.clone(), address);

        if skip {
            proof {
                assert(self.addr2line_spec() =~= old(self).addr2line_spec());
            }
            return ;
        }

        self.addr2line.insert(address, fileline);

        let ghost fpv = filepath@;
        let mut addrs = match self.lines.remove(filepath.as_str()) {
            Some(v) => v,
            None => Vec::new(),
        };
        let ghost a0 = addrs@;
        // skip empty lines
        while addrs.len() < line
            invariant
                addrs@.len() <= line || addrs@ == a0,
                addrs@.len() >= a0.len(),
                a0.len() > line ==> addrs@ == a0,
                a0.len() <= line ==> addrs@ == a0 + Seq::new(
                    (addrs@.len() - a0.len()) as nat,
                    |k: int| 0u64,
                ),
            decreases line - addrs@.len(),
        {
            addrs.push(0);
            proof {
                if a0.len() <= line {
                    assert(addrs@ =~= a0 + Seq::new((addrs@.len() - a0.len()) as nat, |k: int| 0u64));
                }
            }
        }
        // keep only the first address seen for a line
        if addrs.len() == line {
            addrs.push(address);
        }
        proof {
            if a0.len() > line {
                assert(addrs@ == a0);
            } else {
                assert(addrs@ =~= Self::updated_line_addrs(a0, line as int, address));
            }
            assert(addrs@ == Self::updated_line_addrs(a0, line as int, address));
        }
        self.lines.insert(filepath, addrs);
        proof {
            let fl = fileline@;
            assert(fl == fpv + seq![':'] + crate::text::dec_digits(line as nat));
            assert(self.addr2line_spec() =~= old(self).addr2line_spec().insert(address, fl));
            assert(self.line_addrs_spec(fpv) == Self::updated_line_addrs(
                old(self).line_addrs_spec(fpv),
                line as int,
                address,
            ));
            assert forall|f: Seq<char>|
                f != fpv implies self.line_addrs_spec(f) == old(self).line_addrs_spec(f) by {}
        }
    }

    fn is_func_prologue(&self, address: u64) -> (r: bool)
        requires
            self.wf(),
        ensures
            r == self.in_prologue_spec(address),
    {
        proof {
            self.func_ranges.lemma_disjoint_sorted();
        }
        match self.func_ranges.find_range(address) {
            Some((start, _)) => {
                let r = address - start < FUNC_PROLOGUE_SIZE as u64;
                proof {
                    if !r && self.in_prologue_spec(address) {
                        let i = choose|i: int|
                            0 <= i < self.func_ranges_spec().len() && (
                            #[trigger] self.func_ranges_spec()[i]).0 <= address && address
                                <= self.func_ranges_spec()[i].1 && address
                                - self.func_ranges_spec()[i].0 < FUNC_PROLOGUE_SIZE;
                        let j = choose|j: int|
                            0 <= j < self.func_ranges_spec().len() && (
                            #[trigger] self.func_ranges_spec()[j]).0 == start
                                && self.func_ranges_spec()[j].1 >= address && start <= address;
                        assert(i == j);
                    }
                }
                r
            },
            None => {
                proof {
                    if self.in_prologue_spec(address) {
                        let i = choose|i: int|
                            0 <= i < self.func_ranges_spec().len() && (
                            #[trigger] self.func_ranges_spec()[i]).0 <= address && address
                                <= self.func_ranges_spec()[i].1 && address
                                - self.func_ranges_spec()[i].0 < FUNC_PROLOGUE_SIZE;
                    }
                }
                false
            },
        }
    }

    fn is_func_epilogue(&self, address: u64) -> (r: bool)
        requires
            self.wf(),
        ensures
            r == self.in_epilogue_spec(address),
    {
        proof {
            self.func_ranges.lemma_disjoint_sorted();
        }
        match self.func_ranges.find_range(address) {
            Some((_, end)) => {
                let r = end - address < FUNC_EPILOGUE_SIZE as u64;
                proof {
                    if !r && self.in_epilogue_spec(address) {
                        let i = choose|i: int|
                            0 <= i < self.func_ranges_spec().len() && (
                            #[trigger] self.func_ranges_spec()[i]).0 <= address && address
                                <= self.func_ranges_spec()[i].1 && self.func_ranges_spec()[i].1
                                - address < FUNC_EPILOGUE_SIZE;
                        let j = choose|j: int|
                            0 <= j < self.func_ranges_spec().len() && (
                            #[trigger] self.func_ranges_spec()[j]).1 == end
                                && self.func_ranges_spec()[j].0 <= address && address <= end;
                        assert(i == j);
                    }
                }
                r
            },
            None => {
                proof {
                    if self.in_epilogue_spec(address) {
                        let i = choose|i: int|
                            0 <= i < self.func_ranges_spec().len() && (
                            #[trigger] self.func_ranges_spec()[i]).0 <= address && address
                                <= self.func_ranges_spec()[i].1 && self.func_ranges_spec()[i].1
                                - address < FUNC_EPILOGUE_SIZE;
                    }
                }
                false
            },
        }
    }

    /// Absolute address a user-facing location string (function name or
    /// `file:line`) resolves to.
    pub fn find_loc(&self, loc: &str) -> (r: Option<u64>)
        requires
            self.wf(),
        ensures
            r matches Some(a) ==> self.locations_spec().dom().contains(loc@)
                && self.locations_spec()[loc@] == a,
            r is None ==> !self.locations_spec().dom().contains(loc@),
    {
        match self.locations.get(loc) {
            Some(a) => Some(*a),
            None => None,
        }
    }

    /// Source line at `address`, if the line table has one (prologue and
    /// epilogue addresses never do).
    pub fn find_line(&self, address: u64) -> (r: Option<&String>)
        requires
            self.wf(),
        ensures
            r matches Some(l) ==> self.addr2line_spec().dom().contains(address) && l@
                == self.addr2line_spec()[address],
            r is None ==> !self.addr2line_spec().dom().contains(address),
    {
        self.addr2line.get(address)
    }

    /// Address of the next populated line strictly after the line named by
    /// `fileline` (`path:number`): the answer `find_next_line_address` owes.
    pub open spec fn next_line_addr_spec(&self, fileline: Seq<char>) -> Option<u64> {
        let p = last_index_of(fileline, ':');
        if p < 0 {
            None
        } else {
            let digits = fileline.subrange(p + 1, fileline.len() as int);
            if digits.len() == 0 || !all_dec_digits(digits) || dec_value(digits) > u64::MAX
                || dec_value(digits) >= usize::MAX {
                None
            } else {
                next_nonzero(self.line_addrs_spec(fileline.subrange(0, p)), dec_value(digits) + 1)
            }
        }
    }

    /// Address of the next populated line strictly after the line named by
    /// `fileline` (`path:number`), in the same file.
    #[verifier::loop_isolation(false)]
    pub fn find_next_line_address(&self, fileline: &str) -> (r: Option<u64>)
        requires
            self.wf(),
        ensures
            r == self.next_line_addr_spec(fileline@),
    {
        let chars = crate::text::string_to_chars(fileline);
        let n = chars.len();
        // find the last ':'
        let mut p: usize = n;
        let mut found = false;
        let mut i: usize = n;
        proof {
            assert(fileline@.subrange(0, n as int) =~= fileline@);
        }
        while i > 0
            invariant
                i <= n,
                found ==> i <= p && p < n && fileline@[p as int] == ':',
                found ==> last_index_of(fileline@, ':') == p,
                !found ==> p == n && last_index_of(fileline@, ':') == last_index_of(
                    fileline@.subrange(0, i as int),
                    ':',
                ) && (forall|j: int| i <= j < n ==> fileline@[j] != ':'),
            decreases i,
        {
            i = i - 1;
            if !found && chars[i] == ':' {
                p = i;
                found = true;
                proof {
                    assert(fileline@.subrange(0, i + 1).last() == ':');
                    assert(last_index_of(fileline@.subrange(0, i + 1), ':') == i);
                    Self::lemma_last_index_suffix(fileline@, i as int);
                }
            } else {
                proof {
                    if !found {
                        assert(fileline@.subrange(0, i + 1).drop_last() =~= fileline@.subrange(
                            0,
                            i as int,
                        ));
                        assert(fileline@.subrange(0, i + 1).last() == fileline@[i as int]);
                    }
                }
            }
        }
        proof {
            if !found {
                assert(fileline@.subrange(0, 0) =~= Seq::<char>::empty());
            }
        }
        if !found {
            return None;
        }
        // split into path and line number
        let mut path_chars: Vec<char> = Vec::new();
        let mut j: usize = 0;
        while j < p
            invariant
                chars@ == fileline@,
                p < n,
                n == fileline@.len(),
                j <= p,
                path_chars@ == fileline@.subrange(0, j as int),
            decreases p - j,
        {
            path_chars.push(chars[j]);
            j = j + 1;
            proof {
                assert(path_chars@ =~= fileline@.subrange(0, j as int));
            }
        }
        let mut digit_chars: Vec<char> = Vec::new();
        let mut k: usize = p + 1;
        while k < n
            invariant
                chars@ == fileline@,
                p < n,
                n == fileline@.len(),
                p + 1 <= k <= n,
                digit_chars@ == fileline@.subrange(p + 1, k as int),
            decreases n - k,
        {
            digit_chars.push(chars[k]);
            k = k + 1;
            proof {
                assert(digit_chars@ =~= fileline@.subrange(p + 1, k as int));
            }
        }
        let path_string = crate::text::chars_to_string(path_chars);
        let digit_string = crate::text::chars_to_string(digit_chars);
        let line = match parse_u64(digit_string.as_str()) {
            Some(v) => v,
            None => {
                return None;
            },
        };
        if line >= usize::MAX as u64 {
            return None;
        }
        let line = line as usize;
        let addrs = match self.lines.get(path_string.as_str()) {
            Some(v) => v,
            None => {
                proof {
                    assert(self.line_addrs_spec(fileline@.subrange(0, p as int))
                        =~= Seq::<u64>::empty());
                }
                return None;
            },
        };
        let m = addrs.len();
        let ghost av = self.line_addrs_spec(fileline@.subrange(0, p as int));
        let mut t: usize = line + 1;
        while t < m
            invariant
                m == av.len(),
                addrs@ == av,
                t <= m || t == line + 1,
                next_nonzero(av, line + 1) == next_nonzero(av, t as int),
            decreases m - t,
        {
            if addrs[t] != 0 {
                return Some(addrs[t]);
            }
            t = t + 1;
        }
        None
    }

    proof fn lemma_last_index_suffix(s: Seq<char>, i: int)
        requires
            0 <= i < s.len(),
            s[i] == ':',
            last_index_of(s.subrange(0, i + 1), ':') == i,
            forall|j: int| i < j < s.len() ==> s[j] != ':',
        ensures
            last_index_of(s, ':') == i,
        decreases s.len() - i,
    {
        if i == s.len() - 1 {
            assert(s.subrange(0, i + 1) =~= s);
        } else {
            assert(s.last() != ':');
            assert(s.drop_last() =~= s.subrange(0, s.len() - 1));
            Self::lemma_last_index_suffix(s.subrange(0, s.len() - 1), i);
            assert(s.subrange(0, s.len() - 1).subrange(0, i + 1) =~= s.subrange(0, i + 1));
        }
    }

    /// DWARF entry of the function called `func_name`.
    pub fn find_func(&self, func_name: &str) -> (r: Option<EntryRef>)
        requires
            self.wf(),
        ensures
            r matches Some(e) ==> self.funcs_spec().dom().contains(func_name@)
                && self.funcs_spec()[func_name@] == e,
            r is None ==> !self.funcs_spec().dom().contains(func_name@),
    {
        match self.funcs.get(func_name) {
            Some(e) => Some(*e),
            None => None,
        }
    }

    /// Name of the function whose range contains `address`.
    pub fn find_func_by_address(&self, address: u64) -> (r: Option<String>)
        requires
            self.wf(),
        ensures
            r matches Some(name) ==> exists|i: int|
                0 <= i < self.func_ranges_spec().len() && (#[trigger] self.func_ranges_spec()[i]).0
                    <= address && address <= self.func_ranges_spec()[i].1
                    && self.func_ranges_spec()[i].2@ == name@,
            r is None ==> forall|i: int|
                0 <= i < self.func_ranges_spec().len() ==> !((#[trigger] self.func_ranges_spec()[i]).0 <= address
                    && address <= self.func_ranges_spec()[i].1),
    {
        let found = self.func_ranges.find_value(address);
        proof {
            if found is Some {
                let v = found.unwrap();
                let i = choose|i: int|
                    0 <= i < self.func_ranges_spec().len() && (
                    #[trigger] self.func_ranges_spec()[i]).0 <= address && address
                        <= self.func_ranges_spec()[i].1 && self.func_ranges_spec()[i].2 == *v;
                assert((self.func_ranges_spec()[i]).0 <= address);
            }
        }
        match found {
            Some(name) => Some(name.clone()),
            None => None,
        }
    }

    /// Name of the compile unit containing `address`; with no address to
    /// go by, the unit of `main`.
    pub fn find_unit(&self, address: Option<u64>) -> (r: Option<String>)
        requires
            self.wf(),
        ensures
            match address {
                Some(a) => {
                    &&& (r matches Some(name) ==> exists|i: int|
                        0 <= i < self.unit_ranges_spec().len() && (
                        #[trigger] self.unit_ranges_spec()[i]).0 <= a && a
                            <= self.unit_ranges_spec()[i].1 && self.unit_ranges_spec()[i].2@
                            == name@)
                    &&& (r is None ==> forall|i: int|
                        0 <= i < self.unit_ranges_spec().len() ==> !((#[trigger] self.unit_ranges_spec()[i]).0 <= a
                        && a <= self.unit_ranges_spec()[i].1))
                },
                None => match self.main_unit_spec() {
                    Some(u) => r matches Some(got) && got@ == u@,
                    None => r is None,
                },
            },
    {
        match address {
            Some(a) => {
                let found = self.unit_ranges.find_value(a);
                proof {
                    if found is Some {
                        let v = found.unwrap();
                        let i = choose|i: int|
                            0 <= i < self.unit_ranges_spec().len() && (
                            #[trigger] self.unit_ranges_spec()[i]).0 <= a && a
                                <= self.unit_ranges_spec()[i].1 && self.unit_ranges_spec()[i].2
                                == *v;
                        assert((self.unit_ranges_spec()[i]).0 <= a);
                    }
                }
                match found {
                    Some(name) => Some(name.clone()),
                    None => None,
                }
            },
            None => match &self.main_unit {
                Some(u) => Some(u.clone()),
                None => None,
            },
        }
    }

    /// The prologue and epilogue judgements read nothing but the function
    /// ranges, so two indexes with the same ranges agree on them.
    pub proof fn lemma_exclusion_depends_on_ranges(a: &LocFinder, b: &LocFinder, addr: u64)
        requires
            a.func_ranges_spec() == b.func_ranges_spec(),
        ensures
            a.in_prologue_spec(addr) == b.in_prologue_spec(addr),
            a.in_epilogue_spec(addr) == b.in_epilogue_spec(addr),
    {
        if a.in_prologue_spec(addr) {
            let i = choose|i: int|
                0 <= i < a.func_ranges_spec().len() && (#[trigger] a.func_ranges_spec()[i]).0
                    <= addr && addr <= a.func_ranges_spec()[i].1 && addr - (a.func_ranges_spec()[i]).0 < FUNC_PROLOGUE_SIZE;
            assert((b.func_ranges_spec()[i]).0 <= addr);
        }
        if b.in_prologue_spec(addr) {
            let i = choose|i: int|
                0 <= i < b.func_ranges_spec().len() && (#[trigger] b.func_ranges_spec()[i]).0
                    <= addr && addr <= b.func_ranges_spec()[i].1 && addr - (b.func_ranges_spec()[i]).0 < FUNC_PROLOGUE_SIZE;
            assert((a.func_ranges_spec()[i]).0 <= addr);
        }
        if a.in_epilogue_spec(addr) {
            let i = choose|i: int|
                0 <= i < a.func_ranges_spec().len() && (#[trigger] a.func_ranges_spec()[i]).0
                    <= addr && addr <= a.func_ranges_spec()[i].1 && a.func_ranges_spec()[i].1
                    - addr < FUNC_EPILOGUE_SIZE;
            assert((b.func_ranges_spec()[i]).0 <= addr);
        }
        if b.in_epilogue_spec(addr) {
            let i = choose|i: int|
                0 <= i < b.func_ranges_spec().len() && (#[trigger] b.func_ranges_spec()[i]).0
                    <= addr && addr <= b.func_ranges_spec()[i].1 && b.func_ranges_spec()[i].1
                    - addr < FUNC_EPILOGUE_SIZE;
            assert((a.func_ranges_spec()[i]).0 <= addr);
        }
    }

    /// With a well-formed index the recorded function ranges are pairwise
    /// disjoint, so at most one contains any address.
    pub proof fn lemma_func_ranges_disjoint(&self)
        requires
            self.wf(),
        ensures
            forall|i: int, j: int|
                0 <= i < j < self.func_ranges_spec().len() ==> (
                #[trigger] self.func_ranges_spec()[i]).1 < (
                #[trigger] self.func_ranges_spec()[j]).0,
    {
        self.func_ranges.lemma_disjoint_sorted();
    }

    /// With a well-formed index the recorded compile-unit ranges are
    /// pairwise disjoint, so at most one contains any address.
    pub proof fn lemma_unit_ranges_disjoint(&self)
        requires
            self.wf(),
        ensures
            forall|i: int, j: int|
                0 <= i < j < self.unit_ranges_spec().len() ==> (
                #[trigger] self.unit_ranges_spec()[i]).1 < (
                #[trigger] self.unit_ranges_spec()[j]).0,
    {
        self.unit_ranges.lemma_disjoint_sorted();
    }

    /// Whether some recorded function range contains `address`.
    pub open spec fn has_func_at_spec(&self, address: u64) -> bool {
        exists|i: int|
            0 <= i < self.func_ranges_spec().len() && (#[trigger] self.func_ranges_spec()[i]).0
                <= address && address <= self.func_ranges_spec()[i].1
    }

    /// The range containing `address`; with a well-formed index the
    /// recorded ranges are disjoint, so at most one contains it.
    pub open spec fn func_range_at_spec(&self, address: u64) -> (u64, u64) {
        let i = choose|i: int|
            0 <= i < self.func_ranges_spec().len() && (#[trigger] self.func_ranges_spec()[i]).0
                <= address && address <= self.func_ranges_spec()[i].1;
        ((self.func_ranges_spec()[i]).0, (self.func_ranges_spec()[i]).1)
    }

    /// Start address of the function containing `address`.
    pub fn find_func_start(&self, address: u64) -> (r: Option<u64>)
        requires
            self.wf(),
        ensures
            r matches Some(s) ==> self.has_func_at_spec(address) && s == self.func_range_at_spec(
                address,
            ).0,
            r is None ==> !self.has_func_at_spec(address),
    {
        proof {
            self.func_ranges.lemma_disjoint_sorted();
        }
        let found = self.func_ranges.find_range(address);
        proof {
            if found is Some {
                let se = found.unwrap();
                let i = choose|i: int|
                    0 <= i < self.func_ranges_spec().len() && (
                    #[trigger] self.func_ranges_spec()[i]).0 == se.0
                        && self.func_ranges_spec()[i].1 == se.1 && se.0 <= address && address
                        <= se.1;
                assert((self.func_ranges_spec()[i]).0 <= address && address
                    <= (self.func_ranges_spec()[i]).1);
                assert(self.has_func_at_spec(address));
                let j = choose|j: int|
                    0 <= j < self.func_ranges_spec().len() && (
                    #[trigger] self.func_ranges_spec()[j]).0 <= address && address
                        <= self.func_ranges_spec()[j].1;
                assert(i == j);
            }
        }
        match found {
            Some((s, _)) => Some(s),
            None => None,
        }
    }

    /// End address (inclusive) of the function containing `address`.
    pub fn find_func_end(&self, address: u64) -> (r: Option<u64>)
        requires
            self.wf(),
        ensures
            r matches Some(e) ==> self.has_func_at_spec(address) && e == self.func_range_at_spec(
                address,
            ).1,
            r is None ==> !self.has_func_at_spec(address),
    {
        proof {
            self.func_ranges.lemma_disjoint_sorted();
        }
        let found = self.func_ranges.find_range(address);
        proof {
            if found is Some {
                let se = found.unwrap();
                let i = choose|i: int|
                    0 <= i < self.func_ranges_spec().len() && (
                    #[trigger] self.func_ranges_spec()[i]).0 == se.0
                        && self.func_ranges_spec()[i].1 == se.1 && se.0 <= address && address
                        <= se.1;
                assert((self.func_ranges_spec()[i]).0 <= address && address
                    <= (self.func_ranges_spec()[i]).1);
                assert(self.has_func_at_spec(address));
                let j = choose|j: int|
                    0 <= j < self.func_ranges_spec().len() && (
                    #[trigger] self.func_ranges_spec()[j]).0 <= address && address
                        <= self.func_ranges_spec()[j].1;
                assert(i == j);
            }
        }
        match found {
            Some((_, e)) => Some(e),
            None => None,
        }
    }

    /// Whether `address` lies inside the function called `main`.
    pub fn is_inside_main(&self, address: u64) -> (r: bool)
        requires
            self.wf(),
        ensures
            r ==> exists|i: int|
                0 <= i < self.func_ranges_spec().len() && (#[trigger] self.func_ranges_spec()[i]).0
                    <= address && address <= self.func_ranges_spec()[i].1
                    && self.func_ranges_spec()[i].2@ == MAIN_FUNC_NAME@,
    {
        match self.find_func_by_address(address) {
            Some(func) => str_eq(func.as_str(), MAIN_FUNC_NAME),
            None => false,
        }
    }

    /// All variables visible in `func_name` (or just the globals): the
    /// globals, with the function's locals overriding on name collision.
    #[verifier::loop_isolation(false)]
    pub fn get_vars(&self, func_name: Option<&str>) -> (r: StrMap<VarRef>)
        requires
            self.wf(),
        ensures
            r.wf(),
            forall|k: Seq<char>|
                #![trigger r@.dom().contains(k)]
                r@.dom().contains(k) <==> (self.global_var_spec().dom().contains(k) || (
                match func_name {
                    Some(f) => self.func_var_spec(f@, k) is Some,
                    None => false,
                })),
            forall|k: Seq<char>|
                #![trigger r@[k]]
                r@.dom().contains(k) ==> r@[k] == (match func_name {
                    Some(f) => if self.func_var_spec(f@, k) is Some {
                        self.func_var_spec(f@, k).unwrap()
                    } else {
                        self.global_var_spec()[k]
                    },
                    None => self.global_var_spec()[k],
                }),
    {
        let mut vars: StrMap<VarRef> = StrMap::new();
        let globals = self.global_variables.pairs();
        let gn = globals.len();
        let mut i: usize = 0;
        while i < gn
            invariant
                i <= gn,
                vars.wf(),
                forall|k: Seq<char>|
                    #![trigger vars@.dom().contains(k)]
                    #![trigger vars@[k]]
                    vars@.dom().contains(k) ==> self.global_var_spec().dom().contains(k) && vars@[k]
                        == self.global_var_spec()[k],
                forall|j: int|
                    0 <= j < i ==> vars@.dom().contains((#[trigger] globals@[j]).0@),
            decreases gn - i,
        {
            let (name, vr) = (&globals[i].0, &globals[i].1);
            vars.insert(name.clone(), *vr);
            i = i + 1;
        }
        proof {
            assert forall|k: Seq<char>|
                self.global_var_spec().dom().contains(k) implies vars@.dom().contains(k) by {
                let j = choose|j: int|
                    0 <= j < globals@.len() && (#[trigger] globals@[j]).0@ == k;
                assert(vars@.dom().contains(globals@[j].0@));
            }
        }
        if let Some(f) = func_name {
            if let Some(func_vars) = self.func_variables.get(f) {
                let locals = func_vars.pairs();
                let ln = locals.len();
                let mut j: usize = 0;
                while j < ln
                    invariant
                        j <= ln,
                        vars.wf(),
                        forall|k: Seq<char>|
                            #![trigger vars@.dom().contains(k)]
                            #![trigger vars@[k]]
                            vars@.dom().contains(k) ==> (self.global_var_spec().dom().contains(k)
                                || self.func_var_spec(f@, k) is Some),
                        forall|k: Seq<char>|
                            self.global_var_spec().dom().contains(k) ==> vars@.dom().contains(k),
                        forall|j2: int|
                            0 <= j2 < j ==> vars@.dom().contains((#[trigger] locals@[j2]).0@)
                                && vars@[locals@[j2].0@] == locals@[j2].1,
                        forall|k: Seq<char>|
                            vars@.dom().contains(k) && !(exists|j2: int|
                                0 <= j2 < j && (#[trigger] locals@[j2]).0@ == k) ==> vars@[k] == (
                            self.global_var_spec()[k]),
                    decreases ln - j,
                {
                    let (name, vr) = (&locals[j].0, &locals[j].1);
                    vars.insert(name.clone(), *vr);
                    j = j + 1;
                    proof {
                        assert forall|k: Seq<char>|
                            vars@.dom().contains(k) && !(exists|j2: int|
                                0 <= j2 < j && (#[trigger] locals@[j2]).0@ == k) implies vars@[k]
                            == (self.global_var_spec()[k]) by {
                            assert(k != locals@[j - 1].0@);
                        }
                    }
                }
                proof {
                    assert forall|k: Seq<char>|
                        self.func_var_spec(f@, k) is Some implies vars@.dom().contains(k)
                        && vars@[k] == self.func_var_spec(f@, k).unwrap() by {
                        let j2 = choose|j2: int|
                            0 <= j2 < locals@.len() && (#[trigger] locals@[j2]).0@ == k;
                        assert(vars@.dom().contains(locals@[j2].0@));
                        assert(func_vars@[k] == locals@[j2].1);
                    }
                }
            }
        }
        vars
    }

    /// The variable `name` as seen from `func_name`: locals first, then
    /// globals.
    pub fn get_var(&self, name: &str, func_name: Option<&str>) -> (r: Option<VarRef>)
        requires
            self.wf(),
        ensures
            r == (match func_name {
                Some(f) => if self.func_var_spec(f@, name@) is Some {
                    self.func_var_spec(f@, name@)
                } else if self.global_var_spec().dom().contains(name@) {
                    Some(self.global_var_spec()[name@])
                } else {
                    None
                },
                None => if self.global_var_spec().dom().contains(name@) {
                    Some(self.global_var_spec()[name@])
                } else {
                    None
                },
            }),
    {
        if let Some(f) = func_name {
            if let Some(func_vars) = self.func_variables.get(f) {
                if let Some(vr) = func_vars.get(name) {
                    return Some(*vr);
                }
            }
        }
        match self.global_variables.get(name) {
            Some(vr) => Some(*vr),
            None => None,
        }
    }
}

} // verus!
