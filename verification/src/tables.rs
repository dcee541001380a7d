use vstd::prelude::*;
use crate::text::str_eq;

verus! {

/// Map built up from a sequence of entries, later keys overriding earlier
/// ones (with distinct keys the distinction never matters).
pub open spec fn map_of_str_entries<V>(e: Seq<(String, V)>) -> Map<Seq<char>, V>
    decreases e.len(),
{
    if e.len() == 0 {
        Map::empty()
    } else {
        map_of_str_entries(e.drop_last()).insert(e.last().0@, e.last().1)
    }
}

/// Keys of the entries are pairwise distinct.
pub open spec fn distinct_str_keys<V>(e: Seq<(String, V)>) -> bool {
    forall|i: int, j: int|
        0 <= i < j < e.len() ==> (#[trigger] e[i]).0@ != (#[trigger] e[j]).0@
}

/// Lookup table keyed by strings; its view is the corresponding `Map`
/// from character sequences to values.
pub struct StrMap<V> {
    entries: Vec<(String, V)>,
}

impl<V> StrMap<V> {
    pub closed spec fn view(&self) -> Map<Seq<char>, V> {
        map_of_str_entries(self.entries@)
    }

    pub closed spec fn wf(&self) -> bool {
        distinct_str_keys(self.entries@)
    }

    proof fn lemma_view(e: Seq<(String, V)>)
        requires
            distinct_str_keys(e),
        ensures
            forall|k: Seq<char>|
                map_of_str_entries(e).dom().contains(k) <==> exists|i: int|
                    0 <= i < e.len() && (#[trigger] e[i]).0@ == k,
            forall|i: int|
                0 <= i < e.len() ==> map_of_str_entries(e)[(#[trigger] e[i]).0@] == e[i].1,
        decreases e.len(),
    {
        if e.len() > 0 {
            let e0 = e.drop_last();
            assert(distinct_str_keys(e0)) by {
                assert forall|i: int, j: int|
                    0 <= i < j < e0.len() implies (#[trigger] e0[i]).0@ != (
                    #[trigger] e0[j]).0@ by {
                    assert(e0[i] == e[i] && e0[j] == e[j]);
                }
            }
            Self::lemma_view(e0);
            assert forall|k: Seq<char>|
                map_of_str_entries(e).dom().contains(k) <==> exists|i: int|
                    0 <= i < e.len() && (#[trigger] e[i]).0@ == k by {
                if map_of_str_entries(e).dom().contains(k) {
                    if k == e.last().0@ {
                        assert(e[e.len() - 1].0@ == k);
                    } else {
                        assert(map_of_str_entries(e0).dom().contains(k));
                        let i = choose|i: int| 0 <= i < e0.len() && (#[trigger] e0[i]).0@ == k;
                        assert(e[i].0@ == k);
                    }
                }
                if exists|i: int| 0 <= i < e.len() && (#[trigger] e[i]).0@ == k {
                    let i = choose|i: int| 0 <= i < e.len() && (#[trigger] e[i]).0@ == k;
                    if i == e.len() - 1 {
                        assert(k == e.last().0@);
                    } else {
                        assert(e0[i].0@ == k);
                        assert(map_of_str_entries(e0).dom().contains(k));
                    }
                    assert(map_of_str_entries(e).dom().contains(k));
                }
            }
            assert forall|i: int| 0 <= i < e.len() implies map_of_str_entries(e)[(
            #[trigger] e[i]).0@] == e[i].1 by {
                if i == e.len() - 1 {
                } else {
                    assert(e0[i] == e[i]);
                    assert(e[i].0@ != e.last().0@);
                    assert(map_of_str_entries(e0)[e0[i].0@] == e0[i].1);
                }
            }
        }
    }

    pub fn new() -> (r: Self)
        ensures
            r.wf(),
            r@ == Map::<Seq<char>, V>::empty(),
    {
        StrMap { entries: Vec::new() }
    }

    fn position(&self, key: &str) -> (r: Option<usize>)
        requires
            self.wf(),
        ensures
            r matches Some(i) ==> i < self.entries@.len() && self.entries@[i as int].0@ == key@,
            r is None ==> forall|i: int|
                0 <= i < self.entries@.len() ==> (#[trigger] self.entries@[i]).0@ != key@,
    {
        let n = self.entries.len();
        let mut i: usize = 0;
        while i < n
            invariant
                n == self.entries@.len(),
                i <= n,
                forall|j: int| 0 <= j < i ==> (#[trigger] self.entries@[j]).0@ != key@,
            decreases n - i,
        {
            if str_eq(self.entries[i].0.as_str(), key) {
                return Some(i);
            }
            i = i + 1;
        }
        None
    }

    pub fn contains_key(&self, key: &str) -> (r: bool)
        requires
            self.wf(),
        ensures
            r == self@.dom().contains(key@),
    {
        proof {
            Self::lemma_view(self.entries@);
        }
        match self.position(key) {
            Some(_) => true,
            None => false,
        }
    }

    pub fn get(&self, key: &str) -> (r: Option<&V>)
        requires
            self.wf(),
        ensures
            r matches Some(v) ==> self@.dom().contains(key@) && *v == self@[key@],
            r is None ==> !self@.dom().contains(key@),
    {
        proof {
            Self::lemma_view(self.entries@);
        }
        match self.position(key) {
            Some(i) => Some(&self.entries[i].1),
            None => None,
        }
    }

    /// Insert or overwrite.
    pub fn insert(&mut self, key: String, value: V)
        requires
            old(self).wf(),
        ensures
            final(self).wf(),
            final(self)@ == old(self)@.insert(key@, value),
    {
        proof {
            Self::lemma_view(self.entries@);
        }
        let ghost e0 = self.entries@;
        match self.position(key.as_str()) {
            Some(i) => {
                self.entries.set(i, (key, value));
                proof {
                    Self::lemma_update_view(e0, i as int, (key, value));
                }
            },
            None => {
                self.entries.push((key, value));
                proof {
                    assert(self.entries@.drop_last() =~= e0);
                }
            },
        }
    }

    /// Insert only when the key is new (`entry(..).or_insert(..)`).
    pub fn insert_if_absent(&mut self, key: String, value: V)
        requires
            old(self).wf(),
        ensures
            final(self).wf(),
            old(self)@.dom().contains(key@) ==> final(self)@ == old(self)@,
            !old(self)@.dom().contains(key@) ==> final(self)@ == old(self)@.insert(key@, value),
    {
        proof {
            Self::lemma_view(self.entries@);
        }
        let ghost e0 = self.entries@;
        match self.position(key.as_str()) {
            Some(_) => {},
            None => {
                self.entries.push((key, value));
                proof {
                    assert(self.entries@.drop_last() =~= e0);
                }
            },
        }
    }

    /// Remove a key, handing back its value if it was there.
    pub fn remove(&mut self, key: &str) -> (r: Option<V>)
        requires
            old(self).wf(),
        ensures
            final(self).wf(),
            final(self)@ == old(self)@.remove(key@),
            r matches Some(v) ==> old(self)@.dom().contains(key@) && v == old(self)@[key@],
            r is None ==> !old(self)@.dom().contains(key@),
    {
        proof {
            Self::lemma_view(self.entries@);
        }
        let ghost e0 = self.entries@;
        match self.position(key) {
            Some(i) => {
                let (_, v) = self.entries.remove(i);
                proof {
                    Self::lemma_remove_view(e0, i as int);
                }
                Some(v)
            },
            None => {
                proof {
                    assert(map_of_str_entries(e0).remove(key@) =~= map_of_str_entries(e0));
                }
                None
            },
        }
    }

    proof fn lemma_remove_view(e: Seq<(String, V)>, i: int)
        requires
            distinct_str_keys(e),
            0 <= i < e.len(),
        ensures
            distinct_str_keys(e.remove(i)),
            map_of_str_entries(e.remove(i)) == map_of_str_entries(e).remove(e[i].0@),
    {
        Self::lemma_view(e);
        let e2 = e.remove(i);
        assert(distinct_str_keys(e2)) by {
            assert forall|a: int, b: int|
                0 <= a < b < e2.len() implies (#[trigger] e2[a]).0@ != (#[trigger] e2[b]).0@ by {
                let ea: int = if a < i {
                    a
                } else {
                    a + 1
                };
                let eb: int = if b < i {
                    b
                } else {
                    b + 1
                };
                assert(e2[a].0@ == e[ea].0@ && e2[b].0@ == e[eb].0@);
            }
        }
        Self::lemma_view(e2);
        let m1 = map_of_str_entries(e2);
        let m2 = map_of_str_entries(e).remove(e[i].0@);
        assert forall|k: Seq<char>| m1.dom().contains(k) <==> m2.dom().contains(k) by {
            if m1.dom().contains(k) {
                let a = choose|a: int| 0 <= a < e2.len() && (#[trigger] e2[a]).0@ == k;
                let ea: int = if a < i {
                    a
                } else {
                    a + 1
                };
                assert(e[ea].0@ == k);
                assert(ea != i);
                assert(e[ea].0@ != e[i].0@);
            }
            if m2.dom().contains(k) {
                let a = choose|a: int| 0 <= a < e.len() && (#[trigger] e[a]).0@ == k;
                assert(a != i);
                let a2: int = if a < i {
                    a
                } else {
                    a - 1
                };
                assert(e2[a2].0@ == k);
            }
        }
        assert forall|k: Seq<char>| m1.dom().contains(k) implies m1[k] == m2[k] by {
            let a = choose|a: int| 0 <= a < e2.len() && (#[trigger] e2[a]).0@ == k;
            let ea: int = if a < i {
                a
            } else {
                a + 1
            };
            assert(e2[a] == e[ea]);
            assert(m1[e2[a].0@] == e2[a].1);
            assert(map_of_str_entries(e)[e[ea].0@] == e[ea].1);
            assert(e[ea].0@ != e[i].0@);
        }
        assert(m1 =~= m2);
    }

    /// The stored pairs, for iteration; each key of the view occurs in
    /// them exactly once.
    pub fn pairs(&self) -> (r: &Vec<(String, V)>)
        requires
            self.wf(),
        ensures
            distinct_str_keys(r@),
            forall|i: int|
                0 <= i < r@.len() ==> self@.dom().contains((#[trigger] r@[i]).0@) && self@[(
                r@[i]).0@] == r@[i].1,
            forall|k: Seq<char>|
                self@.dom().contains(k) ==> exists|i: int|
                    0 <= i < r@.len() && (#[trigger] r@[i]).0@ == k,
    {
        proof {
            Self::lemma_view(self.entries@);
        }
        &self.entries
    }

    proof fn lemma_update_view(e: Seq<(String, V)>, i: int, kv: (String, V))
        requires
            distinct_str_keys(e),
            0 <= i < e.len(),
            e[i].0@ == kv.0@,
        ensures
            distinct_str_keys(e.update(i, kv)),
            map_of_str_entries(e.update(i, kv)) == map_of_str_entries(e).insert(kv.0@, kv.1),
        decreases e.len(),
    {
        Self::lemma_view(e);
        let e2 = e.update(i, kv);
        assert(distinct_str_keys(e2)) by {
            assert forall|a: int, b: int|
                0 <= a < b < e2.len() implies (#[trigger] e2[a]).0@ != (#[trigger] e2[b]).0@ by {
                assert(e2[a].0@ == e[a].0@ && e2[b].0@ == e[b].0@);
            }
        }
        Self::lemma_view(e2);
        let m1 = map_of_str_entries(e2);
        let m2 = map_of_str_entries(e).insert(kv.0@, kv.1);
        assert forall|k: Seq<char>| m1.dom().contains(k) <==> m2.dom().contains(k) by {
            if m1.dom().contains(k) {
                let a = choose|a: int| 0 <= a < e2.len() && (#[trigger] e2[a]).0@ == k;
                assert(e[a].0@ == k);
            }
            if m2.dom().contains(k) {
                if k == kv.0@ {
                    assert(e2[i].0@ == k);
                } else {
                    let a = choose|a: int| 0 <= a < e.len() && (#[trigger] e[a]).0@ == k;
                    assert(e2[a].0@ == k);
                }
            }
        }
        assert forall|k: Seq<char>| m1.dom().contains(k) implies m1[k] == m2[k] by {
            let a = choose|a: int| 0 <= a < e2.len() && (#[trigger] e2[a]).0@ == k;
            assert(m1[e2[a].0@] == e2[a].1);
            if a == i {
                assert(m1[k] == kv.1);
            } else {
                assert(e2[a] == e[a]);
                assert(e[a].0@ != e[i].0@);
                assert(k != kv.0@);
                assert(m2[k] == map_of_str_entries(e)[e[a].0@]);
            }
        }
        assert(m1 =~= m2);
    }
}

/// Lookup table keyed by addresses.
pub struct U64Map<V> {
    entries: Vec<(u64, V)>,
}

pub open spec fn map_of_u64_entries<V>(e: Seq<(u64, V)>) -> Map<u64, V>
    decreases e.len(),
{
    if e.len() == 0 {
        Map::empty()
    } else {
        map_of_u64_entries(e.drop_last()).insert(e.last().0, e.last().1)
    }
}

pub open spec fn distinct_u64_keys<V>(e: Seq<(u64, V)>) -> bool {
    forall|i: int, j: int|
        0 <= i < j < e.len() ==> (#[trigger] e[i]).0 != (#[trigger] e[j]).0
}

impl<V> U64Map<V> {
    pub closed spec fn view(&self) -> Map<u64, V> {
        map_of_u64_entries(self.entries@)
    }

    pub closed spec fn wf(&self) -> bool {
        distinct_u64_keys(self.entries@)
    }

    proof fn lemma_view(e: Seq<(u64, V)>)
        requires
            distinct_u64_keys(e),
        ensures
            forall|k: u64|
                map_of_u64_entries(e).dom().contains(k) <==> exists|i: int|
                    0 <= i < e.len() && (#[trigger] e[i]).0 == k,
            forall|i: int|
                0 <= i < e.len() ==> map_of_u64_entries(e)[(#[trigger] e[i]).0] == e[i].1,
        decreases e.len(),
    {
        if e.len() > 0 {
            let e0 = e.drop_last();
            assert(distinct_u64_keys(e0)) by {
                assert forall|i: int, j: int|
                    0 <= i < j < e0.len() implies (#[trigger] e0[i]).0 != (#[trigger] e0[j]).0 by {
                    assert(e0[i] == e[i] && e0[j] == e[j]);
                }
            }
            Self::lemma_view(e0);
            assert forall|k: u64|
                map_of_u64_entries(e).dom().contains(k) <==> exists|i: int|
                    0 <= i < e.len() && (#[trigger] e[i]).0 == k by {
                if map_of_u64_entries(e).dom().contains(k) {
                    if k == e.last().0 {
                        assert(e[e.len() - 1].0 == k);
                    } else {
                        assert(map_of_u64_entries(e0).dom().contains(k));
                        let i = choose|i: int| 0 <= i < e0.len() && (#[trigger] e0[i]).0 == k;
                        assert(e[i].0 == k);
                    }
                }
                if exists|i: int| 0 <= i < e.len() && (#[trigger] e[i]).0 == k {
                    let i = choose|i: int| 0 <= i < e.len() && (#[trigger] e[i]).0 == k;
                    if i == e.len() - 1 {
                        assert(k == e.last().0);
                    } else {
                        assert(e0[i].0 == k);
                        assert(map_of_u64_entries(e0).dom().contains(k));
                    }
                    assert(map_of_u64_entries(e).dom().contains(k));
                }
            }
            assert forall|i: int| 0 <= i < e.len() implies map_of_u64_entries(e)[(
            #[trigger] e[i]).0] == e[i].1 by {
                if i < e.len() - 1 {
                    assert(e0[i] == e[i]);
                    assert(e[i].0 != e.last().0);
                    assert(map_of_u64_entries(e0)[e0[i].0] == e0[i].1);
                }
            }
        }
    }

    pub fn new() -> (r: Self)
        ensures
            r.wf(),
            r@ == Map::<u64, V>::empty(),
    {
        U64Map { entries: Vec::new() }
    }

    fn position(&self, key: u64) -> (r: Option<usize>)
        requires
            self.wf(),
        ensures
            r matches Some(i) ==> i < self.entries@.len() && self.entries@[i as int].0 == key,
            r is None ==> forall|i: int|
                0 <= i < self.entries@.len() ==> (#[trigger] self.entries@[i]).0 != key,
    {
        let n = self.entries.len();
        let mut i: usize = 0;
        while i < n
            invariant
                n == self.entries@.len(),
                i <= n,
                forall|j: int| 0 <= j < i ==> (#[trigger] self.entries@[j]).0 != key,
            decreases n - i,
        {
            if self.entries[i].0 == key {
                return Some(i);
            }
            i = i + 1;
        }
        None
    }

    pub fn contains_key(&self, key: u64) -> (r: bool)
        requires
            self.wf(),
        ensures
            r == self@.dom().contains(key),
    {
        proof {
            Self::lemma_view(self.entries@);
        }
        match self.position(key) {
            Some(_) => true,
            None => false,
        }
    }

    pub fn get(&self, key: u64) -> (r: Option<&V>)
        requires
            self.wf(),
        ensures
            r matches Some(v) ==> self@.dom().contains(key) && *v == self@[key],
            r is None ==> !self@.dom().contains(key),
    {
        proof {
            Self::lemma_view(self.entries@);
        }
        match self.position(key) {
            Some(i) => Some(&self.entries[i].1),
            None => None,
        }
    }

    pub fn insert(&mut self, key: u64, value: V)
        requires
            old(self).wf(),
        ensures
            final(self).wf(),
            final(self)@ == old(self)@.insert(key, value),
    {
        proof {
            Self::lemma_view(self.entries@);
        }
        let ghost e0 = self.entries@;
        match self.position(key) {
            Some(i) => {
                self.entries.set(i, (key, value));
                proof {
                    Self::lemma_update_view(e0, i as int, (key, value));
                }
            },
            None => {
                self.entries.push((key, value));
                proof {
                    assert(self.entries@.drop_last() =~= e0);
                }
            },
        }
    }

    /// Remove a key, handing back its value if it was there.
    pub fn remove(&mut self, key: u64) -> (r: Option<V>)
        requires
            old(self).wf(),
        ensures
            final(self).wf(),
            final(self)@ == old(self)@.remove(key),
            r matches Some(v) ==> old(self)@.dom().contains(key) && v == old(self)@[key],
            r is None ==> !old(self)@.dom().contains(key),
    {
        proof {
            Self::lemma_view(self.entries@);
        }
        let ghost e0 = self.entries@;
        match self.position(key) {
            Some(i) => {
                let (_, v) = self.entries.remove(i);
                proof {
                    Self::lemma_remove_view(e0, i as int);
                }
                Some(v)
            },
            None => {
                proof {
                    assert(map_of_u64_entries(e0).remove(key) =~= map_of_u64_entries(e0));
                }
                None
            },
        }
    }

    proof fn lemma_update_view(e: Seq<(u64, V)>, i: int, kv: (u64, V))
        requires
            distinct_u64_keys(e),
            0 <= i < e.len(),
            e[i].0 == kv.0,
        ensures
            distinct_u64_keys(e.update(i, kv)),
            map_of_u64_entries(e.update(i, kv)) == map_of_u64_entries(e).insert(kv.0, kv.1),
    {
        Self::lemma_view(e);
        let e2 = e.update(i, kv);
        assert(distinct_u64_keys(e2)) by {
            assert forall|a: int, b: int|
                0 <= a < b < e2.len() implies (#[trigger] e2[a]).0 != (#[trigger] e2[b]).0 by {
                assert(e2[a].0 == e[a].0 && e2[b].0 == e[b].0);
            }
        }
        Self::lemma_view(e2);
        let m1 = map_of_u64_entries(e2);
        let m2 = map_of_u64_entries(e).insert(kv.0, kv.1);
        assert forall|k: u64| m1.dom().contains(k) <==> m2.dom().contains(k) by {
            if m1.dom().contains(k) {
                let a = choose|a: int| 0 <= a < e2.len() && (#[trigger] e2[a]).0 == k;
                assert(e[a].0 == k);
            }
            if m2.dom().contains(k) {
                if k == kv.0 {
                    assert(e2[i].0 == k);
                } else {
                    let a = choose|a: int| 0 <= a < e.len() && (#[trigger] e[a]).0 == k;
                    assert(e2[a].0 == k);
                }
            }
        }
        assert forall|k: u64| m1.dom().contains(k) implies m1[k] == m2[k] by {
            let a = choose|a: int| 0 <= a < e2.len() && (#[trigger] e2[a]).0 == k;
            assert(m1[e2[a].0] == e2[a].1);
            if a == i {
                assert(m1[k] == kv.1);
            } else {
                assert(e2[a] == e[a]);
                assert(e[a].0 != e[i].0);
                assert(k != kv.0);
                assert(m2[k] == map_of_u64_entries(e)[e[a].0]);
            }
        }
        assert(m1 =~= m2);
    }

    proof fn lemma_remove_view(e: Seq<(u64, V)>, i: int)
        requires
            distinct_u64_keys(e),
            0 <= i < e.len(),
        ensures
            distinct_u64_keys(e.remove(i)),
            map_of_u64_entries(e.remove(i)) == map_of_u64_entries(e).remove(e[i].0),
    {
        Self::lemma_view(e);
        let e2 = e.remove(i);
        assert(distinct_u64_keys(e2)) by {
            assert forall|a: int, b: int|
                0 <= a < b < e2.len() implies (#[trigger] e2[a]).0 != (#[trigger] e2[b]).0 by {
                let ea: int = if a < i {
                    a
                } else {
                    a + 1
                };
                let eb: int = if b < i {
                    b
                } else {
                    b + 1
                };
                assert(e2[a].0 == e[ea].0 && e2[b].0 == e[eb].0);
            }
        }
        Self::lemma_view(e2);
        let m1 = map_of_u64_entries(e2);
        let m2 = map_of_u64_entries(e).remove(e[i].0);
        assert forall|k: u64| m1.dom().contains(k) <==> m2.dom().contains(k) by {
            if m1.dom().contains(k) {
                let a = choose|a: int| 0 <= a < e2.len() && (#[trigger] e2[a]).0 == k;
                let ea: int = if a < i {
                    a
                } else {
                    a + 1
                };
                assert(e[ea].0 == k);
                assert(ea != i);
                assert(e[ea].0 != e[i].0);
            }
            if m2.dom().contains(k) {
                let a = choose|a: int| 0 <= a < e.len() && (#[trigger] e[a]).0 == k;
                assert(a != i);
                let a2: int = if a < i {
                    a
                } else {
                    a - 1
                };
                assert(e2[a2].0 == k);
            }
        }
        assert forall|k: u64| m1.dom().contains(k) implies m1[k] == m2[k] by {
            let a = choose|a: int| 0 <= a < e2.len() && (#[trigger] e2[a]).0 == k;
            let ea: int = if a < i {
                a
            } else {
                a + 1
            };
            assert(e2[a] == e[ea]);
            assert(m1[e2[a].0] == e2[a].1);
            assert(map_of_u64_entries(e)[e[ea].0] == e[ea].1);
            assert(e[ea].0 != e[i].0);
        }
        assert(m1 =~= m2);
    }

    /// The stored pairs, for iteration; their order is unspecified beyond
    /// holding each key of the view exactly once.
    pub fn pairs(&self) -> (r: &Vec<(u64, V)>)
        requires
            self.wf(),
        ensures
            distinct_u64_keys(r@),
            forall|i: int|
                0 <= i < r@.len() ==> self@.dom().contains((#[trigger] r@[i]).0) && self@[r@[i].0]
                    == r@[i].1,
            forall|k: u64|
                self@.dom().contains(k) ==> exists|i: int| 0 <= i < r@.len() && (#[trigger] r@[i]).0
                    == k,
    {
        proof {
            Self::lemma_view(self.entries@);
        }
        &self.entries
    }

    pub fn len(&self) -> (r: usize)
        requires
            self.wf(),
        ensures
            r == self@.dom().len(),
    {
        proof {
            Self::lemma_len(self.entries@);
        }
        self.entries.len()
    }

    proof fn lemma_len(e: Seq<(u64, V)>)
        requires
            distinct_u64_keys(e),
        ensures
            map_of_u64_entries(e).dom().len() == e.len(),
            map_of_u64_entries(e).dom().finite(),
        decreases e.len(),
    {
        if e.len() > 0 {
            let e0 = e.drop_last();
            assert(distinct_u64_keys(e0)) by {
                assert forall|i: int, j: int|
                    0 <= i < j < e0.len() implies (#[trigger] e0[i]).0 != (#[trigger] e0[j]).0 by {
                    assert(e0[i] == e[i] && e0[j] == e[j]);
                }
            }
            Self::lemma_len(e0);
            Self::lemma_view(e0);
            assert(!map_of_u64_entries(e0).dom().contains(e.last().0)) by {
                if map_of_u64_entries(e0).dom().contains(e.last().0) {
                    let i = choose|i: int|
                        0 <= i < e0.len() && (#[trigger] e0[i]).0 == e.last().0;
                    assert(e[i].0 == e[e.len() - 1].0);
                }
            }
        }
    }
}

} // verus!
