use vstd::prelude::*;
use core::cmp::Ordering;
use crate::avl::{AVLTree, TreeOrd, TreeSearch, sorted_seq};

verus! {

/// A closed interval `[start, end]` carrying a value, ordered by disjointness:
/// two intervals compare only when they do not overlap (or are the same
/// interval), which is what keeps the index free of ambiguous lookups.
pub(crate) struct Interval<T> {
    pub(crate) start: u64,
    pub(crate) end: u64,
    pub(crate) value: T,
}

impl<T> TreeOrd for Interval<T> {
    closed spec fn cmp_spec(&self, other: &Self) -> Option<Ordering> {
        if self.start == other.start && self.end == other.end {
            Some(Ordering::Equal)
        } else if self.start <= self.end && other.start <= other.end && other.end < self.start {
            Some(Ordering::Greater)
        } else if self.start <= self.end && other.start <= other.end && self.end < other.start {
            Some(Ordering::Less)
        } else {
            None
        }
    }

    proof fn lemma_flip(a: &Self, b: &Self) {
    }

    proof fn lemma_transitive(a: &Self, b: &Self, c: &Self) {
    }

    proof fn lemma_equal_congruent(a: &Self, b: &Self, c: &Self) {
    }

    fn tree_cmp(&self, other: &Self) -> (r: Option<Ordering>) {
        if self.start == other.start && self.end == other.end {
            Some(Ordering::Equal)
        } else if self.start <= self.end && other.start <= other.end && other.end < self.start {
            Some(Ordering::Greater)
        } else if self.start <= self.end && other.start <= other.end && self.end < other.start {
            Some(Ordering::Less)
        } else {
            None
        }
    }
}

/// How `Ranges::add` changes the stored triples: at most one ordered
/// insertion, owed when the new interval is well formed and disjoint from
/// everything present, and refused when its endpoints are already there.
pub open spec fn range_add_post<T>(
    v0: Seq<(u64, u64, T)>,
    v1: Seq<(u64, u64, T)>,
    start: u64,
    end: u64,
    value: T,
) -> bool {
    &&& (v1 == v0 || exists|i: int|
        0 <= i <= v0.len() && v1 == v0.insert(i, (start, end, value)))
    &&& ((start <= end && forall|j: int|
        0 <= j < v0.len() ==> ((#[trigger] v0[j]).0 <= v0[j].1 && (end < v0[j].0 || v0[j].1
            < start))) ==> exists|i: int|
        0 <= i <= v0.len() && v1 == v0.insert(i, (start, end, value)))
    &&& ((exists|j: int|
        0 <= j < v0.len() && (#[trigger] v0[j]).0 == start && v0[j].1 == end) ==> v1 == v0)
}

/// Ordered map from disjoint `[start, end]` intervals to values, with
/// point-containment lookup.  The view is the sequence of stored
/// `(start, end, value)` triples in ascending interval order.
pub struct Ranges<T> {
    tree: AVLTree<Interval<T>>,
}

impl<T> Ranges<T> {
    pub closed spec fn view(&self) -> Seq<(u64, u64, T)> {
        self.tree@.map_values(|iv: Interval<T>| (iv.start, iv.end, iv.value))
    }

    pub closed spec fn wf(&self) -> bool {
        self.tree.wf()
    }

    /// Stored intervals are pairwise disjoint and ascending (trivial when
    /// fewer than two are stored).
    pub proof fn lemma_disjoint_sorted(&self)
        requires
            self.wf(),
        ensures
            forall|i: int, j: int|
                0 <= i < j < self@.len() ==> ((#[trigger] self@[i]).1 < (#[trigger] self@[j]).0
                    && self@[i].0 <= self@[i].1 && self@[j].0 <= self@[j].1),
    {
        self.tree.lemma_wf_sorted();
        assert(sorted_seq(self.tree@));
        assert forall|i: int, j: int|
            0 <= i < j < self@.len() implies ((#[trigger] self@[i]).1 < (#[trigger] self@[j]).0
            && self@[i].0 <= self@[i].1 && self@[j].0 <= self@[j].1) by {
            let a = self.tree@[i];
            let b = self.tree@[j];
            assert(a.cmp_spec(&b) == Some(Ordering::Less));
        }
    }

    pub fn new() -> (r: Self)
        ensures
            r.wf(),
            r@ == Seq::<(u64, u64, T)>::empty(),
    {
        let r = Ranges { tree: AVLTree::new() };
        proof {
            assert(r@ =~= Seq::<(u64, u64, T)>::empty());
        }
        r
    }

    /// Record `[start, end] -> value`.  A well-formed interval disjoint
    /// from everything stored lands at its ordered position; an interval
    /// with endpoints already present leaves the index unchanged; an
    /// overlapping interval may be dropped — spec-wise, overlapping
    /// insertions are a parser bug upstream.
    pub fn add(&mut self, start: u64, end: u64, value: T)
        requires
            old(self).wf(),
        ensures
            final(self).wf(),
            range_add_post(old(self)@, final(self)@, start, end, value),
    {
        let ghost t0 = self.tree@;
        let ghost v0 = self@;
        let iv = Interval { start, end, value };
        self.tree.insert(iv);
        proof {
            self.lemma_add_view(t0, v0, iv);
        }
    }

    proof fn lemma_add_view(&self, t0: Seq<Interval<T>>, v0: Seq<(u64, u64, T)>, iv: Interval<T>)
        requires
            v0 == t0.map_values(|x: Interval<T>| (x.start, x.end, x.value)),
            self.tree@ == t0 || crate::avl::is_sorted_insert(t0, iv, self.tree@),
            crate::avl::strictly_comparable(t0, iv) ==> crate::avl::is_sorted_insert(
                t0,
                iv,
                self.tree@,
            ),
            crate::avl::has_equal(t0, iv) ==> self.tree@ == t0,
        ensures
            self@ == v0 || exists|i: int|
                0 <= i <= v0.len() && self@ == v0.insert(i, (iv.start, iv.end, iv.value)),
            (iv.start <= iv.end && forall|j: int|
                0 <= j < v0.len() ==> ((#[trigger] v0[j]).0 <= v0[j].1 && (iv.end < v0[j].0
                    || v0[j].1 < iv.start))) ==> exists|i: int|
                0 <= i <= v0.len() && self@ == v0.insert(i, (iv.start, iv.end, iv.value)),
            (exists|j: int|
                0 <= j < v0.len() && (#[trigger] v0[j]).0 == iv.start && v0[j].1 == iv.end)
                ==> self@ == v0,
    {
        assert(v0.len() == t0.len());
        assert forall|j: int| 0 <= j < t0.len() implies #[trigger] v0[j] == (
            t0[j].start,
            t0[j].end,
            t0[j].value,
        ) by {}
        if crate::avl::is_sorted_insert(t0, iv, self.tree@) {
            let i = choose|i: int|
                {
                    &&& 0 <= i <= t0.len()
                    &&& self.tree@ == t0.subrange(0, i) + seq![iv] + t0.subrange(
                        i,
                        t0.len() as int,
                    )
                    &&& forall|j: int|
                        0 <= j < i ==> (#[trigger] t0[j]).cmp_spec(&iv) == Some(Ordering::Less)
                    &&& forall|j: int|
                        i <= j < t0.len() ==> iv.cmp_spec(&(#[trigger] t0[j])) == Some(
                            Ordering::Less,
                        )
                };
            assert(self@ =~= v0.insert(i, (iv.start, iv.end, iv.value))) by {
                assert forall|k: int| 0 <= k < self@.len() implies #[trigger] self@[k] == v0.insert(
                    i,
                    (iv.start, iv.end, iv.value),
                )[k] by {
                    if k < i {
                        assert(self.tree@[k] == t0[k]);
                    } else if k == i {
                        assert(self.tree@[k] == iv);
                    } else {
                        assert(self.tree@[k] == t0[k - 1]);
                    }
                }
            }
        } else {
            assert(self.tree@ == t0);
            assert(self@ =~= v0);
        }
        if iv.start <= iv.end && forall|j: int|
            0 <= j < v0.len() ==> ((#[trigger] v0[j]).0 <= v0[j].1 && (iv.end < v0[j].0 || v0[j].1
                < iv.start)) {
            assert forall|j: int|
                0 <= j < t0.len() implies (iv.cmp_spec(&(#[trigger] t0[j])) == Some(Ordering::Less)
                || iv.cmp_spec(&t0[j]) == Some(Ordering::Greater)) by {
                assert(v0[j] == (t0[j].start, t0[j].end, t0[j].value));
            }
            assert(crate::avl::strictly_comparable(t0, iv));
        }
        if exists|j: int|
            0 <= j < v0.len() && (#[trigger] v0[j]).0 == iv.start && v0[j].1 == iv.end {
            let j = choose|j: int|
                0 <= j < v0.len() && (#[trigger] v0[j]).0 == iv.start && v0[j].1 == iv.end;
            assert(v0[j] == (t0[j].start, t0[j].end, t0[j].value));
            assert(iv.cmp_spec(&t0[j]) == Some(Ordering::Equal));
            assert(crate::avl::has_equal(t0, iv));
            assert(self@ =~= v0);
        }
    }

    /// Value stored for the interval containing `pos`, if any.
    pub fn find_value(&self, pos: u64) -> (r: Option<&T>)
        requires
            self.wf(),
        ensures
            r matches Some(v) ==> exists|i: int|
                0 <= i < self@.len() && (#[trigger] self@[i]).0 <= pos && pos <= self@[i].1
                    && self@[i].2 == *v,
            r is None ==> forall|i: int|
                0 <= i < self@.len() ==> !((#[trigger] self@[i]).0 <= pos && pos <= self@[i].1),
    {
        match self.find_range_ref(pos) {
            Some(iv) => Some(&iv.value),
            None => None,
        }
    }

    /// Bounds of the interval containing `pos`, if any.
    pub fn find_range(&self, pos: u64) -> (r: Option<(u64, u64)>)
        requires
            self.wf(),
        ensures
            r matches Some(se) ==> exists|i: int|
                0 <= i < self@.len() && (#[trigger] self@[i]).0 == se.0 && self@[i].1 == se.1
                    && se.0 <= pos && pos <= se.1,
            r is None ==> forall|i: int|
                0 <= i < self@.len() ==> !((#[trigger] self@[i]).0 <= pos && pos <= self@[i].1),
    {
        match self.find_range_ref(pos) {
            Some(iv) => Some((iv.start, iv.end)),
            None => None,
        }
    }

    fn find_range_ref(&self, pos: u64) -> (r: Option<&Interval<T>>)
        requires
            self.wf(),
        ensures
            r matches Some(iv) ==> exists|i: int|
                0 <= i < self@.len() && #[trigger] self@[i] == (iv.start, iv.end, iv.value)
                    && iv.start <= pos && pos <= iv.end,
            r is None ==> forall|i: int|
                0 <= i < self@.len() ==> !((#[trigger] self@[i]).0 <= pos && pos <= self@[i].1),
    {
        let q = PointQuery { pos };
        let r = self.tree.get_by_key(&q);
        proof {
            if r is Some {
                let iv = r.unwrap();
                let i = choose|i: int| 0 <= i < self.tree@.len() && self.tree@[i] == *iv;
                assert(self@[i] == (iv.start, iv.end, iv.value));
            } else {
                assert forall|i: int|
                    0 <= i < self@.len() implies !((#[trigger] self@[i]).0 <= pos && pos
                    <= self@[i].1) by {
                    let tv = self.tree@[i];
                    assert(self@[i] == (tv.start, tv.end, tv.value));
                    assert(q.probe_spec(&self.tree@[i]) != Ordering::Equal);
                }
            }
        }
        r
    }
}

/// Point-containment query: where does `pos` sit relative to an interval?
struct PointQuery {
    pos: u64,
}

impl<T> crate::avl::TreeSearch<Interval<T>> for PointQuery {
    closed spec fn probe_spec(&self, iv: &Interval<T>) -> Ordering {
        if self.pos < iv.start {
            Ordering::Less
        } else if self.pos > iv.end {
            Ordering::Greater
        } else {
            Ordering::Equal
        }
    }

    proof fn lemma_monotone(&self, a: &Interval<T>, b: &Interval<T>) {
    }

    fn probe(&self, iv: &Interval<T>) -> (r: Ordering) {
        if self.pos < iv.start {
            Ordering::Less
        } else if self.pos > iv.end {
            Ordering::Greater
        } else {
            Ordering::Equal
        }
    }
}

} // verus!
