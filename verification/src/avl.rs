use vstd::prelude::*;
use core::cmp::Ordering;

verus! {

/// Ordering used by the balanced tree.  It is three-way but partial:
/// `None` means the two values are unordered (for the interval index this
/// is how overlap shows up).  The laws below are exactly what the tree
/// needs to keep its in-order sequence sorted.
pub trait TreeOrd: Sized {
    spec fn cmp_spec(&self, other: &Self) -> Option<Ordering>;

    /// `Less` one way is `Greater` the other way, and `Equal` is symmetric.
    proof fn lemma_flip(a: &Self, b: &Self)
        ensures
            (a.cmp_spec(b) == Some(Ordering::Less)) <==> (b.cmp_spec(a) == Some(
                Ordering::Greater,
            )),
            (a.cmp_spec(b) == Some(Ordering::Equal)) <==> (b.cmp_spec(a) == Some(
                Ordering::Equal,
            )),
    ;

    /// Strict order chains compose.
    proof fn lemma_transitive(a: &Self, b: &Self, c: &Self)
        requires
            a.cmp_spec(b) == Some(Ordering::Less),
            b.cmp_spec(c) == Some(Ordering::Less),
        ensures
            a.cmp_spec(c) == Some(Ordering::Less),
    ;

    /// Values that compare `Equal` compare alike against everything.
    proof fn lemma_equal_congruent(a: &Self, b: &Self, c: &Self)
        requires
            a.cmp_spec(b) == Some(Ordering::Equal),
        ensures
            a.cmp_spec(c) == b.cmp_spec(c),
    ;

    fn tree_cmp(&self, other: &Self) -> (r: Option<Ordering>)
        ensures
            r == self.cmp_spec(other),
    ;
}

impl TreeOrd for i32 {
    open spec fn cmp_spec(&self, other: &Self) -> Option<Ordering> {
        if *self < *other {
            Some(Ordering::Less)
        } else if *self > *other {
            Some(Ordering::Greater)
        } else {
            Some(Ordering::Equal)
        }
    }

    proof fn lemma_flip(a: &Self, b: &Self) {
    }

    proof fn lemma_transitive(a: &Self, b: &Self, c: &Self) {
    }

    proof fn lemma_equal_congruent(a: &Self, b: &Self, c: &Self) {
    }

    fn tree_cmp(&self, other: &Self) -> (r: Option<Ordering>) {
        if *self < *other {
            Some(Ordering::Less)
        } else if *self > *other {
            Some(Ordering::Greater)
        } else {
            Some(Ordering::Equal)
        }
    }
}

/// A search query against a tree of `T`: a three-way probe that respects
/// the tree's order.  Unlike the closure form of `get_by`, the probe is a
/// spec-level function, so a search can promise completeness: a `None`
/// answer really means no stored value matches.
pub trait TreeSearch<T: TreeOrd>: Sized {
    spec fn probe_spec(&self, t: &T) -> Ordering;

    /// Once the probe answers `Less` of a value it answers `Less` of
    /// everything above it, and symmetrically for `Greater`.
    proof fn lemma_monotone(&self, a: &T, b: &T)
        requires
            a.cmp_spec(b) == Some(Ordering::Less),
        ensures
            self.probe_spec(a) == Ordering::Less ==> self.probe_spec(b) == Ordering::Less,
            self.probe_spec(b) == Ordering::Greater ==> self.probe_spec(a) == Ordering::Greater,
    ;

    fn probe(&self, t: &T) -> (r: Ordering)
        ensures
            r == self.probe_spec(t),
    ;
}

pub(crate) struct Node<T> {
    pub(crate) value: T,
    pub(crate) height: i32,
    pub(crate) left: Option<Box<Node<T>>>,
    pub(crate) right: Option<Box<Node<T>>>,
}

/// A self-balancing binary search tree holding distinct values ordered by
/// `TreeOrd`.  Its view is the in-order sequence of its values, which the
/// well-formedness invariant keeps strictly sorted.
pub struct AVLTree<T> {
    pub(crate) root: Option<Box<Node<T>>>,
}

impl<T: TreeOrd> Node<T> {
    /// In-order sequence of the subtree rooted here.
    pub(crate) open spec fn seq_of(node: Option<Box<Node<T>>>) -> Seq<T>
        decreases node,
    {
        match node {
            None => Seq::empty(),
            Some(n) => Node::seq_of(n.left) + seq![n.value] + Node::seq_of(n.right),
        }
    }

    /// The ordering property: everything on the left is strictly below the
    /// node's value, everything on the right strictly above, recursively.
    pub(crate) open spec fn wf(node: Option<Box<Node<T>>>) -> bool
        decreases node,
    {
        match node {
            None => true,
            Some(n) => {
                &&& forall|i: int|
                    0 <= i < Node::seq_of(n.left).len() ==> (#[trigger] Node::seq_of(n.left)[i]).cmp_spec(&n.value)
                        == Some(Ordering::Less)
                &&& forall|i: int|
                    0 <= i < Node::seq_of(n.right).len() ==> n.value.cmp_spec(
                        &(#[trigger] Node::seq_of(n.right)[i]),
                    ) == Some(Ordering::Less)
                &&& Node::wf(n.left)
                &&& Node::wf(n.right)
            },
        }
    }
}

/// Strictly sorted: every earlier element is `Less` than every later one.
pub open spec fn sorted_seq<T: TreeOrd>(s: Seq<T>) -> bool {
    forall|i: int, j: int|
        #![trigger s[i].cmp_spec(&s[j])]
        0 <= i < j < s.len() ==> s[i].cmp_spec(&s[j]) == Some(Ordering::Less)
}

/// `s2` is `s` with `v` inserted at its sorted position `i`: everything
/// before `i` is strictly below `v`, everything from `i` on strictly above.
pub open spec fn is_sorted_insert<T: TreeOrd>(s: Seq<T>, v: T, s2: Seq<T>) -> bool {
    exists|i: int|
        {
            &&& 0 <= i <= s.len()
            &&& s2 == s.subrange(0, i) + seq![v] + s.subrange(i, s.len() as int)
            &&& forall|j: int| 0 <= j < i ==> (#[trigger] s[j]).cmp_spec(&v) == Some(Ordering::Less)
            &&& forall|j: int|
                i <= j < s.len() ==> v.cmp_spec(&(#[trigger] s[j])) == Some(Ordering::Less)
        }
}

/// `v` is strictly ordered against every element of `s`, so an insertion
/// lands in a position that does not depend on the tree's shape.
pub open spec fn strictly_comparable<T: TreeOrd>(s: Seq<T>, v: T) -> bool {
    forall|j: int|
        0 <= j < s.len() ==> (v.cmp_spec(&(#[trigger] s[j])) == Some(Ordering::Less)
            || v.cmp_spec(&(#[trigger] s[j])) == Some(Ordering::Greater))
}

/// Some element of `s` compares `Equal` to `v`.
pub open spec fn has_equal<T: TreeOrd>(s: Seq<T>, v: T) -> bool {
    exists|j: int| 0 <= j < s.len() && v.cmp_spec(&(#[trigger] s[j])) == Some(Ordering::Equal)
}

impl<T: TreeOrd> AVLTree<T> {
    pub closed spec fn view(&self) -> Seq<T> {
        Node::seq_of(self.root)
    }

    pub closed spec fn wf(&self) -> bool {
        Node::wf(self.root)
    }

    pub fn new() -> (r: Self)
        ensures
            r.wf(),
            r@ == Seq::<T>::empty(),
    {
        AVLTree { root: None }
    }

    /// Insert `value`, keeping values distinct and the in-order sequence
    /// sorted.  When `value` is strictly ordered against everything already
    /// stored, it ends up at its sorted position; when some stored value
    /// compares `Equal`, the tree is unchanged; when `value` is unordered
    /// against a stored value, the insertion may be dropped, but the tree
    /// stays well formed either way.
    pub fn insert(&mut self, value: T)
        requires
            old(self).wf(),
        ensures
            final(self).wf(),
            final(self)@ == old(self)@ || is_sorted_insert(old(self)@, value, final(self)@),
            strictly_comparable(old(self)@, value) ==> is_sorted_insert(
                old(self)@,
                value,
                final(self)@,
            ),
            has_equal(old(self)@, value) ==> final(self)@ == old(self)@,
    {
        let root = self.root.take();
        self.root = Node::insert_into(root, value);
    }
}

impl<T: TreeOrd> AVLTree<T> {
    /// Well-formedness makes the in-order sequence strictly sorted.
    pub proof fn lemma_wf_sorted(&self)
        requires
            self.wf(),
        ensures
            sorted_seq(self@),
    {
        Node::lemma_node_sorted(self.root);
    }

    /// In-order walk of the stored values.
    pub fn iter(&self) -> (r: Vec<&T>)
        ensures
            r@.len() == self@.len(),
            forall|i: int| 0 <= i < r@.len() ==> *(#[trigger] r@[i]) == self@[i],
    {
        let mut out: Vec<&T> = Vec::new();
        Node::collect_in_order(&self.root, &mut out);
        out
    }

    /// Search guided by a caller-supplied probe.  The probe must answer
    /// every value, answer each value one way only, and respect the tree's
    /// order: once it says `Less` of a value it says `Less` of everything
    /// above it, and symmetrically for `Greater`.  Under those conditions
    /// the search finds a stored value the probe accepts exactly when one
    /// exists.
    pub fn get_by<F: Fn(&T) -> Ordering>(&self, cmp: F) -> (r: Option<&T>)
        requires
            self.wf(),
            forall|t: &T| #[trigger] call_requires(cmp, (t,)),
            forall|t: &T, r1: Ordering, r2: Ordering|
                call_ensures(cmp, (t,), r1) && call_ensures(cmp, (t,), r2) ==> r1 == r2,
            forall|a: &T, b: &T, ra: Ordering, rb: Ordering|
                #![trigger call_ensures(cmp, (a,), ra), call_ensures(cmp, (b,), rb)]
                call_ensures(cmp, (a,), ra) && call_ensures(cmp, (b,), rb) && a.cmp_spec(b)
                    == Some(Ordering::Less) ==> ((ra == Ordering::Less ==> rb == Ordering::Less)
                    && (rb == Ordering::Greater ==> ra == Ordering::Greater)),
        ensures
            r matches Some(v) ==> self@.contains(*v) && call_ensures(cmp, (v,), Ordering::Equal),
            r is None ==> forall|i: int|
                0 <= i < self@.len() ==> !call_ensures(cmp, (&self@[i],), Ordering::Equal),
    {
        Node::get_node_by(&self.root, cmp)
    }

    /// Search with a spec-level probe; finds a stored value the probe
    /// accepts exactly when one exists.
    pub fn get_by_key<Q: TreeSearch<T>>(&self, q: &Q) -> (r: Option<&T>)
        requires
            self.wf(),
        ensures
            r matches Some(v) ==> self@.contains(*v) && q.probe_spec(v) == Ordering::Equal,
            r is None ==> forall|i: int|
                0 <= i < self@.len() ==> q.probe_spec(&(#[trigger] self@[i])) != Ordering::Equal,
    {
        Node::get_node_by_key(&self.root, q)
    }
}

impl<T: TreeOrd> Node<T> {
    proof fn lemma_node_sorted(node: Option<Box<Node<T>>>)
        requires
            Node::wf(node),
        ensures
            sorted_seq(Node::seq_of(node)),
        decreases node,
    {
        match node {
            None => {},
            Some(n) => {
                let ls = Node::seq_of(n.left);
                let rs = Node::seq_of(n.right);
                let s = Node::seq_of(node);
                Self::lemma_node_sorted(n.left);
                Self::lemma_node_sorted(n.right);
                assert(s == ls + seq![n.value] + rs);
                assert forall|i: int, j: int|
                    0 <= i < j < s.len() implies s[i].cmp_spec(&s[j]) == Some(Ordering::Less) by {
                    let m = ls.len() as int;
                    if j < m {
                        assert(s[i] == ls[i] && s[j] == ls[j]);
                        assert(ls[i].cmp_spec(&ls[j]) == Some(Ordering::Less));
                    } else if i < m && j == m {
                        assert(s[i] == ls[i] && s[j] == n.value);
                    } else if i < m && j > m {
                        assert(s[i] == ls[i] && s[j] == rs[j - m - 1]);
                        T::lemma_transitive(&ls[i], &n.value, &rs[j - m - 1]);
                    } else if i == m {
                        assert(s[j] == rs[j - m - 1]);
                    } else {
                        assert(s[i] == rs[i - m - 1] && s[j] == rs[j - m - 1]);
                        assert(rs[i - m - 1].cmp_spec(&rs[j - m - 1]) == Some(Ordering::Less));
                    }
                }
            },
        }
    }

    fn collect_in_order<'a>(node: &'a Option<Box<Node<T>>>, out: &mut Vec<&'a T>)
        ensures
            final(out)@.len() == old(out)@.len() + Node::seq_of(*node).len(),
            forall|i: int| 0 <= i < old(out)@.len() ==> #[trigger] final(out)@[i] == old(out)@[i],
            forall|i: int|
                old(out)@.len() <= i < final(out)@.len() ==> *(#[trigger] final(out)@[i])
                    == Node::seq_of(*node)[i - old(out)@.len()],
        decreases node,
    {
        match node {
            None => {},
            Some(n) => {
                let ghost ls = Node::seq_of(n.left);
                let ghost rs = Node::seq_of(n.right);
                let ghost base = out@.len() as int;
                Self::collect_in_order(&n.left, out);
                let ghost o1 = out@;
                out.push(&n.value);
                let ghost o2 = out@;
                Self::collect_in_order(&n.right, out);
                proof {
                    let s = Node::seq_of(*node);
                    assert(s == ls + seq![n.value] + rs);
                    let m = ls.len() as int;
                    assert forall|j: int| base <= j < out@.len() implies *(#[trigger] out@[j])
                        == s[j - base] by {
                        if j < base + m {
                            assert(out@[j] == o2[j]);
                            assert(o2[j] == o1[j]);
                            assert(*o1[j] == ls[j - base]);
                            assert(s[j - base] == ls[j - base]);
                        } else if j == base + m {
                            assert(out@[j] == o2[j]);
                            assert(o2[j] == &n.value);
                            assert(s[j - base] == n.value);
                        } else {
                            assert(*out@[j] == rs[j - (base + m + 1)]);
                            assert(s[j - base] == rs[j - base - m - 1]);
                        }
                    }
                }
            },
        }
    }

    fn get_node_by<F: Fn(&T) -> Ordering>(node: &Option<Box<Node<T>>>, cmp: F) -> (r: Option<&T>)
        requires
            Node::wf(*node),
            forall|t: &T| #[trigger] call_requires(cmp, (t,)),
            forall|t: &T, r1: Ordering, r2: Ordering|
                call_ensures(cmp, (t,), r1) && call_ensures(cmp, (t,), r2) ==> r1 == r2,
            forall|a: &T, b: &T, ra: Ordering, rb: Ordering|
                #![trigger call_ensures(cmp, (a,), ra), call_ensures(cmp, (b,), rb)]
                call_ensures(cmp, (a,), ra) && call_ensures(cmp, (b,), rb) && a.cmp_spec(b)
                    == Some(Ordering::Less) ==> ((ra == Ordering::Less ==> rb == Ordering::Less)
                    && (rb == Ordering::Greater ==> ra == Ordering::Greater)),
        ensures
            r matches Some(v) ==> Node::seq_of(*node).contains(*v) && call_ensures(
                cmp,
                (v,),
                Ordering::Equal,
            ),
            r is None ==> forall|i: int|
                0 <= i < Node::seq_of(*node).len() ==> !call_ensures(
                    cmp,
                    (&Node::seq_of(*node)[i],),
                    Ordering::Equal,
                ),
        decreases node,
    {
        match node {
            Some(n) => {
                let ghost s = Node::seq_of(*node);
                let ghost ls = Node::seq_of(n.left);
                let ghost rs = Node::seq_of(n.right);
                proof {
                    assert(s == ls + seq![n.value] + rs);
                }
                let c = cmp(&n.value);
                match c {
                    Ordering::Less => {
                        let r = Self::get_node_by(&n.left, cmp);
                        proof {
                            if r is Some {
                                let v = r.unwrap();
                                let i = choose|i: int| 0 <= i < ls.len() && ls[i] == *v;
                                assert(s[i] == ls[i]);
                                assert(s.contains(*v));
                            } else {
                                assert forall|i: int| 0 <= i < s.len() implies !call_ensures(
                                    cmp,
                                    (&s[i],),
                                    Ordering::Equal,
                                ) by {
                                    let m = ls.len() as int;
                                    if i < m {
                                        assert(s[i] == ls[i]);
                                        assert(!call_ensures(cmp, (&ls[i],), Ordering::Equal));
                                    } else if i == m {
                                        assert(s[i] == n.value);
                                    } else {
                                        assert(s[i] == rs[i - m - 1]);
                                        assert(n.value.cmp_spec(&rs[i - m - 1]) == Some(
                                            Ordering::Less,
                                        ));
                                    }
                                }
                            }
                        }
                        r
                    },
                    Ordering::Equal => {
                        proof {
                            assert(s[ls.len() as int] == n.value);
                            assert(s.contains(n.value));
                        }
                        Some(&n.value)
                    },
                    Ordering::Greater => {
                        let r = Self::get_node_by(&n.right, cmp);
                        proof {
                            if r is Some {
                                let v = r.unwrap();
                                let i = choose|i: int| 0 <= i < rs.len() && rs[i] == *v;
                                assert(s[ls.len() + 1 + i] == rs[i]);
                                assert(s.contains(*v));
                            } else {
                                assert forall|i: int| 0 <= i < s.len() implies !call_ensures(
                                    cmp,
                                    (&s[i],),
                                    Ordering::Equal,
                                ) by {
                                    let m = ls.len() as int;
                                    if i < m {
                                        assert(s[i] == ls[i]);
                                        assert(ls[i].cmp_spec(&n.value) == Some(Ordering::Less));
                                    } else if i == m {
                                        assert(s[i] == n.value);
                                    } else {
                                        assert(s[i] == rs[i - m - 1]);
                                        assert(!call_ensures(cmp, (&rs[i - m - 1],), Ordering::Equal));
                                    }
                                }
                            }
                        }
                        r
                    },
                }
            },
            None => None,
        }
    }

    fn get_node_by_key<'a, Q: TreeSearch<T>>(node: &'a Option<Box<Node<T>>>, q: &Q) -> (r: Option<
        &'a T,
    >)
        requires
            Node::wf(*node),
        ensures
            r matches Some(v) ==> Node::seq_of(*node).contains(*v) && q.probe_spec(v)
                == Ordering::Equal,
            r is None ==> forall|i: int|
                0 <= i < Node::seq_of(*node).len() ==> q.probe_spec(
                    &(#[trigger] Node::seq_of(*node)[i]),
                ) != Ordering::Equal,
        decreases node,
    {
        match node {
            Some(n) => {
                let ghost s = Node::seq_of(*node);
                let ghost ls = Node::seq_of(n.left);
                let ghost rs = Node::seq_of(n.right);
                proof {
                    assert(s == ls + seq![n.value] + rs);
                }
                match q.probe(&n.value) {
                    Ordering::Less => {
                        let r = Self::get_node_by_key(&n.left, q);
                        proof {
                            if r is Some {
                                let v = r.unwrap();
                                let i = choose|i: int| 0 <= i < ls.len() && ls[i] == *v;
                                assert(s[i] == ls[i]);
                                assert(s.contains(*v));
                            } else {
                                assert forall|i: int| 0 <= i < s.len() implies q.probe_spec(
                                    &(#[trigger] s[i]),
                                ) != Ordering::Equal by {
                                    let m = ls.len() as int;
                                    if i < m {
                                        assert(s[i] == ls[i]);
                                        assert(q.probe_spec(&ls[i]) != Ordering::Equal);
                                    } else if i == m {
                                        assert(s[i] == n.value);
                                    } else {
                                        assert(s[i] == rs[i - m - 1]);
                                        q.lemma_monotone(&n.value, &rs[i - m - 1]);
                                    }
                                }
                            }
                        }
                        r
                    },
                    Ordering::Equal => {
                        proof {
                            assert(s[ls.len() as int] == n.value);
                            assert(s.contains(n.value));
                        }
                        Some(&n.value)
                    },
                    Ordering::Greater => {
                        let r = Self::get_node_by_key(&n.right, q);
                        proof {
                            if r is Some {
                                let v = r.unwrap();
                                let i = choose|i: int| 0 <= i < rs.len() && rs[i] == *v;
                                assert(s[ls.len() + 1 + i] == rs[i]);
                                assert(s.contains(*v));
                            } else {
                                assert forall|i: int| 0 <= i < s.len() implies q.probe_spec(
                                    &(#[trigger] s[i]),
                                ) != Ordering::Equal by {
                                    let m = ls.len() as int;
                                    if i < m {
                                        assert(s[i] == ls[i]);
                                        q.lemma_monotone(&ls[i], &n.value);
                                    } else if i == m {
                                        assert(s[i] == n.value);
                                    } else {
                                        assert(s[i] == rs[i - m - 1]);
                                        assert(q.probe_spec(&rs[i - m - 1]) != Ordering::Equal);
                                    }
                                }
                            }
                        }
                        r
                    },
                }
            },
            None => None,
        }
    }

    /// Height as recorded in the node; the balancing heuristic reads it,
    /// nothing else depends on it.
    fn height(node: &Option<Box<Node<T>>>) -> (r: i32) {
        match node {
            None => 0,
            Some(n) => n.height,
        }
    }

    fn balance_factor(node: &Box<Node<T>>) -> (r: i64) {
        (Self::height(&node.left) as i64) - (Self::height(&node.right) as i64)
    }

    /// Rebuild a node from its parts with a freshly computed height.
    fn with_height(value: T, left: Option<Box<Node<T>>>, right: Option<Box<Node<T>>>) -> (r: Box<
        Node<T>,
    >)
        ensures
            r.value == value,
            r.left == left,
            r.right == right,
    {
        let hl = Self::height(&left);
        let hr = Self::height(&right);
        let h = if hl > hr {
            hl
        } else {
            hr
        };
        let h2 = if h < i32::MAX {
            h + 1
        } else {
            h
        };
        Box::new(Node { value, height: h2, left, right })
    }

    proof fn lemma_concat_wf(n: Box<Node<T>>)
        requires
            Node::wf(Some(n)),
        ensures
            Node::seq_of(Some(n)) == Node::seq_of(n.left) + seq![n.value] + Node::seq_of(n.right),
            Node::wf(n.left),
            Node::wf(n.right),
    {
    }

    fn rotate_left(node: Box<Node<T>>) -> (r: Box<Node<T>>)
        requires
            node.right is Some,
            Node::wf(Some(node)),
        ensures
            Node::wf(Some(r)),
            Node::seq_of(Some(r)) == Node::seq_of(Some(node)),
    {
        let ghost orig = node;
        let Node { value, height: _, left, right } = *node;
        match right {
            Some(pivot) => {
                let Node { value: pv, height: _, left: pl, right: pr } = *pivot;
                let new_left = Self::with_height(value, left, pl);
                let r = Self::with_height(pv, Some(new_left), pr);
                proof {
                    let ls = Node::seq_of(left);
                    let pls = Node::seq_of(pl);
                    let prs = Node::seq_of(pr);
                    assert(Node::seq_of(Some(new_left)) == ls + seq![value] + pls);
                    assert(Node::seq_of(Some(r)) == Node::seq_of(Some(new_left)) + seq![pv] + prs);
                    assert(Node::seq_of(orig.right) == pls + seq![pv] + prs);
                    assert(Node::seq_of(Some(orig)) == ls + seq![value] + Node::seq_of(orig.right));
                    assert(Node::seq_of(Some(r)) =~= Node::seq_of(Some(orig)));
                    assert(Node::wf(orig.right));
                    assert(Node::wf(Some(pivot)));
                    // the pivot's value sits above everything moved below it
                    assert(Node::seq_of(orig.right)[pls.len() as int] == pv);
                    assert forall|i: int| 0 <= i < ls.len() implies (#[trigger] ls[i]).cmp_spec(
                        &pv,
                    ) == Some(Ordering::Less) by {
                        T::lemma_transitive(&ls[i], &value, &pv);
                    }
                    assert forall|i: int|
                        0 <= i < Node::seq_of(Some(new_left)).len() implies (#[trigger] Node::seq_of(
                        Some(new_left),
                    )[i]).cmp_spec(&pv) == Some(Ordering::Less) by {
                        let s = Node::seq_of(Some(new_left));
                        if i < ls.len() {
                            assert(s[i] == ls[i]);
                        } else if i == ls.len() {
                            assert(s[i] == value);
                        } else {
                            assert(s[i] == pls[i - ls.len() - 1]);
                            assert(Node::seq_of(orig.right)[i - ls.len() - 1] == pls[i - ls.len()
                                - 1]);
                        }
                    }
                    assert forall|i: int| 0 <= i < pls.len() implies value.cmp_spec(
                        &(#[trigger] pls[i]),
                    ) == Some(Ordering::Less) by {
                        assert(Node::seq_of(orig.right)[i] == pls[i]);
                    }
                    assert(Node::wf(Some(new_left)));
                    assert(Node::wf(Some(r)));
                }
                r
            },
            None => {
                // unreachable: the caller knows `right` is `Some`
                proof {
                    assert(false);
                }
                Self::with_height(value, left, None)
            },
        }
    }

    fn rotate_right(node: Box<Node<T>>) -> (r: Box<Node<T>>)
        requires
            node.left is Some,
            Node::wf(Some(node)),
        ensures
            Node::wf(Some(r)),
            Node::seq_of(Some(r)) == Node::seq_of(Some(node)),
    {
        let ghost orig = node;
        let Node { value, height: _, left, right } = *node;
        match left {
            Some(pivot) => {
                let Node { value: pv, height: _, left: pl, right: pr } = *pivot;
                let new_right = Self::with_height(value, pr, right);
                let r = Self::with_height(pv, pl, Some(new_right));
                proof {
                    let rs = Node::seq_of(right);
                    let pls = Node::seq_of(pl);
                    let prs = Node::seq_of(pr);
                    assert(Node::seq_of(Some(new_right)) == prs + seq![value] + rs);
                    assert(Node::seq_of(Some(r)) == pls + seq![pv] + Node::seq_of(Some(new_right)));
                    assert(Node::seq_of(orig.left) == pls + seq![pv] + prs);
                    assert(Node::seq_of(Some(orig)) == Node::seq_of(orig.left) + seq![value] + rs);
                    assert(Node::seq_of(Some(r)) =~= Node::seq_of(Some(orig)));
                    assert(Node::wf(orig.left));
                    assert(Node::wf(Some(pivot)));
                    assert(Node::seq_of(orig.left)[pls.len() as int] == pv);
                    assert forall|i: int| 0 <= i < rs.len() implies pv.cmp_spec(
                        &(#[trigger] rs[i]),
                    ) == Some(Ordering::Less) by {
                        T::lemma_transitive(&pv, &value, &rs[i]);
                    }
                    assert forall|i: int|
                        0 <= i < Node::seq_of(Some(new_right)).len() implies pv.cmp_spec(
                        &(#[trigger] Node::seq_of(Some(new_right))[i]),
                    ) == Some(Ordering::Less) by {
                        let s = Node::seq_of(Some(new_right));
                        if i < prs.len() {
                            assert(s[i] == prs[i]);
                            assert(Node::seq_of(orig.left)[pls.len() + 1 + i] == prs[i]);
                        } else if i == prs.len() {
                            assert(s[i] == value);
                        } else {
                            assert(s[i] == rs[i - prs.len() - 1]);
                            T::lemma_transitive(&pv, &value, &rs[i - prs.len() - 1]);
                        }
                    }
                    assert forall|i: int| 0 <= i < prs.len() implies (#[trigger] prs[i]).cmp_spec(
                        &value,
                    ) == Some(Ordering::Less) by {
                        assert(Node::seq_of(orig.left)[pls.len() + 1 + i] == prs[i]);
                    }
                    assert(Node::wf(Some(new_right)));
                    assert(Node::wf(Some(r)));
                }
                r
            },
            None => {
                proof {
                    assert(false);
                }
                Self::with_height(value, None, right)
            },
        }
    }

    /// Restore the balancing heuristic after an insertion, leaving the
    /// stored sequence untouched.
    fn rebalance(node: Box<Node<T>>) -> (r: Box<Node<T>>)
        requires
            Node::wf(Some(node)),
        ensures
            Node::wf(Some(r)),
            Node::seq_of(Some(r)) == Node::seq_of(Some(node)),
    {
        let bf = Self::balance_factor(&node);
        if bf > 1 {
            // left heavy
            let Node { value, height, left, right } = *node;
            match left {
                Some(l) => {
                    let rotated_left = if Self::balance_factor(&l) < 0 {
                        match l.right {
                            Some(_) => Self::rotate_left(l),
                            None => l,
                        }
                    } else {
                        l
                    };
                    let rebuilt = Self::with_height(value, Some(rotated_left), right);
                    proof {
                        assert(Node::seq_of(Some(rebuilt)) =~= Node::seq_of(Some(node)));
                    }
                    Self::rotate_right(rebuilt)
                },
                None => Box::new(Node { value, height, left, right }),
            }
        } else if bf < -1 {
            // right heavy
            let Node { value, height, left, right } = *node;
            match right {
                Some(l) => {
                    let rotated_right = if Self::balance_factor(&l) > 0 {
                        match l.left {
                            Some(_) => Self::rotate_right(l),
                            None => l,
                        }
                    } else {
                        l
                    };
                    let rebuilt = Self::with_height(value, left, Some(rotated_right));
                    proof {
                        assert(Node::seq_of(Some(rebuilt)) =~= Node::seq_of(Some(node)));
                    }
                    Self::rotate_left(rebuilt)
                },
                None => Box::new(Node { value, height, left, right }),
            }
        } else {
            node
        }
    }

    /// How an insertion outcome on the left subtree lifts to the whole
    /// node: positions shift by nothing, the new element stays below the
    /// node's value, and equality or unorderedness elsewhere cannot occur.
    proof fn lemma_after_left(s: Seq<T>, ls: Seq<T>, rs: Seq<T>, nls: Seq<T>, nv: T, value: T)
        requires
            s == ls + seq![nv] + rs,
            forall|i: int|
                0 <= i < ls.len() ==> (#[trigger] ls[i]).cmp_spec(&nv) == Some(Ordering::Less),
            forall|i: int|
                0 <= i < rs.len() ==> nv.cmp_spec(&(#[trigger] rs[i])) == Some(Ordering::Less),
            value.cmp_spec(&nv) == Some(Ordering::Less),
            nls == ls || is_sorted_insert(ls, value, nls),
            strictly_comparable(ls, value) ==> is_sorted_insert(ls, value, nls),
            has_equal(ls, value) ==> nls == ls,
        ensures
            forall|i: int|
                0 <= i < nls.len() ==> (#[trigger] nls[i]).cmp_spec(&nv) == Some(Ordering::Less),
            nls + seq![nv] + rs == s || is_sorted_insert(s, value, nls + seq![nv] + rs),
            strictly_comparable(s, value) ==> is_sorted_insert(s, value, nls + seq![nv] + rs),
            has_equal(s, value) ==> nls + seq![nv] + rs == s,
    {
        let s2 = nls + seq![nv] + rs;
        assert(s.len() == ls.len() + 1 + rs.len());
        assert forall|j: int| 0 <= j < ls.len() implies s[j] == ls[j] by {}
        assert(s[ls.len() as int] == nv);
        assert forall|j: int| 0 <= j < rs.len() implies s[ls.len() + 1 + j] == rs[j] by {}
        if nls =~= ls {
            assert(s2 =~= s);
        } else {
            assert(is_sorted_insert(ls, value, nls));
            let i = choose|i: int|
                {
                    &&& 0 <= i <= ls.len()
                    &&& nls == ls.subrange(0, i) + seq![value] + ls.subrange(i, ls.len() as int)
                    &&& forall|j: int|
                        0 <= j < i ==> (#[trigger] ls[j]).cmp_spec(&value) == Some(Ordering::Less)
                    &&& forall|j: int|
                        i <= j < ls.len() ==> value.cmp_spec(&(#[trigger] ls[j])) == Some(
                            Ordering::Less,
                        )
                };
            assert forall|k: int| 0 <= k < nls.len() implies (#[trigger] nls[k]).cmp_spec(&nv)
                == Some(Ordering::Less) by {
                if k < i {
                    assert(nls[k] == ls[k]);
                } else if k == i {
                    assert(nls[k] == value);
                } else {
                    assert(nls[k] == ls[k - 1]);
                }
            }
            assert(s2 =~= s.subrange(0, i) + seq![value] + s.subrange(i, s.len() as int)) by {
                assert forall|k: int| 0 <= k < s2.len() implies s2[k] == (s.subrange(0, i)
                    + seq![value] + s.subrange(i, s.len() as int))[k] by {
                    if k < i {
                        assert(s2[k] == nls[k]);
                        assert(nls[k] == ls[k]);
                    } else if k == i {
                        assert(s2[k] == nls[k]);
                        assert(nls[k] == value);
                    } else if k <= ls.len() {
                        assert(s2[k] == nls[k]);
                        assert(nls[k] == ls[k - 1]);
                    } else if k == ls.len() + 1 {
                        assert(s2[k] == nv);
                    } else {
                        assert(s2[k] == rs[k - ls.len() - 2]);
                    }
                }
            }
            assert forall|j: int| 0 <= j < i implies (#[trigger] s[j]).cmp_spec(&value) == Some(
                Ordering::Less,
            ) by {
                assert(s[j] == ls[j]);
            }
            assert forall|j: int| i <= j < s.len() implies value.cmp_spec(&(#[trigger] s[j]))
                == Some(Ordering::Less) by {
                if j < ls.len() {
                    assert(s[j] == ls[j]);
                } else if j == ls.len() {
                    assert(s[j] == nv);
                } else {
                    assert(s[j] == rs[j - ls.len() - 1]);
                    T::lemma_transitive(&value, &nv, &rs[j - ls.len() - 1]);
                }
            }
            assert(is_sorted_insert(s, value, s2));
        }
        if strictly_comparable(s, value) {
            assert forall|j: int|
                0 <= j < ls.len() implies (value.cmp_spec(&(#[trigger] ls[j])) == Some(
                Ordering::Less,
            ) || value.cmp_spec(&ls[j]) == Some(Ordering::Greater)) by {
                assert(s[j] == ls[j]);
                assert(value.cmp_spec(&s[j]) == Some(Ordering::Less) || value.cmp_spec(&s[j])
                    == Some(Ordering::Greater));
            }
            assert(strictly_comparable(ls, value));
            assert(nls.len() != ls.len());
        }
        if has_equal(s, value) {
            let j = choose|j: int|
                0 <= j < s.len() && value.cmp_spec(&(#[trigger] s[j])) == Some(Ordering::Equal);
            if j == ls.len() {
                assert(s[j] == nv);
                assert(false);
            } else if j > ls.len() {
                let k = j - ls.len() - 1;
                assert(s[j] == rs[k]);
                T::lemma_flip(&nv, &rs[k]);
                T::lemma_equal_congruent(&value, &rs[k], &nv);
                assert(false);
            } else {
                assert(ls[j] == s[j]);
                assert(has_equal(ls, value));
                assert(nls == ls);
                assert(s2 =~= s);
            }
        }
    }

    /// Mirror of `lemma_after_left` for the right subtree.
    proof fn lemma_after_right(s: Seq<T>, ls: Seq<T>, rs: Seq<T>, nrs: Seq<T>, nv: T, value: T)
        requires
            s == ls + seq![nv] + rs,
            forall|i: int|
                0 <= i < ls.len() ==> (#[trigger] ls[i]).cmp_spec(&nv) == Some(Ordering::Less),
            forall|i: int|
                0 <= i < rs.len() ==> nv.cmp_spec(&(#[trigger] rs[i])) == Some(Ordering::Less),
            value.cmp_spec(&nv) == Some(Ordering::Greater),
            nrs == rs || is_sorted_insert(rs, value, nrs),
            strictly_comparable(rs, value) ==> is_sorted_insert(rs, value, nrs),
            has_equal(rs, value) ==> nrs == rs,
        ensures
            forall|i: int|
                0 <= i < nrs.len() ==> nv.cmp_spec(&(#[trigger] nrs[i])) == Some(Ordering::Less),
            ls + seq![nv] + nrs == s || is_sorted_insert(s, value, ls + seq![nv] + nrs),
            strictly_comparable(s, value) ==> is_sorted_insert(s, value, ls + seq![nv] + nrs),
            has_equal(s, value) ==> ls + seq![nv] + nrs == s,
    {
        let s2 = ls + seq![nv] + nrs;
        assert(s.len() == ls.len() + 1 + rs.len());
        assert forall|j: int| 0 <= j < ls.len() implies s[j] == ls[j] by {}
        assert(s[ls.len() as int] == nv);
        assert forall|j: int| 0 <= j < rs.len() implies s[ls.len() + 1 + j] == rs[j] by {}
        T::lemma_flip(&nv, &value);
        if nrs =~= rs {
            assert(s2 =~= s);
        } else {
            assert(is_sorted_insert(rs, value, nrs));
            let i = choose|i: int|
                {
                    &&& 0 <= i <= rs.len()
                    &&& nrs == rs.subrange(0, i) + seq![value] + rs.subrange(i, rs.len() as int)
                    &&& forall|j: int|
                        0 <= j < i ==> (#[trigger] rs[j]).cmp_spec(&value) == Some(Ordering::Less)
                    &&& forall|j: int|
                        i <= j < rs.len() ==> value.cmp_spec(&(#[trigger] rs[j])) == Some(
                            Ordering::Less,
                        )
                };
            assert forall|k: int| 0 <= k < nrs.len() implies nv.cmp_spec(&(#[trigger] nrs[k]))
                == Some(Ordering::Less) by {
                if k < i {
                    assert(nrs[k] == rs[k]);
                } else if k == i {
                    assert(nrs[k] == value);
                } else {
                    assert(nrs[k] == rs[k - 1]);
                }
            }
            let fi = ls.len() + 1 + i;
            assert(s2 =~= s.subrange(0, fi) + seq![value] + s.subrange(fi, s.len() as int)) by {
                assert forall|k: int| 0 <= k < s2.len() implies s2[k] == (s.subrange(0, fi)
                    + seq![value] + s.subrange(fi, s.len() as int))[k] by {
                    if k < ls.len() {
                        assert(s2[k] == ls[k]);
                    } else if k == ls.len() {
                        assert(s2[k] == nv);
                    } else if k < fi {
                        assert(s2[k] == nrs[k - ls.len() - 1]);
                        assert(nrs[k - ls.len() - 1] == rs[k - ls.len() - 1]);
                    } else if k == fi {
                        assert(s2[k] == nrs[i]);
                        assert(nrs[i] == value);
                    } else {
                        assert(s2[k] == nrs[k - ls.len() - 1]);
                        assert(nrs[k - ls.len() - 1] == rs[k - ls.len() - 2]);
                    }
                }
            }
            assert forall|j: int| 0 <= j < fi implies (#[trigger] s[j]).cmp_spec(&value) == Some(
                Ordering::Less,
            ) by {
                if j < ls.len() {
                    assert(s[j] == ls[j]);
                    T::lemma_transitive(&ls[j], &nv, &value);
                } else if j == ls.len() {
                    assert(s[j] == nv);
                } else {
                    assert(s[j] == rs[j - ls.len() - 1]);
                }
            }
            assert forall|j: int| fi <= j < s.len() implies value.cmp_spec(&(#[trigger] s[j]))
                == Some(Ordering::Less) by {
                assert(s[j] == rs[j - ls.len() - 1]);
            }
            assert(is_sorted_insert(s, value, s2));
        }
        if strictly_comparable(s, value) {
            assert forall|j: int|
                0 <= j < rs.len() implies (value.cmp_spec(&(#[trigger] rs[j])) == Some(
                Ordering::Less,
            ) || value.cmp_spec(&rs[j]) == Some(Ordering::Greater)) by {
                assert(s[ls.len() + 1 + j] == rs[j]);
                assert(value.cmp_spec(&s[ls.len() + 1 + j]) == Some(Ordering::Less)
                    || value.cmp_spec(&s[ls.len() + 1 + j]) == Some(Ordering::Greater));
            }
            assert(strictly_comparable(rs, value));
            assert(nrs.len() != rs.len());
        }
        if has_equal(s, value) {
            let j = choose|j: int|
                0 <= j < s.len() && value.cmp_spec(&(#[trigger] s[j])) == Some(Ordering::Equal);
            if j == ls.len() {
                assert(s[j] == nv);
                assert(false);
            } else if j < ls.len() {
                assert(s[j] == ls[j]);
                T::lemma_equal_congruent(&value, &ls[j], &nv);
                assert(false);
            } else {
                let k = j - ls.len() - 1;
                assert(rs[k] == s[j]);
                assert(has_equal(rs, value));
                assert(nrs == rs);
                assert(s2 =~= s);
            }
        }
    }

    fn insert_into(node: Option<Box<Node<T>>>, value: T) -> (r: Option<Box<Node<T>>>)
        requires
            Node::wf(node),
        ensures
            Node::wf(r),
            Node::seq_of(r) == Node::seq_of(node) || is_sorted_insert(
                Node::seq_of(node),
                value,
                Node::seq_of(r),
            ),
            strictly_comparable(Node::seq_of(node), value) ==> is_sorted_insert(
                Node::seq_of(node),
                value,
                Node::seq_of(r),
            ),
            has_equal(Node::seq_of(node), value) ==> Node::seq_of(r) == Node::seq_of(node),
        decreases node,
    {
        let ghost s = Node::seq_of(node);
        match node {
            None => {
                let r = Some(Box::new(Node { value, height: 1, left: None, right: None }));
                proof {
                    assert(Node::seq_of(r) =~= s.subrange(0, 0) + seq![value] + s.subrange(0, 0));
                    assert(is_sorted_insert(s, value, Node::seq_of(r)));
                }
                r
            },
            Some(n) => {
                let Node { value: nv, height: nh, left, right } = *n;
                let ghost ls = Node::seq_of(left);
                let ghost rs = Node::seq_of(right);
                match value.tree_cmp(&nv) {
                    Some(Ordering::Less) => {
                        proof {
                            assert(s == ls + seq![nv] + rs);
                        }
                        let new_left = Self::insert_into(left, value);
                        let ghost nls = Node::seq_of(new_left);
                        let rebuilt = Self::with_height(nv, new_left, right);
                        proof {
                            Self::lemma_after_left(s, ls, rs, nls, nv, value);
                            assert(Node::seq_of(Some(rebuilt)) == nls + seq![nv] + rs);
                            assert(Node::wf(Some(rebuilt)));
                        }
                        Some(Self::rebalance(rebuilt))
                    },
                    Some(Ordering::Greater) => {
                        proof {
                            assert(s == ls + seq![nv] + rs);
                        }
                        let new_right = Self::insert_into(right, value);
                        let ghost nrs = Node::seq_of(new_right);
                        let rebuilt = Self::with_height(nv, left, new_right);
                        proof {
                            Self::lemma_after_right(s, ls, rs, nrs, nv, value);
                            assert(Node::seq_of(Some(rebuilt)) == ls + seq![nv] + nrs);
                            assert(Node::wf(Some(rebuilt)));
                        }
                        Some(Self::rebalance(rebuilt))
                    },
                    _ => {
                        // `Equal` (already present) or unordered: keep the
                        // tree as it is
                        let r = Some(Box::new(Node { value: nv, height: nh, left, right }));
                        proof {
                            assert(Node::seq_of(r) =~= s);
                            if strictly_comparable(s, value) {
                                assert(s[ls.len() as int] == nv);
                                assert(false);
                            }
                        }
                        r
                    },
                }
            },
        }
    }
}

} // verus!
