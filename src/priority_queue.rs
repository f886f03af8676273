//! An indexed priority queue: a binary heap of values together with
//! a position index that maps every stored value to the ascending set of heap
//! slots that currently hold it. The index makes membership tests and removal
//! by value cheap, and it is kept exact under every slot exchange.

use std::cmp::Ordering;
use std::collections::{BTreeSet, HashMap};
use std::hash::Hash;
use vstd::laws_cmp::{obeys_cmp, obeys_partial_cmp_spec_properties, obeys_cmp_partial_ord, obeys_cmp_ord};
use vstd::laws_eq::{obeys_concrete_eq, obeys_eq_spec_properties};
use vstd::multiset::Multiset;
use vstd::prelude::*;
use vstd::std_specs::cmp::{OrdSpec, PartialEqSpec, PartialOrdSpec};
use vstd::std_specs::hash::obeys_key_model;

verus! {

broadcast use {
    vstd::std_specs::hash::group_hash_axioms,
    vstd::std_specs::btree::group_btree_axioms,
    vstd::seq_lib::group_to_multiset_ensures,
};

/// The ordering policy of a queue, fixed when the queue is made.
#[derive(Clone, Copy, Debug, PartialEq, Eq, Structural)]
pub enum Sort {
    /// Smaller values come out first.
    Min,
    /// Larger values come out first.
    Max,
}

/// Returned by [`PriorityQueue::poll`] when there is nothing to take.
#[derive(Clone, Copy, Debug, PartialEq, Eq, Structural)]
pub struct EmptyQueue;

/// What a queue needs of its values: `cmp` is a total order, `==` is
/// equality of values, and hashing goes by the value.
pub open spec fn orderable<T: Ord>() -> bool {
    &&& obeys_cmp::<T>()
    &&& obeys_concrete_eq::<T>()
    &&& obeys_key_model::<T>()
}

/// `a` may stand above `b` in a heap ordered by `sort` (ties allowed).
pub open spec fn precedes<T: Ord>(sort: Sort, a: T, b: T) -> bool {
    match sort {
        Sort::Min => a.cmp_spec(&b) != Ordering::Greater,
        Sort::Max => a.cmp_spec(&b) != Ordering::Less,
    }
}

/// Under either policy `precedes` is total, transitive and reflexive, and
/// `==` on values means equality.
proof fn lemma_order_laws<T: Ord>(sort: Sort)
    requires
        orderable::<T>(),
    ensures
        forall|a: T, b: T| #[trigger] precedes(sort, a, b) || precedes(sort, b, a),
        forall|a: T, b: T, c: T|
            #[trigger] precedes(sort, a, b) && #[trigger] precedes(sort, b, c) ==> precedes(
                sort,
                a,
                c,
            ),
        forall|a: T| #[trigger] precedes(sort, a, a),
        T::obeys_eq_spec(),
        forall|a: T, b: T| #[trigger] a.eq_spec(&b) <==> a == b,
        T::obeys_cmp_spec(),
{
    reveal(obeys_partial_cmp_spec_properties);
    reveal(obeys_cmp_partial_ord);
    reveal(obeys_cmp_ord);
    reveal(obeys_concrete_eq);
    reveal(obeys_eq_spec_properties);
    assert forall|a: T, b: T| #[trigger] precedes(sort, a, b) || precedes(sort, b, a) by {
        assert(a.partial_cmp_spec(&b) == Some(a.cmp_spec(&b)));
        assert(b.partial_cmp_spec(&a) == Some(b.cmp_spec(&a)));
    }
    assert forall|a: T, b: T, c: T|
        #[trigger] precedes(sort, a, b) && #[trigger] precedes(sort, b, c) implies precedes(
        sort,
        a,
        c,
    ) by {
        assert(a.partial_cmp_spec(&b) == Some(a.cmp_spec(&b)));
        assert(b.partial_cmp_spec(&c) == Some(b.cmp_spec(&c)));
        assert(a.partial_cmp_spec(&c) == Some(a.cmp_spec(&c)));
        if a.cmp_spec(&b) == Ordering::Equal {
            assert(a.eq_spec(&b));
        }
        if b.cmp_spec(&c) == Ordering::Equal {
            assert(b.eq_spec(&c));
        }
    }
    assert forall|a: T| #[trigger] precedes(sort, a, a) by {
        assert(a.eq_spec(&a));
        assert(a.partial_cmp_spec(&a) == Some(a.cmp_spec(&a)));
    }
}

/// The slot above slot `i` in the implicit binary tree.
pub open spec fn parent(i: int) -> int {
    (i - 1) / 2
}

/// Every non-root slot is preceded (or tied) by its parent.
pub open spec fn is_heap<T: Ord>(sort: Sort, s: Seq<T>) -> bool {
    forall|i: int| 0 < i < s.len() ==> #[trigger] precedes(sort, s[parent(i)], s[i])
}

/// The position index holds exactly the occupied slots of each value, and
/// only values that occur in the heap have an entry.
pub open spec fn index_consistent<T: Ord>(heap: Seq<T>, index: Map<T, Set<usize>>) -> bool {
    &&& forall|k: usize|
        #![trigger heap[k as int]]
        k < heap.len() ==> index.contains_key(heap[k as int]) && index[heap[k as int]].contains(k)
    &&& forall|v: T, k: usize|
        index.contains_key(v) && #[trigger] index[v].contains(k) ==> k < heap.len() && heap[k as int]
            == v
    &&& forall|v: T| #[trigger] index.contains_key(v) ==> !index[v].is_empty()
}

/// Heap order holds on every edge but the one into slot `k`, and the parent
/// of `k` also precedes the children of `k`: the state while a value rises.
spec fn heap_but_up<T: Ord>(sort: Sort, s: Seq<T>, k: int) -> bool {
    &&& forall|i: int| 0 < i < s.len() && i != k ==> #[trigger] precedes(sort, s[parent(i)], s[i])
    &&& k > 0 ==> forall|c: int|
        0 < c < s.len() && parent(c) == k ==> #[trigger] precedes(sort, s[parent(k)], s[c])
}

/// Heap order holds on every edge but those out of slot `k`, and the parent
/// of `k` also precedes the children of `k`: the state while a value sinks.
spec fn heap_but_down<T: Ord>(sort: Sort, s: Seq<T>, k: int) -> bool {
    &&& forall|i: int|
        0 < i < s.len() && parent(i) != k ==> #[trigger] precedes(sort, s[parent(i)], s[i])
    &&& k > 0 ==> forall|c: int|
        0 < c < s.len() && parent(c) == k ==> #[trigger] precedes(sort, s[parent(k)], s[c])
}

/// `s` with slots `i` and `j` exchanged.
spec fn swapped<T: Ord>(s: Seq<T>, i: int, j: int) -> Seq<T> {
    s.update(i, s[j]).update(j, s[i])
}

/// A rising value that reached the root, or sits under a parent that
/// precedes it, leaves the whole heap in order.
proof fn lemma_up_settled<T: Ord>(sort: Sort, s: Seq<T>, k: int)
    requires
        orderable::<T>(),
        0 <= k < s.len(),
        heap_but_up(sort, s, k),
        k == 0 || precedes(sort, s[parent(k)], s[k]),
    ensures
        is_heap(sort, s),
{
    lemma_order_laws::<T>(sort);
}

/// Exchanging a rising value with a parent it is strictly preferred to
/// moves the one out-of-order edge up a level.
proof fn lemma_up_step<T: Ord>(sort: Sort, s: Seq<T>, k: int)
    requires
        orderable::<T>(),
        0 < k < s.len(),
        heap_but_up(sort, s, k),
        !precedes(sort, s[parent(k)], s[k]),
    ensures
        heap_but_up(sort, swapped(s, parent(k), k), parent(k)),
{
    lemma_order_laws::<T>(sort);
    let p = parent(k);
    let t = swapped(s, p, k);
    assert forall|i: int| 0 < i < t.len() && i != p implies #[trigger] precedes(
        sort,
        t[parent(i)],
        t[i],
    ) by {
        if i == k {
        } else if parent(i) == k {
            assert(precedes(sort, s[parent(k)], s[i]));
        } else if parent(i) == p {
            assert(precedes(sort, s[parent(i)], s[i]));
        } else {
            assert(precedes(sort, s[parent(i)], s[i]));
        }
    }
    if p > 0 {
        assert(precedes(sort, s[parent(p)], s[p]));
        assert forall|c: int| 0 < c < t.len() && parent(c) == p implies #[trigger] precedes(
            sort,
            t[parent(p)],
            t[c],
        ) by {
            if c != k {
                assert(precedes(sort, s[parent(c)], s[c]));
            }
        }
    }
}

/// A sinking value that precedes all its children leaves the whole heap
/// in order.
proof fn lemma_down_settled<T: Ord>(sort: Sort, s: Seq<T>, k: int)
    requires
        orderable::<T>(),
        0 <= k < s.len(),
        heap_but_down(sort, s, k),
        forall|c: int| 0 < c < s.len() && parent(c) == k ==> precedes(sort, s[k], s[c]),
    ensures
        is_heap(sort, s),
{
    lemma_order_laws::<T>(sort);
    assert forall|i: int| 0 < i < s.len() implies #[trigger] precedes(sort, s[parent(i)], s[i]) by {
        if parent(i) == k {
            assert(precedes(sort, s[k], s[i]));
        }
    }
}

/// Exchanging a sinking value with its preferred child, when that child is
/// strictly preferred to it, moves the out-of-order edges down a level.
proof fn lemma_down_step<T: Ord>(sort: Sort, s: Seq<T>, k: int, c: int)
    requires
        orderable::<T>(),
        0 <= k < c < s.len(),
        parent(c) == k,
        heap_but_down(sort, s, k),
        !precedes(sort, s[k], s[c]),
        forall|o: int| 0 < o < s.len() && parent(o) == k ==> precedes(sort, s[c], s[o]),
    ensures
        heap_but_down(sort, swapped(s, k, c), c),
{
    lemma_order_laws::<T>(sort);
    let t = swapped(s, k, c);
    assert forall|i: int| 0 < i < t.len() && parent(i) != c implies #[trigger] precedes(
        sort,
        t[parent(i)],
        t[i],
    ) by {
        if i == k {
            assert(precedes(sort, s[parent(k)], s[c]));
        } else if i == c {
        } else if parent(i) == k {
            assert(precedes(sort, s[c], s[i]));
        } else {
            assert(precedes(sort, s[parent(i)], s[i]));
        }
    }
    assert forall|g: int| 0 < g < t.len() && parent(g) == c implies #[trigger] precedes(
        sort,
        t[parent(c)],
        t[g],
    ) by {
        assert(precedes(sort, s[parent(g)], s[g]));
    }
}

/// `x` is in `m` and may stand above every value of `m`: the value that a
/// queue with policy `sort` and contents `m` hands out next.
pub open spec fn is_top<T: Ord>(sort: Sort, m: Multiset<T>, x: T) -> bool {
    &&& m.count(x) > 0
    &&& forall|y: T| #[trigger] m.count(y) > 0 ==> precedes(sort, x, y)
}

/// `out` is what taking the top out of `m` again and again, until nothing
/// is left, hands out.
pub open spec fn drains<T: Ord>(sort: Sort, m: Multiset<T>, out: Seq<T>) -> bool
    decreases out.len(),
{
    if out.len() == 0 {
        m.len() == 0
    } else {
        is_top(sort, m, out[0]) && drains(sort, m.remove(out[0]), out.drop_first())
    }
}

/// Each value of `out` may stand above every later one.
pub open spec fn sorted_by<T: Ord>(sort: Sort, out: Seq<T>) -> bool {
    forall|i: int, j: int| 0 <= i < j < out.len() ==> precedes(sort, #[trigger] out[i], #[trigger] out[j])
}

/// In a heap the root precedes every slot.
proof fn lemma_root_precedes<T: Ord>(sort: Sort, s: Seq<T>, j: int)
    requires
        orderable::<T>(),
        is_heap(sort, s),
        0 <= j < s.len(),
    ensures
        precedes(sort, s[0], s[j]),
    decreases j,
{
    lemma_order_laws::<T>(sort);
    if j > 0 {
        lemma_root_precedes(sort, s, parent(j));
        assert(precedes(sort, s[parent(j)], s[j]));
    }
}

/// In a non-empty heap the root is the top of the contents.
proof fn lemma_root_is_top<T: Ord>(sort: Sort, s: Seq<T>)
    requires
        orderable::<T>(),
        is_heap(sort, s),
        s.len() > 0,
    ensures
        is_top(sort, s.to_multiset(), s[0]),
{
    lemma_order_laws::<T>(sort);
    assert(s.contains(s[0]));
    assert forall|y: T| #[trigger] s.to_multiset().count(y) > 0 implies precedes(sort, s[0], y) by {
        assert(s.contains(y));
        let j = choose|j: int| 0 <= j < s.len() && s[j] == y;
        lemma_root_precedes(sort, s, j);
    }
}

/// A heap in which slot `k` got a new value (and which may have lost slots
/// past `k`) is one sift away from order: up when the new value is strictly
/// preferred to its parent, else down.
proof fn lemma_replaced<T: Ord>(sort: Sort, s0: Seq<T>, t: Seq<T>, k: int)
    requires
        orderable::<T>(),
        is_heap(sort, s0),
        0 <= k < t.len() <= s0.len(),
        forall|i: int| 0 <= i < t.len() && i != k ==> t[i] == s0[i],
    ensures
        k > 0 && !precedes(sort, t[parent(k)], t[k]) ==> heap_but_up(sort, t, k),
        k == 0 || precedes(sort, t[parent(k)], t[k]) ==> heap_but_down(sort, t, k),
{
    lemma_order_laws::<T>(sort);
    assert forall|i: int| 0 < i < t.len() && i != k && parent(i) != k implies #[trigger] precedes(
        sort,
        t[parent(i)],
        t[i],
    ) by {
        assert(precedes(sort, s0[parent(i)], s0[i]));
    }
    if k > 0 {
        assert(precedes(sort, s0[parent(k)], s0[k]));
        assert forall|c: int| 0 < c < t.len() && parent(c) == k implies #[trigger] precedes(
            sort,
            t[parent(k)],
            t[c],
        ) by {
            assert(precedes(sort, s0[parent(c)], s0[c]));
        }
        if !precedes(sort, t[parent(k)], t[k]) {
            assert forall|c: int| 0 < c < t.len() && parent(c) == k implies #[trigger] precedes(
                sort,
                t[parent(c)],
                t[c],
            ) by {
                assert(precedes(sort, s0[parent(c)], s0[c]));
            }
        }
    }
}

/// Relies on `BTreeSet::first`, documented to return the minimum of the
/// set, or `None` when the set is empty.
#[verifier::external_body]
fn first_slot(slots: &BTreeSet<usize>) -> (r: Option<usize>)
    ensures
        match r {
            Some(k) => slots@.contains(k) && forall|j: usize| slots@.contains(j) ==> k <= j,
            None => slots@.is_empty(),
        },
{
    slots.first().cloned()
}

/// A binary heap of values with a position index.
#[verifier::reject_recursive_types(T)]
pub struct PriorityQueue<T> {
    /// The heap array, in heap order.
    pub heap: Vec<T>,
    /// The ordering policy, fixed when the queue is made.
    pub sort: Sort,
    /// The position index: each stored value to the slots that hold it.
    pub map: HashMap<T, BTreeSet<usize>>,
}

impl<T> View for PriorityQueue<T> {
    type V = Seq<T>;

    /// The values in heap order, slot by slot.
    open spec fn view(&self) -> Seq<T> {
        self.heap@
    }
}

impl<T: Ord + Hash + Copy> PriorityQueue<T> {
    /// The position index as a map from value to its set of slots.
    pub open spec fn positions(&self) -> Map<T, Set<usize>> {
        Map::new(|v: T| self.map@.contains_key(v), |v: T| self.map@[v]@)
    }

    /// The ordering policy that the queue was made with.
    pub open spec fn sort_of(&self) -> Sort {
        self.sort
    }

    /// The heap is in order under the policy and the index matches it.
    pub open spec fn wf(&self) -> bool {
        &&& orderable::<T>()
        &&& is_heap(self.sort, self.heap@)
        &&& index_consistent(self.heap@, self.positions())
    }

    /// An empty queue with the given policy.
    pub fn new(sort: Sort) -> (q: Self)
        requires
            orderable::<T>(),
        ensures
            q.wf(),
            q@ == Seq::<T>::empty(),
            q.sort_of() == sort,
    {
        PriorityQueue { heap: Vec::new(), sort, map: HashMap::new() }
    }

    /// Inserts `elem`; equal values are kept as separate entries.
    pub fn add(&mut self, elem: T)
        requires
            old(self).wf(),
        ensures
            final(self).wf(),
            final(self)@.to_multiset() == old(self)@.to_multiset().insert(elem),
            final(self)@.len() == old(self)@.len() + 1,
            final(self).sort_of() == old(self).sort_of(),
    {
        let n = self.heap.len();
        let mut slots = match self.map.remove(&elem) {
            Some(slots) => slots,
            None => BTreeSet::new(),
        };
        slots.insert(n);
        self.map.insert(elem, slots);
        self.heap.push(elem);
        proof {
            let s0 = old(self).heap@;
            let s = self.heap@;
            let p0 = old(self).positions();
            let p = self.positions();
            assert(s == s0.push(elem));
            assert(p == p0.insert(elem, p[elem]));
            assert forall|k: usize| #![trigger s[k as int]] k < s.len() implies p.contains_key(
                s[k as int],
            ) && p[s[k as int]].contains(k) by {
                if k < n {
                    assert(s[k as int] == s0[k as int]);
                }
            }
            assert forall|v: T, k: usize| p.contains_key(v) && #[trigger] p[v].contains(
                k,
            ) implies k < s.len() && s[k as int] == v by {
                if v != elem || k != n {
                    assert(p0[v].contains(k));
                }
            }
            assert forall|c: int| 0 < c < s.len() && parent(c) == n implies #[trigger] precedes(
                self.sort,
                s[parent(n as int)],
                s[c],
            ) by {}
            assert(s.to_multiset() =~= s0.to_multiset().insert(elem));
        }
        self.sift_up(n);
    }

    /// Takes the value in the last slot out of the heap and out of the index.
    fn pop_last(&mut self) -> (v: T)
        requires
            orderable::<T>(),
            old(self).heap@.len() > 0,
            index_consistent(old(self).heap@, old(self).positions()),
        ensures
            v == old(self).heap@.last(),
            final(self).heap@ == old(self).heap@.remove(old(self).heap@.len() - 1),
            index_consistent(final(self).heap@, final(self).positions()),
            final(self).sort == old(self).sort,
    {
        let last = self.heap.len() - 1;
        let v = self.heap.remove(last);
        if let Some(mut slots) = self.map.remove(&v) {
            slots.remove(&last);
            if !slots.is_empty() {
                self.map.insert(v, slots);
            }
        }
        proof {
            let s0 = old(self).heap@;
            let s = self.heap@;
            let p0 = old(self).positions();
            let p = self.positions();
            assert(p0.contains_key(v) && p0[v].contains(last));
            assert forall|w: T| w != v implies #[trigger] p.contains_key(w) == p0.contains_key(w)
                && (p0.contains_key(w) ==> p[w] == p0[w]) by {}
            assert(p.contains_key(v) ==> p[v] == p0[v].remove(last));
            assert forall|k: usize| #![trigger s[k as int]] k < s.len() implies p.contains_key(
                s[k as int],
            ) && p[s[k as int]].contains(k) by {
                assert(s[k as int] == s0[k as int]);
                assert(p0[s0[k as int]].contains(k));
                if s[k as int] == v {
                    assert(p0[v].remove(last).contains(k));
                }
            }
            assert forall|w: T, k: usize| p.contains_key(w) && #[trigger] p[w].contains(
                k,
            ) implies k < s.len() && s[k as int] == w by {
                assert(p0[w].contains(k));
                assert(k != last);
            }
        }
        v
    }

    /// Takes out the top value: the least under `Min`, the greatest under
    /// `Max`. An empty queue gives `EmptyQueue` and stays as it is.
    pub fn poll(&mut self) -> (r: Result<T, EmptyQueue>)
        requires
            old(self).wf(),
        ensures
            final(self).wf(),
            final(self).sort_of() == old(self).sort_of(),
            r is Ok <==> old(self)@.len() > 0,
            match r {
                Ok(top) => {
                    &&& is_top(old(self).sort_of(), old(self)@.to_multiset(), top)
                    &&& final(self)@.to_multiset() == old(self)@.to_multiset().remove(top)
                    &&& final(self)@.len() == old(self)@.len() - 1
                },
                Err(_) => final(self)@ == old(self)@,
            },
    {
        let n = self.heap.len();
        if n == 0 {
            return Err(EmptyQueue);
        }
        proof {
            lemma_root_is_top(self.sort, self.heap@);
        }
        self.swap(0, n - 1);
        let top = self.pop_last();
        proof {
            let s0 = old(self).heap@;
            let s = self.heap@;
            assert(top == s0[0]);
            assert(s.to_multiset() =~= s0.to_multiset().remove(top));
            if n > 1 {
                lemma_replaced(self.sort, s0, s, 0);
            }
        }
        if n > 1 {
            self.sift_down(0);
        }
        Ok(top)
    }

    /// Removes one occurrence of `elem`, the one in the lowest slot. Removing
    /// a value that is not there changes nothing.
    pub fn remove(&mut self, elem: T)
        requires
            old(self).wf(),
        ensures
            final(self).wf(),
            final(self).sort_of() == old(self).sort_of(),
            old(self)@.contains(elem) ==> final(self)@.to_multiset() == old(self)@.to_multiset().remove(
                elem,
            ) && final(self)@.len() == old(self)@.len() - 1,
            !old(self)@.contains(elem) ==> final(self)@ == old(self)@,
    {
        if let Some(k) = self.get_index(elem) {
            let last = self.heap.len() - 1;
            self.swap(k, last);
            self.pop_last();
            proof {
                let s0 = old(self).heap@;
                let s = self.heap@;
                assert(s.to_multiset() =~= s0.to_multiset().remove(elem));
                if k < last {
                    lemma_replaced(self.sort, s0, s, k as int);
                } else {
                    assert(s =~= s0.subrange(0, last as int));
                    assert(is_heap(self.sort, s)) by {
                        assert forall|i: int| 0 < i < s.len() implies #[trigger] precedes(
                            self.sort,
                            s[parent(i)],
                            s[i],
                        ) by {
                            assert(precedes(self.sort, s0[parent(i)], s0[i]));
                        }
                    }
                }
            }
            if k < last {
                if k > 0 && !self.compare((k - 1) / 2, k) {
                    self.sift_up(k);
                } else {
                    self.sift_down(k);
                }
            }
        }
    }

    /// The lowest slot that holds `elem`, found through the position index.
    pub fn get_index(&self, elem: T) -> (r: Option<usize>)
        requires
            self.wf(),
        ensures
            match r {
                Some(i) => {
                    &&& i < self@.len()
                    &&& self@[i as int] == elem
                    &&& forall|j: int| 0 <= j < i ==> self@[j] != elem
                },
                None => !self@.contains(elem),
            },
    {
        let s = Ghost(self.heap@);
        let p = Ghost(self.positions());
        assert(s@.len() == self.heap.len());
        match self.map.get(&elem) {
            Some(slots) => {
                assert(slots@ == p@[elem]);
                let r = first_slot(slots);
                proof {
                    if let Some(i) = r {
                        assert forall|j: int| 0 <= j < i implies s@[j] != elem by {
                            if s@[j] == elem {
                                assert(p@[elem].contains(j as usize));
                            }
                        }
                    }
                }
                r
            },
            None => {
                assert forall|j: int| 0 <= j < s@.len() implies s@[j] != elem by {
                    assert(p@.contains_key(s@[j as usize as int]));
                }
                None
            },
        }
    }

    /// Whether `elem` is in the queue, answered from the position index.
    pub fn contains(&self, elem: T) -> (r: bool)
        requires
            self.wf(),
        ensures
            r == self@.contains(elem),
    {
        match self.get_index(elem) {
            Some(_) => true,
            None => false,
        }
    }

    /// The number of values in the queue.
    pub fn size(&self) -> (r: usize)
        ensures
            r == self@.len(),
    {
        self.heap.len()
    }

    /// True when slot `i` may stand above slot `j`; a slot past the end
    /// never may, so children that do not exist are never picked.
    fn compare(&self, i: usize, j: usize) -> (r: bool)
        requires
            orderable::<T>(),
        ensures
            r == (i < self.heap@.len() && j < self.heap@.len() && precedes(
                self.sort,
                self.heap@[i as int],
                self.heap@[j as int],
            )),
    {
        if i < self.heap.len() && j < self.heap.len() {
            proof {
                lemma_order_laws::<T>(self.sort);
            }
            let order = self.heap[i].cmp(&self.heap[j]);
            match self.sort {
                Sort::Min => match order {
                    Ordering::Greater => false,
                    _ => true,
                },
                Sort::Max => match order {
                    Ordering::Less => false,
                    _ => true,
                },
            }
        } else {
            false
        }
    }

    /// Records in the index that value `v` has moved from slot `from` to
    /// slot `to`.
    fn move_slot(&mut self, v: T, from: usize, to: usize)
        requires
            orderable::<T>(),
            old(self).positions().contains_key(v),
        ensures
            final(self).positions() == old(self).positions().insert(
                v,
                old(self).positions()[v].remove(from).insert(to),
            ),
            final(self).heap@ == old(self).heap@,
            final(self).sort == old(self).sort,
    {
        if let Some(mut slots) = self.map.remove(&v) {
            slots.remove(&from);
            slots.insert(to);
            self.map.insert(v, slots);
        }
        assert(self.positions() =~= old(self).positions().insert(
            v,
            old(self).positions()[v].remove(from).insert(to),
        ));
    }

    /// Moves the value at `index` towards the root while it is strictly
    /// preferred to its parent. The walk stops at the first parent that
    /// already precedes it, since every edge above is then in order.
    fn sift_up(&mut self, index: usize)
        requires
            orderable::<T>(),
            index < old(self).heap@.len(),
            index_consistent(old(self).heap@, old(self).positions()),
            heap_but_up(old(self).sort, old(self).heap@, index as int),
        ensures
            is_heap(final(self).sort, final(self).heap@),
            index_consistent(final(self).heap@, final(self).positions()),
            final(self).heap@.to_multiset() == old(self).heap@.to_multiset(),
            final(self).heap@.len() == old(self).heap@.len(),
            final(self).sort == old(self).sort,
    {
        let mut k = index;
        loop
            invariant
                orderable::<T>(),
                k < self.heap@.len(),
                index_consistent(self.heap@, self.positions()),
                heap_but_up(self.sort, self.heap@, k as int),
                self.heap@.to_multiset() == old(self).heap@.to_multiset(),
                self.heap@.len() == old(self).heap@.len(),
                self.sort == old(self).sort,
            ensures
                is_heap(self.sort, self.heap@),
                index_consistent(self.heap@, self.positions()),
                self.heap@.to_multiset() == old(self).heap@.to_multiset(),
                self.heap@.len() == old(self).heap@.len(),
                self.sort == old(self).sort,
            decreases k,
        {
            if k == 0 {
                proof {
                    lemma_up_settled(self.sort, self.heap@, 0);
                }
                break;
            }
            let p = (k - 1) / 2;
            if self.compare(p, k) {
                proof {
                    lemma_up_settled(self.sort, self.heap@, k as int);
                }
                break;
            }
            proof {
                lemma_up_step(self.sort, self.heap@, k as int);
            }
            self.swap(p, k);
            k = p;
        }
    }

    /// Moves the value at `index` towards the leaves, each time exchanging
    /// it with the preferred child (the left one on a tie), until no child
    /// is preferred to it. On an empty heap there is nothing to do.
    fn sift_down(&mut self, index: usize)
        requires
            orderable::<T>(),
            index < old(self).heap@.len() || old(self).heap@.len() == 0,
            index_consistent(old(self).heap@, old(self).positions()),
            heap_but_down(old(self).sort, old(self).heap@, index as int),
        ensures
            is_heap(final(self).sort, final(self).heap@),
            index_consistent(final(self).heap@, final(self).positions()),
            final(self).heap@.to_multiset() == old(self).heap@.to_multiset(),
            final(self).heap@.len() == old(self).heap@.len(),
            final(self).sort == old(self).sort,
    {
        let n = self.heap.len();
        if n == 0 {
            return;
        }
        let mut k = index;
        loop
            invariant
                orderable::<T>(),
                k < n,
                n == self.heap@.len(),
                index_consistent(self.heap@, self.positions()),
                heap_but_down(self.sort, self.heap@, k as int),
                self.heap@.to_multiset() == old(self).heap@.to_multiset(),
                n == old(self).heap@.len(),
                self.sort == old(self).sort,
            ensures
                is_heap(self.sort, self.heap@),
                index_consistent(self.heap@, self.positions()),
                self.heap@.to_multiset() == old(self).heap@.to_multiset(),
                self.heap@.len() == old(self).heap@.len(),
                self.sort == old(self).sort,
            decreases n - k,
        {
            if k >= n / 2 {
                proof {
                    lemma_down_settled(self.sort, self.heap@, k as int);
                }
                break;
            }
            let left = 2 * k + 1;
            let right = left + 1;
            let mut child = left;
            if self.compare(right, left) {
                child = right;
            }
            proof {
                lemma_order_laws::<T>(self.sort);
                let s = self.heap@;
                assert forall|o: int| 0 < o < s.len() && parent(o) == k implies precedes(
                    self.sort,
                    s[child as int],
                    s[o],
                ) by {
                    assert(o == left || o == right);
                }
            }
            if self.compare(k, child) {
                proof {
                    lemma_order_laws::<T>(self.sort);
                    let s = self.heap@;
                    assert forall|o: int| 0 < o < s.len() && parent(o) == k implies precedes(
                        self.sort,
                        s[k as int],
                        s[o],
                    ) by {
                        assert(precedes(self.sort, s[child as int], s[o]));
                    }
                    lemma_down_settled(self.sort, s, k as int);
                }
                break;
            }
            proof {
                lemma_down_step(self.sort, self.heap@, k as int, child as int);
            }
            self.swap(k, child);
            k = child;
        }
    }

    /// Exchanges slots `i` and `j` and keeps the position index in step.
    /// This is the one place where values change slots.
    fn swap(&mut self, i: usize, j: usize)
        requires
            orderable::<T>(),
            i < old(self).heap@.len(),
            j < old(self).heap@.len(),
            index_consistent(old(self).heap@, old(self).positions()),
        ensures
            final(self).heap@ == old(self).heap@.update(i as int, old(self).heap@[j as int]).update(
                j as int,
                old(self).heap@[i as int],
            ),
            final(self).heap@.to_multiset() == old(self).heap@.to_multiset(),
            index_consistent(final(self).heap@, final(self).positions()),
            final(self).sort == old(self).sort,
    {
        proof {
            lemma_order_laws::<T>(self.sort);
        }
        let a = self.heap[i];
        let b = self.heap[j];
        self.heap[i] = b;
        self.heap[j] = a;
        if a != b {
            self.move_slot(a, i, j);
            self.move_slot(b, j, i);
        }
        proof {
            let s0 = old(self).heap@;
            let s1 = s0.update(i as int, b);
            assert(s1.to_multiset() == s0.to_multiset().insert(b).remove(a));
            assert(self.heap@.to_multiset() == s1.to_multiset().insert(a).remove(b));
            assert(self.heap@.to_multiset() =~= s0.to_multiset());
            let s = self.heap@;
            let p0 = old(self).positions();
            let p = self.positions();
            if a == b {
                assert(s =~= s0);
            } else {
                assert(p[a] == p0[a].remove(i).insert(j));
                assert(p[b] == p0[b].remove(j).insert(i));
                assert forall|k: usize| #![trigger s[k as int]] k < s.len() implies p.contains_key(
                    s[k as int],
                ) && p[s[k as int]].contains(k) by {
                    if k != i && k != j {
                        assert(p0.contains_key(s0[k as int]) && p0[s0[k as int]].contains(k));
                    }
                }
                assert forall|v: T, k: usize| p.contains_key(v) && #[trigger] p[v].contains(
                    k,
                ) implies k < s.len() && s[k as int] == v by {
                    if v != a && v != b {
                        assert(p0[v].contains(k));
                    } else if k != i && k != j {
                        assert(p0[v].contains(k));
                    }
                }
                assert forall|v: T| #[trigger] p.contains_key(v) implies !p[v].is_empty() by {
                    if v == a {
                        assert(p[v].contains(j));
                    } else if v == b {
                        assert(p[v].contains(i));
                    } else {
                        assert(p[v] == p0[v]);
                    }
                }
            }
        }
    }
}

/// Heap order: after every operation, each non-root slot of a queue is
/// preceded (or tied) by its parent under the queue's policy.
pub proof fn lemma_heap_property<T: Ord + Hash + Copy>(q: &PriorityQueue<T>)
    requires
        q.wf(),
    ensures
        is_heap(q.sort_of(), q@),
{
}

/// Index and array agree: after every operation, each slot is listed under
/// its value, each listed slot holds the value it is listed under, and only
/// values that are present have an entry.
pub proof fn lemma_index_matches_heap<T: Ord + Hash + Copy>(q: &PriorityQueue<T>)
    requires
        q.wf(),
    ensures
        index_consistent(q@, q.positions()),
{
}

/// Round trip: taking the top out until the queue is empty hands out every
/// value that went in, each as often as it went in, in the policy's order.
pub proof fn lemma_drain_sorted<T: Ord>(sort: Sort, m: Multiset<T>, out: Seq<T>)
    requires
        drains(sort, m, out),
    ensures
        out.to_multiset() == m,
        sorted_by(sort, out),
    decreases out.len(),
{
    if out.len() == 0 {
        assert(m =~= Multiset::empty());
    } else {
        let x = out[0];
        let rest = out.drop_first();
        lemma_drain_sorted(sort, m.remove(x), rest);
        assert(out =~= seq![x] + rest);
        assert(out.to_multiset() =~= rest.to_multiset().insert(x)) by {
            vstd::seq_lib::lemma_multiset_commutative(seq![x], rest);
        }
        assert forall|i: int, j: int| 0 <= i < j < out.len() implies precedes(
            sort,
            #[trigger] out[i],
            #[trigger] out[j],
        ) by {
            if i == 0 {
                assert(rest.to_multiset().count(out[j]) > 0) by {
                    assert(rest.contains(rest[j - 1]));
                }
                assert(m.count(out[j]) > 0);
            } else {
                assert(out[i] == rest[i - 1] && out[j] == rest[j - 1]);
            }
        }
    }
}

/// The drain is determined by the contents: taking the top out until
/// nothing is left hands out one and the same sequence, the contents in the
/// policy's order, however equal values sat in the heap.
pub proof fn lemma_drain_unique<T: Ord>(sort: Sort, m: Multiset<T>, out1: Seq<T>, out2: Seq<T>)
    requires
        orderable::<T>(),
        drains(sort, m, out1),
        drains(sort, m, out2),
    ensures
        out1 == out2,
    decreases out1.len(),
{
    lemma_order_laws::<T>(sort);
    if out1.len() == 0 {
        if out2.len() > 0 {
            assert(m.count(out2[0]) > 0);
        }
        assert(out1 =~= out2);
    } else {
        if out2.len() == 0 {
            assert(m.count(out1[0]) > 0);
        }
        let x = out1[0];
        let y = out2[0];
        assert(precedes(sort, x, y) && precedes(sort, y, x));
        assert(x == y) by {
            reveal(obeys_partial_cmp_spec_properties);
            reveal(obeys_cmp_partial_ord);
            reveal(obeys_cmp_ord);
            reveal(obeys_concrete_eq);
            assert(x.partial_cmp_spec(&y) == Some(x.cmp_spec(&y)));
            assert(y.partial_cmp_spec(&x) == Some(y.cmp_spec(&x)));
            assert(x.cmp_spec(&y) == Ordering::Equal);
            assert(x.eq_spec(&y));
        }
        lemma_drain_unique(sort, m.remove(x), out1.drop_first(), out2.drop_first());
        assert(out1 =~= seq![x] + out1.drop_first());
        assert(out2 =~= seq![y] + out2.drop_first());
    }
}

} // verus!
