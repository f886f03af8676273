//! A disjoint-set forest: nodes are named by values of `T`, labelled by
//! position, and linked through a parent array whose roots name the sets.

use std::collections::HashMap;
use std::hash::Hash;
use vstd::prelude::*;
use vstd::std_specs::hash::{builds_valid_hashers, obeys_key_model};

verus! {

broadcast use vstd::std_specs::hash::group_hash_axioms;

/// The node reached from `i` by following `k` parent links.
pub open spec fn ancestor(parents: Seq<usize>, i: int, k: nat) -> int
    decreases k,
{
    if k == 0 {
        i
    } else {
        parents[ancestor(parents, i, (k - 1) as nat)] as int
    }
}

/// `r` is a root (its own parent) and is reached from `i` by parent links.
pub open spec fn root_of(parents: Seq<usize>, i: int, r: int) -> bool {
    &&& 0 <= r < parents.len()
    &&& parents[r] == r
    &&& exists|k: nat| ancestor(parents, i, k) == r
}

/// How many entries of `parents` are `r`: the size used to pick which root
/// goes under the other.
pub open spec fn count_of(parents: Seq<usize>, r: usize) -> nat
    decreases parents.len(),
{
    if parents.len() == 0 {
        0
    } else {
        count_of(parents.drop_last(), r) + if parents.last() == r {
            1nat
        } else {
            0nat
        }
    }
}

/// The parent array after linking the roots `r1` and `r2`: the root with
/// the smaller count goes under the other, and `r2` under `r1` on a tie.
pub open spec fn linked(parents: Seq<usize>, r1: usize, r2: usize) -> Seq<usize> {
    if count_of(parents, r1) >= count_of(parents, r2) {
        parents.update(r2 as int, r1)
    } else {
        parents.update(r1 as int, r2)
    }
}

/// A disjoint-set forest over named nodes.
#[verifier::reject_recursive_types(T)]
pub struct UnionFind<T> {
    map: HashMap<T, usize>,
    /// The parent of each node label; a root is its own parent.
    pub array: Vec<usize>,
    rank: Ghost<Seq<nat>>,
    rank_bound: Ghost<nat>,
}

proof fn lemma_ancestor_of_root(parents: Seq<usize>, r: int, k: nat)
    requires
        0 <= r < parents.len(),
        parents[r] == r,
    ensures
        ancestor(parents, r, k) == r,
    decreases k,
{
    if k > 0 {
        lemma_ancestor_of_root(parents, r, (k - 1) as nat);
    }
}

proof fn lemma_ancestor_split(parents: Seq<usize>, i: int, a: nat, b: nat)
    ensures
        ancestor(parents, i, a + b) == ancestor(parents, ancestor(parents, i, a), b),
    decreases b,
{
    if b > 0 {
        lemma_ancestor_split(parents, i, a, (b - 1) as nat);
        assert((a + b - 1) as nat == a + (b - 1) as nat);
    }
}

/// Each node has one root: following parent links from a node never
/// reaches two different roots.
pub proof fn lemma_root_unique(parents: Seq<usize>, i: int, r1: int, r2: int)
    requires
        root_of(parents, i, r1),
        root_of(parents, i, r2),
    ensures
        r1 == r2,
{
    let k1 = choose|k: nat| ancestor(parents, i, k) == r1;
    let k2 = choose|k: nat| ancestor(parents, i, k) == r2;
    if k1 <= k2 {
        lemma_ancestor_split(parents, i, k1, (k2 - k1) as nat);
        lemma_ancestor_of_root(parents, r1, (k2 - k1) as nat);
    } else {
        lemma_ancestor_split(parents, i, k2, (k1 - k2) as nat);
        lemma_ancestor_of_root(parents, r2, (k1 - k2) as nat);
    }
}

impl<T> View for UnionFind<T> {
    type V = Seq<usize>;

    /// The parent of each node label.
    closed spec fn view(&self) -> Seq<usize> {
        self.array@
    }
}

impl<T: Eq + Hash> UnionFind<T> {
    /// The label of each named node.
    pub closed spec fn labels(&self) -> Map<T, usize> {
        self.map@
    }

    /// Every parent is a node, every link climbs to a higher rank (so the
    /// links form a forest), and every label names a node.
    pub closed spec fn wf(&self) -> bool {
        let n = self.array@.len();
        &&& self.rank@.len() == n
        &&& forall|i: int| 0 <= i < n ==> (#[trigger] self.array@[i]) < n
        &&& forall|i: int|
            0 <= i < n && self.array@[i] != i ==> self.rank@[i] < self.rank@[
                #[trigger] self.array@[i] as int
            ]
        &&& forall|i: int| 0 <= i < n ==> #[trigger] self.rank@[i] <= self.rank_bound@
        &&& obeys_key_model::<T>() ==> forall|k: T| #[trigger]
            self.map@.contains_key(k) ==> self.map@[k] < n
    }

    /// One set per node: node `i` of `nodes` gets label `i` and is its own
    /// root. A name given twice keeps the label of its last place.
    pub fn new(nodes: Vec<T>) -> (uf: Self)
        ensures
            uf.wf(),
            uf@.len() == nodes@.len(),
            forall|i: int| 0 <= i < nodes@.len() ==> uf@[i] == i,
            obeys_key_model::<T>() && builds_valid_hashers::<std::hash::RandomState>() ==> {
                &&& forall|k: T| #[trigger]
                    uf.labels().contains_key(k) ==> uf.labels()[k] < nodes@.len() && nodes@[uf.labels()[k] as int] == k
                &&& forall|j: int|
                    0 <= j < nodes@.len() ==> #[trigger] uf.labels().contains_key(nodes@[j])
                        && uf.labels()[nodes@[j]] >= j
            },
    {
        let n = nodes.len();
        let mut array: Vec<usize> = Vec::new();
        let mut i: usize = 0;
        while i < n
            invariant
                i <= n,
                array@.len() == i,
                forall|j: int| 0 <= j < i ==> array@[j] == j,
            decreases n - i,
        {
            array.push(i);
            i += 1;
        }
        let mut map: HashMap<T, usize> = HashMap::new();
        let mut items = nodes;
        let mut idx: usize = n;
        while idx > 0
            invariant
                idx <= n,
                n == nodes@.len(),
                items@ == nodes@.take(idx as int),
                obeys_key_model::<T>() && builds_valid_hashers::<std::hash::RandomState>() ==> {
                    &&& forall|k: T| #[trigger]
                        map@.contains_key(k) ==> idx <= map@[k] < n && nodes@[map@[k] as int] == k
                    &&& forall|j: int|
                        idx <= j < n ==> #[trigger] map@.contains_key(nodes@[j]) && map@[nodes@[j]]
                            >= j
                },
            decreases idx,
        {
            match items.pop() {
                Some(node) => {
                    idx -= 1;
                    assert(node == nodes@[idx as int]);
                    if !map.contains_key(&node) {
                        map.insert(node, idx);
                    }
                    assert(items@ =~= nodes@.take(idx as int));
                },
                None => {
                    idx = 0;
                },
            }
        }
        let uf = UnionFind {
            map,
            array,
            rank: Ghost(Seq::new(n as nat, |i: int| 0nat)),
            rank_bound: Ghost(0),
        };
        uf
    }

    /// The root of the set that holds node `node`.
    pub fn find(&self, node: usize) -> (root: usize)
        requires
            self.wf(),
            node < self@.len(),
        ensures
            root_of(self@, node as int, root as int),
    {
        let mut root = self.array[node];
        let ghost mut steps: nat = 1;
        assert(ancestor(self.array@, node as int, 0) == node);
        while self.array[root] != root
            invariant
                self.wf(),
                root < self.array@.len(),
                ancestor(self.array@, node as int, steps) == root,
            decreases self.rank_bound@ - self.rank@[root as int],
        {
            root = self.array[root];
            proof {
                steps = steps + 1;
            }
        }
        root
    }

    /// How many entries of the parent array are `root`.
    fn count(&self, root: usize) -> (r: usize)
        ensures
            r == count_of(self.array@, root),
    {
        let mut r: usize = 0;
        let mut i: usize = 0;
        while i < self.array.len()
            invariant
                i <= self.array@.len(),
                r == count_of(self.array@.take(i as int), root),
                r <= i,
            decreases self.array@.len() - i,
        {
            assert(self.array@.take(i + 1).drop_last() =~= self.array@.take(i as int));
            if self.array[i] == root {
                r += 1;
            }
            i += 1;
        }
        assert(self.array@.take(i as int) =~= self.array@);
        r
    }

    /// Merges the sets of the nodes named `node1` and `node2`; a name that
    /// has no label changes nothing.
    pub fn union(&mut self, node1: T, node2: T)
        requires
            old(self).wf(),
        ensures
            final(self).wf(),
            final(self).labels() == old(self).labels(),
            obeys_key_model::<T>() && builds_valid_hashers::<std::hash::RandomState>() ==> {
                if old(self).labels().contains_key(node1) && old(self).labels().contains_key(
                    node2,
                ) {
                    exists|r1: int, r2: int|
                        {
                            &&& root_of(old(self)@, old(self).labels()[node1] as int, r1)
                            &&& root_of(old(self)@, old(self).labels()[node2] as int, r2)
                            &&& final(self)@ == linked(
                                old(self)@,
                                r1 as usize,
                                r2 as usize,
                            )
                        }
                } else {
                    final(self)@ == old(self)@
                }
            },
    {
        let n = self.array.len();
        let l1 = match self.map.get(&node1) {
            Some(l) => *l,
            None => n,
        };
        let l2 = match self.map.get(&node2) {
            Some(l) => *l,
            None => n,
        };
        if l1 < n && l2 < n {
            let root1 = self.find(l1);
            let root2 = self.find(l2);
            let rank1 = self.count(root1);
            let rank2 = self.count(root2);
            let (parent_node, child_node) = if rank1 >= rank2 {
                (root1, root2)
            } else {
                (root2, root1)
            };
            proof {
                if parent_node != child_node {
                    let rp = self.rank@[parent_node as int];
                    let rc = self.rank@[child_node as int];
                    let new_rank = if rp > rc {
                        rp
                    } else {
                        rc + 1
                    };
                    self.rank@ = self.rank@.update(parent_node as int, new_rank);
                    self.rank_bound@ = self.rank_bound@ + 1;
                }
            }
            self.array.set(child_node, parent_node);
            assert(self.array@ == linked(old(self).array@, root1, root2));
        }
    }
}

} // verus!
