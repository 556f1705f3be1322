//! A disjoint-set forest (union-find) whose classes carry a value.

use std::marker::PhantomData;
use vstd::prelude::*;

verus! {

/// Keys of a `DisjointSet`: a key stands for the index of a node.
pub trait Key: Sized {
    spec fn spec_index(&self) -> u32;

    fn make(index: u32) -> (k: Self)
        ensures
            k.spec_index() == index,
    ;

    fn index(&self) -> (i: u32)
        ensures
            i == self.spec_index(),
    ;
}

impl Key for u32 {
    open spec fn spec_index(&self) -> u32 {
        *self
    }

    fn make(index: u32) -> (k: Self) {
        index
    }

    fn index(&self) -> (i: u32) {
        *self
    }
}

/// Values carried by the classes of a `DisjointSet`. When two classes are
/// merged, `unify` may combine their values into the value of the new class.
pub trait Value: Sized {
    spec fn spec_unify(val1: Self, val2: Self) -> Option<Self>;

    fn unify(val1: &Self, val2: &Self) -> (r: Option<Self>)
        ensures
            r == Self::spec_unify(*val1, *val2),
    ;
}

/// Merging two classes of characters keeps the smaller one.
impl Value for char {
    open spec fn spec_unify(val1: char, val2: char) -> Option<char> {
        Some(if val1 <= val2 { val1 } else { val2 })
    }

    fn unify(val1: &char, val2: &char) -> (r: Option<char>) {
        Some(if *val1 <= *val2 { *val1 } else { *val2 })
    }
}

#[derive(Debug)]
struct Node<V> {
    parent: u32,
    rank: u32,
    value: V,
}

pub struct DisjointSet<K, V> {
    nodes: Vec<Node<V>>,
    phantom: PhantomData<K>,
    /// The representative of each node.
    root: Ghost<Seq<nat>>,
    /// The number of parent links from each node to its representative.
    dist: Ghost<Seq<nat>>,
}

impl<K: Key, V: Value> DisjointSet<K, V> {
    /// The forest is well formed: every parent chain ends in a
    /// representative, which is its own parent.
    pub closed spec fn wf(&self) -> bool {
        let n = self.nodes@.len();
        &&& n <= u32::MAX as int + 1
        &&& self.root@.len() == n
        &&& self.dist@.len() == n
        &&& forall|i: int| #![trigger self.nodes@[i]] 0 <= i < n ==> {
            let p = self.nodes@[i].parent as int;
            let r = self.root@[i] as int;
            &&& 0 <= p < n
            &&& 0 <= r < n
            &&& self.nodes@[r].parent as int == r
            &&& p == i ==> self.dist@[i] == 0 && r == i
            &&& p != i ==> self.dist@[i] == self.dist@[p] + 1 && self.root@[i] == self.root@[p]
        }
        &&& forall|r: int|
            0 <= r < n && #[trigger] self.nodes@[r].parent as int == r ==> (self.nodes@[r].rank as int)
                < self.members(r).len()
    }

    /// The nodes whose representative is `r`.
    pub closed spec fn members(&self, r: int) -> Set<int> {
        Set::new(|i: int| 0 <= i < self.nodes@.len() && self.root@[i] as int == r)
    }

    proof fn lemma_members_bounded(&self, r: int)
        ensures
            self.members(r).finite(),
            self.members(r).len() <= self.nodes@.len(),
    {
        let n = self.nodes@.len() as int;
        vstd::set_lib::lemma_int_range(0, n);
        assert(self.members(r).subset_of(vstd::set_lib::set_int_range(0, n)));
        vstd::set_lib::lemma_len_subset(self.members(r), vstd::set_lib::set_int_range(0, n));
    }

    /// The number of nodes.
    pub closed spec fn len(&self) -> nat {
        self.nodes@.len()
    }

    /// The representative of node `i`.
    pub closed spec fn repr(&self, i: int) -> int {
        self.root@[i] as int
    }

    /// The rank kept at node `i`.
    pub closed spec fn rank_of(&self, i: int) -> u32 {
        self.nodes@[i].rank
    }

    /// The value kept at node `i` (meaningful at representatives).
    pub closed spec fn node_value(&self, i: int) -> V {
        self.nodes@[i].value
    }

    /// The value of the class of node `i`.
    pub open spec fn value_of(&self, i: int) -> V {
        self.node_value(self.repr(i))
    }

    /// Nodes `i` and `j` are in one class.
    pub open spec fn same(&self, i: int, j: int) -> bool {
        self.repr(i) == self.repr(j)
    }

    pub proof fn lemma_repr(&self, i: int)
        requires
            self.wf(),
            0 <= i < self.len(),
        ensures
            0 <= self.repr(i) < self.len(),
            self.repr(self.repr(i)) == self.repr(i),
    {
        let _ = self.nodes@[i];
        let r = self.root@[i] as int;
        assert(self.nodes@[r].parent as int == r);
    }

    pub fn with_capacity(capacity: usize) -> (s: Self)
        ensures
            s.wf(),
            s.len() == 0,
    {
        DisjointSet {
            nodes: Vec::with_capacity(capacity),
            phantom: PhantomData,
            root: Ghost(Seq::empty()),
            dist: Ghost(Seq::empty()),
        }
    }

    pub fn reset(&mut self)
        ensures
            final(self).wf(),
            final(self).len() == 0,
    {
        self.nodes.clear();
        self.root = Ghost(Seq::empty());
        self.dist = Ghost(Seq::empty());
    }

    /// Adds a new class holding `value` alone; answers its key.
    pub fn add(&mut self, value: V) -> (k: K)
        requires
            old(self).wf(),
            old(self).len() <= u32::MAX,
        ensures
            final(self).wf(),
            k.spec_index() == old(self).len(),
            final(self).len() == old(self).len() + 1,
            final(self).repr(k.spec_index() as int) == k.spec_index(),
            final(self).node_value(k.spec_index() as int) == value,
            final(self).rank_of(k.spec_index() as int) == 0,
            forall|i: int|
                0 <= i < old(self).len() ==> final(self).repr(i) == old(self).repr(i)
                    && final(self).node_value(i) == old(self).node_value(i)
                    && final(self).rank_of(i) == old(self).rank_of(i),
    {
        let parent = self.nodes.len() as u32;
        let rank: u32 = 0;
        let node = Node { parent, rank, value };
        self.nodes.push(node);
        self.root = Ghost(self.root@.push(parent as nat));
        self.dist = Ghost(self.dist@.push(0));
        assert forall|i: int| #![trigger self.nodes@[i]] 0 <= i < self.nodes@.len() implies {
            let p = self.nodes@[i].parent as int;
            let r = self.root@[i] as int;
            &&& 0 <= p < self.nodes@.len()
            &&& 0 <= r < self.nodes@.len()
            &&& self.nodes@[r].parent as int == r
            &&& p == i ==> self.dist@[i] == 0 && r == i
            &&& p != i ==> self.dist@[i] == self.dist@[p] + 1 && self.root@[i] == self.root@[p]
        } by {
            if i < self.nodes@.len() - 1 {
                assert(self.nodes@[i] == old(self).nodes@[i]);
                let r = old(self).root@[i] as int;
                assert(old(self).nodes@[r] == self.nodes@[r]);
                let p = self.nodes@[i].parent as int;
                assert(old(self).nodes@[p] == self.nodes@[p]);
            }
        }
        let ghost n0 = old(self).nodes@.len() as int;
        assert forall|r: int|
            0 <= r < self.nodes@.len() && #[trigger] self.nodes@[r].parent as int == r implies (
            self.nodes@[r].rank as int) < self.members(r).len() by {
            if r == n0 {
                assert forall|i: int| self.members(r).contains(i) <==> i == n0 by {
                    if 0 <= i < n0 {
                        let _ = old(self).nodes@[i];
                        assert(self.root@[i] == old(self).root@[i]);
                    }
                }
                assert(self.members(r) =~= set![n0]);
            } else {
                assert(self.nodes@[r] == old(self).nodes@[r]);
                assert(self.members(r) =~= old(self).members(r));
            }
        }
        Key::make(parent)
    }

    /// Follows parent links from `key` to its representative.
    fn find_repr_node(&self, key: K) -> (r: usize)
        requires
            self.wf(),
            key.spec_index() < self.len(),
        ensures
            r == self.repr(key.spec_index() as int),
    {
        let mut node = key.index() as usize;
        loop
            invariant
                self.wf(),
                node < self.nodes@.len(),
                self.root@[node as int] == self.root@[key.spec_index() as int],
            decreases self.dist@[node as int],
        {
            let parent = self.nodes[node].parent as usize;
            if node == parent {
                return node;
            } else {
                node = parent;
            }
        }
    }

    /// Whether `key1` and `key2` are in one class.
    pub fn same_class(&self, key1: K, key2: K) -> (r: bool)
        requires
            self.wf(),
            key1.spec_index() < self.len(),
            key2.spec_index() < self.len(),
        ensures
            r == self.same(key1.spec_index() as int, key2.spec_index() as int),
    {
        self.find_repr_node(key1) == self.find_repr_node(key2)
    }

    /// Merges the classes of `key1` and `key2`.
    pub fn merge(&mut self, key1: K, key2: K)
        requires
            old(self).wf(),
            key1.spec_index() < old(self).len(),
            key2.spec_index() < old(self).len(),
        ensures
            final(self).wf(),
            final(self).len() == old(self).len(),
            final(self).same(key1.spec_index() as int, key2.spec_index() as int),
            forall|i: int, j: int|
                0 <= i < old(self).len() && 0 <= j < old(self).len() ==> (#[trigger] final(self).same(i, j)
                    <==> (old(self).same(i, j)
                        || (old(self).same(i, key1.spec_index() as int) && old(self).same(j, key2.spec_index() as int))
                        || (old(self).same(i, key2.spec_index() as int) && old(self).same(j, key1.spec_index() as int)))),
            ({
                let r1 = old(self).repr(key1.spec_index() as int);
                let r2 = old(self).repr(key2.spec_index() as int);
                let rk1 = old(self).rank_of(r1);
                let rk2 = old(self).rank_of(r2);
                let lo = if rk1 <= rk2 { r2 } else { r1 };
                let hi = if rk1 <= rk2 { r1 } else { r2 };
                let inc: int = if rk1 == rk2 { 1 } else { 0 };
                let new_rank = if rk1 <= rk2 { rk1 + inc } else { rk2 + inc };
                if r1 == r2 {
                    forall|i: int|
                        0 <= i < old(self).len() ==> final(self).repr(i) == old(self).repr(i)
                            && final(self).node_value(i) == old(self).node_value(i)
                            && final(self).rank_of(i) == old(self).rank_of(i)
                } else {
                    &&& forall|i: int|
                        0 <= i < old(self).len() ==> #[trigger] final(self).repr(i) == (if old(
                            self,
                        ).repr(i) == lo {
                            hi
                        } else {
                            old(self).repr(i)
                        })
                    &&& final(self).rank_of(hi) == new_rank
                    &&& final(self).node_value(hi) == (match V::spec_unify(
                        old(self).node_value(lo),
                        old(self).node_value(hi),
                    ) {
                        Some(v) => v,
                        None => old(self).node_value(hi),
                    })
                    &&& forall|i: int|
                        0 <= i < old(self).len() && i != hi ==> #[trigger] final(self).node_value(i)
                            == old(self).node_value(i)
                    &&& forall|i: int|
                        0 <= i < old(self).len() && i != hi ==> #[trigger] final(self).rank_of(i)
                            == old(self).rank_of(i)
                }
            }),
    {
        let rep1 = self.find_repr_node(key1);
        let rep2 = self.find_repr_node(key2);
        proof {
            self.lemma_repr(key1.spec_index() as int);
            self.lemma_repr(key2.spec_index() as int);
        }
        if rep1 != rep2 {
            let n1_rank = self.nodes[rep1].rank;
            let n2_rank = self.nodes[rep2].rank;
            let inc: u32 = if n1_rank == n2_rank { 1 } else { 0 };
            let ghost n = self.nodes@.len() as int;
            proof {
                self.lemma_members_bounded(rep1 as int);
                self.lemma_members_bounded(rep2 as int);
                let m1 = self.members(rep1 as int);
                let m2 = self.members(rep2 as int);
                assert(m1.disjoint(m2));
                vstd::set_lib::lemma_set_disjoint_lens(m1, m2);
                vstd::set_lib::lemma_int_range(0, n);
                assert(m1.union(m2).subset_of(vstd::set_lib::set_int_range(0, n)));
                vstd::set_lib::lemma_len_subset(m1.union(m2), vstd::set_lib::set_int_range(0, n));
                assert(self.nodes@[rep1 as int].parent as int == rep1);
                assert(self.nodes@[rep2 as int].parent as int == rep2);
            }
            let (lo, hi, rank) = if n1_rank <= n2_rank {
                (rep2, rep1, n1_rank + inc)
            } else {
                (rep1, rep2, n2_rank + inc)
            };
            let ghost old_self = *self;
            let unified = V::unify(&self.nodes[lo].value, &self.nodes[hi].value);
            self.nodes[lo].parent = hi as u32;
            self.nodes[hi].rank = rank;
            if let Some(value) = unified {
                self.nodes[hi].value = value;
            }
            let ghost lo_i = lo as int;
            let ghost hi_i = hi as int;
            self.root = Ghost(
                Seq::new(
                    n as nat,
                    |i: int|
                        if old_self.root@[i] as int == lo_i {
                            hi_i as nat
                        } else {
                            old_self.root@[i]
                        },
                ),
            );
            self.dist = Ghost(
                Seq::new(
                    n as nat,
                    |i: int|
                        if old_self.root@[i] as int == lo_i {
                            old_self.dist@[i] + 1
                        } else {
                            old_self.dist@[i]
                        },
                ),
            );
            assert forall|i: int| #![trigger self.nodes@[i]] 0 <= i < n implies {
                let p = self.nodes@[i].parent as int;
                let r = self.root@[i] as int;
                &&& 0 <= p < n
                &&& 0 <= r < n
                &&& self.nodes@[r].parent as int == r
                &&& p == i ==> self.dist@[i] == 0 && r == i
                &&& p != i ==> self.dist@[i] == self.dist@[p] + 1 && self.root@[i] == self.root@[p]
            } by {
                let op = old_self.nodes@[i].parent as int;
                let orr = old_self.root@[i] as int;
                assert(old_self.nodes@[orr].parent as int == orr);
                assert(old_self.nodes@[op].parent as int == op || true);
                if i != lo_i {
                    assert(self.nodes@[i].parent == old_self.nodes@[i].parent);
                }
                if op != i {
                    assert(old_self.root@[i] == old_self.root@[op]);
                }
            }
            assert forall|r: int|
                0 <= r < n && #[trigger] self.nodes@[r].parent as int == r implies (
                self.nodes@[r].rank as int) < self.members(r).len() by {
                assert(r != lo_i);
                if r == hi_i {
                    let ml = old_self.members(lo_i);
                    let mh = old_self.members(hi_i);
                    assert(self.members(r) =~= ml.union(mh));
                    assert(old_self.nodes@[lo_i].parent as int == lo_i);
                    assert(old_self.nodes@[hi_i].parent as int == hi_i);
                    old_self.lemma_members_bounded(lo_i);
                    old_self.lemma_members_bounded(hi_i);
                    assert(ml.disjoint(mh));
                    vstd::set_lib::lemma_set_disjoint_lens(ml, mh);
                } else {
                    assert(self.nodes@[r] == old_self.nodes@[r]);
                    assert(self.members(r) =~= old_self.members(r));
                }
            }
        }
    }

    /// The value of the class of `key`, to read.
    pub fn get(&self, key: K) -> (v: &V)
        requires
            self.wf(),
            key.spec_index() < self.len(),
        ensures
            *v == self.value_of(key.spec_index() as int),
    {
        let repr = self.find_repr_node(key);
        proof {
            self.lemma_repr(key.spec_index() as int);
        }
        &self.nodes[repr].value
    }

    /// The value of the class of `key`, to read or to change.
    pub fn find(&mut self, key: K) -> (v: &mut V)
        requires
            old(self).wf(),
            key.spec_index() < old(self).len(),
        ensures
            *v == old(self).value_of(key.spec_index() as int),
            final(self).wf(),
            final(self).len() == old(self).len(),
            forall|i: int|
                0 <= i < old(self).len() ==> final(self).repr(i) == old(self).repr(i)
                    && final(self).rank_of(i) == old(self).rank_of(i),
            final(self).node_value(old(self).repr(key.spec_index() as int)) == *final(v),
            forall|i: int|
                0 <= i < old(self).len() && i != old(self).repr(key.spec_index() as int)
                    ==> #[trigger] final(self).node_value(i) == old(self).node_value(i),
    {
        let repr = self.find_repr_node(key);
        proof {
            self.lemma_repr(key.spec_index() as int);
        }
        &mut self.nodes[repr].value
    }
}

} // verus!
