//! A map with nested scopes: a lookup sees the innermost binding of a key,
//! and leaving a scope forgets every binding made inside it.

use vstd::prelude::*;

verus! {

/// Keys of a `ScopedMap`: equality of keys is equality of their views.
pub trait MapKey: View + Sized {
    fn key_eq(&self, other: &Self) -> (r: bool)
        ensures
            r == (self@ == other@),
    ;
}

impl MapKey for u32 {
    fn key_eq(&self, other: &Self) -> (r: bool) {
        *self == *other
    }
}

impl MapKey for i32 {
    fn key_eq(&self, other: &Self) -> (r: bool) {
        *self == *other
    }
}

impl MapKey for String {
    fn key_eq(&self, other: &Self) -> (r: bool) {
        *self == *other
    }
}

/// The innermost binding of `k` in a stack of scopes (the last scope is the
/// innermost one).
pub open spec fn lookup<K, V>(scopes: Seq<Map<K, V>>, k: K) -> Option<V>
    decreases scopes.len(),
{
    if scopes.len() == 0 {
        None
    } else if scopes.last().contains_key(k) {
        Some(scopes.last()[k])
    } else {
        lookup(scopes.drop_last(), k)
    }
}

/// The index of the innermost scope that binds `k`, or -1 where none does.
pub open spec fn innermost<K, V>(scopes: Seq<Map<K, V>>, k: K) -> int
    decreases scopes.len(),
{
    if scopes.len() == 0 {
        -1
    } else if scopes.last().contains_key(k) {
        scopes.len() - 1
    } else {
        innermost(scopes.drop_last(), k)
    }
}

/// The innermost scope that binds `k` gives the lookup of `k`.
pub proof fn lemma_innermost<K, V>(scopes: Seq<Map<K, V>>, k: K)
    ensures
        -1 <= innermost(scopes, k) < scopes.len(),
        innermost(scopes, k) == -1 <==> lookup(scopes, k) is None,
        innermost(scopes, k) >= 0 ==> scopes[innermost(scopes, k)].contains_key(k) && lookup(
            scopes,
            k,
        ) == Some(scopes[innermost(scopes, k)][k]),
        forall|j: int|
            innermost(scopes, k) < j < scopes.len() ==> !(#[trigger] scopes[j]).contains_key(k),
    decreases scopes.len(),
{
    if scopes.len() > 0 && !scopes.last().contains_key(k) {
        lemma_innermost(scopes.drop_last(), k);
        assert forall|j: int| innermost(scopes, k) < j < scopes.len() implies !(
        #[trigger] scopes[j]).contains_key(k) by {
            if j < scopes.len() - 1 {
                assert(scopes.drop_last()[j] == scopes[j]);
            }
        }
    }
}

pub struct ScopedMap<K: MapKey, V> {
    scopes: Vec<Vec<(K, V)>>,
}

/// The map a list of bindings stands for: a later binding of a key
/// overrides an earlier one.
pub open spec fn scope_map<K: View, V>(s: Seq<(K, V)>) -> Map<<K as View>::V, V>
    decreases s.len(),
{
    if s.len() == 0 {
        Map::empty()
    } else {
        scope_map(s.drop_last()).insert(s.last().0@, s.last().1)
    }
}

/// No key is bound twice in `s`.
pub open spec fn distinct_keys<K: View, V>(s: Seq<(K, V)>) -> bool {
    forall|i: int, j: int|
        0 <= i < s.len() && 0 <= j < s.len() && i != j ==> #[trigger] s[i].0@ != #[trigger] s[j].0@
}

impl<K: MapKey, V> View for ScopedMap<K, V> {
    type V = Seq<Map<<K as View>::V, V>>;

    closed spec fn view(&self) -> Seq<Map<<K as View>::V, V>> {
        Seq::new(self.scopes@.len(), |j: int| scope_map(self.scopes@[j]@))
    }
}

/// `s` lists the bindings of `m`, each key once.
pub open spec fn lists<K: View, V>(s: Seq<(K, V)>, m: Map<<K as View>::V, V>) -> bool {
    &&& forall|i: int|
        0 <= i < s.len() ==> #[trigger] m.contains_key(s[i].0@) && m[s[i].0@] == s[i].1
    &&& forall|k: <K as View>::V| m.contains_key(k) ==> exists|i: int| 0 <= i < s.len() && #[trigger] s[i].0@ == k
    &&& distinct_keys(s)
}

/// A list whose keys are distinct lists the map it stands for.
proof fn lemma_scope_map<K: View, V>(s: Seq<(K, V)>)
    requires
        distinct_keys(s),
    ensures
        lists(s, scope_map(s)),
    decreases s.len(),
{
    if s.len() > 0 {
        let t = s.drop_last();
        let n = s.len() - 1;
        assert forall|i: int, j: int| 0 <= i < t.len() && 0 <= j < t.len() && i != j implies #[trigger] t[i].0@
            != #[trigger] t[j].0@ by {
            assert(t[i] == s[i] && t[j] == s[j]);
        }
        lemma_scope_map(t);
        let m = scope_map(s);
        assert forall|i: int| 0 <= i < s.len() implies #[trigger] m.contains_key(s[i].0@) && m[s[i].0@]
            == s[i].1 by {
            if i < n {
                assert(t[i] == s[i]);
                assert(s[i].0@ != s[n].0@);
            }
        }
        assert forall|k: <K as View>::V| m.contains_key(k) implies exists|i: int| 0 <= i < s.len() && #[trigger] s[i].0@ == k by {
            if k != s[n].0@ {
                let i = choose|i: int| 0 <= i < t.len() && #[trigger] t[i].0@ == k;
                assert(s[i] == t[i]);
            }
        }
    }
}

/// A list of bindings lists one map at most.
proof fn lemma_lists_unique<K: View, V>(
    s: Seq<(K, V)>,
    m1: Map<<K as View>::V, V>,
    m2: Map<<K as View>::V, V>,
)
    requires
        lists(s, m1),
        lists(s, m2),
    ensures
        m1 == m2,
{
    assert forall|k: <K as View>::V| m1.contains_key(k) implies m2.contains_key(k) && m1[k] == m2[k] by {
        let i = choose|i: int| 0 <= i < s.len() && #[trigger] s[i].0@ == k;
        assert(m1.contains_key(s[i].0@) && m2.contains_key(s[i].0@));
    }
    assert forall|k: <K as View>::V| m2.contains_key(k) implies m1.contains_key(k) by {
        let i = choose|i: int| 0 <= i < s.len() && #[trigger] s[i].0@ == k;
        assert(m1.contains_key(s[i].0@));
    }
    assert(m1 =~= m2);
}

impl<K: MapKey, V> ScopedMap<K, V> {
    /// The representation is sound: there is an outermost scope, the depth
    /// fits in `u32`, and no scope binds a key twice.
    pub closed spec fn wf(&self) -> bool {
        &&& 1 <= self.scopes@.len() <= u32::MAX as int + 1
        &&& forall|j: int| 0 <= j < self.scopes@.len() ==> distinct_keys(#[trigger] self.scopes@[j]@)
    }

    /// Each scope's list stands for the map of that scope.
    proof fn lemma_view(&self)
        requires
            self.wf(),
        ensures
            self@.len() == self.scopes@.len(),
            forall|j: int| 0 <= j < self.scopes@.len() ==> lists(#[trigger] self.scopes@[j]@, self@[j]),
    {
        assert forall|j: int| 0 <= j < self.scopes@.len() implies lists(#[trigger] self.scopes@[j]@, self@[j]) by {
            lemma_scope_map(self.scopes@[j]@);
        }
    }

    /// The current nesting depth: 0 for the outermost scope.
    pub open spec fn depth(&self) -> nat {
        (self@.len() - 1) as nat
    }

    /// What `get(k)` answers.
    pub open spec fn spec_get(&self, k: <K as View>::V) -> Option<V> {
        lookup(self@, k)
    }

    /// There is always an outermost scope.
    pub proof fn lemma_nonempty(&self)
        requires
            self.wf(),
        ensures
            self@.len() >= 1,
    {
    }

    pub fn new() -> (m: Self)
        ensures
            m.wf(),
            m@ == seq![Map::<<K as View>::V, V>::empty()],
    {
        let mut scopes: Vec<Vec<(K, V)>> = Vec::new();
        scopes.push(Vec::new());
        let m = ScopedMap { scopes };
        assert(m@ =~= seq![Map::<<K as View>::V, V>::empty()]);
        m
    }

    pub fn scope(&self) -> (s: u32)
        requires
            self.wf(),
        ensures
            s == self.depth(),
    {
        (self.scopes.len() - 1) as u32
    }

    pub fn begin_scope(&mut self)
        requires
            old(self).wf(),
            old(self).depth() < u32::MAX,
        ensures
            final(self).wf(),
            final(self)@ == old(self)@.push(Map::empty()),
    {
        self.scopes.push(Vec::new());
        assert(forall|j: int| 0 <= j < old(self).scopes@.len() ==> self.scopes@[j] == old(self).scopes@[j]);
        assert(self@ =~= old(self)@.push(Map::empty()));
    }

    pub fn end_scope(&mut self)
        requires
            old(self).wf(),
            old(self).depth() > 0,
        ensures
            final(self).wf(),
            final(self)@ == old(self)@.drop_last(),
    {
        let _ = self.scopes.pop();
        assert(forall|j: int| 0 <= j < self.scopes@.len() ==> self.scopes@[j] == old(self).scopes@[j]);
        assert(self@ =~= old(self)@.drop_last());
    }

    /// Finds the index of `k` in the innermost scope's list.
    fn find_in(scope: &Vec<(K, V)>, k: &K) -> (r: Option<usize>)
        ensures
            match r {
                Some(i) => i < scope@.len() && scope@[i as int].0@ == k@,
                None => forall|i: int| 0 <= i < scope@.len() ==> scope@[i].0@ != k@,
            },
    {
        let mut i: usize = 0;
        while i < scope.len()
            invariant
                i <= scope@.len(),
                forall|j: int| 0 <= j < i ==> scope@[j].0@ != k@,
            decreases scope@.len() - i,
        {
            if scope[i].0.key_eq(k) {
                return Some(i);
            }
            i = i + 1;
        }
        None
    }

    /// Binds `k` to `v` in the innermost scope; answers the value it had
    /// there before, if any.
    pub fn insert(&mut self, k: K, v: V) -> (r: Option<V>)
        requires
            old(self).wf(),
        ensures
            final(self).wf(),
            final(self)@.len() == old(self)@.len(),
            final(self)@ == old(self)@.update(
                old(self)@.len() - 1,
                old(self)@.last().insert(k@, v),
            ),
            r == (if old(self)@.last().contains_key(k@) {
                Some(old(self)@.last()[k@])
            } else {
                None
            }),
    {
        proof {
            self.lemma_view();
        }
        let ghost old_maps = self@;
        let mut top = self.scopes.pop().unwrap();
        let ghost top0 = top@;
        let ghost m0 = old_maps.last();
        assert(lists(top0, m0));
        let found = Self::find_in(&top, &k);
        let ghost kv = k@;
        let res = match found {
            Some(i) => {
                let (_, old_v) = top.remove(i);
                top.push((k, v));
                assert(m0.contains_key(kv));
                Some(old_v)
            },
            None => {
                top.push((k, v));
                None
            },
        };
        let ghost m1 = m0.insert(kv, v);
        assert(lists(top@, m1)) by {
            assert forall|i: int| 0 <= i < top@.len() implies #[trigger] m1.contains_key(top@[i].0@) && m1[top@[i].0@] == top@[i].1 by {
                if i < top@.len() - 1 {
                    match found {
                        Some(x) => {
                            let src = if i < x { i } else { i + 1 };
                            assert(top@[i] == top0[src]);
                            assert(m0.contains_key(top0[src].0@));
                        },
                        None => {
                            assert(top@[i] == top0[i]);
                            assert(m0.contains_key(top0[i].0@));
                        },
                    }
                }
            }
            assert forall|key: <K as View>::V| m1.contains_key(key) implies exists|i: int| 0 <= i < top@.len() && #[trigger] top@[i].0@ == key by {
                if key == kv {
                    assert(top@[top@.len() - 1].0@ == key);
                } else {
                    assert(m0.contains_key(key));
                    let i0 = choose|i: int| 0 <= i < top0.len() && #[trigger] top0[i].0@ == key;
                    match found {
                        Some(x) => {
                            assert(i0 != x);
                            let dst = if i0 < x { i0 } else { i0 - 1 };
                            assert(top@[dst] == top0[i0]);
                        },
                        None => {
                            assert(top@[i0] == top0[i0]);
                        },
                    }
                }
            }
            assert forall|i: int, j: int| 0 <= i < top@.len() && 0 <= j < top@.len() && i != j implies #[trigger] top@[i].0@ != #[trigger] top@[j].0@ by {
                let n = top@.len() - 1;
                match found {
                    Some(x) => {
                        let si = if i < x { i } else { i + 1 };
                        let sj = if j < x { j } else { j + 1 };
                        if i < n && j < n {
                            assert(top@[i] == top0[si]);
                            assert(top@[j] == top0[sj]);
                        } else if i < n {
                            assert(top@[i] == top0[si]);
                            assert(si != x);
                        } else {
                            assert(top@[j] == top0[sj]);
                            assert(sj != x);
                        }
                    },
                    None => {
                        if i < n {
                            assert(top@[i] == top0[i]);
                        }
                        if j < n {
                            assert(top@[j] == top0[j]);
                        }
                    },
                }
            }
        }
        self.scopes.push(top);
        proof {
            lemma_scope_map(top@);
            lemma_lists_unique(top@, scope_map(top@), m1);
            assert forall|j: int| 0 <= j < self.scopes@.len() - 1 implies self.scopes@[j]
                == old(self).scopes@[j] by {}
            assert(self@ =~= old_maps.update(old_maps.len() - 1, m1));
        }
        res
    }

    /// A list of bindings with the value at `i` replaced lists the map with
    /// that key bound to the new value.
    proof fn lemma_lists_update(s: Seq<(K, V)>, m: Map<<K as View>::V, V>, i: int, v: V)
        requires
            lists(s, m),
            0 <= i < s.len(),
        ensures
            lists(s.update(i, (s[i].0, v)), m.insert(s[i].0@, v)),
    {
        let t = s.update(i, (s[i].0, v));
        let m1 = m.insert(s[i].0@, v);
        assert forall|key: <K as View>::V| m1.contains_key(key) implies exists|x: int|
            0 <= x < t.len() && #[trigger] t[x].0@ == key by {
            if key == s[i].0@ {
                assert(t[i].0@ == key);
            } else {
                let x = choose|x: int| 0 <= x < s.len() && #[trigger] s[x].0@ == key;
                assert(t[x].0@ == key);
            }
        }
        assert forall|x: int, y: int| 0 <= x < t.len() && 0 <= y < t.len() && x != y implies #[trigger] t[x].0@
            != #[trigger] t[y].0@ by {
            assert(s[x].0@ != s[y].0@);
        }
    }

    /// The innermost value bound to `k`, to be changed in place. The map
    /// afterwards binds `k`, in that scope, to whatever is left behind the
    /// reference.
    pub fn get_mut(&mut self, k: &K) -> (r: Option<&mut V>)
        requires
            old(self).wf(),
        ensures
            final(self).wf(),
            match r {
                Some(v) => {
                    &&& old(self).spec_get(k@) == Some(*v)
                    &&& innermost(old(self)@, k@) >= 0
                    &&& final(self)@ == old(self)@.update(
                        innermost(old(self)@, k@),
                        old(self)@[innermost(old(self)@, k@)].insert(k@, *final(v)),
                    )
                },
                None => old(self).spec_get(k@) is None && final(self)@ == old(self)@,
            },
    {
        proof {
            lemma_innermost(self@, k@);
            self.lemma_view();
        }
        let mut j = self.scopes.len();
        assert(self@.take(j as int) == self@);
        while j > 0
            invariant
                j <= self.scopes@.len(),
                self.wf(),
                *self == *old(self),
                self@.len() == self.scopes@.len(),
                forall|x: int| 0 <= x < self.scopes@.len() ==> lists(#[trigger] self.scopes@[x]@, self@[x]),
                innermost(self@, k@) == innermost(self@.take(j as int), k@),
            decreases j,
        {
            let ghost s = self@.take(j as int);
            assert(s.drop_last() == self@.take(j - 1));
            assert(s.last() == self@[j - 1]);
            assert(lists(self.scopes@[j - 1]@, self@[j - 1]));
            match Self::find_in(&self.scopes[j - 1], k) {
                Some(i) => {
                    let ghost old_maps = self@;
                    let ghost old_list = self.scopes@[j - 1]@;
                    let ghost jj = j - 1;
                    proof {
                        assert(old_maps[jj].contains_key(k@));
                        assert(old_maps[jj][k@] == old_list[i as int].1);
                        lemma_innermost(self@, k@);
                    }
                    let r = &mut self.scopes[j - 1][i].1;
                    proof {
                        let fl = old_list.update(i as int, (old_list[i as int].0, *final(r)));
                        Self::lemma_lists_update(old_list, old_maps[jj], i as int, *final(r));
                        lemma_scope_map(fl);
                        lemma_lists_unique(fl, scope_map(fl), old_maps[jj].insert(k@, *final(r)));
                    }
                    return Some(r);
                },
                None => {
                    assert(!self@[j - 1].contains_key(k@)) by {
                        if self@[j - 1].contains_key(k@) {
                            let w = choose|i: int|
                                0 <= i < self.scopes@[j - 1]@.len() && #[trigger] self.scopes@[j
                                    - 1]@[i].0@ == k@;
                        }
                    }
                },
            }
            j = j - 1;
        }
        assert(self@.take(0) =~= Seq::<Map<<K as View>::V, V>>::empty());
        None
    }

    /// The innermost value bound to `k`, if any.
    pub fn get(&self, k: &K) -> (r: Option<&V>)
        requires
            self.wf(),
        ensures
            match r {
                Some(v) => self.spec_get(k@) == Some(*v),
                None => self.spec_get(k@) is None,
            },
    {
        proof {
            self.lemma_view();
        }
        let mut j = self.scopes.len();
        assert(self@.take(j as int) == self@);
        while j > 0
            invariant
                j <= self.scopes@.len(),
                self.wf(),
                self@.len() == self.scopes@.len(),
                forall|x: int| 0 <= x < self.scopes@.len() ==> lists(#[trigger] self.scopes@[x]@, self@[x]),
                lookup(self@, k@) == lookup(self@.take(j as int), k@),
            decreases j,
        {
            let scope = &self.scopes[j - 1];
            let ghost s = self@.take(j as int);
            assert(s.drop_last() == self@.take(j - 1));
            assert(s.last() == self@[j - 1]);
            assert(lists(scope@, self@[j - 1]));
            match Self::find_in(scope, k) {
                Some(i) => {
                    return Some(&scope[i].1);
                },
                None => {
                    assert(!self@[j - 1].contains_key(k@)) by {
                        if self@[j - 1].contains_key(k@) {
                            let w = choose|i: int| 0 <= i < scope@.len() && #[trigger] scope@[i].0@ == k@;
                        }
                    }
                },
            }
            j = j - 1;
        }
        None
    }
}

/// Changing the value of `k` where its innermost binding is makes a lookup of
/// `k` see the new value, and leaves the lookup of every other key as it was.
pub proof fn law_lookup_after_update<K, V>(s: Seq<Map<K, V>>, k: K, v: V, other: K)
    requires
        innermost(s, k) >= 0,
        other != k,
    ensures
        lookup(s.update(innermost(s, k), s[innermost(s, k)].insert(k, v)), k) == Some(v),
        lookup(s.update(innermost(s, k), s[innermost(s, k)].insert(k, v)), other) == lookup(
            s,
            other,
        ),
    decreases s.len(),
{
    let idx = innermost(s, k);
    lemma_innermost(s, k);
    let t = s.update(idx, s[idx].insert(k, v));
    if idx == s.len() - 1 {
        assert(t.drop_last() =~= s.drop_last());
        assert(t.last() == s.last().insert(k, v));
    } else {
        let d = s.drop_last();
        assert(innermost(d, k) == idx);
        assert(d[idx] == s[idx]);
        law_lookup_after_update(d, k, v, other);
        assert(t.drop_last() =~= d.update(idx, d[idx].insert(k, v)));
        assert(t.last() == s.last());
    }
}

/// A binding made in the innermost scope is what a lookup of its key sees,
/// and it leaves the lookup of every other key as it was.
pub proof fn law_lookup_after_insert<K, V>(s: Seq<Map<K, V>>, k: K, v: V, other: K)
    requires
        s.len() > 0,
        other != k,
    ensures
        lookup(s.update(s.len() - 1, s.last().insert(k, v)), k) == Some(v),
        lookup(s.update(s.len() - 1, s.last().insert(k, v)), other) == lookup(s, other),
{
    let t = s.update(s.len() - 1, s.last().insert(k, v));
    assert(t.drop_last() == s.drop_last());
}

/// A binding in a new inner scope shadows the outer ones; a key not bound in
/// the inner scope is looked up in the outer scopes.
pub proof fn law_inner_scope_shadows<K, V>(s: Seq<Map<K, V>>, m: Map<K, V>, k: K)
    ensures
        lookup(s.push(m), k) == (if m.contains_key(k) {
            Some(m[k])
        } else {
            lookup(s, k)
        }),
{
    assert(s.push(m).drop_last() == s);
}

/// Opening a scope and closing it again gives back the same map, whatever
/// was bound inside it.
pub proof fn law_end_scope_restores<K, V>(s: Seq<Map<K, V>>, inner: Map<K, V>)
    ensures
        s.push(Map::empty()).update(s.len() as int, inner).drop_last() == s,
{
    assert(s.push(Map::empty()).update(s.len() as int, inner).drop_last() == s);
}

} // verus!
