//! Finite relations, grouped by their first component.
use vstd::prelude::*;

use crate::util::table::{lemma_seq_with, lemma_seq_without, IdMap, IdSet, Identity};

verus! {

/// A finite set of pairs. Only keys that occur in a pair are stored.
pub struct PairMap<K, V> {
    map: IdMap<K, IdSet<V>>,
}

impl<K: Identity, V: Identity> View for PairMap<K, V> {
    type V = Set<(K, V)>;

    closed spec fn view(&self) -> Set<(K, V)> {
        Set::new(|p: (K, V)| self.map@.contains_key(p.0) && self.map@[p.0]@.contains(p.1))
    }
}

/// Whether `k` is the first component of some pair.
pub open spec fn has_key<K, V>(pairs: Set<(K, V)>, k: K) -> bool {
    exists|v: V| #[trigger] pairs.contains((k, v))
}

impl<K: Identity + Copy, V: Identity> PairMap<K, V> {
    /// Every stored group is a proper, nonempty set.
    pub closed spec fn wf(&self) -> bool {
        &&& self.map.wf()
        &&& forall|k: K| #[trigger]
            self.map@.contains_key(k) ==> self.map@[k].wf() && self.map@[k]@.len() > 0
    }

    /// The keys, in the order in which their groups were made.
    pub closed spec fn keys(&self) -> Seq<K> {
        self.map.keys()
    }

    proof fn lemma_group(&self, k: K)
        requires
            self.wf(),
        ensures
            self.map@.contains_key(k) == has_key(self@, k),
    {
        if self.map@.contains_key(k) {
            let v = self.map@[k]@[0];
            assert(self.map@[k]@.contains(v));
            assert(self@.contains((k, v)));
        }
    }

    /// The stored keys are those that occur in a pair, each once.
    pub proof fn lemma_keys(&self)
        requires
            self.wf(),
        ensures
            self.keys().no_duplicates(),
            forall|k: K| #[trigger] self.keys().contains(k) <==> has_key(self@, k),
    {
        assert forall|k: K| #[trigger] self.keys().contains(k) <==> has_key(self@, k) by {
            self.lemma_group(k);
        }
    }

    /// No pairs.
    pub fn new() -> (r: Self)
        ensures
            r.wf(),
            r@ == Set::<(K, V)>::empty(),
    {
        let r = PairMap { map: IdMap::new() };
        assert(r@ =~= Set::<(K, V)>::empty());
        r
    }

    /// The number of keys that occur.
    pub fn key_count(&self) -> (r: usize)
        ensures
            r == self.keys().len(),
    {
        self.map.len()
    }

    /// The key that was stored as number `i`.
    pub fn key_at(&self, i: usize) -> (r: K)
        requires
            i < self.keys().len(),
        ensures
            r == self.keys()[i as int],
    {
        *self.map.key_at(i)
    }

    /// Whether `k` occurs in a pair.
    pub fn contains_key(&self, k: &K) -> (r: bool)
        requires
            self.wf(),
        ensures
            r == has_key(self@, *k),
    {
        proof {
            self.lemma_group(*k);
        }
        self.map.contains_key(k)
    }

    /// Everything that `k` is paired with; `None` if that is nothing.
    pub fn get(&self, k: &K) -> (r: Option<&IdSet<V>>)
        requires
            self.wf(),
        ensures
            r.is_some() == has_key(self@, *k),
            r.is_some() ==> r.unwrap().wf() && r.unwrap()@.len() > 0,
            r.is_some() ==> forall|v: V| #[trigger] r.unwrap()@.contains(v) <==> self@.contains((*k, v)),
    {
        proof {
            self.lemma_group(*k);
        }
        self.map.get(k)
    }

    /// Adds a pair.
    pub fn insert(&mut self, k: K, v: V)
        requires
            old(self).wf(),
        ensures
            final(self).wf(),
            final(self)@ == old(self)@.insert((k, v)),
    {
        let ghost pre = *self;
        let mut group = match self.map.remove(&k) {
            Some(group) => group,
            None => IdSet::new(),
        };
        let ghost g = group@;
        proof {
            lemma_seq_with(g, v);
        }
        let _ = group.insert(v);
        assert(group@.contains(v));
        let _ = self.map.insert(k, group);
        proof {
            assert forall|p: (K, V)| #[trigger] self@.contains(p) <==> pre@.insert((k, v)).contains(p) by {
                if p.0 == k {
                    assert(pre.map@.contains_key(k) ==> g == pre.map@[k]@);
                    assert(!pre.map@.contains_key(k) ==> !g.contains(p.1));
                }
            }
            assert(self@ =~= pre@.insert((k, v)));
        }
    }

    /// Removes a pair; whether that left `k` without any.
    pub fn remove(&mut self, k: &K, v: &V) -> (r: bool)
        requires
            old(self).wf(),
        ensures
            final(self).wf(),
            final(self)@ == old(self)@.remove((*k, *v)),
            r == (has_key(old(self)@, *k) && !has_key(final(self)@, *k)),
    {
        let ghost pre = *self;
        proof {
            self.lemma_group(*k);
        }
        match self.map.remove(k) {
            Some(group) => {
                let mut group = group;
                let ghost g = group@;
                proof {
                    lemma_seq_without(g, *v);
                }
                let _ = group.remove(v);
                if group.is_empty() {
                    proof {
                        assert forall|p: (K, V)| #[trigger] self@.contains(p) <==> pre@.remove((*k, *v)).contains(
                            p,
                        ) by {
                            if p.0 == *k && g.contains(p.1) && p.1 != *v {
                                assert(group@.contains(p.1));
                            }
                        }
                        assert(self@ =~= pre@.remove((*k, *v)));
                        self.lemma_group(*k);
                    }
                    true
                } else {
                    let _ = self.map.insert(*k, group);
                    proof {
                        assert(self@ =~= pre@.remove((*k, *v)));
                        self.lemma_group(*k);
                    }
                    false
                }
            },
            None => {
                assert(self@ =~= pre@.remove((*k, *v)));
                false
            },
        }
    }

    /// Removes all pairs of `k`; what it was paired with.
    pub fn take(&mut self, k: &K) -> (r: IdSet<V>)
        requires
            old(self).wf(),
        ensures
            final(self).wf(),
            r.wf(),
            forall|v: V| #[trigger] r@.contains(v) <==> old(self)@.contains((*k, v)),
            final(self)@ == old(self)@.filter(|p: (K, V)| p.0 != *k),
    {
        let ghost pre = *self;
        let group = self.map.remove(k);
        assert(self@ =~= pre@.filter(|p: (K, V)| p.0 != *k));
        match group {
            Some(group) => group,
            None => IdSet::new(),
        }
    }

    /// Removes all pairs.
    pub fn clear(&mut self)
        ensures
            final(self).wf(),
            final(self)@ == Set::<(K, V)>::empty(),
    {
        self.map.clear();
        assert(self@ =~= Set::<(K, V)>::empty());
    }
}

/// Whether `b` can be reached from `a` by following exactly `n` pairs.
pub open spec fn reaches_in<K>(pairs: Set<(K, K)>, a: K, b: K, n: nat) -> bool
    decreases n,
{
    if n == 0 {
        false
    } else if n == 1 {
        pairs.contains((a, b))
    } else {
        exists|m: K| reaches_in(pairs, a, m, (n - 1) as nat) && #[trigger] pairs.contains((m, b))
    }
}

/// Whether `b` can be reached from `a` by following pairs, at least one.
pub open spec fn reaches<K>(pairs: Set<(K, K)>, a: K, b: K) -> bool {
    exists|n: nat| reaches_in(pairs, a, b, n)
}

/// One more pair reaches further.
pub proof fn lemma_reaches_step<K>(pairs: Set<(K, K)>, a: K, m: K, b: K)
    requires
        reaches(pairs, a, m),
        pairs.contains((m, b)),
    ensures
        reaches(pairs, a, b),
{
    let n = choose|n: nat| reaches_in(pairs, a, m, n);
    assert(reaches_in(pairs, a, b, n + 1));
}

/// A set that holds everything one pair away from `a`, and with each element everything one pair
/// away from that, holds all that `a` reaches.
proof fn lemma_closed_holds_all<K>(pairs: Set<(K, K)>, a: K, found: Seq<K>, b: K, n: nat)
    requires
        forall|v: K| #[trigger] pairs.contains((a, v)) ==> found.contains(v),
        forall|m: K, v: K| found.contains(m) && #[trigger] pairs.contains((m, v)) ==> found.contains(v),
        reaches_in(pairs, a, b, n),
    ensures
        found.contains(b),
    decreases n,
{
    if n > 1 {
        let m = choose|m: K| reaches_in(pairs, a, m, (n - 1) as nat) && #[trigger] pairs.contains((m, b));
        lemma_closed_holds_all(pairs, a, found, m, (n - 1) as nat);
    }
}

/// A sequence without duplicates whose elements all occur in another one is not longer than that.
pub proof fn lemma_subset_not_longer<K>(s: Seq<K>, t: Seq<K>)
    requires
        s.no_duplicates(),
        t.no_duplicates(),
        forall|x: K| #[trigger] s.contains(x) ==> t.contains(x),
    ensures
        s.len() <= t.len(),
    decreases s.len(),
{
    if s.len() > 0 {
        let x = s.last();
        let rest = s.drop_last();
        assert(s[s.len() - 1] == x);
        assert(s.contains(x));
        lemma_seq_without(t, x);
        assert forall|y: K| #[trigger] rest.contains(y) implies crate::util::table::seq_without(t, x).contains(
            y,
        ) by {
            let i = choose|i: int| 0 <= i < rest.len() && rest[i] == y;
            assert(s[i] == y);
            assert(s.contains(y));
        }
        lemma_subset_not_longer(rest, crate::util::table::seq_without(t, x));
    }
}

/// Whether one relation is the other with its pairs turned round.
pub open spec fn is_inverse<K>(pairs: Set<(K, K)>, inverse: Set<(K, K)>) -> bool {
    forall|a: K, b: K| #[trigger] pairs.contains((a, b)) <==> inverse.contains((b, a))
}

/// Everything that can be reached from `a`, each once.
pub fn reachable<K: Identity + Copy>(pairs: &PairMap<K, K>, inverse: &PairMap<K, K>, a: &K) -> (r: IdSet<K>)
    requires
        pairs.wf(),
        inverse.wf(),
        is_inverse(pairs@, inverse@),
    ensures
        r.wf(),
        forall|b: K| #[trigger] r@.contains(b) <==> reaches(pairs@, *a, b),
{
    let mut found: IdSet<K> = IdSet::new();
    match pairs.get(a) {
        Some(next) => {
            found.insert_all(next);
            proof {
                crate::util::table::lemma_seq_with_all(Seq::<K>::empty(), next@);
            }
        },
        None => {},
    }
    proof {
        assert forall|b: K| #[trigger] found@.contains(b) implies reaches(pairs@, *a, b) by {
            assert(pairs@.contains((*a, b)));
            assert(reaches_in(pairs@, *a, b, 1));
        }
    }
    let mut i: usize = 0;
    let ghost bound = inverse.keys();
    proof {
        inverse.lemma_keys();
        assert forall|b: K| #[trigger] found@.contains(b) implies bound.contains(b) by {
            assert(inverse@.contains((b, *a)));
        }
        lemma_subset_not_longer(found@, bound);
    }
    while i < found.len()
        invariant
            pairs.wf(),
            inverse.wf(),
            is_inverse(pairs@, inverse@),
            found.wf(),
            i <= found@.len(),
            bound == inverse.keys(),
            found@.len() <= bound.len(),
            forall|b: K| #[trigger] found@.contains(b) ==> reaches(pairs@, *a, b),
            forall|b: K| #[trigger] found@.contains(b) ==> bound.contains(b),
            forall|v: K| #[trigger] pairs@.contains((*a, v)) ==> found@.contains(v),
            forall|j: int, v: K|
                0 <= j < i && #[trigger] pairs@.contains((found@[j], v)) ==> found@.contains(v),
        decreases bound.len() - i,
    {
        let m: K = *found.at(i);
        let ghost before = found@;
        assert(before.contains(m));
        match pairs.get(&m) {
            Some(next) => {
                found.insert_all(next);
                proof {
                    crate::util::table::lemma_seq_with_all(before, next@);
                    lemma_with_all_keeps(before, next@);
                    assert forall|b: K| #[trigger] found@.contains(b) implies reaches(pairs@, *a, b) by {
                        if !before.contains(b) {
                            lemma_reaches_step(pairs@, *a, m, b);
                        }
                    }
                    inverse.lemma_keys();
                    assert forall|b: K| #[trigger] found@.contains(b) implies bound.contains(b) by {
                        if !before.contains(b) {
                            assert(pairs@.contains((m, b)));
                            assert(inverse@.contains((b, m)));
                        }
                    }
                    lemma_subset_not_longer(found@, bound);
                }
            },
            None => {},
        }
        proof {
            assert(found@[i as int] == m);
            assert forall|j: int, v: K|
                0 <= j < i + 1 && #[trigger] pairs@.contains((found@[j], v)) implies found@.contains(v) by {
                if j < i {
                    assert(found@[j] == before[j]);
                    assert(pairs@.contains((before[j], v)));
                }
            }
        }
        i += 1;
    }
    proof {
        assert forall|b: K| reaches(pairs@, *a, b) implies #[trigger] found@.contains(b) by {
            let n = choose|n: nat| reaches_in(pairs@, *a, b, n);
            assert forall|m: K, v: K| found@.contains(m) && #[trigger] pairs@.contains((m, v)) implies found@.contains(
                v,
            ) by {
                let j = choose|j: int| 0 <= j < found@.len() && found@[j] == m;
                assert(pairs@.contains((found@[j], v)));
            }
            lemma_closed_holds_all(pairs@, *a, found@, b, n);
        }
    }
    found
}

/// Adding elements leaves those that are there in their places.
proof fn lemma_with_all_keeps<K>(s: Seq<K>, xs: Seq<K>)
    ensures
        s.len() <= crate::util::table::seq_with_all(s, xs).len(),
        forall|i: int| 0 <= i < s.len() ==> #[trigger] crate::util::table::seq_with_all(s, xs)[i] == s[i],
    decreases xs.len(),
{
    if xs.len() > 0 {
        lemma_with_all_keeps(s, xs.drop_last());
    }
}

} // verus!
