//! Insertion-ordered sets and maps over keys with exact equality.
use vstd::prelude::*;

verus! {

/// Values whose executable comparison coincides with mathematical equality.
pub trait Identity: Sized {
    /// Whether both values are the same value.
    fn same(&self, other: &Self) -> (r: bool)
        ensures
            r == (*self == *other),
    ;
}

impl Identity for u64 {
    fn same(&self, other: &Self) -> (r: bool) {
        *self == *other
    }
}

impl Identity for usize {
    fn same(&self, other: &Self) -> (r: bool) {
        *self == *other
    }
}

/// `s` with `x` added at the end, unless it is already there.
pub open spec fn seq_with<T>(s: Seq<T>, x: T) -> Seq<T> {
    if s.contains(x) {
        s
    } else {
        s.push(x)
    }
}

/// `s` without the (only) occurrence of `x`.
pub open spec fn seq_without<T>(s: Seq<T>, x: T) -> Seq<T> {
    if s.contains(x) {
        s.remove(s.index_of(x))
    } else {
        s
    }
}

/// `s` with every element of `xs` added in order, each at most once.
pub open spec fn seq_with_all<T>(s: Seq<T>, xs: Seq<T>) -> Seq<T>
    decreases xs.len(),
{
    if xs.len() == 0 {
        s
    } else {
        seq_with(seq_with_all(s, xs.drop_last()), xs.last())
    }
}

/// Adding an element keeps the sequence free of duplicates and adds exactly that element.
pub proof fn lemma_seq_with<T>(s: Seq<T>, x: T)
    requires
        s.no_duplicates(),
    ensures
        seq_with(s, x).no_duplicates(),
        forall|y: T| #[trigger] seq_with(s, x).contains(y) <==> s.contains(y) || y == x,
{
    let r = seq_with(s, x);
    assert forall|y: T| #[trigger] r.contains(y) <==> s.contains(y) || y == x by {
        if r.contains(y) {
            let j = choose|j: int| 0 <= j < r.len() && r[j] == y;
            if j < s.len() {
                assert(s[j] == y);
            }
        }
        if s.contains(y) {
            let j = choose|j: int| 0 <= j < s.len() && s[j] == y;
            assert(r[j] == y);
        }
        if y == x && !s.contains(x) {
            assert(r[s.len() as int] == y);
        }
    }
}

/// Removing an element keeps the sequence free of duplicates and drops exactly that element.
pub proof fn lemma_seq_without<T>(s: Seq<T>, x: T)
    requires
        s.no_duplicates(),
    ensures
        seq_without(s, x).no_duplicates(),
        forall|y: T| #[trigger] seq_without(s, x).contains(y) <==> s.contains(y) && y != x,
{
    if s.contains(x) {
        let i = s.index_of(x);
        assert(0 <= i < s.len() && s[i] == x);
        let r = s.remove(i);
        assert forall|y: T| #[trigger] r.contains(y) <==> s.contains(y) && y != x by {
            if r.contains(y) {
                let j = choose|j: int| 0 <= j < r.len() && r[j] == y;
                if j < i {
                    assert(s[j] == y);
                } else {
                    assert(s[j + 1] == y);
                }
            }
            if s.contains(y) && y != x {
                let j = choose|j: int| 0 <= j < s.len() && s[j] == y;
                if j < i {
                    assert(r[j] == y);
                } else {
                    assert(r[j - 1] == y);
                }
            }
        }
    }
}

/// Adding a whole sequence keeps the result free of duplicates and adds exactly its elements.
pub proof fn lemma_seq_with_all<T>(s: Seq<T>, xs: Seq<T>)
    requires
        s.no_duplicates(),
    ensures
        seq_with_all(s, xs).no_duplicates(),
        forall|y: T| #[trigger] seq_with_all(s, xs).contains(y) <==> s.contains(y) || xs.contains(y),
    decreases xs.len(),
{
    if xs.len() > 0 {
        lemma_seq_with_all(s, xs.drop_last());
        lemma_seq_with(seq_with_all(s, xs.drop_last()), xs.last());
        assert forall|y: T| #[trigger] xs.contains(y) <==> xs.drop_last().contains(y) || y == xs.last() by {
            if xs.contains(y) {
                let j = choose|j: int| 0 <= j < xs.len() && xs[j] == y;
                if j < xs.len() - 1 {
                    assert(xs.drop_last()[j] == y);
                }
            }
            if xs.drop_last().contains(y) {
                let j = choose|j: int| 0 <= j < xs.drop_last().len() && xs.drop_last()[j] == y;
                assert(xs[j] == y);
            }
            assert(xs[xs.len() - 1] == xs.last());
        }
    }
}

/// A set that remembers the order in which its elements were added.
pub struct IdSet<T> {
    items: Vec<T>,
}

impl<T> View for IdSet<T> {
    type V = Seq<T>;

    closed spec fn view(&self) -> Seq<T> {
        self.items@
    }
}

impl<T: Identity> IdSet<T> {
    /// No element occurs twice.
    pub open spec fn wf(&self) -> bool {
        self@.no_duplicates()
    }

    /// The empty set.
    pub fn new() -> (r: Self)
        ensures
            r.wf(),
            r@ == Seq::<T>::empty(),
    {
        IdSet { items: Vec::new() }
    }

    /// The number of elements.
    pub fn len(&self) -> (r: usize)
        ensures
            r == self@.len(),
    {
        self.items.len()
    }

    /// Whether the set has no elements.
    pub fn is_empty(&self) -> (r: bool)
        ensures
            r == (self@.len() == 0),
    {
        self.items.len() == 0
    }

    /// The element that was added as number `i`.
    pub fn at(&self, i: usize) -> (r: &T)
        requires
            i < self@.len(),
        ensures
            *r == self@[i as int],
    {
        &self.items[i]
    }

    fn position(&self, x: &T) -> (r: Option<usize>)
        ensures
            match r {
                Some(i) => i < self@.len() && self@[i as int] == *x,
                None => !self@.contains(*x),
            },
    {
        let mut i: usize = 0;
        while i < self.items.len()
            invariant
                i <= self.items@.len(),
                forall|j: int| 0 <= j < i ==> self.items@[j] != *x,
            decreases self.items@.len() - i,
        {
            if self.items[i].same(x) {
                return Some(i);
            }
            i += 1;
        }
        None
    }

    /// Whether `x` is an element.
    pub fn contains(&self, x: &T) -> (r: bool)
        ensures
            r == self@.contains(*x),
    {
        match self.position(x) {
            Some(i) => {
                assert(self@[i as int] == *x);
                true
            },
            None => false,
        }
    }

    /// Adds `x`; whether it was new.
    pub fn insert(&mut self, x: T) -> (r: bool)
        requires
            old(self).wf(),
        ensures
            final(self).wf(),
            final(self)@ == seq_with(old(self)@, x),
            r == !old(self)@.contains(x),
    {
        proof {
            lemma_seq_with(self@, x);
        }
        if self.contains(&x) {
            false
        } else {
            self.items.push(x);
            true
        }
    }

    /// Removes `x`; whether it was there.
    pub fn remove(&mut self, x: &T) -> (r: bool)
        requires
            old(self).wf(),
        ensures
            final(self).wf(),
            final(self)@ == seq_without(old(self)@, *x),
            r == old(self)@.contains(*x),
    {
        proof {
            lemma_seq_without(self@, *x);
        }
        match self.position(x) {
            Some(i) => {
                assert(self@.contains(*x));
                assert(self@.index_of(*x) == i);
                let _ = self.items.remove(i);
                true
            },
            None => false,
        }
    }

    /// Removes all elements.
    pub fn clear(&mut self)
        ensures
            final(self).wf(),
            final(self)@ == Seq::<T>::empty(),
    {
        self.items.clear();
    }
}

impl<T: Identity + Copy> IdSet<T> {
    /// A copy of the set.
    pub fn duplicate(&self) -> (r: Self)
        requires
            self.wf(),
        ensures
            r.wf(),
            r@ == self@,
    {
        let mut items: Vec<T> = Vec::new();
        let mut i: usize = 0;
        while i < self.items.len()
            invariant
                i <= self.items@.len(),
                items@ == self.items@.take(i as int),
            decreases self.items@.len() - i,
        {
            items.push(self.items[i]);
            assert(self.items@.take(i as int).push(self.items@[i as int]) =~= self.items@.take(i + 1));
            i += 1;
        }
        assert(self.items@.take(self.items@.len() as int) =~= self.items@);
        IdSet { items }
    }

    /// Adds every element of `xs`.
    pub fn insert_all(&mut self, xs: &IdSet<T>)
        requires
            old(self).wf(),
        ensures
            final(self).wf(),
            final(self)@ == seq_with_all(old(self)@, xs@),
    {
        let mut i: usize = 0;
        assert(xs@.take(0) =~= Seq::<T>::empty());
        while i < xs.items.len()
            invariant
                i <= xs.items@.len(),
                self.wf(),
                self@ == seq_with_all(old(self)@, xs@.take(i as int)),
            decreases xs.items@.len() - i,
        {
            assert(xs@.take(i + 1).drop_last() =~= xs@.take(i as int));
            let _ = self.insert(xs.items[i]);
            i += 1;
        }
        assert(xs@.take(xs@.len() as int) =~= xs@);
    }
}

/// The position of the pair with key `k`.
pub open spec fn key_position<K, V>(pairs: Seq<(K, V)>, k: K) -> int {
    choose|i: int| 0 <= i < pairs.len() && (#[trigger] pairs[i]).0 == k
}

/// The mapping that a sequence of pairs with distinct keys stands for.
pub open spec fn pairs_map<K, V>(pairs: Seq<(K, V)>) -> Map<K, V> {
    Map::new(
        |k: K| exists|i: int| 0 <= i < pairs.len() && (#[trigger] pairs[i]).0 == k,
        |k: K| pairs[key_position(pairs, k)].1,
    )
}

/// A map that remembers the order in which its keys were added.
pub struct IdMap<K, V> {
    entries: Vec<(K, V)>,
}

impl<K, V> View for IdMap<K, V> {
    type V = Map<K, V>;

    closed spec fn view(&self) -> Map<K, V> {
        pairs_map(self.entries@)
    }
}

impl<K: Identity, V> IdMap<K, V> {
    /// The keys, in the order in which they were added.
    pub closed spec fn keys(&self) -> Seq<K> {
        Seq::new(self.entries@.len(), |i: int| self.entries@[i].0)
    }

    /// The keys are distinct and are those of the mapping.
    pub open spec fn wf(&self) -> bool {
        &&& self.keys().no_duplicates()
        &&& forall|k: K| #[trigger] self@.contains_key(k) <==> self.keys().contains(k)
    }

    proof fn lemma_entry(&self, i: int)
        requires
            self.wf(),
            0 <= i < self.entries@.len(),
        ensures
            self@.contains_key(self.entries@[i].0),
            self@[self.entries@[i].0] == self.entries@[i].1,
            self.keys()[i] == self.entries@[i].0,
    {
        let k = self.entries@[i].0;
        let j = key_position(self.entries@, k);
        assert(self.entries@[i].0 == k);
        assert(0 <= j < self.entries@.len() && self.entries@[j].0 == k);
        assert(self.keys()[i] == k && self.keys()[j] == k);
    }

    /// The empty map.
    pub fn new() -> (r: Self)
        ensures
            r.wf(),
            r@ == Map::<K, V>::empty(),
            r.keys() == Seq::<K>::empty(),
    {
        let r = IdMap { entries: Vec::new() };
        assert(r@ =~= Map::<K, V>::empty());
        assert(r.keys() =~= Seq::<K>::empty());
        r
    }

    /// The number of keys.
    pub fn len(&self) -> (r: usize)
        ensures
            r == self.keys().len(),
    {
        self.entries.len()
    }

    /// The key that was added as number `i`.
    pub fn key_at(&self, i: usize) -> (r: &K)
        requires
            i < self.keys().len(),
        ensures
            *r == self.keys()[i as int],
    {
        &self.entries[i].0
    }

    /// The value of the key that was added as number `i`.
    pub fn value_at(&self, i: usize) -> (r: &V)
        requires
            self.wf(),
            i < self.keys().len(),
        ensures
            self@.contains_key(self.keys()[i as int]),
            *r == self@[self.keys()[i as int]],
    {
        proof {
            self.lemma_entry(i as int);
        }
        &self.entries[i].1
    }

    fn position(&self, k: &K) -> (r: Option<usize>)
        requires
            self.wf(),
        ensures
            match r {
                Some(i) => {
                    &&& i < self.entries@.len()
                    &&& self.entries@[i as int].0 == *k
                    &&& self.keys()[i as int] == *k
                    &&& self@.contains_key(*k)
                    &&& self@[*k] == self.entries@[i as int].1
                },
                None => !self@.contains_key(*k) && !self.keys().contains(*k),
            },
    {
        let mut i: usize = 0;
        while i < self.entries.len()
            invariant
                self.wf(),
                i <= self.entries@.len(),
                forall|j: int| 0 <= j < i ==> (#[trigger] self.entries@[j]).0 != *k,
            decreases self.entries@.len() - i,
        {
            if self.entries[i].0.same(k) {
                proof {
                    self.lemma_entry(i as int);
                }
                return Some(i);
            }
            i += 1;
        }
        None
    }

    /// Whether `k` has a value.
    pub fn contains_key(&self, k: &K) -> (r: bool)
        requires
            self.wf(),
        ensures
            r == self@.contains_key(*k),
    {
        self.position(k).is_some()
    }

    /// The value of `k`.
    pub fn get(&self, k: &K) -> (r: Option<&V>)
        requires
            self.wf(),
        ensures
            match r {
                Some(v) => self@.contains_key(*k) && *v == self@[*k],
                None => !self@.contains_key(*k),
            },
    {
        match self.position(k) {
            Some(i) => Some(&self.entries[i].1),
            None => None,
        }
    }

    /// Gives `k` the value `v`; the value that it had before.
    pub fn insert(&mut self, k: K, v: V) -> (r: Option<V>)
        requires
            old(self).wf(),
        ensures
            final(self).wf(),
            final(self)@ == old(self)@.insert(k, v),
            final(self).keys() == seq_with(old(self).keys(), k),
            match r {
                Some(p) => old(self)@.contains_key(k) && p == old(self)@[k],
                None => !old(self)@.contains_key(k),
            },
    {
        let ghost pre = *self;
        match self.position(&k) {
            Some(i) => {
                let ghost key = k;
                let mut entry = (k, v);
                std::mem::swap(&mut entry, &mut self.entries[i]);
                proof {
                    assert(self.entries@ =~= pre.entries@.update(i as int, (key, v)));
                    assert(self.keys() =~= pre.keys());
                    assert forall|x: K| #[trigger] self@.contains_key(x) <==> pre@.insert(key, v).contains_key(x) by {
                        if pre@.contains_key(x) && x != key {
                            let j = choose|j: int| 0 <= j < pre.entries@.len() && (#[trigger] pre.entries@[j]).0 == x;
                            assert(self.entries@[j].0 == x);
                        }
                        if self@.contains_key(x) {
                            let j = choose|j: int| 0 <= j < self.entries@.len() && (#[trigger] self.entries@[j]).0 == x;
                            assert(pre.entries@[j].0 == x);
                        }
                        assert(self.entries@[i as int].0 == key);
                    }
                    assert forall|x: K| #[trigger] self@.contains_key(x) implies self@[x] == pre@.insert(key, v)[x] by {
                        let j = key_position(self.entries@, x);
                        assert(0 <= j < self.entries@.len() && self.entries@[j].0 == x);
                        if x == key {
                            assert(self.keys()[j] == key && self.keys()[i as int] == key);
                        } else {
                            pre.lemma_entry(j);
                        }
                    }
                    assert(self@ =~= pre@.insert(key, v));
                }
                Some(entry.1)
            },
            None => {
                proof {
                    lemma_seq_with(self.keys(), k);
                }
                self.entries.push((k, v));
                proof {
                    assert(self.keys() =~= pre.keys().push(k));
                    assert(self.entries@[pre.entries@.len() as int].0 == k);
                    assert forall|x: K| #[trigger] self@.contains_key(x) <==> pre@.insert(k, v).contains_key(x) by {
                        if pre@.contains_key(x) {
                            let j = choose|j: int| 0 <= j < pre.entries@.len() && (#[trigger] pre.entries@[j]).0 == x;
                            assert(self.entries@[j].0 == x);
                        }
                        if self@.contains_key(x) && x != k {
                            let j = choose|j: int| 0 <= j < self.entries@.len() && (#[trigger] self.entries@[j]).0 == x;
                            assert(pre.entries@[j].0 == x);
                        }
                    }
                    assert forall|x: K| #[trigger] self@.contains_key(x) implies self@[x] == pre@.insert(k, v)[x] by {
                        let j = key_position(self.entries@, x);
                        assert(0 <= j < self.entries@.len() && self.entries@[j].0 == x);
                        if j < pre.entries@.len() {
                            pre.lemma_entry(j);
                            assert(pre.keys()[j] == x);
                        }
                    }
                    assert(self@ =~= pre@.insert(k, v));
                }
                None
            },
        }
    }

    /// Removes `k`; the value that it had.
    pub fn remove(&mut self, k: &K) -> (r: Option<V>)
        requires
            old(self).wf(),
        ensures
            final(self).wf(),
            final(self)@ == old(self)@.remove(*k),
            final(self).keys() == seq_without(old(self).keys(), *k),
            match r {
                Some(p) => old(self)@.contains_key(*k) && p == old(self)@[*k],
                None => !old(self)@.contains_key(*k),
            },
    {
        let ghost pre = *self;
        proof {
            lemma_seq_without(self.keys(), *k);
        }
        match self.position(k) {
            Some(i) => {
                let entry = self.entries.remove(i);
                proof {
                    assert(pre.keys().contains(*k));
                    assert(pre.keys().index_of(*k) == i);
                    assert(self.keys() =~= pre.keys().remove(i as int));
                    assert forall|x: K| #[trigger] self@.contains_key(x) <==> pre@.remove(*k).contains_key(x) by {
                        if pre@.contains_key(x) && x != *k {
                            let j = choose|j: int| 0 <= j < pre.entries@.len() && (#[trigger] pre.entries@[j]).0 == x;
                            if j < i {
                                assert(self.entries@[j].0 == x);
                            } else {
                                assert(self.entries@[j - 1].0 == x);
                            }
                        }
                        if self@.contains_key(x) {
                            let j = choose|j: int| 0 <= j < self.entries@.len() && (#[trigger] self.entries@[j]).0 == x;
                            assert(self.keys()[j] == x);
                            if j < i {
                                assert(pre.entries@[j].0 == x);
                            } else {
                                assert(pre.entries@[j + 1].0 == x);
                            }
                        }
                    }
                    assert forall|x: K| #[trigger] self@.contains_key(x) implies self@[x] == pre@.remove(*k)[x] by {
                        let j = key_position(self.entries@, x);
                        assert(0 <= j < self.entries@.len() && self.entries@[j].0 == x);
                        if j < i {
                            pre.lemma_entry(j);
                        } else {
                            pre.lemma_entry(j + 1);
                        }
                    }
                    assert(self@ =~= pre@.remove(*k));
                }
                Some(entry.1)
            },
            None => {
                assert(self@ =~= pre@.remove(*k));
                None
            },
        }
    }

    /// Removes all keys.
    pub fn clear(&mut self)
        ensures
            final(self).wf(),
            final(self)@ == Map::<K, V>::empty(),
            final(self).keys() == Seq::<K>::empty(),
    {
        self.entries.clear();
        assert(self@ =~= Map::<K, V>::empty());
        assert(self.keys() =~= Seq::<K>::empty());
    }
}

/// A new element comes last, and what is there keeps its place; removing an element closes the gap
/// and keeps the order of the others.
pub proof fn lemma_order_is_kept<T>(s: Seq<T>, x: T)
    ensures
        s.contains(x) ==> seq_with(s, x) == s,
        !s.contains(x) ==> seq_with(s, x) == s + seq![x],
        !s.contains(x) ==> seq_without(s, x) == s,
        s.contains(x) ==> exists|i: int|
            0 <= i < s.len() && #[trigger] s[i] == x && seq_without(s, x) == s.take(i) + s.skip(i + 1),
{
    assert(s.push(x) =~= s + seq![x]);
    if s.contains(x) {
        let i = s.index_of(x);
        assert(s[i] == x);
        assert(seq_without(s, x) =~= s.take(i) + s.skip(i + 1));
    }
}

/// Elements that are added together are added one after the other.
pub proof fn lemma_adding_concatenates<T>(s: Seq<T>, a: Seq<T>, b: Seq<T>, x: T)
    ensures
        seq_with_all(s, a + b) == seq_with_all(seq_with_all(s, a), b),
        seq_with_all(s, seq![x]) == seq_with(s, x),
        seq_with_all(s, Seq::empty()) == s,
        s.is_prefix_of(seq_with_all(s, b)),
    decreases b.len(),
{
    let one = seq![x];
    assert(one.drop_last() =~= Seq::<T>::empty());
    assert(seq_with_all(s, one.drop_last()) == s);
    assert(one.last() == x);
    if b.len() == 0 {
        assert(a + b =~= a);
    } else {
        lemma_adding_concatenates(s, a, b.drop_last(), x);
        assert((a + b).drop_last() =~= a + b.drop_last());
    }
}

} // verus!
