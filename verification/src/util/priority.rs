//! Priorities and queues that hand out their highest entry first.
use vstd::multiset::Multiset;
use vstd::prelude::*;

verus! {

/// Exchanges two elements and leaves all others where they are.
fn exchange<T>(v: &mut Vec<T>, a: usize, b: usize)
    requires
        a < old(v)@.len(),
        b < old(v)@.len(),
    ensures
        final(v)@ == old(v)@.update(a as int, old(v)@[b as int]).update(b as int, old(v)@[a as int]),
{
    if a == b {
        assert(v@ =~= old(v)@.update(a as int, old(v)@[b as int]).update(b as int, old(v)@[a as int]));
        return;
    }
    let (first, second): (usize, usize) = if a < b {
        (a, b)
    } else {
        (b, a)
    };
    let n: usize = v.len();
    let mut x = v.swap_remove(second);
    std::mem::swap(&mut v[first], &mut x);
    v.push(x);
    if second + 1 < n {
        // What was last stands at `second`, and what belongs there stands last.
        let y = v.swap_remove(second);
        v.push(y);
    }
    assert(v@ =~= old(v)@.update(a as int, old(v)@[b as int]).update(b as int, old(v)@[a as int]));
}

/// Values with a fixed place in an order of priorities.
pub trait HasStaticPriority: Sized {
    /// The place in the order; more is higher.
    spec fn rank(&self) -> int;

    /// Whether this value has the strictly higher priority.
    fn outranks(&self, other: &Self) -> (r: bool)
        ensures
            r == (self.rank() > other.rank()),
    ;
}

/// Values that can be asked for their priority.
pub trait HasDynamicPriority: Sized {
    /// What the value answers.
    type Value: HasStaticPriority;

    /// The priority that the value has.
    spec fn current(&self) -> Self::Value;

    /// The priority that the value has.
    fn priority(&self) -> (r: Self::Value)
        ensures
            r == self.current(),
    ;
}

impl HasStaticPriority for i8 {
    open spec fn rank(&self) -> int {
        *self as int
    }

    fn outranks(&self, other: &Self) -> (r: bool) {
        *self > *other
    }
}

impl HasDynamicPriority for i8 {
    type Value = i8;

    open spec fn current(&self) -> i8 {
        *self
    }

    fn priority(&self) -> (r: i8) {
        *self
    }
}

impl HasStaticPriority for i16 {
    open spec fn rank(&self) -> int {
        *self as int
    }

    fn outranks(&self, other: &Self) -> (r: bool) {
        *self > *other
    }
}

impl HasDynamicPriority for i16 {
    type Value = i16;

    open spec fn current(&self) -> i16 {
        *self
    }

    fn priority(&self) -> (r: i16) {
        *self
    }
}

impl HasStaticPriority for i32 {
    open spec fn rank(&self) -> int {
        *self as int
    }

    fn outranks(&self, other: &Self) -> (r: bool) {
        *self > *other
    }
}

impl HasDynamicPriority for i32 {
    type Value = i32;

    open spec fn current(&self) -> i32 {
        *self
    }

    fn priority(&self) -> (r: i32) {
        *self
    }
}

impl HasStaticPriority for i64 {
    open spec fn rank(&self) -> int {
        *self as int
    }

    fn outranks(&self, other: &Self) -> (r: bool) {
        *self > *other
    }
}

impl HasDynamicPriority for i64 {
    type Value = i64;

    open spec fn current(&self) -> i64 {
        *self
    }

    fn priority(&self) -> (r: i64) {
        *self
    }
}

impl HasStaticPriority for isize {
    open spec fn rank(&self) -> int {
        *self as int
    }

    fn outranks(&self, other: &Self) -> (r: bool) {
        *self > *other
    }
}

impl HasDynamicPriority for isize {
    type Value = isize;

    open spec fn current(&self) -> isize {
        *self
    }

    fn priority(&self) -> (r: isize) {
        *self
    }
}

impl HasStaticPriority for u8 {
    open spec fn rank(&self) -> int {
        *self as int
    }

    fn outranks(&self, other: &Self) -> (r: bool) {
        *self > *other
    }
}

impl HasDynamicPriority for u8 {
    type Value = u8;

    open spec fn current(&self) -> u8 {
        *self
    }

    fn priority(&self) -> (r: u8) {
        *self
    }
}

impl HasStaticPriority for u16 {
    open spec fn rank(&self) -> int {
        *self as int
    }

    fn outranks(&self, other: &Self) -> (r: bool) {
        *self > *other
    }
}

impl HasDynamicPriority for u16 {
    type Value = u16;

    open spec fn current(&self) -> u16 {
        *self
    }

    fn priority(&self) -> (r: u16) {
        *self
    }
}

impl HasStaticPriority for u32 {
    open spec fn rank(&self) -> int {
        *self as int
    }

    fn outranks(&self, other: &Self) -> (r: bool) {
        *self > *other
    }
}

impl HasDynamicPriority for u32 {
    type Value = u32;

    open spec fn current(&self) -> u32 {
        *self
    }

    fn priority(&self) -> (r: u32) {
        *self
    }
}

impl HasStaticPriority for u64 {
    open spec fn rank(&self) -> int {
        *self as int
    }

    fn outranks(&self, other: &Self) -> (r: bool) {
        *self > *other
    }
}

impl HasDynamicPriority for u64 {
    type Value = u64;

    open spec fn current(&self) -> u64 {
        *self
    }

    fn priority(&self) -> (r: u64) {
        *self
    }
}

impl HasStaticPriority for usize {
    open spec fn rank(&self) -> int {
        *self as int
    }

    fn outranks(&self, other: &Self) -> (r: bool) {
        *self > *other
    }
}

impl HasDynamicPriority for usize {
    type Value = usize;

    open spec fn current(&self) -> usize {
        *self
    }

    fn priority(&self) -> (r: usize) {
        *self
    }
}

impl HasStaticPriority for i128 {
    open spec fn rank(&self) -> int {
        *self as int
    }

    fn outranks(&self, other: &Self) -> (r: bool) {
        *self > *other
    }
}

impl HasStaticPriority for u128 {
    open spec fn rank(&self) -> int {
        *self as int
    }

    fn outranks(&self, other: &Self) -> (r: bool) {
        *self > *other
    }
}

impl HasStaticPriority for bool {
    open spec fn rank(&self) -> int {
        if *self {
            1
        } else {
            0
        }
    }

    fn outranks(&self, other: &Self) -> (r: bool) {
        *self && !*other
    }
}

impl HasStaticPriority for () {
    open spec fn rank(&self) -> int {
        0
    }

    fn outranks(&self, _other: &Self) -> (r: bool) {
        false
    }
}

impl<P: HasStaticPriority> HasStaticPriority for std::sync::Arc<P> {
    open spec fn rank(&self) -> int {
        (**self).rank()
    }

    fn outranks(&self, other: &Self) -> (r: bool) {
        (**self).outranks(&**other)
    }
}

impl<P: HasDynamicPriority> HasDynamicPriority for std::sync::Arc<P> {
    type Value = P::Value;

    open spec fn current(&self) -> P::Value {
        (**self).current()
    }

    fn priority(&self) -> (r: P::Value) {
        (**self).priority()
    }
}

/// Whether `x` is one of the items and no item has a higher level.
pub open spec fn is_highest<T>(items: Multiset<T>, level: spec_fn(T) -> int, x: T) -> bool {
    &&& items.contains(x)
    &&& forall|y: T| #[trigger] items.contains(y) ==> level(y) <= level(x)
}

/// A queue that hands out an item of the highest priority first.
pub trait PriorityQueue<T>: Sized {
    /// The queue's internal order is intact.
    spec fn wf(&self) -> bool;

    /// The queued items.
    spec fn items(&self) -> Multiset<T>;

    /// The priority of an item.
    spec fn level(x: T) -> int;

    /// The number of queued items.
    fn len(&self) -> (r: usize)
        requires
            self.wf(),
        ensures
            r == self.items().len(),
    ;

    /// Whether nothing is queued.
    fn is_empty(&self) -> (r: bool)
        requires
            self.wf(),
        ensures
            r == (self.items().len() == 0),
    ;

    /// An item of the highest priority, `None` if nothing is queued.
    fn peek(&self) -> (r: Option<&T>)
        requires
            self.wf(),
        ensures
            r.is_none() == (self.items().len() == 0),
            r.is_some() ==> is_highest(self.items(), |x: T| Self::level(x), *r.unwrap()),
    ;

    /// Queues an item.
    fn push(&mut self, value: T)
        requires
            old(self).wf(),
        ensures
            final(self).wf(),
            final(self).items() == old(self).items().insert(value),
    ;

    /// Takes out an item of the highest priority, `None` if nothing is queued.
    fn pop(&mut self) -> (r: Option<T>)
        requires
            old(self).wf(),
        ensures
            final(self).wf(),
            r.is_none() == (old(self).items().len() == 0),
            r.is_none() ==> final(self).items() == old(self).items(),
            r.is_some() ==> is_highest(old(self).items(), |x: T| Self::level(x), r.unwrap()),
            r.is_some() ==> final(self).items() == old(self).items().remove(r.unwrap()),
    ;

    /// Exchanges `value` for an item of the highest priority if that priority is strictly higher
    /// than the value's own; hands `value` back otherwise.
    fn swap_if_higher(&mut self, value: T) -> (r: T)
        requires
            old(self).wf(),
        ensures
            final(self).wf(),
            (exists|x: T| #[trigger] old(self).items().contains(x) && Self::level(x) > Self::level(value))
                ==> {
                &&& is_highest(old(self).items(), |x: T| Self::level(x), r)
                &&& Self::level(r) > Self::level(value)
                &&& final(self).items() == old(self).items().remove(r).insert(value)
            },
            !(exists|x: T| #[trigger] old(self).items().contains(x) && Self::level(x) > Self::level(value))
                ==> r == value && final(self).items() == old(self).items(),
    ;
}

/// Exchanging two elements keeps the elements as a whole.
proof fn lemma_swap_multiset<T>(s: Seq<T>, i: int, j: int)
    requires
        0 <= i < s.len(),
        0 <= j < s.len(),
    ensures
        s.update(i, s[j]).update(j, s[i]).to_multiset() == s.to_multiset(),
{
    broadcast use vstd::seq_lib::group_to_multiset_ensures;

    let t = s.update(i, s[j]);
    assert(t.to_multiset() =~= s.to_multiset().insert(s[j]).remove(s[i]));
    assert(t.update(j, s[i]).to_multiset() =~= t.to_multiset().insert(s[i]).remove(t[j]));
    assert(s.contains(s[i]) && s.contains(s[j]));
    assert(t.update(j, s[i]).to_multiset() =~= s.to_multiset());
}

/// Filling a hole with the last element removes exactly the element that was there.
pub proof fn lemma_swap_remove_multiset<T>(s: Seq<T>, i: int)
    requires
        0 <= i < s.len(),
    ensures
        s.update(i, s.last()).drop_last().to_multiset() == s.to_multiset().remove(s[i]),
{
    broadcast use vstd::seq_lib::group_to_multiset_ensures;

    let t = s.update(i, s.last());
    assert(t =~= t.drop_last().push(t.last()));
    assert(t.to_multiset() =~= t.drop_last().to_multiset().insert(t.last()));
    assert(t.to_multiset() =~= s.to_multiset().insert(s.last()).remove(s[i]));
    assert(s.contains(s[i]));
    let m = s.to_multiset();
    let d = t.drop_last().to_multiset();
    assert(t.last() == s.last());
    assert forall|v: T| #[trigger] d.count(v) == m.remove(s[i]).count(v) by {
        assert(d.insert(s.last()).count(v) == m.insert(s.last()).remove(s[i]).count(v));
    }
    assert(d =~= m.remove(s[i]));
}

/// The place above place `i` in a heap.
pub open spec fn parent(i: int) -> int {
    (i - 1) / 2
}

/// The element at place `i` does not outrank the one above it.
pub open spec fn heap_at<T: HasStaticPriority>(s: Seq<T>, i: int) -> bool {
    s[parent(i)].rank() >= s[i].rank()
}

/// No element outranks the one above it.
pub open spec fn is_heap<T: HasStaticPriority>(s: Seq<T>) -> bool {
    forall|i: int| 0 < i < s.len() ==> #[trigger] heap_at(s, i)
}

/// The first element of a heap has the highest rank.
proof fn lemma_root_highest<T: HasStaticPriority>(s: Seq<T>, i: int)
    requires
        is_heap(s),
        0 <= i < s.len(),
    ensures
        s[0].rank() >= s[i].rank(),
    decreases i,
{
    if i > 0 {
        assert(heap_at(s, i));
        lemma_root_highest(s, parent(i));
    }
}

/// A queue for items whose priority never changes.
pub struct StaticPriorityQueue<T> {
    inner: Vec<T>,
}

fn sift_up<T: HasStaticPriority>(v: &mut Vec<T>, start: usize)
    requires
        start < old(v)@.len(),
        forall|i: int| 0 < i < old(v)@.len() && i != start ==> #[trigger] heap_at(old(v)@, i),
        forall|i: int|
            0 < i < old(v)@.len() && parent(i) == start && start > 0 ==> old(v)@[parent(start as int)].rank()
                >= (#[trigger] old(v)@[i]).rank(),
    ensures
        is_heap(final(v)@),
        final(v)@.to_multiset() == old(v)@.to_multiset(),
{
    let ghost before = v@;
    let mut pos: usize = start;
    while pos > 0
        invariant
            pos < v@.len(),
            before == old(v)@,
            v@.to_multiset() == before.to_multiset(),
            forall|i: int| 0 < i < v@.len() && i != pos ==> #[trigger] heap_at(v@, i),
            forall|i: int|
                0 < i < v@.len() && parent(i) == pos && pos > 0 ==> v@[parent(pos as int)].rank()
                    >= (#[trigger] v@[i]).rank(),
        decreases pos,
    {
        let p: usize = (pos - 1) / 2;
        if !v[pos].outranks(&v[p]) {
            assert(heap_at(v@, pos as int));
            return;
        }
        let ghost s = v@;
        exchange(v, pos, p);
        proof {
            lemma_swap_multiset(s, pos as int, p as int);
            assert forall|i: int| 0 < i < v@.len() && i != p implies #[trigger] heap_at(v@, i) by {
                if i != pos {
                    assert(heap_at(s, i));
                }
            }
            assert forall|i: int| 0 < i < v@.len() && parent(i) == p && p > 0 implies v@[parent(
                p as int,
            )].rank() >= (#[trigger] v@[i]).rank() by {
                assert(heap_at(s, p as int));
                if i != pos {
                    assert(heap_at(s, i));
                }
            }
        }
        pos = p;
    }
}

fn sift_down<T: HasStaticPriority>(v: &mut Vec<T>)
    requires
        forall|i: int| 0 < i < old(v)@.len() && parent(i) != 0 ==> #[trigger] heap_at(old(v)@, i),
    ensures
        is_heap(final(v)@),
        final(v)@.to_multiset() == old(v)@.to_multiset(),
{
    let ghost before = v@;
    let mut pos: usize = 0;
    while pos < v.len() / 2
        invariant
            before == old(v)@,
            v@.to_multiset() == before.to_multiset(),
            forall|i: int| 0 < i < v@.len() && parent(i) != pos ==> #[trigger] heap_at(v@, i),
            forall|i: int|
                0 < i < v@.len() && parent(i) == pos && pos > 0 ==> v@[parent(pos as int)].rank()
                    >= (#[trigger] v@[i]).rank(),
        decreases v@.len() - pos,
    {
        let left: usize = 2 * pos + 1;
        let mut child: usize = left;
        if left + 1 < v.len() && v[left + 1].outranks(&v[left]) {
            child = left + 1;
        }
        let ghost s = v@;
        assert forall|i: int| 0 < i < s.len() && parent(i) == pos implies (#[trigger] s[i]).rank()
            <= s[child as int].rank() by {
            assert(i == left || i == left + 1);
        }
        if !v[child].outranks(&v[pos]) {
            assert forall|i: int| 0 < i < v@.len() implies #[trigger] heap_at(v@, i) by {
                if parent(i) == pos {
                    assert(s[i].rank() <= s[child as int].rank());
                }
            }
            return;
        }
        exchange(v, pos, child);
        proof {
            lemma_swap_multiset(s, pos as int, child as int);
            assert forall|i: int| 0 < i < v@.len() && parent(i) != child implies #[trigger] heap_at(v@, i) by {
                if parent(i) == pos {
                    assert(s[i].rank() <= s[child as int].rank());
                } else if i == pos {
                    assert(s[parent(pos as int)].rank() >= s[child as int].rank());
                } else {
                    assert(heap_at(s, i));
                }
            }
            assert forall|i: int| 0 < i < v@.len() && parent(i) == child implies v@[parent(
                child as int,
            )].rank() >= (#[trigger] v@[i]).rank() by {
                assert(heap_at(s, i));
            }
        }
        pos = child;
    }
    assert forall|i: int| 0 < i < v@.len() implies #[trigger] heap_at(v@, i) by {
        assert(parent(i) < v@.len() / 2);
    }
}

impl<T: HasStaticPriority> StaticPriorityQueue<T> {
    /// The empty queue.
    pub fn new() -> (r: Self)
        ensures
            r.wf(),
            r.items() == Multiset::<T>::empty(),
    {
        broadcast use vstd::seq_lib::group_to_multiset_ensures;

        let r = StaticPriorityQueue { inner: Vec::new() };
        assert(r.items() =~= Multiset::<T>::empty());
        r
    }

    /// A queue of the given items.
    pub fn from_items(values: Vec<T>) -> (r: Self)
        ensures
            r.wf(),
            r.items() == values@.to_multiset(),
    {
        broadcast use vstd::seq_lib::group_to_multiset_ensures;

        let mut r = Self::new();
        let ghost all = values@;
        let mut rest = values;
        assert(r.items().add(rest@.to_multiset()) =~= all.to_multiset());
        while rest.len() > 0
            invariant
                r.wf(),
                r.items().add(rest@.to_multiset()) == all.to_multiset(),
            decreases rest@.len(),
        {
            let ghost s = rest@;
            match rest.pop() {
                Some(x) => {
                    let ghost m = r.items();
                    r.push(x);
                    proof {
                        broadcast use vstd::seq_lib::group_to_multiset_ensures;

                        assert(s =~= rest@.push(x));
                        assert(rest@.push(x).to_multiset() =~= rest@.to_multiset().insert(x));
                        assert(r.items().add(rest@.to_multiset()) =~= m.add(s.to_multiset()));
                    }
                },
                None => {},
            }
        }
        assert(r.items() =~= all.to_multiset());
        r
    }
}

impl<T: HasStaticPriority> PriorityQueue<T> for StaticPriorityQueue<T> {
    closed spec fn wf(&self) -> bool {
        is_heap(self.inner@)
    }

    closed spec fn items(&self) -> Multiset<T> {
        self.inner@.to_multiset()
    }

    open spec fn level(x: T) -> int {
        x.rank()
    }

    fn len(&self) -> (r: usize) {
        broadcast use vstd::seq_lib::group_to_multiset_ensures;

        self.inner.len()
    }

    fn is_empty(&self) -> (r: bool) {
        broadcast use vstd::seq_lib::group_to_multiset_ensures;

        self.inner.len() == 0
    }

    fn peek(&self) -> (r: Option<&T>) {
        broadcast use vstd::seq_lib::group_to_multiset_ensures;

        if self.inner.len() == 0 {
            None
        } else {
            proof {
                assert(self.inner@.contains(self.inner@[0]));
                assert forall|y: T| #[trigger] self.items().contains(y) implies y.rank() <= self.inner@[0].rank() by {
                    let i = choose|i: int| 0 <= i < self.inner@.len() && self.inner@[i] == y;
                    assert(self.inner@.contains(y));
                    lemma_root_highest(self.inner@, i);
                }
            }
            Some(&self.inner[0])
        }
    }

    fn push(&mut self, value: T) {
        broadcast use vstd::seq_lib::group_to_multiset_ensures;

        let ghost s = self.inner@;
        self.inner.push(value);
        let last: usize = self.inner.len() - 1;
        assert forall|i: int| 0 < i < self.inner@.len() && i != last implies #[trigger] heap_at(self.inner@, i) by {
            assert(heap_at(s, i));
        }
        sift_up(&mut self.inner, last);
        assert(self.items() =~= s.to_multiset().insert(value));
    }

    fn pop(&mut self) -> (r: Option<T>) {
        broadcast use vstd::seq_lib::group_to_multiset_ensures;

        let ghost s = self.inner@;
        let ghost all = self.items();
        if self.inner.len() == 0 {
            None
        } else {
            proof {
                assert(s.contains(s[0]));
                assert forall|y: T| #[trigger] all.contains(y) implies y.rank() <= s[0].rank() by {
                    assert(s.contains(y));
                    let i = choose|i: int| 0 <= i < s.len() && s[i] == y;
                    lemma_root_highest(s, i);
                }
                lemma_swap_remove_multiset(s, 0);
            }
            let top = self.inner.swap_remove(0);
            assert forall|i: int| 0 < i < self.inner@.len() && parent(i) != 0 implies #[trigger] heap_at(
                self.inner@,
                i,
            ) by {
                assert(heap_at(s, i));
            }
            sift_down(&mut self.inner);
            Some(top)
        }
    }

    fn swap_if_higher(&mut self, value: T) -> (r: T) {
        let higher = match self.peek() {
            Some(top) => top.outranks(&value),
            None => false,
        };
        if higher {
            match self.pop() {
                Some(top) => {
                    self.push(value);
                    top
                },
                None => value,
            }
        } else {
            value
        }
    }
}

/// The first place of an element that no element outranks.
pub open spec fn first_highest<T: HasDynamicPriority>(s: Seq<T>, i: int) -> bool {
    &&& 0 <= i < s.len()
    &&& forall|j: int| 0 <= j < s.len() ==> (#[trigger] s[j]).current().rank() <= s[i].current().rank()
    &&& forall|j: int| 0 <= j < i ==> (#[trigger] s[j]).current().rank() < s[i].current().rank()
}

/// A queue for items whose priority is asked anew at each access.
pub struct DynamicPriorityQueue<T> {
    inner: Vec<T>,
}

impl<T> View for DynamicPriorityQueue<T> {
    type V = Seq<T>;

    closed spec fn view(&self) -> Seq<T> {
        self.inner@
    }
}

impl<T: HasDynamicPriority> DynamicPriorityQueue<T> {
    /// The empty queue.
    pub fn new() -> (r: Self)
        ensures
            r.wf(),
            r@ == Seq::<T>::empty(),
    {
        DynamicPriorityQueue { inner: Vec::new() }
    }

    /// A queue of the given items.
    pub fn from_items(values: Vec<T>) -> (r: Self)
        ensures
            r.wf(),
            r@ == values@,
    {
        DynamicPriorityQueue { inner: values }
    }

    /// Among items of the highest priority, the one in the first place is found.
    fn find_highest(&self) -> (r: Option<(usize, T::Value)>)
        ensures
            r.is_none() == (self@.len() == 0),
            r.is_some() ==> first_highest(self@, r.unwrap().0 as int) && r.unwrap().1
                == self@[r.unwrap().0 as int].current(),
    {
        let mut highest: Option<(usize, T::Value)> = None;
        let mut i: usize = 0;
        while i < self.inner.len()
            invariant
                i <= self.inner@.len(),
                highest.is_none() == (i == 0),
                highest.is_some() ==> first_highest(self.inner@.take(i as int), highest.unwrap().0 as int)
                    && highest.unwrap().1 == self.inner@[highest.unwrap().0 as int].current(),
            decreases self.inner@.len() - i,
        {
            let ghost s = self.inner@;
            let ghost h = highest;
            let priority = self.inner[i].priority();
            let replace = match &highest {
                Some(h) => priority.outranks(&h.1),
                None => true,
            };
            if replace {
                highest = Some((i, priority));
            }
            proof {
                let k = highest.unwrap().0 as int;
                let t = s.take(i + 1);
                assert forall|j: int| 0 <= j < t.len() implies (#[trigger] t[j]).current().rank()
                    <= t[k].current().rank() by {
                    if j < i {
                        assert(s.take(i as int)[j] == t[j]);
                    }
                }
                assert forall|j: int| 0 <= j < k implies (#[trigger] t[j]).current().rank()
                    < t[k].current().rank() by {
                    assert(s.take(i as int)[j] == t[j]);
                }
            }
            i += 1;
        }
        assert(self.inner@.take(self.inner@.len() as int) =~= self.inner@);
        highest
    }

    proof fn lemma_first_highest(&self, i: int)
        requires
            first_highest(self@, i),
        ensures
            is_highest(self.items(), |x: T| <Self as PriorityQueue<T>>::level(x), self@[i]),
    {
        broadcast use vstd::seq_lib::group_to_multiset_ensures;

        assert(self@.contains(self@[i]));
        assert forall|y: T| #[trigger] self.items().contains(y) implies y.current().rank()
            <= self@[i].current().rank() by {
            assert(self@.contains(y));
            let j = choose|j: int| 0 <= j < self@.len() && self@[j] == y;
        }
    }
}

impl<T: HasDynamicPriority> PriorityQueue<T> for DynamicPriorityQueue<T> {
    open spec fn wf(&self) -> bool {
        true
    }

    open spec fn items(&self) -> Multiset<T> {
        self@.to_multiset()
    }

    open spec fn level(x: T) -> int {
        x.current().rank()
    }

    fn len(&self) -> (r: usize) {
        broadcast use vstd::seq_lib::group_to_multiset_ensures;

        self.inner.len()
    }

    fn is_empty(&self) -> (r: bool) {
        broadcast use vstd::seq_lib::group_to_multiset_ensures;

        self.inner.len() == 0
    }

    fn peek(&self) -> (r: Option<&T>)
        ensures
            r.is_some() ==> exists|i: int| first_highest(self@, i) && *r.unwrap() == #[trigger] self@[i],
    {
        broadcast use vstd::seq_lib::group_to_multiset_ensures;

        match self.find_highest() {
            Some(h) => {
                proof {
                    self.lemma_first_highest(h.0 as int);
                }
                Some(&self.inner[h.0])
            },
            None => None,
        }
    }

    fn push(&mut self, value: T)
        ensures
            final(self)@ == old(self)@.push(value),
    {
        broadcast use vstd::seq_lib::group_to_multiset_ensures;

        self.inner.push(value);
        assert(self.items() =~= old(self).items().insert(value));
    }

    fn pop(&mut self) -> (r: Option<T>)
        ensures
            r.is_some() ==> exists|i: int|
                first_highest(old(self)@, i) && r.unwrap() == #[trigger] old(self)@[i] && final(self)@ == old(
                    self,
                )@.update(i, old(self)@.last()).drop_last(),
    {
        broadcast use vstd::seq_lib::group_to_multiset_ensures;

        match self.find_highest() {
            Some(h) => {
                let idx: usize = h.0;
                proof {
                    self.lemma_first_highest(idx as int);
                    lemma_swap_remove_multiset(self@, idx as int);
                }
                Some(self.inner.swap_remove(idx))
            },
            None => None,
        }
    }

    fn swap_if_higher(&mut self, value: T) -> (r: T) {
        broadcast use vstd::seq_lib::group_to_multiset_ensures;

        let priority = value.priority();
        let target: Option<usize> = match self.find_highest() {
            Some(h) => if h.1.outranks(&priority) {
                Some(h.0)
            } else {
                proof {
                    self.lemma_first_highest(h.0 as int);
                }
                None
            },
            None => None,
        };
        match target {
            Some(idx) => {
                proof {
                    self.lemma_first_highest(idx as int);
                    lemma_swap_remove_multiset(self@, idx as int);
                    assert(self.items().contains(self@[idx as int]));
                }
                let found = self.inner.swap_remove(idx);
                self.inner.push(value);
                assert(self.items() =~= old(self).items().remove(found).insert(value));
                found
            },
            None => value,
        }
    }
}

/// Of two `i8` numbers the greater one ranks higher, and a queue of them hands out one that is at
/// least every number in the queue.
pub proof fn lemma_i8_greatest_first(a: i8, b: i8, items: Multiset<i8>)
    ensures
        a > b <==> a.rank() > b.rank(),
        a > b <==> a.current().rank() > b.current().rank(),
        a.current() == a,
        is_highest(items, |x: i8| StaticPriorityQueue::<i8>::level(x), a) ==> items.contains(a),
        is_highest(items, |x: i8| DynamicPriorityQueue::<i8>::level(x), a) ==> items.contains(a),
        is_highest(items, |x: i8| StaticPriorityQueue::<i8>::level(x), a) && items.contains(b) ==> a >= b,
        is_highest(items, |x: i8| DynamicPriorityQueue::<i8>::level(x), a) && items.contains(b) ==> a >= b,
{
}

/// Of two `i16` numbers the greater one ranks higher, and a queue of them hands out one that is at
/// least every number in the queue.
pub proof fn lemma_i16_greatest_first(a: i16, b: i16, items: Multiset<i16>)
    ensures
        a > b <==> a.rank() > b.rank(),
        a > b <==> a.current().rank() > b.current().rank(),
        a.current() == a,
        is_highest(items, |x: i16| StaticPriorityQueue::<i16>::level(x), a) ==> items.contains(a),
        is_highest(items, |x: i16| DynamicPriorityQueue::<i16>::level(x), a) ==> items.contains(a),
        is_highest(items, |x: i16| StaticPriorityQueue::<i16>::level(x), a) && items.contains(b) ==> a >= b,
        is_highest(items, |x: i16| DynamicPriorityQueue::<i16>::level(x), a) && items.contains(b) ==> a >= b,
{
}

/// Of two `i32` numbers the greater one ranks higher, and a queue of them hands out one that is at
/// least every number in the queue.
pub proof fn lemma_i32_greatest_first(a: i32, b: i32, items: Multiset<i32>)
    ensures
        a > b <==> a.rank() > b.rank(),
        a > b <==> a.current().rank() > b.current().rank(),
        a.current() == a,
        is_highest(items, |x: i32| StaticPriorityQueue::<i32>::level(x), a) ==> items.contains(a),
        is_highest(items, |x: i32| DynamicPriorityQueue::<i32>::level(x), a) ==> items.contains(a),
        is_highest(items, |x: i32| StaticPriorityQueue::<i32>::level(x), a) && items.contains(b) ==> a >= b,
        is_highest(items, |x: i32| DynamicPriorityQueue::<i32>::level(x), a) && items.contains(b) ==> a >= b,
{
}

/// Of two `i64` numbers the greater one ranks higher, and a queue of them hands out one that is at
/// least every number in the queue.
pub proof fn lemma_i64_greatest_first(a: i64, b: i64, items: Multiset<i64>)
    ensures
        a > b <==> a.rank() > b.rank(),
        a > b <==> a.current().rank() > b.current().rank(),
        a.current() == a,
        is_highest(items, |x: i64| StaticPriorityQueue::<i64>::level(x), a) ==> items.contains(a),
        is_highest(items, |x: i64| DynamicPriorityQueue::<i64>::level(x), a) ==> items.contains(a),
        is_highest(items, |x: i64| StaticPriorityQueue::<i64>::level(x), a) && items.contains(b) ==> a >= b,
        is_highest(items, |x: i64| DynamicPriorityQueue::<i64>::level(x), a) && items.contains(b) ==> a >= b,
{
}

/// Of two `isize` numbers the greater one ranks higher, and a queue of them hands out one that is at
/// least every number in the queue.
pub proof fn lemma_isize_greatest_first(a: isize, b: isize, items: Multiset<isize>)
    ensures
        a > b <==> a.rank() > b.rank(),
        a > b <==> a.current().rank() > b.current().rank(),
        a.current() == a,
        is_highest(items, |x: isize| StaticPriorityQueue::<isize>::level(x), a) ==> items.contains(a),
        is_highest(items, |x: isize| DynamicPriorityQueue::<isize>::level(x), a) ==> items.contains(a),
        is_highest(items, |x: isize| StaticPriorityQueue::<isize>::level(x), a) && items.contains(b) ==> a >= b,
        is_highest(items, |x: isize| DynamicPriorityQueue::<isize>::level(x), a) && items.contains(b) ==> a >= b,
{
}

/// Of two `u8` numbers the greater one ranks higher, and a queue of them hands out one that is at
/// least every number in the queue.
pub proof fn lemma_u8_greatest_first(a: u8, b: u8, items: Multiset<u8>)
    ensures
        a > b <==> a.rank() > b.rank(),
        a > b <==> a.current().rank() > b.current().rank(),
        a.current() == a,
        is_highest(items, |x: u8| StaticPriorityQueue::<u8>::level(x), a) ==> items.contains(a),
        is_highest(items, |x: u8| DynamicPriorityQueue::<u8>::level(x), a) ==> items.contains(a),
        is_highest(items, |x: u8| StaticPriorityQueue::<u8>::level(x), a) && items.contains(b) ==> a >= b,
        is_highest(items, |x: u8| DynamicPriorityQueue::<u8>::level(x), a) && items.contains(b) ==> a >= b,
{
}

/// Of two `u16` numbers the greater one ranks higher, and a queue of them hands out one that is at
/// least every number in the queue.
pub proof fn lemma_u16_greatest_first(a: u16, b: u16, items: Multiset<u16>)
    ensures
        a > b <==> a.rank() > b.rank(),
        a > b <==> a.current().rank() > b.current().rank(),
        a.current() == a,
        is_highest(items, |x: u16| StaticPriorityQueue::<u16>::level(x), a) ==> items.contains(a),
        is_highest(items, |x: u16| DynamicPriorityQueue::<u16>::level(x), a) ==> items.contains(a),
        is_highest(items, |x: u16| StaticPriorityQueue::<u16>::level(x), a) && items.contains(b) ==> a >= b,
        is_highest(items, |x: u16| DynamicPriorityQueue::<u16>::level(x), a) && items.contains(b) ==> a >= b,
{
}

/// Of two `u32` numbers the greater one ranks higher, and a queue of them hands out one that is at
/// least every number in the queue.
pub proof fn lemma_u32_greatest_first(a: u32, b: u32, items: Multiset<u32>)
    ensures
        a > b <==> a.rank() > b.rank(),
        a > b <==> a.current().rank() > b.current().rank(),
        a.current() == a,
        is_highest(items, |x: u32| StaticPriorityQueue::<u32>::level(x), a) ==> items.contains(a),
        is_highest(items, |x: u32| DynamicPriorityQueue::<u32>::level(x), a) ==> items.contains(a),
        is_highest(items, |x: u32| StaticPriorityQueue::<u32>::level(x), a) && items.contains(b) ==> a >= b,
        is_highest(items, |x: u32| DynamicPriorityQueue::<u32>::level(x), a) && items.contains(b) ==> a >= b,
{
}

/// Of two `u64` numbers the greater one ranks higher, and a queue of them hands out one that is at
/// least every number in the queue.
pub proof fn lemma_u64_greatest_first(a: u64, b: u64, items: Multiset<u64>)
    ensures
        a > b <==> a.rank() > b.rank(),
        a > b <==> a.current().rank() > b.current().rank(),
        a.current() == a,
        is_highest(items, |x: u64| StaticPriorityQueue::<u64>::level(x), a) ==> items.contains(a),
        is_highest(items, |x: u64| DynamicPriorityQueue::<u64>::level(x), a) ==> items.contains(a),
        is_highest(items, |x: u64| StaticPriorityQueue::<u64>::level(x), a) && items.contains(b) ==> a >= b,
        is_highest(items, |x: u64| DynamicPriorityQueue::<u64>::level(x), a) && items.contains(b) ==> a >= b,
{
}

/// Of two `usize` numbers the greater one ranks higher, and a queue of them hands out one that is at
/// least every number in the queue.
pub proof fn lemma_usize_greatest_first(a: usize, b: usize, items: Multiset<usize>)
    ensures
        a > b <==> a.rank() > b.rank(),
        a > b <==> a.current().rank() > b.current().rank(),
        a.current() == a,
        is_highest(items, |x: usize| StaticPriorityQueue::<usize>::level(x), a) ==> items.contains(a),
        is_highest(items, |x: usize| DynamicPriorityQueue::<usize>::level(x), a) ==> items.contains(a),
        is_highest(items, |x: usize| StaticPriorityQueue::<usize>::level(x), a) && items.contains(b) ==> a >= b,
        is_highest(items, |x: usize| DynamicPriorityQueue::<usize>::level(x), a) && items.contains(b) ==> a >= b,
{
}

/// Of two `i128` numbers the greater one ranks higher, and a queue of them hands out one that is at
/// least every number in the queue.
pub proof fn lemma_i128_greatest_first(a: i128, b: i128, items: Multiset<i128>)
    ensures
        a > b <==> a.rank() > b.rank(),
        is_highest(items, |x: i128| StaticPriorityQueue::<i128>::level(x), a) ==> items.contains(a),
        is_highest(items, |x: i128| StaticPriorityQueue::<i128>::level(x), a) && items.contains(b) ==> a >= b,
{
}

/// Of two `u128` numbers the greater one ranks higher, and a queue of them hands out one that is at
/// least every number in the queue.
pub proof fn lemma_u128_greatest_first(a: u128, b: u128, items: Multiset<u128>)
    ensures
        a > b <==> a.rank() > b.rank(),
        is_highest(items, |x: u128| StaticPriorityQueue::<u128>::level(x), a) ==> items.contains(a),
        is_highest(items, |x: u128| StaticPriorityQueue::<u128>::level(x), a) && items.contains(b) ==> a >= b,
{
}

/// What is true ranks above what is false, and nothing else ranks above anything.
pub proof fn lemma_true_first(a: bool, b: bool)
    ensures
        a.rank() > b.rank() <==> a && !b,
        a.rank() == b.rank() <==> a == b,
{
}

/// Values that tell nothing apart rank alike.
pub proof fn lemma_units_rank_alike(a: (), b: ())
    ensures
        a.rank() == b.rank(),
{
}

/// What is shared ranks as it does by itself.
pub proof fn lemma_shared_ranks_as_itself<P: HasStaticPriority>(a: std::sync::Arc<P>, b: std::sync::Arc<P>, p: P, q: P)
    requires
        *a == p,
        *b == q,
    ensures
        a.rank() > b.rank() <==> p.rank() > q.rank(),
        a.rank() == b.rank() <==> p.rank() == q.rank(),
{
}

/// What is shared answers the priority that it has by itself.
pub proof fn lemma_shared_answers_as_itself<P: HasDynamicPriority>(a: std::sync::Arc<P>, p: P)
    requires
        *a == p,
    ensures
        a.current() == p.current(),
{
}

/// The item that a queue hands out is one of its items, and none of them ranks above it.
pub proof fn lemma_none_ranks_above<T: HasStaticPriority>(items: Multiset<T>, top: T, y: T)
    requires
        is_highest(items, |x: T| StaticPriorityQueue::<T>::level(x), top),
        items.contains(y),
    ensures
        items.contains(top),
        y.rank() <= top.rank(),
{
    let level = |x: T| StaticPriorityQueue::<T>::level(x);
    assert(level(y) <= level(top));
}

/// The item that a queue hands out is one of its items, and none of them answers a priority that
/// ranks above what it answers.
pub proof fn lemma_none_answers_above<T: HasDynamicPriority>(items: Multiset<T>, top: T, y: T)
    requires
        is_highest(items, |x: T| DynamicPriorityQueue::<T>::level(x), top),
        items.contains(y),
    ensures
        items.contains(top),
        y.current().rank() <= top.current().rank(),
{
    let level = |x: T| DynamicPriorityQueue::<T>::level(x);
    assert(level(y) <= level(top));
}

/// Of the items with the highest priority a queue that asks its items hands out the one that stands
/// first.
pub proof fn lemma_first_of_equals<T: HasDynamicPriority>(items: Seq<T>, i: int, j: int)
    requires
        0 <= i < items.len(),
        0 <= j < items.len(),
        first_highest(items, i),
        items[j].current().rank() >= items[i].current().rank(),
    ensures
        i <= j,
        items[j].current().rank() == items[i].current().rank(),
{
}

} // verus!
