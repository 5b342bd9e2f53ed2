//! Fan-out of one wake-up to many waiters.
use vstd::prelude::*;

use crate::util::table::IdSet;

verus! {

/// The waiters of `s` that are still alive, in order.
pub open spec fn living(s: Seq<u64>, alive: Seq<u64>) -> Seq<u64>
    decreases s.len(),
{
    if s.len() == 0 {
        s
    } else if alive.contains(s.last()) {
        living(s.drop_last(), alive).push(s.last())
    } else {
        living(s.drop_last(), alive)
    }
}

/// A list of waiters that are woken together. A waiter that is gone is forgotten at the next
/// wake-up.
pub struct MultiWaker {
    waiters: Vec<u64>,
}

impl View for MultiWaker {
    type V = Seq<u64>;

    closed spec fn view(&self) -> Seq<u64> {
        self.waiters@
    }
}

impl MultiWaker {
    /// Nobody waits.
    pub fn new() -> (r: Self)
        ensures
            r@ == Seq::<u64>::empty(),
    {
        MultiWaker { waiters: Vec::new() }
    }

    /// The number of waiters.
    pub fn len(&self) -> (r: usize)
        ensures
            r == self@.len(),
    {
        self.waiters.len()
    }

    /// Whether nobody waits.
    pub fn is_empty(&self) -> (r: bool)
        ensures
            r == (self@.len() == 0),
    {
        self.waiters.len() == 0
    }

    /// Adds a waiter.
    pub fn push(&mut self, waiter: u64)
        ensures
            final(self)@ == old(self)@.push(waiter),
    {
        self.waiters.push(waiter);
    }

    /// Adds all waiters of another list, in their order, and leaves that list empty.
    pub fn extend(&mut self, other: &mut MultiWaker)
        ensures
            final(self)@ == old(self)@ + old(other)@,
            final(other)@ == Seq::<u64>::empty(),
    {
        self.waiters.append(&mut other.waiters);
    }

    /// Keeps the waiters that are alive, and returns them: they are the ones to wake.
    pub fn wake(&mut self, alive: &IdSet<u64>) -> (r: Vec<u64>)
        ensures
            final(self)@ == living(old(self)@, alive@),
            r@ == living(old(self)@, alive@),
    {
        let mut kept: Vec<u64> = Vec::new();
        let mut woken: Vec<u64> = Vec::new();
        let mut i: usize = 0;
        assert(self.waiters@.take(0) =~= Seq::<u64>::empty());
        while i < self.waiters.len()
            invariant
                i <= self.waiters@.len(),
                self.waiters@ == old(self)@,
                kept@ == living(self.waiters@.take(i as int), alive@),
                woken@ == kept@,
            decreases self.waiters@.len() - i,
        {
            assert(self.waiters@.take(i + 1).drop_last() =~= self.waiters@.take(i as int));
            let waiter: u64 = self.waiters[i];
            if alive.contains(&waiter) {
                kept.push(waiter);
                woken.push(waiter);
            }
            i += 1;
        }
        assert(self.waiters@.take(self.waiters@.len() as int) =~= self.waiters@);
        self.waiters = kept;
        woken
    }
}

/// What is woken is alive, and everything alive that waited is woken.
pub proof fn lemma_living(s: Seq<u64>, alive: Seq<u64>)
    ensures
        forall|w: u64| #[trigger] living(s, alive).contains(w) <==> s.contains(w) && alive.contains(w),
    decreases s.len(),
{
    if s.len() > 0 {
        lemma_living(s.drop_last(), alive);
        let rest = living(s.drop_last(), alive);
        assert forall|w: u64| #[trigger] living(s, alive).contains(w) <==> s.contains(w) && alive.contains(w) by {
            assert(s =~= s.drop_last().push(s.last()));
            if s.contains(w) && w != s.last() {
                let i = choose|i: int| 0 <= i < s.len() && s[i] == w;
                assert(s.drop_last()[i] == w);
            }
            if s.drop_last().contains(w) {
                let i = choose|i: int| 0 <= i < s.drop_last().len() && s.drop_last()[i] == w;
                assert(s[i] == w);
            }
            if rest.contains(w) {
                let i = choose|i: int| 0 <= i < rest.len() && rest[i] == w;
                assert(living(s, alive)[i] == w);
            }
            if alive.contains(s.last()) {
                assert(living(s, alive)[rest.len() as int] == s.last());
            }
            if living(s, alive).contains(w) {
                let i = choose|i: int| 0 <= i < living(s, alive).len() && living(s, alive)[i] == w;
                if i < rest.len() {
                    assert(rest[i] == w);
                }
            }
            assert(s[s.len() - 1] == s.last());
        }
    }
}

/// Waiters are woken in the order in which they wait, as often as they wait: those of two lists are
/// those of the first, followed by those of the second.
pub proof fn lemma_woken_in_order(a: Seq<u64>, b: Seq<u64>, alive: Seq<u64>, waiter: u64)
    ensures
        living(a + b, alive) == living(a, alive) + living(b, alive),
        alive.contains(waiter) ==> living(seq![waiter], alive) == seq![waiter],
        !alive.contains(waiter) ==> living(seq![waiter], alive).len() == 0,
    decreases b.len(),
{
    let one = seq![waiter];
    assert(one.drop_last() =~= Seq::<u64>::empty());
    assert(living(one.drop_last(), alive) =~= Seq::<u64>::empty());
    assert(one.last() == waiter);
    assert(Seq::<u64>::empty().push(waiter) =~= one);
    if b.len() == 0 {
        assert(a + b =~= a);
        assert(living(a, alive) + living(b, alive) =~= living(a, alive));
    } else {
        lemma_woken_in_order(a, b.drop_last(), alive, waiter);
        assert((a + b).drop_last() =~= a + b.drop_last());
        assert(living(a + b, alive) =~= living(a, alive) + living(b, alive));
    }
}

/// A list from which everybody alive was woken wakes the same ones again.
pub proof fn lemma_woken_stay(s: Seq<u64>, alive: Seq<u64>)
    ensures
        living(living(s, alive), alive) == living(s, alive),
    decreases s.len(),
{
    if s.len() > 0 {
        lemma_woken_stay(s.drop_last(), alive);
        let rest = living(s.drop_last(), alive);
        if alive.contains(s.last()) {
            assert(rest.push(s.last()).drop_last() =~= rest);
        }
    }
}

} // verus!
