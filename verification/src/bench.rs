//! Where the workers of one search wait for one another.
//!
//! A worker that finds nothing to take lies down, and gets up when there is
//! something again, when the search is over or when its time is. Only its owner
//! pushes on a stack, and an owner lies down only while its own is empty, so
//! once all of them lie there is nothing left anywhere and nobody to push again.

use vstd::prelude::*;
use crate::config::Steal;
use crate::ct::CtNode;
use crate::num::Number;
use crate::play::{fetch_v, Signal};
use crate::pool::Pool;
use crate::search::{fetched, stacks_of, Answer, Worker};
use crate::tables::Lore;

verus! {

/// The stacks, the workers that lie, and the answer as soon as there is one.
pub struct Bench<N> {
    pub pool: Pool<CtNode<N>>,
    /// How many workers lie.
    pub idle: usize,
    /// Which ones.
    pub asleep: Ghost<Set<int>>,
    pub answer: Option<Answer>,
}

/// What a worker that lies is told.
#[derive(Clone, Copy, PartialEq, Eq, Structural, Debug)]
pub enum Call {
    /// There is nothing to take.
    Sleep,
    /// There is something to take.
    Take,
    /// The search is over.
    Leave,
}

/// The answer of a search is the first one given.
pub open spec fn first(old: Option<Answer>, new: Answer) -> Option<Answer> {
    if old is Some {
        old
    } else {
        Some(new)
    }
}

/// A set of places that is as large as the ring is the whole ring.
proof fn all_places(a: Set<int>, n: nat)
    requires
        a.finite(),
        a.len() == n,
        forall|i: int| #[trigger] a.contains(i) ==> 0 <= i < n,
    ensures
        forall|i: int| 0 <= i < n ==> #[trigger] a.contains(i),
    decreases n,
{
    if n > 0 {
        let m = (n - 1) as int;
        if a.contains(m) {
            all_places(a.remove(m), (n - 1) as nat);
            assert forall|i: int| 0 <= i < n implies #[trigger] a.contains(i) by {
                if i < m {
                    assert(a.remove(m).contains(i));
                }
            }
        } else {
            at_most(a, (n - 1) as nat);
        }
    }
}

proof fn at_most(a: Set<int>, n: nat)
    requires
        a.finite(),
        forall|i: int| #[trigger] a.contains(i) ==> 0 <= i < n,
    ensures
        a.len() <= n,
    decreases n,
{
    if n == 0 {
        assert(a =~= Set::empty());
    } else {
        at_most(a.remove((n - 1) as int), (n - 1) as nat);
    }
}

impl<N: Number> Bench<N> {
    /// A worker that lies has left its own stack empty.
    pub open spec fn inv(&self) -> bool {
        &&& self.asleep@.finite()
        &&& self.asleep@.len() == self.idle
        &&& forall|i: int| #[trigger]
            self.asleep@.contains(i) ==> 0 <= i < self.pool.stacks@.len()
                && self.pool.stacks@[i]@.len() == 0
    }

    /// This worker is up.
    pub open spec fn up(&self, place: int) -> bool {
        0 <= place < self.pool.stacks@.len() && !self.asleep@.contains(place)
    }

    /// Everybody up, and nothing to do.
    pub fn new(workers: usize, steal: Steal) -> (r: Bench<N>)
        ensures
            r.inv(),
            r.asleep@ == Set::<int>::empty(),
            r.answer is None,
            r.pool.steal == steal,
            r.pool.stacks@.len() == workers,
            forall|i: int| 0 <= i < workers ==> (#[trigger] r.pool.stacks@[i])@.len() == 0,
    {
        let pool = Pool::new(workers, steal);
        assert forall|i: int| 0 <= i < workers implies (#[trigger] pool.stacks@[i])@.len() == 0 by {
            assert(pool.stacks@[i]@ == Seq::<CtNode<N>>::empty());
        }
        Bench { pool, idle: 0, asleep: Ghost(Set::empty()), answer: None }
    }

    /// Takes a node from the stacks, when there is one.
    pub fn fetch(&mut self, me: &mut Worker<N>, place: usize) -> (r: bool)
        requires
            old(self).inv(),
            old(self).up(place as int),
            old(me).node is None,
        ensures
            final(self).inv(),
            final(self).asleep == old(self).asleep,
            final(self).answer == old(self).answer,
            final(self).pool.stacks@.len() == old(self).pool.stacks@.len(),
            final(self).pool.steal == old(self).pool.steal,
            r == final(me).node is Some,
            final(me).local == old(me).local,
            final(me).expanded == old(me).expanded,
            final(me).peak == old(me).peak,
            final(me).rng == old(me).rng,
            r ==> final(me).since == 0 && fetched(
                old(self).pool,
                final(self).pool,
                final(me).node.unwrap(),
            ),
            forall|lore: Lore|
                {
                    let d = #[trigger] fetch_v(
                        old(self).pool.steal,
                        lore,
                        old(me).hand(),
                        stacks_of(old(self).pool),
                        place as int,
                    );
                    &&& d.hand == final(me).hand()
                    &&& d.stacks == stacks_of(final(self).pool)
                    &&& d.signal == if r { Signal::Busy } else { Signal::Idle }
                },
            !r ==> *final(me) == *old(me) && final(self).pool.stacks@[place as int]@.len() == 0 && (
            forall|i: int|
                0 <= i < old(self).pool.stacks@.len() ==> (#[trigger] final(self).pool.stacks@[i])@
                    == old(self).pool.stacks@[i]@),
    {
        me.fetch(&mut self.pool, place)
    }

    /// Hands the oldest node over while the stack others steal from is empty.
    pub fn hand_over(&mut self, me: &mut Worker<N>, place: usize)
        requires
            old(self).inv(),
            old(self).up(place as int),
        ensures
            final(self).inv(),
            final(self).asleep == old(self).asleep,
            final(self).answer == old(self).answer,
            final(self).pool.stacks@.len() == old(self).pool.stacks@.len(),
            final(self).pool.steal == old(self).pool.steal,
            final(me).node == old(me).node,
            final(me).rng == old(me).rng,
            final(me).expanded == old(me).expanded,
            final(me).since == old(me).since,
            final(me).peak == old(me).peak,
            forall|i: int|
                0 <= i < old(self).pool.stacks@.len() && i != place ==> (
                #[trigger] final(self).pool.stacks@[i]) == old(self).pool.stacks@[i],
            ({
                let l = old(me).local@;
                let s = old(self).pool.stacks@[place as int]@;
                if l.len() > 1 && s.len() == 0 {
                    &&& final(me).local@ == l.subrange(1, l.len() as int)
                    &&& final(self).pool.stacks@[place as int]@ == s.push(l[0])
                } else {
                    &&& final(me).local@ == l
                    &&& final(self).pool.stacks@[place as int]@ == s
                }
            }),
    {
        me.hand_over(&mut self.pool, place)
    }

    /// Gives an answer. The first one stands.
    pub fn finish(&mut self, answer: Answer)
        requires
            old(self).inv(),
        ensures
            final(self).inv(),
            final(self).pool == old(self).pool,
            final(self).asleep == old(self).asleep,
            final(self).answer == first(old(self).answer, answer),
    {
        if self.answer.is_none() {
            self.answer = Some(answer);
        }
    }

    /// A worker that found nothing to take lies down. The last one to do so
    /// ends the search, no strategy found, and says so.
    pub fn lie_down(&mut self, place: usize) -> (r: Call)
        requires
            old(self).inv(),
            old(self).up(place as int),
            old(self).pool.stacks@[place as int]@.len() == 0,
        ensures
            final(self).inv(),
            final(self).pool == old(self).pool,
            final(self).asleep@ == old(self).asleep@.insert(place as int),
            r == if final(self).idle == final(self).pool.stacks@.len() {
                Call::Leave
            } else {
                Call::Sleep
            },
            r == Call::Sleep ==> final(self).answer == old(self).answer,
            r == Call::Leave ==> final(self).answer == first(old(self).answer, Answer::No),
            r == Call::Leave ==> forall|i: int|
                0 <= i < final(self).pool.stacks@.len() ==> (
                #[trigger] final(self).pool.stacks@[i])@.len() == 0,
    {
        let n = self.pool.stacks.len();
        let ghost lying = self.asleep@.insert(place as int);
        proof {
            at_most(lying, n as nat);
        }
        self.idle = self.idle + 1;
        self.asleep = Ghost(lying);
        if self.idle == n {
            proof {
                all_places(lying, n as nat);
                assert forall|i: int| 0 <= i < n implies (
                #[trigger] self.pool.stacks@[i])@.len() == 0 by {
                    assert(lying.contains(i));
                }
            }
            self.finish(Answer::No);
            Call::Leave
        } else {
            Call::Sleep
        }
    }

    /// A worker that lies looks whether to get up: because its time is over,
    /// which ends the search, because the search is over already, or because
    /// there is something to take.
    pub fn look_up(&mut self, place: usize, late: bool) -> (r: Call)
        requires
            old(self).inv(),
            old(self).asleep@.contains(place as int),
        ensures
            final(self).inv(),
            final(self).pool == old(self).pool,
            r == if late || old(self).answer is Some {
                Call::Leave
            } else if old(self).pool.in_reach(place as int) {
                Call::Take
            } else {
                Call::Sleep
            },
            final(self).asleep@ == if r == Call::Sleep {
                old(self).asleep@
            } else {
                old(self).asleep@.remove(place as int)
            },
            final(self).answer == if late {
                first(old(self).answer, Answer::Timeout)
            } else {
                old(self).answer
            },
    {
        let up = late || self.answer.is_some() || self.pool.anything(place);
        if !up {
            return Call::Sleep;
        }
        self.idle = self.idle - 1;
        self.asleep = Ghost(self.asleep@.remove(place as int));
        if late {
            self.finish(Answer::Timeout);
            Call::Leave
        } else if self.answer.is_some() {
            Call::Leave
        } else {
            Call::Take
        }
    }
}

} // verus!
