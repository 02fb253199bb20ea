//! The stacks of the workers, arranged in a ring.
//!
//! The owner of a stack takes from the top of it; a worker whose own stack is
//! empty takes from the bottom of another. What sits at the bottom is the
//! **oldest** node its owner handed over, which in a depth-first search is the
//! largest part of the tree left to do.

use vstd::prelude::*;
use std::collections::VecDeque;
use crate::config::Steal;

verus! {

pub struct Pool<T> {
    pub stacks: Vec<VecDeque<T>>,
    pub steal: Steal,
}

/// The worker before this one in a ring of `n`.
pub open spec fn before(w: int, hop: int, n: int) -> int {
    if w >= hop { w - hop } else { w + n - hop }
}

/// The first stack that is not empty, from `hop` places before `w` to just
/// after it in the ring.
pub open spec fn backwards(sizes: Seq<nat>, w: int, hop: int) -> Option<int>
    decreases sizes.len() - hop,
{
    let n = sizes.len() as int;
    if hop >= n {
        None
    } else if sizes[before(w, hop, n)] > 0 {
        Some(before(w, hop, n))
    } else {
        backwards(sizes, w, hop + 1)
    }
}

/// Where a worker whose own stack is empty steals from.
pub open spec fn victim(sizes: Seq<nat>, w: int, steal: Steal) -> Option<int> {
    let n = sizes.len() as int;
    match steal {
        Steal::Ring => if sizes[before(w, 1, n)] > 0 { Some(before(w, 1, n)) } else { None },
        Steal::Any => backwards(sizes, w, 1),
    }
}

impl<T> Pool<T> {
    /// How many nodes each stack holds.
    pub open spec fn sizes(&self) -> Seq<nat> {
        Seq::new(self.stacks@.len(), |i: int| self.stacks@[i]@.len())
    }

    /// A worker of this place would find something to take.
    pub open spec fn in_reach(&self, w: int) -> bool {
        match self.steal {
            Steal::Ring => self.stacks@[w]@.len() > 0 || self.stacks@[before(
                w,
                1,
                self.stacks@.len() as int,
            )]@.len() > 0,
            Steal::Any => exists|i: int|
                0 <= i < self.stacks@.len() && (#[trigger] self.stacks@[i])@.len() > 0,
        }
    }

    /// As many empty stacks as there are workers.
    pub fn new(workers: usize, steal: Steal) -> (r: Pool<T>)
        ensures
            r.stacks@.len() == workers,
            r.steal == steal,
            forall|i: int| 0 <= i < workers ==> (#[trigger] r.stacks@[i])@ == Seq::<T>::empty(),
    {
        let mut stacks: Vec<VecDeque<T>> = Vec::new();
        for i in 0..workers
            invariant
                stacks@.len() == i,
                forall|j: int| 0 <= j < i ==> (#[trigger] stacks@[j])@ == Seq::<T>::empty(),
        {
            stacks.push(VecDeque::new());
        }
        Pool { stacks, steal }
    }

    /// Puts a node on top of a stack.
    pub fn push(&mut self, w: usize, node: T)
        requires
            w < old(self).stacks@.len(),
        ensures
            final(self).steal == old(self).steal,
            final(self).stacks@.len() == old(self).stacks@.len(),
            final(self).stacks@[w as int]@ == old(self).stacks@[w as int]@.push(node),
            forall|i: int|
                0 <= i < old(self).stacks@.len() && i != w ==> #[trigger] final(self).stacks@[i]
                    == old(self).stacks@[i],
    {
        self.stacks[w].push_back(node);
    }

    /// The owner takes from the top.
    pub fn pop(&mut self, w: usize) -> (r: Option<T>)
        requires
            w < old(self).stacks@.len(),
        ensures
            final(self).steal == old(self).steal,
            final(self).stacks@.len() == old(self).stacks@.len(),
            forall|i: int|
                0 <= i < old(self).stacks@.len() && i != w ==> #[trigger] final(self).stacks@[i]
                    == old(self).stacks@[i],
            ({
                let s = old(self).stacks@[w as int]@;
                match r {
                    Some(x) => s.len() > 0 && x == s.last() && final(self).stacks@[w as int]@
                        == s.drop_last(),
                    None => s.len() == 0 && final(self).stacks@[w as int]@ == s,
                }
            }),
    {
        self.stacks[w].pop_back()
    }

    /// Another worker takes from the bottom.
    pub fn steal(&mut self, w: usize) -> (r: Option<T>)
        requires
            w < old(self).stacks@.len(),
        ensures
            final(self).steal == old(self).steal,
            final(self).stacks@.len() == old(self).stacks@.len(),
            forall|i: int|
                0 <= i < old(self).stacks@.len() && i != w ==> #[trigger] final(self).stacks@[i]
                    == old(self).stacks@[i],
            ({
                let s = old(self).stacks@[w as int]@;
                match r {
                    Some(x) => s.len() > 0 && x == s[0] && final(self).stacks@[w as int]@
                        == s.subrange(1, s.len() as int),
                    None => s.len() == 0 && final(self).stacks@[w as int]@ == s,
                }
            }),
    {
        self.stacks[w].pop_front()
    }

    pub fn is_empty(&self, w: usize) -> (r: bool)
        requires
            w < self.stacks@.len(),
        ensures
            r == (self.stacks@[w as int]@.len() == 0),
    {
        self.stacks[w].len() == 0
    }

    /// The worker `hop` places before this one.
    fn behind(&self, w: usize, hop: usize) -> (r: usize)
        requires
            w < self.stacks@.len(),
            hop <= self.stacks@.len(),
        ensures
            r == before(w as int, hop as int, self.stacks@.len() as int),
            1 <= hop ==> r < self.stacks@.len(),
    {
        if w >= hop {
            w - hop
        } else {
            self.stacks.len() - (hop - w)
        }
    }

    /// The worker before this one in the ring.
    pub fn predecessor(&self, w: usize) -> (r: usize)
        requires
            w < self.stacks@.len(),
        ensures
            r == (w + self.stacks@.len() - 1) % self.stacks@.len() as int,
            r == before(w as int, 1, self.stacks@.len() as int),
            r < self.stacks@.len(),
    {
        let r = self.behind(w, 1);
        proof {
            let n = self.stacks@.len() as int;
            if w >= 1 {
                vstd::arithmetic::div_mod::lemma_mod_add_multiples_vanish(w - 1, n);
                vstd::arithmetic::div_mod::lemma_small_mod((w - 1) as nat, n as nat);
            } else {
                vstd::arithmetic::div_mod::lemma_small_mod((n - 1) as nat, n as nat);
            }
        }
        r
    }

    /// Takes a node: from the top of one's own stack, and when that is empty
    /// from the bottom of another.
    pub fn take(&mut self, w: usize) -> (r: Option<T>)
        requires
            w < old(self).stacks@.len(),
        ensures
            final(self).steal == old(self).steal,
            final(self).stacks@.len() == old(self).stacks@.len(),
            ({
                let s = old(self).stacks@;
                let own = s[w as int]@;
                if own.len() > 0 {
                    &&& r == Some(own.last())
                    &&& final(self).stacks@[w as int]@ == own.drop_last()
                    &&& forall|i: int|
                        0 <= i < s.len() && i != w ==> #[trigger] final(self).stacks@[i] == s[i]
                } else {
                    match victim(old(self).sizes(), w as int, old(self).steal) {
                        Some(v) => {
                            &&& 0 <= v < s.len()
                            &&& s[v]@.len() > 0
                            &&& r == Some(s[v]@[0])
                            &&& final(self).stacks@[v]@ == s[v]@.subrange(1, s[v]@.len() as int)
                            &&& forall|i: int|
                                0 <= i < s.len() && i != v ==> (#[trigger] final(self).stacks@[i])@
                                    == s[i]@
                        },
                        None => {
                            &&& r is None
                            &&& forall|i: int|
                                0 <= i < s.len() ==> (#[trigger] final(self).stacks@[i])@ == s[i]@
                        },
                    }
                }
            }),
    {
        let ghost start = self.stacks@;
        let ghost sizes = self.sizes();
        if let Some(n) = self.pop(w) {
            return Some(n);
        }
        let n = self.stacks.len();
        match self.steal {
            Steal::Ring => {
                let p = self.predecessor(w);
                let r = self.steal(p);
                assert(sizes[p as int] == start[p as int]@.len());
                r
            },
            Steal::Any => {
                for hop in 1..n
                    invariant
                        w < n,
                        n == self.stacks@.len(),
                        n == start.len(),
                        start == old(self).stacks@,
                        sizes == old(self).sizes(),
                        old(self).steal == Steal::Any,
                        self.steal == old(self).steal,
                        start[w as int]@.len() == 0,
                        sizes.len() == n,
                        forall|i: int|
                            0 <= i < n ==> #[trigger] sizes[i] == start[i]@.len(),
                        forall|i: int| 0 <= i < n ==> (#[trigger] self.stacks@[i])@ == start[i]@,
                        victim(sizes, w as int, Steal::Any) == backwards(
                            sizes,
                            w as int,
                            hop as int,
                        ),
                {
                    let v = self.behind(w, hop);
                    if let Some(node) = self.steal(v) {
                        return Some(node);
                    }
                }
                None
            },
        }
    }

    /// Whether an idle worker would find something to take.
    pub fn anything(&self, w: usize) -> (r: bool)
        requires
            w < self.stacks@.len(),
        ensures
            r == self.in_reach(w as int),
    {
        match self.steal {
            Steal::Ring => !self.is_empty(w) || !self.is_empty(self.predecessor(w)),
            Steal::Any => {
                for i in 0..self.stacks.len()
                    invariant
                        self.steal == Steal::Any,
                        forall|j: int| 0 <= j < i ==> (#[trigger] self.stacks@[j])@.len() == 0,
                {
                    if !self.is_empty(i) {
                        assert(self.stacks@[i as int]@.len() > 0);
                        return true;
                    }
                }
                false
            },
        }
    }
}

} // verus!
