//! Where the records of the tables live.
//!
//! A record is created once and then read for the rest of the run. The arena
//! only ever grows, so the position a record was placed at names it for good,
//! and the search passes positions, which are `Copy` and touch no memory when
//! they are handed around.

use vstd::prelude::*;

verus! {

pub struct Arena<T> {
    owned: Vec<T>,
}

impl<T> View for Arena<T> {
    type V = Seq<T>;

    closed spec fn view(&self) -> Seq<T> {
        self.owned@
    }
}

impl<T> Arena<T> {
    pub fn new() -> (r: Arena<T>)
        ensures
            r@ == Seq::<T>::empty(),
    {
        Arena { owned: Vec::new() }
    }

    /// Takes ownership of `value` and hands back where it sits.
    pub fn place(&mut self, value: T) -> (at: usize)
        ensures
            final(self)@ == old(self)@.push(value),
            at == old(self)@.len(),
    {
        let at = self.owned.len();
        self.owned.push(value);
        at
    }

    /// The record at a position.
    pub fn get(&self, at: usize) -> (r: &T)
        requires
            at < self@.len(),
        ensures
            *r == self@[at as int],
    {
        &self.owned[at]
    }

    pub fn len(&self) -> (n: usize)
        ensures
            n == self@.len(),
    {
        self.owned.len()
    }
}

impl<T> Default for Arena<T> {
    fn default() -> (r: Arena<T>)
        ensures
            r@ == Seq::<T>::empty(),
    {
        Arena::new()
    }
}

} // verus!
