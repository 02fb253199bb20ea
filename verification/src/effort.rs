//! How much of the computation tree is left.
//!
//! A node weighs three to the number of decisions that may still be met from
//! its frontier, once more. Resolving one of them leaves two nodes that weigh
//! less together, with room for one of them to be handed over.

use vstd::prelude::*;
use crate::frontier::{
    front_at, front_at_sound, legal, open_waits, part, resolved, sound, Front, Moves,
};
use crate::history::{extended, kids};
use crate::num::{zeros_v, Number};
use crate::progress::branch_works;
use crate::semantics::{best_is_least, rank, started};
use crate::state::{reply, Leaf, Stop};
use crate::strategy::picked;
use crate::tables::Branch;
use crate::tree::Tree;
use crate::unfolding::{ahead, ahead_join, decisions_ahead, forced_ahead};

verus! {

pub open spec fn pow3(n: nat) -> nat
    decreases n,
{
    if n == 0 {
        1
    } else {
        3 * pow3((n - 1) as nat)
    }
}

pub proof fn pow3_grows(a: nat, b: nat)
    requires
        a <= b,
    ensures
        1 <= pow3(a) <= pow3(b),
    decreases b,
{
    if a < b {
        pow3_grows(a, (b - 1) as nat);
    } else if b > 0 {
        pow3_grows((a - 1) as nat, (b - 1) as nat);
    }
}

/// What a node of the computation tree weighs.
pub open spec fn weight<N: Number>(t: &Tree<N>, m: Moves) -> nat {
    pow3(ahead(t, front_at(t, m).open) + 1)
}

proof fn ahead_remove<N: Number>(t: &Tree<N>, ls: Seq<Leaf<N::Value>>, i: int)
    requires
        0 <= i < ls.len(),
    ensures
        ahead(t, ls) == ahead(t, ls.remove(i)) + decisions_ahead(t, ls[i].state),
    decreases ls.len(),
{
    if i == ls.len() - 1 {
        assert(ls.remove(i) =~= ls.drop_last());
    } else {
        ahead_remove(t, ls.drop_last(), i);
        assert(ls.remove(i).drop_last() =~= ls.drop_last().remove(i));
    }
}

proof fn ahead_part<N: Number>(t: &Tree<N>, ls: Seq<Leaf<N::Value>>)
    ensures
        ahead(t, part(ls, true)) <= ahead(t, ls),
    decreases ls.len(),
{
    if ls.len() > 0 {
        let a = ls.drop_last();
        ahead_part(t, a);
        if ls.last().stop != Stop::Final {
            assert(part(ls, true).drop_last() =~= part(a, true));
        }
    }
}

proof fn ahead_extended<N: Number>(t: &Tree<N>, h: Leaf<N::Value>, ls: Seq<Leaf<N::Value>>)
    ensures
        ahead(t, Seq::new(ls.len(), |i: int| extended::<N>(h, ls[i]))) == ahead(t, ls),
    decreases ls.len(),
{
    let ks = Seq::new(ls.len(), |i: int| extended::<N>(h, ls[i]));
    if ls.len() > 0 {
        let a = ls.drop_last();
        ahead_extended(t, h, a);
        assert(ks.drop_last() =~= Seq::new(a.len(), |i: int| extended::<N>(h, a[i])));
    }
}

/// Resolving a choice leaves fewer decisions to be met.
pub proof fn resolved_ahead<N: Number>(t: &Tree<N>, f: Front<N::Value>, i: int, b: Branch)
    requires
        t.wf(),
        sound(t, f),
        0 <= i < f.open.len(),
    ensures
        ahead(t, resolved(t, f, i, b).open) < ahead(t, f.open),
{
    let h = f.open[i];
    let ks = kids(t, h, b);
    open_waits(t, h);
    let w = rank(t.net().nodes, h.state).unwrap().1;
    let a = picked(t.net().nodes[w], b) as u32;
    let ls = reply(t, h.state, a);
    best_is_least(t.net().nodes, h.state, t.net().size());
    branch_works(t.net(), h.state);
    forced_ahead(t, started(h.state, a as int), seq![a], zeros_v::<N>(t.k as nat), N::one_v());
    ahead_extended(t, h, ls);
    assert(ks =~= Seq::new(ls.len(), |i: int| extended::<N>(h, ls[i])));
    ahead_part(t, ks);
    ahead_remove(t, f.open, i);
    ahead_join(t, f.open.remove(i), part(ks, true));
}

/// The two children of a node weigh less than the node, with one to spare.
pub proof fn split_weighs<N: Number>(t: &Tree<N>, m: Moves, i: int)
    requires
        t.wf(),
        legal(t, m),
        0 <= i < front_at(t, m).open.len(),
    ensures
        weight(t, m.push((i, Branch::Low))) + weight(t, m.push((i, Branch::High))) + 1 < weight(t, m),
{
    let f = front_at(t, m);
    front_at_sound(t, m);
    resolved_ahead(t, f, i, Branch::Low);
    resolved_ahead(t, f, i, Branch::High);
    let (lo, hi) = (m.push((i, Branch::Low)), m.push((i, Branch::High)));
    assert(lo.drop_last() =~= m);
    assert(hi.drop_last() =~= m);
    let a = ahead(t, f.open);
    pow3_grows(ahead(t, front_at(t, lo).open) + 1, a);
    pow3_grows(ahead(t, front_at(t, hi).open) + 1, a);
    pow3_grows(1, a);
    assert(pow3(1) == 3) by {
        assert(pow3(0) == 1);
    }
}

// ---------------------------------------------------------------------------
// sums
// ---------------------------------------------------------------------------

pub open spec fn total<A>(s: Seq<A>, f: spec_fn(A) -> nat) -> nat
    decreases s.len(),
{
    if s.len() == 0 {
        0
    } else {
        total(s.drop_last(), f) + f(s.last())
    }
}

pub proof fn total_push<A>(s: Seq<A>, x: A, f: spec_fn(A) -> nat)
    ensures
        total(s.push(x), f) == total(s, f) + f(x),
{
    assert(s.push(x).drop_last() =~= s);
}

pub proof fn total_first<A>(s: Seq<A>, f: spec_fn(A) -> nat)
    requires
        s.len() > 0,
    ensures
        total(s, f) == f(s[0]) + total(s.subrange(1, s.len() as int), f),
    decreases s.len(),
{
    let r = s.subrange(1, s.len() as int);
    if s.len() == 1 {
        assert(r =~= Seq::empty());
        assert(s.drop_last() =~= Seq::empty());
        assert(total(s.drop_last(), f) == 0);
    } else {
        total_first(s.drop_last(), f);
        assert(r.drop_last() =~= s.drop_last().subrange(1, s.len() - 1));
    }
}

pub proof fn total_update<A>(s: Seq<A>, i: int, x: A, f: spec_fn(A) -> nat)
    requires
        0 <= i < s.len(),
    ensures
        total(s.update(i, x), f) + f(s[i]) == total(s, f) + f(x),
    decreases s.len(),
{
    if i == s.len() - 1 {
        assert(s.update(i, x).drop_last() =~= s.drop_last());
    } else {
        total_update(s.drop_last(), i, x, f);
        assert(s.update(i, x).drop_last() =~= s.drop_last().update(i, x));
    }
}

} // verus!
