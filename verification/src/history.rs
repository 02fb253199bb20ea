//! Histories: the decisions and draws that lead to a choice state.
//!
//! A history is named by its decisions. The macro steps it is made of can be
//! read off the name, no outcome of a macro step beginning another, so what a
//! path has paid and how likely it is are functions of the name.

use vstd::prelude::*;
use crate::num::{exact, sum_v, zeros_v, Number};
use crate::progress::{branch_works, initial_valid};
use crate::semantics::{best_is_least, rank, started, valid};
use crate::state::{forced, opening, reply, stop_at, stops, Leaf};
use crate::strategy::{branch_coherent, initial_coherent, picked};
use crate::tables::Branch;
use crate::tree::Tree;
use crate::unfolding::{
    begins, forced_coherent, forced_outcomes, forced_prefix_free, forced_probability, outcome_of,
    prefix_free,
};

verus! {

/// The path `h`, and then the outcome `l` of the macro step that leaves it.
pub open spec fn extended<N: Number>(h: Leaf<N::Value>, l: Leaf<N::Value>) -> Leaf<N::Value> {
    Leaf {
        decisions: h.decisions + l.decisions,
        impact: sum_v::<N>(h.impact, l.impact),
        prob: N::times_v(h.prob, l.prob),
        state: l.state,
        stop: l.stop,
    }
}

/// The histories one branch leads to.
pub open spec fn kids<N: Number>(t: &Tree<N>, h: Leaf<N::Value>, b: Branch) -> Seq<Leaf<N::Value>> {
    let w = rank(t.net().nodes, h.state).unwrap().1;
    let ls = reply(t, h.state, picked(t.net().nodes[w], b) as u32);
    Seq::new(ls.len(), |i: int| extended::<N>(h, ls[i]))
}

/// An index of an outcome whose decisions begin `d`.
pub open spec fn leads<V>(ls: Seq<Leaf<V>>, d: Seq<u32>, i: int) -> bool {
    0 <= i < ls.len() && begins(ls[i].decisions, d)
}

/// The path that goes on from `h` along the decisions `d`.
pub open spec fn follow<N: Number>(t: &Tree<N>, h: Leaf<N::Value>, d: Seq<u32>) -> Option<
    Leaf<N::Value>,
>
    decreases d.len(),
{
    if d.len() == 0 {
        Some(h)
    } else if rank(t.net().nodes, h.state) is None {
        None
    } else {
        let v = t.net().nodes[rank(t.net().nodes, h.state).unwrap().1];
        let ls = reply(t, h.state, d[0]);
        if (d[0] == v.low || d[0] == v.high) && exists|i: int| leads(ls, d, i) {
            let i = choose|i: int| leads(ls, d, i);
            if ls[i].decisions.len() == 0 {
                None
            } else {
                follow(t, extended::<N>(h, ls[i]), d.skip(ls[i].decisions.len() as int))
            }
        } else {
            None
        }
    }
}

/// The path a history names, when it names one.
pub open spec fn trail<N: Number>(t: &Tree<N>, d: Seq<u32>) -> Option<Leaf<N::Value>> {
    let ls = opening(t);
    if exists|i: int| leads(ls, d, i) {
        let i = choose|i: int| leads(ls, d, i);
        follow(t, ls[i], d.skip(ls[i].decisions.len() as int))
    } else {
        None
    }
}

pub proof fn leads_once<V>(ls: Seq<Leaf<V>>, d: Seq<u32>, i: int, j: int)
    requires
        prefix_free(ls),
        leads(ls, d, i),
        leads(ls, d, j),
    ensures
        i == j,
{
    let (a, b) = (ls[i].decisions, ls[j].decisions);
    if a.len() <= b.len() {
        assert(b.take(a.len() as int) =~= d.take(a.len() as int));
        assert(begins(a, b));
    } else {
        assert(a.take(b.len() as int) =~= d.take(b.len() as int));
        assert(begins(b, a));
    }
}

/// What holds of a path of the process.
pub open spec fn path<N: Number>(t: &Tree<N>, h: Leaf<N::Value>) -> bool {
    &&& valid(t.net().nodes, h.state)
    &&& t.net().coherent(h.state)
    &&& stops(t, h.state)
    &&& h.stop == stop_at(t, h.state)
    &&& h.impact.len() == t.k
    &&& exact::<N>() ==> N::real_of(h.prob) > 0 as real
}

pub proof fn opening_facts<N: Number>(t: &Tree<N>)
    requires
        t.wf(),
    ensures
        forall|i: int| 0 <= i < opening(t).len() ==> path(t, #[trigger] opening(t)[i]),
        prefix_free(opening(t)),
{
    let (s, d, z, o) = (
        t.net().initial(),
        Seq::<u32>::empty(),
        zeros_v::<N>(t.k as nat),
        N::one_v(),
    );
    initial_valid(t.net());
    initial_coherent(t.net());
    forced_outcomes(t, s, d, z, o);
    forced_coherent(t, s, d, z, o);
    forced_prefix_free(t, s, d, z, o);
    if exact::<N>() {
        forced_probability(t, s, d, z, o);
    }
    assert forall|i: int| 0 <= i < opening(t).len() implies path(t, #[trigger] opening(t)[i]) by {
        assert(outcome_of(t, d, forced(t, s, d, z, o)[i]));
    }
}

/// The macro step out of a choice state of a path.
pub proof fn reply_facts<N: Number>(t: &Tree<N>, s: Seq<i8>, a: u32)
    requires
        t.wf(),
        valid(t.net().nodes, s),
        t.net().coherent(s),
        stops(t, s),
        rank(t.net().nodes, s) is Some,
        ({
            let v = t.net().nodes[rank(t.net().nodes, s).unwrap().1];
            a == v.low || a == v.high
        }),
    ensures
        valid(t.net().nodes, started(s, a as int)),
        t.net().work(started(s, a as int)) < t.net().work(s),
        prefix_free(reply(t, s, a)),
        forall|i: int|
            0 <= i < reply(t, s, a).len() ==> path(t, #[trigger] reply(t, s, a)[i]) && begins(
                seq![a],
                reply(t, s, a)[i].decisions,
            ) && t.net().work(reply(t, s, a)[i].state) < t.net().work(s),
{
    best_is_least(t.net().nodes, s, t.net().size());
    branch_works(t.net(), s);
    branch_coherent(t.net(), s);
    let x = started(s, a as int);
    let (d, z, o) = (seq![a], zeros_v::<N>(t.k as nat), N::one_v());
    forced_outcomes(t, x, d, z, o);
    forced_coherent(t, x, d, z, o);
    forced_prefix_free(t, x, d, z, o);
    if exact::<N>() {
        forced_probability(t, x, d, z, o);
    }
    assert forall|i: int| 0 <= i < reply(t, s, a).len() implies path(
        t,
        #[trigger] reply(t, s, a)[i],
    ) && begins(d, reply(t, s, a)[i].decisions) && t.net().work(reply(t, s, a)[i].state)
        < t.net().work(s) by {
        assert(outcome_of(t, d, forced(t, x, d, z, o)[i]));
    }
}

/// A path that goes on is a path.
pub proof fn extended_path<N: Number>(t: &Tree<N>, h: Leaf<N::Value>, l: Leaf<N::Value>)
    requires
        path(t, h),
        path(t, l),
    ensures
        path(t, extended::<N>(h, l)),
{
    if exact::<N>() {
        let (a, b) = (N::real_of(h.prob), N::real_of(l.prob));
        assert(a * b > 0 as real) by (nonlinear_arith)
            requires
                a > 0 as real,
                b > 0 as real,
        ;
    }
}

/// Following a path leads to a path, whose name is longer by what was followed.
pub proof fn follow_facts<N: Number>(t: &Tree<N>, h: Leaf<N::Value>, d: Seq<u32>)
    requires
        t.wf(),
        path(t, h),
        follow(t, h, d) is Some,
    ensures
        path(t, follow(t, h, d).unwrap()),
        follow(t, h, d).unwrap().decisions == h.decisions + d,
    decreases d.len(),
{
    if d.len() == 0 {
        assert(h.decisions + d =~= h.decisions);
    } else {
        let ls = reply(t, h.state, d[0]);
        let i = choose|i: int| leads(ls, d, i);
        reply_facts(t, h.state, d[0]);
        extended_path(t, h, ls[i]);
        let n = ls[i].decisions.len() as int;
        follow_facts(t, extended::<N>(h, ls[i]), d.skip(n));
        assert(h.decisions + ls[i].decisions + d.skip(n) =~= h.decisions + d) by {
            assert(ls[i].decisions =~= d.take(n));
        }
    }
}

/// Following two pieces one after the other is following them at once.
pub proof fn follow_join<N: Number>(t: &Tree<N>, h: Leaf<N::Value>, d: Seq<u32>, e: Seq<u32>)
    requires
        t.wf(),
        path(t, h),
        follow(t, h, d) is Some,
    ensures
        follow(t, h, d + e) == follow(t, follow(t, h, d).unwrap(), e),
    decreases d.len(),
{
    if d.len() == 0 {
        assert(d + e =~= e);
    } else {
        let ls = reply(t, h.state, d[0]);
        let i = choose|i: int| leads(ls, d, i);
        reply_facts(t, h.state, d[0]);
        extended_path(t, h, ls[i]);
        let n = ls[i].decisions.len() as int;
        follow_join(t, extended::<N>(h, ls[i]), d.skip(n), e);
        assert((d + e).take(n) =~= d.take(n));
        assert(leads(ls, d + e, i));
        let j = choose|j: int| leads(ls, d + e, j);
        leads_once(ls, d + e, i, j);
        assert((d + e).skip(n) =~= d.skip(n) + e);
        assert((d + e)[0] == d[0]);
    }
}

/// One macro step further along a path.
pub proof fn follow_one<N: Number>(t: &Tree<N>, h: Leaf<N::Value>, a: u32, i: int)
    requires
        t.wf(),
        path(t, h),
        rank(t.net().nodes, h.state) is Some,
        ({
            let v = t.net().nodes[rank(t.net().nodes, h.state).unwrap().1];
            a == v.low || a == v.high
        }),
        0 <= i < reply(t, h.state, a).len(),
    ensures
        follow(t, h, reply(t, h.state, a)[i].decisions) == Some(
            extended::<N>(h, reply(t, h.state, a)[i]),
        ),
{
    let ls = reply(t, h.state, a);
    reply_facts(t, h.state, a);
    let d = ls[i].decisions;
    assert(begins(seq![a], d));
    assert(d.take(1)[0] == d[0]);
    assert(d.take(d.len() as int) =~= d);
    assert(leads(ls, d, i));
    let j = choose|j: int| leads(ls, d, j);
    leads_once(ls, d, i, j);
    assert(d.skip(d.len() as int) =~= Seq::empty());
    reveal_with_fuel(follow, 2);
}

/// The name of a path names it, and only it.
pub proof fn trail_opening<N: Number>(t: &Tree<N>, i: int)
    requires
        t.wf(),
        0 <= i < opening(t).len(),
    ensures
        trail(t, opening(t)[i].decisions) == Some(opening(t)[i]),
{
    let ls = opening(t);
    let d = ls[i].decisions;
    opening_facts(t);
    assert(d.take(d.len() as int) =~= d);
    assert(leads(ls, d, i));
    let j = choose|j: int| leads(ls, d, j);
    leads_once(ls, d, i, j);
    assert(d.skip(d.len() as int) =~= Seq::empty());
}

pub proof fn trail_facts<N: Number>(t: &Tree<N>, d: Seq<u32>)
    requires
        t.wf(),
        trail(t, d) is Some,
    ensures
        path(t, trail(t, d).unwrap()),
        trail(t, d).unwrap().decisions == d,
{
    let ls = opening(t);
    opening_facts(t);
    let i = choose|i: int| leads(ls, d, i);
    let n = ls[i].decisions.len() as int;
    follow_facts(t, ls[i], d.skip(n));
    assert(ls[i].decisions + d.skip(n) =~= d) by {
        assert(ls[i].decisions =~= d.take(n));
    }
}

/// A path and one macro step further: the longer name names the longer path.
pub proof fn trail_extended<N: Number>(t: &Tree<N>, h: Leaf<N::Value>, a: u32, i: int)
    requires
        t.wf(),
        trail(t, h.decisions) == Some(h),
        rank(t.net().nodes, h.state) is Some,
        ({
            let v = t.net().nodes[rank(t.net().nodes, h.state).unwrap().1];
            a == v.low || a == v.high
        }),
        0 <= i < reply(t, h.state, a).len(),
    ensures
        ({
            let x = extended::<N>(h, reply(t, h.state, a)[i]);
            trail(t, x.decisions) == Some(x)
        }),
{
    let d = h.decisions;
    let e = reply(t, h.state, a)[i].decisions;
    let ls = opening(t);
    opening_facts(t);
    trail_facts(t, d);
    let j = choose|j: int| leads(ls, d, j);
    let n = ls[j].decisions.len() as int;
    assert((d + e).take(n) =~= d.take(n));
    assert(leads(ls, d + e, j));
    let m = choose|m: int| leads(ls, d + e, m);
    leads_once(ls, d + e, j, m);
    assert((d + e).skip(n) =~= d.skip(n) + e);
    follow_join(t, ls[j], d.skip(n), e);
    follow_one(t, h, a, i);
}

} // verus!
