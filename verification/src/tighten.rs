//! Resolving a choice tightens a frontier: what it has paid and what it has to
//! pay at least never shrink, and what it has to pay at most never grows.
//!
//! Everything here is stated for arithmetic that does not round.

use vstd::prelude::*;
use crate::enclosure::{bound_chosen, bound_drawn, bound_final, bound_moved, bound_re, prob_between};
use crate::frontier::{
    accepting_v, accumulated_v, front_at, front_at_sound, hat_v, heap, kids_facts, legal,
    open_waits, part, part_from, part_weigh, rejecting_v, Moves,
};
use crate::history::{extended, kids, path, reply_facts, trail, trail_facts};
use crate::num::{exact, re, zeros_v, Number};
use crate::progress::{branch_works, moved_works};
use crate::reals::{times_both, times_grows, times_positive, times_sum, times_swap, times_unit};
use crate::semantics::{best_is_least, moved, rank, started, valid};
use crate::state::{forced, paid, reply, stops, Leaf, Stop};
use crate::strategy::{branch_coherent, moved_coherent, picked};
use crate::tables::Branch;
use crate::tree::Tree;
use crate::unfolding::{distribute, forced_probability, paid_re, weigh, weigh_join, weigh_one};
use crate::verdict::{
    cost_positive, frontier_sums, hat_re, heap_re, spent_by_re, spent_re, weigh_le, weigh_resolved,
};

verus! {

/// The outcomes of a forced run bound together what the state they leave bounds.
pub proof fn forced_bound<N: Number>(
    t: &Tree<N>,
    s: Seq<i8>,
    d: Seq<u32>,
    impact: Seq<N::Value>,
    prob: N::Value,
    up: bool,
    c: int,
)
    requires
        exact::<N>(),
        t.wf(),
        valid(t.net().nodes, s),
        t.net().coherent(s),
        impact.len() == t.k,
        0 <= c < t.k,
    ensures
        weigh(forced(t, s, d, impact, prob), hat_re(t, up, c)) == N::real_of(prob) * (re::<N>(impact, c)
            + bound_re(t, s, up, c)),
    decreases t.net().work(s),
{
    let g = t.net().nodes;
    let n = t.net();
    let f = hat_re(t, up, c);
    if stops(t, s) {
        weigh_one(forced(t, s, d, impact, prob)[0], f);
    } else {
        let (r, w) = rank(g, s).unwrap();
        best_is_least(g, s, n.size());
        if r == 4 {
            branch_works(n, s);
            branch_coherent(n, s);
            bound_drawn(t, s, up, c);
            let p = t.prob_v(w);
            let q = N::minus_v(N::one_v(), p);
            let (l, u) = (g[w].low, g[w].high);
            let (dl, du) = (d.push(l as u32), d.push(u as u32));
            forced_bound(t, started(s, l), dl, impact, N::times_v(prob, p), up, c);
            forced_bound(t, started(s, u), du, impact, N::times_v(prob, q), up, c);
            weigh_join(
                forced(t, started(s, l), dl, impact, N::times_v(prob, p)),
                forced(t, started(s, u), du, impact, N::times_v(prob, q)),
                f,
            );
            distribute(
                N::real_of(prob),
                N::real_of(p),
                re::<N>(impact, c),
                bound_re(t, started(s, l), up, c),
                bound_re(t, started(s, u), up, c),
            );
        } else {
            moved_works(n, s);
            moved_coherent(n, s);
            bound_moved(t, s, up, c);
            let i = if r == 5 {
                paid(t, s, n.size(), impact)
            } else {
                impact
            };
            paid_re(t, s, n.size(), impact, c);
            forced_bound(t, moved(g, s, r, w), d, i, prob, up, c);
        }
    }
}

/// The outcomes of a forced run have paid together what was paid before it, at
/// least.
pub proof fn forced_spent<N: Number>(
    t: &Tree<N>,
    s: Seq<i8>,
    d: Seq<u32>,
    impact: Seq<N::Value>,
    prob: N::Value,
    c: int,
)
    requires
        exact::<N>(),
        t.wf(),
        valid(t.net().nodes, s),
        impact.len() == t.k,
        N::real_of(prob) >= 0 as real,
        0 <= c < t.k,
    ensures
        weigh(forced(t, s, d, impact, prob), spent_re::<N>(c)) >= N::real_of(prob) * re::<N>(impact, c),
    decreases t.net().work(s),
{
    let g = t.net().nodes;
    let n = t.net();
    let f = spent_re::<N>(c);
    if stops(t, s) {
        weigh_one(forced(t, s, d, impact, prob)[0], f);
    } else {
        let (r, w) = rank(g, s).unwrap();
        best_is_least(g, s, n.size());
        let big = N::real_of(prob);
        if r == 4 {
            branch_works(n, s);
            prob_between(t, w);
            let p = t.prob_v(w);
            let q = N::minus_v(N::one_v(), p);
            let (l, u) = (g[w].low, g[w].high);
            let (dl, du) = (d.push(l as u32), d.push(u as u32));
            times_positive(big, N::real_of(p));
            times_positive(big, N::real_of(q));
            forced_spent(t, started(s, l), dl, impact, N::times_v(prob, p), c);
            forced_spent(t, started(s, u), du, impact, N::times_v(prob, q), c);
            weigh_join(
                forced(t, started(s, l), dl, impact, N::times_v(prob, p)),
                forced(t, started(s, u), du, impact, N::times_v(prob, q)),
                f,
            );
            let z = 0 as real;
            distribute(big, N::real_of(p), re::<N>(impact, c), z, z);
            times_unit(N::real_of(p));
            times_unit(1 as real - N::real_of(p));
        } else {
            moved_works(n, s);
            let i = if r == 5 {
                paid(t, s, n.size(), impact)
            } else {
                impact
            };
            paid_re(t, s, n.size(), impact, c);
            cost_positive(t, s, n.size(), c);
            forced_spent(t, moved(g, s, r, w), d, i, prob, c);
            times_grows(big, re::<N>(impact, c), re::<N>(i, c));
        }
    }
}

/// A sum over the histories one branch leads to, by the outcomes of the macro
/// step.
proof fn kids_weigh<N: Number>(
    h: Leaf<N::Value>,
    ls: Seq<Leaf<N::Value>>,
    c: int,
    rest: spec_fn(Seq<i8>) -> real,
)
    requires
        exact::<N>(),
        0 <= c < h.impact.len(),
        forall|i: int| 0 <= i < ls.len() ==> (#[trigger] ls[i]).impact.len() == h.impact.len(),
    ensures
        weigh(
            Seq::new(ls.len(), |i: int| extended::<N>(h, ls[i])),
            |l: Leaf<N::Value>| N::real_of(l.prob) * (re::<N>(l.impact, c) + rest(l.state)),
        ) == N::real_of(h.prob) * (re::<N>(h.impact, c) * weigh(
            ls,
            |l: Leaf<N::Value>| N::real_of(l.prob),
        ) + weigh(
            ls,
            |l: Leaf<N::Value>| N::real_of(l.prob) * (re::<N>(l.impact, c) + rest(l.state)),
        )),
    decreases ls.len(),
{
    let p = |l: Leaf<N::Value>| N::real_of(l.prob);
    let f = |l: Leaf<N::Value>| N::real_of(l.prob) * (re::<N>(l.impact, c) + rest(l.state));
    let ks = Seq::new(ls.len(), |i: int| extended::<N>(h, ls[i]));
    let (big, i0) = (N::real_of(h.prob), re::<N>(h.impact, c));
    if ls.len() == 0 {
        assert(weigh(ks, f) == 0 as real);
        times_unit(i0);
        times_unit(big);
    } else {
        let a = ls.drop_last();
        kids_weigh::<N>(h, a, c, rest);
        assert(ks.drop_last() =~= Seq::new(a.len(), |i: int| extended::<N>(h, a[i])));
        let l = ls.last();
        assert(ls[ls.len() - 1] == l);
        let k = ks.last();
        assert(k == extended::<N>(h, l));
        let e = rest(l.state);
        let (q, i1) = (N::real_of(l.prob), re::<N>(l.impact, c));
        assert(f(k) == (big * q) * ((i0 + i1) + e));
        assert(f(l) == q * (i1 + e));
        let (wp, wd) = (weigh(a, p), weigh(a, f));
        let y = i1 + e;
        assert((i0 + i1) + e == i0 + y);
        times_both(big, q, i0 + y);
        times_sum(q, i0, y);
        times_sum(i0, wp, q);
        times_swap(q, i0);
        times_sum(big, i0 * wp + wd, q * i0 + q * y);
        assert((i0 * wp + wd) + (q * i0 + q * y) == i0 * (wp + q) + (wd + q * y));
    }
}

/// Expanding a history tightens both of its sums: what the histories a branch
/// leads to owe at most is no more than what the history they replace does, what
/// they owe at least is no less, and they have paid no less.
pub proof fn kids_tighten<N: Number>(t: &Tree<N>, h: Leaf<N::Value>, b: Branch, c: int)
    requires
        exact::<N>(),
        t.wf(),
        trail(t, h.decisions) == Some(h),
        h.stop != Stop::Final,
        0 <= c < t.k,
    ensures
        weigh(kids(t, h, b), hat_re(t, true, c)) <= hat_re(t, true, c)(h),
        weigh(kids(t, h, b), hat_re(t, false, c)) >= hat_re(t, false, c)(h),
        weigh(kids(t, h, b), spent_re::<N>(c)) >= spent_re::<N>(c)(h),
{
    open_waits(t, h);
    let w = rank(t.net().nodes, h.state).unwrap().1;
    let a = picked(t.net().nodes[w], b) as u32;
    let s = started(h.state, a as int);
    let z = zeros_v::<N>(t.k as nat);
    reply_facts(t, h.state, a);
    branch_coherent(t.net(), h.state);
    let ls = reply(t, h.state, a);
    assert forall|i: int| 0 <= i < ls.len() implies (#[trigger] ls[i]).impact.len() == h.impact.len() by {
        assert(path(t, ls[i]));
    }
    forced_probability(t, s, seq![a], z, N::one_v());
    forced_bound(t, s, seq![a], z, N::one_v(), true, c);
    forced_bound(t, s, seq![a], z, N::one_v(), false, c);
    forced_spent(t, s, seq![a], z, N::one_v(), c);
    bound_chosen(t, h.state, true, c);
    bound_chosen(t, h.state, false, c);
    let (big, i0) = (N::real_of(h.prob), re::<N>(h.impact, c));
    let up = |x: Seq<i8>| bound_re(t, x, true, c);
    let lo = |x: Seq<i8>| bound_re(t, x, false, c);
    let none = |x: Seq<i8>| 0 as real;
    kids_weigh::<N>(h, ls, c, up);
    kids_weigh::<N>(h, ls, c, lo);
    kids_weigh::<N>(h, ls, c, none);
    let fu = |l: Leaf<N::Value>| N::real_of(l.prob) * (re::<N>(l.impact, c) + up(l.state));
    let fl = |l: Leaf<N::Value>| N::real_of(l.prob) * (re::<N>(l.impact, c) + lo(l.state));
    let fn0 = |l: Leaf<N::Value>| N::real_of(l.prob) * (re::<N>(l.impact, c) + none(l.state));
    assert(fu =~= hat_re(t, true, c));
    assert(fl =~= hat_re(t, false, c));
    assert(fn0 =~= spent_re::<N>(c));
    times_unit(i0);
    let (bu, bl) = (bound_re(t, s, true, c), bound_re(t, s, false, c));
    times_unit(bu);
    times_unit(bl);
    times_unit(re::<N>(z, c));
    times_grows(big, i0 + bu, i0 + bound_re(t, h.state, true, c));
    times_grows(big, i0 + bound_re(t, h.state, false, c), i0 + bl);
    let spent = weigh(ls, spent_re::<N>(c));
    times_grows(big, i0, i0 + spent);
}

/// Resolving a choice never raises what a frontier has to pay at most, never
/// lowers what it has to pay at least, and never lowers what it has paid.
pub proof fn resolving_tightens<N: Number>(t: &Tree<N>, m: Moves, i: int, b: Branch, c: int)
    requires
        exact::<N>(),
        t.wf(),
        legal(t, m.push((i, b))),
        0 <= c < t.k,
    ensures
        ({
            let f = front_at(t, m);
            let r = front_at(t, m.push((i, b)));
            &&& re::<N>(accepting_v::<N>(r), c) <= re::<N>(accepting_v::<N>(f), c)
            &&& re::<N>(rejecting_v::<N>(r), c) >= re::<N>(rejecting_v::<N>(f), c)
            &&& re::<N>(accumulated_v::<N>(r), c) >= re::<N>(accumulated_v::<N>(f), c)
        }),
{
    let mm = m.push((i, b));
    assert(mm.drop_last() =~= m);
    let f = front_at(t, m);
    let r = front_at(t, mm);
    let h = f.open[i];
    let ks = kids(t, h, b);
    let (up, lo, sp) = (hat_re(t, true, c), hat_re(t, false, c), spent_re::<N>(c));
    front_at_sound(t, m);
    front_at_sound(t, mm);
    frontier_sums(t, m, c);
    frontier_sums(t, mm, c);
    kids_tighten(t, h, b, c);
    kids_facts(t, h, b);
    weigh_resolved(t, f, i, b, up);
    weigh_resolved(t, f, i, b, lo);
    weigh_resolved(t, f, i, b, sp);
    part_weigh(ks, up);
    part_weigh(ks, lo);
    part_weigh(ks, sp);
    spent_by_re::<N>(f.paid, f.open, c);
    spent_by_re::<N>(r.paid, r.open, c);
    // at the end of the process the three contributions are the same
    let done = part(ks, false);
    part_from(ks, false);
    assert forall|j: int| 0 <= j < done.len() implies up(#[trigger] done[j]) == lo(done[j]) && up(done[j])
        == sp(done[j]) by {
        let x = done[j];
        trail_facts(t, x.decisions);
        bound_final(t, x.state, true, c);
        bound_final(t, x.state, false, c);
    }
    weigh_le(done, up, lo);
    weigh_le(done, lo, up);
    weigh_le(done, up, sp);
    weigh_le(done, sp, up);
}

/// The sums a store keeps of an expansion, against those of the history that is
/// expanded: with what the closed histories pay, the open ones raise the upper
/// sum by nothing and lower the lower one by nothing.
pub proof fn expansion_tightens<N: Number>(t: &Tree<N>, h: Leaf<N::Value>, b: Branch, c: int)
    requires
        exact::<N>(),
        t.wf(),
        trail(t, h.decisions) == Some(h),
        h.stop != Stop::Final,
        0 <= c < t.k,
    ensures
        ({
            let ks = kids(t, h, b);
            let closed = re::<N>(heap(t, part(ks, false), true), c);
            &&& closed + re::<N>(heap(t, part(ks, true), true), c) <= re::<N>(hat_v(t, h, true), c)
            &&& closed + re::<N>(heap(t, part(ks, true), false), c) >= re::<N>(hat_v(t, h, false), c)
        }),
{
    let ks = kids(t, h, b);
    let (up, lo) = (hat_re(t, true, c), hat_re(t, false, c));
    kids_tighten(t, h, b, c);
    kids_facts(t, h, b);
    part_weigh(ks, up);
    part_weigh(ks, lo);
    let done = part(ks, false);
    part_from(ks, false);
    assert forall|j: int| 0 <= j < done.len() implies up(#[trigger] done[j]) == lo(done[j]) by {
        let x = done[j];
        trail_facts(t, x.decisions);
        bound_final(t, x.state, true, c);
        bound_final(t, x.state, false, c);
    }
    weigh_le(done, up, lo);
    weigh_le(done, lo, up);
    heap_re(t, done, true, c);
    heap_re(t, part(ks, true), true, c);
    heap_re(t, part(ks, true), false, c);
}

} // verus!
