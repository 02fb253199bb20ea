//! What the two tests on a frontier prove of the strategies.
//!
//! Everything here is stated for arithmetic that does not round. A frontier
//! that passes the accepting test holds no strategy above the threshold, a
//! computation tree cut at rejected frontiers holds no strategy below it, and
//! every path of the tree holds a strategy.

use vstd::prelude::*;
use crate::enclosure::{bound_final, bound_re, bounds_enclose, prob_between};
use crate::frontier::{
    accepted, accepting_v, accumulated_v, agrees, decisions_of, elects, front_at, front_at_sound,
    hat_v, heap, kids_facts, legal, open_waits, part, part_from, part_weigh, refutable, refuted,
    rejected, rejecting_v, resolved, spent_by, within, Front, Moves, Tests,
};
use crate::history::{extended, kids, path, reply_facts, trail, trail_facts};
use crate::num::{exact, re, zeros_v, Number};
use crate::progress::{branch_works, initial_valid, moved_works};
use crate::reals::{times_both, times_grows, times_positive, times_sum, times_swap, times_unit};
use crate::semantics::{best_is_least, closes, moved, rank, started, valid};
use crate::state::{opening, reply, Leaf, Stop};
use crate::strategy::{cost, expected, fits, picked, worth, Policy};
use crate::tables::Branch;
use crate::tree::{Kind, Tree};
use crate::unfolding::{begins, due, forced_due, forced_probability, weigh, weigh_join};

verus! {

proof fn weigh_remove<V>(ls: Seq<Leaf<V>>, i: int, f: spec_fn(Leaf<V>) -> real)
    requires
        0 <= i < ls.len(),
    ensures
        weigh(ls, f) == weigh(ls.remove(i), f) + f(ls[i]),
    decreases ls.len(),
{
    if i == ls.len() - 1 {
        assert(ls.remove(i) =~= ls.drop_last());
    } else {
        weigh_remove(ls.drop_last(), i, f);
        assert(ls.remove(i).drop_last() =~= ls.drop_last().remove(i));
    }
}

pub proof fn weigh_le<V>(ls: Seq<Leaf<V>>, f: spec_fn(Leaf<V>) -> real, g: spec_fn(Leaf<V>) -> real)
    requires
        forall|i: int| 0 <= i < ls.len() ==> f(#[trigger] ls[i]) <= g(ls[i]),
    ensures
        weigh(ls, f) <= weigh(ls, g),
    decreases ls.len(),
{
    if ls.len() > 0 {
        let a = ls.drop_last();
        assert forall|i: int| 0 <= i < a.len() implies f(#[trigger] a[i]) <= g(a[i]) by {
            assert(a[i] == ls[i]);
        }
        weigh_le(a, f, g);
        assert(ls[ls.len() - 1] == ls.last());
    }
}

// ---------------------------------------------------------------------------
// one resolution
// ---------------------------------------------------------------------------

/// The sum over the histories one branch leads to, by the outcomes of the macro
/// step.
proof fn kids_sum<N: Number>(
    t: &Tree<N>,
    policy: Policy,
    h: Leaf<N::Value>,
    ls: Seq<Leaf<N::Value>>,
    c: int,
)
    requires
        exact::<N>(),
        0 <= c < t.k,
        h.impact.len() == t.k,
        forall|i: int| 0 <= i < ls.len() ==> (#[trigger] ls[i]).impact.len() == t.k,
    ensures
        weigh(
            Seq::new(ls.len(), |i: int| extended::<N>(h, ls[i])),
            due(t, policy, Seq::empty(), c),
        ) == N::real_of(h.prob) * (re::<N>(h.impact, c) * weigh(
            ls,
            |l: Leaf<N::Value>| N::real_of(l.prob),
        ) + weigh(ls, due(t, policy, h.decisions, c))),
    decreases ls.len(),
{
    let p = |l: Leaf<N::Value>| N::real_of(l.prob);
    let ks = Seq::new(ls.len(), |i: int| extended::<N>(h, ls[i]));
    let d0 = due(t, policy, Seq::empty(), c);
    let d1 = due(t, policy, h.decisions, c);
    let (big, i0) = (N::real_of(h.prob), re::<N>(h.impact, c));
    if ls.len() == 0 {
        assert(weigh(ks, d0) == 0 as real);
        times_unit(i0);
        times_unit(big);
    } else {
        let a = ls.drop_last();
        kids_sum(t, policy, h, a, c);
        assert(ks.drop_last() =~= Seq::new(a.len(), |i: int| extended::<N>(h, a[i])));
        let l = ls.last();
        assert(ls[ls.len() - 1] == l);
        let k = ks.last();
        assert(k == extended::<N>(h, l));
        assert(Seq::<u32>::empty() + k.decisions =~= h.decisions + l.decisions);
        let e = expected(t, policy, h.decisions + l.decisions, l.state, c);
        let (q, i1) = (N::real_of(l.prob), re::<N>(l.impact, c));
        assert(d0(k) == (big * q) * ((i0 + i1) + e));
        assert(d1(l) == q * (i1 + e));
        let (wp, wd) = (weigh(a, p), weigh(a, d1));
        let y = i1 + e;
        assert((i0 + i1) + e == i0 + y);
        times_both(big, q, i0 + y);
        times_sum(q, i0, y);
        times_sum(i0, wp, q);
        times_swap(q, i0);
        times_sum(big, i0 * wp + wd, q * i0 + q * y);
        assert((i0 * wp + wd) + (q * i0 + q * y) == i0 * (wp + q) + (wd + q * y));
    }
}

/// A history contributes what the histories contribute that the branch its
/// strategy takes leads to.
pub proof fn kids_due<N: Number>(t: &Tree<N>, policy: Policy, h: Leaf<N::Value>, c: int)
    requires
        exact::<N>(),
        t.wf(),
        trail(t, h.decisions) == Some(h),
        h.stop != Stop::Final,
        0 <= c < t.k,
    ensures
        weigh(kids(t, h, policy(h.decisions)), due(t, policy, Seq::empty(), c)) == due(
            t,
            policy,
            Seq::empty(),
            c,
        )(h),
{
    open_waits(t, h);
    let w = rank(t.net().nodes, h.state).unwrap().1;
    let b = policy(h.decisions);
    let a = picked(t.net().nodes[w], b) as u32;
    let s = started(h.state, a as int);
    let z = zeros_v::<N>(t.k as nat);
    reply_facts(t, h.state, a);
    let ls = reply(t, h.state, a);
    assert forall|i: int| 0 <= i < ls.len() implies (#[trigger] ls[i]).impact.len() == t.k by {
        assert(path(t, ls[i]));
    }
    forced_due(t, policy, h.decisions, s, seq![a], z, N::one_v(), c);
    forced_probability(t, s, seq![a], z, N::one_v());
    kids_sum(t, policy, h, ls, c);
    assert(h.decisions + seq![a] =~= h.decisions.push(a));
    assert(Seq::<u32>::empty() + h.decisions =~= h.decisions);
    let e = expected(t, policy, h.decisions.push(a), s, c);
    assert(expected(t, policy, h.decisions, h.state, c) == e);
    times_unit(e);
    times_unit(re::<N>(h.impact, c));
}

proof fn kids_prob_sum<N: Number>(h: Leaf<N::Value>, ls: Seq<Leaf<N::Value>>)
    requires
        exact::<N>(),
    ensures
        weigh(
            Seq::new(ls.len(), |i: int| extended::<N>(h, ls[i])),
            |l: Leaf<N::Value>| N::real_of(l.prob),
        ) == N::real_of(h.prob) * weigh(ls, |l: Leaf<N::Value>| N::real_of(l.prob)),
    decreases ls.len(),
{
    let p = |l: Leaf<N::Value>| N::real_of(l.prob);
    let ks = Seq::new(ls.len(), |i: int| extended::<N>(h, ls[i]));
    let big = N::real_of(h.prob);
    if ls.len() == 0 {
        assert(weigh(ks, p) == 0 as real);
        times_unit(big);
    } else {
        let a = ls.drop_last();
        kids_prob_sum::<N>(h, a);
        assert(ks.drop_last() =~= Seq::new(a.len(), |i: int| extended::<N>(h, a[i])));
        let (x, y) = (weigh(a, p), N::real_of(ls.last().prob));
        times_sum(big, x, y);
    }
}

/// The histories one branch leads to weigh together what the history did.
pub proof fn kids_probability<N: Number>(t: &Tree<N>, h: Leaf<N::Value>, b: Branch)
    requires
        exact::<N>(),
        t.wf(),
        trail(t, h.decisions) == Some(h),
        h.stop != Stop::Final,
    ensures
        weigh(kids(t, h, b), |l: Leaf<N::Value>| N::real_of(l.prob)) == N::real_of(h.prob),
{
    open_waits(t, h);
    let w = rank(t.net().nodes, h.state).unwrap().1;
    let a = picked(t.net().nodes[w], b) as u32;
    reply_facts(t, h.state, a);
    forced_probability(t, started(h.state, a as int), seq![a], zeros_v::<N>(t.k as nat), N::one_v());
    kids_prob_sum::<N>(h, reply(t, h.state, a));
    times_unit(N::real_of(h.prob));
}

// ---------------------------------------------------------------------------
// every frontier
// ---------------------------------------------------------------------------

/// A sum over a resolved frontier.
pub proof fn weigh_resolved<N: Number>(
    t: &Tree<N>,
    f: Front<N::Value>,
    i: int,
    b: Branch,
    g: spec_fn(Leaf<N::Value>) -> real,
)
    requires
        0 <= i < f.open.len(),
    ensures
        ({
            let ks = kids(t, f.open[i], b);
            let r = resolved(t, f, i, b);
            &&& weigh(r.all(), g) == weigh(f.all(), g) - g(f.open[i]) + weigh(ks, g)
            &&& weigh(r.open, g) == weigh(f.open, g) - g(f.open[i]) + weigh(part(ks, true), g)
            &&& weigh(r.closed, g) == weigh(f.closed, g) + weigh(part(ks, false), g)
        }),
{
    let ks = kids(t, f.open[i], b);
    let r = resolved(t, f, i, b);
    weigh_remove(f.open, i, g);
    weigh_join(f.open.remove(i), part(ks, true), g);
    weigh_join(f.closed, part(ks, false), g);
    weigh_join(r.open, r.closed, g);
    weigh_join(f.open, f.closed, g);
    part_weigh(ks, g);
}

/// The probabilities of a frontier add up to one.
pub proof fn frontier_probability<N: Number>(t: &Tree<N>, m: Moves)
    requires
        exact::<N>(),
        t.wf(),
        legal(t, m),
    ensures
        weigh(front_at(t, m).all(), |l: Leaf<N::Value>| N::real_of(l.prob)) == 1 as real,
    decreases m.len(),
{
    let p = |l: Leaf<N::Value>| N::real_of(l.prob);
    if m.len() == 0 {
        initial_valid(t.net());
        forced_probability(
            t,
            t.net().initial(),
            Seq::empty(),
            zeros_v::<N>(t.k as nat),
            N::one_v(),
        );
        part_weigh(opening(t), p);
        weigh_join(part(opening(t), true), part(opening(t), false), p);
    } else {
        let f = front_at(t, m.drop_last());
        frontier_probability(t, m.drop_last());
        front_at_sound(t, m.drop_last());
        weigh_resolved(t, f, m.last().0, m.last().1, p);
        kids_probability(t, f.open[m.last().0], m.last().1);
    }
}

/// A strategy is worth what the histories of any frontier it agrees with
/// contribute.
pub proof fn frontier_value<N: Number>(t: &Tree<N>, policy: Policy, m: Moves, c: int)
    requires
        exact::<N>(),
        t.wf(),
        legal(t, m),
        agrees(t, policy, m),
        0 <= c < t.k,
    ensures
        worth(t, policy, c) == weigh(front_at(t, m).all(), due(t, policy, Seq::empty(), c)),
    decreases m.len(),
{
    let g = due(t, policy, Seq::empty(), c);
    if m.len() == 0 {
        initial_valid(t.net());
        let e = Seq::<u32>::empty();
        forced_due(
            t,
            policy,
            e,
            t.net().initial(),
            e,
            zeros_v::<N>(t.k as nat),
            N::one_v(),
            c,
        );
        assert(e + e =~= e);
        times_unit(worth(t, policy, c));
        part_weigh(opening(t), g);
        weigh_join(part(opening(t), true), part(opening(t), false), g);
    } else {
        let f = front_at(t, m.drop_last());
        frontier_value(t, policy, m.drop_last(), c);
        front_at_sound(t, m.drop_last());
        weigh_resolved(t, f, m.last().0, m.last().1, g);
        kids_due(t, policy, f.open[m.last().0], c);
    }
}

/// `P (I + bound)` as a real number.
pub open spec fn hat_re<N: Number>(t: &Tree<N>, up: bool, c: int) -> spec_fn(Leaf<N::Value>) -> real {
    |l: Leaf<N::Value>| N::real_of(l.prob) * (re::<N>(l.impact, c) + bound_re(t, l.state, up, c))
}

pub proof fn heap_re<N: Number>(t: &Tree<N>, ls: Seq<Leaf<N::Value>>, up: bool, c: int)
    requires
        exact::<N>(),
        0 <= c < t.k,
    ensures
        heap(t, ls, up).len() == t.k,
        re::<N>(heap(t, ls, up), c) == weigh(ls, hat_re(t, up, c)),
    decreases ls.len(),
{
    if ls.len() > 0 {
        heap_re(t, ls.drop_last(), up, c);
    }
}

/// The running sums of a frontier are the sums over its histories.
pub proof fn frontier_sums<N: Number>(t: &Tree<N>, m: Moves, c: int)
    requires
        exact::<N>(),
        t.wf(),
        legal(t, m),
        0 <= c < t.k,
    ensures
        re::<N>(front_at(t, m).paid, c) == weigh(front_at(t, m).closed, hat_re(t, true, c)),
        re::<N>(front_at(t, m).upper, c) == weigh(front_at(t, m).open, hat_re(t, true, c)),
        re::<N>(front_at(t, m).lower, c) == weigh(front_at(t, m).open, hat_re(t, false, c)),
    decreases m.len(),
{
    let (up, lo) = (hat_re(t, true, c), hat_re(t, false, c));
    front_at_sound(t, m);
    if m.len() == 0 {
        let ls = opening(t);
        heap_re(t, part(ls, false), true, c);
        heap_re(t, part(ls, true), true, c);
        heap_re(t, part(ls, true), false, c);
    } else {
        let f = front_at(t, m.drop_last());
        let (i, b) = m.last();
        let h = f.open[i];
        let ks = kids(t, h, b);
        frontier_sums(t, m.drop_last(), c);
        front_at_sound(t, m.drop_last());
        weigh_resolved(t, f, i, b, up);
        weigh_resolved(t, f, i, b, lo);
        heap_re(t, part(ks, false), true, c);
        heap_re(t, part(ks, true), true, c);
        heap_re(t, part(ks, true), false, c);
        assert(re::<N>(hat_v(t, h, true), c) == up(h));
        assert(re::<N>(hat_v(t, h, false), c) == lo(h));
        let r = front_at(t, m);
        if r.open.len() == 0 {
            assert(weigh(r.open, up) == 0 as real);
            assert(weigh(r.open, lo) == 0 as real);
        }
    }
}

/// Costs are not negative.
pub proof fn cost_positive<N: Number>(t: &Tree<N>, s: Seq<i8>, hi: int, c: int)
    requires
        exact::<N>(),
        t.wf(),
        hi <= t.n_nodes,
        0 <= c < t.k,
    ensures
        cost(t, s, 1, hi, c) >= 0 as real,
    decreases hi,
{
    if hi >= 1 {
        cost_positive(t, s, hi - 1, c);
        if closes(t.net().nodes, s, hi) {
            assert(t.nodes@[hi].kind == Kind::Task);
            assert(N::le_v(N::zero_v(), t.impact_v(hi)[c]));
        }
    }
}

/// Nothing a strategy does earns anything back.
pub proof fn expected_positive<N: Number>(
    t: &Tree<N>,
    policy: Policy,
    h: Seq<u32>,
    s: Seq<i8>,
    c: int,
)
    requires
        exact::<N>(),
        t.wf(),
        0 <= c < t.k,
    ensures
        expected(t, policy, h, s, c) >= 0 as real,
    decreases t.net().work(s),
{
    let g = t.net().nodes;
    if valid(g, s) && rank(g, s) is Some {
        let (r, w) = rank(g, s).unwrap();
        best_is_least(g, s, t.net().size());
        if r == 1 {
            branch_works(t.net(), s);
            let a = picked(g[w], policy(h));
            expected_positive(t, policy, h.push(a as u32), started(s, a), c);
        } else if r == 4 {
            branch_works(t.net(), s);
            prob_between(t, w);
            let p = N::real_of(t.prob_v(w));
            let (l, u) = (g[w].low, g[w].high);
            expected_positive(t, policy, h.push(l as u32), started(s, l), c);
            expected_positive(t, policy, h.push(u as u32), started(s, u), c);
            let x = expected(t, policy, h.push(l as u32), started(s, l), c);
            let y = expected(t, policy, h.push(u as u32), started(s, u), c);
            times_positive(p, x);
            times_positive(1 as real - p, y);
        } else {
            moved_works(t.net(), s);
            expected_positive(t, policy, h, moved(g, s, r, w), c);
            cost_positive(t, s, t.net().size(), c);
        }
    }
}

/// `P I`, as a real number.
pub open spec fn spent_re<N: Number>(c: int) -> spec_fn(Leaf<N::Value>) -> real {
    |l: Leaf<N::Value>| N::real_of(l.prob) * re::<N>(l.impact, c)
}

pub proof fn spent_by_re<N: Number>(paid: Seq<N::Value>, ls: Seq<Leaf<N::Value>>, c: int)
    requires
        exact::<N>(),
        0 <= c < paid.len(),
    ensures
        spent_by::<N>(paid, ls).len() == paid.len(),
        re::<N>(spent_by::<N>(paid, ls), c) == re::<N>(paid, c) + weigh(ls, spent_re::<N>(c)),
    decreases ls.len(),
{
    if ls.len() > 0 {
        spent_by_re::<N>(paid, ls.drop_last(), c);
    }
}

/// What a strategy that agrees with a frontier is worth, between the sums of
/// the frontier.
pub proof fn frontier_encloses<N: Number>(t: &Tree<N>, policy: Policy, m: Moves, c: int)
    requires
        exact::<N>(),
        t.wf(),
        legal(t, m),
        agrees(t, policy, m),
        0 <= c < t.k,
    ensures
        ({
            let f = front_at(t, m);
            &&& re::<N>(rejecting_v::<N>(f), c) <= worth(t, policy, c)
            &&& worth(t, policy, c) <= re::<N>(accepting_v::<N>(f), c)
            &&& re::<N>(accumulated_v::<N>(f), c) <= worth(t, policy, c)
            &&& f.open.len() == 0 ==> worth(t, policy, c) == re::<N>(accepting_v::<N>(f), c)
        }),
{
    let f = front_at(t, m);
    let g = due(t, policy, Seq::empty(), c);
    let (up, lo, sp) = (hat_re(t, true, c), hat_re(t, false, c), spent_re::<N>(c));
    front_at_sound(t, m);
    frontier_value(t, policy, m, c);
    frontier_sums(t, m, c);
    weigh_join(f.open, f.closed, g);
    spent_by_re::<N>(f.paid, f.open, c);
    assert forall|i: int| 0 <= i < f.open.len() implies lo(#[trigger] f.open[i]) <= g(f.open[i])
        && g(f.open[i]) <= up(f.open[i]) && sp(f.open[i]) <= g(f.open[i]) by {
        let h = f.open[i];
        trail_facts(t, h.decisions);
        let d = Seq::<u32>::empty() + h.decisions;
        bounds_enclose(t, policy, d, h.state, c);
        expected_positive(t, policy, d, h.state, c);
        let (p, x) = (N::real_of(h.prob), re::<N>(h.impact, c));
        let e = expected(t, policy, d, h.state, c);
        let (u, l) = (bound_re(t, h.state, true, c), bound_re(t, h.state, false, c));
        times_grows(p, x + l, x + e);
        times_grows(p, x + e, x + u);
        times_grows(p, x, x + e);
    }
    assert forall|i: int| 0 <= i < f.closed.len() implies up(#[trigger] f.closed[i]) == g(
        f.closed[i],
    ) by {
        let h = f.closed[i];
        trail_facts(t, h.decisions);
        bound_final(t, h.state, true, c);
    }
    weigh_le(f.open, lo, g);
    weigh_le(f.open, g, up);
    weigh_le(f.open, sp, g);
    weigh_le(f.closed, up, g);
    weigh_le(f.closed, g, up);
}

/// The budget in one component, with the slack the comparison leaves.
pub open spec fn limit<N: Number>(x: Tests<N::Value>, c: int) -> real {
    let b = re::<N>(x.threshold, c);
    let m = if b >= 0 as real { b } else { 0 as real - b };
    b + N::real_of(x.slack) * (if m >= 1 as real { m } else { 1 as real })
}

/// The expected impact of the strategy is within the limits.
pub open spec fn fits_limit<N: Number>(t: &Tree<N>, policy: Policy, x: Tests<N::Value>) -> bool {
    forall|c: int|
        0 <= c < t.k && c < x.threshold.len() ==> #[trigger] worth(t, policy, c) <= limit::<N>(x, c)
}

/// Without slack the limits are the budget.
pub proof fn limit_is_budget<N: Number>(t: &Tree<N>, policy: Policy, x: Tests<N::Value>)
    requires
        x.threshold.len() == t.k,
        N::real_of(x.slack) == 0 as real,
    ensures
        fits_limit(t, policy, x) == fits(t, policy, x.threshold),
{
    assert forall|c: int| limit::<N>(x, c) == re::<N>(x.threshold, c) by {
        let b = re::<N>(x.threshold, c);
        let m = if b >= 0 as real { b } else { 0 as real - b };
        let z = if m >= 1 as real { m } else { 1 as real };
        times_unit(z);
    }
    if fits_limit(t, policy, x) {
        assert forall|c: int| 0 <= c < t.k implies #[trigger] worth(t, policy, c) <= re::<N>(
            x.threshold,
            c,
        ) by {
            assert(limit::<N>(x, c) == re::<N>(x.threshold, c));
        }
    }
    if fits(t, policy, x.threshold) {
        assert forall|c: int| 0 <= c < t.k implies #[trigger] worth(t, policy, c) <= limit::<N>(
            x,
            c,
        ) by {
            assert(limit::<N>(x, c) == re::<N>(x.threshold, c));
        }
    }
}

proof fn within_limit<N: Number>(a: Seq<N::Value>, x: Tests<N::Value>)
    requires
        exact::<N>(),
    ensures
        within::<N>(a, x.threshold, x.slack) <==> forall|c: int|
            0 <= c < a.len() && c < x.threshold.len() ==> #[trigger] re::<N>(a, c) <= limit::<N>(x, c),
{
    let zero = N::le_v(x.slack, N::zero_v()) && N::le_v(N::zero_v(), x.slack);
    assert forall|c: int| 0 <= c < a.len() && c < x.threshold.len() implies (if zero {
        N::le_v(a[c], x.threshold[c])
    } else {
        N::le_v(
            a[c],
            N::plus_v(
                x.threshold[c],
                N::times_v(x.slack, N::max_v(N::abs_v(x.threshold[c]), N::one_v())),
            ),
        )
    }) == (#[trigger] re::<N>(a, c) <= limit::<N>(x, c)) by {
        let b = re::<N>(x.threshold, c);
        let m = if b >= 0 as real { b } else { 0 as real - b };
        let z = if m >= 1 as real { m } else { 1 as real };
        if zero {
            times_unit(z);
        }
    }
    if within::<N>(a, x.threshold, x.slack) {
        assert forall|c: int| 0 <= c < a.len() && c < x.threshold.len() implies #[trigger] re::<N>(a, c) <= limit::<N>(x, c) by {
            assert(a[c] == a[c]);
        }
    } else {
        let c = choose|c: int|
            0 <= c < a.len() && c < x.threshold.len() && !(if zero {
                N::le_v(#[trigger] a[c], x.threshold[c])
            } else {
                N::le_v(
                    a[c],
                    N::plus_v(
                        x.threshold[c],
                        N::times_v(x.slack, N::max_v(N::abs_v(x.threshold[c]), N::one_v())),
                    ),
                )
            });
        assert(!(re::<N>(a, c) <= limit::<N>(x, c)));
    }
}

/// A frontier that passes the accepting test holds only strategies within the
/// limits.
pub proof fn accepted_fits<N: Number>(t: &Tree<N>, x: Tests<N::Value>, m: Moves, policy: Policy)
    requires
        exact::<N>(),
        t.wf(),
        legal(t, m),
        accepted::<N>(x, front_at(t, m)),
        agrees(t, policy, m),
    ensures
        fits_limit(t, policy, x),
{
    let a = accepting_v::<N>(front_at(t, m));
    front_at_sound(t, m);
    within_limit::<N>(a, x);
    assert forall|c: int| 0 <= c < t.k && c < x.threshold.len() implies #[trigger] worth(
        t,
        policy,
        c,
    ) <= limit::<N>(x, c) by {
        frontier_encloses(t, policy, m, c);
        assert(re::<N>(a, c) <= limit::<N>(x, c));
    }
}

/// A rejected frontier holds no strategy within the limits.
pub proof fn rejected_misses<N: Number>(t: &Tree<N>, x: Tests<N::Value>, m: Moves, policy: Policy)
    requires
        exact::<N>(),
        t.wf(),
        legal(t, m),
        rejected::<N>(x, front_at(t, m)),
        agrees(t, policy, m),
    ensures
        !fits_limit(t, policy, x),
{
    let f = front_at(t, m);
    front_at_sound(t, m);
    let a = if f.open.len() == 0 {
        accepting_v::<N>(f)
    } else if x.reject_early {
        rejecting_v::<N>(f)
    } else {
        accumulated_v::<N>(f)
    };
    spent_by_re::<N>(f.paid, f.open, 0);
    within_limit::<N>(a, x);
    let c = choose|c: int|
        0 <= c < a.len() && c < x.threshold.len() && !(#[trigger] re::<N>(a, c) <= limit::<N>(
            x,
            c,
        ));
    frontier_encloses(t, policy, m, c);
    assert(worth(t, policy, c) > limit::<N>(x, c));
}

/// A computation tree cut at rejected frontiers holds no strategy within the
/// limits.
pub proof fn refuted_misses<N: Number>(
    t: &Tree<N>,
    x: Tests<N::Value>,
    m: Moves,
    n: nat,
    policy: Policy,
)
    requires
        exact::<N>(),
        t.wf(),
        legal(t, m),
        refuted(t, x, m, n),
        agrees(t, policy, m),
    ensures
        !fits_limit(t, policy, x),
    decreases n,
{
    if rejected::<N>(x, front_at(t, m)) {
        rejected_misses(t, x, m, policy);
    } else {
        let i = choose|i: int|
            {
                &&& #[trigger] elects(t, m, i)
                &&& refuted(t, x, m.push((i, Branch::Low)), (n - 1) as nat)
                &&& refuted(t, x, m.push((i, Branch::High)), (n - 1) as nat)
            };
        let b = policy(front_at(t, m).open[i].decisions);
        let p = m.push((i, b));
        assert(p.drop_last() =~= m);
        assert(legal(t, p));
        assert(agrees(t, policy, p));
        refuted_misses(t, x, p, (n - 1) as nat, policy);
    }
}

// ---------------------------------------------------------------------------
// every path of the computation tree holds a strategy
// ---------------------------------------------------------------------------

/// The history decided by the election `j` of a path.
pub open spec fn decided<N: Number>(t: &Tree<N>, m: Moves, j: int) -> Seq<u32> {
    front_at(t, m.take(j)).open[m[j].0].decisions
}

/// No history of a frontier begins one that was decided on the way to it.
proof fn decided_past<N: Number>(t: &Tree<N>, m: Moves, j: int)
    requires
        t.wf(),
        legal(t, m),
        0 <= j < m.len(),
    ensures
        forall|i: int|
            0 <= i < front_at(t, m).all().len() ==> !begins(
                (#[trigger] front_at(t, m).all()[i]).decisions,
                decided(t, m, j),
            ),
    decreases m.len(),
{
    let q = m.drop_last();
    let f = front_at(t, q);
    let (e, b) = m.last();
    let h = f.open[e];
    let ks = kids(t, h, b);
    let r = front_at(t, m);
    let d = decided(t, m, j);
    front_at_sound(t, q);
    kids_facts(t, h, b);
    part_from(ks, true);
    part_from(ks, false);
    assert(m.take(m.len() - 1) =~= q);
    if j < m.len() - 1 {
        decided_past(t, q, j);
        assert(q.take(j) =~= m.take(j));
        assert(decided(t, q, j) == d);
    } else {
        assert(d == h.decisions);
    }
    assert(f.all()[e] == h);
    assert forall|i: int| 0 <= i < r.all().len() implies !begins(
        (#[trigger] r.all()[i]).decisions,
        d,
    ) by {
        let x = r.all()[i];
        let rest = f.open.remove(e);
        let (po, pc) = (part(ks, true), part(ks, false));
        let from_kids = rest.len() <= i < rest.len() + po.len() || i >= rest.len() + po.len()
            + f.closed.len();
        if from_kids {
            assert(ks.contains(x)) by {
                if i < rest.len() + po.len() {
                    assert(x == po[i - rest.len()]);
                } else {
                    assert(x == pc[i - rest.len() - po.len() - f.closed.len()]);
                }
            }
            let y = ks.index_of(x);
            assert(ks[y] == x);
            if begins(x.decisions, d) {
                assert(d.take(h.decisions.len() as int) =~= x.decisions.take(
                    h.decisions.len() as int,
                ));
                assert(begins(h.decisions, d));
                if j < m.len() - 1 {
                    assert(!begins(f.all()[e].decisions, d));
                }
            }
        } else {
            let y = if i < rest.len() {
                if i < e {
                    i
                } else {
                    i + 1
                }
            } else {
                i - po.len() + 1
            };
            assert(x == f.all()[y]);
            assert(y != e);
            if j < m.len() - 1 {
                assert(!begins(f.all()[y].decisions, d));
            } else {
                assert(!begins(f.all()[y].decisions, f.all()[e].decisions));
            }
        }
    }
}

/// The strategy that takes the branches of a path, and the low branch wherever
/// the path decided nothing.
pub open spec fn policy_of<N: Number>(t: &Tree<N>, m: Moves) -> Policy {
    |d: Seq<u32>|
        if exists|j: int| 0 <= j < m.len() && #[trigger] decided(t, m, j) == d {
            m[choose|j: int| 0 <= j < m.len() && #[trigger] decided(t, m, j) == d].1
        } else {
            Branch::Low
        }
}

/// A path of the computation tree decides no history twice.
pub proof fn decided_once<N: Number>(t: &Tree<N>, m: Moves, i: int, j: int)
    requires
        t.wf(),
        legal(t, m),
        0 <= i < j < m.len(),
    ensures
        decided(t, m, i) != decided(t, m, j),
    decreases m.len(),
{
    let q = m.drop_last();
    if j < m.len() - 1 {
        decided_once(t, q, i, j);
        assert(q.take(i) =~= m.take(i));
        assert(q.take(j) =~= m.take(j));
    } else {
        decided_past(t, q, i);
        assert(q.take(i) =~= m.take(i));
        assert(m.take(j) =~= q);
        let f = front_at(t, q);
        assert(f.all()[m[j].0] == f.open[m[j].0]);
        let d = decided(t, m, j);
        assert(d.take(d.len() as int) =~= d);
        assert(begins(d, d));
    }
}

/// The histories a path decides are those of its elections, in their order.
proof fn decisions_decided<N: Number>(t: &Tree<N>, m: Moves, j: int)
    requires
        0 <= j < m.len(),
    ensures
        decisions_of(t, m).len() == m.len(),
        decisions_of(t, m)[j].0 == decided(t, m, j),
    decreases m.len(),
{
    let q = m.drop_last();
    if j < m.len() - 1 {
        decisions_decided(t, q, j);
        assert(q.take(j) =~= m.take(j));
    } else {
        if q.len() > 0 {
            decisions_decided(t, q, 0);
        } else {
            assert(decisions_of(t, q).len() == 0);
        }
        assert(m.take(j) =~= q);
    }
}

/// The histories of the decisions of a path are pairwise distinct.
pub proof fn decisions_distinct<N: Number>(t: &Tree<N>, m: Moves)
    requires
        t.wf(),
        legal(t, m),
    ensures
        forall|i: int, j: int|
            0 <= i < j < decisions_of(t, m).len() ==> (#[trigger] decisions_of(t, m)[i]).0 != (
            #[trigger] decisions_of(t, m)[j]).0,
{
    if m.len() > 0 {
        decisions_decided(t, m, 0);
    }
    assert forall|i: int, j: int| 0 <= i < j < decisions_of(t, m).len() implies (
    #[trigger] decisions_of(t, m)[i]).0 != (#[trigger] decisions_of(t, m)[j]).0 by {
        decisions_decided(t, m, i);
        decisions_decided(t, m, j);
        decided_once(t, m, i, j);
    }
}

proof fn policy_of_agrees<N: Number>(t: &Tree<N>, m: Moves, n: int)
    requires
        t.wf(),
        legal(t, m),
        0 <= n <= m.len(),
    ensures
        agrees(t, policy_of(t, m), m.take(n)),
    decreases n,
{
    if n > 0 {
        let p = m.take(n);
        policy_of_agrees(t, m, n - 1);
        assert(p.drop_last() =~= m.take(n - 1));
        let d = decided(t, m, n - 1);
        assert(front_at(t, p.drop_last()).open[p.last().0].decisions == d);
        let j = choose|j: int| 0 <= j < m.len() && #[trigger] decided(t, m, j) == d;
        if j < n - 1 {
            decided_once(t, m, j, n - 1);
        } else if j > n - 1 {
            decided_once(t, m, n - 1, j);
        }
    }
}

/// Every path of the computation tree holds a strategy.
pub proof fn every_path_holds_a_strategy<N: Number>(t: &Tree<N>, m: Moves)
    requires
        t.wf(),
        legal(t, m),
    ensures
        agrees(t, policy_of(t, m), m),
{
    policy_of_agrees(t, m, m.len() as int);
    assert(m.take(m.len() as int) =~= m);
}

/// An accepted frontier at the end of a path answers yes, and a computation
/// tree cut at rejected frontiers answers no: they exclude one another.
pub proof fn verdicts_exclude<N: Number>(t: &Tree<N>, x: Tests<N::Value>, m: Moves)
    requires
        exact::<N>(),
        t.wf(),
        legal(t, m),
        accepted::<N>(x, front_at(t, m)),
    ensures
        !refutable(t, x, Seq::empty()),
{
    every_path_holds_a_strategy(t, m);
    let p = policy_of(t, m);
    accepted_fits(t, x, m, p);
    if refutable(t, x, Seq::empty()) {
        let n = choose|n: nat| refuted(t, x, Seq::empty(), n);
        refuted_misses(t, x, Seq::empty(), n, p);
    }
}

} // verus!
