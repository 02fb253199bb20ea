//! The outcomes of a macro step, taken together.
//!
//! A macro step is many moves of the process at once. What its outcomes weigh
//! together is what the state it leaves weighs: for the expected impact of a
//! strategy, for either bound, and for the decisions still to be met. No
//! outcome's decisions begin another's, so a history names one path only.

use vstd::prelude::*;
use crate::enclosure::prob_between;
use crate::num::{exact, re, Number};
use crate::progress::{branch_works, moved_works, net_children};
use crate::semantics::{best_is_least, moved, rank, started, valid};
use crate::state::{forced, paid, stop_at, stops, Leaf};
use crate::strategy::{branch_coherent, cost, expected, moved_coherent, Policy};
use crate::tree::Tree;

verus! {

/// A sum over outcomes.
pub open spec fn weigh<V>(ls: Seq<Leaf<V>>, f: spec_fn(Leaf<V>) -> real) -> real
    decreases ls.len(),
{
    if ls.len() == 0 {
        0 as real
    } else {
        weigh(ls.drop_last(), f) + f(ls.last())
    }
}

pub proof fn weigh_join<V>(a: Seq<Leaf<V>>, b: Seq<Leaf<V>>, f: spec_fn(Leaf<V>) -> real)
    ensures
        weigh(a + b, f) == weigh(a, f) + weigh(b, f),
    decreases b.len(),
{
    if b.len() == 0 {
        assert(a + b =~= a);
    } else {
        weigh_join(a, b.drop_last(), f);
        assert((a + b).drop_last() =~= a + b.drop_last());
    }
}

pub proof fn weigh_one<V>(l: Leaf<V>, f: spec_fn(Leaf<V>) -> real)
    ensures
        weigh(seq![l], f) == f(l),
{
    reveal_with_fuel(weigh, 2);
    assert(seq![l].drop_last() =~= Seq::empty());
}

/// What is paid at a fast forward, as a real number.
pub proof fn paid_re<N: Number>(t: &Tree<N>, s: Seq<i8>, n: int, before: Seq<N::Value>, c: int)
    requires
        exact::<N>(),
        before.len() == t.k,
        0 <= c < t.k,
    ensures
        paid(t, s, n, before).len() == t.k,
        re::<N>(paid(t, s, n, before), c) == re::<N>(before, c) + cost(t, s, 1, n, c),
    decreases n,
{
    if n > 0 {
        paid_re(t, s, n - 1, before, c);
    }
}

pub proof fn paid_len<N: Number>(t: &Tree<N>, s: Seq<i8>, n: int, before: Seq<N::Value>)
    ensures
        paid(t, s, n, before).len() == before.len(),
    decreases n,
{
    if n > 0 {
        paid_len(t, s, n - 1, before);
    }
}

// ---------------------------------------------------------------------------
// every outcome
// ---------------------------------------------------------------------------

/// What is true of an outcome whose path began with `d`.
pub open spec fn outcome_of<N: Number>(t: &Tree<N>, d: Seq<u32>, l: Leaf<N::Value>) -> bool {
    &&& valid(t.net().nodes, l.state)
    &&& stops(t, l.state)
    &&& l.stop == stop_at(t, l.state)
    &&& l.impact.len() == t.k
    &&& d.len() <= l.decisions.len()
    &&& l.decisions.take(d.len() as int) == d
}

/// The outcomes of a forced run stop where they should.
pub proof fn forced_outcomes<N: Number>(
    t: &Tree<N>,
    s: Seq<i8>,
    d: Seq<u32>,
    impact: Seq<N::Value>,
    prob: N::Value,
)
    requires
        t.wf(),
        valid(t.net().nodes, s),
        impact.len() == t.k,
    ensures
        forall|i: int|
            0 <= i < forced(t, s, d, impact, prob).len() ==> outcome_of(
                t,
                d,
                #[trigger] forced(t, s, d, impact, prob)[i],
            ) && t.net().work(forced(t, s, d, impact, prob)[i].state) <= t.net().work(s),
    decreases t.net().work(s),
{
    let g = t.net().nodes;
    let n = t.net();
    let all = forced(t, s, d, impact, prob);
    if stops(t, s) {
        assert(d.take(d.len() as int) =~= d);
    } else {
        let (r, w) = rank(g, s).unwrap();
        best_is_least(g, s, n.size());
        if r == 4 {
            branch_works(n, s);
            let p = t.prob_v(w);
            let q = N::minus_v(N::one_v(), p);
            let (l, h) = (g[w].low, g[w].high);
            let (dl, dh) = (d.push(l as u32), d.push(h as u32));
            forced_outcomes(t, started(s, l), dl, impact, N::times_v(prob, p));
            forced_outcomes(t, started(s, h), dh, impact, N::times_v(prob, q));
            let a = forced(t, started(s, l), dl, impact, N::times_v(prob, p));
            let b = forced(t, started(s, h), dh, impact, N::times_v(prob, q));
            assert forall|i: int| 0 <= i < all.len() implies outcome_of(t, d, #[trigger] all[i])
                && n.work(all[i].state) <= n.work(s) by {
                if i < a.len() {
                    assert(all[i] == a[i]);
                    assert(a[i].decisions.take(d.len() as int) =~= dl.take(d.len() as int));
                    assert(dl.take(d.len() as int) =~= d);
                } else {
                    assert(all[i] == b[i - a.len()]);
                    assert(all[i].decisions.take(d.len() as int) =~= dh.take(d.len() as int));
                    assert(dh.take(d.len() as int) =~= d);
                }
            }
        } else {
            moved_works(n, s);
            let i = if r == 5 { paid(t, s, n.size(), impact) } else { impact };
            paid_len(t, s, n.size(), impact);
            forced_outcomes(t, moved(g, s, r, w), d, i, prob);
        }
    }
}

/// The outcomes of a coherent state are coherent.
pub proof fn forced_coherent<N: Number>(
    t: &Tree<N>,
    s: Seq<i8>,
    d: Seq<u32>,
    impact: Seq<N::Value>,
    prob: N::Value,
)
    requires
        t.wf(),
        valid(t.net().nodes, s),
        t.net().coherent(s),
    ensures
        forall|i: int|
            0 <= i < forced(t, s, d, impact, prob).len() ==> t.net().coherent(
                (#[trigger] forced(t, s, d, impact, prob)[i]).state,
            ),
    decreases t.net().work(s),
{
    let g = t.net().nodes;
    let n = t.net();
    let all = forced(t, s, d, impact, prob);
    if !stops(t, s) {
        let (r, w) = rank(g, s).unwrap();
        best_is_least(g, s, n.size());
        if r == 4 {
            branch_works(n, s);
            branch_coherent(n, s);
            let p = t.prob_v(w);
            let q = N::minus_v(N::one_v(), p);
            let (l, h) = (g[w].low, g[w].high);
            forced_coherent(t, started(s, l), d.push(l as u32), impact, N::times_v(prob, p));
            forced_coherent(t, started(s, h), d.push(h as u32), impact, N::times_v(prob, q));
            let a = forced(t, started(s, l), d.push(l as u32), impact, N::times_v(prob, p));
            assert forall|i: int| 0 <= i < all.len() implies n.coherent(#[trigger] all[i].state) by {
                if i < a.len() {
                    assert(all[i] == a[i]);
                }
            }
        } else {
            moved_works(n, s);
            moved_coherent(n, s);
            let i = if r == 5 { paid(t, s, n.size(), impact) } else { impact };
            forced_coherent(t, moved(g, s, r, w), d, i, prob);
        }
    }
}

/// `a` begins `b`.
pub open spec fn begins(a: Seq<u32>, b: Seq<u32>) -> bool {
    a.len() <= b.len() && b.take(a.len() as int) == a
}

/// No two of these begin one another.
pub open spec fn prefix_free<V>(ls: Seq<Leaf<V>>) -> bool {
    forall|i: int, j: int|
        0 <= i < ls.len() && 0 <= j < ls.len() && i != j ==> !begins(
            (#[trigger] ls[i]).decisions,
            (#[trigger] ls[j]).decisions,
        )
}

/// No outcome of a forced run has decisions that begin another's.
pub proof fn forced_prefix_free<N: Number>(
    t: &Tree<N>,
    s: Seq<i8>,
    d: Seq<u32>,
    impact: Seq<N::Value>,
    prob: N::Value,
)
    requires
        t.wf(),
        valid(t.net().nodes, s),
        impact.len() == t.k,
    ensures
        prefix_free(forced(t, s, d, impact, prob)),
    decreases t.net().work(s),
{
    let g = t.net().nodes;
    let n = t.net();
    let all = forced(t, s, d, impact, prob);
    if !stops(t, s) {
        let (r, w) = rank(g, s).unwrap();
        best_is_least(g, s, n.size());
        if r == 4 {
            branch_works(n, s);
            net_children(n, w);
            let p = t.prob_v(w);
            let q = N::minus_v(N::one_v(), p);
            let (l, h) = (g[w].low, g[w].high);
            let (dl, dh) = (d.push(l as u32), d.push(h as u32));
            forced_prefix_free(t, started(s, l), dl, impact, N::times_v(prob, p));
            forced_prefix_free(t, started(s, h), dh, impact, N::times_v(prob, q));
            forced_outcomes(t, started(s, l), dl, impact, N::times_v(prob, p));
            forced_outcomes(t, started(s, h), dh, impact, N::times_v(prob, q));
            let a = forced(t, started(s, l), dl, impact, N::times_v(prob, p));
            let b = forced(t, started(s, h), dh, impact, N::times_v(prob, q));
            assert forall|i: int, j: int|
                0 <= i < all.len() && 0 <= j < all.len() && i != j implies !begins(
                (#[trigger] all[i]).decisions,
                (#[trigger] all[j]).decisions,
            ) by {
                if i < a.len() {
                    assert(all[i] == a[i]);
                    assert(a[i].decisions[d.len() as int] == dl[d.len() as int]) by {
                        assert(a[i].decisions.take(dl.len() as int)[d.len() as int]
                            == a[i].decisions[d.len() as int]);
                    }
                } else {
                    assert(all[i] == b[i - a.len()]);
                    assert(all[i].decisions[d.len() as int] == dh[d.len() as int]) by {
                        assert(all[i].decisions.take(dh.len() as int)[d.len() as int]
                            == all[i].decisions[d.len() as int]);
                    }
                }
                if j < a.len() {
                    assert(all[j] == a[j]);
                    assert(a[j].decisions[d.len() as int] == dl[d.len() as int]) by {
                        assert(a[j].decisions.take(dl.len() as int)[d.len() as int]
                            == a[j].decisions[d.len() as int]);
                    }
                } else {
                    assert(all[j] == b[j - a.len()]);
                    assert(all[j].decisions[d.len() as int] == dh[d.len() as int]) by {
                        assert(all[j].decisions.take(dh.len() as int)[d.len() as int]
                            == all[j].decisions[d.len() as int]);
                    }
                }
                if begins(all[i].decisions, all[j].decisions) {
                    assert(all[j].decisions.take(all[i].decisions.len() as int)[d.len() as int]
                        == all[j].decisions[d.len() as int]);
                    assert((i < a.len()) == (j < a.len()));
                }
            }
        } else {
            moved_works(n, s);
            let i = if r == 5 { paid(t, s, n.size(), impact) } else { impact };
            paid_len(t, s, n.size(), impact);
            forced_prefix_free(t, moved(g, s, r, w), d, i, prob);
        }
    }
}

// ---------------------------------------------------------------------------
// the outcomes together
// ---------------------------------------------------------------------------

/// What an outcome contributes to the expected impact of a strategy, when its
/// decisions follow the history `h`.
pub open spec fn due<N: Number>(t: &Tree<N>, policy: Policy, h: Seq<u32>, c: int) -> spec_fn(
    Leaf<N::Value>,
) -> real {
    |l: Leaf<N::Value>|
        N::real_of(l.prob) * (re::<N>(l.impact, c) + expected(
            t,
            policy,
            h + l.decisions,
            l.state,
            c,
        ))
}

pub proof fn distribute(q: real, p: real, i: real, x: real, y: real)
    ensures
        (q * p) * (i + x) + (q * (1 as real - p)) * (i + y) == q * (i + (p * x + (1 as real - p)
            * y)),
{
    let r = 1 as real - p;
    assert((q * p) * (i + x) == q * (p * i + p * x)) by (nonlinear_arith);
    assert((q * r) * (i + y) == q * (r * i + r * y)) by (nonlinear_arith);
    assert(p * i + r * i == i) by (nonlinear_arith)
        requires
            r == 1 as real - p,
    ;
    assert(q * (p * i + p * x) + q * (r * i + r * y) == q * ((p * i + p * x) + (r * i + r * y)))
        by (nonlinear_arith);
}

/// The outcomes of a forced run contribute together what the state they leave
/// contributes.
pub proof fn forced_due<N: Number>(
    t: &Tree<N>,
    policy: Policy,
    h: Seq<u32>,
    s: Seq<i8>,
    d: Seq<u32>,
    impact: Seq<N::Value>,
    prob: N::Value,
    c: int,
)
    requires
        exact::<N>(),
        t.wf(),
        valid(t.net().nodes, s),
        impact.len() == t.k,
        0 <= c < t.k,
    ensures
        weigh(forced(t, s, d, impact, prob), due(t, policy, h, c)) == N::real_of(prob) * (re::<N>(
            impact,
            c,
        ) + expected(t, policy, h + d, s, c)),
    decreases t.net().work(s),
{
    let g = t.net().nodes;
    let n = t.net();
    let f = due(t, policy, h, c);
    if stops(t, s) {
        weigh_one(forced(t, s, d, impact, prob)[0], f);
    } else {
        let (r, w) = rank(g, s).unwrap();
        best_is_least(g, s, n.size());
        if r == 4 {
            branch_works(n, s);
            let p = t.prob_v(w);
            let q = N::minus_v(N::one_v(), p);
            let (l, u) = (g[w].low, g[w].high);
            let (dl, du) = (d.push(l as u32), d.push(u as u32));
            forced_due(t, policy, h, started(s, l), dl, impact, N::times_v(prob, p), c);
            forced_due(t, policy, h, started(s, u), du, impact, N::times_v(prob, q), c);
            weigh_join(
                forced(t, started(s, l), dl, impact, N::times_v(prob, p)),
                forced(t, started(s, u), du, impact, N::times_v(prob, q)),
                f,
            );
            assert(h + dl =~= (h + d).push(l as u32));
            assert(h + du =~= (h + d).push(u as u32));
            distribute(
                N::real_of(prob),
                N::real_of(p),
                re::<N>(impact, c),
                expected(t, policy, h + dl, started(s, l), c),
                expected(t, policy, h + du, started(s, u), c),
            );
        } else {
            moved_works(n, s);
            let i = if r == 5 { paid(t, s, n.size(), impact) } else { impact };
            paid_re(t, s, n.size(), impact, c);
            forced_due(t, policy, h, moved(g, s, r, w), d, i, prob, c);
        }
    }
}

/// The decisions met from a state on, over every strategy and every draw.
pub open spec fn decisions_ahead<N: Number>(t: &Tree<N>, s: Seq<i8>) -> nat
    decreases t.net().work(s),
{
    let g = t.net().nodes;
    if !t.net().wf() || !valid(g, s) || rank(g, s) is None {
        0
    } else {
        let (r, w) = rank(g, s).unwrap();
        proof {
            best_is_least(g, s, t.net().size());
            if r == 1 || r == 4 {
                branch_works(t.net(), s);
            } else {
                moved_works(t.net(), s);
            }
        }
        if r == 1 || r == 4 {
            (if r == 1 { 1nat } else { 0nat }) + decisions_ahead(t, started(s, g[w].low))
                + decisions_ahead(t, started(s, g[w].high))
        } else {
            decisions_ahead(t, moved(g, s, r, w))
        }
    }
}

/// The decisions met from any of these outcomes on.
pub open spec fn ahead<N: Number>(t: &Tree<N>, ls: Seq<Leaf<N::Value>>) -> nat
    decreases ls.len(),
{
    if ls.len() == 0 {
        0
    } else {
        ahead(t, ls.drop_last()) + decisions_ahead(t, ls.last().state)
    }
}

pub proof fn ahead_join<N: Number>(t: &Tree<N>, a: Seq<Leaf<N::Value>>, b: Seq<Leaf<N::Value>>)
    ensures
        ahead(t, a + b) == ahead(t, a) + ahead(t, b),
    decreases b.len(),
{
    if b.len() == 0 {
        assert(a + b =~= a);
    } else {
        ahead_join(t, a, b.drop_last());
        assert((a + b).drop_last() =~= a + b.drop_last());
    }
}

/// A forced run loses no decision.
pub proof fn forced_ahead<N: Number>(
    t: &Tree<N>,
    s: Seq<i8>,
    d: Seq<u32>,
    impact: Seq<N::Value>,
    prob: N::Value,
)
    requires
        t.wf(),
        valid(t.net().nodes, s),
    ensures
        ahead(t, forced(t, s, d, impact, prob)) == decisions_ahead(t, s),
    decreases t.net().work(s),
{
    let g = t.net().nodes;
    let n = t.net();
    if stops(t, s) {
        reveal_with_fuel(ahead, 2);
        let one = forced(t, s, d, impact, prob);
        assert(one.drop_last() =~= Seq::empty());
    } else {
        let (r, w) = rank(g, s).unwrap();
        best_is_least(g, s, n.size());
        if r == 4 {
            branch_works(n, s);
            let p = t.prob_v(w);
            let q = N::minus_v(N::one_v(), p);
            let (l, u) = (g[w].low, g[w].high);
            let (dl, du) = (d.push(l as u32), d.push(u as u32));
            forced_ahead(t, started(s, l), dl, impact, N::times_v(prob, p));
            forced_ahead(t, started(s, u), du, impact, N::times_v(prob, q));
            ahead_join(
                t,
                forced(t, started(s, l), dl, impact, N::times_v(prob, p)),
                forced(t, started(s, u), du, impact, N::times_v(prob, q)),
            );
        } else {
            moved_works(n, s);
            let i = if r == 5 { paid(t, s, n.size(), impact) } else { impact };
            forced_ahead(t, moved(g, s, r, w), d, i, prob);
        }
    }
}

/// The outcomes of a forced run weigh together what the run weighs, and none
/// weighs less than nothing.
pub proof fn forced_probability<N: Number>(
    t: &Tree<N>,
    s: Seq<i8>,
    d: Seq<u32>,
    impact: Seq<N::Value>,
    prob: N::Value,
)
    requires
        exact::<N>(),
        t.wf(),
        valid(t.net().nodes, s),
        N::real_of(prob) > 0 as real,
    ensures
        weigh(forced(t, s, d, impact, prob), |l: Leaf<N::Value>| N::real_of(l.prob)) == N::real_of(
            prob,
        ),
        forall|i: int|
            0 <= i < forced(t, s, d, impact, prob).len() ==> N::real_of(
                (#[trigger] forced(t, s, d, impact, prob)[i]).prob,
            ) > 0 as real,
    decreases t.net().work(s),
{
    let g = t.net().nodes;
    let n = t.net();
    let f = |l: Leaf<N::Value>| N::real_of(l.prob);
    let all = forced(t, s, d, impact, prob);
    if stops(t, s) {
        weigh_one(all[0], f);
    } else {
        let (r, w) = rank(g, s).unwrap();
        best_is_least(g, s, n.size());
        if r == 4 {
            branch_works(n, s);
            prob_between(t, w);
            let p = t.prob_v(w);
            let q = N::minus_v(N::one_v(), p);
            let (l, u) = (g[w].low, g[w].high);
            let (dl, du) = (d.push(l as u32), d.push(u as u32));
            let (x, y) = (N::real_of(prob), N::real_of(p));
            assert(x * y > 0 as real && x * (1 as real - y) > 0 as real) by (nonlinear_arith)
                requires
                    x > 0 as real,
                    (0 as real) < y < 1 as real,
            ;
            assert(x * y + x * (1 as real - y) == x) by (nonlinear_arith);
            forced_probability(t, started(s, l), dl, impact, N::times_v(prob, p));
            forced_probability(t, started(s, u), du, impact, N::times_v(prob, q));
            let a = forced(t, started(s, l), dl, impact, N::times_v(prob, p));
            let b = forced(t, started(s, u), du, impact, N::times_v(prob, q));
            weigh_join(a, b, f);
            assert forall|i: int| 0 <= i < all.len() implies N::real_of((#[trigger] all[i]).prob)
                > 0 as real by {
                if i < a.len() {
                    assert(all[i] == a[i]);
                } else {
                    assert(all[i] == b[i - a.len()]);
                }
            }
        } else {
            moved_works(n, s);
            let i = if r == 5 { paid(t, s, n.size(), impact) } else { impact };
            forced_probability(t, moved(g, s, r, w), d, i, prob);
        }
    }
}

} // verus!
