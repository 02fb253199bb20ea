//! What the exact optima are: the least and the greatest expected impact over
//! every strategy, one component at a time, each attained by some strategy.
//!
//! Everything here is stated for arithmetic that does not round.

use vstd::prelude::*;
use crate::enclosure::{bound_re, bounds_enclose};
use crate::exact::{best_of, mean_over, optimum_chosen, optimum_len, optimum_v, reply_descends};
use crate::frontier::open_waits;
use crate::history::{
    extended, opening_facts, path, trail, trail_extended, trail_facts, trail_opening,
};
use crate::num::{exact, re, zeros_v, Number};
use crate::progress::{branch_works, initial_valid};
use crate::reals::{times_grows, times_unit};
use crate::semantics::{best_is_least, rank, started, valid};
use crate::state::{opening, reply, stops, Leaf};
use crate::strategy::{expected, fits, worth, Policy};
use crate::tables::{child_of, Branch};
use crate::tree::Tree;
use crate::unfolding::{due, forced_due, forced_outcomes, forced_probability, outcome_of, weigh};

verus! {

/// What an outcome contributes when it goes on with the optimum.
pub open spec fn ideal<N: Number>(t: &Tree<N>, up: bool, c: int) -> spec_fn(Leaf<N::Value>) -> real {
    |l: Leaf<N::Value>|
        N::real_of(l.prob) * (re::<N>(l.impact, c) + re::<N>(optimum_v(t, l.state, up), c))
}

pub proof fn mean_over_re<N: Number>(t: &Tree<N>, ls: Seq<Leaf<N::Value>>, up: bool, c: int)
    requires
        exact::<N>(),
        0 <= c < t.k,
    ensures
        mean_over(t, ls, up).len() == t.k,
        re::<N>(mean_over(t, ls, up), c) == weigh(ls, ideal(t, up, c)),
    decreases ls.len(),
{
    if ls.len() > 0 {
        mean_over_re(t, ls.drop_last(), up, c);
        optimum_len(t, ls.last().state, up);
    }
}

pub proof fn weigh_same<V>(ls: Seq<Leaf<V>>, f: spec_fn(Leaf<V>) -> real, g: spec_fn(Leaf<V>) -> real)
    requires
        forall|i: int| 0 <= i < ls.len() ==> f(#[trigger] ls[i]) == g(ls[i]),
    ensures
        weigh(ls, f) == weigh(ls, g),
    decreases ls.len(),
{
    if ls.len() > 0 {
        let a = ls.drop_last();
        assert forall|i: int| 0 <= i < a.len() implies f(#[trigger] a[i]) == g(a[i]) by {
            assert(a[i] == ls[i]);
        }
        weigh_same(a, f, g);
        assert(ls[ls.len() - 1] == ls.last());
    }
}

pub proof fn weigh_under<V>(ls: Seq<Leaf<V>>, f: spec_fn(Leaf<V>) -> real, g: spec_fn(Leaf<V>) -> real)
    requires
        forall|i: int| 0 <= i < ls.len() ==> f(#[trigger] ls[i]) <= g(ls[i]),
    ensures
        weigh(ls, f) <= weigh(ls, g),
    decreases ls.len(),
{
    if ls.len() > 0 {
        let a = ls.drop_last();
        assert forall|i: int| 0 <= i < a.len() implies f(#[trigger] a[i]) <= g(a[i]) by {
            assert(a[i] == ls[i]);
        }
        weigh_under(a, f, g);
        assert(ls[ls.len() - 1] == ls.last());
    }
}

/// At a choice a strategy expects what the outcomes of the branch it takes
/// contribute.
pub proof fn expected_chosen<N: Number>(
    t: &Tree<N>,
    policy: Policy,
    h: Seq<u32>,
    s: Seq<i8>,
    c: int,
)
    requires
        exact::<N>(),
        t.wf(),
        valid(t.net().nodes, s),
        rank(t.net().nodes, s) is Some,
        rank(t.net().nodes, s).unwrap().0 == 1,
        0 <= c < t.k,
    ensures
        expected(t, policy, h, s, c) == weigh(
            reply(t, s, child_of(t, s, policy(h))),
            due(t, policy, h, c),
        ),
        forall|i: int, b: Branch|
            0 <= i < reply(t, s, child_of(t, s, b)).len() ==> N::real_of(
                (#[trigger] reply(t, s, child_of(t, s, b))[i]).prob,
            ) > 0 as real && outcome_of(
                t,
                seq![child_of(t, s, b)],
                reply(t, s, child_of(t, s, b))[i],
            ),
{
    let g = t.net().nodes;
    best_is_least(g, s, t.net().size());
    branch_works(t.net(), s);
    let z = zeros_v::<N>(t.k as nat);
    let a = child_of(t, s, policy(h));
    forced_due(t, policy, h, started(s, a as int), seq![a], z, N::one_v(), c);
    assert(h + seq![a] =~= h.push(a));
    times_unit(expected(t, policy, h.push(a), started(s, a as int), c));
    assert forall|i: int, b: Branch|
        0 <= i < reply(t, s, child_of(t, s, b)).len() implies N::real_of(
        (#[trigger] reply(t, s, child_of(t, s, b))[i]).prob,
    ) > 0 as real && outcome_of(
        t,
        seq![child_of(t, s, b)],
        reply(t, s, child_of(t, s, b))[i],
    ) by {
        let q = child_of(t, s, b);
        forced_probability(t, started(s, q as int), seq![q], z, N::one_v());
        forced_outcomes(t, started(s, q as int), seq![q], z, N::one_v());
    }
}

/// No strategy expects less than the least optimum, nor more than the greatest.
pub proof fn optima_enclose<N: Number>(
    t: &Tree<N>,
    policy: Policy,
    h: Seq<u32>,
    s: Seq<i8>,
    c: int,
)
    requires
        exact::<N>(),
        t.wf(),
        valid(t.net().nodes, s),
        stops(t, s),
        0 <= c < t.k,
    ensures
        re::<N>(optimum_v(t, s, false), c) <= expected(t, policy, h, s, c),
        expected(t, policy, h, s, c) <= re::<N>(optimum_v(t, s, true), c),
    decreases t.net().work(s),
{
    if rank(t.net().nodes, s) is Some {
        let b = policy(h);
        let ls = reply(t, s, child_of(t, s, b));
        let g = due(t, policy, h, c);
        expected_chosen(t, policy, h, s, c);
        reply_descends(t, s, b);
        assert forall|i: int| 0 <= i < ls.len() implies ideal(t, false, c)(#[trigger] ls[i]) <= g(
            ls[i],
        ) && g(ls[i]) <= ideal(t, true, c)(ls[i]) by {
            let l = ls[i];
            assert(outcome_of(t, seq![child_of(t, s, b)], l));
            optima_enclose(t, policy, h + l.decisions, l.state, c);
            let (p, x) = (N::real_of(l.prob), re::<N>(l.impact, c));
            let e = expected(t, policy, h + l.decisions, l.state, c);
            times_grows(p, x + re::<N>(optimum_v(t, l.state, false), c), x + e);
            times_grows(p, x + e, x + re::<N>(optimum_v(t, l.state, true), c));
        }
        weigh_under(ls, ideal(t, false, c), g);
        weigh_under(ls, g, ideal(t, true, c));
        optimum_chosen(t, s, false);
        optimum_chosen(t, s, true);
        mean_over_re(t, reply(t, s, child_of(t, s, Branch::Low)), false, c);
        mean_over_re(t, reply(t, s, child_of(t, s, Branch::High)), false, c);
        mean_over_re(t, reply(t, s, child_of(t, s, Branch::Low)), true, c);
        mean_over_re(t, reply(t, s, child_of(t, s, Branch::High)), true, c);
    }
}

/// The strategy that takes, at every choice, the branch that is better in one
/// component.
pub open spec fn greedy<N: Number>(t: &Tree<N>, up: bool, c: int) -> Policy {
    |d: Seq<u32>|
        {
            let s = trail(t, d).unwrap().state;
            let low = re::<N>(mean_over(t, reply(t, s, child_of(t, s, Branch::Low)), up), c);
            let high = re::<N>(mean_over(t, reply(t, s, child_of(t, s, Branch::High)), up), c);
            if (if up {
                low >= high
            } else {
                low <= high
            }) {
                Branch::Low
            } else {
                Branch::High
            }
        }
}

/// Taking the better branch everywhere attains the optimum.
pub proof fn greedy_attains<N: Number>(t: &Tree<N>, h: Leaf<N::Value>, up: bool, c: int)
    requires
        exact::<N>(),
        t.wf(),
        trail(t, h.decisions) == Some(h),
        0 <= c < t.k,
    ensures
        expected(t, greedy(t, up, c), h.decisions, h.state, c) == re::<N>(
            optimum_v(t, h.state, up),
            c,
        ),
    decreases t.net().work(h.state),
{
    let s = h.state;
    let policy = greedy(t, up, c);
    trail_facts(t, h.decisions);
    if rank(t.net().nodes, s) is Some {
        let b = policy(h.decisions);
        let a = child_of(t, s, b);
        let ls = reply(t, s, a);
        let g = due(t, policy, h.decisions, c);
        expected_chosen(t, policy, h.decisions, s, c);
        reply_descends(t, s, b);
        open_waits(t, h);
        assert forall|i: int| 0 <= i < ls.len() implies ideal(t, up, c)(#[trigger] ls[i]) == g(
            ls[i],
        ) by {
            let x = extended::<N>(h, ls[i]);
            trail_extended(t, h, a, i);
            greedy_attains(t, x, up, c);
        }
        weigh_same(ls, ideal(t, up, c), g);
        optimum_chosen(t, s, up);
        mean_over_re(t, reply(t, s, child_of(t, s, Branch::Low)), up, c);
        mean_over_re(t, reply(t, s, child_of(t, s, Branch::High)), up, c);
    }
}

/// What a strategy is worth, over the outcomes of the initial state.
pub proof fn worth_opened<N: Number>(t: &Tree<N>, policy: Policy, c: int)
    requires
        exact::<N>(),
        t.wf(),
        0 <= c < t.k,
    ensures
        worth(t, policy, c) == weigh(opening(t), due(t, policy, Seq::empty(), c)),
        forall|i: int|
            0 <= i < opening(t).len() ==> N::real_of((#[trigger] opening(t)[i]).prob) > 0 as real,
{
    let e = Seq::<u32>::empty();
    let z = zeros_v::<N>(t.k as nat);
    initial_valid(t.net());
    forced_due(t, policy, e, t.net().initial(), e, z, N::one_v(), c);
    forced_probability(t, t.net().initial(), e, z, N::one_v());
    assert(e + e =~= e);
    times_unit(worth(t, policy, c));
}

/// The exact optima enclose what every strategy is worth.
pub proof fn best_encloses<N: Number>(t: &Tree<N>, policy: Policy, c: int)
    requires
        exact::<N>(),
        t.wf(),
        0 <= c < t.k,
    ensures
        re::<N>(best_of(t, false), c) <= worth(t, policy, c) <= re::<N>(best_of(t, true), c),
{
    let ls = opening(t);
    let g = due(t, policy, Seq::empty(), c);
    worth_opened(t, policy, c);
    opening_facts(t);
    mean_over_re(t, ls, false, c);
    mean_over_re(t, ls, true, c);
    assert forall|i: int| 0 <= i < ls.len() implies ideal(t, false, c)(#[trigger] ls[i]) <= g(ls[i])
        && g(ls[i]) <= ideal(t, true, c)(ls[i]) by {
        let l = ls[i];
        assert(path(t, l));
        let d = Seq::<u32>::empty() + l.decisions;
        optima_enclose(t, policy, d, l.state, c);
        let (p, x) = (N::real_of(l.prob), re::<N>(l.impact, c));
        let e = expected(t, policy, d, l.state, c);
        times_grows(p, x + re::<N>(optimum_v(t, l.state, false), c), x + e);
        times_grows(p, x + e, x + re::<N>(optimum_v(t, l.state, true), c));
    }
    weigh_under(ls, ideal(t, false, c), g);
    weigh_under(ls, g, ideal(t, true, c));
}

/// Each exact optimum is what some strategy is worth.
pub proof fn best_attained<N: Number>(t: &Tree<N>, up: bool, c: int)
    requires
        exact::<N>(),
        t.wf(),
        0 <= c < t.k,
    ensures
        exists|policy: Policy| #[trigger] worth(t, policy, c) == re::<N>(best_of(t, up), c),
{
    let ls = opening(t);
    let policy = greedy(t, up, c);
    let g = due(t, policy, Seq::empty(), c);
    worth_opened(t, policy, c);
    mean_over_re(t, ls, up, c);
    assert forall|i: int| 0 <= i < ls.len() implies ideal(t, up, c)(#[trigger] ls[i]) == g(
        ls[i],
    ) by {
        let l = ls[i];
        trail_opening(t, i);
        greedy_attains(t, l, up, c);
        assert(Seq::<u32>::empty() + l.decisions =~= l.decisions);
    }
    weigh_same(ls, ideal(t, up, c), g);
    assert(worth(t, policy, c) == re::<N>(best_of(t, up), c));
}

/// The two bounds of a choice state enclose its two optima.
pub proof fn bounds_enclose_optima<N: Number>(t: &Tree<N>, h: Leaf<N::Value>, c: int)
    requires
        exact::<N>(),
        t.wf(),
        trail(t, h.decisions) == Some(h),
        0 <= c < t.k,
    ensures
        bound_re(t, h.state, false, c) <= re::<N>(optimum_v(t, h.state, false), c),
        re::<N>(optimum_v(t, h.state, true), c) <= bound_re(t, h.state, true, c),
{
    trail_facts(t, h.decisions);
    greedy_attains(t, h, false, c);
    greedy_attains(t, h, true, c);
    bounds_enclose(t, greedy(t, false, c), h.decisions, h.state, c);
    bounds_enclose(t, greedy(t, true, c), h.decisions, h.state, c);
}

/// A budget below the least optimum of some component admits no strategy, one
/// above every greatest optimum admits them all.
pub proof fn optima_scale_budgets<N: Number>(t: &Tree<N>, budget: Seq<N::Value>, policy: Policy)
    requires
        exact::<N>(),
        t.wf(),
    ensures
        (exists|c: int| 0 <= c < t.k && #[trigger] re::<N>(budget, c) < re::<N>(
            best_of(t, false),
            c,
        )) ==> !fits(t, policy, budget),
        (forall|c: int| 0 <= c < t.k ==> re::<N>(best_of(t, true), c) <= #[trigger] re::<N>(budget, c))
            ==> fits(t, policy, budget),
{
    if exists|c: int| 0 <= c < t.k && #[trigger] re::<N>(budget, c) < re::<N>(best_of(t, false), c) {
        let c = choose|c: int|
            0 <= c < t.k && #[trigger] re::<N>(budget, c) < re::<N>(best_of(t, false), c);
        best_encloses(t, policy, c);
        assert(worth(t, policy, c) > re::<N>(budget, c));
    }
    if forall|c: int| 0 <= c < t.k ==> re::<N>(best_of(t, true), c) <= #[trigger] re::<N>(budget, c) {
        assert forall|c: int| 0 <= c < t.k implies #[trigger] worth(t, policy, c) <= re::<N>(
            budget,
            c,
        ) by {
            best_encloses(t, policy, c);
            assert(re::<N>(budget, c) == re::<N>(budget, c));
        }
    }
}

} // verus!
