//! The bounds are attained: one component at a time, a bound is the exact
//! optimum.
//!
//! Everything here is stated for arithmetic that does not round.

use vstd::prelude::*;
use crate::enclosure::{bound_chosen, bound_final, bound_re};
use crate::exact::{best_of, opening_descends, optimum_chosen, optimum_v, reply_descends};
use crate::num::{exact, re, zeros_v, Number};
use crate::optimal::{best_attained, ideal, mean_over_re, weigh_same};
use crate::progress::{branch_works, initial_valid};
use crate::reals::times_unit;
use crate::semantics::{best_is_least, rank, started, valid};
use crate::state::{opening, reply, stops};
use crate::strategy::{branch_coherent, initial_coherent, worth, Policy};
use crate::tables::{child_of, Branch};
use crate::tighten::forced_bound;
use crate::tree::Tree;
use crate::unfolding::{forced_coherent, weigh};
use crate::verdict::hat_re;

verus! {

/// What a branch of a choice bounds is what the outcomes behind it are worth,
/// each going on with its optimum.
proof fn branch_attained<N: Number>(t: &Tree<N>, s: Seq<i8>, b: Branch, up: bool, c: int)
    requires
        exact::<N>(),
        t.wf(),
        valid(t.net().nodes, s),
        t.net().coherent(s),
        rank(t.net().nodes, s) is Some,
        rank(t.net().nodes, s).unwrap().0 == 1,
        0 <= c < t.k,
    ensures
        bound_re(t, started(s, child_of(t, s, b) as int), up, c) == weigh(
            reply(t, s, child_of(t, s, b)),
            ideal(t, up, c),
        ),
    decreases t.net().work(s), 0nat,
{
    let n = t.net();
    best_is_least(n.nodes, s, n.size());
    branch_works(n, s);
    branch_coherent(n, s);
    reply_descends(t, s, b);
    let a = child_of(t, s, b);
    let x = started(s, a as int);
    let z = zeros_v::<N>(t.k as nat);
    let ls = reply(t, s, a);
    forced_bound(t, x, seq![a], z, N::one_v(), up, c);
    forced_coherent(t, x, seq![a], z, N::one_v());
    times_unit(bound_re(t, x, up, c));
    assert(re::<N>(z, c) == 0 as real);
    assert forall|i: int| 0 <= i < ls.len() implies hat_re(t, up, c)(#[trigger] ls[i]) == ideal(
        t,
        up,
        c,
    )(ls[i]) by {
        bounds_are_optima(t, ls[i].state, up, c);
    }
    weigh_same(ls, hat_re(t, up, c), ideal(t, up, c));
}

/// Where a decision is due, or the process is over, each bound of a component is
/// the exact optimum of that component.
pub proof fn bounds_are_optima<N: Number>(t: &Tree<N>, s: Seq<i8>, up: bool, c: int)
    requires
        exact::<N>(),
        t.wf(),
        valid(t.net().nodes, s),
        t.net().coherent(s),
        stops(t, s),
        0 <= c < t.k,
    ensures
        bound_re(t, s, up, c) == re::<N>(optimum_v(t, s, up), c),
    decreases t.net().work(s), 1nat,
{
    if rank(t.net().nodes, s) is None {
        bound_final(t, s, up, c);
    } else {
        best_is_least(t.net().nodes, s, t.net().size());
        branch_works(t.net(), s);
        bound_chosen(t, s, up, c);
        optimum_chosen(t, s, up);
        branch_attained(t, s, Branch::Low, up, c);
        branch_attained(t, s, Branch::High, up, c);
        mean_over_re(t, reply(t, s, child_of(t, s, Branch::Low)), up, c);
        mean_over_re(t, reply(t, s, child_of(t, s, Branch::High)), up, c);
    }
}

/// The bounds at the start are the exact optima, one component at a time.
pub proof fn first_bounds_are_optima<N: Number>(t: &Tree<N>, up: bool, c: int)
    requires
        exact::<N>(),
        t.wf(),
        0 <= c < t.k,
    ensures
        bound_re(t, t.net().initial(), up, c) == re::<N>(best_of(t, up), c),
{
    let s = t.net().initial();
    let z = zeros_v::<N>(t.k as nat);
    let ls = opening(t);
    initial_valid(t.net());
    initial_coherent(t.net());
    opening_descends(t);
    forced_bound(t, s, Seq::empty(), z, N::one_v(), up, c);
    forced_coherent(t, s, Seq::empty(), z, N::one_v());
    times_unit(bound_re(t, s, up, c));
    assert(re::<N>(z, c) == 0 as real);
    assert forall|i: int| 0 <= i < ls.len() implies hat_re(t, up, c)(#[trigger] ls[i]) == ideal(
        t,
        up,
        c,
    )(ls[i]) by {
        bounds_are_optima(t, ls[i].state, up, c);
    }
    weigh_same(ls, hat_re(t, up, c), ideal(t, up, c));
    mean_over_re(t, ls, up, c);
}

/// Each bound of a component at the start is what some strategy is worth: none
/// is wider than it has to be.
pub proof fn bounds_are_attained<N: Number>(t: &Tree<N>, up: bool, c: int)
    requires
        exact::<N>(),
        t.wf(),
        0 <= c < t.k,
    ensures
        exists|policy: Policy| #[trigger]
            worth(t, policy, c) == bound_re(t, t.net().initial(), up, c),
{
    best_attained(t, up, c);
    first_bounds_are_optima(t, up, c);
}

} // verus!
