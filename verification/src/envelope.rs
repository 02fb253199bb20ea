//! What the two bounds of a state keep to: neither is negative, the lower one is
//! never above the upper one, and the upper one is never above the sum of the
//! impacts of all tasks. They read nothing of a state but its phases, and where
//! there is nothing to choose they are the same.

use vstd::prelude::*;
use crate::bound::{bound_v, side, side_len};
use crate::enclosure::{bound_re, entry, every_strategy_enclosed, prob_between};
use crate::num::{exact, re, Number};
use crate::exact::best_of;
use crate::optimal::{best_attained, best_encloses};
use crate::progress::{children_in, inside};
use crate::reals::{times_grows, times_positive, times_unit};
use crate::semantics::{spans, Vertex};
use crate::state::{DONE, IDLE};
use crate::strategy::{worth, Policy};
use crate::tree::{task_ids, Kind, Tree};

verus! {

/// A node is in the same phase in two states: idle, running or done.
pub open spec fn same_phase(a: i8, b: i8) -> bool {
    &&& a == DONE <==> b == DONE
    &&& a == IDLE <==> b == IDLE
    &&& a >= 0 <==> b >= 0
}

/// Two states with every node in the same phase.
pub open spec fn same_phases<N: Number>(t: &Tree<N>, s: Seq<i8>, x: Seq<i8>) -> bool {
    forall|i: int| 1 <= i <= t.n_nodes ==> #[trigger] same_phase(s[i], x[i])
}

/// The bounds of a subtree are the same in all states in which its nodes are in
/// the same phases.
pub proof fn side_phases<N: Number>(
    t: &Tree<N>,
    s: Seq<i8>,
    x: Seq<i8>,
    up: bool,
    v: int,
    lo: int,
    hi: int,
)
    requires
        spans(t.net().nodes, v, lo, hi),
        1 <= lo <= hi <= t.n_nodes,
        forall|i: int| lo <= i <= hi ==> #[trigger] same_phase(s[i], x[i]),
    ensures
        side(t, s, up, v, lo, hi) == side(t, x, up, v, lo, hi),
    decreases hi - lo,
{
    let g = t.net().nodes;
    inside(g, v, lo, hi);
    assert(same_phase(s[v], x[v]));
    if g[v].kind != Kind::Task {
        children_in(g, v, lo, hi);
        let (l, h) = (g[v].low, g[v].high);
        side_phases(t, s, x, up, l, lo, v - 1);
        side_phases(t, s, x, up, h, v + 1, hi);
        assert(same_phase(s[l], x[l]));
        assert(same_phase(s[h], x[h]));
    }
}

/// The bounds of a state are those of every state of the same phases: how far a
/// task has come makes no difference to them.
pub proof fn phases_decide_bounds<N: Number>(t: &Tree<N>, s: Seq<i8>, x: Seq<i8>, up: bool)
    requires
        t.wf(),
        same_phases(t, s, x),
    ensures
        bound_v(t, s, up) == bound_v(t, x, up),
{
    side_phases(t, s, x, up, t.root as int, 1, t.n_nodes as int);
}

proof fn sides_meet<N: Number>(t: &Tree<N>, s: Seq<i8>, v: int, lo: int, hi: int)
    requires
        spans(t.net().nodes, v, lo, hi),
        forall|i: int| lo <= i <= hi ==> (#[trigger] t.net().nodes[i]).kind != Kind::Choice,
    ensures
        side(t, s, true, v, lo, hi) == side(t, s, false, v, lo, hi),
    decreases hi - lo,
{
    let g = t.net().nodes;
    inside(g, v, lo, hi);
    if g[v].kind != Kind::Task {
        sides_meet(t, s, g[v].low, lo, v - 1);
        sides_meet(t, s, g[v].high, v + 1, hi);
    }
}

/// A process without a choice has one bound: the two are the same.
pub proof fn bounds_meet<N: Number>(t: &Tree<N>, s: Seq<i8>)
    requires
        t.wf(),
        forall|i: int| 1 <= i <= t.n_nodes ==> (#[trigger] t.net().nodes[i]).kind != Kind::Choice,
    ensures
        bound_v(t, s, true) == bound_v(t, s, false),
{
    sides_meet(t, s, t.root as int, 1, t.n_nodes as int);
}

/// The impacts of the tasks from `lo` to `hi` in one component, added up.
pub open spec fn owed<N: Number>(t: &Tree<N>, lo: int, hi: int, c: int) -> real
    decreases hi - lo + 1,
{
    if lo > hi {
        0 as real
    } else {
        owed(t, lo, hi - 1, c) + (if t.net().nodes[hi].kind == Kind::Task {
            re::<N>(t.impact_v(hi), c)
        } else {
            0 as real
        })
    }
}

proof fn owed_split<N: Number>(t: &Tree<N>, lo: int, m: int, hi: int, c: int)
    requires
        lo - 1 <= m <= hi,
    ensures
        owed(t, lo, hi, c) == owed(t, lo, m, c) + owed(t, m + 1, hi, c),
    decreases hi - m,
{
    if m < hi {
        owed_split(t, lo, m, hi - 1, c);
    }
}

proof fn mean_within(p: real, a: real, b: real, x: real, y: real)
    requires
        0 as real <= p <= 1 as real,
        0 as real <= a <= x,
        0 as real <= b <= y,
    ensures
        0 as real <= p * a + (1 as real - p) * b <= p * x + (1 as real - p) * y <= x + y,
{
    let q = 1 as real - p;
    times_positive(p, a);
    times_positive(q, b);
    times_grows(p, a, x);
    times_grows(q, b, y);
    times_grows(x, p, 1 as real);
    times_grows(y, q, 1 as real);
    times_unit(x);
    times_unit(y);
    assert(p * x == x * p) by (nonlinear_arith);
    assert(q * y == y * q) by (nonlinear_arith);
}

/// The bounds of a subtree keep their order: nothing is below zero, the lower
/// one is at most the upper one, and that at most the impacts of its tasks.
pub proof fn side_within<N: Number>(t: &Tree<N>, s: Seq<i8>, v: int, lo: int, hi: int, c: int)
    requires
        exact::<N>(),
        t.wf(),
        spans(t.net().nodes, v, lo, hi),
        1 <= lo <= hi <= t.n_nodes,
        0 <= c < t.k,
    ensures
        0 as real <= entry(t, s, false, v, lo, hi, c) <= entry(t, s, true, v, lo, hi, c) <= owed(
            t,
            lo,
            hi,
            c,
        ),
    decreases hi - lo,
{
    let g = t.net().nodes;
    inside(g, v, lo, hi);
    side_len(t, s, true, v, lo, hi);
    side_len(t, s, false, v, lo, hi);
    if g[v].kind == Kind::Task {
        assert(owed(t, lo, hi - 1, c) == 0 as real);
        assert(N::le_v(N::zero_v(), t.impact_v(v)[c]));
    } else {
        children_in(g, v, lo, hi);
        let (l, h) = (g[v].low, g[v].high);
        side_len(t, s, true, l, lo, v - 1);
        side_len(t, s, false, l, lo, v - 1);
        side_len(t, s, true, h, v + 1, hi);
        side_len(t, s, false, h, v + 1, hi);
        side_within(t, s, l, lo, v - 1, c);
        side_within(t, s, h, v + 1, hi, c);
        owed_split(t, lo, v, hi, c);
        assert(owed(t, lo, v, c) == owed(t, lo, v - 1, c));
        if g[v].kind == Kind::Nature {
            prob_between(t, v);
            mean_within(
                N::real_of(t.prob_v(v)),
                entry(t, s, false, l, lo, v - 1, c),
                entry(t, s, false, h, v + 1, hi, c),
                entry(t, s, true, l, lo, v - 1, c),
                entry(t, s, true, h, v + 1, hi, c),
            );
        }
    }
}

/// The tasks up to an identifier come first among the tasks up to a later one.
pub proof fn tasks_first(g: Seq<Vertex>, m: int, n: int)
    requires
        0 <= m <= n,
    ensures
        task_ids(g, m).len() <= task_ids(g, n).len(),
        forall|i: int| 0 <= i < task_ids(g, m).len() ==> #[trigger] task_ids(g, m)[i] == task_ids(g, n)[i],
    decreases n,
{
    if m < n {
        tasks_first(g, m, n - 1);
        assert(forall|i: int|
            0 <= i < task_ids(g, m).len() ==> #[trigger] task_ids(g, m)[i] == task_ids(g, n - 1)[i]);
    }
}

/// The sum of the impacts of the tasks, as a real number.
proof fn total_owed<N: Number>(t: &Tree<N>, m: int, c: int)
    requires
        exact::<N>(),
        t.wf(),
        0 <= m <= t.n_nodes,
        0 <= c < t.k,
    ensures
        t.total_v(task_ids(t.net().nodes, m).len() as int).len() == t.k,
        re::<N>(t.total_v(task_ids(t.net().nodes, m).len() as int), c) == owed(t, 1, m, c),
    decreases m,
{
    let g = t.net().nodes;
    if m > 0 {
        total_owed(t, m - 1, c);
        if g[m].kind == Kind::Task {
            tasks_first(g, m, t.n_nodes as int);
            let n = task_ids(g, m).len();
            assert(task_ids(g, m)[n - 1] == m as u32);
            assert(t.tasks@[n - 1] == m);
        }
    }
}

/// The bounds of a state keep their order: nothing is below zero, the lower
/// bound is at most the upper one, and the upper one at most the sum of the
/// impacts of all tasks.
pub proof fn bounds_ordered<N: Number>(t: &Tree<N>, s: Seq<i8>, c: int)
    requires
        exact::<N>(),
        t.wf(),
        0 <= c < t.k,
    ensures
        0 as real <= bound_re(t, s, false, c) <= bound_re(t, s, true, c) <= re::<N>(
            t.total_v(t.tasks@.len() as int),
            c,
        ),
{
    side_within(t, s, t.root as int, 1, t.n_nodes as int, c);
    total_owed(t, t.n_nodes as int, c);
}

/// The sum of the impacts of all tasks bounds the value of every strategy.
pub proof fn total_bounds_strategies<N: Number>(t: &Tree<N>, policy: Policy, c: int)
    requires
        exact::<N>(),
        t.wf(),
        0 <= c < t.k,
    ensures
        0 as real <= worth(t, policy, c) <= re::<N>(t.total_v(t.tasks@.len() as int), c),
{
    every_strategy_enclosed(t, policy, c);
    bounds_ordered(t, t.net().initial(), c);
}

/// The optima lie between the bounds at the start: in every component nothing is
/// below zero, the lower bound is at most the least value a strategy has, that
/// at most the largest one, that at most the upper bound, and that at most the
/// sum of the impacts of all tasks.
pub proof fn optima_ordered<N: Number>(t: &Tree<N>, c: int)
    requires
        exact::<N>(),
        t.wf(),
        0 <= c < t.k,
    ensures
        0 as real <= bound_re(t, t.net().initial(), false, c) <= re::<N>(best_of(t, false), c) <= re::<
            N,
        >(best_of(t, true), c) <= bound_re(t, t.net().initial(), true, c) <= re::<N>(
            t.total_v(t.tasks@.len() as int),
            c,
        ),
{
    best_attained(t, false, c);
    best_attained(t, true, c);
    let low = choose|policy: Policy| #[trigger] worth(t, policy, c) == re::<N>(best_of(t, false), c);
    let high = choose|policy: Policy| #[trigger] worth(t, policy, c) == re::<N>(best_of(t, true), c);
    best_encloses(t, low, c);
    every_strategy_enclosed(t, low, c);
    every_strategy_enclosed(t, high, c);
    bounds_ordered(t, t.net().initial(), c);
}

} // verus!
