//! What the achievable set is: vectors that strategies are worth, among which
//! there is one at most as large as what any strategy is worth.
//!
//! Everything here is stated for arithmetic that does not round.

use vstd::prelude::*;
use crate::achievable::{
    at_most, dominated, pareto_from, pareto_v, product_from, product_v, set_chosen, set_v, set_wide,
    sieved, sorted, sorted_from, spread_v, spread_wide, undominated, undominated_from, wide, Points,
};
use crate::exact::{reply_descends, share_v};
use crate::frontier::{open_waits, Tests};
use crate::history::{
    opening_facts, path, reply_facts, trail, trail_extended, trail_facts, trail_opening,
};
use crate::num::{exact, re, sum_v, zeros_v, Number};
use crate::optimal::{expected_chosen, weigh_same, worth_opened};
use crate::progress::{branch_works, initial_valid, moved_works};
use crate::reals::times_grows;
use crate::search::{answer_decides_budget, backed, Answer};
use crate::semantics::{best_is_least, moved, rank, started, valid};
use crate::state::{opening, reply, stops, Leaf};
use crate::strategy::{expected, fits, picked, worth, Policy};
use crate::tables::{child_of, Branch};
use crate::tree::Tree;
use crate::unfolding::{begins, due, forced_outcomes, outcome_of, prefix_free, weigh};

verus! {

// ---------------------------------------------------------------------------
// minimal vectors
// ---------------------------------------------------------------------------

/// No vector of the list is at most another.
pub open spec fn antichain<N: Number>(s: Points<N::Value>) -> bool {
    forall|i: int, j: int|
        0 <= i < s.len() && 0 <= j < s.len() && i != j ==> !at_most::<N>(
            #[trigger] s[i],
            #[trigger] s[j],
        )
}

proof fn at_most_trans<N: Number>(a: Seq<N::Value>, b: Seq<N::Value>, c: Seq<N::Value>)
    requires
        exact::<N>(),
        a.len() == b.len(),
        b.len() == c.len(),
        at_most::<N>(a, b),
        at_most::<N>(b, c),
    ensures
        at_most::<N>(a, c),
{
    assert forall|i: int| 0 <= i < a.len() && i < c.len() implies N::le_v(
        #[trigger] a[i],
        c[i],
    ) by {
        assert(N::le_v(a[i], b[i]));
        assert(N::le_v(b[i], c[i]));
    }
}

proof fn at_most_self<N: Number>(a: Seq<N::Value>)
    requires
        exact::<N>(),
    ensures
        at_most::<N>(a, a),
{
}

proof fn undominated_antichain<N: Number>(s: Points<N::Value>, p: Seq<N::Value>)
    requires
        antichain::<N>(s),
    ensures
        antichain::<N>(undominated::<N>(s, p)),
    decreases s.len(),
{
    if s.len() > 0 {
        let a = s.drop_last();
        assert(antichain::<N>(a)) by {
            assert forall|i: int, j: int|
                0 <= i < a.len() && 0 <= j < a.len() && i != j implies !at_most::<N>(
                #[trigger] a[i],
                #[trigger] a[j],
            ) by {
                assert(a[i] == s[i] && a[j] == s[j]);
            }
        }
        undominated_antichain::<N>(a, p);
        undominated_from::<N>(a, p);
        let q = undominated::<N>(a, p);
        let r = undominated::<N>(s, p);
        assert forall|i: int, j: int|
            0 <= i < r.len() && 0 <= j < r.len() && i != j implies !at_most::<N>(
            #[trigger] r[i],
            #[trigger] r[j],
        ) by {
            let n = s.len() - 1;
            if i < q.len() {
                assert(q.contains(q[i]));
                let x = a.index_of(q[i]);
                assert(s[x] == q[i]);
            }
            if j < q.len() {
                assert(q.contains(q[j]));
                let y = a.index_of(q[j]);
                assert(s[y] == q[j]);
            }
            assert(s[n] == s.last());
        }
    }
}

proof fn sieved_minimal<N: Number>(s: Points<N::Value>, k: nat)
    requires
        exact::<N>(),
        wide(s, k),
    ensures
        antichain::<N>(sieved::<N>(s)),
        wide(sieved::<N>(s), k),
        forall|i: int| 0 <= i < s.len() ==> dominated::<N>(sieved::<N>(s), #[trigger] s[i]),
    decreases s.len(),
{
    if s.len() > 0 {
        let a = s.drop_last();
        assert(wide(a, k)) by {
            assert forall|i: int| 0 <= i < a.len() implies (#[trigger] a[i]).len() == k by {
                assert(a[i] == s[i]);
            }
        }
        sieved_minimal::<N>(a, k);
        let kept = sieved::<N>(a);
        let r = sieved::<N>(s);
        let p = s.last();
        assert(s[s.len() - 1] == p);
        if dominated::<N>(kept, p) {
            assert forall|i: int| 0 <= i < s.len() implies dominated::<N>(r, #[trigger] s[i]) by {
                if i < a.len() {
                    assert(a[i] == s[i]);
                }
            }
        } else {
            let u = undominated::<N>(kept, p);
            undominated_antichain::<N>(kept, p);
            undominated_from::<N>(kept, p);
            assert(wide(r, k)) by {
                assert forall|i: int| 0 <= i < r.len() implies (#[trigger] r[i]).len() == k by {
                    if i < u.len() {
                        assert(u.contains(u[i]));
                        let x = kept.index_of(u[i]);
                        assert(kept[x] == r[i]);
                    }
                }
            }
            assert forall|i: int, j: int|
                0 <= i < r.len() && 0 <= j < r.len() && i != j implies !at_most::<N>(
                #[trigger] r[i],
                #[trigger] r[j],
            ) by {
                if i < u.len() {
                    assert(u.contains(u[i]));
                    let x = kept.index_of(u[i]);
                    assert(kept[x] == u[i]);
                    if j == u.len() {
                        assert(!at_most::<N>(kept[x], p));
                    }
                } else {
                    assert(u.contains(u[j]));
                }
            }
            assert(r[u.len() as int] == p);
            at_most_self::<N>(p);
            assert forall|i: int| 0 <= i < s.len() implies dominated::<N>(r, #[trigger] s[i]) by {
                if i < a.len() {
                    assert(a[i] == s[i]);
                    let x = choose|x: int| 0 <= x < kept.len() && at_most::<N>(#[trigger] kept[x], s[i]);
                    if at_most::<N>(p, kept[x]) {
                        at_most_trans::<N>(p, kept[x], s[i]);
                        assert(at_most::<N>(r[u.len() as int], s[i]));
                    } else {
                        assert(kept.contains(kept[x]));
                        assert(u.contains(kept[x]));
                        let y = u.index_of(kept[x]);
                        assert(r[y] == kept[x]);
                    }
                } else {
                    assert(at_most::<N>(r[u.len() as int], s[i]));
                }
            }
        }
    }
}

/// The vectors kept are among the vectors, none of them is at most another, and
/// every vector has one that is at most it.
pub proof fn pareto_minimal<N: Number>(s: Points<N::Value>, k: nat)
    requires
        exact::<N>(),
        wide(s, k),
    ensures
        antichain::<N>(pareto_v::<N>(s)),
        wide(pareto_v::<N>(s), k),
        forall|y: Seq<N::Value>| #[trigger] pareto_v::<N>(s).contains(y) ==> s.contains(y),
        forall|i: int| 0 <= i < s.len() ==> dominated::<N>(pareto_v::<N>(s), #[trigger] s[i]),
{
    let q = sorted::<N>(s);
    pareto_from::<N>(s);
    sorted_from::<N>(s);
    assert(wide(q, k)) by {
        assert forall|i: int| 0 <= i < q.len() implies (#[trigger] q[i]).len() == k by {
            assert(q.contains(q[i]));
            let j = s.index_of(q[i]);
            assert(s[j].len() == k);
        }
    }
    sieved_minimal::<N>(q, k);
    assert forall|i: int| 0 <= i < s.len() implies dominated::<N>(
        pareto_v::<N>(s),
        #[trigger] s[i],
    ) by {
        assert(s.contains(s[i]));
        assert(q.contains(s[i]));
        let j = q.index_of(s[i]);
        assert(q[j] == s[i]);
    }
}

// ---------------------------------------------------------------------------
// no strategy is worth less than every vector
// ---------------------------------------------------------------------------

/// A vector that is nowhere more than these.
pub open spec fn below<N: Number>(v: Seq<N::Value>, k: nat, f: spec_fn(int) -> real) -> bool {
    forall|c: int| 0 <= c < k ==> #[trigger] re::<N>(v, c) <= f(c)
}

pub open spec fn some_below<N: Number>(s: Points<N::Value>, k: nat, f: spec_fn(int) -> real) -> bool {
    exists|i: int| 0 <= i < s.len() && below::<N>(#[trigger] s[i], k, f)
}

/// Filtering keeps a witness.
proof fn pareto_below<N: Number>(s: Points<N::Value>, k: nat, f: spec_fn(int) -> real)
    requires
        exact::<N>(),
        wide(s, k),
        some_below::<N>(s, k, f),
    ensures
        some_below::<N>(pareto_v::<N>(s), k, f),
{
    pareto_minimal::<N>(s, k);
    let i = choose|i: int| 0 <= i < s.len() && below::<N>(#[trigger] s[i], k, f);
    let r = pareto_v::<N>(s);
    assert(dominated::<N>(r, s[i]));
    let j = choose|j: int| 0 <= j < r.len() && at_most::<N>(#[trigger] r[j], s[i]);
    assert(below::<N>(r[j], k, f)) by {
        assert(r[j].len() == k);
        assert(s[i].len() == k);
        assert forall|c: int| 0 <= c < k implies #[trigger] re::<N>(r[j], c) <= f(c) by {
            assert(N::le_v(r[j][c], s[i][c]));
            assert(re::<N>(s[i], c) <= f(c));
        }
    }
}

/// What a strategy expects from the end of an outcome, in each component.
pub open spec fn onward<N: Number>(t: &Tree<N>, policy: Policy, h: Seq<u32>, l: Leaf<N::Value>) -> spec_fn(
    int,
) -> real {
    |c: int| expected(t, policy, h + l.decisions, l.state, c)
}

/// What outcomes contribute, in each component.
pub open spec fn together<N: Number>(
    t: &Tree<N>,
    policy: Policy,
    h: Seq<u32>,
    ls: Seq<Leaf<N::Value>>,
) -> spec_fn(int) -> real {
    |c: int| weigh(ls, due(t, policy, h, c))
}

proof fn spread_below<N: Number>(
    t: &Tree<N>,
    policy: Policy,
    h: Seq<u32>,
    ls: Seq<Leaf<N::Value>>,
    cap: usize,
)
    requires
        exact::<N>(),
        spread_v(t, ls, cap) is Some,
        forall|i: int|
            0 <= i < ls.len() ==> {
                let l = #[trigger] ls[i];
                &&& N::real_of(l.prob) > 0 as real
                &&& l.impact.len() == t.k
                &&& stops(t, l.state)
                &&& set_v(t, l.state, cap) matches Some(p) ==> some_below::<N>(
                    p,
                    t.k as nat,
                    onward(t, policy, h, l),
                )
            },
    ensures
        some_below::<N>(
            spread_v(t, ls, cap).unwrap(),
            t.k as nat,
            together(t, policy, h, ls),
        ),
    decreases ls.len(),
{
    let k = t.k as nat;
    let r = spread_v(t, ls, cap).unwrap();
    if ls.len() == 0 {
        let z = zeros_v::<N>(k);
        assert(r[0] == z);
        assert(below::<N>(z, k, together(t, policy, h, ls)));
    } else {
        let a = ls.drop_last();
        let l = ls.last();
        assert(ls[ls.len() - 1] == l);
        assert forall|i: int| 0 <= i < a.len() implies {
            let l = #[trigger] a[i];
            &&& N::real_of(l.prob) > 0 as real
            &&& l.impact.len() == t.k
            &&& stops(t, l.state)
            &&& set_v(t, l.state, cap) matches Some(p) ==> some_below::<N>(
                p,
                t.k as nat,
                onward(t, policy, h, l),
            )
        } by {
            assert(a[i] == ls[i]);
        }
        spread_below(t, policy, h, a, cap);
        spread_wide(t, a, cap);
        set_wide(t, l.state, cap);
        let acc = spread_v(t, a, cap).unwrap();
        let tail = set_v(t, l.state, cap).unwrap();
        let (fa, fl, fr) = (
            together(t, policy, h, a),
            onward(t, policy, h, l),
            together(t, policy, h, ls),
        );
        let i = choose|i: int| 0 <= i < acc.len() && below::<N>(#[trigger] acc[i], k, fa);
        let j = choose|j: int| 0 <= j < tail.len() && below::<N>(#[trigger] tail[j], k, fl);
        product_from::<N>(acc, tail, l);
        let prod = product_v::<N>(acc, tail, l);
        let v = sum_v::<N>(acc[i], share_v::<N>(l, tail[j]));
        assert(prod.contains(v));
        let m = prod.index_of(v);
        assert(acc[i].len() == k && tail[j].len() == k);
        assert(below::<N>(v, k, fr)) by {
            assert forall|c: int| 0 <= c < k implies #[trigger] re::<N>(v, c) <= fr(c) by {
                assert(re::<N>(acc[i], c) <= fa(c));
                assert(re::<N>(tail[j], c) <= fl(c));
                let (p, x) = (N::real_of(l.prob), re::<N>(l.impact, c));
                times_grows(p, x + re::<N>(tail[j], c), x + fl(c));
            }
        }
        assert(prod[m] == v);
        assert(wide(prod, k)) by {
            assert forall|q: int| 0 <= q < prod.len() implies (#[trigger] prod[q]).len() == k by {
                assert(prod.contains(prod[q]));
                let (x, y) = choose|x: int, y: int|
                    0 <= x < acc.len() && 0 <= y < tail.len() && prod[q] == #[trigger] sum_v::<N>(
                        acc[x],
                        share_v::<N>(l, tail[y]),
                    );
                assert(acc[x].len() == k);
            }
        }
        pareto_below::<N>(prod, k, fr);
    }
}

/// From any choice state, no strategy expects less than every vector of the
/// achievable set.
pub proof fn set_below<N: Number>(t: &Tree<N>, policy: Policy, h: Seq<u32>, s: Seq<i8>, cap: usize)
    requires
        exact::<N>(),
        t.wf(),
        valid(t.net().nodes, s),
        stops(t, s),
        set_v(t, s, cap) is Some,
    ensures
        some_below::<N>(
            set_v(t, s, cap).unwrap(),
            t.k as nat,
            |c: int| expected(t, policy, h, s, c),
        ),
    decreases t.net().work(s),
{
    let k = t.k as nat;
    let r = set_v(t, s, cap).unwrap();
    let f = |c: int| expected(t, policy, h, s, c);
    if rank(t.net().nodes, s) is None {
        let z = zeros_v::<N>(k);
        assert(r[0] == z);
        assert(below::<N>(z, k, f));
    } else {
        set_chosen(t, s, cap);
        let b = policy(h);
        let ls = reply(t, s, child_of(t, s, b));
        reply_descends(t, s, b);
        expected_chosen(t, policy, h, s, 0);
        assert forall|i: int| 0 <= i < ls.len() implies {
            let l = #[trigger] ls[i];
            &&& N::real_of(l.prob) > 0 as real
            &&& l.impact.len() == t.k
            &&& stops(t, l.state)
            &&& set_v(t, l.state, cap) matches Some(p) ==> some_below::<N>(
                p,
                t.k as nat,
                onward(t, policy, h, l),
            )
        } by {
            let l = ls[i];
            assert(outcome_of(t, seq![child_of(t, s, b)], l));
            if set_v(t, l.state, cap) is Some {
                set_below(t, policy, h + l.decisions, l.state, cap);
                let p = set_v(t, l.state, cap).unwrap();
                let g = |c: int| expected(t, policy, h + l.decisions, l.state, c);
                let j = choose|j: int| 0 <= j < p.len() && below::<N>(#[trigger] p[j], k, g);
                assert(below::<N>(p[j], k, onward(t, policy, h, l)));
            }
        }
        spread_below(t, policy, h, ls, cap);
        let q = spread_v(t, ls, cap).unwrap();
        let lo = spread_v(t, reply(t, s, child_of(t, s, Branch::Low)), cap).unwrap();
        let hi = spread_v(t, reply(t, s, child_of(t, s, Branch::High)), cap).unwrap();
        let u = lo + hi;
        let i = choose|i: int|
            0 <= i < q.len() && below::<N>(#[trigger] q[i], k, together(t, policy, h, ls));
        let j = if b == Branch::Low { i } else { lo.len() + i };
        assert(u[j] == q[i]);
        assert(below::<N>(u[j], k, f)) by {
            assert forall|c: int| 0 <= c < k implies #[trigger] re::<N>(u[j], c) <= f(c) by {
                expected_chosen(t, policy, h, s, c);
                assert(re::<N>(q[i], c) <= together(t, policy, h, ls)(c));
            }
        }
        spread_wide(t, reply(t, s, child_of(t, s, Branch::Low)), cap);
        spread_wide(t, reply(t, s, child_of(t, s, Branch::High)), cap);
        assert(wide(u, k)) by {
            assert forall|m: int| 0 <= m < u.len() implies (#[trigger] u[m]).len() == k by {
                if m < lo.len() {
                    assert(u[m] == lo[m]);
                } else {
                    assert(u[m] == hi[m - lo.len()]);
                }
            }
        }
        pareto_below::<N>(u, k, f);
    }
}

// ---------------------------------------------------------------------------
// every vector is what some strategy is worth
// ---------------------------------------------------------------------------

/// What a strategy expects after a history depends on what it does from there
/// on alone.
pub proof fn expected_local<N: Number>(
    t: &Tree<N>,
    p: Policy,
    q: Policy,
    h: Seq<u32>,
    s: Seq<i8>,
    c: int,
)
    requires
        forall|d: Seq<u32>| #[trigger] begins(h, d) ==> p(d) == q(d),
    ensures
        expected(t, p, h, s, c) == expected(t, q, h, s, c),
    decreases t.net().work(s),
{
    let g = t.net().nodes;
    if t.net().wf() && valid(g, s) && rank(g, s) is Some {
        let (r, w) = rank(g, s).unwrap();
        best_is_least(g, s, t.net().size());
        if r == 1 || r == 4 {
            branch_works(t.net(), s);
        } else {
            moved_works(t.net(), s);
        }
        assert(h.take(h.len() as int) =~= h);
        assert(begins(h, h));
        if r == 1 {
            let a = picked(g[w], p(h));
            longer(p, q, h, a as u32);
            expected_local(t, p, q, h.push(a as u32), started(s, a), c);
        } else if r == 4 {
            let (l, u) = (g[w].low, g[w].high);
            longer(p, q, h, l as u32);
            longer(p, q, h, u as u32);
            expected_local(t, p, q, h.push(l as u32), started(s, l), c);
            expected_local(t, p, q, h.push(u as u32), started(s, u), c);
        } else {
            expected_local(t, p, q, h, moved(g, s, r, w), c);
        }
    }
}

proof fn longer(p: Policy, q: Policy, h: Seq<u32>, a: u32)
    requires
        forall|d: Seq<u32>| #[trigger] begins(h, d) ==> p(d) == q(d),
    ensures
        forall|d: Seq<u32>| #[trigger] begins(h.push(a), d) ==> p(d) == q(d),
{
    assert forall|d: Seq<u32>| #[trigger] begins(h.push(a), d) implies p(d) == q(d) by {
        assert(d.take(h.len() as int) =~= h.push(a).take(h.len() as int));
        assert(h.push(a).take(h.len() as int) =~= h);
        assert(begins(h, d));
    }
}

/// The strategy contributes exactly the vector over these outcomes.
pub open spec fn attains<N: Number>(
    t: &Tree<N>,
    policy: Policy,
    h: Seq<u32>,
    ls: Seq<Leaf<N::Value>>,
    v: Seq<N::Value>,
) -> bool {
    forall|c: int|
        0 <= c < t.k ==> #[trigger] weigh(ls, due(t, policy, h, c)) == re::<N>(v, c)
}

/// The strategy expects exactly the vector after a history.
pub open spec fn reaches_v<N: Number>(
    t: &Tree<N>,
    policy: Policy,
    h: Seq<u32>,
    s: Seq<i8>,
    v: Seq<N::Value>,
) -> bool {
    forall|c: int| 0 <= c < t.k ==> #[trigger] expected(t, policy, h, s, c) == re::<N>(v, c)
}

/// One strategy after some names, another after the others.
pub open spec fn spliced(h: Seq<u32>, p: Policy, q: Policy) -> Policy {
    |d: Seq<u32>| if begins(h, d) { p(d) } else { q(d) }
}

/// Strategies that agree after the outcomes contribute the same over them.
proof fn due_local<N: Number>(
    t: &Tree<N>,
    p: Policy,
    q: Policy,
    h: Seq<u32>,
    ls: Seq<Leaf<N::Value>>,
    c: int,
)
    requires
        forall|i: int, d: Seq<u32>|
            0 <= i < ls.len() && #[trigger] begins(h + ls[i].decisions, d) ==> p(d) == q(d),
    ensures
        weigh(ls, due(t, p, h, c)) == weigh(ls, due(t, q, h, c)),
{
    assert forall|i: int| 0 <= i < ls.len() implies due(t, p, h, c)(#[trigger] ls[i]) == due(
        t,
        q,
        h,
        c,
    )(ls[i]) by {
        expected_local(t, p, q, h + ls[i].decisions, ls[i].state, c);
    }
    weigh_same(ls, due(t, p, h, c), due(t, q, h, c));
}

/// The outcomes go on along paths of the process, each named once.
pub open spec fn forked<N: Number>(t: &Tree<N>, h: Seq<u32>, ls: Seq<Leaf<N::Value>>, work: nat) -> bool {
    &&& prefix_free(ls)
    &&& forall|i: int|
        0 <= i < ls.len() ==> {
            let l = #[trigger] ls[i];
            &&& trail(t, h + l.decisions) is Some
            &&& trail(t, h + l.decisions).unwrap().state == l.state
            &&& l.impact.len() == t.k
            &&& t.net().work(l.state) < work
        }
}

proof fn spread_attained<N: Number>(
    t: &Tree<N>,
    h: Seq<u32>,
    ls: Seq<Leaf<N::Value>>,
    cap: usize,
    work: nat,
    m: int,
) -> (policy: Policy)
    requires
        exact::<N>(),
        t.wf(),
        forked(t, h, ls, work),
        spread_v(t, ls, cap) is Some,
        0 <= m < spread_v(t, ls, cap).unwrap().len(),
    ensures
        attains(t, policy, h, ls, spread_v(t, ls, cap).unwrap()[m]),
    decreases work, 0nat, ls.len(),
{
    let r = spread_v(t, ls, cap).unwrap();
    if ls.len() == 0 {
        let p: Policy = |d: Seq<u32>| Branch::Low;
        p
    } else {
        let a = ls.drop_last();
        let l = ls.last();
        let n = ls.len() - 1;
        assert(ls[n] == l);
        assert(forked(t, h, a, work)) by {
            assert forall|i: int, j: int|
                0 <= i < a.len() && 0 <= j < a.len() && i != j implies !begins(
                (#[trigger] a[i]).decisions,
                (#[trigger] a[j]).decisions,
            ) by {
                assert(a[i] == ls[i] && a[j] == ls[j]);
            }
            assert forall|i: int| 0 <= i < a.len() implies {
                let l = #[trigger] a[i];
                &&& trail(t, h + l.decisions) is Some
                &&& trail(t, h + l.decisions).unwrap().state == l.state
                &&& l.impact.len() == t.k
                &&& t.net().work(l.state) < work
            } by {
                assert(a[i] == ls[i]);
            }
        }
        let acc = spread_v(t, a, cap).unwrap();
        let tail = set_v(t, l.state, cap).unwrap();
        let prod = product_v::<N>(acc, tail, l);
        pareto_from::<N>(prod);
        product_from::<N>(acc, tail, l);
        assert(r.contains(r[m]));
        assert(prod.contains(r[m]));
        let (i, j) = choose|i: int, j: int|
            0 <= i < acc.len() && 0 <= j < tail.len() && r[m] == #[trigger] sum_v::<N>(
                acc[i],
                share_v::<N>(l, tail[j]),
            );
        let q = spread_attained(t, h, a, cap, work, i);
        let x = trail(t, h + l.decisions).unwrap();
        trail_facts(t, h + l.decisions);
        let p = set_attained(t, x, cap, j);
        let name = h + l.decisions;
        let s = spliced(name, p, q);
        spread_wide(t, a, cap);
        set_wide(t, l.state, cap);
        assert(acc[i].len() == t.k && tail[j].len() == t.k);
        assert forall|c: int| 0 <= c < t.k implies #[trigger] weigh(ls, due(t, s, h, c)) == re::<N>(
            r[m],
            c,
        ) by {
            assert forall|y: int, d: Seq<u32>|
                0 <= y < a.len() && #[trigger] begins(h + a[y].decisions, d) implies s(d) == q(d) by {
                assert(a[y] == ls[y]);
                if begins(name, d) {
                    same_cone(h, a[y].decisions, l.decisions, d);
                }
            }
            due_local(t, s, q, h, a, c);
            assert(weigh(a, due(t, q, h, c)) == re::<N>(acc[i], c));
            expected_local(t, s, p, name, l.state, c);
            assert(expected(t, p, name, l.state, c) == re::<N>(tail[j], c));
        }
        s
    }
}

/// Two names of which neither begins the other do not begin one name.
proof fn same_cone(h: Seq<u32>, a: Seq<u32>, b: Seq<u32>, d: Seq<u32>)
    requires
        begins(h + a, d),
        begins(h + b, d),
    ensures
        begins(a, b) || begins(b, a),
{
    let n = h.len() as int;
    if a.len() <= b.len() {
        assert(b.take(a.len() as int) =~= a) by {
            assert forall|i: int| 0 <= i < a.len() implies b[i] == a[i] by {
                assert(d.take((h + a).len() as int)[n + i] == (h + a)[n + i]);
                assert(d.take((h + b).len() as int)[n + i] == (h + b)[n + i]);
            }
        }
    } else {
        assert(a.take(b.len() as int) =~= b) by {
            assert forall|i: int| 0 <= i < b.len() implies a[i] == b[i] by {
                assert(d.take((h + a).len() as int)[n + i] == (h + a)[n + i]);
                assert(d.take((h + b).len() as int)[n + i] == (h + b)[n + i]);
            }
        }
    }
}

/// From the end of any path, every vector of the achievable set is what some
/// strategy expects.
pub proof fn set_attained<N: Number>(t: &Tree<N>, h: Leaf<N::Value>, cap: usize, m: int) -> (policy:
    Policy)
    requires
        exact::<N>(),
        t.wf(),
        trail(t, h.decisions) == Some(h),
        set_v(t, h.state, cap) is Some,
        0 <= m < set_v(t, h.state, cap).unwrap().len(),
    ensures
        reaches_v(t, policy, h.decisions, h.state, set_v(t, h.state, cap).unwrap()[m]),
    decreases t.net().work(h.state), 1nat, 0nat,
{
    let s = h.state;
    let r = set_v(t, s, cap).unwrap();
    trail_facts(t, h.decisions);
    if rank(t.net().nodes, s) is None {
        let p: Policy = |d: Seq<u32>| Branch::Low;
        assert(r[m] == zeros_v::<N>(t.k as nat));
        p
    } else {
        open_waits(t, h);
        set_chosen(t, s, cap);
        let lo = spread_v(t, reply(t, s, child_of(t, s, Branch::Low)), cap).unwrap();
        let hi = spread_v(t, reply(t, s, child_of(t, s, Branch::High)), cap).unwrap();
        let u = lo + hi;
        pareto_from::<N>(u);
        assert(r.contains(r[m]));
        assert(u.contains(r[m]));
        let j = u.index_of(r[m]);
        let (b, i) = if j < lo.len() {
            (Branch::Low, j)
        } else {
            (Branch::High, j - lo.len())
        };
        let a = child_of(t, s, b);
        let ls = reply(t, s, a);
        reply_facts(t, s, a);
        reply_descends(t, s, b);
        assert(forked(t, h.decisions, ls, t.net().work(s))) by {
            assert forall|i: int| 0 <= i < ls.len() implies {
                let l = #[trigger] ls[i];
                &&& trail(t, h.decisions + l.decisions) is Some
                &&& trail(t, h.decisions + l.decisions).unwrap().state == l.state
                &&& l.impact.len() == t.k
                &&& t.net().work(l.state) < t.net().work(s)
            } by {
                trail_extended(t, h, a, i);
            }
        }
        let q = spread_attained(t, h.decisions, ls, cap, t.net().work(s), i);
        let v = spread_v(t, ls, cap).unwrap()[i];
        assert(v == r[m]);
        let p: Policy = |d: Seq<u32>| if d == h.decisions { b } else { q(d) };
        assert forall|c: int| 0 <= c < t.k implies #[trigger] expected(t, p, h.decisions, s, c)
            == re::<N>(r[m], c) by {
            expected_chosen(t, p, h.decisions, s, c);
            assert forall|y: int, d: Seq<u32>|
                0 <= y < ls.len() && #[trigger] begins(h.decisions + ls[y].decisions, d) implies p(d)
                == q(d) by {
                assert(begins(seq![a], ls[y].decisions));
                assert(d.len() >= (h.decisions + ls[y].decisions).len());
            }
            due_local(t, p, q, h.decisions, ls, c);
            assert(weigh(ls, due(t, q, h.decisions, c)) == re::<N>(v, c));
        }
        p
    }
}

// ---------------------------------------------------------------------------
// the oracle
// ---------------------------------------------------------------------------

proof fn opening_forked<N: Number>(t: &Tree<N>)
    requires
        t.wf(),
    ensures
        forked(t, Seq::empty(), opening(t), t.net().work(t.net().initial()) + 1),
{
    let ls = opening(t);
    let e = Seq::<u32>::empty();
    opening_facts(t);
    initial_valid(t.net());
    forced_outcomes(t, t.net().initial(), e, zeros_v::<N>(t.k as nat), N::one_v());
    assert forall|i: int| 0 <= i < ls.len() implies {
        let l = #[trigger] ls[i];
        &&& trail(t, e + l.decisions) is Some
        &&& trail(t, e + l.decisions).unwrap().state == l.state
        &&& l.impact.len() == t.k
        &&& t.net().work(l.state) < t.net().work(t.net().initial()) + 1
    } by {
        trail_opening(t, i);
        assert(e + ls[i].decisions =~= ls[i].decisions);
        assert(path(t, ls[i]));
        assert(outcome_of(t, e, ls[i]));
    }
}

/// A strategy is worth exactly this vector.
pub open spec fn is_worth<N: Number>(t: &Tree<N>, policy: Policy, v: Seq<N::Value>) -> bool {
    forall|c: int| 0 <= c < t.k ==> #[trigger] worth(t, policy, c) == re::<N>(v, c)
}

/// Every vector of the achievable set is what some strategy is worth, in every
/// component at once.
pub proof fn achieved<N: Number>(t: &Tree<N>, cap: usize, m: int)
    requires
        exact::<N>(),
        t.wf(),
        spread_v(t, opening(t), cap) is Some,
        0 <= m < spread_v(t, opening(t), cap).unwrap().len(),
    ensures
        exists|policy: Policy|
            is_worth(t, policy, spread_v(t, opening(t), cap).unwrap()[m]),
{
    let e = Seq::<u32>::empty();
    let v = spread_v(t, opening(t), cap).unwrap()[m];
    opening_forked(t);
    let p = spread_attained(t, e, opening(t), cap, t.net().work(t.net().initial()) + 1, m);
    assert forall|c: int| 0 <= c < t.k implies #[trigger] worth(t, p, c) == re::<N>(v, c) by {
        worth_opened(t, p, c);
        assert(weigh(opening(t), due(t, p, e, c)) == re::<N>(v, c));
    }
    assert(is_worth(t, p, v));
}

/// Whatever a strategy is worth, some vector of the achievable set is at most
/// that, in every component at once.
pub proof fn nothing_below<N: Number>(t: &Tree<N>, cap: usize, policy: Policy)
    requires
        exact::<N>(),
        t.wf(),
        spread_v(t, opening(t), cap) is Some,
    ensures
        some_below::<N>(
            spread_v(t, opening(t), cap).unwrap(),
            t.k as nat,
            |c: int| worth(t, policy, c),
        ),
{
    let e = Seq::<u32>::empty();
    let k = t.k as nat;
    let ls = opening(t);
    opening_facts(t);
    worth_opened(t, policy, 0);
    assert forall|i: int| 0 <= i < ls.len() implies {
        let l = #[trigger] ls[i];
        &&& N::real_of(l.prob) > 0 as real
        &&& l.impact.len() == t.k
        &&& stops(t, l.state)
        &&& set_v(t, l.state, cap) matches Some(p) ==> some_below::<N>(
            p,
            t.k as nat,
            onward(t, policy, e, l),
        )
    } by {
        let l = ls[i];
        assert(path(t, l));
        if set_v(t, l.state, cap) is Some {
            set_below(t, policy, e + l.decisions, l.state, cap);
            let p = set_v(t, l.state, cap).unwrap();
            let g = |c: int| expected(t, policy, e + l.decisions, l.state, c);
            let j = choose|j: int| 0 <= j < p.len() && below::<N>(#[trigger] p[j], k, g);
            assert(below::<N>(p[j], k, onward(t, policy, e, l)));
        }
    }
    spread_below(t, policy, e, ls, cap);
    let r = spread_v(t, ls, cap).unwrap();
    let i = choose|i: int|
        0 <= i < r.len() && below::<N>(#[trigger] r[i], k, together(t, policy, e, ls));
    let f = |c: int| worth(t, policy, c);
    assert(below::<N>(r[i], k, f)) by {
        assert forall|c: int| 0 <= c < k implies #[trigger] re::<N>(r[i], c) <= f(c) by {
            worth_opened(t, policy, c);
            assert(re::<N>(r[i], c) <= together(t, policy, e, ls)(c));
        }
    }
}

/// The achievable set meets a budget when, and only when, some strategy is
/// within it.
pub proof fn oracle_decides<N: Number>(t: &Tree<N>, cap: usize, budget: Seq<N::Value>)
    requires
        exact::<N>(),
        t.wf(),
        budget.len() == t.k,
        spread_v(t, opening(t), cap) is Some,
    ensures
        dominated::<N>(spread_v(t, opening(t), cap).unwrap(), budget) <==> exists|policy: Policy|
            fits(t, policy, budget),
{
    let r = spread_v(t, opening(t), cap).unwrap();
    spread_wide(t, opening(t), cap);
    if dominated::<N>(r, budget) {
        let m = choose|m: int| 0 <= m < r.len() && at_most::<N>(#[trigger] r[m], budget);
        achieved(t, cap, m);
        let p = choose|policy: Policy| is_worth(t, policy, r[m]);
        assert(fits(t, p, budget)) by {
            assert forall|c: int| 0 <= c < t.k implies #[trigger] worth(t, p, c) <= re::<N>(
                budget,
                c,
            ) by {
                assert(r[m].len() == t.k);
                assert(N::le_v(r[m][c], budget[c]));
            }
        }
    }
    if exists|policy: Policy| fits(t, policy, budget) {
        let p = choose|policy: Policy| fits(t, policy, budget);
        nothing_below(t, cap, p);
        let f = |c: int| worth(t, p, c);
        let i = choose|i: int| 0 <= i < r.len() && below::<N>(#[trigger] r[i], t.k as nat, f);
        assert(at_most::<N>(r[i], budget)) by {
            assert(r[i].len() == t.k);
            assert forall|c: int| 0 <= c < r[i].len() && c < budget.len() implies N::le_v(
                #[trigger] r[i][c],
                budget[c],
            ) by {
                assert(re::<N>(r[i], c) <= f(c));
                assert(worth(t, p, c) <= re::<N>(budget, c));
            }
        }
    }
}

/// The search and the oracle answer the same question alike.
pub proof fn search_and_oracle_agree<N: Number>(
    a: Answer,
    t: &Tree<N>,
    x: Tests<N::Value>,
    record: bool,
    timed: bool,
    cap: usize,
)
    requires
        exact::<N>(),
        t.wf(),
        x.threshold.len() == t.k,
        N::real_of(x.slack) == 0 as real,
        backed(a, t, x, record, timed),
        spread_v(t, opening(t), cap) is Some,
    ensures
        a is Yes ==> dominated::<N>(spread_v(t, opening(t), cap).unwrap(), x.threshold),
        a is No ==> !dominated::<N>(spread_v(t, opening(t), cap).unwrap(), x.threshold),
{
    answer_decides_budget(a, t, x, record, timed);
    oracle_decides(t, cap, x.threshold);
}

} // verus!
