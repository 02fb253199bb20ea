//! The two bounds enclose the expected impact of every strategy.
//!
//! A forced move leaves both bounds where they are, a fast forward lowers both
//! by what it pays, a draw splits both into their expectation, and a choice
//! can only lower the upper one and raise the lower one. A move touches one
//! node and its children, and every node above it either passes the change
//! through or adds something the move does not touch.

use vstd::prelude::*;
use crate::bound::{bound_v, side, side_len};
use crate::num::{exact, re, zeros_v, Number};
use crate::progress::{
    branch_works, children_in, descends, forward_phase, initial_valid, inside, is_move, moved_works,
    net_durations,
};
use crate::semantics::{
    best_is_least, closes, forwarded, hands_over, lowered, moved, psi, raised, rank, spans, started,
    valid, Vertex,
};
use crate::state::{DONE, IDLE};
use crate::strategy::{
    branch_coherent, coherent, coherent_move, cost, expected, forwards, initial_coherent,
    moved_coherent, picked, rank_five_forwards, worth, Policy,
};
use crate::tree::{Kind, Tree};

verus! {

/// One entry of a bound of a subtree, as a real number.
pub open spec fn entry<N: Number>(
    t: &Tree<N>,
    s: Seq<i8>,
    up: bool,
    v: int,
    lo: int,
    hi: int,
    c: int,
) -> real {
    re::<N>(side(t, s, up, v, lo, hi), c)
}

/// A bound of a subtree reads the subtree alone.
proof fn side_frame<N: Number>(
    t: &Tree<N>,
    s: Seq<i8>,
    x: Seq<i8>,
    up: bool,
    v: int,
    lo: int,
    hi: int,
)
    requires
        spans(t.net().nodes, v, lo, hi),
        forall|i: int| lo <= i <= hi ==> s[i] == x[i],
    ensures
        side(t, s, up, v, lo, hi) == side(t, x, up, v, lo, hi),
    decreases hi - lo,
{
    let n = t.net().nodes[v];
    if n.kind != Kind::Task {
        children_in(t.net().nodes, v, lo, hi);
        side_frame(t, s, x, up, n.low, lo, v - 1);
        side_frame(t, s, x, up, n.high, v + 1, hi);
    }
}

/// Whether the root of a subtree is idle or running makes no difference.
proof fn side_root<N: Number>(
    t: &Tree<N>,
    s: Seq<i8>,
    x: Seq<i8>,
    up: bool,
    v: int,
    lo: int,
    hi: int,
)
    requires
        spans(t.net().nodes, v, lo, hi),
        forall|i: int| lo <= i <= hi && i != v ==> s[i] == x[i],
        s[v] != DONE,
        x[v] != DONE,
    ensures
        side(t, s, up, v, lo, hi) == side(t, x, up, v, lo, hi),
{
    let n = t.net().nodes[v];
    if n.kind != Kind::Task {
        children_in(t.net().nodes, v, lo, hi);
        side_frame(t, s, x, up, n.low, lo, v - 1);
        side_frame(t, s, x, up, n.high, v + 1, hi);
    }
}

/// What a running node adds to the bound of the child that is under way.
proof fn side_active<N: Number>(
    t: &Tree<N>,
    x: Seq<i8>,
    up: bool,
    v: int,
    lo: int,
    hi: int,
    in_low: bool,
    c: int,
)
    requires
        exact::<N>(),
        spans(t.net().nodes, v, lo, hi),
        t.net().nodes[v].kind != Kind::Task,
        0 <= c < t.k,
        x[v] >= 0,
        ({
            let n = t.net().nodes[v];
            let (child, other) = if in_low { (n.low, n.high) } else { (n.high, n.low) };
            &&& x[child] >= 0 || x[child] == DONE
            &&& n.kind != Kind::Parallel ==> x[other] == IDLE
        }),
    ensures
        ({
            let n = t.net().nodes[v];
            let low = entry(t, x, up, n.low, lo, v - 1, c);
            let high = entry(t, x, up, n.high, v + 1, hi, c);
            entry(t, x, up, v, lo, hi, c) == (if n.kind == Kind::Parallel || (n.kind
                == Kind::Sequence && in_low) {
                low + high
            } else if in_low {
                low
            } else {
                high
            })
        }),
{
    let n = t.net().nodes[v];
    children_in(t.net().nodes, v, lo, hi);
    side_len(t, x, up, n.low, lo, v - 1);
    side_len(t, x, up, n.high, v + 1, hi);
    let child = if in_low { n.low } else { n.high };
    if x[child] == DONE {
        if in_low {
            assert(side(t, x, up, n.low, lo, v - 1) == zeros_v::<N>(t.k as nat));
        } else {
            assert(side(t, x, up, n.high, v + 1, hi) == zeros_v::<N>(t.k as nat));
        }
    }
}

/// The interval of a node of a subtree.
spec fn span_of(g: Seq<Vertex>, v: int, lo: int, hi: int, w: int) -> (int, int)
    decreases hi - lo,
{
    if w == v || !(lo < v < hi) {
        (lo, hi)
    } else if w < v {
        span_of(g, g[v].low, lo, v - 1, w)
    } else {
        span_of(g, g[v].high, v + 1, hi, w)
    }
}

proof fn mixed_shift(p: real, a: real, b: real, k: real)
    ensures
        p * (a + k) + (1 as real - p) * (b + k) == p * a + (1 as real - p) * b + k,
{
    assert(p * (a + k) == p * a + p * k) by (nonlinear_arith);
    assert((1 as real - p) * (b + k) == (1 as real - p) * b + (1 as real - p) * k) by (nonlinear_arith);
    assert((1 as real - p) * k == k - p * k) by (nonlinear_arith);
}

/// What a move at `w` does to a bound is the same seen from any node above it.
/// `a` and `b` are two outcomes of the move, the first one weighing `p`.
proof fn delta_up<N: Number>(
    t: &Tree<N>,
    s: Seq<i8>,
    a: Seq<i8>,
    b: Seq<i8>,
    p: real,
    up: bool,
    v: int,
    lo: int,
    hi: int,
    w: int,
    c: int,
)
    requires
        exact::<N>(),
        spans(t.net().nodes, v, lo, hi),
        1 <= lo <= w <= hi < t.net().nodes.len(),
        s.len() == t.net().nodes.len(),
        t.net().nodes[w].kind != Kind::Task,
        is_move(t.net().nodes, s, a, w),
        is_move(t.net().nodes, s, b, w),
        coherent(t.net().nodes, s, v, lo, hi),
        0 <= c < t.k,
    ensures
        ({
            let (wl, wh) = span_of(t.net().nodes, v, lo, hi, w);
            &&& spans(t.net().nodes, w, wl, wh)
            &&& 1 <= wl <= wh < t.net().nodes.len()
            &&& coherent(t.net().nodes, s, w, wl, wh)
            &&& entry(t, s, up, v, lo, hi, c) - (p * entry(t, a, up, v, lo, hi, c) + (1 as real - p)
                * entry(t, b, up, v, lo, hi, c)) == entry(t, s, up, w, wl, wh, c) - (p * entry(
                t,
                a,
                up,
                w,
                wl,
                wh,
                c,
            ) + (1 as real - p) * entry(t, b, up, w, wl, wh, c))
        }),
    decreases hi - lo,
{
    let g = t.net().nodes;
    descends(g, v, lo, hi, w);
    children_in(g, v, lo, hi);
    let (l, h) = (g[v].low, g[v].high);
    if w != v {
        coherent_move(g, s, a, v, lo, hi, w);
        let in_low = w < v;
        if in_low {
            descends(g, l, lo, v - 1, w);
            coherent_move(g, s, a, l, lo, v - 1, w);
            coherent_move(g, s, b, l, lo, v - 1, w);
            assert(coherent(g, a, l, lo, v - 1) && coherent(g, b, l, lo, v - 1));
            delta_up(t, s, a, b, p, up, l, lo, v - 1, w, c);
            side_frame(t, s, a, up, h, v + 1, hi);
            side_frame(t, s, b, up, h, v + 1, hi);
        } else {
            descends(g, h, v + 1, hi, w);
            coherent_move(g, s, a, h, v + 1, hi, w);
            coherent_move(g, s, b, h, v + 1, hi, w);
            assert(coherent(g, a, h, v + 1, hi) && coherent(g, b, h, v + 1, hi));
            delta_up(t, s, a, b, p, up, h, v + 1, hi, w, c);
            side_frame(t, s, a, up, l, lo, v - 1);
            side_frame(t, s, b, up, l, lo, v - 1);
        }
        side_active(t, s, up, v, lo, hi, in_low, c);
        side_active(t, a, up, v, lo, hi, in_low, c);
        side_active(t, b, up, v, lo, hi, in_low, c);
        let k = if in_low {
            entry(t, s, up, h, v + 1, hi, c)
        } else {
            entry(t, s, up, l, lo, v - 1, c)
        };
        let (xa, xb) = if in_low {
            (entry(t, a, up, l, lo, v - 1, c), entry(t, b, up, l, lo, v - 1, c))
        } else {
            (entry(t, a, up, h, v + 1, hi, c), entry(t, b, up, h, v + 1, hi, c))
        };
        mixed_shift(p, xa, xb, k);
    }
}

/// A move of rank two or three changes neither bound of its node.
proof fn still_at<N: Number>(
    t: &Tree<N>,
    s: Seq<i8>,
    a: Seq<i8>,
    up: bool,
    w: int,
    lo: int,
    hi: int,
    c: int,
)
    requires
        exact::<N>(),
        spans(t.net().nodes, w, lo, hi),
        1 <= lo <= hi < t.net().nodes.len(),
        s.len() == t.net().nodes.len(),
        t.net().nodes[w].kind != Kind::Task,
        ({
            let r = psi(t.net().nodes, s, w);
            (r == 2 && a == lowered(t.net().nodes, s, w)) || (r == 3 && a == raised(
                t.net().nodes,
                s,
                w,
            ))
        }),
        coherent(t.net().nodes, s, w, lo, hi),
        0 <= c < t.k,
    ensures
        entry(t, s, up, w, lo, hi, c) == entry(t, a, up, w, lo, hi, c),
{
    let g = t.net().nodes;
    let (l, h) = (g[w].low, g[w].high);
    children_in(g, w, lo, hi);
    assert(s[w] >= 0);
    side_len(t, s, up, l, lo, w - 1);
    side_len(t, s, up, h, w + 1, hi);
    side_len(t, a, up, l, lo, w - 1);
    side_len(t, a, up, h, w + 1, hi);
    if psi(g, s, w) == 2 {
        side_root(t, s, a, up, l, lo, w - 1);
        side_root(t, s, a, up, h, w + 1, hi);
    } else if hands_over(g, s, w) {
        side_root(t, s, a, up, h, w + 1, hi);
        assert(side(t, s, up, l, lo, w - 1) == zeros_v::<N>(t.k as nat));
    } else {
        if s[l] == DONE {
            assert(side(t, s, up, l, lo, w - 1) == zeros_v::<N>(t.k as nat));
        }
        if s[h] == DONE {
            assert(side(t, s, up, h, w + 1, hi) == zeros_v::<N>(t.k as nat));
        }
        assert(a[w] == DONE);
    }
}

/// What a choice or a draw does to the bounds of its node.
proof fn split_at<N: Number>(t: &Tree<N>, s: Seq<i8>, up: bool, w: int, lo: int, hi: int, c: int)
    requires
        exact::<N>(),
        spans(t.net().nodes, w, lo, hi),
        1 <= lo <= hi < t.net().nodes.len(),
        s.len() == t.net().nodes.len(),
        ({
            let r = psi(t.net().nodes, s, w);
            r == 1 || r == 4
        }),
        0 <= c < t.k,
    ensures
        ({
            let n = t.net().nodes[w];
            let here = entry(t, s, up, w, lo, hi, c);
            let low = entry(t, started(s, n.low), up, w, lo, hi, c);
            let high = entry(t, started(s, n.high), up, w, lo, hi, c);
            let p = N::real_of(t.prob_v(w));
            &&& psi(t.net().nodes, s, w) == 4 ==> here == p * low + (1 as real - p) * high
            &&& psi(t.net().nodes, s, w) == 1 && up ==> here >= low && here >= high
            &&& psi(t.net().nodes, s, w) == 1 && !up ==> here <= low && here <= high
            &&& psi(t.net().nodes, s, w) == 1 ==> here == low || here == high
        }),
{
    let g = t.net().nodes;
    let (l, h) = (g[w].low, g[w].high);
    children_in(g, w, lo, hi);
    let a = started(s, l);
    let b = started(s, h);
    side_len(t, s, up, l, lo, w - 1);
    side_len(t, s, up, h, w + 1, hi);
    side_root(t, s, a, up, l, lo, w - 1);
    side_root(t, s, b, up, h, w + 1, hi);
}

// ---------------------------------------------------------------------------
// the fast forward
// ---------------------------------------------------------------------------

pub proof fn cost_split<N: Number>(t: &Tree<N>, s: Seq<i8>, lo: int, m: int, hi: int, c: int)
    requires
        lo - 1 <= m <= hi,
    ensures
        cost(t, s, lo, hi, c) == cost(t, s, lo, m, c) + cost(t, s, m + 1, hi, c),
    decreases hi - m,
{
    if m < hi {
        cost_split(t, s, lo, m, hi - 1, c);
    }
}

proof fn cost_none<N: Number>(t: &Tree<N>, s: Seq<i8>, lo: int, hi: int, c: int)
    requires
        forall|i: int| lo <= i <= hi ==> #[trigger] s[i] < 0,
    ensures
        cost(t, s, lo, hi, c) == 0 as real,
    decreases hi - lo + 1,
{
    if lo <= hi {
        cost_none(t, s, lo, hi - 1, c);
        assert(s[hi] < 0);
    }
}

/// The fast forward lowers both bounds by what it pays.
proof fn forward_pays<N: Number>(t: &Tree<N>, s: Seq<i8>, up: bool, v: int, lo: int, hi: int, c: int)
    requires
        exact::<N>(),
        spans(t.net().nodes, v, lo, hi),
        1 <= lo <= hi < t.net().nodes.len(),
        forwards(t.net().nodes, s),
        coherent(t.net().nodes, s, v, lo, hi),
        0 <= c < t.k,
    ensures
        entry(t, s, up, v, lo, hi, c) == cost(t, s, lo, hi, c) + entry(
            t,
            forwarded(t.net().nodes, s),
            up,
            v,
            lo,
            hi,
            c,
        ),
    decreases hi - lo,
{
    let g = t.net().nodes;
    let x = forwarded(g, s);
    inside(g, v, lo, hi);
    forward_phase(g, s, v);
    side_len(t, s, up, v, lo, hi);
    side_len(t, x, up, v, lo, hi);
    if s[v] == IDLE || s[v] == DONE {
        assert forall|i: int| lo <= i <= hi implies #[trigger] s[i] < 0 by {
            if i != v {
                assert(s[i] == IDLE);
            }
        }
        cost_none(t, s, lo, hi, c);
        side_frame(t, s, x, up, v, lo, hi);
    } else if g[v].kind == Kind::Task {
        assert(cost(t, s, lo, hi - 1, c) == 0 as real);
    } else {
        children_in(g, v, lo, hi);
        let (l, h) = (g[v].low, g[v].high);
        assert(coherent(g, s, l, lo, v - 1) && coherent(g, s, h, v + 1, hi));
        forward_pays(t, s, up, l, lo, v - 1, c);
        forward_pays(t, s, up, h, v + 1, hi, c);
        cost_split(t, s, lo, v, hi, c);
        assert(!closes(g, s, v));
        assert(cost(t, s, lo, v, c) == cost(t, s, lo, v - 1, c));
        side_len(t, s, up, l, lo, v - 1);
        side_len(t, s, up, h, v + 1, hi);
        side_len(t, x, up, l, lo, v - 1);
        side_len(t, x, up, h, v + 1, hi);
        descends(g, v, lo, hi, l);
        descends(g, v, lo, hi, h);
        forward_phase(g, s, l);
        forward_phase(g, s, h);
        if s[l] == IDLE || s[l] == DONE {
            assert forall|i: int| lo <= i <= v - 1 implies #[trigger] s[i] < 0 by {
                if i != l {
                    assert(s[i] == IDLE);
                }
            }
            cost_none(t, s, lo, v - 1, c);
            side_frame(t, s, x, up, l, lo, v - 1);
        }
        if s[h] == IDLE || s[h] == DONE {
            assert forall|i: int| v + 1 <= i <= hi implies #[trigger] s[i] < 0 by {
                if i != h {
                    assert(s[i] == IDLE);
                }
            }
            cost_none(t, s, v + 1, hi, c);
            side_frame(t, s, x, up, h, v + 1, hi);
        }
        if x[l] == DONE {
            assert(side(t, x, up, l, lo, v - 1) == zeros_v::<N>(t.k as nat));
        }
        if x[h] == DONE {
            assert(side(t, x, up, h, v + 1, hi) == zeros_v::<N>(t.k as nat));
        }
    }
}

// ---------------------------------------------------------------------------
// the law
// ---------------------------------------------------------------------------

/// One entry of a bound of a state, as a real number.
pub open spec fn bound_re<N: Number>(t: &Tree<N>, s: Seq<i8>, up: bool, c: int) -> real {
    re::<N>(bound_v(t, s, up), c)
}

/// Forced moves that pay nothing leave the bounds alone; the fast forward
/// lowers them by its cost.
pub proof fn bound_moved<N: Number>(t: &Tree<N>, s: Seq<i8>, up: bool, c: int)
    requires
        exact::<N>(),
        t.wf(),
        valid(t.net().nodes, s),
        t.net().coherent(s),
        rank(t.net().nodes, s) is Some,
        ({
            let r = rank(t.net().nodes, s).unwrap().0;
            r == 2 || r == 3 || r == 5
        }),
        0 <= c < t.k,
    ensures
        ({
            let (r, w) = rank(t.net().nodes, s).unwrap();
            let x = moved(t.net().nodes, s, r, w);
            bound_re(t, s, up, c) == (if r == 5 {
                cost(t, s, 1, t.net().size(), c)
            } else {
                0 as real
            }) + bound_re(t, x, up, c)
        }),
{
    let g = t.net().nodes;
    let n = t.net();
    let (r, w) = rank(g, s).unwrap();
    best_is_least(g, s, n.size());
    net_durations(n);
    if r == 5 {
        rank_five_forwards(n, s);
        forward_pays(t, s, up, n.root, 1, n.size(), c);
    } else {
        let x = moved(g, s, r, w);
        delta_up(t, s, x, x, 1 as real, up, n.root, 1, n.size(), w, c);
        let (wl, wh) = span_of(g, n.root, 1, n.size(), w);
        still_at(t, s, x, up, w, wl, wh, c);
    }
}

/// A draw splits a bound into its expectation.
pub proof fn bound_drawn<N: Number>(t: &Tree<N>, s: Seq<i8>, up: bool, c: int)
    requires
        exact::<N>(),
        t.wf(),
        valid(t.net().nodes, s),
        t.net().coherent(s),
        rank(t.net().nodes, s) is Some,
        rank(t.net().nodes, s).unwrap().0 == 4,
        0 <= c < t.k,
    ensures
        ({
            let w = rank(t.net().nodes, s).unwrap().1;
            let v = t.net().nodes[w];
            let p = N::real_of(t.prob_v(w));
            bound_re(t, s, up, c) == p * bound_re(t, started(s, v.low), up, c) + (1 as real - p)
                * bound_re(t, started(s, v.high), up, c)
        }),
{
    let g = t.net().nodes;
    let n = t.net();
    let (r, w) = rank(g, s).unwrap();
    best_is_least(g, s, n.size());
    net_durations(n);
    let (a, b) = (started(s, g[w].low), started(s, g[w].high));
    let p = N::real_of(t.prob_v(w));
    delta_up(t, s, a, b, p, up, n.root, 1, n.size(), w, c);
    let (wl, wh) = span_of(g, n.root, 1, n.size(), w);
    split_at(t, s, up, w, wl, wh, c);
}

/// A choice can only lower the upper bound and raise the lower one.
pub proof fn bound_chosen<N: Number>(t: &Tree<N>, s: Seq<i8>, up: bool, c: int)
    requires
        exact::<N>(),
        t.wf(),
        valid(t.net().nodes, s),
        t.net().coherent(s),
        rank(t.net().nodes, s) is Some,
        rank(t.net().nodes, s).unwrap().0 == 1,
        0 <= c < t.k,
    ensures
        ({
            let v = t.net().nodes[rank(t.net().nodes, s).unwrap().1];
            let here = bound_re(t, s, up, c);
            let low = bound_re(t, started(s, v.low), up, c);
            let high = bound_re(t, started(s, v.high), up, c);
            &&& here == low || here == high
            &&& if up { here >= low && here >= high } else { here <= low && here <= high }
        }),
{
    let g = t.net().nodes;
    let n = t.net();
    let (r, w) = rank(g, s).unwrap();
    best_is_least(g, s, n.size());
    net_durations(n);
    let (a, b) = (started(s, g[w].low), started(s, g[w].high));
    delta_up(t, s, a, a, 1 as real, up, n.root, 1, n.size(), w, c);
    delta_up(t, s, b, b, 1 as real, up, n.root, 1, n.size(), w, c);
    let (wl, wh) = span_of(g, n.root, 1, n.size(), w);
    split_at(t, s, up, w, wl, wh, c);
}

/// At the end of the process nothing is left to pay.
pub proof fn bound_final<N: Number>(t: &Tree<N>, s: Seq<i8>, up: bool, c: int)
    requires
        exact::<N>(),
        t.wf(),
        valid(t.net().nodes, s),
        t.net().coherent(s),
        rank(t.net().nodes, s) is None,
        0 <= c < t.k,
    ensures
        s[t.root as int] == DONE,
        bound_re(t, s, up, c) == 0 as real,
{
    let n = t.net();
    best_is_least(n.nodes, s, n.size());
    net_durations(n);
    if s[n.root] >= 0 {
        some_psi(n.nodes, s, n.root, 1, n.size());
    }
}

/// A subtree that runs holds a trigger.
pub proof fn some_psi(g: Seq<Vertex>, s: Seq<i8>, v: int, lo: int, hi: int)
    requires
        spans(g, v, lo, hi),
        1 <= lo <= hi < g.len(),
        valid(g, s),
        coherent(g, s, v, lo, hi),
        s[v] >= 0,
    ensures
        exists|u: int| lo <= u <= hi && #[trigger] psi(g, s, u) > 0,
    decreases hi - lo,
{
    inside(g, v, lo, hi);
    if g[v].kind == Kind::Task {
        assert(psi(g, s, v) > 0);
    } else {
        children_in(g, v, lo, hi);
        let (l, h) = (g[v].low, g[v].high);
        assert(coherent(g, s, l, lo, v - 1) && coherent(g, s, h, v + 1, hi));
        if s[l] >= 0 {
            some_psi(g, s, l, lo, v - 1);
        } else if s[h] >= 0 {
            some_psi(g, s, h, v + 1, hi);
        } else {
            assert(psi(g, s, v) > 0);
        }
    }
}

proof fn mean_between(p: real, a: real, b: real, x: real, y: real)
    requires
        0 as real <= p <= 1 as real,
        a <= x,
        b <= y,
    ensures
        p * a + (1 as real - p) * b <= p * x + (1 as real - p) * y,
{
    assert(p * a <= p * x) by (nonlinear_arith)
        requires
            0 as real <= p,
            a <= x,
    ;
    assert((1 as real - p) * b <= (1 as real - p) * y) by (nonlinear_arith)
        requires
            p <= 1 as real,
            b <= y,
    ;
}

/// Whatever a strategy does from a state of the process, what it is still
/// expected to pay lies between the two bounds of the state.
pub proof fn bounds_enclose<N: Number>(
    t: &Tree<N>,
    policy: Policy,
    h: Seq<u32>,
    s: Seq<i8>,
    c: int,
)
    requires
        exact::<N>(),
        t.wf(),
        valid(t.net().nodes, s),
        t.net().coherent(s),
        0 <= c < t.k,
    ensures
        bound_re(t, s, false, c) <= expected(t, policy, h, s, c) <= bound_re(t, s, true, c),
    decreases t.net().work(s),
{
    let n = t.net();
    let g = n.nodes;
    if rank(g, s) is None {
        bound_final(t, s, true, c);
        bound_final(t, s, false, c);
    } else {
        let (r, w) = rank(g, s).unwrap();
        best_is_least(g, s, n.size());
        if r == 1 {
            branch_works(n, s);
            branch_coherent(n, s);
            let a = picked(g[w], policy(h));
            bounds_enclose(t, policy, h.push(a as u32), started(s, a), c);
            bound_chosen(t, s, true, c);
            bound_chosen(t, s, false, c);
        } else if r == 4 {
            branch_works(n, s);
            branch_coherent(n, s);
            let (a, b) = (g[w].low, g[w].high);
            bounds_enclose(t, policy, h.push(a as u32), started(s, a), c);
            bounds_enclose(t, policy, h.push(b as u32), started(s, b), c);
            bound_drawn(t, s, true, c);
            bound_drawn(t, s, false, c);
            prob_between(t, w);
            let p = N::real_of(t.prob_v(w));
            let (x, y) = (
                expected(t, policy, h.push(a as u32), started(s, a), c),
                expected(t, policy, h.push(b as u32), started(s, b), c),
            );
            mean_between(
                p,
                bound_re(t, started(s, a), false, c),
                bound_re(t, started(s, b), false, c),
                x,
                y,
            );
            mean_between(
                p,
                x,
                y,
                bound_re(t, started(s, a), true, c),
                bound_re(t, started(s, b), true, c),
            );
        } else {
            moved_works(n, s);
            moved_coherent(n, s);
            bounds_enclose(t, policy, h, moved(g, s, r, w), c);
            bound_moved(t, s, true, c);
            bound_moved(t, s, false, c);
        }
    }
}

/// The probability of a draw, as a real number.
pub proof fn prob_between<N: Number>(t: &Tree<N>, w: int)
    requires
        exact::<N>(),
        t.wf(),
        1 <= w <= t.n_nodes,
        t.net().nodes[w].kind == Kind::Nature,
    ensures
        (0 as real) < N::real_of(t.prob_v(w)) < 1 as real,
{
    assert(t.nodes@[w].kind == Kind::Nature);
}

/// The two bounds at the start enclose every strategy.
pub proof fn every_strategy_enclosed<N: Number>(t: &Tree<N>, policy: Policy, c: int)
    requires
        exact::<N>(),
        t.wf(),
        0 <= c < t.k,
    ensures
        bound_re(t, t.net().initial(), false, c) <= worth(t, policy, c) <= bound_re(
            t,
            t.net().initial(),
            true,
            c,
        ),
{
    initial_valid(t.net());
    initial_coherent(t.net());
    bounds_enclose(t, policy, Seq::empty(), t.net().initial(), c);
}

} // verus!
