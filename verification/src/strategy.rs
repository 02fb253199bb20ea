//! Strategies, what they cost, and why the two bounds enclose the cost.
//!
//! A strategy says which child to start at every choice, and it may look at
//! every decision and every draw that came before. What it costs is an
//! expectation over the draws, defined here on the single moves of the process
//! and on nothing else.

use vstd::prelude::*;
use crate::num::{re, Number};
use crate::progress::{
    branch_works, children_in, descends, forward_phase, inside, is_move, least_left_bounds,
    moved_works, net_durations,
};
use crate::semantics::{
    advance, best_is_least, busy, closes, forwarded, left, moved, rank, spans, started, valid, Net,
    Vertex,
};
use crate::state::{DONE, IDLE};
use crate::tables::Branch;
use crate::tree::{Kind, Tree};

verus! {

/// A deterministic strategy: the branch it takes after a history of decisions
/// and draws, each named by the child it started.
pub type Policy = spec_fn(Seq<u32>) -> Branch;

/// The child a branch starts.
pub open spec fn picked(v: Vertex, b: Branch) -> int {
    match b {
        Branch::Low => v.low,
        Branch::High => v.high,
    }
}

/// What the tasks from `lo` to `hi` that complete in the fast forward out of
/// `s` cost in component `c`.
pub open spec fn cost<N: Number>(t: &Tree<N>, s: Seq<i8>, lo: int, hi: int, c: int) -> real
    decreases hi - lo + 1,
{
    if hi < lo {
        0 as real
    } else {
        cost(t, s, lo, hi - 1, c) + if closes(t.net().nodes, s, hi) {
            re::<N>(t.impact_v(hi), c)
        } else {
            0 as real
        }
    }
}

/// The expected impact, in component `c`, still to be paid from the state `s`
/// by the strategy `policy` after the history `h`.
pub open spec fn expected<N: Number>(t: &Tree<N>, policy: Policy, h: Seq<u32>, s: Seq<i8>, c: int) -> real
    decreases t.net().work(s),
{
    let g = t.net().nodes;
    if !t.net().wf() || !valid(g, s) || rank(g, s) is None {
        0 as real
    } else {
        let (r, w) = rank(g, s).unwrap();
        proof {
            best_is_least(g, s, t.net().size());
            if r == 1 || r == 4 {
                branch_works(t.net(), s);
            } else {
                moved_works(t.net(), s);
            }
        }
        if r == 1 {
            let a = picked(g[w], policy(h));
            expected(t, policy, h.push(a as u32), started(s, a), c)
        } else if r == 4 {
            let p = N::real_of(t.prob_v(w));
            let (l, u) = (g[w].low, g[w].high);
            p * expected(t, policy, h.push(l as u32), started(s, l), c) + (1 as real - p)
                * expected(t, policy, h.push(u as u32), started(s, u), c)
        } else if r == 5 {
            cost(t, s, 1, t.net().size(), c) + expected(t, policy, h, moved(g, s, r, w), c)
        } else {
            expected(t, policy, h, moved(g, s, r, w), c)
        }
    }
}

/// The expected impact of a strategy, in component `c`.
pub open spec fn worth<N: Number>(t: &Tree<N>, policy: Policy, c: int) -> real {
    expected(t, policy, Seq::empty(), t.net().initial(), c)
}

/// The expected impact of the strategy is within the budget, in every
/// component at once.
pub open spec fn fits<N: Number>(t: &Tree<N>, policy: Policy, budget: Seq<N::Value>) -> bool {
    forall|c: int| 0 <= c < t.k ==> #[trigger] worth(t, policy, c) <= re::<N>(budget, c)
}

// ---------------------------------------------------------------------------
// coherent states
// ---------------------------------------------------------------------------

pub open spec fn all_idle(s: Seq<i8>, lo: int, hi: int) -> bool {
    forall|i: int| lo <= i <= hi ==> #[trigger] s[i] == IDLE
}

/// The phases of a subtree agree with one another: nothing runs below a node
/// that does not, a sequence runs one region at a time, a parallel node both
/// or neither, a choice and a draw one branch at most.
pub open spec fn coherent(g: Seq<Vertex>, s: Seq<i8>, v: int, lo: int, hi: int) -> bool
    decreases hi - lo,
{
    if s[v] == IDLE {
        all_idle(s, lo, hi)
    } else if s[v] == DONE {
        all_idle(s, lo, v - 1) && all_idle(s, v + 1, hi)
    } else {
        &&& s[v] >= 0
        &&& g[v].kind != Kind::Task && lo < v < hi ==> {
            let (a, b) = (s[g[v].low] == IDLE, s[g[v].high] == IDLE);
            &&& coherent(g, s, g[v].low, lo, v - 1)
            &&& coherent(g, s, g[v].high, v + 1, hi)
            &&& if g[v].kind == Kind::Parallel { a == b } else { a || b }
        }
    }
}

impl Net {
    /// A coherent state of a process that has begun.
    pub open spec fn coherent(self, s: Seq<i8>) -> bool {
        s[self.root] != IDLE && coherent(self.nodes, s, self.root, 1, self.size())
    }
}

proof fn idle_coherent(g: Seq<Vertex>, s: Seq<i8>, v: int, lo: int, hi: int)
    requires
        lo <= v <= hi,
        all_idle(s, lo, hi),
    ensures
        coherent(g, s, v, lo, hi),
{
}

pub proof fn initial_coherent(n: Net)
    requires
        n.wf(),
    ensures
        n.coherent(n.initial()),
{
    let (g, s, v) = (n.nodes, n.initial(), n.root);
    inside(g, v, 1, n.size());
    if g[v].kind != Kind::Task {
        children_in(g, v, 1, n.size());
        idle_coherent(g, s, g[v].low, 1, v - 1);
        idle_coherent(g, s, g[v].high, v + 1, n.size());
    }
}

proof fn coherent_frame(g: Seq<Vertex>, s: Seq<i8>, t: Seq<i8>, v: int, lo: int, hi: int)
    requires
        spans(g, v, lo, hi),
        forall|i: int| lo <= i <= hi ==> s[i] == t[i],
        coherent(g, s, v, lo, hi),
    ensures
        coherent(g, t, v, lo, hi),
    decreases hi - lo,
{
    if g[v].kind != Kind::Task {
        children_in(g, v, lo, hi);
        if s[v] >= 0 {
            coherent_frame(g, s, t, g[v].low, lo, v - 1);
            coherent_frame(g, s, t, g[v].high, v + 1, hi);
        }
    }
}

/// A node that starts, nothing below it running, is coherent.
proof fn coherent_start(g: Seq<Vertex>, s: Seq<i8>, v: int, lo: int, hi: int)
    requires
        spans(g, v, lo, hi),
        s[v] >= 0,
        all_idle(s, lo, v - 1),
        all_idle(s, v + 1, hi),
    ensures
        coherent(g, s, v, lo, hi),
{
    if g[v].kind != Kind::Task {
        children_in(g, v, lo, hi);
        idle_coherent(g, s, g[v].low, lo, v - 1);
        idle_coherent(g, s, g[v].high, v + 1, hi);
    }
}

/// A move keeps the subtree it happens in coherent, and begun or not.
pub proof fn coherent_move(g: Seq<Vertex>, s: Seq<i8>, t: Seq<i8>, v: int, lo: int, hi: int, w: int)
    requires
        spans(g, v, lo, hi),
        1 <= lo <= w <= hi < g.len(),
        s.len() == g.len(),
        g[w].kind != Kind::Task,
        is_move(g, s, t, w),
        coherent(g, s, v, lo, hi),
    ensures
        coherent(g, t, v, lo, hi),
        s[v] >= 0,
        t[v] != IDLE,
    decreases hi - lo,
{
    descends(g, v, lo, hi, w);
    children_in(g, v, lo, hi);
    let (l, h) = (g[v].low, g[v].high);
    if w == v {
        assert(coherent(g, s, l, lo, v - 1) && coherent(g, s, h, v + 1, hi));
        inside(g, l, lo, v - 1);
        inside(g, h, v + 1, hi);
        // a child that is idle or done has nothing running below it
        if s[l] == IDLE || s[l] == DONE {
            assert forall|i: int| lo <= i <= v - 1 && i != l implies #[trigger] t[i] == IDLE by {
                assert(s[i] == IDLE);
            }
            if t[l] >= 0 {
                coherent_start(g, t, l, lo, v - 1);
            } else {
                assert(coherent(g, t, l, lo, v - 1));
            }
        }
        if s[h] == IDLE || s[h] == DONE {
            assert forall|i: int| v + 1 <= i <= hi && i != h implies #[trigger] t[i] == IDLE by {
                assert(s[i] == IDLE);
            }
            if t[h] >= 0 {
                coherent_start(g, t, h, v + 1, hi);
            } else {
                assert(coherent(g, t, h, v + 1, hi));
            }
        }
    } else if w < v {
        descends(g, l, lo, v - 1, w);
        assert(s[v] >= 0) by {
            assert(s[w] == s[w]);
            assert(s[g[w].low] == s[g[w].low]);
            assert(s[g[w].high] == s[g[w].high]);
        }
        coherent_move(g, s, t, l, lo, v - 1, w);
        coherent_frame(g, s, t, h, v + 1, hi);
    } else {
        descends(g, h, v + 1, hi, w);
        assert(s[v] >= 0) by {
            assert(s[w] == s[w]);
            assert(s[g[w].low] == s[g[w].low]);
            assert(s[g[w].high] == s[g[w].high]);
        }
        coherent_move(g, s, t, h, v + 1, hi, w);
        coherent_frame(g, s, t, l, lo, v - 1);
    }
}

/// The running tasks of a net, and how far the fast forward takes them.
pub open spec fn forwards(g: Seq<Vertex>, s: Seq<i8>) -> bool {
    &&& valid(g, s)
    &&& 1 <= advance(g, s) <= 127
    &&& forall|u: int|
        1 <= u < g.len() && #[trigger] busy(g, s, u) ==> advance(g, s) <= left(g, s, u)
            && g[u].duration <= 127
}

proof fn coherent_forward(g: Seq<Vertex>, s: Seq<i8>, v: int, lo: int, hi: int)
    requires
        spans(g, v, lo, hi),
        1 <= lo <= hi < g.len(),
        forwards(g, s),
        coherent(g, s, v, lo, hi),
    ensures
        coherent(g, forwarded(g, s), v, lo, hi),
        (forwarded(g, s)[v] == IDLE) == (s[v] == IDLE),
    decreases hi - lo,
{
    let t = forwarded(g, s);
    inside(g, v, lo, hi);
    forward_phase(g, s, v);
    if s[v] == IDLE || s[v] == DONE {
        assert forall|i: int| lo <= i <= hi implies t[i] == s[i] by {
            if i == v {
                assert(s[v] < 0);
            } else {
                assert(s[i] == IDLE);
            }
        }
        coherent_frame(g, s, t, v, lo, hi);
    } else if g[v].kind != Kind::Task {
        children_in(g, v, lo, hi);
        coherent_forward(g, s, g[v].low, lo, v - 1);
        coherent_forward(g, s, g[v].high, v + 1, hi);
    }
}

pub proof fn rank_five_forwards(n: Net, s: Seq<i8>)
    requires
        n.wf(),
        valid(n.nodes, s),
        rank(n.nodes, s) is Some,
        rank(n.nodes, s).unwrap().0 == 5,
    ensures
        forwards(n.nodes, s),
{
    best_is_least(n.nodes, s, n.size());
    net_durations(n);
    least_left_bounds(n.nodes, s, n.size());
    assert(busy(n.nodes, s, rank(n.nodes, s).unwrap().1));
}

/// The forced moves keep a state coherent.
pub proof fn moved_coherent(n: Net, s: Seq<i8>)
    requires
        n.wf(),
        valid(n.nodes, s),
        n.coherent(s),
        rank(n.nodes, s) is Some,
        ({
            let r = rank(n.nodes, s).unwrap().0;
            r == 2 || r == 3 || r == 5
        }),
    ensures
        ({
            let (r, w) = rank(n.nodes, s).unwrap();
            n.coherent(moved(n.nodes, s, r, w))
        }),
{
    let (r, w) = rank(n.nodes, s).unwrap();
    best_is_least(n.nodes, s, n.size());
    net_durations(n);
    if r == 5 {
        rank_five_forwards(n, s);
        coherent_forward(n.nodes, s, n.root, 1, n.size());
    } else {
        coherent_move(n.nodes, s, moved(n.nodes, s, r, w), n.root, 1, n.size(), w);
    }
}

/// Either branch of a choice or a draw keeps a state coherent.
pub proof fn branch_coherent(n: Net, s: Seq<i8>)
    requires
        n.wf(),
        valid(n.nodes, s),
        n.coherent(s),
        rank(n.nodes, s) is Some,
        ({
            let r = rank(n.nodes, s).unwrap().0;
            r == 1 || r == 4
        }),
    ensures
        ({
            let v = n.nodes[rank(n.nodes, s).unwrap().1];
            n.coherent(started(s, v.low)) && n.coherent(started(s, v.high))
        }),
{
    let (r, w) = rank(n.nodes, s).unwrap();
    best_is_least(n.nodes, s, n.size());
    net_durations(n);
    coherent_move(n.nodes, s, started(s, n.nodes[w].low), n.root, 1, n.size(), w);
    coherent_move(n.nodes, s, started(s, n.nodes[w].high), n.root, 1, n.size(), w);
}

} // verus!
