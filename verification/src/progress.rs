//! Every run of a process ends.
//!
//! A move spends the end of a child, or the readiness of a node, and what it
//! starts in exchange is worth less. The worth is handed down the tree: the
//! end of a child is worth more than the end of its parent, and the end of the
//! first region of a sequence more than the start of the second.

use vstd::prelude::*;
use crate::semantics::{
    advance, both, busy, closes, forwarded, least_left, left, lowered, moved, raised, rank,
    best_is_least, spans, started, psi, valid, Net, Vertex,
};
use crate::state::{DONE, IDLE};
use crate::tree::Kind;

verus! {


/// What starting `v` may cost, when the end of `v` is worth `d`.
pub open spec fn start_cost(g: Seq<Vertex>, v: int, lo: int, hi: int, d: nat) -> nat
    decreases hi - lo,
{
    if lo < v < hi && g[v].kind != Kind::Task {
        let h = start_cost(g, g[v].high, v + 1, hi, d + 1);
        1 + start_cost(g, g[v].low, lo, v - 1, low_worth(g, v, hi, d)) + h
    } else {
        d + g[v].duration as nat
    }
}

/// What the end of the low child is worth: more than the end of `v`, and at a
/// sequence more than the start of the second region too.
pub open spec fn low_worth(g: Seq<Vertex>, v: int, hi: int, d: nat) -> nat
    decreases hi - v,
{
    if v < hi && g[v].kind == Kind::Sequence {
        d + 1 + start_cost(g, g[v].high, v + 1, hi, d + 1)
    } else {
        d + 1
    }
}

/// What a node itself still owes.
pub open spec fn owed(g: Seq<Vertex>, s: Seq<i8>, v: int, lo: int, hi: int, d: nat) -> nat {
    if s[v] == DONE {
        d
    } else if s[v] < 0 {
        0
    } else if g[v].kind == Kind::Task {
        d + left(g, s, v) as nat
    } else if both(g, s, v, IDLE) {
        start_cost(g, v, lo, hi, d)
    } else {
        0
    }
}

/// An upper bound on the moves left in the subtree of `v`.
pub open spec fn work(g: Seq<Vertex>, s: Seq<i8>, v: int, lo: int, hi: int, d: nat) -> nat
    decreases hi - lo,
{
    if lo < v < hi && g[v].kind != Kind::Task {
        owed(g, s, v, lo, hi, d)
            + work(g, s, g[v].low, lo, v - 1, low_worth(g, v, hi, d))
            + work(g, s, g[v].high, v + 1, hi, d + 1)
    } else {
        owed(g, s, v, lo, hi, d)
    }
}

impl Net {
    /// An upper bound on the moves left in a run from `s`.
    pub open spec fn work(self, s: Seq<i8>) -> nat {
        work(self.nodes, s, self.root, 1, self.size(), 0)
    }
}

/// The two children of an internal node, inside its interval.
pub proof fn children_in(g: Seq<Vertex>, v: int, lo: int, hi: int)
    requires
        spans(g, v, lo, hi),
        g[v].kind != Kind::Task,
    ensures
        lo <= g[v].low < v < g[v].high <= hi,
{
    inside(g, g[v].low, lo, v - 1);
    inside(g, g[v].high, v + 1, hi);
}

pub proof fn inside(g: Seq<Vertex>, v: int, lo: int, hi: int)
    requires
        spans(g, v, lo, hi),
    ensures
        lo <= v <= hi,
{
}

/// The subtree of a node that lies in the subtree of another.
pub proof fn descends(g: Seq<Vertex>, v: int, lo: int, hi: int, w: int)
    requires
        spans(g, v, lo, hi),
        lo <= w <= hi,
    ensures
        g[w].kind == Kind::Task ==> 1 <= g[w].duration <= 127,
        g[w].kind != Kind::Task ==> lo <= g[w].low < w < g[w].high <= hi,
        g[w].kind != Kind::Task ==> g[w].low != v && g[w].high != v,
    decreases hi - lo,
{
    if g[v].kind != Kind::Task {
        if w == v {
            children_in(g, v, lo, hi);
        } else if w < v {
            descends(g, g[v].low, lo, v - 1, w);
        } else {
            descends(g, g[v].high, v + 1, hi, w);
        }
    }
}

/// The work of a subtree reads the subtree alone.
proof fn work_frame(g: Seq<Vertex>, s: Seq<i8>, t: Seq<i8>, v: int, lo: int, hi: int, d: nat)
    requires
        spans(g, v, lo, hi),
        forall|i: int| lo <= i <= hi ==> s[i] == t[i],
    ensures
        work(g, s, v, lo, hi, d) == work(g, t, v, lo, hi, d),
    decreases hi - lo,
{
    if g[v].kind != Kind::Task {
        children_in(g, v, lo, hi);
        work_frame(g, s, t, g[v].low, lo, v - 1, low_worth(g, v, hi, d));
        work_frame(g, s, t, g[v].high, v + 1, hi, d + 1);
    }
}

/// Only the entry of `v` itself moves.
proof fn work_at_root(g: Seq<Vertex>, s: Seq<i8>, t: Seq<i8>, v: int, lo: int, hi: int, d: nat)
    requires
        spans(g, v, lo, hi),
        forall|i: int| lo <= i <= hi && i != v ==> s[i] == t[i],
    ensures
        work(g, s, v, lo, hi, d) - owed(g, s, v, lo, hi, d) == work(g, t, v, lo, hi, d) - owed(
            g,
            t,
            v,
            lo,
            hi,
            d,
        ),
    decreases hi - lo,
{
    if g[v].kind != Kind::Task {
        children_in(g, v, lo, hi);
        work_frame(g, s, t, g[v].low, lo, v - 1, low_worth(g, v, hi, d));
        work_frame(g, s, t, g[v].high, v + 1, hi, d + 1);
    }
}

/// A node owes at most its start cost once it starts.
proof fn owed_at_start(g: Seq<Vertex>, s: Seq<i8>, v: int, lo: int, hi: int, d: nat)
    requires
        spans(g, v, lo, hi),
        s[v] == 0,
    ensures
        owed(g, s, v, lo, hi, d) <= start_cost(g, v, lo, hi, d),
{
}

/// `t` is what a move at the internal node `w` makes of `s`.
pub open spec fn is_move(g: Seq<Vertex>, s: Seq<i8>, t: Seq<i8>, w: int) -> bool {
    ||| psi(g, s, w) == 3 && t == raised(g, s, w)
    ||| psi(g, s, w) == 2 && t == lowered(g, s, w)
    ||| (psi(g, s, w) == 1 || psi(g, s, w) == 4) && (t == started(s, g[w].low) || t
        == started(s, g[w].high))
}

/// A move at an internal node leaves less work.
pub proof fn move_works(
    g: Seq<Vertex>,
    s: Seq<i8>,
    t: Seq<i8>,
    v: int,
    lo: int,
    hi: int,
    d: nat,
    w: int,
)
    requires
        spans(g, v, lo, hi),
        1 <= lo <= w <= hi < g.len(),
        s.len() == g.len(),
        g[w].kind != Kind::Task,
        is_move(g, s, t, w),
    ensures
        work(g, t, v, lo, hi, d) < work(g, s, v, lo, hi, d),
    decreases hi - lo,
{
    descends(g, v, lo, hi, w);
    children_in(g, v, lo, hi);
    let (l, h) = (g[v].low, g[v].high);
    let ld = low_worth(g, v, hi, d);
    if w == v {
        work_at_root(g, s, t, l, lo, v - 1, ld);
        work_at_root(g, s, t, h, v + 1, hi, d + 1);
        if t[l] == 0 {
            owed_at_start(g, t, l, lo, v - 1, ld);
        }
        if t[h] == 0 {
            owed_at_start(g, t, h, v + 1, hi, d + 1);
        }
    } else if w < v {
        descends(g, l, lo, v - 1, w);
        move_works(g, s, t, l, lo, v - 1, ld, w);
        work_frame(g, s, t, h, v + 1, hi, d + 1);
    } else {
        descends(g, h, v + 1, hi, w);
        work_frame(g, s, t, l, lo, v - 1, ld);
        move_works(g, s, t, h, v + 1, hi, d + 1, w);
    }
}

/// The time a fast forward advances is no more than any running task needs.
pub proof fn least_left_bounds(g: Seq<Vertex>, s: Seq<i8>, n: int)
    requires
        n < g.len(),
        valid(g, s),
        forall|u: int| 1 <= u <= n && (#[trigger] g[u]).kind == Kind::Task ==> g[u].duration <= 127,
    ensures
        forall|u: int| 1 <= u <= n && #[trigger] busy(g, s, u) ==> least_left(g, s, n) <= left(g, s, u),
        least_left(g, s, n) >= 1,
        (exists|u: int| 1 <= u <= n && #[trigger] busy(g, s, u)) ==> least_left(g, s, n) <= 127,
    decreases n,
{
    if n > 0 {
        least_left_bounds(g, s, n - 1);
    }
}

/// The fast forward leaves no more work, and less where a task runs.
proof fn forward_works(g: Seq<Vertex>, s: Seq<i8>, v: int, lo: int, hi: int, d: nat)
    requires
        spans(g, v, lo, hi),
        1 <= lo <= hi < g.len(),
        valid(g, s),
        1 <= advance(g, s),
        forall|u: int| lo <= u <= hi && #[trigger] busy(g, s, u) ==> advance(g, s) <= left(g, s, u),
    ensures
        work(g, forwarded(g, s), v, lo, hi, d) <= work(g, s, v, lo, hi, d),
        (exists|u: int| lo <= u <= hi && #[trigger] busy(g, s, u)) ==> work(
            g,
            forwarded(g, s),
            v,
            lo,
            hi,
            d,
        ) < work(g, s, v, lo, hi, d),
    decreases hi - lo,
{
    let t = forwarded(g, s);
    inside(g, v, lo, hi);
    if g[v].kind == Kind::Task {
        if busy(g, s, v) {
            assert(left(g, s, v) <= 127);
            assert(advance(g, s) <= left(g, s, v));
        }
    } else {
        children_in(g, v, lo, hi);
        let (l, h) = (g[v].low, g[v].high);
        forward_works(g, s, l, lo, v - 1, low_worth(g, v, hi, d));
        forward_works(g, s, h, v + 1, hi, d + 1);
        descends(g, v, lo, hi, l);
        descends(g, v, lo, hi, h);
        forward_phase(g, s, l);
        forward_phase(g, s, h);
        if exists|u: int| lo <= u <= hi && #[trigger] busy(g, s, u) {
            let u = choose|u: int| lo <= u <= hi && #[trigger] busy(g, s, u);
            assert(u != v);
        }
    }
}

/// A fast forward starts nothing and turns nothing idle.
pub proof fn forward_phase(g: Seq<Vertex>, s: Seq<i8>, u: int)
    requires
        1 <= u < g.len(),
        valid(g, s),
        1 <= advance(g, s),
        busy(g, s, u) ==> advance(g, s) <= left(g, s, u) && g[u].duration <= 127,
    ensures
        forwarded(g, s)[u] == s[u] || (busy(g, s, u) && (if closes(g, s, u) {
            forwarded(g, s)[u] == DONE
        } else {
            forwarded(g, s)[u] == s[u] + advance(g, s) && forwarded(g, s)[u] < g[u].duration
        })),
        (forwarded(g, s)[u] == IDLE) == (s[u] == IDLE),
{
}

/// The entries a move at an internal node touches keep the state valid.
proof fn move_valid(g: Seq<Vertex>, s: Seq<i8>, t: Seq<i8>, w: int)
    requires
        valid(g, s),
        1 <= g[w].low < w < g[w].high < g.len(),
        forall|u: int| 1 <= u < g.len() && (#[trigger] g[u]).kind == Kind::Task ==> g[u].duration >= 1,
        is_move(g, s, t, w),
    ensures
        valid(g, t),
{
    assert forall|u: int| 1 <= u < g.len() && (#[trigger] g[u]).kind == Kind::Task implies t[u]
        < g[u].duration by {
        assert(t[u] == s[u] || t[u] == 0 || t[u] == IDLE || t[u] == DONE);
    }
}

/// Every identifier of a net is a task of positive duration or has two
/// children on either side of it.
pub proof fn net_children(n: Net, w: int)
    requires
        n.wf(),
        1 <= w <= n.size(),
    ensures
        n.nodes[w].kind == Kind::Task ==> 1 <= n.nodes[w].duration <= 127,
        n.nodes[w].kind != Kind::Task ==> 1 <= n.nodes[w].low < w < n.nodes[w].high <= n.size(),
{
    descends(n.nodes, n.root, 1, n.size(), w);
}

pub proof fn net_durations(n: Net)
    requires
        n.wf(),
    ensures
        1 <= n.root <= n.size(),
        forall|u: int|
            1 <= u <= n.size() && (#[trigger] n.nodes[u]).kind == Kind::Task ==> 1
                <= n.nodes[u].duration <= 127,
{
    inside(n.nodes, n.root, 1, n.size());
    assert forall|u: int| 1 <= u <= n.size() && (#[trigger] n.nodes[u]).kind == Kind::Task implies 1
        <= n.nodes[u].duration <= 127 by {
        net_children(n, u);
    }
}

pub proof fn initial_valid(n: Net)
    requires
        n.wf(),
    ensures
        valid(n.nodes, n.initial()),
{
    net_durations(n);
}

/// The move of a state whose rank is two, three or five leads to a valid
/// state with less work left.
pub proof fn moved_works(n: Net, s: Seq<i8>)
    requires
        n.wf(),
        valid(n.nodes, s),
        rank(n.nodes, s) is Some,
        ({
            let r = rank(n.nodes, s).unwrap().0;
            r == 2 || r == 3 || r == 5
        }),
    ensures
        ({
            let (r, w) = rank(n.nodes, s)->0;
            let t = moved(n.nodes, s, r, w);
            valid(n.nodes, t) && n.work(t) < n.work(s)
        }),
{
    let (r, w) = rank(n.nodes, s)->0;
    let g = n.nodes;
    best_is_least(g, s, n.size());
    net_durations(n);
    net_children(n, w);
    if r == 5 {
        least_left_bounds(g, s, n.size());
        assert(busy(g, s, w));
        assert forall|u: int| 1 <= u <= n.size() && #[trigger] busy(g, s, u) implies advance(g, s)
            <= left(g, s, u) by {}
        forward_works(g, s, n.root, 1, n.size(), 0);
        let t = forwarded(g, s);
        assert forall|u: int| 1 <= u < g.len() && (#[trigger] g[u]).kind == Kind::Task implies t[u]
            < g[u].duration by {
            forward_phase(g, s, u);
        }
    } else {
        let t = moved(g, s, r, w);
        move_valid(g, s, t, w);
        move_works(g, s, t, n.root, 1, n.size(), 0, w);
    }
}

/// Either branch of a choice or a draw leads to a valid state with less work
/// left.
pub proof fn branch_works(n: Net, s: Seq<i8>)
    requires
        n.wf(),
        valid(n.nodes, s),
        rank(n.nodes, s) is Some,
        ({
            let r = rank(n.nodes, s).unwrap().0;
            r == 1 || r == 4
        }),
    ensures
        ({
            let w = rank(n.nodes, s).unwrap().1;
            let a = started(s, n.nodes[w].low);
            let b = started(s, n.nodes[w].high);
            &&& valid(n.nodes, a) && n.work(a) < n.work(s)
            &&& valid(n.nodes, b) && n.work(b) < n.work(s)
        }),
{
    let (r, w) = rank(n.nodes, s)->0;
    let g = n.nodes;
    best_is_least(g, s, n.size());
    net_durations(n);
    net_children(n, w);
    let a = started(s, g[w].low);
    let b = started(s, g[w].high);
    move_valid(g, s, a, w);
    move_valid(g, s, b, w);
    move_works(g, s, a, n.root, 1, n.size(), 0, w);
    move_works(g, s, b, n.root, 1, n.size(), 0, w);
}

} // verus!
