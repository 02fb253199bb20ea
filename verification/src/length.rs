//! How long a run can be.
//!
//! A node is entered once, handed over once at most and closed once, and a task
//! completes once. A fast forward completes one task at least, so what is left
//! to do falls with every move, whatever the durations are.

use vstd::prelude::*;
use crate::mdp::{follows, moves_of, runs};
use crate::num::Number;
use crate::progress::{
    branch_works, children_in, descends, forward_phase, initial_valid, inside, is_move, moved_works,
    net_children, net_durations,
};
use crate::semantics::{
    best_is_least, busy, closes, forwarded, least_left, left, rank, spans, valid, Vertex,
};
use crate::state::{DONE, IDLE};
use crate::strategy::{
    branch_coherent, coherent, coherent_move, forwards, initial_coherent, moved_coherent,
    rank_five_forwards,
};
use crate::tree::{Kind, Tree};

verus! {

/// The moves a subtree takes once it has been started, at most.
pub open spec fn whole(lo: int, hi: int) -> int {
    2 * (hi - lo + 1) - 1
}

/// The moves that are left in a subtree, at most: its first move, its hand-over
/// and its closing, and those of the children that are still to run.
pub open spec fn moves_left(g: Seq<Vertex>, s: Seq<i8>, v: int, lo: int, hi: int) -> int
    decreases hi - lo,
{
    if s[v] == DONE {
        0
    } else if s[v] == IDLE || g[v].kind == Kind::Task || !(lo < v < hi) {
        whole(lo, hi)
    } else {
        let (l, h) = (g[v].low, g[v].high);
        let low = moves_left(g, s, l, lo, v - 1);
        let high = moves_left(g, s, h, v + 1, hi);
        if s[l] == IDLE && s[h] == IDLE {
            whole(lo, hi)
        } else {
            match g[v].kind {
                Kind::Sequence => if s[h] != IDLE {
                    1 + high
                } else {
                    2 + low + whole(v + 1, hi)
                },
                Kind::Parallel => 1 + low + high,
                _ => if s[l] != IDLE {
                    1 + low
                } else {
                    1 + high
                },
            }
        }
    }
}

proof fn left_bounds(g: Seq<Vertex>, s: Seq<i8>, v: int, lo: int, hi: int)
    requires
        spans(g, v, lo, hi),
    ensures
        0 <= moves_left(g, s, v, lo, hi) <= whole(lo, hi),
    decreases hi - lo,
{
    inside(g, v, lo, hi);
    if g[v].kind != Kind::Task {
        children_in(g, v, lo, hi);
        left_bounds(g, s, g[v].low, lo, v - 1);
        left_bounds(g, s, g[v].high, v + 1, hi);
    }
}

proof fn left_frame(g: Seq<Vertex>, s: Seq<i8>, t: Seq<i8>, v: int, lo: int, hi: int)
    requires
        spans(g, v, lo, hi),
        forall|i: int| lo <= i <= hi ==> s[i] == t[i],
    ensures
        moves_left(g, s, v, lo, hi) == moves_left(g, t, v, lo, hi),
    decreases hi - lo,
{
    inside(g, v, lo, hi);
    if g[v].kind != Kind::Task {
        children_in(g, v, lo, hi);
        left_frame(g, s, t, g[v].low, lo, v - 1);
        left_frame(g, s, t, g[v].high, v + 1, hi);
    }
}

/// A move at an internal node leaves fewer.
proof fn left_move(g: Seq<Vertex>, s: Seq<i8>, t: Seq<i8>, v: int, lo: int, hi: int, w: int)
    requires
        spans(g, v, lo, hi),
        1 <= lo <= w <= hi < g.len(),
        s.len() == g.len(),
        g[w].kind != Kind::Task,
        is_move(g, s, t, w),
        coherent(g, s, v, lo, hi),
    ensures
        moves_left(g, t, v, lo, hi) < moves_left(g, s, v, lo, hi),
    decreases hi - lo,
{
    coherent_move(g, s, t, v, lo, hi, w);
    descends(g, v, lo, hi, w);
    children_in(g, v, lo, hi);
    let (l, h) = (g[v].low, g[v].high);
    inside(g, l, lo, v - 1);
    inside(g, h, v + 1, hi);
    left_bounds(g, s, l, lo, v - 1);
    left_bounds(g, s, h, v + 1, hi);
    left_bounds(g, t, l, lo, v - 1);
    left_bounds(g, t, h, v + 1, hi);
    assert(coherent(g, s, l, lo, v - 1) && coherent(g, s, h, v + 1, hi));
    if w == v {
    } else if w < v {
        descends(g, l, lo, v - 1, w);
        coherent_move(g, s, t, l, lo, v - 1, w);
        left_move(g, s, t, l, lo, v - 1, w);
        left_frame(g, s, t, h, v + 1, hi);
        assert(t[v] == s[v] && t[h] == s[h]);
    } else {
        descends(g, h, v + 1, hi, w);
        coherent_move(g, s, t, h, v + 1, hi, w);
        left_move(g, s, t, h, v + 1, hi, w);
        left_frame(g, s, t, l, lo, v - 1);
        assert(t[v] == s[v] && t[l] == s[l]);
    }
}

/// A fast forward leaves no more, and fewer where a task completes.
proof fn left_forward(g: Seq<Vertex>, s: Seq<i8>, v: int, lo: int, hi: int)
    requires
        spans(g, v, lo, hi),
        1 <= lo <= hi < g.len(),
        forwards(g, s),
        coherent(g, s, v, lo, hi),
    ensures
        moves_left(g, forwarded(g, s), v, lo, hi) <= moves_left(g, s, v, lo, hi),
        (exists|u: int| lo <= u <= hi && #[trigger] closes(g, s, u)) ==> moves_left(
            g,
            forwarded(g, s),
            v,
            lo,
            hi,
        ) < moves_left(g, s, v, lo, hi),
    decreases hi - lo,
{
    let t = forwarded(g, s);
    inside(g, v, lo, hi);
    forward_phase(g, s, v);
    if s[v] < 0 {
        assert forall|u: int| lo <= u <= hi implies !#[trigger] closes(g, s, u) && t[u] == s[u] by {
            assert(u != v ==> s[u] == IDLE);
        }
        left_frame(g, s, t, v, lo, hi);
    } else if g[v].kind != Kind::Task {
        children_in(g, v, lo, hi);
        let (l, h) = (g[v].low, g[v].high);
        inside(g, l, lo, v - 1);
        inside(g, h, v + 1, hi);
        forward_phase(g, s, l);
        forward_phase(g, s, h);
        left_forward(g, s, l, lo, v - 1);
        left_forward(g, s, h, v + 1, hi);
        left_bounds(g, t, l, lo, v - 1);
        left_bounds(g, t, h, v + 1, hi);
        if exists|u: int| lo <= u <= hi && #[trigger] closes(g, s, u) {
            let u = choose|u: int| lo <= u <= hi && #[trigger] closes(g, s, u);
            assert(u != v);
            if u < v {
                assert(s[l] != IDLE) by {
                    assert(s[u] >= 0);
                }
            } else {
                assert(s[h] != IDLE) by {
                    assert(s[u] >= 0);
                }
            }
        }
    }
}

/// A fast forward completes a task.
proof fn some_closes(g: Seq<Vertex>, s: Seq<i8>, n: int)
    requires
        0 <= n < g.len(),
        valid(g, s),
        exists|u: int| 1 <= u <= n && #[trigger] busy(g, s, u),
        forall|u: int| 1 <= u <= n && (#[trigger] g[u]).kind == Kind::Task ==> g[u].duration <= 127,
    ensures
        exists|u: int| 1 <= u <= n && #[trigger] busy(g, s, u) && left(g, s, u) == least_left(g, s, n),
    decreases n,
{
    if exists|u: int| 1 <= u <= n - 1 && #[trigger] busy(g, s, u) {
        some_closes(g, s, n - 1);
        let u = choose|u: int|
            1 <= u <= n - 1 && #[trigger] busy(g, s, u) && left(g, s, u) == least_left(g, s, n - 1);
        if busy(g, s, n) && left(g, s, n) < least_left(g, s, n - 1) {
            assert(busy(g, s, n));
        } else {
            assert(busy(g, s, u));
        }
    } else {
        none_left(g, s, n - 1);
        assert(busy(g, s, n));
        assert(left(g, s, n) <= 127);
    }
}

proof fn none_left(g: Seq<Vertex>, s: Seq<i8>, n: int)
    requires
        forall|u: int| 1 <= u <= n ==> !#[trigger] busy(g, s, u),
    ensures
        least_left(g, s, n) == 0x7fff_ffff,
    decreases n,
{
    if n > 0 {
        none_left(g, s, n - 1);
    }
}

/// A move of the process leaves fewer moves, and a coherent state.
proof fn step_left<N: Number>(t: &Tree<N>, s: Seq<i8>, x: Seq<i8>)
    requires
        t.wf(),
        valid(t.net().nodes, s),
        t.net().coherent(s),
        follows(t, s, x),
    ensures
        valid(t.net().nodes, x),
        t.net().coherent(x),
        moves_left(t.net().nodes, x, t.net().root, 1, t.net().size()) < moves_left(
            t.net().nodes,
            s,
            t.net().root,
            1,
            t.net().size(),
        ),
{
    let n = t.net();
    let g = n.nodes;
    let q = choose|q: int| 0 <= q < moves_of(t, s).len() && #[trigger] moves_of(t, s)[q].0 == x;
    assert(moves_of(t, s)[q].0 == x);
    let (r, w) = rank(g, s).unwrap();
    best_is_least(g, s, n.size());
    net_durations(n);
    net_children(n, w);
    if r == 5 {
        moved_works(n, s);
        moved_coherent(n, s);
        rank_five_forwards(n, s);
        assert(busy(g, s, w));
        some_closes(g, s, n.size());
        let u = choose|u: int|
            1 <= u <= n.size() && #[trigger] busy(g, s, u) && left(g, s, u) == least_left(
                g,
                s,
                n.size(),
            );
        assert(closes(g, s, u));
        left_forward(g, s, n.root, 1, n.size());
    } else {
        if r == 1 || r == 4 {
            branch_works(n, s);
            branch_coherent(n, s);
        } else {
            moved_works(n, s);
            moved_coherent(n, s);
        }
        assert(is_move(g, s, x, w));
        left_move(g, s, x, n.root, 1, n.size(), w);
    }
}

proof fn run_left<N: Number>(t: &Tree<N>, p: Seq<Seq<i8>>)
    requires
        t.wf(),
        runs(t, p),
    ensures
        valid(t.net().nodes, p.last()),
        t.net().coherent(p.last()),
        p.len() - 1 + moves_left(t.net().nodes, p.last(), t.net().root, 1, t.net().size()) <= whole(
            1,
            t.net().size(),
        ),
    decreases p.len(),
{
    let n = t.net();
    if p.len() == 1 {
        initial_valid(n);
        initial_coherent(n);
        left_bounds(n.nodes, p[0], n.root, 1, n.size());
    } else {
        let q = p.drop_last();
        assert forall|i: int| 0 <= i < q.len() - 1 implies #[trigger] follows(t, q[i], q[i + 1]) by {
            assert(follows(t, p[i], p[i + 1]));
        }
        run_left(t, q);
        assert(follows(t, p[p.len() - 2], p[p.len() - 2 + 1]));
        step_left(t, q.last(), p.last());
    }
}

/// A run takes fewer than two transitions for each node of the process, so four
/// of them bound it, whatever the durations of the tasks are.
pub proof fn runs_are_short<N: Number>(t: &Tree<N>, p: Seq<Seq<i8>>)
    requires
        t.wf(),
        runs(t, p),
    ensures
        p.len() - 1 < 2 * t.n_nodes,
        p.len() - 1 <= 4 * t.n_nodes,
{
    let n = t.net();
    run_left(t, p);
    left_bounds(n.nodes, p.last(), n.root, 1, n.size());
}

} // verus!
