//! The clocks of the emitted model.
//!
//! The model keeps one variable per node, and a fast forward advances every
//! running node by the step, internal nodes as well as tasks. A variable has a
//! range, so every sum is clamped to the top of it. The ranges are wide enough:
//! on every state a run of the model reaches, the clamp changes nothing.

use vstd::prelude::*;
use crate::num::Number;
use crate::prism::{time_v, times_facts, times_v, top_v};
use crate::progress::{children_in, descends, inside, net_children, net_durations};
use crate::semantics::{
    advance, best_is_least, busy, closes, forwarded, hands_over, lowered, moved, psi, raised, rank,
    spans, started, valid, Net, Vertex,
};
use crate::state::{DONE, IDLE};
use crate::strategy::{
    all_idle, branch_coherent, coherent, coherent_move, forwards, initial_coherent, moved_coherent,
    rank_five_forwards,
};
use crate::tree::{Kind, Tree};

verus! {

// ---------------------------------------------------------------------------
// the model
// ---------------------------------------------------------------------------

/// The state a valuation of the model stands for: the phase of an internal node,
/// and the progress of a task.
pub open spec fn plain(g: Seq<Vertex>, e: Seq<int>) -> Seq<i8> {
    Seq::new(
        e.len(),
        |u: int| if e[u] >= 0 && g[u].kind != Kind::Task { 0i8 } else { e[u] as i8 },
    )
}

/// The top of the range of a variable.
pub open spec fn top(n: Net, u: int) -> int {
    if n.nodes[u].kind == Kind::Task {
        n.nodes[u].duration - 1
    } else {
        time_v(n, u)
    }
}

pub open spec fn least(a: int, b: int) -> int {
    if a <= b {
        a
    } else {
        b
    }
}

/// The fast forward: a closer is done, every other running node advances by the
/// step, within its range.
pub open spec fn ticked(n: Net, e: Seq<int>) -> Seq<int> {
    let (g, s) = (n.nodes, plain(n.nodes, e));
    Seq::new(
        e.len(),
        |u: int|
            if !(1 <= u < g.len()) || e[u] < 0 {
                e[u]
            } else if closes(g, s, u) {
                DONE as int
            } else {
                least(e[u] + advance(g, s), top(n, u))
            },
    )
}

/// What a command makes of a valuation, the branch of a choice or of a draw left
/// open.
pub open spec fn command(n: Net, e: Seq<int>, f: Seq<int>) -> bool {
    let g = n.nodes;
    let s = plain(g, e);
    match rank(g, s) {
        None => f == e,
        Some(b) => {
            let (r, w) = b;
            let (l, h) = (g[w].low, g[w].high);
            if r == 1 || r == 4 {
                f == e.update(l, 0) || f == e.update(h, 0)
            } else if r == 2 {
                f == if g[w].kind == Kind::Parallel {
                    e.update(l, 0).update(h, 0)
                } else {
                    e.update(l, 0)
                }
            } else if r == 3 {
                f == if hands_over(g, s, w) {
                    e.update(l, IDLE as int).update(h, 0)
                } else {
                    e.update(l, IDLE as int).update(h, IDLE as int).update(w, DONE as int)
                }
            } else {
                f == ticked(n, e)
            }
        },
    }
}

/// The valuation the model starts from.
pub open spec fn clocks_begin(n: Net) -> Seq<int> {
    Seq::new(n.nodes.len(), |u: int| if u == n.root { 0int } else { IDLE as int })
}

/// A run of the model.
pub open spec fn model_run(n: Net, run: Seq<Seq<int>>) -> bool {
    &&& run.len() > 0
    &&& run[0] == clocks_begin(n)
    &&& forall|i: int| 0 < i < run.len() ==> command(n, run[i - 1], #[trigger] run[i])
}

// ---------------------------------------------------------------------------
// what the clocks keep
// ---------------------------------------------------------------------------

/// The bound on the progress of the root of a subtree.
pub open spec fn limit(g: Seq<Vertex>, v: int, lo: int, hi: int) -> int {
    times_v(g, v, lo, hi)[v - lo]
}

/// A running node has run no longer than its branches account for.
pub open spec fn clocked(g: Seq<Vertex>, e: Seq<int>, v: int, lo: int, hi: int) -> bool
    decreases hi - lo,
{
    if e[v] < 0 || g[v].kind == Kind::Task || !(lo < v < hi) {
        true
    } else {
        let (a, b) = (e[g[v].low], e[g[v].high]);
        let x = limit(g, g[v].low, lo, v - 1);
        let y = limit(g, g[v].high, v + 1, hi);
        &&& clocked(g, e, g[v].low, lo, v - 1)
        &&& clocked(g, e, g[v].high, v + 1, hi)
        &&& a == IDLE && b == IDLE ==> e[v] == 0
        &&& a >= 0 ==> e[v] <= a
        &&& b >= 0 ==> e[v] <= b + if g[v].kind == Kind::Sequence { x } else { 0 }
        &&& match g[v].kind {
            Kind::Sequence => {
                &&& a == DONE ==> e[v] <= x
                &&& b == DONE ==> e[v] <= x + y
            },
            Kind::Parallel => a == DONE && b == DONE ==> e[v] <= x || e[v] <= y,
            _ => {
                &&& a == DONE ==> e[v] <= x
                &&& b == DONE ==> e[v] <= y
            },
        }
    }
}

/// The clocks of a state, and the state they show.
pub open spec fn shown(g: Seq<Vertex>, e: Seq<int>) -> bool {
    &&& e.len() == g.len()
    &&& forall|u: int| 0 <= u < e.len() ==> #[trigger] e[u] >= DONE
    &&& forall|u: int|
        1 <= u < e.len() && (#[trigger] g[u]).kind == Kind::Task ==> e[u] < g[u].duration <= 127
}

/// What holds of every valuation a run reaches.
pub open spec fn tame(n: Net, e: Seq<int>) -> bool {
    let g = n.nodes;
    &&& shown(g, e)
    &&& n.coherent(plain(g, e))
    &&& clocked(g, e, n.root, 1, n.size())
}

pub proof fn plain_facts(n: Net, e: Seq<int>)
    requires
        n.wf(),
        tame(n, e),
    ensures
        valid(n.nodes, plain(n.nodes, e)),
        forall|u: int|
            1 <= u < e.len() ==> {
                let s = #[trigger] plain(n.nodes, e)[u];
                &&& (s >= 0) == (e[u] >= 0)
                &&& s < 0 ==> s == e[u]
                &&& n.nodes[u].kind == Kind::Task ==> s == e[u]
                &&& n.nodes[u].kind != Kind::Task && s >= 0 ==> s == 0
            },
{
    net_durations(n);
    let (g, s) = (n.nodes, plain(n.nodes, e));
    assert forall|u: int| 1 <= u < e.len() implies {
        let x = #[trigger] plain(g, e)[u];
        &&& (x >= 0) == (e[u] >= 0)
        &&& x < 0 ==> x == e[u]
        &&& g[u].kind == Kind::Task ==> x == e[u]
        &&& g[u].kind != Kind::Task && x >= 0 ==> x == 0
    } by {
        assert(e[u] >= DONE);
        if g[u].kind == Kind::Task {
            assert(e[u] < g[u].duration <= 127);
        }
    }
    assert forall|u: int| 1 <= u < g.len() && (#[trigger] g[u]).kind == Kind::Task implies s[u]
        < g[u].duration by {
        assert(plain(g, e)[u] == e[u]);
    }
}

/// The tops of the two subtrees of a node, and of the node.
proof fn limits(g: Seq<Vertex>, v: int, lo: int, hi: int)
    requires
        spans(g, v, lo, hi),
    ensures
        limit(g, v, lo, hi) >= 0,
        g[v].kind == Kind::Task ==> limit(g, v, lo, hi) == g[v].duration,
        g[v].kind != Kind::Task ==> ({
            let x = limit(g, g[v].low, lo, v - 1);
            let y = limit(g, g[v].high, v + 1, hi);
            &&& x >= 0
            &&& y >= 0
            &&& limit(g, v, lo, hi) == if g[v].kind == Kind::Sequence {
                x + y
            } else if x >= y {
                x
            } else {
                y
            }
        }),
{
    times_facts(g, v, lo, hi);
    inside(g, v, lo, hi);
    if g[v].kind != Kind::Task {
        children_in(g, v, lo, hi);
        times_facts(g, g[v].low, lo, v - 1);
        times_facts(g, g[v].high, v + 1, hi);
        assert(times_v(g, g[v].low, lo, v - 1)[g[v].low - lo] >= 0);
        assert(times_v(g, g[v].high, v + 1, hi)[g[v].high - (v + 1)] >= 0);
    }
    assert(times_v(g, v, lo, hi)[v - lo] >= 0);
}

/// A running node is within its bound.
proof fn within(g: Seq<Vertex>, e: Seq<int>, v: int, lo: int, hi: int)
    requires
        spans(g, v, lo, hi),
        1 <= lo <= hi < g.len(),
        shown(g, e),
        coherent(g, plain(g, e), v, lo, hi),
        clocked(g, e, v, lo, hi),
        e[v] >= 0,
    ensures
        e[v] <= limit(g, v, lo, hi),
    decreases hi - lo,
{
    limits(g, v, lo, hi);
    inside(g, v, lo, hi);
    let s = plain(g, e);
    if g[v].kind != Kind::Task {
        children_in(g, v, lo, hi);
        let (l, h) = (g[v].low, g[v].high);
        assert(s[v] == 0);
        assert(e[l] >= DONE && e[h] >= DONE);
        phase(g, e, l);
        phase(g, e, h);
        if e[l] >= 0 {
            within(g, e, l, lo, v - 1);
        }
        if e[h] >= 0 {
            within(g, e, h, v + 1, hi);
        }
    }
}

/// The phase of a node shows in the state.
proof fn phase(g: Seq<Vertex>, e: Seq<int>, u: int)
    requires
        1 <= u < g.len(),
        e.len() == g.len(),
        e[u] >= DONE,
        g[u].kind == Kind::Task ==> e[u] < g[u].duration <= 127,
    ensures
        (plain(g, e)[u] >= 0) == (e[u] >= 0),
        e[u] < 0 ==> plain(g, e)[u] == e[u],
        g[u].kind == Kind::Task ==> plain(g, e)[u] == e[u],
{
}

/// Only the subtree matters.
proof fn clocked_frame(g: Seq<Vertex>, e: Seq<int>, f: Seq<int>, v: int, lo: int, hi: int)
    requires
        spans(g, v, lo, hi),
        forall|i: int| lo <= i <= hi ==> e[i] == f[i],
        clocked(g, e, v, lo, hi),
    ensures
        clocked(g, f, v, lo, hi),
    decreases hi - lo,
{
    inside(g, v, lo, hi);
    if g[v].kind != Kind::Task {
        children_in(g, v, lo, hi);
        if e[v] >= 0 {
            clocked_frame(g, e, f, g[v].low, lo, v - 1);
            clocked_frame(g, e, f, g[v].high, v + 1, hi);
        }
    }
}

/// A node that starts, nothing below it running.
proof fn clocked_start(g: Seq<Vertex>, e: Seq<int>, v: int, lo: int, hi: int)
    requires
        spans(g, v, lo, hi),
        e[v] == 0,
        forall|i: int| lo <= i <= hi && i != v ==> #[trigger] e[i] == IDLE,
    ensures
        clocked(g, e, v, lo, hi),
{
    if g[v].kind != Kind::Task {
        children_in(g, v, lo, hi);
        assert(clocked(g, e, g[v].low, lo, v - 1));
        assert(clocked(g, e, g[v].high, v + 1, hi));
    }
}

/// What a move at an internal node makes of the clocks.
pub open spec fn turns(g: Seq<Vertex>, e: Seq<int>, f: Seq<int>, w: int) -> bool {
    let s = plain(g, e);
    let (l, h) = (g[w].low, g[w].high);
    ||| psi(g, s, w) == 3 && f == if hands_over(g, s, w) {
        e.update(l, IDLE as int).update(h, 0)
    } else {
        e.update(l, IDLE as int).update(h, IDLE as int).update(w, DONE as int)
    }
    ||| psi(g, s, w) == 2 && f == if g[w].kind == Kind::Parallel {
        e.update(l, 0).update(h, 0)
    } else {
        e.update(l, 0)
    }
    ||| (psi(g, s, w) == 1 || psi(g, s, w) == 4) && (f == e.update(l, 0) || f == e.update(h, 0))
}

proof fn clocked_move(g: Seq<Vertex>, e: Seq<int>, f: Seq<int>, v: int, lo: int, hi: int, w: int)
    requires
        spans(g, v, lo, hi),
        1 <= lo <= w <= hi < g.len(),
        shown(g, e),
        g[w].kind != Kind::Task,
        turns(g, e, f, w),
        coherent(g, plain(g, e), v, lo, hi),
        plain(g, e)[v] >= 0,
        clocked(g, e, v, lo, hi),
    ensures
        clocked(g, f, v, lo, hi),
    decreases hi - lo,
{
    let s = plain(g, e);
    descends(g, v, lo, hi, w);
    children_in(g, v, lo, hi);
    let (l, h) = (g[v].low, g[v].high);
    limits(g, v, lo, hi);
    phase(g, e, v);
    phase(g, e, l);
    phase(g, e, h);
    inside(g, l, lo, v - 1);
    inside(g, h, v + 1, hi);
    assert(coherent(g, s, l, lo, v - 1) && coherent(g, s, h, v + 1, hi));
    let t = if psi(g, s, w) == 3 {
        raised(g, s, w)
    } else if psi(g, s, w) == 2 {
        lowered(g, s, w)
    } else {
        started(s, g[w].low)
    };
    if w == v {
        if f[v] >= 0 {
            if s[l] == IDLE {
                quiet(g, e, lo, v - 1);
            }
            if s[h] == IDLE {
                quiet(g, e, v + 1, hi);
            }
            if f[l] == 0 {
                clocked_start(g, f, l, lo, v - 1);
            }
            if f[h] == 0 {
                clocked_start(g, f, h, v + 1, hi);
            }
            assert(clocked(g, f, l, lo, v - 1));
            assert(clocked(g, f, h, v + 1, hi));
        }
    } else if w < v {
        descends(g, l, lo, v - 1, w);
        coherent_move(g, s, t, l, lo, v - 1, w);
        within(g, e, l, lo, v - 1);
        clocked_move(g, e, f, l, lo, v - 1, w);
        clocked_frame(g, e, f, h, v + 1, hi);
    } else {
        descends(g, h, v + 1, hi, w);
        coherent_move(g, s, t, h, v + 1, hi, w);
        within(g, e, h, v + 1, hi);
        clocked_move(g, e, f, h, v + 1, hi, w);
        clocked_frame(g, e, f, l, lo, v - 1);
    }
}

/// Where the state is idle the clocks are.
proof fn quiet(g: Seq<Vertex>, e: Seq<int>, lo: int, hi: int)
    requires
        1 <= lo,
        hi < g.len(),
        shown(g, e),
        all_idle(plain(g, e), lo, hi),
    ensures
        forall|i: int| lo <= i <= hi ==> #[trigger] e[i] == IDLE,
{
    assert forall|i: int| lo <= i <= hi implies #[trigger] e[i] == IDLE by {
        assert(plain(g, e)[i] == IDLE);
        assert(e[i] >= DONE);
        assert(g[i].kind == Kind::Task ==> e[i] < g[i].duration);
        phase(g, e, i);
    }
}

/// The fast forward without a clamp.
pub open spec fn advanced(g: Seq<Vertex>, e: Seq<int>) -> Seq<int> {
    let s = plain(g, e);
    Seq::new(
        e.len(),
        |u: int|
            if !(1 <= u < g.len()) || e[u] < 0 {
                e[u]
            } else if closes(g, s, u) {
                DONE as int
            } else {
                e[u] + advance(g, s)
            },
    )
}

/// Nothing runs below a node that does not.
proof fn resting(g: Seq<Vertex>, e: Seq<int>, v: int, lo: int, hi: int)
    requires
        1 <= lo <= v <= hi < g.len(),
        shown(g, e),
        coherent(g, plain(g, e), v, lo, hi),
        e[v] < 0,
    ensures
        forall|u: int| lo <= u <= hi ==> #[trigger] e[u] < 0,
{
    phase(g, e, v);
    if plain(g, e)[v] == IDLE {
        quiet(g, e, lo, hi);
    } else {
        quiet(g, e, lo, v - 1);
        quiet(g, e, v + 1, hi);
    }
}

proof fn clocked_tick(g: Seq<Vertex>, e: Seq<int>, v: int, lo: int, hi: int)
    requires
        spans(g, v, lo, hi),
        1 <= lo <= hi < g.len(),
        shown(g, e),
        forwards(g, plain(g, e)),
        coherent(g, plain(g, e), v, lo, hi),
        clocked(g, e, v, lo, hi),
        e[v] >= 0,
        forall|u: int|
            lo <= u <= hi ==> {
                let r = #[trigger] psi(g, plain(g, e), u);
                r <= 0 || r >= 5
            },
    ensures
        clocked(g, advanced(g, e), v, lo, hi),
        forall|u: int|
            lo <= u <= hi && #[trigger] e[u] >= 0 ==> e[u] + advance(g, plain(g, e)) <= times_v(
                g,
                v,
                lo,
                hi,
            )[u - lo],
    decreases hi - lo,
{
    let s = plain(g, e);
    let f = advanced(g, e);
    let t = advance(g, s);
    limits(g, v, lo, hi);
    inside(g, v, lo, hi);
    phase(g, e, v);
    if g[v].kind == Kind::Task {
        assert(busy(g, s, v));
    } else {
        children_in(g, v, lo, hi);
        let (l, h) = (g[v].low, g[v].high);
        phase(g, e, l);
        phase(g, e, h);
        assert(psi(g, s, v) <= 0 || psi(g, s, v) >= 5);
        assert(coherent(g, s, l, lo, v - 1) && coherent(g, s, h, v + 1, hi));
        limits(g, l, lo, v - 1);
        limits(g, h, v + 1, hi);
        if e[l] >= 0 {
            clocked_tick(g, e, l, lo, v - 1);
            assert(e[l] + t <= limit(g, l, lo, v - 1));
        } else {
            resting(g, e, l, lo, v - 1);
        }
        if e[h] >= 0 {
            clocked_tick(g, e, h, v + 1, hi);
            assert(e[h] + t <= limit(g, h, v + 1, hi));
        } else {
            resting(g, e, h, v + 1, hi);
        }
        if e[l] >= 0 && closes(g, s, l) {
            assert(e[l] + t == g[l].duration);
        }
        if e[h] >= 0 && closes(g, s, h) {
            assert(e[h] + t == g[h].duration);
        }
        assert(clocked(g, f, l, lo, v - 1));
        assert(clocked(g, f, h, v + 1, hi));
        assert(f[v] == e[v] + t);
        times_facts(g, l, lo, v - 1);
        times_facts(g, h, v + 1, hi);
        let (x, y) = (times_v(g, l, lo, v - 1), times_v(g, h, v + 1, hi));
        assert forall|u: int| lo <= u <= hi && #[trigger] e[u] >= 0 implies e[u] + t <= times_v(
            g,
            v,
            lo,
            hi,
        )[u - lo] by {
            if u < v {
                assert(times_v(g, v, lo, hi)[u - lo] == x[u - lo]);
            } else if u > v {
                assert(times_v(g, v, lo, hi)[u - lo] == y[u - (v + 1)]);
            }
        }
    }
}

/// On a valuation a run reaches, no variable leaves its range.
proof fn in_range(n: Net, e: Seq<int>)
    requires
        n.wf(),
        tame(n, e),
        rank(n.nodes, plain(n.nodes, e)) is Some,
        rank(n.nodes, plain(n.nodes, e)).unwrap().0 == 5,
    ensures
        forall|u: int|
            1 <= u <= n.size() && #[trigger] e[u] >= 0 && !closes(n.nodes, plain(n.nodes, e), u)
                ==> e[u] + advance(n.nodes, plain(n.nodes, e)) <= top(n, u),
        ticked(n, e) == advanced(n.nodes, e),
        clocked(n.nodes, ticked(n, e), n.root, 1, n.size()),
        forwards(n.nodes, plain(n.nodes, e)),
{
    let (g, s) = (n.nodes, plain(n.nodes, e));
    plain_facts(n, e);
    net_durations(n);
    best_is_least(g, s, n.size());
    rank_five_forwards(n, s);
    if e[n.root] < 0 {
        resting(g, e, n.root, 1, n.size());
        assert(busy(g, s, rank(g, s).unwrap().1));
        assert(e[rank(g, s).unwrap().1] < 0);
    }
    clocked_tick(g, e, n.root, 1, n.size());
    assert forall|u: int| 1 <= u <= n.size() && #[trigger] e[u] >= 0 && !closes(g, s, u) implies e[u]
        + advance(g, s) <= top(n, u) by {
        phase(g, e, u);
        if g[u].kind == Kind::Task {
            assert(busy(g, s, u));
        }
    }
    assert(ticked(n, e) =~= advanced(g, e));
}

/// A command makes of the state what the moves of the process do.
pub proof fn commands_move(n: Net, e: Seq<int>, f: Seq<int>)
    requires
        n.wf(),
        tame(n, e),
        command(n, e, f),
    ensures
        tame(n, f),
        match rank(n.nodes, plain(n.nodes, e)) {
            None => f == e,
            Some(b) => {
                let (g, s) = (n.nodes, plain(n.nodes, e));
                if b.0 == 1 || b.0 == 4 {
                    plain(g, f) == started(s, g[b.1].low) || plain(g, f) == started(s, g[b.1].high)
                } else {
                    plain(g, f) == moved(g, s, b.0, b.1)
                }
            },
        },
{
    let (g, s) = (n.nodes, plain(n.nodes, e));
    plain_facts(n, e);
    net_durations(n);
    if rank(g, s) is Some {
        let (r, w) = rank(g, s).unwrap();
        best_is_least(g, s, n.size());
        net_children(n, w);
        let (l, h) = (g[w].low, g[w].high);
        if r == 5 {
            in_range(n, e);
            moved_coherent(n, s);
            assert forall|u: int| 0 <= u < f.len() implies #[trigger] f[u] >= DONE by {
                assert(e[u] >= DONE);
            }
            assert forall|u: int| 1 <= u < f.len() && (#[trigger] g[u]).kind == Kind::Task implies f[u]
                < g[u].duration <= 127 by {
                phase(g, e, u);
                if e[u] >= 0 {
                    assert(busy(g, s, u));
                }
            }
            assert forall|u: int| 0 <= u < f.len() implies plain(g, f)[u] == #[trigger] forwarded(
                g,
                s,
            )[u] by {
                if 1 <= u {
                    phase(g, e, u);
                    phase(g, f, u);
                }
            }
            assert(plain(g, f) =~= forwarded(g, s));
        } else {
            assert(turns(g, e, f, w));
            if e[n.root] < 0 {
                resting(g, e, n.root, 1, n.size());
                let t = if r == 3 {
                    raised(g, s, w)
                } else if r == 2 {
                    lowered(g, s, w)
                } else {
                    started(s, l)
                };
                coherent_move(g, s, t, n.root, 1, n.size(), w);
            }
            phase(g, e, n.root);
            clocked_move(g, e, f, n.root, 1, n.size(), w);
            assert forall|u: int| 0 <= u < f.len() implies #[trigger] f[u] >= DONE by {
                assert(e[u] >= DONE);
            }
            assert forall|u: int| 1 <= u < f.len() && (#[trigger] g[u]).kind == Kind::Task implies f[u]
                < g[u].duration <= 127 by {}
            if r == 1 || r == 4 {
                branch_coherent(n, s);
                if f == e.update(l, 0) {
                    assert(plain(g, f) =~= started(s, l));
                } else {
                    assert(plain(g, f) =~= started(s, h));
                }
            } else {
                moved_coherent(n, s);
                assert(plain(g, f) =~= moved(g, s, r, w));
            }
        }
    }
}

pub proof fn runs_tame(n: Net, run: Seq<Seq<int>>)
    requires
        n.wf(),
        model_run(n, run),
    ensures
        tame(n, run.last()),
    decreases run.len(),
{
    if run.len() == 1 {
        let (g, e) = (n.nodes, run[0]);
        net_durations(n);
        initial_coherent(n);
        assert(plain(g, e) =~= n.initial());
        clocked_start(g, e, n.root, 1, n.size());
    } else {
        let before = run.drop_last();
        assert forall|i: int| 0 < i < before.len() implies command(
            n,
            before[i - 1],
            #[trigger] before[i],
        ) by {
            assert(command(n, run[i - 1], run[i]));
        }
        runs_tame(n, before);
        assert(command(n, run[run.len() - 2], run[run.len() - 1]));
        commands_move(n, before.last(), run.last());
    }
}

/// The clamp is a no-op on every state a run of the model reaches: a running
/// node that does not close has room for the step in the range of its variable.
pub proof fn clamp_changes_nothing<N: Number>(t: &Tree<N>, run: Seq<Seq<int>>, u: int)
    requires
        t.wf(),
        model_run(t.net(), run),
        rank(t.net().nodes, plain(t.net().nodes, run.last())) is Some,
        rank(t.net().nodes, plain(t.net().nodes, run.last())).unwrap().0 == 5,
        1 <= u <= t.net().size(),
        run.last()[u] >= 0,
        !closes(t.net().nodes, plain(t.net().nodes, run.last()), u),
    ensures
        run.last()[u] + advance(t.net().nodes, plain(t.net().nodes, run.last())) <= top_v(t, u),
{
    runs_tame(t.net(), run);
    in_range(t.net(), run.last());
    assert(run.last()[u] >= 0);
}

/// The model moves as the process does: whatever a command makes of a state a
/// run reaches, a move of the process makes of it.
pub proof fn model_follows_process<N: Number>(t: &Tree<N>, run: Seq<Seq<int>>, next: Seq<int>)
    requires
        t.wf(),
        model_run(t.net(), run),
        command(t.net(), run.last(), next),
    ensures
        ({
            let g = t.net().nodes;
            let (s, x) = (plain(g, run.last()), plain(g, next));
            match rank(g, s) {
                None => x == s,
                Some(b) => if b.0 == 1 || b.0 == 4 {
                    x == started(s, g[b.1].low) || x == started(s, g[b.1].high)
                } else {
                    x == moved(g, s, b.0, b.1)
                },
            }
        }),
{
    runs_tame(t.net(), run);
    commands_move(t.net(), run.last(), next);
}

} // verus!
