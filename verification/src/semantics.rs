//! The transition relation of a process, as mathematics.
//!
//! A process is a binary tree whose nodes are numbered left to right from one:
//! the subtree of a node is an interval of identifiers, the low child's part
//! below the node and the high child's part above it. A state maps every
//! identifier to `IDLE`, to `DONE`, or to an elapsed progress. Five triggers
//! rank the moves of a state, and the witness of the best rank is the node of
//! least identifier that holds it.

use vstd::prelude::*;
use crate::state::{DONE, IDLE};
use crate::tree::Kind;

verus! {

/// What the transition relation reads of a node.
pub struct Vertex {
    pub kind: Kind,
    pub low: int,
    pub high: int,
    pub duration: int,
}

/// The shape of a process: its nodes, the one of identifier zero being a
/// filler, and its root.
pub struct Net {
    pub nodes: Seq<Vertex>,
    pub root: int,
}

/// `v` is the root of a subtree that holds exactly the identifiers from `lo`
/// to `hi`, numbered left to right, whose tasks last between one and 127.
pub open spec fn spans(g: Seq<Vertex>, v: int, lo: int, hi: int) -> bool
    decreases hi - lo,
{
    if g[v].kind == Kind::Task {
        lo == v && v == hi && 1 <= g[v].duration <= 127
    } else {
        &&& lo < v < hi
        &&& spans(g, g[v].low, lo, v - 1)
        &&& spans(g, g[v].high, v + 1, hi)
    }
}

impl Net {
    /// The number of nodes.
    pub open spec fn size(self) -> int {
        self.nodes.len() - 1
    }

    pub open spec fn wf(self) -> bool {
        &&& 1 <= self.size() < u32::MAX
        &&& spans(self.nodes, self.root, 1, self.size())
    }

    /// The root running, everything else idle.
    pub open spec fn initial(self) -> Seq<i8> {
        Seq::new(self.nodes.len(), |i: int| if i == self.root { 0i8 } else { IDLE })
    }
}

/// A state of the net: one entry per node and one filler, no task at or past
/// its duration.
pub open spec fn valid(g: Seq<Vertex>, s: Seq<i8>) -> bool {
    &&& s.len() == g.len()
    &&& forall|u: int|
        1 <= u < g.len() && (#[trigger] g[u]).kind == Kind::Task ==> s[u] < g[u].duration
}

// ---------------------------------------------------------------------------
// triggers, rank and witness
// ---------------------------------------------------------------------------

pub open spec fn both(g: Seq<Vertex>, s: Seq<i8>, v: int, x: i8) -> bool {
    s[g[v].low] == x && s[g[v].high] == x
}

pub open spec fn either(g: Seq<Vertex>, s: Seq<i8>, v: int, x: i8) -> bool {
    s[g[v].low] == x || s[g[v].high] == x
}

/// The trigger that holds at a node, from one to five, or zero:
/// one a choice to decide, two a descent, three a hand-over or a closing,
/// four a draw, five a task under way.
pub open spec fn psi(g: Seq<Vertex>, s: Seq<i8>, v: int) -> int {
    let ready = s[v] >= 0 && both(g, s, v, IDLE);
    match g[v].kind {
        Kind::Task => if 0 <= s[v] < g[v].duration { 5 } else { 0 },
        Kind::Parallel => if both(g, s, v, DONE) { 3 } else if ready { 2 } else { 0 },
        Kind::Sequence => if either(g, s, v, DONE) { 3 } else if ready { 2 } else { 0 },
        Kind::Choice => if either(g, s, v, DONE) { 3 } else if ready { 1 } else { 0 },
        Kind::Nature => if either(g, s, v, DONE) { 3 } else if ready { 4 } else { 0 },
    }
}

/// The least trigger that holds at an identifier from one to `n`, with the
/// least identifier that holds it.
pub open spec fn best(g: Seq<Vertex>, s: Seq<i8>, n: int) -> Option<(int, int)>
    decreases n,
{
    if n <= 0 {
        None
    } else {
        let r = psi(g, s, n);
        match best(g, s, n - 1) {
            None => if r > 0 { Some((r, n)) } else { None },
            Some(b) => if 0 < r < b.0 { Some((r, n)) } else { Some(b) },
        }
    }
}

/// The rank and the witness of a state, none where no trigger holds.
pub open spec fn rank(g: Seq<Vertex>, s: Seq<i8>) -> Option<(int, int)> {
    best(g, s, g.len() - 1)
}

/// What [`best`] picks: no smaller trigger holds anywhere, nor the same one at
/// a smaller identifier.
pub proof fn best_is_least(g: Seq<Vertex>, s: Seq<i8>, n: int)
    ensures
        match best(g, s, n) {
            None => forall|v: int| 1 <= v <= n ==> #[trigger] psi(g, s, v) <= 0,
            Some(b) => {
                &&& 1 <= b.0 <= 5
                &&& 1 <= b.1 <= n
                &&& psi(g, s, b.1) == b.0
                &&& forall|v: int|
                    1 <= v <= n ==> (#[trigger] psi(g, s, v) <= 0 || psi(g, s, v) >= b.0)
                &&& forall|v: int| 1 <= v < b.1 ==> #[trigger] psi(g, s, v) != b.0
            },
        },
    decreases n,
{
    if n > 0 {
        best_is_least(g, s, n - 1);
    }
}

// ---------------------------------------------------------------------------
// moves
// ---------------------------------------------------------------------------

/// A node starts.
pub open spec fn started(s: Seq<i8>, v: int) -> Seq<i8> {
    s.update(v, 0)
}

/// The descent: the low child of a sequence, both children of a parallel node.
pub open spec fn lowered(g: Seq<Vertex>, s: Seq<i8>, v: int) -> Seq<i8> {
    if g[v].kind == Kind::Parallel {
        started(started(s, g[v].low), g[v].high)
    } else {
        started(s, g[v].low)
    }
}

/// A sequence whose first region is done and whose second has not begun.
pub open spec fn hands_over(g: Seq<Vertex>, s: Seq<i8>, v: int) -> bool {
    g[v].kind == Kind::Sequence && s[g[v].low] == DONE && s[g[v].high] == IDLE
}

/// The hand-over of a sequence, or the closing of a node above its branches.
pub open spec fn raised(g: Seq<Vertex>, s: Seq<i8>, v: int) -> Seq<i8> {
    if hands_over(g, s, v) {
        s.update(g[v].low, IDLE).update(g[v].high, 0)
    } else {
        s.update(g[v].low, IDLE).update(g[v].high, IDLE).update(v, DONE)
    }
}

pub open spec fn busy(g: Seq<Vertex>, s: Seq<i8>, u: int) -> bool {
    g[u].kind == Kind::Task && s[u] >= 0
}

/// The time a running task still needs.
pub open spec fn left(g: Seq<Vertex>, s: Seq<i8>, u: int) -> int {
    g[u].duration - s[u]
}

/// The least time to a completion over the running tasks from one to `n`.
pub open spec fn least_left(g: Seq<Vertex>, s: Seq<i8>, n: int) -> int
    decreases n,
{
    if n <= 0 {
        0x7fff_ffff
    } else {
        let m = least_left(g, s, n - 1);
        if busy(g, s, n) && left(g, s, n) < m { left(g, s, n) } else { m }
    }
}

/// The time a fast forward advances.
pub open spec fn advance(g: Seq<Vertex>, s: Seq<i8>) -> int {
    least_left(g, s, g.len() - 1)
}

/// The task completes in the fast forward out of this state.
pub open spec fn closes(g: Seq<Vertex>, s: Seq<i8>, u: int) -> bool {
    busy(g, s, u) && left(g, s, u) == advance(g, s)
}

/// The fast forward: the closers are done, every other running task advances.
pub open spec fn forwarded(g: Seq<Vertex>, s: Seq<i8>) -> Seq<i8> {
    Seq::new(
        s.len(),
        |u: int|
            if 1 <= u < g.len() && busy(g, s, u) {
                if closes(g, s, u) { DONE } else { (s[u] + advance(g, s)) as i8 }
            } else {
                s[u]
            },
    )
}

/// The move of rank two, three or five.
pub open spec fn moved(g: Seq<Vertex>, s: Seq<i8>, r: int, w: int) -> Seq<i8> {
    if r == 2 {
        lowered(g, s, w)
    } else if r == 3 {
        raised(g, s, w)
    } else {
        forwarded(g, s)
    }
}

} // verus!
