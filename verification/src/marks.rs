//! What the marks of the decisions remember.
//!
//! A state forgets a decision once its region closes, so two runs that decided
//! differently can meet again. No node is decided twice in a run, so the branch
//! taken at every node, written down once and never cleared, is the whole
//! history: two histories whose marks agree are the same.

use vstd::prelude::*;
use crate::history::{
    extended, extended_path, follow, leads, opening_facts, path, reply_facts, trail,
};
use crate::num::{zeros_v, Number};
use crate::progress::{
    branch_works, children_in, descends, forward_phase, initial_valid, inside, is_move, moved_works,
    net_children,
};
use crate::semantics::{
    best_is_least, both, forwarded, moved, psi, rank, spans, started, valid, Net, Vertex,
};
use crate::state::{forced, opening, paid, reply, stops, Leaf, IDLE};
use crate::strategy::{
    all_idle, branch_coherent, coherent, coherent_move, forwards, initial_coherent, moved_coherent,
    rank_five_forwards,
};
use crate::tree::{Kind, Tree};

verus! {

// ---------------------------------------------------------------------------
// no node is decided twice
// ---------------------------------------------------------------------------

pub open spec fn untouched(seen: Set<int>, lo: int, hi: int) -> bool {
    forall|i: int| lo <= i <= hi ==> !#[trigger] seen.contains(i)
}

/// Of the nodes decided before, none waits in this subtree to be started.
pub open spec fn unspent(g: Seq<Vertex>, s: Seq<i8>, seen: Set<int>, v: int, lo: int, hi: int) -> bool
    decreases hi - lo,
{
    if s[v] < 0 || g[v].kind == Kind::Task || !(lo < v < hi) {
        true
    } else if both(g, s, v, IDLE) {
        untouched(seen, lo, hi)
    } else {
        &&& unspent(g, s, seen, g[v].low, lo, v - 1)
        &&& unspent(g, s, seen, g[v].high, v + 1, hi)
        &&& g[v].kind == Kind::Sequence && s[g[v].low] != IDLE ==> untouched(seen, v + 1, hi)
    }
}

proof fn unspent_frame(
    g: Seq<Vertex>,
    s: Seq<i8>,
    t: Seq<i8>,
    seen: Set<int>,
    more: Set<int>,
    v: int,
    lo: int,
    hi: int,
)
    requires
        spans(g, v, lo, hi),
        forall|i: int| lo <= i <= hi ==> s[i] == t[i],
        forall|i: int| lo <= i <= hi && #[trigger] more.contains(i) ==> seen.contains(i),
        unspent(g, s, seen, v, lo, hi),
    ensures
        unspent(g, t, more, v, lo, hi),
    decreases hi - lo,
{
    inside(g, v, lo, hi);
    if g[v].kind != Kind::Task {
        children_in(g, v, lo, hi);
        if s[v] >= 0 && !both(g, s, v, IDLE) {
            unspent_frame(g, s, t, seen, more, g[v].low, lo, v - 1);
            unspent_frame(g, s, t, seen, more, g[v].high, v + 1, hi);
        }
    }
}

/// A node that starts, nothing below it running or decided before.
proof fn unspent_start(g: Seq<Vertex>, s: Seq<i8>, seen: Set<int>, v: int, lo: int, hi: int)
    requires
        spans(g, v, lo, hi),
        all_idle(s, lo, v - 1),
        all_idle(s, v + 1, hi),
        untouched(seen, lo, hi),
    ensures
        unspent(g, s, seen, v, lo, hi),
{
    if g[v].kind != Kind::Task {
        children_in(g, v, lo, hi);
        assert(s[g[v].low] == IDLE && s[g[v].high] == IDLE);
    }
}

/// The nodes decided once `w` has moved.
pub open spec fn with(g: Seq<Vertex>, s: Seq<i8>, seen: Set<int>, w: int) -> Set<int> {
    if psi(g, s, w) == 1 || psi(g, s, w) == 4 {
        seen.insert(w)
    } else {
        seen
    }
}

proof fn unspent_move(
    g: Seq<Vertex>,
    s: Seq<i8>,
    t: Seq<i8>,
    seen: Set<int>,
    v: int,
    lo: int,
    hi: int,
    w: int,
)
    requires
        spans(g, v, lo, hi),
        1 <= lo <= w <= hi < g.len(),
        s.len() == g.len(),
        g[w].kind != Kind::Task,
        is_move(g, s, t, w),
        coherent(g, s, v, lo, hi),
        unspent(g, s, seen, v, lo, hi),
    ensures
        unspent(g, t, with(g, s, seen, w), v, lo, hi),
        psi(g, s, w) == 1 || psi(g, s, w) == 4 ==> !seen.contains(w),
    decreases hi - lo,
{
    let more = with(g, s, seen, w);
    coherent_move(g, s, t, v, lo, hi, w);
    descends(g, v, lo, hi, w);
    children_in(g, v, lo, hi);
    let (l, h) = (g[v].low, g[v].high);
    inside(g, l, lo, v - 1);
    inside(g, h, v + 1, hi);
    if w == v {
        assert(coherent(g, s, l, lo, v - 1) && coherent(g, s, h, v + 1, hi));
        if t[v] >= 0 {
            if s[l] == IDLE {
                assert forall|i: int| lo <= i <= v - 1 && i != l implies #[trigger] t[i] == IDLE by {
                    assert(s[i] == IDLE);
                }
            }
            if s[h] == IDLE {
                assert forall|i: int| v + 1 <= i <= hi && i != h implies #[trigger] t[i] == IDLE by {
                    assert(s[i] == IDLE);
                }
            }
            if psi(g, s, w) != 3 {
                assert(untouched(seen, lo, hi));
            }
            if t[l] >= 0 {
                unspent_start(g, t, more, l, lo, v - 1);
            }
            if t[h] >= 0 {
                unspent_start(g, t, more, h, v + 1, hi);
            }
            assert(unspent(g, t, more, l, lo, v - 1));
            assert(unspent(g, t, more, h, v + 1, hi));
            assert(!both(g, t, v, IDLE));
            assert(unspent(g, t, more, v, lo, hi));
        }
        assert(unspent(g, t, more, v, lo, hi));
    } else if w < v {
        descends(g, l, lo, v - 1, w);
        coherent_move(g, s, t, l, lo, v - 1, w);
        unspent_move(g, s, t, seen, l, lo, v - 1, w);
        unspent_frame(g, s, t, seen, more, h, v + 1, hi);
        assert(t[l] != IDLE);
        assert(unspent(g, t, more, v, lo, hi));
    } else {
        descends(g, h, v + 1, hi, w);
        coherent_move(g, s, t, h, v + 1, hi, w);
        unspent_move(g, s, t, seen, h, v + 1, hi, w);
        unspent_frame(g, s, t, seen, more, l, lo, v - 1);
        assert(t[h] != IDLE);
        assert(unspent(g, t, more, v, lo, hi));
    }
}

proof fn unspent_forward(g: Seq<Vertex>, s: Seq<i8>, seen: Set<int>, v: int, lo: int, hi: int)
    requires
        spans(g, v, lo, hi),
        1 <= lo <= hi < g.len(),
        forwards(g, s),
        unspent(g, s, seen, v, lo, hi),
    ensures
        unspent(g, forwarded(g, s), seen, v, lo, hi),
    decreases hi - lo,
{
    let t = forwarded(g, s);
    inside(g, v, lo, hi);
    forward_phase(g, s, v);
    if g[v].kind != Kind::Task {
        children_in(g, v, lo, hi);
        forward_phase(g, s, g[v].low);
        forward_phase(g, s, g[v].high);
        if s[v] >= 0 && !both(g, s, v, IDLE) {
            unspent_forward(g, s, seen, g[v].low, lo, v - 1);
            unspent_forward(g, s, seen, g[v].high, v + 1, hi);
        }
    }
}

impl Net {
    /// A state of a run in which these nodes have been decided.
    pub open spec fn unspent(self, s: Seq<i8>, seen: Set<int>) -> bool {
        &&& valid(self.nodes, s)
        &&& self.coherent(s)
        &&& unspent(self.nodes, s, seen, self.root, 1, self.size())
    }

    /// `a` is a child of the choice or nature node `w`.
    pub open spec fn decides(self, w: int, a: u32) -> bool {
        &&& 1 <= w <= self.size()
        &&& self.nodes[w].kind == Kind::Choice || self.nodes[w].kind == Kind::Nature
        &&& a == self.nodes[w].low || a == self.nodes[w].high
    }

    /// `a` is a child of some choice or nature node.
    pub open spec fn offers(self, a: u32) -> bool {
        exists|w: int| self.decides(w, a)
    }
}

/// A child has one parent.
proof fn parent_once(g: Seq<Vertex>, v: int, lo: int, hi: int, w: int, x: int)
    requires
        spans(g, v, lo, hi),
        lo <= w <= hi,
        lo <= x <= hi,
        g[w].kind != Kind::Task,
        g[x].kind != Kind::Task,
        g[w].low == g[x].low || g[w].low == g[x].high || g[w].high == g[x].low || g[w].high
            == g[x].high,
    ensures
        w == x,
    decreases hi - lo,
{
    descends(g, v, lo, hi, w);
    descends(g, v, lo, hi, x);
    children_in(g, v, lo, hi);
    let (l, h) = (g[v].low, g[v].high);
    if w != v && w < v {
        descends(g, l, lo, v - 1, w);
    } else if w != v {
        descends(g, h, v + 1, hi, w);
    }
    if x != v && x < v {
        descends(g, l, lo, v - 1, x);
    } else if x != v {
        descends(g, h, v + 1, hi, x);
    }
    if w < v && x < v {
        parent_once(g, l, lo, v - 1, w, x);
    } else if w > v && x > v {
        parent_once(g, h, v + 1, hi, w, x);
    }
}

proof fn decider_once(n: Net, w: int, x: int, a: u32)
    requires
        n.wf(),
        n.decides(w, a),
        n.decides(x, a),
    ensures
        w == x,
{
    parent_once(n.nodes, n.root, 1, n.size(), w, x);
}

// ---------------------------------------------------------------------------
// runs
// ---------------------------------------------------------------------------

/// Where the moves that nothing decides lead from `s`.
pub open spec fn settled<N: Number>(t: &Tree<N>, s: Seq<i8>) -> Seq<i8>
    decreases t.net().work(s),
{
    let g = t.net().nodes;
    if !t.net().wf() || !valid(g, s) || rank(g, s) is None {
        s
    } else {
        let (r, w) = rank(g, s).unwrap();
        if r == 1 || r == 4 {
            s
        } else {
            proof {
                best_is_least(g, s, t.net().size());
                moved_works(t.net(), s);
            }
            settled(t, moved(g, s, r, w))
        }
    }
}

/// Where a run from `s` is once it has taken these branches, at choice and
/// nature nodes alike.
pub open spec fn walk<N: Number>(t: &Tree<N>, s: Seq<i8>, d: Seq<u32>) -> Option<Seq<i8>>
    decreases d.len(),
{
    let x = settled(t, s);
    if d.len() == 0 {
        Some(x)
    } else if rank(t.net().nodes, x) matches Some(b) && t.net().decides(b.1, d[0]) {
        walk(t, started(x, d[0] as int), d.skip(1))
    } else {
        None
    }
}

proof fn settled_facts<N: Number>(t: &Tree<N>, s: Seq<i8>, seen: Set<int>)
    requires
        t.wf(),
        t.net().unspent(s, seen),
    ensures
        t.net().unspent(settled(t, s), seen),
        settled(t, settled(t, s)) == settled(t, s),
        rank(t.net().nodes, settled(t, s)) matches Some(b) ==> b.0 == 1 || b.0 == 4,
    decreases t.net().work(s),
{
    let n = t.net();
    let g = n.nodes;
    if rank(g, s) is Some {
        let (r, w) = rank(g, s).unwrap();
        best_is_least(g, s, n.size());
        if r != 1 && r != 4 {
            moved_works(n, s);
            moved_coherent(n, s);
            if r == 5 {
                rank_five_forwards(n, s);
                unspent_forward(g, s, seen, n.root, 1, n.size());
            } else {
                unspent_move(g, s, moved(g, s, r, w), seen, n.root, 1, n.size(), w);
            }
            settled_facts(t, moved(g, s, r, w), seen);
        }
    }
}

/// The witness of a decision was not decided before, and is decided now.
proof fn decided<N: Number>(t: &Tree<N>, s: Seq<i8>, seen: Set<int>, a: u32)
    requires
        t.wf(),
        t.net().unspent(s, seen),
        rank(t.net().nodes, s) is Some,
        rank(t.net().nodes, s).unwrap().0 == 1 || rank(t.net().nodes, s).unwrap().0 == 4,
        t.net().decides(rank(t.net().nodes, s).unwrap().1, a),
    ensures
        !seen.contains(rank(t.net().nodes, s).unwrap().1),
        t.net().unspent(started(s, a as int), seen.insert(rank(t.net().nodes, s).unwrap().1)),
{
    let n = t.net();
    let (r, w) = rank(n.nodes, s).unwrap();
    best_is_least(n.nodes, s, n.size());
    branch_works(n, s);
    branch_coherent(n, s);
    unspent_move(n.nodes, s, started(s, a as int), seen, n.root, 1, n.size(), w);
}

/// A run decides no node it has decided, and none twice.
proof fn walk_fresh<N: Number>(t: &Tree<N>, s: Seq<i8>, seen: Set<int>, d: Seq<u32>)
    requires
        t.wf(),
        t.net().unspent(s, seen),
        walk(t, s, d) is Some,
    ensures
        forall|i: int, w: int|
            0 <= i < d.len() && #[trigger] t.net().decides(w, d[i]) ==> !seen.contains(w),
        forall|i: int, j: int, w: int|
            0 <= i < j < d.len() && #[trigger] t.net().decides(w, d[i])
                ==> !#[trigger] t.net().decides(w, d[j]),
        forall|i: int| 0 <= i < d.len() ==> t.net().offers(#[trigger] d[i]),
    decreases d.len(),
{
    let n = t.net();
    if d.len() > 0 {
        let x = settled(t, s);
        settled_facts(t, s, seen);
        let w = rank(n.nodes, x).unwrap().1;
        let rest = d.skip(1);
        decided(t, x, seen, d[0]);
        walk_fresh(t, started(x, d[0] as int), seen.insert(w), rest);
        assert forall|i: int| 0 <= i < d.len() implies n.offers(#[trigger] d[i]) by {
            if i == 0 {
                assert(n.decides(w, d[0]));
            } else {
                assert(rest[i - 1] == d[i]);
            }
        }
        assert forall|i: int, u: int| 0 <= i < d.len() && #[trigger] n.decides(u, d[i]) implies
            !seen.contains(u) by {
            if i == 0 {
                decider_once(n, u, w, d[0]);
            } else {
                assert(rest[i - 1] == d[i]);
            }
        }
        assert forall|i: int, j: int, u: int|
            0 <= i < j < d.len() && #[trigger] n.decides(u, d[i]) implies !#[trigger] n.decides(
            u,
            d[j],
        ) by {
            assert(rest[j - 1] == d[j]);
            if i == 0 {
                decider_once(n, u, w, d[0]);
            } else {
                assert(rest[i - 1] == d[i]);
            }
        }
    }
}

/// Two runs that take the same branches take them in the same order.
proof fn walks_agree<N: Number>(t: &Tree<N>, s: Seq<i8>, seen: Set<int>, d: Seq<u32>, e: Seq<u32>)
    requires
        t.wf(),
        t.net().unspent(s, seen),
        walk(t, s, d) is Some,
        walk(t, s, e) is Some,
        forall|a: u32| d.contains(a) <==> e.contains(a),
    ensures
        d == e,
    decreases d.len(),
{
    let n = t.net();
    if d.len() == 0 {
        if e.len() > 0 {
            assert(e.contains(e[0]));
        }
        assert(d =~= e);
    } else if e.len() == 0 {
        assert(d.contains(d[0]));
    } else {
        let x = settled(t, s);
        settled_facts(t, s, seen);
        let w = rank(n.nodes, x).unwrap().1;
        assert(n.decides(w, d[0]) && n.decides(w, e[0]));
        walk_fresh(t, s, seen, d);
        walk_fresh(t, s, seen, e);
        assert(d.contains(d[0]));
        let j = choose|j: int| 0 <= j < e.len() && e[j] == d[0];
        if j > 0 {
            assert(n.decides(w, e[j]));
        }
        assert(d[0] == e[0]);
        let (dr, er) = (d.skip(1), e.skip(1));
        decided(t, x, seen, d[0]);
        assert forall|a: u32| dr.contains(a) <==> er.contains(a) by {
            if dr.contains(a) {
                let i = choose|i: int| 0 <= i < dr.len() && dr[i] == a;
                assert(d[i + 1] == a);
                assert(d.contains(a));
                let k = choose|k: int| 0 <= k < e.len() && e[k] == a;
                if k == 0 {
                    assert(n.decides(w, d[i + 1]));
                }
                assert(er[k - 1] == a);
            }
            if er.contains(a) {
                let i = choose|i: int| 0 <= i < er.len() && er[i] == a;
                assert(e[i + 1] == a);
                assert(e.contains(a));
                let k = choose|k: int| 0 <= k < d.len() && d[k] == a;
                if k == 0 {
                    assert(n.decides(w, e[i + 1]));
                }
                assert(dr[k - 1] == a);
            }
        }
        walks_agree(t, started(x, d[0] as int), seen.insert(w), dr, er);
        assert(d =~= seq![d[0]] + dr);
        assert(e =~= seq![e[0]] + er);
    }
}

// ---------------------------------------------------------------------------
// histories are runs
// ---------------------------------------------------------------------------

/// The outcomes of a macro step are where its draws lead.
proof fn forced_walks<N: Number>(
    t: &Tree<N>,
    s: Seq<i8>,
    d: Seq<u32>,
    impact: Seq<N::Value>,
    prob: N::Value,
)
    requires
        t.wf(),
        valid(t.net().nodes, s),
    ensures
        forall|i: int|
            0 <= i < forced(t, s, d, impact, prob).len() ==> {
                let l = #[trigger] forced(t, s, d, impact, prob)[i];
                &&& l.decisions.len() >= d.len()
                &&& l.decisions.take(d.len() as int) == d
                &&& walk(t, s, l.decisions.skip(d.len() as int)) == Some(l.state)
            },
    decreases t.net().work(s),
{
    let n = t.net();
    let g = n.nodes;
    let all = forced(t, s, d, impact, prob);
    if stops(t, s) {
        assert(d.take(d.len() as int) =~= d);
        assert(d.skip(d.len() as int) =~= Seq::<u32>::empty());
    } else {
        let (r, w) = rank(g, s).unwrap();
        best_is_least(g, s, n.size());
        if r == 4 {
            branch_works(n, s);
            net_children(n, w);
            let p = t.prob_v(w);
            let q = N::minus_v(N::one_v(), p);
            let (l, h) = (g[w].low, g[w].high);
            let (dl, dh) = (d.push(l as u32), d.push(h as u32));
            assert(dl.take(d.len() as int) =~= d);
            assert(dh.take(d.len() as int) =~= d);
            forced_walks(t, started(s, l), dl, impact, N::times_v(prob, p));
            forced_walks(t, started(s, h), dh, impact, N::times_v(prob, q));
            let a = forced(t, started(s, l), dl, impact, N::times_v(prob, p));
            let b = forced(t, started(s, h), dh, impact, N::times_v(prob, q));
            assert forall|i: int| 0 <= i < all.len() implies {
                let x = #[trigger] all[i];
                &&& x.decisions.len() >= d.len()
                &&& x.decisions.take(d.len() as int) == d
                &&& walk(t, s, x.decisions.skip(d.len() as int)) == Some(x.state)
            } by {
                let x = all[i];
                if i < a.len() {
                    assert(x == a[i]);
                    drawn(t, s, d, dl, x);
                } else {
                    assert(x == b[i - a.len()]);
                    drawn(t, s, d, dh, x);
                }
            }
        } else {
            moved_works(n, s);
            let i = if r == 5 { paid(t, s, n.size(), impact) } else { impact };
            forced_walks(t, moved(g, s, r, w), d, i, prob);
            assert forall|x: Seq<u32>| #[trigger] walk(t, s, x) == walk(t, moved(g, s, r, w), x) by {}
        }
    }
}

/// One draw, and then the rest.
proof fn drawn<N: Number>(t: &Tree<N>, s: Seq<i8>, d: Seq<u32>, more: Seq<u32>, l: Leaf<N::Value>)
    requires
        t.wf(),
        valid(t.net().nodes, s),
        rank(t.net().nodes, s) is Some,
        rank(t.net().nodes, s).unwrap().0 == 4,
        more.len() == d.len() + 1,
        more.take(d.len() as int) == d,
        t.net().decides(rank(t.net().nodes, s).unwrap().1, more.last()),
        l.decisions.len() >= more.len(),
        l.decisions.take(more.len() as int) == more,
        walk(t, started(s, more.last() as int), l.decisions.skip(more.len() as int)) == Some(l.state),
    ensures
        l.decisions.take(d.len() as int) == d,
        walk(t, s, l.decisions.skip(d.len() as int)) == Some(l.state),
{
    let n = d.len() as int;
    let x = l.decisions.skip(n);
    assert(l.decisions.take(n) =~= more.take(n));
    assert(x[0] == l.decisions.take(more.len() as int)[n]);
    assert(x.skip(1) =~= l.decisions.skip(more.len() as int));
}

proof fn walk_join<N: Number>(t: &Tree<N>, s: Seq<i8>, seen: Set<int>, d: Seq<u32>, e: Seq<u32>)
    requires
        t.wf(),
        t.net().unspent(s, seen),
        walk(t, s, d) is Some,
    ensures
        walk(t, s, d + e) == walk(t, walk(t, s, d).unwrap(), e),
    decreases d.len(),
{
    let x = settled(t, s);
    settled_facts(t, s, seen);
    if d.len() == 0 {
        assert(d + e =~= e);
    } else {
        decided(t, x, seen, d[0]);
        walk_join(
            t,
            started(x, d[0] as int),
            seen.insert(rank(t.net().nodes, x).unwrap().1),
            d.skip(1),
            e,
        );
        assert((d + e).skip(1) =~= d.skip(1) + e);
        assert((d + e)[0] == d[0]);
    }
}

proof fn walk_goes_on<N: Number>(t: &Tree<N>, s: Seq<i8>, seen: Set<int>, d: Seq<u32>) -> (more: Set<
    int,
>)
    requires
        t.wf(),
        t.net().unspent(s, seen),
        walk(t, s, d) is Some,
    ensures
        t.net().unspent(walk(t, s, d).unwrap(), more),
    decreases d.len(),
{
    let x = settled(t, s);
    settled_facts(t, s, seen);
    if d.len() == 0 {
        seen
    } else {
        let w = rank(t.net().nodes, x).unwrap().1;
        decided(t, x, seen, d[0]);
        walk_goes_on(t, started(x, d[0] as int), seen.insert(w), d.skip(1))
    }
}

proof fn follow_walks<N: Number>(t: &Tree<N>, h: Leaf<N::Value>, seen: Set<int>, d: Seq<u32>)
    requires
        t.wf(),
        path(t, h),
        t.net().unspent(h.state, seen),
        follow(t, h, d) is Some,
    ensures
        walk(t, h.state, d) == Some(follow(t, h, d).unwrap().state),
    decreases d.len(),
{
    let n = t.net();
    if d.len() > 0 {
        let (r, w) = rank(n.nodes, h.state).unwrap();
        best_is_least(n.nodes, h.state, n.size());
        let a = d[0];
        let ls = reply(t, h.state, a);
        let i = choose|i: int| leads(ls, d, i);
        reply_facts(t, h.state, a);
        extended_path(t, h, ls[i]);
        let e = ls[i].decisions;
        let k = e.len() as int;
        let x = started(h.state, a as int);
        forced_walks(t, x, seq![a], zeros_v::<N>(t.k as nat), N::one_v());
        assert(e.take(1)[0] == e[0]);
        assert(walk(t, h.state, e) == Some(ls[i].state));
        let more = walk_goes_on(t, h.state, seen, e);
        follow_walks(t, extended::<N>(h, ls[i]), more, d.skip(k));
        walk_join(t, h.state, seen, e, d.skip(k));
        assert(e =~= d.take(k));
        assert(e + d.skip(k) =~= d);
    }
}

/// A history is the run of its decisions.
proof fn trail_walks<N: Number>(t: &Tree<N>, d: Seq<u32>)
    requires
        t.wf(),
        trail(t, d) is Some,
    ensures
        t.net().unspent(t.net().initial(), Set::empty()),
        walk(t, t.net().initial(), d) == Some(trail(t, d).unwrap().state),
{
    let n = t.net();
    let s = n.initial();
    initial_valid(n);
    initial_coherent(n);
    begun(n);
    opening_facts(t);
    let ls = opening(t);
    let i = choose|i: int| leads(ls, d, i);
    let e = ls[i].decisions;
    let k = e.len() as int;
    forced_walks(t, s, Seq::empty(), zeros_v::<N>(t.k as nat), N::one_v());
    assert(e.skip(0) =~= e);
    let more = walk_goes_on(t, s, Set::empty(), e);
    follow_walks(t, ls[i], more, d.skip(k));
    walk_join(t, s, Set::empty(), e, d.skip(k));
    assert(e =~= d.take(k));
    assert(e + d.skip(k) =~= d);
}

proof fn begun(n: Net)
    requires
        n.wf(),
    ensures
        unspent(n.nodes, n.initial(), Set::empty(), n.root, 1, n.size()),
{
    inside(n.nodes, n.root, 1, n.size());
    unspent_start(n.nodes, n.initial(), Set::empty(), n.root, 1, n.size());
}

// ---------------------------------------------------------------------------
// the marks
// ---------------------------------------------------------------------------

/// The mark of a node after a history: zero where it is not yet decided, one
/// for the low branch, two for the high one.
pub open spec fn mark<N: Number>(t: &Tree<N>, d: Seq<u32>, w: int) -> int {
    if d.contains(t.net().nodes[w].low as u32) {
        1
    } else if d.contains(t.net().nodes[w].high as u32) {
        2
    } else {
        0
    }
}

/// A mark is written once: of the branches of one node a history takes one at
/// most, and takes it once.
pub proof fn decided_once<N: Number>(t: &Tree<N>, d: Seq<u32>, w: int, i: int, j: int)
    requires
        t.wf(),
        trail(t, d) is Some,
        0 <= i < d.len(),
        0 <= j < d.len(),
        t.net().decides(w, d[i]),
        t.net().decides(w, d[j]),
    ensures
        i == j,
{
    trail_walks(t, d);
    walk_fresh(t, t.net().initial(), Set::empty(), d);
}

proof fn mark_tells<N: Number>(t: &Tree<N>, d: Seq<u32>, e: Seq<u32>, a: u32)
    requires
        t.wf(),
        trail(t, d) is Some,
        trail(t, e) is Some,
        forall|w: int| 1 <= w <= t.net().size() ==> #[trigger] mark(t, d, w) == mark(t, e, w),
        d.contains(a),
    ensures
        e.contains(a),
{
    let n = t.net();
    trail_walks(t, d);
    walk_fresh(t, n.initial(), Set::empty(), d);
    let i = choose|i: int| 0 <= i < d.len() && d[i] == a;
    assert(n.offers(d[i]));
    let w = choose|w: int| n.decides(w, d[i]);
    net_children(n, w);
    assert(mark(t, d, w) == mark(t, e, w));
    let (l, h) = (n.nodes[w].low as u32, n.nodes[w].high as u32);
    if a == h && d.contains(l) {
        let j = choose|j: int| 0 <= j < d.len() && d[j] == l;
        decided_once(t, d, w, i, j);
    }
}

/// The marks remember everything: two histories that leave the same mark at
/// every node are the same history, however many regions have closed since.
pub proof fn marks_keep_histories_apart<N: Number>(t: &Tree<N>, d: Seq<u32>, e: Seq<u32>)
    requires
        t.wf(),
        trail(t, d) is Some,
        trail(t, e) is Some,
        forall|w: int| 1 <= w <= t.net().size() ==> #[trigger] mark(t, d, w) == mark(t, e, w),
    ensures
        d == e,
{
    trail_walks(t, d);
    trail_walks(t, e);
    assert forall|a: u32| d.contains(a) <==> e.contains(a) by {
        if d.contains(a) {
            mark_tells(t, d, e, a);
        }
        if e.contains(a) {
            mark_tells(t, e, d, a);
        }
    }
    walks_agree(t, t.net().initial(), Set::empty(), d, e);
}

} // verus!
