//! Frontiers, as mathematics, and what the two tests on them prove.
//!
//! A frontier is a set of histories no one of which begins another and whose
//! probabilities add up to one. Resolving the choice one of them ends at
//! replaces it by the histories one action leads to. The frontiers reached this
//! way from the initial one are the nodes of the computation tree, and the
//! branches of the tree partition the strategies: a strategy agrees with
//! exactly one child of every node it agrees with.

use vstd::prelude::*;
use crate::bound::bound_v;
use crate::history::{
    kids, opening_facts, path, reply_facts, trail, trail_extended, trail_facts, trail_opening,
};
use crate::num::{sum_v, zeros_v, Number};
use crate::progress::net_children;
use crate::semantics::{best_is_least, rank};
use crate::state::{opening, reply, Leaf, Stop};
use crate::strategy::{picked, Policy};
use crate::tables::Branch;
use crate::tree::{Kind, Tree};
use crate::unfolding::{begins, prefix_free, weigh};

verus! {

/// A frontier: its open histories, its final ones, and the running sums of what
/// the final ones have paid and of what the open ones pay at most and at least.
pub struct Front<V> {
    pub open: Seq<Leaf<V>>,
    pub closed: Seq<Leaf<V>>,
    pub paid: Seq<V>,
    pub upper: Seq<V>,
    pub lower: Seq<V>,
}

impl<V> Front<V> {
    /// Every history of the frontier.
    pub open spec fn all(self) -> Seq<Leaf<V>> {
        self.open + self.closed
    }
}

/// The open histories among these, or the final ones, in their order.
pub open spec fn part<V>(ls: Seq<Leaf<V>>, open: bool) -> Seq<Leaf<V>>
    decreases ls.len(),
{
    if ls.len() == 0 {
        Seq::empty()
    } else if (ls.last().stop != Stop::Final) == open {
        part(ls.drop_last(), open).push(ls.last())
    } else {
        part(ls.drop_last(), open)
    }
}

/// `P (I + bound)`: what a history contributes to the sums of a frontier.
pub open spec fn hat_v<N: Number>(t: &Tree<N>, h: Leaf<N::Value>, up: bool) -> Seq<N::Value> {
    Seq::new(
        t.k as nat,
        |c: int| N::times_v(h.prob, N::plus_v(h.impact[c], bound_v(t, h.state, up)[c])),
    )
}

/// The contributions of these histories, added one by one to nothing.
pub open spec fn heap<N: Number>(t: &Tree<N>, ls: Seq<Leaf<N::Value>>, up: bool) -> Seq<N::Value>
    decreases ls.len(),
{
    if ls.len() == 0 {
        zeros_v::<N>(t.k as nat)
    } else {
        sum_v::<N>(heap(t, ls.drop_last(), up), hat_v(t, ls.last(), up))
    }
}

/// `a + (b - c)`, entry by entry.
pub open spec fn swap_v<N: Number>(a: Seq<N::Value>, b: Seq<N::Value>, c: Seq<N::Value>) -> Seq<
    N::Value,
> {
    Seq::new(a.len(), |i: int| N::plus_v(a[i], N::minus_v(b[i], c[i])))
}

/// The frontier these histories make.
pub open spec fn front_of<N: Number>(t: &Tree<N>, ls: Seq<Leaf<N::Value>>) -> Front<N::Value> {
    Front {
        open: part(ls, true),
        closed: part(ls, false),
        paid: heap(t, part(ls, false), true),
        upper: heap(t, part(ls, true), true),
        lower: heap(t, part(ls, true), false),
    }
}

/// The frontier once the choice its open history `i` ends at is resolved.
pub open spec fn resolved<N: Number>(t: &Tree<N>, f: Front<N::Value>, i: int, b: Branch) -> Front<
    N::Value,
> {
    let h = f.open[i];
    let ks = kids(t, h, b);
    let open = f.open.remove(i) + part(ks, true);
    Front {
        open,
        closed: f.closed + part(ks, false),
        paid: sum_v::<N>(f.paid, heap(t, part(ks, false), true)),
        upper: if open.len() == 0 {
            zeros_v::<N>(t.k as nat)
        } else {
            swap_v::<N>(f.upper, heap(t, part(ks, true), true), hat_v(t, h, true))
        },
        lower: if open.len() == 0 {
            zeros_v::<N>(t.k as nat)
        } else {
            swap_v::<N>(f.lower, heap(t, part(ks, true), false), hat_v(t, h, false))
        },
    }
}

/// A path down the computation tree: which open history was elected, and which
/// branch its choice took.
pub type Moves = Seq<(int, Branch)>;

/// The frontier at the end of a path of the computation tree.
pub open spec fn front_at<N: Number>(t: &Tree<N>, m: Moves) -> Front<N::Value>
    decreases m.len(),
{
    if m.len() == 0 {
        front_of(t, opening(t))
    } else {
        resolved(t, front_at(t, m.drop_last()), m.last().0, m.last().1)
    }
}

/// Every election of the path elected an open history.
pub open spec fn legal<N: Number>(t: &Tree<N>, m: Moves) -> bool
    decreases m.len(),
{
    m.len() == 0 || {
        &&& legal(t, m.drop_last())
        &&& 0 <= m.last().0 < front_at(t, m.drop_last()).open.len()
    }
}

/// The decisions taken along a path of the computation tree: the histories that
/// were decided, each with the child its choice started.
pub open spec fn decisions_of<N: Number>(t: &Tree<N>, m: Moves) -> Seq<(Seq<u32>, u32)>
    decreases m.len(),
{
    if m.len() == 0 {
        Seq::empty()
    } else {
        let h = front_at(t, m.drop_last()).open[m.last().0];
        let w = rank(t.net().nodes, h.state).unwrap().1;
        decisions_of(t, m.drop_last()).push(
            (h.decisions, picked(t.net().nodes[w], m.last().1) as u32),
        )
    }
}

/// The strategy takes the branches this path of the computation tree took.
pub open spec fn agrees<N: Number>(t: &Tree<N>, policy: Policy, m: Moves) -> bool
    decreases m.len(),
{
    m.len() == 0 || {
        &&& agrees(t, policy, m.drop_last())
        &&& policy(front_at(t, m.drop_last()).open[m.last().0].decisions) == m.last().1
    }
}

// ---------------------------------------------------------------------------
// the tests
// ---------------------------------------------------------------------------

/// `a <= b` in every component the two share, with a slack of `slack` times the
/// larger of one and the component of `b`.
pub open spec fn within<N: Number>(a: Seq<N::Value>, b: Seq<N::Value>, slack: N::Value) -> bool {
    forall|c: int|
        0 <= c < a.len() && c < b.len() ==> if N::le_v(slack, N::zero_v()) && N::le_v(N::zero_v(), slack) {
            N::le_v(#[trigger] a[c], b[c])
        } else {
            N::le_v(a[c], N::plus_v(b[c], N::times_v(slack, N::max_v(N::abs_v(b[c]), N::one_v()))))
        }
}

/// `E(F)`: what the frontier pays at most.
pub open spec fn accepting_v<N: Number>(f: Front<N::Value>) -> Seq<N::Value> {
    sum_v::<N>(f.paid, f.upper)
}

/// `L(F)`: what the frontier pays at least.
pub open spec fn rejecting_v<N: Number>(f: Front<N::Value>) -> Seq<N::Value> {
    sum_v::<N>(f.paid, f.lower)
}

/// `P I`: what a history has paid so far.
pub open spec fn spent_v<N: Number>(h: Leaf<N::Value>, k: nat) -> Seq<N::Value> {
    Seq::new(k, |c: int| N::times_v(h.prob, h.impact[c]))
}

pub open spec fn spent_by<N: Number>(paid: Seq<N::Value>, ls: Seq<Leaf<N::Value>>) -> Seq<N::Value>
    decreases ls.len(),
{
    if ls.len() == 0 {
        paid
    } else {
        sum_v::<N>(spent_by::<N>(paid, ls.drop_last()), spent_v::<N>(ls.last(), paid.len()))
    }
}

/// `A(F)`: what the frontier has already paid.
pub open spec fn accumulated_v<N: Number>(f: Front<N::Value>) -> Seq<N::Value> {
    spent_by::<N>(f.paid, f.open)
}

/// Which tests are read, and against what.
pub struct Tests<V> {
    pub threshold: Seq<V>,
    pub slack: V,
    /// The accepting test is read on a frontier that is not closed.
    pub accept_early: bool,
    /// The rejecting test is read on a frontier that is not closed.
    pub reject_early: bool,
}

/// The accepting test is read on this frontier, and passes.
pub open spec fn accepted<N: Number>(x: Tests<N::Value>, f: Front<N::Value>) -> bool {
    &&& x.accept_early || f.open.len() == 0
    &&& within::<N>(accepting_v::<N>(f), x.threshold, x.slack)
}

/// No strategy is left in this frontier, as far as the tests can tell.
pub open spec fn rejected<N: Number>(x: Tests<N::Value>, f: Front<N::Value>) -> bool {
    &&& !accepted::<N>(x, f)
    &&& f.open.len() == 0 || !within::<N>(
        if x.reject_early {
            rejecting_v::<N>(f)
        } else {
            accumulated_v::<N>(f)
        },
        x.threshold,
        x.slack,
    )
}

/// Every path of the computation tree below `m` that makes some election at
/// every node ends, within `n` elections, at a frontier that is rejected.
pub open spec fn refuted<N: Number>(t: &Tree<N>, x: Tests<N::Value>, m: Moves, n: nat) -> bool
    decreases n,
{
    ||| rejected::<N>(x, front_at(t, m))
    ||| n > 0 && exists|i: int|
        {
            &&& #[trigger] elects(t, m, i)
            &&& refuted(t, x, m.push((i, Branch::Low)), (n - 1) as nat)
            &&& refuted(t, x, m.push((i, Branch::High)), (n - 1) as nat)
        }
}

/// The frontier at the end of `m` has an open history `i`.
pub open spec fn elects<N: Number>(t: &Tree<N>, m: Moves, i: int) -> bool {
    0 <= i < front_at(t, m).open.len()
}

/// The computation tree below `m` can be cut so that every leaf is rejected.
pub open spec fn refutable<N: Number>(t: &Tree<N>, x: Tests<N::Value>, m: Moves) -> bool {
    exists|n: nat| refuted(t, x, m, n)
}

pub proof fn refuted_more<N: Number>(t: &Tree<N>, x: Tests<N::Value>, m: Moves, n: nat, p: nat)
    requires
        refuted(t, x, m, n),
        n <= p,
    ensures
        refuted(t, x, m, p),
    decreases n,
{
    if !rejected::<N>(x, front_at(t, m)) {
        let i = choose|i: int|
            {
                &&& #[trigger] elects(t, m, i)
                &&& refuted(t, x, m.push((i, Branch::Low)), (n - 1) as nat)
                &&& refuted(t, x, m.push((i, Branch::High)), (n - 1) as nat)
            };
        refuted_more(t, x, m.push((i, Branch::Low)), (n - 1) as nat, (p - 1) as nat);
        refuted_more(t, x, m.push((i, Branch::High)), (n - 1) as nat, (p - 1) as nat);
    }
}

/// A node whose two children are refutable is.
pub proof fn refutable_split<N: Number>(t: &Tree<N>, x: Tests<N::Value>, m: Moves, i: int)
    requires
        0 <= i < front_at(t, m).open.len(),
        refutable(t, x, m.push((i, Branch::Low))),
        refutable(t, x, m.push((i, Branch::High))),
    ensures
        refutable(t, x, m),
{
    let (lo, hi) = (m.push((i, Branch::Low)), m.push((i, Branch::High)));
    let a = choose|n: nat| refuted(t, x, lo, n);
    let b = choose|n: nat| refuted(t, x, hi, n);
    let n = if a <= b { b } else { a };
    refuted_more(t, x, lo, a, n);
    refuted_more(t, x, hi, b, n);
    assert(elects(t, m, i));
    assert(((n + 1) - 1) as nat == n);
    assert(refuted(t, x, m, n + 1));
}

// ---------------------------------------------------------------------------
// the histories of a frontier
// ---------------------------------------------------------------------------

pub proof fn part_from<V>(ls: Seq<Leaf<V>>, open: bool)
    ensures
        forall|i: int|
            0 <= i < part(ls, open).len() ==> ((#[trigger] part(ls, open)[i]).stop != Stop::Final)
                == open && ls.contains(part(ls, open)[i]),
    decreases ls.len(),
{
    if ls.len() > 0 {
        let a = ls.drop_last();
        part_from(a, open);
        assert forall|i: int| 0 <= i < part(ls, open).len() implies ((#[trigger] part(
            ls,
            open,
        )[i]).stop != Stop::Final) == open && ls.contains(part(ls, open)[i]) by {
            if i < part(a, open).len() {
                let x = part(a, open)[i];
                assert(a.contains(x));
                let j = a.index_of(x);
                assert(ls[j] == x);
            } else {
                assert(ls[ls.len() - 1] == part(ls, open)[i]);
            }
        }
    }
}

pub proof fn part_len<V>(ls: Seq<Leaf<V>>)
    ensures
        part(ls, true).len() + part(ls, false).len() == ls.len(),
    decreases ls.len(),
{
    if ls.len() > 0 {
        part_len(ls.drop_last());
    }
}

/// Whatever is summed over histories can be summed over the open and the final
/// ones apart.
pub proof fn part_weigh<V>(ls: Seq<Leaf<V>>, f: spec_fn(Leaf<V>) -> real)
    ensures
        weigh(part(ls, true), f) + weigh(part(ls, false), f) == weigh(ls, f),
    decreases ls.len(),
{
    if ls.len() > 0 {
        part_weigh(ls.drop_last(), f);
        let open = ls.last().stop != Stop::Final;
        assert(part(ls, open).drop_last() =~= part(ls.drop_last(), open));
    }
}

/// Names of which neither begins the other.
pub open spec fn apart(a: Seq<u32>, b: Seq<u32>) -> bool {
    !begins(a, b) && !begins(b, a)
}

proof fn part_prefix_free<V>(ls: Seq<Leaf<V>>, open: bool)
    requires
        prefix_free(ls),
    ensures
        prefix_free(part(ls, open)),
    decreases ls.len(),
{
    if ls.len() > 0 {
        let a = ls.drop_last();
        assert(prefix_free(a)) by {
            assert forall|i: int, j: int|
                0 <= i < a.len() && 0 <= j < a.len() && i != j implies !begins(
                (#[trigger] a[i]).decisions,
                (#[trigger] a[j]).decisions,
            ) by {
                assert(a[i] == ls[i] && a[j] == ls[j]);
            }
        }
        part_prefix_free(a, open);
        part_from(a, open);
        let p = part(ls, open);
        let q = part(a, open);
        assert forall|i: int, j: int|
            0 <= i < p.len() && 0 <= j < p.len() && i != j implies !begins(
            (#[trigger] p[i]).decisions,
            (#[trigger] p[j]).decisions,
        ) by {
            if p.len() > q.len() {
                let n = ls.len() - 1;
                if i < q.len() {
                    let x = a.index_of(q[i]);
                    assert(q[i] == ls[x]);
                }
                if j < q.len() {
                    let y = a.index_of(q[j]);
                    assert(q[j] == ls[y]);
                }
                assert(p[q.len() as int] == ls[n]);
            }
        }
    }
}

/// Two lists that are prefix-free, and apart from one another, are so together.
pub proof fn prefix_free_join<V>(a: Seq<Leaf<V>>, b: Seq<Leaf<V>>)
    requires
        prefix_free(a),
        prefix_free(b),
        forall|i: int, j: int|
            0 <= i < a.len() && 0 <= j < b.len() ==> apart(
                (#[trigger] a[i]).decisions,
                (#[trigger] b[j]).decisions,
            ),
    ensures
        prefix_free(a + b),
{
    let u = a + b;
    assert forall|i: int, j: int|
        0 <= i < u.len() && 0 <= j < u.len() && i != j implies !begins(
        (#[trigger] u[i]).decisions,
        (#[trigger] u[j]).decisions,
    ) by {
        if i < a.len() {
            assert(u[i] == a[i]);
        } else {
            assert(u[i] == b[i - a.len()]);
        }
        if j < a.len() {
            assert(u[j] == a[j]);
        } else {
            assert(u[j] == b[j - a.len()]);
        }
    }
}

/// Splitting prefix-free histories in open and final ones keeps them so.
proof fn part_all_prefix_free<V>(ls: Seq<Leaf<V>>)
    requires
        prefix_free(ls),
    ensures
        prefix_free(part(ls, true)),
        prefix_free(part(ls, false)),
        prefix_free(part(ls, true) + part(ls, false)),
{
    let (a, b) = (part(ls, true), part(ls, false));
    part_prefix_free(ls, true);
    part_prefix_free(ls, false);
    part_from(ls, true);
    part_from(ls, false);
    assert forall|i: int, j: int| 0 <= i < a.len() && 0 <= j < b.len() implies apart(
        (#[trigger] a[i]).decisions,
        (#[trigger] b[j]).decisions,
    ) by {
        let x = ls.index_of(a[i]);
        let y = ls.index_of(b[j]);
        assert(ls[x] == a[i] && ls[y] == b[j]);
        assert(x != y);
    }
    prefix_free_join(a, b);
}

/// What holds of every frontier of the computation tree.
pub open spec fn sound<N: Number>(t: &Tree<N>, f: Front<N::Value>) -> bool {
    &&& forall|i: int|
        0 <= i < f.open.len() ==> trail(t, (#[trigger] f.open[i]).decisions) == Some(f.open[i])
            && f.open[i].stop != Stop::Final
    &&& forall|i: int|
        0 <= i < f.closed.len() ==> trail(t, (#[trigger] f.closed[i]).decisions) == Some(
            f.closed[i],
        ) && f.closed[i].stop == Stop::Final
    &&& prefix_free(f.all())
    &&& f.paid.len() == t.k
    &&& f.upper.len() == t.k
    &&& f.lower.len() == t.k
}

proof fn heap_len<N: Number>(t: &Tree<N>, ls: Seq<Leaf<N::Value>>, up: bool)
    ensures
        heap(t, ls, up).len() == t.k,
    decreases ls.len(),
{
    if ls.len() > 0 {
        heap_len(t, ls.drop_last(), up);
    }
}

/// An open history waits at a choice.
pub proof fn open_waits<N: Number>(t: &Tree<N>, h: Leaf<N::Value>)
    requires
        t.wf(),
        trail(t, h.decisions) == Some(h),
        h.stop != Stop::Final,
    ensures
        path(t, h),
        rank(t.net().nodes, h.state) is Some,
        rank(t.net().nodes, h.state).unwrap().0 == 1,
        1 <= rank(t.net().nodes, h.state).unwrap().1 <= t.n_nodes,
        t.net().nodes[rank(t.net().nodes, h.state).unwrap().1].kind == Kind::Choice,
        ({
            let v = t.net().nodes[rank(t.net().nodes, h.state).unwrap().1];
            1 <= v.low < v.high <= t.n_nodes
        }),
        h.stop == Stop::Choice(rank(t.net().nodes, h.state).unwrap().1 as u32),
{
    trail_facts(t, h.decisions);
    best_is_least(t.net().nodes, h.state, t.net().size());
    net_children(t.net(), rank(t.net().nodes, h.state).unwrap().1);
}

/// The histories one branch leads to are paths, named by longer names, no one
/// of which begins another.
pub proof fn kids_facts<N: Number>(t: &Tree<N>, h: Leaf<N::Value>, b: Branch)
    requires
        t.wf(),
        trail(t, h.decisions) == Some(h),
        h.stop != Stop::Final,
    ensures
        prefix_free(kids(t, h, b)),
        forall|i: int|
            0 <= i < kids(t, h, b).len() ==> {
                let x = #[trigger] kids(t, h, b)[i];
                &&& trail(t, x.decisions) == Some(x)
                &&& begins(h.decisions, x.decisions)
                &&& h.decisions.len() < x.decisions.len()
            },
{
    open_waits(t, h);
    let w = rank(t.net().nodes, h.state).unwrap().1;
    let a = picked(t.net().nodes[w], b) as u32;
    let ls = reply(t, h.state, a);
    reply_facts(t, h.state, a);
    let ks = kids(t, h, b);
    assert forall|i: int| 0 <= i < ks.len() implies {
        let x = #[trigger] ks[i];
        &&& trail(t, x.decisions) == Some(x)
        &&& begins(h.decisions, x.decisions)
        &&& h.decisions.len() < x.decisions.len()
    } by {
        assert(begins(seq![a], ls[i].decisions));
        trail_extended(t, h, a, i);
        assert(ks[i].decisions.take(h.decisions.len() as int) =~= h.decisions);
    }
    assert forall|i: int, j: int|
        0 <= i < ks.len() && 0 <= j < ks.len() && i != j implies !begins(
        (#[trigger] ks[i]).decisions,
        (#[trigger] ks[j]).decisions,
    ) by {
        let (x, y) = (ls[i].decisions, ls[j].decisions);
        if begins(ks[i].decisions, ks[j].decisions) {
            let n = h.decisions.len() as int;
            assert(y.take(x.len() as int) =~= x) by {
                assert forall|q: int| 0 <= q < x.len() implies y[q] == x[q] by {
                    assert(ks[j].decisions.take(ks[i].decisions.len() as int)[n + q]
                        == ks[i].decisions[n + q]);
                }
            }
            assert(begins(x, y));
        }
    }
}

proof fn begins_trans(a: Seq<u32>, b: Seq<u32>, c: Seq<u32>)
    requires
        begins(a, b),
        begins(b, c),
    ensures
        begins(a, c),
{
    assert(c.take(a.len() as int) =~= b.take(a.len() as int));
}

/// Of two beginnings of one name the shorter begins the longer.
proof fn begins_comparable(a: Seq<u32>, b: Seq<u32>, c: Seq<u32>)
    requires
        begins(a, c),
        begins(b, c),
        a.len() <= b.len(),
    ensures
        begins(a, b),
{
    assert(b.take(a.len() as int) =~= c.take(a.len() as int));
}

/// A name apart from a beginning of another is apart from the other.
proof fn apart_longer(x: Seq<u32>, h: Seq<u32>, k: Seq<u32>)
    requires
        apart(x, h),
        begins(h, k),
    ensures
        apart(x, k),
{
    if begins(x, k) {
        if x.len() <= h.len() {
            begins_comparable(x, h, k);
        } else {
            begins_comparable(h, x, k);
        }
    }
    if begins(k, x) {
        begins_trans(h, k, x);
    }
}

pub proof fn front_of_sound<N: Number>(t: &Tree<N>)
    requires
        t.wf(),
    ensures
        sound(t, front_of(t, opening(t))),
{
    let ls = opening(t);
    let f = front_of(t, ls);
    opening_facts(t);
    part_from(ls, true);
    part_from(ls, false);
    part_all_prefix_free(ls);
    heap_len(t, f.closed, true);
    heap_len(t, f.open, true);
    heap_len(t, f.open, false);
    assert forall|i: int| 0 <= i < f.open.len() implies trail(t, (#[trigger] f.open[i]).decisions)
        == Some(f.open[i]) by {
        let j = ls.index_of(f.open[i]);
        trail_opening(t, j);
    }
    assert forall|i: int| 0 <= i < f.closed.len() implies trail(
        t,
        (#[trigger] f.closed[i]).decisions,
    ) == Some(f.closed[i]) by {
        let j = ls.index_of(f.closed[i]);
        trail_opening(t, j);
    }
}

pub proof fn resolved_sound<N: Number>(t: &Tree<N>, f: Front<N::Value>, i: int, b: Branch)
    requires
        t.wf(),
        sound(t, f),
        0 <= i < f.open.len(),
    ensures
        sound(t, resolved(t, f, i, b)),
{
    let h = f.open[i];
    let ks = kids(t, h, b);
    let r = resolved(t, f, i, b);
    let (po, pc) = (part(ks, true), part(ks, false));
    assert(f.all()[i] == h);
    open_waits(t, h);
    kids_facts(t, h, b);
    part_from(ks, true);
    part_from(ks, false);
    part_all_prefix_free(ks);
    heap_len(t, pc, true);
    heap_len(t, po, true);
    heap_len(t, po, false);
    let rest = f.open.remove(i);
    assert forall|j: int| 0 <= j < r.open.len() implies trail(t, (#[trigger] r.open[j]).decisions)
        == Some(r.open[j]) && r.open[j].stop != Stop::Final by {
        if j < rest.len() {
            assert(r.open[j] == f.open[if j < i { j } else { j + 1 }]);
        } else {
            let x = po[j - rest.len()];
            assert(r.open[j] == x);
            let y = ks.index_of(x);
            assert(ks[y] == x);
        }
    }
    assert forall|j: int| 0 <= j < r.closed.len() implies trail(
        t,
        (#[trigger] r.closed[j]).decisions,
    ) == Some(r.closed[j]) && r.closed[j].stop == Stop::Final by {
        if j < f.closed.len() {
            assert(r.closed[j] == f.closed[j]);
        } else {
            let x = pc[j - f.closed.len()];
            assert(r.closed[j] == x);
            let y = ks.index_of(x);
            assert(ks[y] == x);
        }
    }
    resolved_prefix_free(t, f, i, b);
}

/// Two middle parts of a list change places.
proof fn prefix_free_shuffle<V>(
    a: Seq<Leaf<V>>,
    b: Seq<Leaf<V>>,
    c: Seq<Leaf<V>>,
    d: Seq<Leaf<V>>,
)
    requires
        prefix_free((a + c) + (b + d)),
    ensures
        prefix_free((a + b) + (c + d)),
{
    let u = (a + b) + (c + d);
    let v = (a + c) + (b + d);
    let (na, nb, nc) = (a.len() as int, b.len() as int, c.len() as int);
    let at = |x: int|
        if x < na {
            x
        } else if x < na + nb {
            x + nc
        } else if x < na + nb + nc {
            x - nb
        } else {
            x
        };
    assert forall|x: int, y: int|
        0 <= x < u.len() && 0 <= y < u.len() && x != y implies !begins(
        (#[trigger] u[x]).decisions,
        (#[trigger] u[y]).decisions,
    ) by {
        assert(u[x] == v[at(x)]);
        assert(u[y] == v[at(y)]);
        assert(at(x) != at(y));
    }
}

proof fn resolved_prefix_free<N: Number>(t: &Tree<N>, f: Front<N::Value>, i: int, b: Branch)
    requires
        t.wf(),
        sound(t, f),
        0 <= i < f.open.len(),
    ensures
        prefix_free(resolved(t, f, i, b).all()),
{
    let h = f.open[i];
    let ks = kids(t, h, b);
    let (po, pc) = (part(ks, true), part(ks, false));
    let rest = f.open.remove(i);
    let old = rest + f.closed;
    let new = po + pc;
    let all = f.all();
    let at = |x: int| if x < i { x } else { x + 1 };
    kids_facts(t, h, b);
    part_from(ks, true);
    part_from(ks, false);
    part_all_prefix_free(ks);
    assert(all[i] == h);
    assert forall|x: int| 0 <= x < old.len() implies #[trigger] old[x] == all[at(x)] && apart(
        old[x].decisions,
        h.decisions,
    ) by {
        assert(at(x) != i);
        assert(!begins(all[at(x)].decisions, all[i].decisions));
        assert(!begins(all[i].decisions, all[at(x)].decisions));
    }
    assert forall|x: int, y: int|
        0 <= x < old.len() && 0 <= y < old.len() && x != y implies !begins(
        (#[trigger] old[x]).decisions,
        (#[trigger] old[y]).decisions,
    ) by {
        assert(!begins(all[at(x)].decisions, all[at(y)].decisions));
    }
    assert forall|x: int, y: int| 0 <= x < old.len() && 0 <= y < new.len() implies apart(
        (#[trigger] old[x]).decisions,
        (#[trigger] new[y]).decisions,
    ) by {
        assert(ks.contains(new[y])) by {
            if y < po.len() {
                assert(new[y] == po[y]);
            } else {
                assert(new[y] == pc[y - po.len()]);
            }
        }
        let j = ks.index_of(new[y]);
        apart_longer(old[x].decisions, h.decisions, ks[j].decisions);
    }
    prefix_free_join(old, new);
    prefix_free_shuffle(rest, po, f.closed, pc);
}

/// Every frontier of the computation tree holds paths of the process, no one of
/// which begins another.
pub proof fn front_at_sound<N: Number>(t: &Tree<N>, m: Moves)
    requires
        t.wf(),
        legal(t, m),
    ensures
        sound(t, front_at(t, m)),
    decreases m.len(),
{
    if m.len() == 0 {
        front_of_sound(t);
    } else {
        front_at_sound(t, m.drop_last());
        resolved_sound(t, front_at(t, m.drop_last()), m.last().0, m.last().1);
    }
}

} // verus!
