//! The search: one computation tree, several workers.
//!
//! A worker that holds a node tests the two bounds on it, and when neither fires
//! it elects one open history, resolves the choice its state ends at, keeps the
//! low branch and pushes the high one on its stack.
//!
//! Workers are arranged in a ring: a worker that has nothing left takes from the
//! **bottom** of the stack of its predecessor. The computation ends when a
//! frontier passes the accepting test, which stops every worker at once, or when
//! every worker is idle, which is the case where no strategy exists.

use vstd::arithmetic::power2::{lemma2_to64, lemma_pow2_unfold, pow2};
use vstd::prelude::*;
use std::collections::VecDeque;
use std::time::Instant;
use crate::config::{Config, Selection, Steal};
use crate::ct::{plain, reports, CtNode, Strategy, Verdict};
use crate::draw::{elect, election, ids_at, probs_at, Rng};
use crate::effort::{pow3_grows, split_weighs, total, total_first, total_push, total_update, weight};
use crate::frontier::{
    accepted, agrees, decisions_of, elects, front_at, front_at_sound, legal, open_waits, refutable,
    refutable_split, refuted, rejected, Moves, Tests,
};
use crate::history::trail;
use crate::num::{exact, Number};
use crate::play::{
    act_v, after, clock_struck, comes_first, comes_next, comes_round, comes_to, counted_v, counting,
    divide_v, elected, ended, ends, fetch_v, id_of, leave_v, looked_at, most_open, paused, played,
    scene_begins, seeded, sizes_of, split_v, tallies, Ending, Hand, Rules, Scene, Signal,
};
use crate::pool::{victim, Pool};
use crate::state::{opening, reply, StepError};
use crate::strategy::{fits, worth, Policy};
use crate::tables::{child_of, Branch, Lore, Store};
use crate::text::{decimal, decimal_of};
use crate::tree::Tree;
use crate::unfolding::ahead;
use crate::verdict::{
    accepted_fits, decisions_distinct, every_path_holds_a_strategy, fits_limit, limit,
    limit_is_budget, policy_of, refuted_misses,
};
use vstd::string::*;

verus! {

/// The standard library's clock reading.
#[verifier::external_type_specification]
#[verifier::external_body]
pub struct ExInstant(std::time::Instant);

/// `Instant::now` reads the clock. Nothing is claimed of the reading.
#[verifier::external_body]
fn now() -> (r: Instant) {
    Instant::now()
}

/// `Instant::elapsed`, in nanoseconds. Nothing is claimed of the reading.
#[verifier::external_body]
fn nanos_since(start: &Instant) -> (r: u128) {
    start.elapsed().as_nanos()
}

/// One worker: the node it holds, and the nodes it has yet to look at.
///
/// The nodes a worker has yet to look at are its own and are not shared. What is
/// shared is an overflow, and the worker feeds it only while it is empty, so a
/// thief always has something to take. The node handed over is the **oldest** the
/// worker holds, which in a depth-first search is the largest subtree left to do.
pub struct Worker<N> {
    pub rng: Rng,
    pub node: Option<CtNode<N>>,
    pub local: VecDeque<CtNode<N>>,
    /// How many nodes the worker has looked at.
    pub expanded: u64,
    /// How many since it last took one from a stack.
    pub since: u64,
    /// The largest number of open histories it has met.
    pub peak: u64,
}

/// What a worker has done in one turn, and what it comes to.
pub open spec fn signalled<N: Number>(r: Turn, s: Signal, node: Option<CtNode<N>>) -> bool {
    match r {
        Turn::Idle => s is Idle,
        Turn::Busy => s is Busy,
        Turn::Accept(_) => node matches Some(n) && s == Signal::Accept(n.moves@),
        Turn::Fail(_) => s is Fail,
    }
}

/// The election reads nothing but the histories and the order of their names.
proof fn elected_is<N: Number>(store: &Store<N>, n: &CtNode<N>, selection: Selection, x: u64)
    requires
        store.inv(),
        n.frontier.shows(store.records, n.front(store.tree)),
    ensures
        election(store.records, n.frontier.open@, selection, x) == elected::<N>(
            store.records.names(),
            n.front(store.tree).open,
            selection,
            x,
        ),
{
    let open = n.frontier.open@;
    let f = n.front(store.tree).open;
    let names = store.records.names();
    assert(store.records.paths(open) == f);
    assert forall|i: int| 0 <= i < open.len() implies f[i] == store.records.leaf(
        #[trigger] open[i] as int,
    ) by {
        assert(store.records.paths(open)[i] == f[i]);
    }
    assert(probs_at(store.records, open) =~= Seq::new(f.len(), |i: int| f[i].prob)) by {
        assert forall|i: int| 0 <= i < open.len() implies probs_at(store.records, open)[i]
            == f[i].prob by {
            assert(f[i] == store.records.leaf(open[i] as int));
        }
    }
    let ids = Seq::new(f.len(), |i: int| id_of(names, f[i].decisions));
    assert(ids_at(store.records, open) =~= ids) by {
        assert forall|i: int| 0 <= i < open.len() implies ids_at(store.records, open)[i]
            == ids[i] by {
            let q = open[i] as int;
            assert(f[i] == store.records.leaf(q));
            assert(store.hist_true(q));
            let d = f[i].decisions;
            assert(names[q] == d);
            assert(names.contains(d));
            let j = names.index_of(d);
            assert(names[j] == d);
            let hs = store.records.histories@;
            if j < q {
                assert(hs[j].dh@ != hs[q].dh@);
            } else if q < j {
                assert(hs[q].dh@ != hs[j].dh@);
            }
        }
    }
}

/// What a worker has done in one turn.
pub enum Turn {
    /// Nothing: there was nothing to take.
    Idle,
    /// It took a node, or looked at one.
    Busy,
    /// The node it looked at passes the accepting test.
    Accept(Strategy),
    /// A macro step branches too widely to hold.
    Fail(StepError),
}

/// Every node of a list is where its path leads.
pub open spec fn nodes_inv<N: Number>(s: Seq<CtNode<N>>, store: &Store<N>, record: bool) -> bool {
    forall|i: int| 0 <= i < s.len() ==> (#[trigger] s[i]).inv(store, record)
}

pub open spec fn pool_inv<N: Number>(p: Pool<CtNode<N>>, store: &Store<N>, record: bool) -> bool {
    forall|i: int|
        0 <= i < p.stacks@.len() ==> nodes_inv((#[trigger] p.stacks@[i])@, store, record)
}

/// Every node of a list can be refuted.
pub open spec fn nodes_refutable<N: Number>(
    s: Seq<CtNode<N>>,
    t: &Tree<N>,
    x: Tests<N::Value>,
) -> bool {
    forall|i: int| 0 <= i < s.len() ==> refutable(t, x, (#[trigger] s[i]).moves@)
}

pub open spec fn pool_refutable<N: Number>(
    p: Pool<CtNode<N>>,
    t: &Tree<N>,
    x: Tests<N::Value>,
) -> bool {
    forall|i: int|
        0 <= i < p.stacks@.len() ==> nodes_refutable((#[trigger] p.stacks@[i])@, t, x)
}

/// What is left to do below the nodes of a list.
pub open spec fn nodes_effort<N: Number>(t: &Tree<N>, handed: nat) -> spec_fn(CtNode<N>) -> nat {
    |n: CtNode<N>| weight(t, n.moves@) + handed
}

pub open spec fn stack_effort<N: Number>(t: &Tree<N>) -> spec_fn(VecDeque<CtNode<N>>) -> nat {
    |d: VecDeque<CtNode<N>>| total(d@, nodes_effort(t, 1))
}

pub open spec fn pool_effort<N: Number>(p: Pool<CtNode<N>>, t: &Tree<N>) -> nat {
    total(p.stacks@, stack_effort(t))
}

/// The paths these nodes stand at.
pub open spec fn moves_of<N: Number>(s: Seq<CtNode<N>>) -> Seq<Moves> {
    Seq::new(s.len(), |i: int| s[i].moves@)
}

pub open spec fn stacks_of<N: Number>(p: Pool<CtNode<N>>) -> Seq<Seq<Moves>> {
    Seq::new(p.stacks@.len(), |i: int| moves_of(p.stacks@[i]@))
}

/// What a search is played by.
pub open spec fn rules_of<N: Number>(cfg: Config<N>, steal: Steal, max_outcomes: usize) -> Rules<
    N::Value,
> {
    Rules { tests: cfg.tests(), selection: cfg.selection, steal, max_outcomes }
}

impl<N: Number> Worker<N> {
    /// What the worker holds.
    pub open spec fn hand(&self) -> Hand {
        Hand {
            rng: self.rng.0,
            node: match self.node {
                Some(n) => Some(n.moves@),
                None => None,
            },
            local: moves_of(self.local@),
            expanded: self.expanded,
            since: self.since,
            peak: self.peak as nat,
        }
    }

    pub open spec fn inv(&self, store: &Store<N>, record: bool) -> bool {
        &&& self.node matches Some(n) ==> n.inv(store, record)
        &&& nodes_inv(self.local@, store, record)
        &&& self.node is None ==> self.local@.len() == 0
    }

    pub open spec fn is_refutable(&self, t: &Tree<N>, x: Tests<N::Value>) -> bool {
        &&& self.node matches Some(n) ==> refutable(t, x, n.moves@)
        &&& nodes_refutable(self.local@, t, x)
    }

    pub open spec fn effort(&self, t: &Tree<N>) -> nat {
        (match self.node {
            Some(n) => weight(t, n.moves@),
            None => 0,
        }) + total(self.local@, nodes_effort(t, 0))
    }

    /// The worker of a place in the ring, with nothing to do.
    pub fn new(seed: u64, place: usize) -> (r: Worker<N>)
        ensures
            r.rng.0 == (seed ^ (place as u64).wrapping_mul(0x9E37_79B9_7F4A_7C15)) | 1,
            r.node is None,
            r.local@.len() == 0,
            r.expanded == 0,
            r.since == 0,
            r.peak == 0,
    {
        Worker {
            rng: Rng::new(seed ^ (place as u64).wrapping_mul(0x9E37_79B9_7F4A_7C15)),
            node: None,
            local: VecDeque::new(),
            expanded: 0,
            since: 0,
            peak: 0,
        }
    }

    pub proof fn inv_kept(&self, before: &Store<N>, store: &Store<N>, record: bool)
        requires
            self.inv(before, record),
            before.inv(),
            store.grown_from(before),
        ensures
            self.inv(store, record),
    {
        if let Some(n) = self.node {
            n.inv_kept(before, store, record);
        }
        nodes_kept(self.local@, before, store, record);
    }

    /// Takes a node from the stacks, when there is one.
    pub fn fetch(&mut self, pool: &mut Pool<CtNode<N>>, place: usize) -> (r: bool)
        requires
            old(self).node is None,
            place < old(pool).stacks@.len(),
        ensures
            r == final(self).node is Some,
            final(self).local == old(self).local,
            final(self).expanded == old(self).expanded,
            final(self).peak == old(self).peak,
            final(self).rng == old(self).rng,
            r ==> final(self).since == 0,
            !r ==> *final(self) == *old(self) && final(pool).stacks@.len() == old(pool).stacks@.len()
                && (forall|i: int|
                0 <= i < old(pool).stacks@.len() ==> (#[trigger] final(pool).stacks@[i])@ == old(
                    pool,
                ).stacks@[i]@) && old(pool).stacks@[place as int]@.len() == 0,
            final(pool).stacks@.len() == old(pool).stacks@.len(),
            final(pool).steal == old(pool).steal,
            r ==> fetched(*old(pool), *final(pool), final(self).node.unwrap()),
            forall|lore: Lore|
                {
                    let d = #[trigger] fetch_v(
                        old(pool).steal,
                        lore,
                        old(self).hand(),
                        stacks_of(*old(pool)),
                        place as int,
                    );
                    &&& d.lore == lore
                    &&& d.hand == final(self).hand()
                    &&& d.stacks == stacks_of(*final(pool))
                    &&& d.signal == if r { Signal::Busy } else { Signal::Idle }
                },
    {
        let ghost start = *pool;
        assert(sizes_of(stacks_of(start)) =~= start.sizes());
        match pool.take(place) {
            Some(n) => {
                proof {
                    let own = start.stacks@[place as int]@;
                    if own.len() > 0 {
                        assert(moves_of(own.drop_last()) =~= moves_of(own).drop_last());
                        assert(stacks_of(*pool) =~= stacks_of(start).update(
                            place as int,
                            moves_of(own).drop_last(),
                        ));
                    } else {
                        let v = victim(start.sizes(), place as int, start.steal).unwrap();
                        let s = start.stacks@[v]@;
                        assert(moves_of(s.subrange(1, s.len() as int)) =~= moves_of(s).skip(1));
                        assert(stacks_of(*pool) =~= stacks_of(start).update(
                            v,
                            moves_of(s).skip(1),
                        ));
                    }
                    let s = start.stacks@;
                    if s[place as int]@.len() > 0 {
                        assert(taken(start, *pool, n, place as int, true));
                    } else {
                        let v = victim(
                            start.sizes(),
                            place as int,
                            start.steal,
                        ).unwrap();
                        assert(taken(start, *pool, n, v, false));
                    }
                }
                self.since = 0;
                self.node = Some(n);
                true
            },
            None => {
                assert(stacks_of(*pool) =~= stacks_of(start));
                false
            },
        }
    }
}

/// One node has left a stack, from the top or from the bottom.
pub open spec fn taken<N: Number>(
    a: Pool<CtNode<N>>,
    b: Pool<CtNode<N>>,
    n: CtNode<N>,
    v: int,
    top: bool,
) -> bool {
    let s = a.stacks@[v]@;
    &&& 0 <= v < a.stacks@.len()
    &&& b.stacks@.len() == a.stacks@.len()
    &&& s.len() > 0
    &&& n == if top {
        s.last()
    } else {
        s[0]
    }
    &&& b.stacks@[v]@ == if top {
        s.drop_last()
    } else {
        s.subrange(1, s.len() as int)
    }
    &&& forall|i: int|
        0 <= i < a.stacks@.len() && i != v ==> (#[trigger] b.stacks@[i])@ == a.stacks@[i]@
}

pub open spec fn fetched<N: Number>(
    a: Pool<CtNode<N>>,
    b: Pool<CtNode<N>>,
    n: CtNode<N>,
) -> bool {
    exists|v: int, top: bool| taken(a, b, n, v, top)
}

proof fn nodes_kept<N: Number>(
    s: Seq<CtNode<N>>,
    before: &Store<N>,
    store: &Store<N>,
    record: bool,
)
    requires
        nodes_inv(s, before, record),
        before.inv(),
        store.grown_from(before),
    ensures
        nodes_inv(s, store, record),
{
    assert forall|i: int| 0 <= i < s.len() implies (#[trigger] s[i]).inv(store, record) by {
        s[i].inv_kept(before, store, record);
    }
}

pub proof fn pool_kept<N: Number>(
    p: Pool<CtNode<N>>,
    before: &Store<N>,
    store: &Store<N>,
    record: bool,
)
    requires
        pool_inv(p, before, record),
        before.inv(),
        store.grown_from(before),
    ensures
        pool_inv(p, store, record),
{
    assert forall|i: int| 0 <= i < p.stacks@.len() implies nodes_inv(
        (#[trigger] p.stacks@[i])@,
        store,
        record,
    ) by {
        nodes_kept(p.stacks@[i]@, before, store, record);
    }
}

/// Sums over stacks that hold the same nodes.
proof fn effort_same<N: Number>(
    a: Seq<VecDeque<CtNode<N>>>,
    b: Seq<VecDeque<CtNode<N>>>,
    t: &Tree<N>,
)
    requires
        a.len() == b.len(),
        forall|i: int| 0 <= i < a.len() ==> (#[trigger] a[i])@ == b[i]@,
    ensures
        total(a, stack_effort(t)) == total(b, stack_effort(t)),
    decreases a.len(),
{
    if a.len() > 0 {
        let (x, y) = (a.drop_last(), b.drop_last());
        assert forall|i: int| 0 <= i < x.len() implies (#[trigger] x[i])@ == y[i]@ by {
            assert(x[i] == a[i]);
        }
        effort_same(x, y, t);
        assert(a[a.len() - 1]@ == b[b.len() - 1]@);
    }
}

/// One stack changes.
proof fn effort_changed<N: Number>(
    a: Seq<VecDeque<CtNode<N>>>,
    b: Seq<VecDeque<CtNode<N>>>,
    t: &Tree<N>,
    v: int,
)
    requires
        a.len() == b.len(),
        0 <= v < a.len(),
        forall|i: int| 0 <= i < a.len() && i != v ==> (#[trigger] b[i])@ == a[i]@,
    ensures
        total(b, stack_effort(t)) + total(a[v]@, nodes_effort(t, 1)) == total(a, stack_effort(t))
            + total(b[v]@, nodes_effort(t, 1)),
{
    let c = a.update(v, b[v]);
    total_update(a, v, b[v], stack_effort(t));
    assert forall|i: int| 0 <= i < c.len() implies (#[trigger] c[i])@ == b[i]@ by {}
    effort_same(c, b, t);
}

/// What taking a node does to the rest.
proof fn taken_facts<N: Number>(
    a: Pool<CtNode<N>>,
    b: Pool<CtNode<N>>,
    n: CtNode<N>,
    store: &Store<N>,
    record: bool,
    x: Tests<N::Value>,
)
    requires
        fetched(a, b, n),
        pool_inv(a, store, record),
    ensures
        pool_inv(b, store, record),
        n.inv(store, record),
        pool_effort(b, store.tree) + weight(store.tree, n.moves@) + 1 == pool_effort(a, store.tree),
        pool_refutable(b, store.tree, x) && refutable(store.tree, x, n.moves@)
            ==> pool_refutable(a, store.tree, x),
{
    let t = store.tree;
    let (v, top) = choose|v: int, top: bool| taken(a, b, n, v, top);
    let s = a.stacks@[v]@;
    let r = b.stacks@[v]@;
    assert(nodes_inv(a.stacks@[v]@, store, record));
    assert(n.inv(store, record)) by {
        if top {
            assert(s[s.len() - 1].inv(store, record));
        } else {
            assert(s[0].inv(store, record));
        }
    }
    assert forall|i: int| 0 <= i < b.stacks@.len() implies nodes_inv(
        (#[trigger] b.stacks@[i])@,
        store,
        record,
    ) by {
        assert(nodes_inv(a.stacks@[i]@, store, record));
        if i == v {
            assert forall|j: int| 0 <= j < r.len() implies (#[trigger] r[j]).inv(store, record) by {
                assert(r[j] == s[if top { j } else { j + 1 }]);
            }
        }
    }
    effort_changed(a.stacks@, b.stacks@, t, v);
    if top {
        assert(s =~= s.drop_last().push(s.last()));
        total_push(s.drop_last(), s.last(), nodes_effort(t, 1));
    } else {
        total_first(s, nodes_effort(t, 1));
    }
    if pool_refutable(b, t, x) && refutable(t, x, n.moves@) {
        assert forall|i: int| 0 <= i < a.stacks@.len() implies nodes_refutable(
            (#[trigger] a.stacks@[i])@,
            t,
            x,
        ) by {
            assert(nodes_refutable(b.stacks@[i]@, t, x));
            if i == v {
                assert forall|j: int| 0 <= j < s.len() implies refutable(
                    t,
                    x,
                    (#[trigger] s[j]).moves@,
                ) by {
                    if top {
                        if j < s.len() - 1 {
                            assert(r[j] == s[j]);
                        }
                    } else if j > 0 {
                        assert(r[j - 1] == s[j]);
                    }
                }
            }
        }
    }
}

/// The macro step the open history `i` of the frontier at `m` starts with the
/// branch `b` has more outcomes than can be held.
pub open spec fn wide_at<N: Number>(t: &Tree<N>, m: Moves, i: int, b: Branch, max: usize) -> bool {
    let h = front_at(t, m).open[i];
    let ls = reply(t, h.state, child_of(t, h.state, b));
    &&& legal(t, m)
    &&& elects(t, m, i)
    &&& ls.len() > 1
    &&& ls.len() > max
}

/// Some macro step of the computation tree has more outcomes than can be held.
pub open spec fn too_wide<N: Number>(t: &Tree<N>, max: usize) -> bool {
    ||| opening(t).len() > 1 && opening(t).len() > max
    ||| exists|m: Moves, i: int, b: Branch| wide_at(t, m, i, b, max)
}

impl<N: Number> Worker<N> {
    /// Counts the node the worker is about to look at.
    pub fn count(&mut self)
        requires
            old(self).node is Some,
        ensures
            final(self).node == old(self).node,
            final(self).local == old(self).local,
            final(self).rng == old(self).rng,
            final(self).expanded == old(self).expanded.wrapping_add(1),
            final(self).since == old(self).since.wrapping_add(1),
            final(self).peak == old(self).peak,
    {
        self.expanded = self.expanded.wrapping_add(1);
        self.since = self.since.wrapping_add(1);
    }

    /// Notes how many open histories the node has, where it has the most so far.
    pub fn mark(&mut self)
        requires
            old(self).node is Some,
        ensures
            final(self).node == old(self).node,
            final(self).local == old(self).local,
            final(self).rng == old(self).rng,
            final(self).expanded == old(self).expanded,
            final(self).since == old(self).since,
            final(self).peak == ({
                let open = old(self).node.unwrap().frontier.open@.len();
                if open > old(self).peak {
                    open
                } else {
                    old(self).peak as nat
                }
            }),
    {
        let open = match &self.node {
            Some(n) => n.frontier.open.len() as u64,
            None => 0,
        };
        if open > self.peak {
            self.peak = open;
        }
    }

    /// Leaves the node, which carries no strategy, for the next one.
    pub fn leave(&mut self)
        requires
            old(self).node is Some,
        ensures
            final(self).node == (if old(self).local@.len() > 0 {
                Some(old(self).local@.last())
            } else {
                None
            }),
            final(self).local@ == (if old(self).local@.len() > 0 {
                old(self).local@.drop_last()
            } else {
                old(self).local@
            }),
            final(self).rng == old(self).rng,
            final(self).expanded == old(self).expanded,
            final(self).since == old(self).since,
            final(self).peak == old(self).peak,
    {
        self.node = self.local.pop_back();
    }

    proof fn left(&self, before: &Worker<N>, store: &Store<N>, record: bool, x: Tests<N::Value>)
        requires
            before.node is Some,
            before.inv(store, record),
            rejected::<N>(x, before.node.unwrap().front(store.tree)),
            self.node == (if before.local@.len() > 0 {
                Some(before.local@.last())
            } else {
                None
            }),
            self.local@ == (if before.local@.len() > 0 {
                before.local@.drop_last()
            } else {
                before.local@
            }),
        ensures
            self.inv(store, record),
            self.effort(store.tree) < before.effort(store.tree),
            self.is_refutable(store.tree, x) ==> before.is_refutable(store.tree, x),
    {
        let t = store.tree;
        let m = before.node.unwrap().moves@;
        assert(refuted(t, x, m, 0));
        assert(refutable(t, x, m));
        pow3_grows(0, ahead(t, front_at(t, m).open) + 1);
        let l = before.local@;
        if l.len() > 0 {
            assert(l =~= l.drop_last().push(l.last()));
            total_push(l.drop_last(), l.last(), nodes_effort(t, 0));
            assert(l[l.len() - 1].inv(store, record));
            assert forall|i: int| 0 <= i < self.local@.len() implies (
            #[trigger] self.local@[i]).inv(store, record) by {
                assert(self.local@[i] == l[i]);
            }
            if self.is_refutable(t, x) {
                assert forall|i: int| 0 <= i < l.len() implies refutable(
                    t,
                    x,
                    (#[trigger] l[i]).moves@,
                ) by {
                    if i < l.len() - 1 {
                        assert(self.local@[i] == l[i]);
                    }
                }
            }
        }
    }

    /// Splits the node at its open history `at`: the low branch is the next
    /// node, the high branch is kept for later.
    pub fn split(&mut self, store: &Store<N>, cfg: &Config<N>, at: usize, low: usize, high: usize)
        requires
            store.inv(),
            old(self).inv(store, cfg.record_strategy),
            old(self).node is Some,
            ({
                let open = old(self).node.unwrap().frontier.open@;
                &&& at < open.len()
                &&& low < store.records.expansions@.len()
                &&& high < store.records.expansions@.len()
                &&& store.expands(
                    low as int,
                    store.records.leaf(open[at as int] as int),
                    Branch::Low,
                )
                &&& store.expands(
                    high as int,
                    store.records.leaf(open[at as int] as int),
                    Branch::High,
                )
            }),
        ensures
            final(self).inv(store, cfg.record_strategy),
            final(self).node is Some,
            ({
                let m = old(self).node.unwrap().moves@;
                &&& final(self).node.unwrap().moves@ == m.push((at as int, Branch::Low))
                &&& final(self).local@.len() == old(self).local@.len() + 1
                &&& final(self).local@.drop_last() == old(self).local@
                &&& final(self).local@.last().moves@ == m.push((at as int, Branch::High))
            }),
            final(self).rng == old(self).rng,
            final(self).expanded == old(self).expanded,
            final(self).since == old(self).since,
            final(self).peak == old(self).peak,
            final(self).effort(store.tree) + 1 < old(self).effort(store.tree),
            final(self).is_refutable(store.tree, cfg.tests()) ==> old(self).is_refutable(
                store.tree,
                cfg.tests(),
            ),
    {
        let ghost before = *self;
        let node = self.node.take();
        if let Some(n) = node {
            let (a, b) = n.split(store, cfg, at, low, high);
            self.local.push_back(b);
            self.node = Some(a);
            proof {
                let t = store.tree;
                let x = cfg.tests();
                let l = before.local@;
                assert(self.local@.drop_last() =~= l);
                assert(store.records.paths(n.frontier.open@).len() == n.frontier.open@.len());
                split_weighs(t, n.moves@, at as int);
                total_push(l, b, nodes_effort(t, 0));
                assert forall|i: int| 0 <= i < self.local@.len() implies (
                #[trigger] self.local@[i]).inv(store, cfg.record_strategy) by {
                    if i < l.len() {
                        assert(self.local@[i] == l[i]);
                    }
                }
                if self.is_refutable(t, x) {
                    assert(self.local@[l.len() as int] == b);
                    refutable_split(t, x, n.moves@, at as int);
                    assert forall|i: int| 0 <= i < l.len() implies refutable(
                        t,
                        x,
                        (#[trigger] l[i]).moves@,
                    ) by {
                        assert(self.local@[i] == l[i]);
                    }
                }
            }
        }
    }

    /// Hands the oldest node over while the stack others steal from is empty.
    pub fn hand_over(&mut self, pool: &mut Pool<CtNode<N>>, place: usize)
        requires
            place < old(pool).stacks@.len(),
        ensures
            final(self).node == old(self).node,
            final(self).rng == old(self).rng,
            final(self).expanded == old(self).expanded,
            final(self).since == old(self).since,
            final(self).peak == old(self).peak,
            final(pool).steal == old(pool).steal,
            final(pool).stacks@.len() == old(pool).stacks@.len(),
            forall|i: int|
                0 <= i < old(pool).stacks@.len() && i != place ==> (
                #[trigger] final(pool).stacks@[i]) == old(pool).stacks@[i],
            ({
                let l = old(self).local@;
                let s = old(pool).stacks@[place as int]@;
                if l.len() > 1 && s.len() == 0 {
                    &&& final(self).local@ == l.subrange(1, l.len() as int)
                    &&& final(pool).stacks@[place as int]@ == s.push(l[0])
                } else {
                    &&& final(self).local@ == l
                    &&& final(pool).stacks@[place as int]@ == s
                }
            }),
    {
        if self.local.len() > 1 && pool.is_empty(place) {
            if let Some(n) = self.local.pop_front() {
                pool.push(place, n);
            }
        }
    }

    proof fn handed(
        &self,
        before: &Worker<N>,
        pool: Pool<CtNode<N>>,
        before_pool: Pool<CtNode<N>>,
        place: int,
        store: &Store<N>,
        record: bool,
        x: Tests<N::Value>,
    )
        requires
            before.inv(store, record),
            before.node is Some,
            pool_inv(before_pool, store, record),
            self.node == before.node,
            0 <= place < before_pool.stacks@.len(),
            pool.stacks@.len() == before_pool.stacks@.len(),
            forall|i: int|
                0 <= i < before_pool.stacks@.len() && i != place ==> (#[trigger] pool.stacks@[i])
                    == before_pool.stacks@[i],
            ({
                let l = before.local@;
                let s = before_pool.stacks@[place]@;
                if l.len() > 1 && s.len() == 0 {
                    &&& self.local@ == l.subrange(1, l.len() as int)
                    &&& pool.stacks@[place]@ == s.push(l[0])
                } else {
                    &&& self.local@ == l
                    &&& pool.stacks@[place]@ == s
                }
            }),
        ensures
            self.inv(store, record),
            pool_inv(pool, store, record),
            self.effort(store.tree) + pool_effort(pool, store.tree) <= before.effort(store.tree)
                + pool_effort(before_pool, store.tree) + 1,
            self.is_refutable(store.tree, x) && pool_refutable(pool, store.tree, x)
                ==> before.is_refutable(store.tree, x) && pool_refutable(
                before_pool,
                store.tree,
                x,
            ),
    {
        let t = store.tree;
        let l = before.local@;
        let s = before_pool.stacks@[place]@;
        effort_changed(before_pool.stacks@, pool.stacks@, t, place);
        assert forall|i: int| 0 <= i < self.local@.len() implies (#[trigger] self.local@[i]).inv(
            store,
            record,
        ) by {
            if l.len() > 1 && s.len() == 0 {
                assert(self.local@[i] == l[i + 1]);
            } else {
                assert(self.local@[i] == l[i]);
            }
        }
        if l.len() > 1 && s.len() == 0 {
            total_first(l, nodes_effort(t, 0));
            total_push(s, l[0], nodes_effort(t, 1));
        }
        assert forall|i: int| 0 <= i < pool.stacks@.len() implies nodes_inv(
            (#[trigger] pool.stacks@[i])@,
            store,
            record,
        ) by {
            assert(nodes_inv(before_pool.stacks@[i]@, store, record));
            if i == place && l.len() > 1 && s.len() == 0 {
                assert(l[0].inv(store, record));
                assert(pool.stacks@[i]@ =~= seq![l[0]]);
            }
        }
        if self.is_refutable(t, x) && pool_refutable(pool, t, x) {
            assert forall|i: int| 0 <= i < l.len() implies refutable(
                t,
                x,
                (#[trigger] l[i]).moves@,
            ) by {
                if l.len() > 1 && s.len() == 0 {
                    if i == 0 {
                        assert(nodes_refutable(pool.stacks@[place]@, t, x));
                        assert(pool.stacks@[place]@[0] == l[0]);
                    } else {
                        assert(self.local@[i - 1] == l[i]);
                    }
                } else {
                    assert(self.local@[i] == l[i]);
                }
            }
            assert forall|i: int| 0 <= i < before_pool.stacks@.len() implies nodes_refutable(
                (#[trigger] before_pool.stacks@[i])@,
                t,
                x,
            ) by {
                assert(nodes_refutable(pool.stacks@[i]@, t, x));
                if i == place {
                    if l.len() > 1 && s.len() == 0 {
                        assert(before_pool.stacks@[i]@.len() == 0);
                    }
                }
            }
        }
    }

    /// A split and a handing over, as the paths show them.
    proof fn split_shows(
        &self,
        start: &Worker<N>,
        mid: &Worker<N>,
        pool: Pool<CtNode<N>>,
        before: Pool<CtNode<N>>,
        place: int,
        at: int,
    )
        requires
            start.node is Some,
            mid.node is Some,
            ({
                let m = start.node.unwrap().moves@;
                &&& mid.node.unwrap().moves@ == m.push((at, Branch::Low))
                &&& mid.local@.len() == start.local@.len() + 1
                &&& mid.local@.drop_last() == start.local@
                &&& mid.local@.last().moves@ == m.push((at, Branch::High))
            }),
            mid.rng == start.rng,
            mid.expanded == start.expanded,
            mid.since == start.since,
            mid.peak == start.peak,
            self.node == mid.node,
            self.rng == mid.rng,
            self.expanded == mid.expanded,
            self.since == mid.since,
            self.peak == mid.peak,
            0 <= place < before.stacks@.len(),
            pool.stacks@.len() == before.stacks@.len(),
            forall|i: int|
                0 <= i < before.stacks@.len() && i != place ==> (#[trigger] pool.stacks@[i])
                    == before.stacks@[i],
            ({
                let l = mid.local@;
                let s = before.stacks@[place]@;
                if l.len() > 1 && s.len() == 0 {
                    &&& self.local@ == l.subrange(1, l.len() as int)
                    &&& pool.stacks@[place]@ == s.push(l[0])
                } else {
                    &&& self.local@ == l
                    &&& pool.stacks@[place]@ == s
                }
            }),
        ensures
            split_v(start.hand(), stacks_of(before), start.node.unwrap().moves@, at, place) == (
                self.hand(),
                stacks_of(pool),
            ),
    {
        let m = start.node.unwrap().moves@;
        let l = mid.local@;
        let own = before.stacks@[place]@;
        assert(l =~= start.local@.push(l.last()));
        assert(moves_of(l) =~= moves_of(start.local@).push(m.push((at, Branch::High))));
        assert(stacks_of(before)[place] == moves_of(own));
        if l.len() > 1 && own.len() == 0 {
            assert(moves_of(l.subrange(1, l.len() as int)) =~= moves_of(l).skip(1));
            assert(moves_of(own.push(l[0])) =~= moves_of(own).push(l[0].moves@));
            assert(stacks_of(pool) =~= stacks_of(before).update(
                place,
                moves_of(own).push(l[0].moves@),
            ));
        } else {
            assert(stacks_of(pool) =~= stacks_of(before));
        }
    }

    /// Resolves a choice of the node: elects one of its open histories, keeps
    /// the low branch, and hands a node over where others have nothing to steal.
    #[verifier::rlimit(40)]
    fn divide(
        &mut self,
        place: usize,
        store: &mut Store<N>,
        pool: &mut Pool<CtNode<N>>,
        cfg: &Config<N>,
    ) -> (r: Turn)
        requires
            old(store).inv(),
            old(self).inv(old(store), cfg.record_strategy),
            old(self).node is Some,
            old(self).node.unwrap().frontier.open@.len() > 0,
            pool_inv(*old(pool), old(store), cfg.record_strategy),
            place < old(pool).stacks@.len(),
        ensures
            final(store).inv(),
            final(store).grown_from(old(store)),
            final(self).inv(final(store), cfg.record_strategy),
            pool_inv(*final(pool), final(store), cfg.record_strategy),
            final(pool).stacks@.len() == old(pool).stacks@.len(),
            final(pool).steal == old(pool).steal,
            ({
                let t = old(store).tree;
                let x = cfg.tests();
                match r {
                    Turn::Busy => {
                        &&& final(self).effort(t) + pool_effort(*final(pool), t)
                            < old(self).effort(t) + pool_effort(*old(pool), t)
                        &&& final(self).is_refutable(t, x) && pool_refutable(*final(pool), t, x)
                            ==> old(self).is_refutable(t, x) && pool_refutable(*old(pool), t, x)
                    },
                    Turn::Fail(e) => {
                        &&& e == StepError::TooManyOutcomes(old(store).engine.max_outcomes)
                        &&& too_wide(t, old(store).engine.max_outcomes)
                    },
                    _ => false,
                }
            }),
            ({
                let d = divide_v(
                    old(store).tree,
                    rules_of(*cfg, old(pool).steal, old(store).engine.max_outcomes),
                    old(store).lore(),
                    old(self).hand(),
                    stacks_of(*old(pool)),
                    old(self).node.unwrap().moves@,
                    place as int,
                );
                &&& final(store).lore() == d.lore
                &&& final(self).hand() == d.hand
                &&& stacks_of(*final(pool)) == d.stacks
                &&& signalled(r, d.signal, old(self).node)
            }),
    {
        let ghost store0 = *store;
        let ghost t = store.tree;
        let ghost x = cfg.tests();
        let ghost record = cfg.record_strategy;
        let mut at: usize = 0;
        let mut elected: usize = 0;
        if let Some(n) = &self.node {
            assert(store.records.paths(n.frontier.open@).len() == n.frontier.open@.len());
            at = elect(&store.records, &n.frontier.open, cfg.selection, &mut self.rng);
            elected = n.frontier.open[at];
        }
        let ghost n = self.node.unwrap();
        let ghost m = n.moves@;
        proof {
            front_at_sound(t, m);
            assert(store.records.paths(n.frontier.open@)[at as int] == front_at(
                t,
                m,
            ).open[at as int]);
            assert(elects(t, m, at as int));
            elected_is(store, &n, cfg.selection, old(self).rng.0);
            assert(store.records.leaf(elected as int) == front_at(t, m).open[at as int]);
        }
        let low = match store.children(elected, Branch::Low) {
            Ok(v) => v,
            Err(e) => {
                proof {
                    assert(wide_at(
                        t,
                        m,
                        at as int,
                        Branch::Low,
                        store0.engine.max_outcomes,
                    ));
                    self.inv_kept(&store0, store, record);
                    pool_kept(*pool, &store0, store, record);
                }
                return Turn::Fail(e);
            },
        };
        let ghost store1 = *store;
        proof {
            store1.leaf_kept(&store0, elected as int);
        }
        let high = match store.children(elected, Branch::High) {
            Ok(v) => v,
            Err(e) => {
                proof {
                    assert(wide_at(
                        t,
                        m,
                        at as int,
                        Branch::High,
                        store0.engine.max_outcomes,
                    ));
                    self.inv_kept(&store0, &store1, record);
                    pool_kept(*pool, &store0, &store1, record);
                    self.inv_kept(&store1, store, record);
                    pool_kept(*pool, &store1, store, record);
                }
                return Turn::Fail(e);
            },
        };
        proof {
            self.inv_kept(&store0, &store1, record);
            pool_kept(*pool, &store0, &store1, record);
            self.inv_kept(&store1, store, record);
            pool_kept(*pool, &store1, store, record);
            store.leaf_kept(&store1, elected as int);
            store.expands_kept(&store1, low as int, store.records.leaf(elected as int), Branch::Low);
        }
        let ghost start = *self;
        self.split(store, cfg, at, low, high);
        let ghost before = *self;
        let ghost before_pool = *pool;
        self.hand_over(pool, place);
        proof {
            self.split_shows(&start, &before, *pool, before_pool, place as int, at as int);
            self.handed(&before, *pool, before_pool, place as int, store, record, x);
        }
        Turn::Busy
    }

    /// One turn of a worker that has counted its node: it takes a node when it
    /// holds none, and otherwise looks at the one it holds.
    pub fn turn(
        &mut self,
        place: usize,
        store: &mut Store<N>,
        pool: &mut Pool<CtNode<N>>,
        cfg: &Config<N>,
    ) -> (r: Turn)
        requires
            old(store).inv(),
            old(self).inv(old(store), cfg.record_strategy),
            pool_inv(*old(pool), old(store), cfg.record_strategy),
            place < old(pool).stacks@.len(),
        ensures
            final(store).inv(),
            final(store).grown_from(old(store)),
            final(self).inv(final(store), cfg.record_strategy),
            pool_inv(*final(pool), final(store), cfg.record_strategy),
            final(pool).stacks@.len() == old(pool).stacks@.len(),
            final(pool).steal == old(pool).steal,
            ({
                let t = old(store).tree;
                let x = cfg.tests();
                match r {
                    Turn::Idle => {
                        &&& *final(self) == *old(self)
                        &&& final(self).node is None
                        &&& old(pool).stacks@[place as int]@.len() == 0
                        &&& forall|i: int|
                            0 <= i < old(pool).stacks@.len() ==> (
                            #[trigger] final(pool).stacks@[i])@ == old(pool).stacks@[i]@
                        &&& *final(store) == *old(store)
                    },
                    Turn::Busy => {
                        &&& final(self).effort(t) + pool_effort(*final(pool), t)
                            < old(self).effort(t) + pool_effort(*old(pool), t)
                        &&& final(self).is_refutable(t, x) && pool_refutable(*final(pool), t, x)
                            ==> old(self).is_refutable(t, x) && pool_refutable(*old(pool), t, x)
                    },
                    Turn::Accept(s) => {
                        &&& old(self).node is Some
                        &&& accepted::<N>(x, old(self).node.unwrap().front(t))
                        &&& reports(s, t, cfg.record_strategy, old(self).node.unwrap().moves@)
                    },
                    Turn::Fail(e) => {
                        &&& e == StepError::TooManyOutcomes(old(store).engine.max_outcomes)
                        &&& too_wide(t, old(store).engine.max_outcomes)
                    },
                }
            }),
            ({
                let d = act_v(
                    old(store).tree,
                    rules_of(*cfg, old(pool).steal, old(store).engine.max_outcomes),
                    old(store).lore(),
                    old(self).hand(),
                    stacks_of(*old(pool)),
                    place as int,
                );
                &&& final(store).lore() == d.lore
                &&& final(self).hand() == d.hand
                &&& stacks_of(*final(pool)) == d.stacks
                &&& signalled(r, d.signal, old(self).node)
            }),
    {
        let ghost pool0 = *pool;
        let ghost x = cfg.tests();
        let ghost record = cfg.record_strategy;
        proof {
            reveal(act_v);
        }
        if self.node.is_none() {
            if !self.fetch(pool, place) {
                proof {
                    assert forall|i: int| 0 <= i < pool.stacks@.len() implies nodes_inv(
                        (#[trigger] pool.stacks@[i])@,
                        store,
                        record,
                    ) by {
                        assert(nodes_inv(pool0.stacks@[i]@, store, record));
                    }
                }
                return Turn::Idle;
            }
            proof {
                taken_facts(pool0, *pool, self.node.unwrap(), store, record, x);
            }
            return Turn::Busy;
        }
        self.mark();
        proof {
            let n = self.node.unwrap();
            assert(store.records.paths(n.frontier.open@).len() == n.frontier.open@.len());
        }
        let verdict = match &self.node {
            Some(n) => n.judge(store, cfg),
            None => Verdict::Reject,
        };
        match verdict {
            Verdict::Accept(s) => Turn::Accept(s),
            Verdict::Reject => {
                let ghost before = *self;
                self.leave();
                proof {
                    assert(self.hand().local =~= leave_v(before.hand()).local);
                    self.left(&before, store, record, x);
                }
                Turn::Busy
            },
            Verdict::Split => {
                proof {
                    let n = self.node.unwrap();
                    assert(store.records.paths(n.frontier.open@).len() == n.frontier.open@.len());
                }
                self.divide(place, store, pool, cfg)
            },
        }
    }
}

// ---------------------------------------------------------------------------
// the answer
// ---------------------------------------------------------------------------

pub enum Answer {
    Yes(Strategy),
    No,
    Timeout,
    Failed(String),
}

pub struct Stats {
    /// How many nodes were looked at.
    pub expanded: u64,
    pub choice_states: usize,
    pub histories: usize,
    pub macro_steps: usize,
    pub outcomes: usize,
    pub peak_open: u64,
    /// How long it took, in nanoseconds.
    pub elapsed: u128,
}

impl Default for Stats {
    fn default() -> (r: Stats)
        ensures
            r.expanded == 0,
            r.choice_states == 0,
            r.histories == 0,
            r.macro_steps == 0,
            r.outcomes == 0,
            r.peak_open == 0,
            r.elapsed == 0,
    {
        Stats {
            expanded: 0,
            choice_states: 0,
            histories: 0,
            macro_steps: 0,
            outcomes: 0,
            peak_open: 0,
            elapsed: 0,
        }
    }
}

/// The name of an error.
pub open spec fn error_text(e: StepError) -> Seq<char> {
    match e {
        StepError::TooManyOutcomes(n) => "TooManyOutcomes("@ + decimal(n as nat) + ")"@,
    }
}

/// The name of an error.
pub fn show_error(e: StepError) -> (r: String)
    ensures
        r@ == error_text(e),
{
    match e {
        StepError::TooManyOutcomes(n) => {
            let mut s = String::from_str("TooManyOutcomes(");
            s.append(decimal_of(n as u128).as_str());
            s.append(")");
            s
        },
    }
}

/// An answer is backed: a yes by a path of the computation tree whose frontier
/// passes the accepting test, a no by a cut of the tree all of whose leaves are
/// rejected, a timeout by a limit, a failure by a macro step that branches too
/// widely.
pub open spec fn backed<N: Number>(
    a: Answer,
    t: &Tree<N>,
    x: Tests<N::Value>,
    record: bool,
    timed: bool,
) -> bool {
    match a {
        Answer::Yes(s) => exists|m: Moves| #[trigger]
            legal(t, m) && accepted::<N>(x, front_at(t, m)) && reports(s, t, record, m),
        Answer::No => refutable(t, x, Seq::empty()),
        Answer::Timeout => timed,
        Answer::Failed(text) => too_wide(t, 4194304) && text@ == error_text(
            StepError::TooManyOutcomes(4194304),
        ),
    }
}

/// Whether the clock is read before a worker looks at the node it has counted,
/// which is the one of number `since` since it took one from a stack.
pub fn clock_due(timeout: Option<u128>, since: u64) -> (r: bool)
    ensures
        r == (timeout is Some && since % 4096 == 0),
{
    timeout.is_some() && since % 4096 == 0
}

/// Whether a search that has taken so long is over.
pub fn time_up(timeout: Option<u128>, elapsed: u128) -> (r: bool)
    ensures
        r == (timeout matches Some(limit) && elapsed >= limit),
{
    match timeout {
        Some(limit) => elapsed >= limit,
        None => false,
    }
}

/// The number of workers a search is run by.
pub open spec fn crew_size<N>(cfg: Config<N>) -> nat {
    if cfg.workers == 0 {
        1
    } else {
        cfg.workers as nat
    }
}

/// Every worker is where it should be.
spec fn crew_inv<N: Number>(ws: Seq<Worker<N>>, store: &Store<N>, record: bool) -> bool {
    forall|i: int| 0 <= i < ws.len() ==> (#[trigger] ws[i]).inv(store, record)
}

spec fn crew_refutable<N: Number>(ws: Seq<Worker<N>>, t: &Tree<N>, x: Tests<N::Value>) -> bool {
    forall|i: int| 0 <= i < ws.len() ==> (#[trigger] ws[i]).is_refutable(t, x)
}

spec fn crew_effort<N: Number>(ws: Seq<Worker<N>>, t: &Tree<N>) -> nat {
    total(ws, |w: Worker<N>| w.effort(t))
}

/// The clock has stopped the search in this scene.
spec fn stopped<N: Number>(t: &Tree<N>, x: Rules<N::Value>, b: Scene, c: Scene) -> bool {
    exists|d: Scene, w: int, idle: bool| #[trigger]
        comes_to(t, x, b, d, w, idle) && clock_struck(d, w) && c == counting(d, w)
}

spec fn time_over(timeout: Option<u128>, elapsed: u128) -> bool {
    timeout matches Some(limit) && elapsed >= limit
}

pub open spec fn hands_of<N: Number>(ws: Seq<Worker<N>>) -> Seq<Hand> {
    Seq::new(ws.len(), |i: int| ws[i].hand())
}

/// What everybody holds.
pub open spec fn scene_of<N: Number>(
    store: &Store<N>,
    ws: Seq<Worker<N>>,
    pool: Pool<CtNode<N>>,
) -> Scene {
    Scene { lore: store.lore(), hands: hands_of(ws), stacks: stacks_of(pool) }
}

/// How many shards the tables have for so many workers: the least power of two
/// that is eight times the workers or more, or the largest one there is.
pub fn shards_for(workers: usize) -> (r: usize)
    ensures
        exists|k: nat| r == #[trigger] pow2(k),
        r >= 8 * workers || 2 * r > usize::MAX,
        r == 1 || r < 16 * workers,
{
    let mut p: usize = 1;
    proof {
        lemma2_to64();
        assert(p == pow2(0));
    }
    while p / 8 < workers && p <= usize::MAX / 2
        invariant
            p >= 1,
            exists|k: nat| p == #[trigger] pow2(k),
            p == 1 || p < 16 * workers,
        decreases usize::MAX - p,
    {
        proof {
            let k = choose|k: nat| p == #[trigger] pow2(k);
            lemma_pow2_unfold(k + 1);
            assert(2 * p == pow2(k + 1));
        }
        p = p * 2;
    }
    p
}

/// A worker that holds a node counts it, among the others.
fn crew_count<N: Number>(workers: &mut Vec<Worker<N>>, w: usize) -> (r: bool)
    requires
        w < old(workers)@.len(),
    ensures
        r == old(workers)@[w as int].node is Some,
        final(workers)@.len() == old(workers)@.len(),
        final(workers)@[w as int].node == old(workers)@[w as int].node,
        final(workers)@[w as int].hand() == counted_v(old(workers)@[w as int].hand()),
        hands_of(final(workers)@) == hands_of(old(workers)@).update(
            w as int,
            counted_v(old(workers)@[w as int].hand()),
        ),
        forall|i: int|
            0 <= i < old(workers)@.len() ==> {
                let (a, b) = (old(workers)@[i], #[trigger] final(workers)@[i]);
                b.node == a.node && b.local == a.local
            },
{
    let held = workers[w].node.is_some();
    let ghost before = workers@;
    if held {
        workers[w].count();
    }
    proof {
        assert(workers@ =~= before.update(w as int, workers@[w as int]));
        assert(hands_of(workers@) =~= hands_of(before).update(
            w as int,
            counted_v(before[w as int].hand()),
        ));
    }
    held
}

/// Workers that hold the same nodes.
proof fn crews_alike<N: Number>(
    a: Seq<Worker<N>>,
    b: Seq<Worker<N>>,
    store: &Store<N>,
    record: bool,
    x: Tests<N::Value>,
)
    requires
        a.len() == b.len(),
        forall|i: int|
            0 <= i < a.len() ==> (#[trigger] b[i]).node == a[i].node && b[i].local == a[i].local,
        crew_inv(a, store, record),
    ensures
        crew_inv(b, store, record),
        crew_refutable(b, store.tree, x) ==> crew_refutable(a, store.tree, x),
        crew_effort(b, store.tree) == crew_effort(a, store.tree),
    decreases a.len(),
{
    let t = store.tree;
    assert forall|i: int| 0 <= i < b.len() implies (#[trigger] b[i]).inv(store, record) by {
        assert(a[i].inv(store, record));
    }
    if crew_refutable(b, t, x) {
        assert forall|i: int| 0 <= i < a.len() implies (#[trigger] a[i]).is_refutable(t, x) by {
            assert(b[i].is_refutable(t, x));
        }
    }
    if a.len() > 0 {
        let (c, d) = (a.drop_last(), b.drop_last());
        assert forall|i: int| 0 <= i < c.len() implies (#[trigger] d[i]).node == c[i].node
            && d[i].local == c[i].local by {
            assert(d[i] == b[i]);
        }
        assert forall|i: int| 0 <= i < c.len() implies (#[trigger] c[i]).inv(store, record) by {
            assert(a[i].inv(store, record));
        }
        crews_alike(c, d, store, record, x);
        assert(b[b.len() - 1].node == a[a.len() - 1].node);
    }
}

/// One turn of one worker that has counted its node, among the others.
fn crew_turn<N: Number>(
    workers: &mut Vec<Worker<N>>,
    w: usize,
    store: &mut Store<N>,
    pool: &mut Pool<CtNode<N>>,
    cfg: &Config<N>,
) -> (r: Turn)
    requires
        old(store).inv(),
        w < old(workers)@.len(),
        old(pool).stacks@.len() == old(workers)@.len(),
        crew_inv(old(workers)@, old(store), cfg.record_strategy),
        pool_inv(*old(pool), old(store), cfg.record_strategy),
    ensures
        final(store).inv(),
        final(store).tree == old(store).tree,
        final(store).engine == old(store).engine,
        final(workers)@.len() == old(workers)@.len(),
        final(pool).stacks@.len() == old(pool).stacks@.len(),
        final(pool).steal == old(pool).steal,
        crew_inv(final(workers)@, final(store), cfg.record_strategy),
        pool_inv(*final(pool), final(store), cfg.record_strategy),
        ({
            let c = scene_of(old(store), old(workers)@, *old(pool));
            let d = act_v(
                old(store).tree,
                rules_of(*cfg, old(pool).steal, old(store).engine.max_outcomes),
                c.lore,
                c.hands[w as int],
                c.stacks,
                w as int,
            );
            &&& scene_of(final(store), final(workers)@, *final(pool)) == after(c, w as int, d)
            &&& signalled(r, d.signal, old(workers)@[w as int].node)
        }),
        ({
            let t = old(store).tree;
            let x = cfg.tests();
            let (a, b) = (old(workers)@, final(workers)@);
            let (p, q) = (*old(pool), *final(pool));
            match r {
                Turn::Idle => {
                    &&& b == a
                    &&& a[w as int].node is None
                    &&& forall|i: int| 0 <= i < p.stacks@.len() ==> (#[trigger] q.stacks@[i])@ == p.stacks@[i]@
                    &&& p.stacks@[w as int]@.len() == 0
                    &&& pool_effort(q, t) == pool_effort(p, t)
                    &&& crew_refutable(b, t, x) && pool_refutable(q, t, x) ==> crew_refutable(
                        a,
                        t,
                        x,
                    ) && pool_refutable(p, t, x)
                },
                Turn::Busy => {
                    &&& crew_effort(b, t) + pool_effort(q, t) < crew_effort(a, t) + pool_effort(p, t)
                    &&& crew_refutable(b, t, x) && pool_refutable(q, t, x) ==> crew_refutable(
                        a,
                        t,
                        x,
                    ) && pool_refutable(p, t, x)
                },
                Turn::Accept(s) => a[w as int].node matches Some(n) && legal(t, n.moves@)
                    && accepted::<N>(x, n.front(t)) && reports(
                    s,
                    t,
                    cfg.record_strategy,
                    n.moves@,
                ),
                Turn::Fail(e) => {
                    &&& e == StepError::TooManyOutcomes(old(store).engine.max_outcomes)
                    &&& too_wide(t, old(store).engine.max_outcomes)
                },
            }
        }),
{
    let ghost tree = store.tree;
    let ghost x = cfg.tests();
    let ghost record = cfg.record_strategy;
    let ghost ws0 = workers@;
    let ghost pool0 = *pool;
    let ghost store0 = *store;
    assert(workers@[w as int].inv(store, record));
    let turn = workers[w].turn(w, store, pool, cfg);
    proof {
        let c0 = scene_of(&store0, ws0, pool0);
        let c1 = scene_of(store, workers@, *pool);
        assert(c0.hands[w as int] == ws0[w as int].hand());
        assert(c1.hands =~= c0.hands.update(w as int, workers@[w as int].hand()));
        total_update(ws0, w as int, workers@[w as int], |q: Worker<N>| q.effort(tree));
        assert(workers@ =~= ws0.update(w as int, workers@[w as int]));
        assert forall|i: int| 0 <= i < workers@.len() implies (#[trigger] workers@[i]).inv(
            store,
            record,
        ) by {
            if i != w {
                assert(workers@[i] == ws0[i]);
                ws0[i].inv_kept(&store0, store, record);
            }
        }
        if turn is Idle {
            effort_same(pool.stacks@, pool0.stacks@, tree);
            assert(workers@ =~= ws0);
            if crew_refutable(workers@, tree, x) && pool_refutable(*pool, tree, x) {
                assert forall|i: int| 0 <= i < pool0.stacks@.len() implies nodes_refutable(
                    (#[trigger] pool0.stacks@[i])@,
                    tree,
                    x,
                ) by {
                    assert(nodes_refutable(pool.stacks@[i]@, tree, x));
                }
            }
        } else if turn is Busy {
            if crew_refutable(workers@, tree, x) && pool_refutable(*pool, tree, x) {
                assert(workers@[w as int].is_refutable(tree, x));
                assert forall|i: int| 0 <= i < ws0.len() implies (
                #[trigger] ws0[i]).is_refutable(tree, x) by {
                    if i != w {
                        assert(workers@[i] == ws0[i]);
                    }
                }
            }
        }
    }
    turn
}

/// Runs the search on one instance and one threshold, the workers taking turns.
pub fn search<N: Number>(tree: &Tree<N>, cfg: Config<N>) -> (r: (Answer, Stats))
    requires
        tree.wf(),
    ensures
        backed(r.0, tree, cfg.tests(), cfg.record_strategy, cfg.timeout is Some),
        !(r.0 is Timeout) ==> played(
            tree,
            rules_of(cfg, cfg.steal, 4194304),
            crew_size(cfg),
            cfg.seed,
            cfg.record_strategy,
            r.0,
            r.1,
        ),
        r.0 is Timeout ==> {
            &&& cfg.timeout matches Some(limit) && r.1.elapsed >= limit
            &&& paused(tree, rules_of(cfg, cfg.steal, 4194304), crew_size(cfg), cfg.seed, r.1)
        },
{
    let started = now();
    let n: usize = if cfg.workers == 0 {
        1
    } else {
        cfg.workers
    };
    let mut store = Store::new(tree, shards_for(n));
    let ghost empty = store;
    let initial = match store.initial_histories() {
        Ok(v) => v,
        Err(e) => {
            let stats = Stats { elapsed: nanos_since(&started), ..Default::default() };
            return (Answer::Failed(show_error(e)), stats);
        },
    };
    let ghost x = cfg.tests();
    let ghost record = cfg.record_strategy;
    let root = CtNode::root(&store, &initial);
    let mut pool: Pool<CtNode<N>> = Pool::new(n, cfg.steal);
    let mut workers: Vec<Worker<N>> = Vec::new();
    for w in 0..n
        invariant
            workers@.len() == w,
            forall|i: int|
                0 <= i < w ==> {
                    let q = #[trigger] workers@[i];
                    &&& q.node is None
                    &&& q.local@.len() == 0
                    &&& q.rng.0 == seeded(cfg.seed, i)
                    &&& q.expanded == 0
                    &&& q.since == 0
                    &&& q.peak == 0
                },
    {
        workers.push(Worker::new(cfg.seed, w));
    }
    // Worker 0 starts on the root; the others find their stacks empty and wait
    // until something reaches them around the ring.
    let ghost empty_pool = pool;
    pool.push(0, root);
    let ghost y = rules_of(cfg, cfg.steal, 4194304);
    let ghost begun = scene_begins(tree, n as nat, cfg.seed);
    proof {
        assert(pool.stacks@[0]@ =~= seq![root]);
        assert(empty.records.names() =~= Seq::empty());
        assert(empty.records.states() =~= Seq::empty());
        assert(empty.taken() =~= Set::empty());
        assert(hands_of(workers@) =~= begun.hands) by {
            assert forall|i: int| 0 <= i < n implies hands_of(workers@)[i] == begun.hands[i] by {
                assert(workers@[i].hand().local =~= Seq::empty());
            }
        }
        assert(stacks_of(pool) =~= begun.stacks) by {
            assert forall|i: int| 0 <= i < n implies stacks_of(pool)[i] == begun.stacks[i] by {
                if i == 0 {
                    assert(moves_of(pool.stacks@[0]@) =~= seq![Seq::empty()]);
                } else {
                    assert(pool.stacks@[i] == empty_pool.stacks@[i]);
                    assert(moves_of(pool.stacks@[i]@) =~= Seq::empty());
                }
            }
        }
        assert(scene_of(&store, workers@, pool) == begun);
        comes_first(tree, y, begun);
        assert(pool_inv(pool, &store, record));
        assert(crew_inv(workers@, &store, record));
        if pool_refutable(pool, tree, x) {
            assert(nodes_refutable(pool.stacks@[0]@, tree, x));
            assert(pool.stacks@[0]@[0] == root);
        }
    }
    let mut answer: Option<Answer> = None;
    let mut elapsed: u128 = 0;
    while answer.is_none()
        invariant
            tree.wf(),
            store.inv(),
            store.tree == tree,
            store.engine.max_outcomes == 4194304,
            n >= 1,
            workers@.len() == n,
            pool.stacks@.len() == n,
            pool.steal == cfg.steal,
            x == cfg.tests(),
            y == rules_of(cfg, cfg.steal, 4194304),
            record == cfg.record_strategy,
            answer is None ==> {
                &&& crew_inv(workers@, &store, record)
                &&& pool_inv(pool, &store, record)
                &&& crew_refutable(workers@, tree, x) && pool_refutable(pool, tree, x)
                    ==> refutable(tree, x, Seq::empty())
                &&& comes_to(tree, y, begun, scene_of(&store, workers@, pool), 0, true)
            },
            answer matches Some(a) ==> backed(a, tree, x, record, cfg.timeout is Some),
            answer matches Some(Answer::Timeout) ==> time_over(cfg.timeout, elapsed) && stopped(
                tree,
                y,
                begun,
                scene_of(&store, workers@, pool),
            ),
            answer matches Some(a) ==> !(a is Timeout) ==> ended(
                tree,
                y,
                begun,
                scene_of(&store, workers@, pool),
                a,
                record,
            ),
        decreases (if answer is None {
            1nat
        } else {
            0nat
        }), crew_effort(workers@, tree) + pool_effort(pool, tree),
    {
        let mut idle = true;
        let mut w: usize = 0;
        let ghost effort0 = crew_effort(workers@, tree) + pool_effort(pool, tree);
        while w < n && answer.is_none()
            invariant
                tree.wf(),
                store.inv(),
                store.tree == tree,
                store.engine.max_outcomes == 4194304,
                w <= n,
                n >= 1,
                workers@.len() == n,
                pool.stacks@.len() == n,
                pool.steal == cfg.steal,
                x == cfg.tests(),
                y == rules_of(cfg, cfg.steal, 4194304),
                record == cfg.record_strategy,
                answer is None ==> comes_to(
                    tree,
                    y,
                    begun,
                    scene_of(&store, workers@, pool),
                    w as int,
                    idle,
                ),
                answer matches Some(a) ==> !(a is Timeout) ==> ended(
                    tree,
                    y,
                    begun,
                    scene_of(&store, workers@, pool),
                    a,
                    record,
                ),
                answer is None ==> {
                    &&& crew_inv(workers@, &store, record)
                    &&& pool_inv(pool, &store, record)
                    &&& crew_refutable(workers@, tree, x) && pool_refutable(pool, tree, x)
                        ==> refutable(tree, x, Seq::empty())
                    &&& idle ==> crew_effort(workers@, tree) + pool_effort(pool, tree) == effort0
                    &&& !idle ==> crew_effort(workers@, tree) + pool_effort(pool, tree) < effort0
                    &&& idle ==> forall|i: int|
                        0 <= i < w ==> (#[trigger] workers@[i]).node is None
                            && pool.stacks@[i]@.len() == 0
                },
                answer matches Some(a) ==> backed(a, tree, x, record, cfg.timeout is Some),
                answer matches Some(Answer::Timeout) ==> time_over(cfg.timeout, elapsed) && stopped(
                    tree,
                    y,
                    begun,
                    scene_of(&store, workers@, pool),
                ),
            decreases n - w,
        {
            let ghost ws0 = workers@;
            let ghost c0 = scene_of(&store, workers@, pool);
            let held = crew_count(&mut workers, w);
            proof {
                crews_alike(ws0, workers@, &store, record, x);
                assert(scene_of(&store, workers@, pool) == counting(c0, w as int));
            }
            let due = held && clock_due(cfg.timeout, workers[w].since);
            if due {
                elapsed = nanos_since(&started);
            }
            if due && time_up(cfg.timeout, elapsed) {
                answer = Some(Answer::Timeout);
                proof {
                    assert(c0.hands[w as int] == ws0[w as int].hand());
                    assert(clock_struck(c0, w as int));
                }
            } else {
                let ghost node = workers@[w as int].node;
                proof {
                    comes_next(tree, y, begun, c0, w as int, idle);
                }
                let turn = crew_turn(&mut workers, w, &mut store, &mut pool, &cfg);
                let ghost c1 = scene_of(&store, workers@, pool);
                proof {
                    let c = counting(c0, w as int);
                    let d = act_v(tree, y, c.lore, c.hands[w as int], c.stacks, w as int);
                    assert(c0.hands[w as int] == ws0[w as int].hand());
                    assert(c.hands[w as int] == counted_v(c0.hands[w as int]));
                    assert(after(c, w as int, d).hands =~= after(c0, w as int, d).hands);
                }
                match turn {
                    Turn::Idle => {},
                    Turn::Busy => {
                        idle = false;
                    },
                    Turn::Accept(s) => {
                        answer = Some(Answer::Yes(s));
                        proof {
                            let m = node.unwrap().moves@;
                            assert(legal(tree, m));
                            ends(tree, y, begun, c1, answer->0, record, Ending::Yes(m));
                        }
                    },
                    Turn::Fail(e) => {
                        answer = Some(Answer::Failed(show_error(e)));
                        proof {
                            ends(tree, y, begun, c1, answer->0, record, Ending::Failed);
                        }
                    },
                }
            }
            w = w + 1;
        }
        proof {
            if answer is None {
                comes_round(tree, y, begun, scene_of(&store, workers@, pool), w as int, idle);
            }
        }
        if answer.is_none() && idle {
            proof {
                assert forall|i: int| 0 <= i < workers@.len() implies (
                #[trigger] workers@[i]).is_refutable(tree, x) by {
                    assert(workers@[i].inv(&store, record));
                }
                assert forall|i: int| 0 <= i < pool.stacks@.len() implies nodes_refutable(
                    (#[trigger] pool.stacks@[i])@,
                    tree,
                    x,
                ) by {
                    assert(workers@[i].node is None);
                }
            }
            answer = Some(Answer::No);
            proof {
                let c = scene_of(&store, workers@, pool);
                ends(tree, y, begun, c, answer->0, record, Ending::No);
            }
        }
    }
    let ghost last = scene_of(&store, workers@, pool);
    // a run that was cut short took as long as the reading that ended it
    let cut = matches!(&answer, Some(Answer::Timeout));
    if !cut {
        elapsed = nanos_since(&started);
    }
    let mut expanded: u64 = 0;
    let mut peak: u64 = 0;
    for w in 0..n
        invariant
            n == workers@.len(),
            last.hands == hands_of(workers@),
            expanded == looked_at(last.hands, w as int),
            peak == most_open(last.hands, w as int),
    {
        assert(last.hands[w as int] == workers@[w as int].hand());
        expanded = expanded.wrapping_add(workers[w].expanded);
        if workers[w].peak > peak {
            peak = workers[w].peak;
        }
    }
    let stats = Stats {
        expanded,
        choice_states: store.cs_made(),
        histories: store.hist_made(),
        macro_steps: store.macro_steps,
        outcomes: store.outcomes,
        peak_open: peak,
        elapsed,
    };
    proof {
        assert(tallies(stats, last));
        if !(answer->0 is Timeout) {
            reveal(ended);
        }
    }
    (answer.unwrap(), stats)
}

// ---------------------------------------------------------------------------
// what an answer proves
// ---------------------------------------------------------------------------

/// The strategy starts the child each of these decisions names, at the history
/// it names.
pub open spec fn takes<N: Number>(t: &Tree<N>, policy: Policy, ds: Seq<(Seq<u32>, u32)>) -> bool {
    forall|j: int|
        0 <= j < ds.len() ==> {
            let (d, a) = #[trigger] ds[j];
            trail(t, d) is Some && child_of(t, trail(t, d).unwrap().state, policy(d)) == a
        }
}

/// A strategy takes the decisions of a path of the computation tree when it
/// agrees with the path.
pub proof fn takes_agrees<N: Number>(t: &Tree<N>, policy: Policy, m: Moves)
    requires
        t.wf(),
        legal(t, m),
    ensures
        takes(t, policy, decisions_of(t, m)) <==> agrees(t, policy, m),
    decreases m.len(),
{
    if m.len() > 0 {
        let q = m.drop_last();
        takes_agrees(t, policy, q);
        front_at_sound(t, q);
        let (i, b) = m.last();
        let h = front_at(t, q).open[i];
        open_waits(t, h);
        let ds = decisions_of(t, m);
        let es = decisions_of(t, q);
        assert(ds == es.push((h.decisions, child_of(t, h.state, b))));
        let last = ds[es.len() as int];
        assert((child_of(t, h.state, policy(h.decisions)) == child_of(t, h.state, b)) == (policy(
            h.decisions,
        ) == b));
        if takes(t, policy, ds) {
            assert forall|j: int| 0 <= j < es.len() implies {
                let (d, a) = #[trigger] es[j];
                trail(t, d) is Some && child_of(t, trail(t, d).unwrap().state, policy(d)) == a
            } by {
                assert(ds[j] == es[j]);
            }
            assert(last.0 == h.decisions);
        }
        if agrees(t, policy, m) {
            assert forall|j: int| 0 <= j < ds.len() implies {
                let (d, a) = #[trigger] ds[j];
                trail(t, d) is Some && child_of(t, trail(t, d).unwrap().state, policy(d)) == a
            } by {
                if j < es.len() {
                    assert(ds[j] == es[j]);
                }
            }
        }
    }
}

/// The decision problem. Where the arithmetic does not round, the answer is yes
/// only if a strategy stays within the limits in every component, and no only
/// if none does.
pub proof fn answer_decides<N: Number>(
    a: Answer,
    t: &Tree<N>,
    x: Tests<N::Value>,
    record: bool,
    timed: bool,
)
    requires
        exact::<N>(),
        t.wf(),
        backed(a, t, x, record, timed),
    ensures
        a is Yes ==> exists|policy: Policy| fits_limit(t, policy, x),
        a is No ==> forall|policy: Policy| !fits_limit(t, policy, x),
{
    match a {
        Answer::Yes(s) => {
            let m = choose|m: Moves| #[trigger]
                legal(t, m) && accepted::<N>(x, front_at(t, m)) && reports(s, t, record, m);
            every_path_holds_a_strategy(t, m);
            accepted_fits(t, x, m, policy_of(t, m));
        },
        Answer::No => {
            let n = choose|n: nat| refuted(t, x, Seq::empty(), n);
            assert forall|policy: Policy| !fits_limit(t, policy, x) by {
                refuted_misses(t, x, Seq::empty(), n, policy);
            }
        },
        _ => {},
    }
}

/// The histories a reported strategy decides are pairwise distinct: it says once
/// at most what to do at a history.
pub proof fn strategy_decides_once<N: Number>(
    a: Answer,
    t: &Tree<N>,
    x: Tests<N::Value>,
    record: bool,
    timed: bool,
)
    requires
        t.wf(),
        backed(a, t, x, record, timed),
    ensures
        a matches Answer::Yes(s) ==> forall|i: int, j: int|
            0 <= i < j < s.decisions@.len() ==> (#[trigger] s.decisions@[i]).0@ != (
            #[trigger] s.decisions@[j]).0@,
{
    if let Answer::Yes(s) = a {
        let m = choose|m: Moves| #[trigger]
            legal(t, m) && accepted::<N>(x, front_at(t, m)) && reports(s, t, record, m);
        decisions_distinct(t, m);
        let ds = plain(s.decisions@);
        assert(ds.len() == s.decisions@.len());
        assert forall|i: int, j: int| 0 <= i < j < s.decisions@.len() implies (
        #[trigger] s.decisions@[i]).0@ != (#[trigger] s.decisions@[j]).0@ by {
            assert(ds == decisions_of(t, m));
            assert(ds[i].0 == s.decisions@[i].0@ && ds[j].0 == s.decisions@[j].0@);
            assert(decisions_of(t, m)[i].0 != decisions_of(t, m)[j].0);
        }
    }
}

/// The settings change the work and the strategy, never the answer: where the
/// arithmetic does not round, two answers to the same threshold and slack, both
/// of them a yes or a no, are the same. The tests that are left out and the
/// recording may differ, and the workers, their stealing, the selection and the
/// seed do not enter into what backs an answer. The threshold may be of any
/// length: the components it shares with the process are those it binds.
pub proof fn settings_never_decide<N: Number>(
    a: Answer,
    b: Answer,
    t: &Tree<N>,
    x: Tests<N::Value>,
    y: Tests<N::Value>,
    a_record: bool,
    b_record: bool,
    a_timed: bool,
    b_timed: bool,
)
    requires
        exact::<N>(),
        t.wf(),
        x.threshold == y.threshold,
        x.slack == y.slack,
        backed(a, t, x, a_record, a_timed),
        backed(b, t, y, b_record, b_timed),
        a is Yes || a is No,
        b is Yes || b is No,
    ensures
        a is Yes <==> b is Yes,
{
    answer_decides(a, t, x, a_record, a_timed);
    answer_decides(b, t, y, b_record, b_timed);
    assert forall|policy: Policy| fits_limit(t, policy, x) == fits_limit(t, policy, y) by {
        assert forall|c: int| limit::<N>(x, c) == limit::<N>(y, c) by {}
        if fits_limit(t, policy, x) {
            assert forall|c: int|
                0 <= c < t.k && c < y.threshold.len() implies #[trigger] worth(t, policy, c)
                <= limit::<N>(y, c) by {
                assert(limit::<N>(x, c) == limit::<N>(y, c));
            }
        }
        if fits_limit(t, policy, y) {
            assert forall|c: int|
                0 <= c < t.k && c < x.threshold.len() implies #[trigger] worth(t, policy, c)
                <= limit::<N>(x, c) by {
                assert(limit::<N>(x, c) == limit::<N>(y, c));
            }
        }
    }
}

/// Without slack the limits are the budget: the answer is yes only if the
/// expected impact of some strategy is within the budget in every component at
/// once, and no only if that of none is.
pub proof fn answer_decides_budget<N: Number>(
    a: Answer,
    t: &Tree<N>,
    x: Tests<N::Value>,
    record: bool,
    timed: bool,
)
    requires
        exact::<N>(),
        t.wf(),
        x.threshold.len() == t.k,
        N::real_of(x.slack) == 0 as real,
        backed(a, t, x, record, timed),
    ensures
        a is Yes ==> exists|policy: Policy| fits(t, policy, x.threshold),
        a is No ==> forall|policy: Policy| !fits(t, policy, x.threshold),
{
    answer_decides(a, t, x, record, timed);
    if a is Yes {
        let p = choose|policy: Policy| fits_limit(t, policy, x);
        limit_is_budget(t, p, x);
        assert(fits(t, p, x.threshold));
    }
    if a is No {
        assert forall|policy: Policy| !fits(t, policy, x.threshold) by {
            limit_is_budget(t, policy, x);
        }
    }
}

/// The synthesis problem. Where the arithmetic does not round, every strategy
/// that takes the decisions an answer reports stays within the limits, however
/// it decides elsewhere, and there is such a strategy.
pub proof fn answer_synthesises<N: Number>(
    s: Strategy,
    t: &Tree<N>,
    x: Tests<N::Value>,
    timed: bool,
)
    requires
        exact::<N>(),
        t.wf(),
        backed(Answer::Yes(s), t, x, true, timed),
    ensures
        forall|policy: Policy|
            takes(t, policy, plain(s.decisions@)) ==> fits_limit(t, policy, x),
        exists|policy: Policy| takes(t, policy, plain(s.decisions@)),
{
    let m = choose|m: Moves| #[trigger]
        legal(t, m) && accepted::<N>(x, front_at(t, m)) && reports(s, t, true, m);
    assert forall|policy: Policy| takes(t, policy, plain(s.decisions@)) implies fits_limit(
        t,
        policy,
        x,
    ) by {
        takes_agrees(t, policy, m);
        accepted_fits(t, x, m, policy);
    }
    every_path_holds_a_strategy(t, m);
    takes_agrees(t, policy_of(t, m), m);
}

} // verus!
