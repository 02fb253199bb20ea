//! The nodes of the computation tree, and the decisions on the way to them.

use vstd::prelude::*;
use std::sync::Arc;
use crate::config::{leq, Config};
use crate::frontier::{
    accepted, decisions_of, front_at, front_at_sound, legal, open_waits, part_from, rejected, Front,
    Moves,
};
use crate::label::Frontier;
use crate::list::reversed;
use crate::num::{vals, Number};
use crate::state::{opening, Stop};
use crate::tables::{child_of, Branch, Store};
use crate::tree::Tree;

verus! {

/// The decisions taken so far, as a chain shared by every node below them.
pub struct SigmaNode {
    pub parent: Option<Arc<SigmaNode>>,
    pub dh: Vec<u32>,
    pub action: u32,
}

/// The decisions of a chain, the first one first.
pub open spec fn chain(sigma: Option<Arc<SigmaNode>>) -> Seq<(Seq<u32>, u32)>
    decreases sigma,
{
    match sigma {
        None => Seq::empty(),
        Some(n) => chain(n.parent).push((n.dh@, n.action)),
    }
}

/// The decisions of a list.
pub open spec fn plain(v: Seq<(Vec<u32>, u32)>) -> Seq<(Seq<u32>, u32)> {
    Seq::new(v.len(), |i: int| (v[i].0@, v[i].1))
}

/// A deterministic policy, as the synthesis version of the problem asks for it:
/// the branch taken at each history that was decided.
pub struct Strategy {
    pub decisions: Vec<(Vec<u32>, u32)>,
    pub frontier_size: usize,
    /// Every history of the winning frontier, final ones included.
    pub histories: usize,
}

/// `Arc::clone` hands out one more pointer to the same node.
#[verifier::external_body]
fn share(n: &Arc<SigmaNode>) -> (r: Arc<SigmaNode>)
    ensures
        r == *n,
{
    Arc::clone(n)
}

/// The same chain once more.
fn shared(sigma: &Option<Arc<SigmaNode>>) -> (r: Option<Arc<SigmaNode>>)
    ensures
        r == *sigma,
{
    match sigma {
        None => None,
        Some(n) => Some(share(n)),
    }
}

/// The decisions of a chain, the first one first.
pub fn resolve(sigma: &Option<Arc<SigmaNode>>) -> (r: Vec<(Vec<u32>, u32)>)
    ensures
        plain(r@) == chain(*sigma),
{
    let mut out: Vec<(Vec<u32>, u32)> = Vec::new();
    let mut cur = sigma;
    assert(plain(out@).reverse() =~= Seq::empty());
    while cur.is_some()
        invariant
            chain(*sigma) == chain(*cur) + plain(out@).reverse(),
        decreases *cur,
    {
        let n = cur.as_ref().unwrap();
        let ghost before = plain(out@);
        out.push((n.dh.clone(), n.action));
        proof {
            assert(plain(out@) =~= before.push((n.dh@, n.action)));
            assert(plain(out@).reverse() =~= seq![(n.dh@, n.action)] + before.reverse());
            assert(chain(*cur) == chain(n.parent).push((n.dh@, n.action)));
            assert(chain(*cur) + before.reverse() =~= chain(n.parent) + plain(out@).reverse());
        }
        cur = &n.parent;
    }
    let r = reversed(out);
    proof {
        assert(plain(r@) =~= plain(out@).reverse());
        assert(chain(*cur) =~= Seq::empty());
        assert(chain(*sigma) =~= plain(r@));
    }
    r
}

/// A node of the computation tree.
pub struct CtNode<N> {
    pub frontier: Frontier<N>,
    pub sigma: Option<Arc<SigmaNode>>,
    /// The path of the computation tree that leads here.
    pub moves: Ghost<Moves>,
}

/// What the tests say of a node.
pub enum Verdict {
    /// The accepting test passes.
    Accept(Strategy),
    /// No strategy is left here.
    Reject,
    /// Neither: a choice is to be resolved.
    Split,
}

/// The strategy an accepted node is reported as.
pub open spec fn reports<N: Number>(
    s: Strategy,
    t: &Tree<N>,
    record: bool,
    m: Moves,
) -> bool {
    &&& plain(s.decisions@) == if record {
        decisions_of(t, m)
    } else {
        Seq::empty()
    }
    &&& s.frontier_size == front_at(t, m).open.len()
    &&& s.histories == front_at(t, m).all().len()
}

impl<N: Number> CtNode<N> {
    pub open spec fn front(&self, t: &Tree<N>) -> Front<N::Value> {
        front_at(t, self.moves@)
    }

    /// The node is where its path leads.
    pub open spec fn inv(&self, store: &Store<N>, record: bool) -> bool {
        let f = self.front(store.tree);
        &&& legal(store.tree, self.moves@)
        &&& self.frontier.shows(store.records, f)
        &&& forall|i: int|
            0 <= i < f.all().len() ==> store.records.has((#[trigger] f.all()[i]).decisions)
        &&& chain(self.sigma) == if record {
            decisions_of(store.tree, self.moves@)
        } else {
            Seq::empty()
        }
    }

    /// Nodes outlive the growth of the tables.
    pub proof fn inv_kept(&self, before: &Store<N>, store: &Store<N>, record: bool)
        requires
            self.inv(before, record),
            before.inv(),
            store.grown_from(before),
        ensures
            self.inv(store, record),
    {
        store.paths_kept(before, self.frontier.open@);
        let f = self.front(store.tree);
        assert forall|i: int| 0 <= i < f.all().len() implies store.records.has(
            (#[trigger] f.all()[i]).decisions,
        ) by {
            store.has_kept(before, f.all()[i].decisions);
        }
    }

    /// The root of the computation tree.
    pub fn root(store: &Store<N>, initial: &Vec<usize>) -> (r: CtNode<N>)
        requires
            store.inv(),
            store.records.holds(initial@),
            store.records.paths(initial@) == opening(store.tree),
        ensures
            r.inv(store, true),
            r.inv(store, false),
            r.moves@ == Seq::<(int, Branch)>::empty(),
    {
        let frontier = Frontier::from_histories(store, initial);
        let r = CtNode { frontier, sigma: None, moves: Ghost(Seq::empty()) };
        proof {
            let ls = opening(store.tree);
            let f = r.front(store.tree);
            part_from(ls, true);
            part_from(ls, false);
            assert forall|i: int| 0 <= i < f.all().len() implies store.records.has(
                (#[trigger] f.all()[i]).decisions,
            ) by {
                let x = f.all()[i];
                assert(ls.contains(x)) by {
                    if i < f.open.len() {
                        assert(x == f.open[i]);
                    } else {
                        assert(x == f.closed[i - f.open.len()]);
                    }
                }
                let j = ls.index_of(x);
                assert(store.records.paths(initial@)[j] == x);
                assert(store.records.histories@[initial@[j] as int].dh@ == x.decisions);
            }
        }
        r
    }

    /// Reads the tests on this node.
    pub fn judge(&self, store: &Store<N>, cfg: &Config<N>) -> (r: Verdict)
        requires
            store.inv(),
            self.inv(store, cfg.record_strategy),
        ensures
            ({
                let f = self.front(store.tree);
                match r {
                    Verdict::Accept(s) => accepted::<N>(cfg.tests(), f) && reports(
                        s,
                        store.tree,
                        cfg.record_strategy,
                        self.moves@,
                    ),
                    Verdict::Reject => rejected::<N>(cfg.tests(), f),
                    Verdict::Split => !accepted::<N>(cfg.tests(), f) && !rejected::<N>(
                        cfg.tests(),
                        f,
                    ) && f.open.len() > 0,
                }
            }),
    {
        let ghost f = self.front(store.tree);
        proof {
            front_at_sound(store.tree, self.moves@);
            assert(vals(self.frontier.paid@).len() == self.frontier.paid@.len());
            assert(vals(self.frontier.upper@).len() == self.frontier.upper@.len());
            assert(vals(self.frontier.lower@).len() == self.frontier.lower@.len());
            assert(store.records.paths(self.frontier.open@).len() == self.frontier.open@.len());
            assert forall|i: int| 0 <= i < store.records.histories@.len() implies (
            #[trigger] store.records.histories@[i]).impact@.len() == store.tree.k by {
                assert(store.hist_true(i));
            }
        }
        let closed = self.frontier.open.len() == 0;
        if cfg.ablation.accept_early() || closed {
            let high = self.frontier.accepting();
            if leq(&high, &cfg.threshold, &cfg.epsilon) {
                return Verdict::Accept(
                    Strategy {
                        decisions: resolve(&self.sigma),
                        frontier_size: self.frontier.open.len(),
                        histories: self.frontier.total,
                    },
                );
            }
        }
        let low = if cfg.ablation.reject_early() || closed {
            self.frontier.rejecting()
        } else {
            // the lower bound is ablated away, and what is left is not nothing:
            // a frontier that has already paid more than the threshold in some
            // component cannot be completed into a strategy that has not
            self.frontier.accumulated(&store.records)
        };
        if !leq(&low, &cfg.threshold, &cfg.epsilon) {
            return Verdict::Reject;
        }
        if closed {
            // Both tests were taken, the two sums being the same number here,
            // and the accepting one failed: this branch carries no strategy.
            return Verdict::Reject;
        }
        Verdict::Split
    }

    /// The chain with one more decision.
    fn decide(&self, store: &Store<N>, elected: usize, branch: Branch, record: bool) -> (r: Option<
        Arc<SigmaNode>,
    >)
        requires
            store.inv(),
            elected < store.records.histories@.len(),
            store.records.leaf(elected as int).stop != Stop::Final,
            !record ==> chain(self.sigma) == Seq::<(Seq<u32>, u32)>::empty(),
        ensures
            chain(r) == if record {
                let h = store.records.leaf(elected as int);
                chain(self.sigma).push((h.decisions, child_of(store.tree, h.state, branch)))
            } else {
                Seq::empty()
            },
    {
        if !record {
            return None;
        }
        let h = store.history(elected);
        proof {
            assert(store.hist_true(elected as int));
            open_waits(store.tree, store.records.leaf(elected as int));
        }
        let action = store.choice_state(h.cs).action(store.tree, branch);
        Some(Arc::new(SigmaNode { parent: shared(&self.sigma), dh: h.dh.clone(), action }))
    }

    /// The two children of this node, once the open history `at` is elected and
    /// what its two branches do is known.
    pub fn split(&self, store: &Store<N>, cfg: &Config<N>, at: usize, low: usize, high: usize) -> (r: (
        CtNode<N>,
        CtNode<N>,
    ))
        requires
            store.inv(),
            self.inv(store, cfg.record_strategy),
            at < self.frontier.open@.len(),
            low < store.records.expansions@.len(),
            high < store.records.expansions@.len(),
            store.expands(
                low as int,
                store.records.leaf(self.frontier.open@[at as int] as int),
                Branch::Low,
            ),
            store.expands(
                high as int,
                store.records.leaf(self.frontier.open@[at as int] as int),
                Branch::High,
            ),
        ensures
            r.0.inv(store, cfg.record_strategy),
            r.1.inv(store, cfg.record_strategy),
            r.0.moves@ == self.moves@.push((at as int, Branch::Low)),
            r.1.moves@ == self.moves@.push((at as int, Branch::High)),
    {
        let ghost f = self.front(store.tree);
        let elected = self.frontier.open[at];
        proof {
            front_at_sound(store.tree, self.moves@);
            assert(store.records.paths(self.frontier.open@)[at as int] == f.open[at as int]);
            assert(f.open[at as int].stop != Stop::Final);
        }
        let a = self.frontier.expand(store, at, low, Ghost(f), Ghost(Branch::Low));
        let b = self.frontier.expand(store, at, high, Ghost(f), Ghost(Branch::High));
        let sa = self.decide(store, elected, Branch::Low, cfg.record_strategy);
        let sb = self.decide(store, elected, Branch::High, cfg.record_strategy);
        let ghost ma = self.moves@.push((at as int, Branch::Low));
        let ghost mb = self.moves@.push((at as int, Branch::High));
        proof {
            assert(ma.drop_last() =~= self.moves@);
            assert(mb.drop_last() =~= self.moves@);
        }
        (
            CtNode { frontier: a, sigma: sa, moves: Ghost(ma) },
            CtNode { frontier: b, sigma: sb, moves: Ghost(mb) },
        )
    }
}

} // verus!
