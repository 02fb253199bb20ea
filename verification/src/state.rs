//! States, triggers and the macro step the search walks.
//!
//! A state maps every node to `-1` when it is idle, `-2` when it is done, and
//! to its elapsed progress when it is running. The witness of a rank is the
//! holder of least identifier, and since the arena is indexed by the
//! identifier a scan in increasing index is a scan in the order asked for.
//!
//! The elapsed progress of an **internal** node is never advanced: no rule
//! reads it but through its sign, so two states that differ in it alone have
//! the same successors, the same probabilities and the same costs. Leaving it
//! alone is what makes two histories that reach the same configuration at
//! different times share one choice state.

use vstd::prelude::*;
use crate::num::{dup_vec, sum, sum_v, vals, zeros, zeros_v, Number};
use crate::progress::{
    branch_works, initial_valid, least_left_bounds, moved_works, net_children, net_durations,
};
use crate::semantics::{
    advance, best, best_is_least, busy, closes, forwarded, least_left, left, lowered, moved, psi,
    raised, rank, started, valid,
};
use crate::tree::{Kind, Tree};

verus! {

pub const IDLE: i8 = -1;

pub const DONE: i8 = -2;

/// A state, indexed by node identifier; slot `0` is a filler.
pub type State = Vec<i8>;

/// What a state is, when the search stops at it.
#[derive(Clone, Copy, PartialEq, Eq, Structural, Debug)]
pub enum Stop {
    /// The final absorbing state.
    Final,
    /// A state of rank 1: a choice is to be decided, at the witness carried.
    Choice(u32),
}

pub struct Engine<'t, N> {
    pub tree: &'t Tree<N>,
    /// A macro step that produces more outcomes than this fails rather than
    /// exhausting memory. The number of outcomes is exponential in the nature
    /// nodes that fire between two choice states.
    pub max_outcomes: usize,
}

/// One outcome of a macro step: the decisions it took, the impact it adds, the
/// probability it multiplies, and the choice state it ends in.
pub struct Outcome<N> {
    pub decisions: Vec<u32>,
    pub impact: Vec<N>,
    pub prob: N,
    pub state: State,
    pub stop: Stop,
}

#[derive(Clone, Copy, PartialEq, Eq, Structural, Debug)]
pub enum StepError {
    /// More outcomes than `max_outcomes`: the macro step out of one choice
    /// state branches too widely to hold.
    TooManyOutcomes(usize),
}

/// The mathematics of an [`Outcome`].
pub struct Leaf<V> {
    pub decisions: Seq<u32>,
    pub impact: Seq<V>,
    pub prob: V,
    pub state: Seq<i8>,
    pub stop: Stop,
}

impl<N: Number> Outcome<N> {
    pub open spec fn leaf(self) -> Leaf<N::Value> {
        Leaf {
            decisions: self.decisions@,
            impact: vals(self.impact@),
            prob: self.prob.value(),
            state: self.state@,
            stop: self.stop,
        }
    }
}

pub open spec fn leaves<N: Number>(s: Seq<Outcome<N>>) -> Seq<Leaf<N::Value>> {
    Seq::new(s.len(), |i: int| s[i].leaf())
}

/// Where a state stops: the witness of a choice, or the end.
pub open spec fn stop_at<N: Number>(t: &Tree<N>, s: Seq<i8>) -> Stop {
    match rank(t.net().nodes, s) {
        Some(b) => Stop::Choice(b.1 as u32),
        None => Stop::Final,
    }
}

/// The state waits for a decision or is final.
pub open spec fn stops<N: Number>(t: &Tree<N>, s: Seq<i8>) -> bool {
    match rank(t.net().nodes, s) {
        Some(b) => b.0 == 1,
        None => true,
    }
}

/// What is paid after a fast forward, the closers from one to `n` added in
/// increasing order to what was paid before.
pub open spec fn paid<N: Number>(t: &Tree<N>, s: Seq<i8>, n: int, before: Seq<N::Value>) -> Seq<
    N::Value,
>
    decreases n,
{
    if n <= 0 {
        before
    } else {
        let p = paid(t, s, n - 1, before);
        if closes(t.net().nodes, s, n) { sum_v::<N>(p, t.impact_v(n)) } else { p }
    }
}

/// The outcomes of the forced moves out of `s`, the low branch of every draw
/// before the high one, given what the path to `s` decided, paid and weighed.
pub open spec fn forced<N: Number>(
    t: &Tree<N>,
    s: Seq<i8>,
    decisions: Seq<u32>,
    impact: Seq<N::Value>,
    prob: N::Value,
) -> Seq<Leaf<N::Value>>
    decreases t.net().work(s),
{
    let g = t.net().nodes;
    if !t.net().wf() || !valid(g, s) {
        Seq::empty()
    } else if stops(t, s) {
        seq![Leaf { decisions, impact, prob, state: s, stop: stop_at(t, s) }]
    } else {
        let (r, w) = rank(g, s).unwrap();
        proof {
            best_is_least(g, s, t.net().size());
            if r == 4 {
                branch_works(t.net(), s);
            } else {
                moved_works(t.net(), s);
            }
        }
        if r == 4 {
            let p = t.prob_v(w);
            let (l, h) = (g[w].low, g[w].high);
            forced(t, started(s, l), decisions.push(l as u32), impact, N::times_v(prob, p)) + forced(
                t,
                started(s, h),
                decisions.push(h as u32),
                impact,
                N::times_v(prob, N::minus_v(N::one_v(), p)),
            )
        } else {
            let i = if r == 5 { paid(t, s, t.net().size(), impact) } else { impact };
            forced(t, moved(g, s, r, w), decisions, i, prob)
        }
    }
}

/// The number of moves, over every branch, of the forced run out of `s`.
pub open spec fn forced_moves<N: Number>(t: &Tree<N>, s: Seq<i8>) -> nat
    decreases t.net().work(s),
{
    let g = t.net().nodes;
    if !t.net().wf() || !valid(g, s) || stops(t, s) {
        1
    } else {
        let (r, w) = rank(g, s).unwrap();
        proof {
            best_is_least(g, s, t.net().size());
            if r == 4 {
                branch_works(t.net(), s);
            } else {
                moved_works(t.net(), s);
            }
        }
        if r == 4 {
            1 + forced_moves(t, started(s, g[w].low)) + forced_moves(t, started(s, g[w].high))
        } else {
            1 + forced_moves(t, moved(g, s, r, w))
        }
    }
}

/// A forced run has an outcome.
pub proof fn forced_some<N: Number>(
    t: &Tree<N>,
    s: Seq<i8>,
    decisions: Seq<u32>,
    impact: Seq<N::Value>,
    prob: N::Value,
)
    requires
        t.net().wf(),
        valid(t.net().nodes, s),
    ensures
        forced(t, s, decisions, impact, prob).len() >= 1,
    decreases t.net().work(s),
{
    let g = t.net().nodes;
    if !stops(t, s) {
        let (r, w) = rank(g, s).unwrap();
        best_is_least(g, s, t.net().size());
        if r == 4 {
            branch_works(t.net(), s);
            let p = t.prob_v(w);
            let l = g[w].low;
            forced_some(t, started(s, l), decisions.push(l as u32), impact, N::times_v(prob, p));
        } else {
            moved_works(t.net(), s);
            let i = if r == 5 { paid(t, s, t.net().size(), impact) } else { impact };
            forced_some(t, moved(g, s, r, w), decisions, i, prob);
        }
    }
}

/// A branch of a macro step that has not been walked yet.
struct Pending<N> {
    state: State,
    decisions: Vec<u32>,
    impact: Vec<N>,
    prob: N,
}

impl<N: Number> Pending<N> {
    spec fn outcomes(self, t: &Tree<N>) -> Seq<Leaf<N::Value>> {
        forced(t, self.state@, self.decisions@, vals(self.impact@), self.prob.value())
    }
}

/// The outcomes a stack of pending branches owes, the top one first.
spec fn owed_outcomes<N: Number>(t: &Tree<N>, stack: Seq<Pending<N>>) -> Seq<Leaf<N::Value>>
    decreases stack.len(),
{
    if stack.len() == 0 {
        Seq::empty()
    } else {
        stack.last().outcomes(t) + owed_outcomes(t, stack.drop_last())
    }
}

spec fn owed_moves<N: Number>(t: &Tree<N>, stack: Seq<Pending<N>>) -> nat
    decreases stack.len(),
{
    if stack.len() == 0 {
        0
    } else {
        forced_moves(t, stack.last().state@) + owed_moves(t, stack.drop_last())
    }
}

spec fn sound_stack<N: Number>(t: &Tree<N>, stack: Seq<Pending<N>>) -> bool {
    forall|i: int|
        0 <= i < stack.len() ==> valid(t.net().nodes, (#[trigger] stack[i]).state@)
            && stack[i].impact@.len() == t.k
}

/// Every pending branch owes an outcome.
proof fn owed_at_least<N: Number>(t: &Tree<N>, stack: Seq<Pending<N>>)
    requires
        t.net().wf(),
        sound_stack(t, stack),
    ensures
        owed_outcomes(t, stack).len() >= stack.len(),
    decreases stack.len(),
{
    if stack.len() > 0 {
        let p = stack.last();
        forced_some(t, p.state@, p.decisions@, vals(p.impact@), p.prob.value());
        owed_at_least(t, stack.drop_last());
    }
}

impl<'t, N: Number> Engine<'t, N> {
    pub fn new(tree: &'t Tree<N>) -> (r: Engine<'t, N>)
        ensures
            r.tree == tree,
            r.max_outcomes == 4194304,
    {
        Engine { tree, max_outcomes: 4194304 }
    }

    /// The root running, everything else idle.
    pub fn initial_state(&self) -> (r: State)
        requires
            self.tree.wf(),
        ensures
            r@ =~= self.tree.net().initial(),
            valid(self.tree.net().nodes, r@),
    {
        let n: usize = self.tree.nodes.len();
        let mut s: State = Vec::new();
        proof {
            net_durations(self.tree.net());
            initial_valid(self.tree.net());
        }
        for i in 0..n
            invariant
                n == self.tree.nodes@.len(),
                s@.len() == i,
                forall|j: int|
                    0 <= j < i ==> #[trigger] s@[j] == (if j == self.tree.root { 0i8 } else { IDLE }),
        {
            if i == self.tree.root as usize {
                s.push(0);
            } else {
                s.push(IDLE);
            }
        }
        assert(s@ =~= self.tree.net().initial());
        s
    }

    pub fn is_final(&self, s: &[i8]) -> (r: bool)
        requires
            self.tree.root < s@.len(),
        ensures
            r == (s@[self.tree.root as int] == DONE),
    {
        s[self.tree.root as usize] == DONE
    }

    /// The trigger that holds at a node, zero for none.
    fn psi_at(&self, s: &[i8], id: u32) -> (r: u8)
        requires
            self.tree.wf(),
            s@.len() == self.tree.nodes@.len(),
            1 <= id <= self.tree.n_nodes,
        ensures
            r == psi(self.tree.net().nodes, s@, id as int),
    {
        proof {
            net_children(self.tree.net(), id as int);
        }
        let n = self.tree.node(id);
        let sv = s[id as usize];
        match n.kind {
            Kind::Task => {
                if sv >= 0 && (sv as i16) < n.duration {
                    5
                } else {
                    0
                }
            },
            Kind::Parallel => {
                let (lo, hi) = (s[n.low as usize], s[n.high as usize]);
                if lo == DONE && hi == DONE {
                    3
                } else if sv >= 0 && lo == IDLE && hi == IDLE {
                    2
                } else {
                    0
                }
            },
            Kind::Sequence | Kind::Choice | Kind::Nature => {
                let (lo, hi) = (s[n.low as usize], s[n.high as usize]);
                if lo == DONE || hi == DONE {
                    3
                } else if sv >= 0 && lo == IDLE && hi == IDLE {
                    match n.kind {
                        Kind::Sequence => 2,
                        Kind::Choice => 1,
                        _ => 4,
                    }
                } else {
                    0
                }
            },
        }
    }

    /// The rank and the witness of a state, or `None` at the final state,
    /// where no trigger holds.
    ///
    /// One pass in increasing identifier keeps the least rank met, and the
    /// first identifier that held it. The first holder of rank 1 is the only
    /// early exit available: a smaller rank may still turn up at a larger
    /// identifier, so nothing else may stop the pass.
    pub fn rank_witness(&self, s: &[i8]) -> (r: Option<(u8, u32)>)
        requires
            self.tree.wf(),
            s@.len() == self.tree.nodes@.len(),
        ensures
            match r {
                None => rank(self.tree.net().nodes, s@) is None,
                Some((i, w)) => rank(self.tree.net().nodes, s@) == Some((i as int, w as int)),
            },
            r matches Some((i, w)) ==> 1 <= i <= 5 && 1 <= w <= self.tree.n_nodes,
    {
        let ghost g = self.tree.net().nodes;
        let mut found: Option<(u8, u32)> = None;
        let n = self.tree.n_nodes;
        for id in 1..n + 1
            invariant
                n == self.tree.n_nodes,
                n < u32::MAX,
                self.tree.wf(),
                s@.len() == self.tree.nodes@.len(),
                g == self.tree.net().nodes,
                match found {
                    None => best(g, s@, id - 1) is None,
                    Some((i, w)) => best(g, s@, id - 1) == Some((i as int, w as int)),
                },
                found matches Some((i, w)) ==> 1 < i <= 5 && 1 <= w <= id - 1,
        {
            let r = self.psi_at(s, id);
            if r == 1 {
                proof {
                    best_is_least(g, s@, id as int);
                    best_is_least(g, s@, n as int);
                    best_is_least(g, s@, id - 1);
                    let b = best(g, s@, n as int);
                    assert(psi(g, s@, id as int) == 1);
                    assert(b is Some);
                    assert(b.unwrap().0 == 1);
                    assert(psi(g, s@, b.unwrap().1) == 1);
                    if found is Some {
                        assert forall|v: int| 1 <= v < id implies #[trigger] psi(g, s@, v) != 1 by {}
                    }
                    assert(b.unwrap().1 == id);
                }
                return Some((1, id));
            }
            if r != 0 {
                match found {
                    None => {
                        found = Some((r, id));
                    },
                    Some((i, _)) => {
                        if r < i {
                            found = Some((r, id));
                        }
                    },
                }
            }
        }
        found
    }

    /// The descent starts the low child of a sequence and both children of a
    /// parallel node.
    pub(crate) fn down(&self, s: &mut State, v: u32)
        requires
            self.tree.wf(),
            old(s)@.len() == self.tree.nodes@.len(),
            1 <= v <= self.tree.n_nodes,
            self.tree.nodes@[v as int].kind != Kind::Task,
        ensures
            final(s)@ =~= lowered(self.tree.net().nodes, old(s)@, v as int),
    {
        proof {
            net_children(self.tree.net(), v as int);
        }
        let n = self.tree.node(v);
        s.set(n.low as usize, 0);
        if n.kind == Kind::Parallel {
            s.set(n.high as usize, 0);
        }
    }

    /// The hand-over of a sequence, or the closing of a node above the
    /// branches that are done.
    pub(crate) fn up(&self, s: &mut State, v: u32)
        requires
            self.tree.wf(),
            old(s)@.len() == self.tree.nodes@.len(),
            1 <= v <= self.tree.n_nodes,
            self.tree.nodes@[v as int].kind != Kind::Task,
        ensures
            final(s)@ =~= raised(self.tree.net().nodes, old(s)@, v as int),
    {
        proof {
            net_children(self.tree.net(), v as int);
        }
        let n = self.tree.node(v);
        if n.kind == Kind::Sequence && s[n.low as usize] == DONE && s[n.high as usize] == IDLE {
            s.set(n.low as usize, IDLE);
            s.set(n.high as usize, 0);
        } else {
            s.set(n.low as usize, IDLE);
            s.set(n.high as usize, IDLE);
            s.set(v as usize, DONE);
        }
    }

    /// The least time to a completion over the running tasks.
    pub(crate) fn time_left(&self, s: &State) -> (t: i32)
        requires
            self.tree.wf(),
            valid(self.tree.net().nodes, s@),
        ensures
            t == advance(self.tree.net().nodes, s@),
    {
        let ghost g = self.tree.net().nodes;
        let mut t: i32 = 0x7fff_ffff;
        let n = self.tree.n_nodes;
        for u in 1..n + 1
            invariant
                n == self.tree.n_nodes,
                n < u32::MAX,
                self.tree.wf(),
                g == self.tree.net().nodes,
                valid(g, s@),
                t == least_left(g, s@, u - 1),
        {
            proof {
                net_children(self.tree.net(), u as int);
            }
            let node = self.tree.node(u);
            let sv = s[u as usize];
            if matches!(node.kind, Kind::Task) && sv >= 0 {
                let rest: i32 = node.duration as i32 - sv as i32;
                if rest < t {
                    t = rest;
                }
            }
        }
        t
    }

    /// The fast forward, the only move that pays. Every task whose time left
    /// is the least completes in this one step, and the cost is the sum of
    /// their impacts.
    pub(crate) fn fast_forward(&self, s: &mut State, impact: &mut Vec<N>)
        requires
            self.tree.wf(),
            valid(self.tree.net().nodes, old(s)@),
            exists|u: int| 1 <= u <= self.tree.n_nodes && busy(self.tree.net().nodes, old(s)@, u),
            old(impact)@.len() == self.tree.k,
        ensures
            final(s)@ =~= forwarded(self.tree.net().nodes, old(s)@),
            vals(final(impact)@) == paid(
                self.tree,
                old(s)@,
                self.tree.net().size(),
                vals(old(impact)@),
            ),
            final(impact)@.len() == self.tree.k,
    {
        let ghost g = self.tree.net().nodes;
        let ghost s0 = s@;
        let ghost i0 = vals(impact@);
        let t = self.time_left(s);
        proof {
            net_durations(self.tree.net());
            least_left_bounds(g, s0, self.tree.n_nodes as int);
        }
        let n = self.tree.n_nodes;
        for u in 1..n + 1
            invariant
                n == self.tree.n_nodes,
                n < u32::MAX,
                self.tree.wf(),
                g == self.tree.net().nodes,
                valid(g, s0),
                t == advance(g, s0),
                1 <= t <= 127,
                forall|v: int|
                    1 <= v <= n && #[trigger] busy(g, s0, v) ==> t <= left(g, s0, v),
                s@.len() == g.len(),
                forall|v: int| 0 <= v < u ==> #[trigger] s@[v] == forwarded(g, s0)[v],
                forall|v: int| u <= v < g.len() ==> #[trigger] s@[v] == s0[v],
                impact@.len() == self.tree.k,
                vals(impact@) == paid(self.tree, s0, u - 1, i0),
        {
            proof {
                net_children(self.tree.net(), u as int);
            }
            let node = self.tree.node(u);
            let sv = s[u as usize];
            if matches!(node.kind, Kind::Task) && sv >= 0 {
                assert(busy(g, s0, u as int));
                let rest: i32 = node.duration as i32 - sv as i32;
                if rest == t {
                    s.set(u as usize, DONE);
                    *impact = sum(impact, self.tree.impact(u));
                } else {
                    let next: i32 = sv as i32 + t;
                    s.set(u as usize, next as i8);
                }
            }
        }
    }

    /// Runs the forced moves from `start`, branching at every nature node, until
    /// each branch reaches a choice state or the final state. The decisions of
    /// each branch are appended to `prefix`, which carries the action taken at
    /// the choice state this macro step leaves.
    ///
    /// A macro step is one edge of the search and many transitions of the
    /// process. Nothing between two choice states is decided by a policy, so
    /// nothing between them has to be held.
    pub fn macro_step(&self, start: State, prefix: Vec<u32>) -> (r: Result<
        Vec<Outcome<N>>,
        StepError,
    >)
        requires
            self.tree.wf(),
            valid(self.tree.net().nodes, start@),
        ensures
            ({
                let all = forced(
                    self.tree,
                    start@,
                    prefix@,
                    zeros_v::<N>(self.tree.k as nat),
                    N::one_v(),
                );
                match r {
                    Ok(out) => leaves(out@) == all && (all.len() == 1 || all.len()
                        <= self.max_outcomes),
                    Err(e) => e == StepError::TooManyOutcomes(self.max_outcomes) && all.len() > 1
                        && all.len() > self.max_outcomes,
                }
            }),
    {
        let tree = self.tree;
        let ghost g = tree.net().nodes;
        let ghost all = forced(tree, start@, prefix@, zeros_v::<N>(tree.k as nat), N::one_v());
        let mut out: Vec<Outcome<N>> = Vec::new();
        let mut stack: Vec<Pending<N>> = Vec::new();
        stack.push(
            Pending { state: start, decisions: prefix, impact: zeros(tree.k), prob: N::one() },
        );
        proof {
            assert(stack@.drop_last() =~= Seq::empty());
            assert(owed_outcomes(tree, stack@.drop_last()) =~= Seq::empty());
            assert(leaves(out@) =~= Seq::empty());
            assert(all =~= leaves(out@) + owed_outcomes(tree, stack@));
        }
        while stack.len() > 0
            invariant
                tree == self.tree,
                tree.wf(),
                g == tree.net().nodes,
                all == forced(tree, start@, prefix@, zeros_v::<N>(tree.k as nat), N::one_v()),
                sound_stack(tree, stack@),
                all == leaves(out@) + owed_outcomes(tree, stack@),
                out@.len() + stack@.len() == 1 || out@.len() + stack@.len() <= self.max_outcomes,
            decreases owed_moves(tree, stack@),
        {
            let ghost stack0 = stack@;
            let top = stack.pop().unwrap();
            let mut s = top.state;
            let mut decisions = top.decisions;
            let mut impact = top.impact;
            let mut prob = top.prob;
            assert(stack@ =~= stack0.drop_last());
            loop
                invariant_except_break
                    tree == self.tree,
                    tree.wf(),
                    g == tree.net().nodes,
                    all == forced(tree, start@, prefix@, zeros_v::<N>(tree.k as nat), N::one_v()),
                    sound_stack(tree, stack@),
                    valid(g, s@),
                    impact@.len() == tree.k,
                    all == leaves(out@) + (forced(tree, s@, decisions@, vals(impact@), prob.value())
                        + owed_outcomes(tree, stack@)),
                    out@.len() + stack@.len() + 1 == 1 || out@.len() + stack@.len() + 1
                        <= self.max_outcomes,
                    owed_moves(tree, stack@) + forced_moves(tree, s@) <= owed_moves(tree, stack0),
                ensures
                    tree == self.tree,
                    tree.wf(),
                    g == tree.net().nodes,
                    sound_stack(tree, stack@),
                    all == leaves(out@) + owed_outcomes(tree, stack@),
                    out@.len() + stack@.len() == 1 || out@.len() + stack@.len()
                        <= self.max_outcomes,
                    owed_moves(tree, stack@) < owed_moves(tree, stack0),
                decreases owed_moves(tree, stack@) + forced_moves(tree, s@),
            {
                let found = self.rank_witness(s.as_slice());
                let ghost out0 = out@;
                let ghost stack1 = stack@;
                let stop = match found {
                    None => Some(Stop::Final),
                    Some((r, v)) => if r == 1 {
                        Some(Stop::Choice(v))
                    } else {
                        None
                    },
                };
                if let Some(stop) = stop {
                    out.push(Outcome { decisions, impact, prob, state: s, stop });
                    proof {
                        assert(leaves(out@) =~= leaves(out0).push(out@.last().leaf()));
                        assert(all =~= leaves(out@) + owed_outcomes(tree, stack@));
                    }
                    break;
                }
                let (r, v) = found.unwrap();
                proof {
                    best_is_least(g, s@, tree.n_nodes as int);
                    net_children(tree.net(), v as int);
                    if r == 4 {
                        branch_works(tree.net(), s@);
                    } else {
                        moved_works(tree.net(), s@);
                    }
                }
                if r == 4 {
                    let n = tree.node(v);
                    let ghost high_outcomes = forced(
                        tree,
                        started(s@, n.high as int),
                        decisions@.push(n.high),
                        vals(impact@),
                        N::times_v(prob.value(), N::minus_v(N::one_v(), n.prob.value())),
                    );
                    let ghost low_outcomes = forced(
                        tree,
                        started(s@, n.low as int),
                        decisions@.push(n.low),
                        vals(impact@),
                        N::times_v(prob.value(), n.prob.value()),
                    );
                    proof {
                        assert(forced(tree, s@, decisions@, vals(impact@), prob.value())
                            == low_outcomes + high_outcomes);
                    }
                    if out.len() + stack.len() + 1 >= self.max_outcomes {
                        proof {
                            owed_at_least(tree, stack@);
                            forced_some(
                                tree,
                                started(s@, n.high as int),
                                decisions@.push(n.high),
                                vals(impact@),
                                N::times_v(prob.value(), N::minus_v(N::one_v(), n.prob.value())),
                            );
                            forced_some(
                                tree,
                                started(s@, n.low as int),
                                decisions@.push(n.low),
                                vals(impact@),
                                N::times_v(prob.value(), n.prob.value()),
                            );
                        }
                        return Err(StepError::TooManyOutcomes(self.max_outcomes));
                    }
                    let mut s_high = s.clone();
                    s_high.set(n.high as usize, 0);
                    let mut d_high = decisions.clone();
                    d_high.push(n.high);
                    let other = N::one().minus(&n.prob);
                    stack.push(
                        Pending {
                            state: s_high,
                            decisions: d_high,
                            impact: dup_vec(&impact),
                            prob: prob.times(&other),
                        },
                    );
                    s.set(n.low as usize, 0);
                    decisions.push(n.low);
                    prob = prob.times(&n.prob);
                    proof {
                        assert(stack@.drop_last() =~= stack1);
                        assert(stack@.last().outcomes(tree) == high_outcomes);
                        assert((low_outcomes + high_outcomes) + owed_outcomes(tree, stack1)
                            =~= low_outcomes + (high_outcomes + owed_outcomes(tree, stack1)));
                    }
                } else if r == 2 {
                    self.down(&mut s, v);
                } else if r == 3 {
                    self.up(&mut s, v);
                } else {
                    assert(busy(g, s@, v as int));
                    self.fast_forward(&mut s, &mut impact);
                }
            }
        }
        proof {
            assert(owed_outcomes(tree, stack@) =~= Seq::empty());
            assert(all =~= leaves(out@));
        }
        Ok(out)
    }

    /// The macro step out of the initial state, which no action precedes.
    pub fn initial_outcomes(&self) -> (r: Result<Vec<Outcome<N>>, StepError>)
        requires
            self.tree.wf(),
        ensures
            ({
                let all = opening(self.tree);
                match r {
                    Ok(out) => leaves(out@) == all && (all.len() == 1 || all.len()
                        <= self.max_outcomes),
                    Err(e) => e == StepError::TooManyOutcomes(self.max_outcomes) && all.len() > 1
                        && all.len() > self.max_outcomes,
                }
            }),
    {
        self.macro_step(self.initial_state(), Vec::new())
    }

    /// The macro step out of the choice state `s` under the action that starts
    /// the child `action` of its witness.
    pub fn step_action(&self, s: &[i8], action: u32) -> (r: Result<Vec<Outcome<N>>, StepError>)
        requires
            self.tree.wf(),
            valid(self.tree.net().nodes, s@),
            action < s@.len(),
        ensures
            ({
                let all = reply(self.tree, s@, action);
                match r {
                    Ok(out) => leaves(out@) == all && (all.len() == 1 || all.len()
                        <= self.max_outcomes),
                    Err(e) => e == StepError::TooManyOutcomes(self.max_outcomes) && all.len() > 1
                        && all.len() > self.max_outcomes,
                }
            }),
    {
        let mut next: State = Vec::new();
        for i in 0..s.len()
            invariant
                next@ =~= s@.take(i as int),
        {
            next.push(s[i]);
        }
        next.set(action as usize, 0);
        proof {
            net_durations(self.tree.net());
            assert(next@ =~= started(s@, action as int));
        }
        let mut prefix: Vec<u32> = Vec::new();
        prefix.push(action);
        assert(prefix@ =~= seq![action]);
        self.macro_step(next, prefix)
    }
}

/// The outcomes of the initial state.
pub open spec fn opening<N: Number>(t: &Tree<N>) -> Seq<Leaf<N::Value>> {
    forced(t, t.net().initial(), Seq::empty(), zeros_v::<N>(t.k as nat), N::one_v())
}

/// The outcomes of starting the child `action` in the state `s`.
pub open spec fn reply<N: Number>(t: &Tree<N>, s: Seq<i8>, action: u32) -> Seq<Leaf<N::Value>> {
    forced(t, started(s, action as int), seq![action], zeros_v::<N>(t.k as nat), N::one_v())
}

} // verus!
