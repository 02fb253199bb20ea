//! The two tables: decision histories keyed by their decisions, choice states
//! keyed by the state itself.
//!
//! Everything that depends on the state alone, the two bounds and the two macro
//! steps that leave it, is held on the choice state and computed once, however
//! many histories end there. Everything that depends on the history, its
//! accumulated impact, its probability and the two contributions it makes to
//! the frontier sums, is held on the history and carried incrementally, one
//! addition and one multiplication per expansion.
//!
//! The records live in arenas and are passed around by position.

use vstd::prelude::*;
use crate::arena::Arena;
use crate::bound::{bound_v, bounds};
use crate::frontier::{hat_v, heap, kids_facts, open_waits, part, part_len};
use crate::hash::{dh_hash, hash_of_dh, hash_of_state, same_dh, same_state, state_hash, Index};
use crate::history::{extended, kids, opening_facts, path, trail, trail_facts, trail_opening};
use crate::list::reversed;
use crate::num::{sum, sum_v, vals, zeros, zeros_v, Number};
use crate::progress::{branch_works, net_children};
use crate::semantics::{best_is_least, rank, started, valid};
use crate::state::{leaves, opening, reply, stop_at, stops, Engine, Leaf, Outcome, StepError, Stop};
use crate::strategy::picked;
use crate::tree::Tree;
use crate::unfolding::{forced_outcomes, outcome_of};

verus! {

#[derive(Clone, Copy, PartialEq, Eq, Structural, Debug)]
pub enum Branch {
    Low,
    High,
}

/// One outcome of the macro step out of a choice state under one action: the
/// decisions it takes, the impact to be added, the probability to be multiplied,
/// and the choice state it ends in.
pub struct Extension<N> {
    pub decisions: Vec<u32>,
    pub impact: Vec<N>,
    pub prob: N,
    /// Where the choice state sits.
    pub cs: usize,
}

pub struct ChoiceState<N> {
    pub state: Vec<i8>,
    pub stop: Stop,
    /// `U_s`, what the process pays at most from here.
    pub upper: Vec<N>,
    /// `L_s`, what it pays at least.
    pub lower: Vec<N>,
}

impl<N: Number> ChoiceState<N> {
    pub fn is_final(&self) -> (r: bool)
        ensures
            r == (self.stop == Stop::Final),
    {
        matches!(self.stop, Stop::Final)
    }

    /// The node the two actions start, at a choice state that is not final.
    pub fn action(&self, tree: &Tree<N>, branch: Branch) -> (r: u32)
        requires
            self.stop matches Stop::Choice(w) && w < tree.nodes@.len(),
        ensures
            self.stop matches Stop::Choice(w) && r == picked(tree.net().nodes[w as int], branch),
    {
        match self.stop {
            Stop::Choice(w) => {
                let n = tree.node(w);
                match branch {
                    Branch::Low => n.low,
                    Branch::High => n.high,
                }
            },
            Stop::Final => 0,
        }
    }
}

/// What one action does to one history: the histories that replace it, and the
/// three quantities the frontier needs to move from the one to the others.
///
/// Held on the history and computed once. The extensions of a choice state are
/// shared by every history that ends there; the histories they lead to are not,
/// since they carry the impact and the probability of this path. Two branches of
/// the computation tree that decided an earlier choice differently reach the
/// same history all the same, and then they share this too.
pub struct Expansion<N> {
    /// The children that are still open, which go into the frontier.
    pub open_children: Vec<usize>,
    /// What the children that are already final add to the closed part.
    pub closed_delta: Vec<N>,
    /// What the open children add to the accepting sum.
    pub open_e_delta: Vec<N>,
    /// What the open children add to the rejecting sum.
    pub open_l_delta: Vec<N>,
    /// How many children are already final. They leave no trace in the frontier
    /// beyond their contribution to the closed part, so a frontier that wants to
    /// say how many histories it holds has to be told their number here.
    pub closed_count: usize,
}

pub struct History<N> {
    /// A serial number, in the order of creation.
    pub id: u64,
    /// The key: the identifiers of the decision nodes taken, one per XOR node
    /// passed, choice and nature alike.
    pub dh: Vec<u32>,
    /// `I_dh`, the impact accumulated along the path.
    pub impact: Vec<N>,
    /// `P_dh`, the product of the transition probabilities along the path.
    pub prob: N,
    /// Where the choice state the path ends in sits, shared with every other
    /// history that ends there.
    pub cs: usize,
    /// `P_dh * (I_dh + U_cs)`, the contribution to the accepting sum of any
    /// frontier that holds this history.
    pub e_hat: Vec<N>,
    /// `P_dh * (I_dh + L_cs)`, the contribution to the rejecting sum.
    pub l_hat: Vec<N>,
}

/// Everything the tables own.
pub struct Records<N> {
    pub choice_states: Arena<ChoiceState<N>>,
    pub histories: Arena<History<N>>,
    pub expansions: Arena<Expansion<N>>,
    pub extensions: Arena<Vec<Extension<N>>>,
}

impl<N: Number> Records<N> {
    pub fn new() -> (r: Records<N>)
        ensures
            r.choice_states@.len() == 0,
            r.histories@.len() == 0,
            r.expansions@.len() == 0,
            r.extensions@.len() == 0,
    {
        Records {
            choice_states: Arena::new(),
            histories: Arena::new(),
            expansions: Arena::new(),
            extensions: Arena::new(),
        }
    }

    /// The path a history record is about.
    pub open spec fn leaf(&self, i: int) -> Leaf<N::Value> {
        let h = self.histories@[i];
        Leaf {
            decisions: h.dh@,
            impact: vals(h.impact@),
            prob: h.prob.value(),
            state: self.choice_states@[h.cs as int].state@,
            stop: self.choice_states@[h.cs as int].stop,
        }
    }

    /// The paths of a list of history records.
    pub open spec fn paths(&self, at: Seq<usize>) -> Seq<Leaf<N::Value>> {
        Seq::new(at.len(), |i: int| self.leaf(at[i] as int))
    }

    /// The outcome an extension is about.
    pub open spec fn outcome(&self, e: Extension<N>) -> Leaf<N::Value> {
        Leaf {
            decisions: e.decisions@,
            impact: vals(e.impact@),
            prob: e.prob.value(),
            state: self.choice_states@[e.cs as int].state@,
            stop: self.choice_states@[e.cs as int].stop,
        }
    }

    pub open spec fn outcomes(&self, es: Seq<Extension<N>>) -> Seq<Leaf<N::Value>> {
        Seq::new(es.len(), |i: int| self.outcome(es[i]))
    }

    /// The names of the histories, in the order in which they were recorded.
    pub open spec fn names(&self) -> Seq<Seq<u32>> {
        Seq::new(self.histories@.len(), |i: int| self.histories@[i].dh@)
    }

    /// The choice states, in the order in which they were recorded.
    pub open spec fn states(&self) -> Seq<Seq<i8>> {
        Seq::new(self.choice_states@.len(), |i: int| self.choice_states@[i].state@)
    }

    pub proof fn names_has(&self, d: Seq<u32>)
        ensures
            self.names().contains(d) == self.has(d),
    {
        if self.has(d) {
            let i = choose|i: int|
                0 <= i < self.histories@.len() && #[trigger] self.histories@[i].dh@ == d;
            assert(self.names()[i] == d);
        }
        if self.names().contains(d) {
            let i = self.names().index_of(d);
            assert(self.histories@[i].dh@ == d);
        }
    }

    /// A history of this name has been recorded.
    pub open spec fn has(&self, d: Seq<u32>) -> bool {
        exists|i: int| 0 <= i < self.histories@.len() && #[trigger] self.histories@[i].dh@ == d
    }

    /// These positions are positions of histories.
    pub open spec fn holds(&self, at: Seq<usize>) -> bool {
        forall|i: int| 0 <= i < at.len() ==> #[trigger] at[i] < self.histories@.len()
    }

    /// Whether the history at a position is open.
    pub fn is_open(&self, at: usize) -> (r: bool)
        requires
            at < self.histories@.len(),
            self.histories@[at as int].cs < self.choice_states@.len(),
        ensures
            r == (self.leaf(at as int).stop != Stop::Final),
    {
        !self.choice_states.get(self.histories.get(at).cs).is_final()
    }
}

impl<N: Number> Default for Records<N> {
    fn default() -> (r: Records<N>)
        ensures
            r.histories@.len() == 0,
    {
        Records::new()
    }
}

pub struct Store<'t, N> {
    pub tree: &'t Tree<N>,
    pub engine: Engine<'t, N>,
    pub records: Records<N>,
    /// The choice states by the hash of their state.
    pub cs_index: Index,
    /// The histories by the hash of their decisions.
    pub hist_index: Index,
    /// The extensions of each choice state, once they have been asked for.
    pub cs_low: Vec<Option<usize>>,
    pub cs_high: Vec<Option<usize>>,
    /// The expansions of each history, once they have been asked for.
    pub hist_low: Vec<Option<usize>>,
    pub hist_high: Vec<Option<usize>>,
    pub macro_steps: usize,
    pub outcomes: usize,
}

/// A macro step the engine can hold.
pub open spec fn holdable<V>(ls: Seq<Leaf<V>>, max: usize) -> bool {
    ls.len() == 1 || ls.len() <= max
}

/// These, and one more where it is new.
pub open spec fn met<A>(known: Seq<A>, d: A) -> Seq<A> {
    if known.contains(d) {
        known
    } else {
        known.push(d)
    }
}

/// These names, and those of the paths that are new, in their order.
pub open spec fn met_all<V>(known: Seq<Seq<u32>>, ls: Seq<Leaf<V>>) -> Seq<Seq<u32>>
    decreases ls.len(),
{
    if ls.len() == 0 {
        known
    } else {
        met(met_all(known, ls.drop_last()), ls.last().decisions)
    }
}

/// These states, and those the outcomes end in that are new, in their order.
pub open spec fn met_states<V>(known: Seq<Seq<i8>>, ls: Seq<Leaf<V>>) -> Seq<Seq<i8>>
    decreases ls.len(),
{
    if ls.len() == 0 {
        known
    } else {
        met(met_states(known, ls.drop_last()), ls.last().state)
    }
}

/// What the tables have come to hold, in the order in which they met it.
pub struct Lore {
    /// The names of the histories.
    pub names: Seq<Seq<u32>>,
    /// The choice states.
    pub states: Seq<Seq<i8>>,
    /// The macro steps taken: the choice state and the branch of each.
    pub taken: Set<(Seq<i8>, Branch)>,
    pub macro_steps: usize,
    pub outcomes: usize,
}

/// What is held once a macro step has been taken, which is done once.
pub open spec fn step_lore<N: Number>(t: &Tree<N>, l: Lore, s: Seq<i8>, b: Branch) -> Lore {
    if l.taken.contains((s, b)) {
        l
    } else {
        let ls = reply(t, s, child_of(t, s, b));
        Lore {
            states: met_states(l.states, ls),
            taken: l.taken.insert((s, b)),
            macro_steps: l.macro_steps.wrapping_add(1),
            outcomes: l.outcomes.wrapping_add(ls.len() as usize),
            ..l
        }
    }
}

/// What is held once a branch of a history has been followed.
pub open spec fn child_lore<N: Number>(t: &Tree<N>, l: Lore, h: Leaf<N::Value>, b: Branch) -> Lore {
    let after = step_lore(t, l, h.state, b);
    Lore { names: met_all(after.names, kids(t, h, b)), ..after }
}

/// What is held once the histories nothing is decided in have been met.
pub open spec fn first_lore<N: Number>(t: &Tree<N>, l: Lore) -> Lore {
    let ls = opening(t);
    Lore {
        names: met_all(l.names, ls),
        states: met_states(l.states, ls),
        macro_steps: l.macro_steps.wrapping_add(1),
        outcomes: l.outcomes.wrapping_add(ls.len() as usize),
        ..l
    }
}

/// Nothing.
pub open spec fn no_lore() -> Lore {
    Lore {
        names: Seq::empty(),
        states: Seq::empty(),
        taken: Set::empty(),
        macro_steps: 0,
        outcomes: 0,
    }
}

proof fn met_before<V>(known: Seq<Seq<u32>>, ls: Seq<Leaf<V>>)
    requires
        forall|i: int| 0 <= i < ls.len() ==> known.contains((#[trigger] ls[i]).decisions),
    ensures
        met_all(known, ls) == known,
    decreases ls.len(),
{
    if ls.len() > 0 {
        let a = ls.drop_last();
        assert forall|i: int| 0 <= i < a.len() implies known.contains(
            (#[trigger] a[i]).decisions,
        ) by {
            assert(a[i] == ls[i]);
        }
        met_before(known, a);
        assert(known.contains(ls[ls.len() - 1].decisions));
    }
}

/// Where there are more choice states than before, these extensions lead to one
/// of the new ones.
pub open spec fn brings<N: Number>(es: Seq<Extension<N>>, before: nat, after: nat) -> bool {
    after > before ==> exists|i: int| 0 <= i < es.len() && (#[trigger] es[i]).cs >= before
}

/// The child a branch starts at a choice state.
pub open spec fn child_of<N: Number>(t: &Tree<N>, s: Seq<i8>, b: Branch) -> u32 {
    picked(t.net().nodes[rank(t.net().nodes, s).unwrap().1], b) as u32
}

impl<'t, N: Number> Store<'t, N> {
    pub open spec fn cs_memo(&self, b: Branch) -> Seq<Option<usize>> {
        match b {
            Branch::Low => self.cs_low@,
            Branch::High => self.cs_high@,
        }
    }

    pub open spec fn hist_memo(&self, b: Branch) -> Seq<Option<usize>> {
        match b {
            Branch::Low => self.hist_low@,
            Branch::High => self.hist_high@,
        }
    }

    /// The macro step out of a choice state has been taken.
    pub open spec fn took(&self, s: Seq<i8>, b: Branch) -> bool {
        exists|i: int|
            0 <= i < self.records.choice_states@.len()
                && #[trigger] self.records.choice_states@[i].state@ == s && self.cs_memo(b)[i] is Some
    }

    pub open spec fn taken(&self) -> Set<(Seq<i8>, Branch)> {
        Set::new(|p: (Seq<i8>, Branch)| self.took(p.0, p.1))
    }

    /// What the tables have come to hold.
    pub open spec fn lore(&self) -> Lore {
        Lore {
            names: self.records.names(),
            states: self.records.states(),
            taken: self.taken(),
            macro_steps: self.macro_steps,
            outcomes: self.outcomes,
        }
    }

    /// A choice state record is true to the process.
    pub open spec fn cs_true(&self, i: int) -> bool {
        let r = self.records.choice_states@[i];
        &&& valid(self.tree.net().nodes, r.state@)
        &&& stops(self.tree, r.state@)
        &&& r.stop == stop_at(self.tree, r.state@)
        &&& r.upper@.len() == self.tree.k
        &&& r.lower@.len() == self.tree.k
        &&& vals(r.upper@) == bound_v(self.tree, r.state@, true)
        &&& vals(r.lower@) == bound_v(self.tree, r.state@, false)
    }

    /// A list of extensions is the macro step out of a state under a branch.
    pub open spec fn extends(&self, x: int, s: Seq<i8>, b: Branch) -> bool {
        let es = self.records.extensions@[x]@;
        let ls = reply(self.tree, s, child_of(self.tree, s, b));
        &&& self.records.outcomes(es) == ls
        &&& holdable(ls, self.engine.max_outcomes)
        &&& forall|i: int|
            0 <= i < es.len() ==> (#[trigger] es[i]).cs < self.records.choice_states@.len()
                && es[i].impact@.len() == self.tree.k
    }

    /// A history record is true to the process.
    pub open spec fn hist_true(&self, i: int) -> bool {
        let r = self.records.histories@[i];
        let l = self.records.leaf(i);
        &&& r.cs < self.records.choice_states@.len()
        &&& r.id == (i + 1) % 0x1_0000_0000_0000_0000
        &&& r.impact@.len() == self.tree.k
        &&& trail(self.tree, r.dh@) == Some(l)
        &&& r.e_hat@.len() == self.tree.k
        &&& r.l_hat@.len() == self.tree.k
        &&& vals(r.e_hat@) == hat_v(self.tree, l, true)
        &&& vals(r.l_hat@) == hat_v(self.tree, l, false)
    }

    /// An expansion is what a branch does to a history.
    pub open spec fn expands(&self, x: int, h: Leaf<N::Value>, b: Branch) -> bool {
        let e = self.records.expansions@[x];
        let ks = kids(self.tree, h, b);
        let ls = reply(self.tree, h.state, child_of(self.tree, h.state, b));
        &&& self.records.holds(e.open_children@)
        &&& self.records.paths(e.open_children@) == part(ks, true)
        &&& e.closed_delta@.len() == self.tree.k
        &&& e.open_e_delta@.len() == self.tree.k
        &&& e.open_l_delta@.len() == self.tree.k
        &&& vals(e.closed_delta@) == heap(self.tree, part(ks, false), true)
        &&& vals(e.open_e_delta@) == heap(self.tree, part(ks, true), true)
        &&& vals(e.open_l_delta@) == heap(self.tree, part(ks, true), false)
        &&& e.closed_count == part(ks, false).len()
        &&& holdable(ls, self.engine.max_outcomes)
        &&& forall|i: int| 0 <= i < ks.len() ==> self.records.has((#[trigger] ks[i]).decisions)
    }

    pub open spec fn cs_inv(&self) -> bool {
        let cs = self.records.choice_states@;
        &&& self.cs_index.width() > 0
        &&& self.cs_low@.len() == cs.len()
        &&& self.cs_high@.len() == cs.len()
        &&& forall|i: int| 0 <= i < cs.len() ==> #[trigger] self.cs_true(i)
        &&& forall|i: int, j: int|
            0 <= i < j < cs.len() ==> (#[trigger] cs[i]).state@ != (#[trigger] cs[j]).state@
        &&& forall|i: int|
            0 <= i < cs.len() ==> self.cs_index.at(
                state_hash((#[trigger] cs[i]).state@, cs[i].state@.len() as int),
            ).contains(i as usize)
        &&& forall|h: u64, j: int|
            0 <= j < self.cs_index.at(h).len() ==> #[trigger] self.cs_index.at(h)[j] < cs.len()
        &&& forall|i: int, b: Branch|
            0 <= i < cs.len() ==> (#[trigger] self.cs_memo(b)[i] matches Some(x) ==> x
                < self.records.extensions@.len() && self.extends(x as int, cs[i].state@, b))
    }

    pub open spec fn hist_inv(&self) -> bool {
        let hs = self.records.histories@;
        &&& self.hist_index.width() > 0
        &&& self.hist_low@.len() == hs.len()
        &&& self.hist_high@.len() == hs.len()
        &&& forall|i: int| 0 <= i < hs.len() ==> #[trigger] self.hist_true(i)
        &&& forall|i: int, j: int|
            0 <= i < j < hs.len() ==> (#[trigger] hs[i]).dh@ != (#[trigger] hs[j]).dh@
        &&& forall|i: int|
            0 <= i < hs.len() ==> self.hist_index.at(
                dh_hash((#[trigger] hs[i]).dh@, hs[i].dh@.len() as int),
            ).contains(i as usize)
        &&& forall|h: u64, j: int|
            0 <= j < self.hist_index.at(h).len() ==> #[trigger] self.hist_index.at(h)[j] < hs.len()
        &&& forall|i: int, b: Branch|
            0 <= i < hs.len() ==> (#[trigger] self.hist_memo(b)[i] matches Some(x) ==> x
                < self.records.expansions@.len() && self.expands(
                x as int,
                self.records.leaf(i),
                b,
            ))
    }

    /// A history is followed only where the macro step out of its choice state
    /// has been taken.
    #[verifier::opaque]
    pub open spec fn stepped_first(&self) -> bool {
        forall|i: int, b: Branch|
            0 <= i < self.records.histories@.len() && #[trigger] self.hist_memo(b)[i] is Some
                ==> self.cs_memo(b)[self.records.histories@[i].cs as int] is Some
    }

    proof fn stepped_kept(&self, before: &Store<'t, N>)
        requires
            before.inv(),
            before.records.histories@.len() <= self.records.histories@.len(),
            forall|i: int|
                0 <= i < before.records.histories@.len() ==> (
                #[trigger] self.records.histories@[i]).cs == before.records.histories@[i].cs,
            forall|i: int, b: Branch|
                0 <= i < self.records.histories@.len() && #[trigger] self.hist_memo(b)[i] is Some ==> (i
                    < before.records.histories@.len() && before.hist_memo(b)[i] is Some)
                    || self.cs_memo(b)[self.records.histories@[i].cs as int] is Some,
            forall|c: int, b: Branch|
                0 <= c < before.records.choice_states@.len() && before.cs_memo(b)[c] is Some
                    ==> #[trigger] self.cs_memo(b)[c] is Some,
        ensures
            self.stepped_first(),
    {
        reveal(Store::stepped_first);
        assert forall|i: int, b: Branch|
            0 <= i < self.records.histories@.len() && #[trigger] self.hist_memo(b)[i] is Some
            implies self.cs_memo(b)[self.records.histories@[i].cs as int] is Some by {
            if i < before.records.histories@.len() && before.hist_memo(b)[i] is Some {
                assert(before.hist_true(i));
                let c = before.records.histories@[i].cs as int;
                assert(before.cs_memo(b)[c] is Some);
                assert(self.records.histories@[i].cs == c);
                assert(self.cs_memo(b)[c] is Some);
            }
        }
    }

    /// Every record is true to the process, no key occurs twice, and the two
    /// indices find every record.
    pub open spec fn inv(&self) -> bool {
        &&& self.tree.wf()
        &&& self.engine.tree == self.tree
        &&& self.cs_inv()
        &&& self.hist_inv()
        &&& self.stepped_first()
    }

    /// Nothing recorded before is lost or changed.
    pub open spec fn grown_from(&self, old: &Store<'t, N>) -> bool {
        let (a, b) = (old.records, self.records);
        &&& self.tree == old.tree
        &&& self.engine == old.engine
        &&& a.choice_states@.len() <= b.choice_states@.len()
        &&& forall|i: int|
            0 <= i < a.choice_states@.len() ==> #[trigger] b.choice_states@[i]
                == a.choice_states@[i]
        &&& a.histories@.len() <= b.histories@.len()
        &&& forall|i: int|
            0 <= i < a.histories@.len() ==> #[trigger] b.histories@[i] == a.histories@[i]
        &&& a.extensions@.len() <= b.extensions@.len()
        &&& forall|i: int|
            0 <= i < a.extensions@.len() ==> #[trigger] b.extensions@[i] == a.extensions@[i]
        &&& a.expansions@.len() <= b.expansions@.len()
        &&& forall|i: int|
            0 <= i < a.expansions@.len() ==> #[trigger] b.expansions@[i] == a.expansions@[i]
    }

    /// The number of choice states made.
    pub fn cs_made(&self) -> (n: usize)
        ensures
            n == self.records.choice_states@.len(),
    {
        self.records.choice_states.len()
    }

    /// The number of histories made.
    pub fn hist_made(&self) -> (n: usize)
        ensures
            n == self.records.histories@.len(),
    {
        self.records.histories.len()
    }

    pub fn new(tree: &'t Tree<N>, shards: usize) -> (r: Store<'t, N>)
        requires
            tree.wf(),
        ensures
            r.inv(),
            r.tree == tree,
            r.engine.max_outcomes == 4194304,
            r.records.choice_states@.len() == 0,
            r.records.histories@.len() == 0,
            r.macro_steps == 0,
            r.outcomes == 0,
    {
        let shards = if shards == 0 {
            1
        } else {
            shards
        };
        proof {
            reveal(Store::stepped_first);
        }
        Store {
            tree,
            engine: Engine::new(tree),
            records: Records::new(),
            cs_index: Index::new(shards),
            hist_index: Index::new(shards),
            cs_low: Vec::new(),
            cs_high: Vec::new(),
            hist_low: Vec::new(),
            hist_high: Vec::new(),
            macro_steps: 0,
            outcomes: 0,
        }
    }

    fn find_cs(&self, state: &Vec<i8>, h: u64) -> (r: Option<usize>)
        requires
            self.cs_inv(),
            h == state_hash(state@, state@.len() as int),
        ensures
            match r {
                Some(i) => i < self.records.choice_states@.len()
                    && self.records.choice_states@[i as int].state@ == state@,
                None => forall|i: int|
                    0 <= i < self.records.choice_states@.len() ==> (
                    #[trigger] self.records.choice_states@[i]).state@ != state@,
            },
    {
        let n = self.cs_index.count(h);
        let _made = self.cs_made();
        let ghost bucket = self.cs_index.at(h);
        for j in 0..n
            invariant
                self.cs_inv(),
                bucket == self.cs_index.at(h),
                n == bucket.len(),
                forall|q: int|
                    0 <= q < j ==> self.records.choice_states@[#[trigger] bucket[q] as int].state@
                        != state@,
        {
            let at = self.cs_index.nth(h, j);
            assert(self.cs_index.at(h)[j as int] < self.records.choice_states@.len());
            if same_state(self.records.choice_states.get(at).state.as_slice(), state.as_slice()) {
                return Some(at);
            }
        }
        proof {
            assert forall|i: int| 0 <= i < self.records.choice_states@.len() implies (
            #[trigger] self.records.choice_states@[i]).state@ != state@ by {
                if self.records.choice_states@[i].state@ == state@ {
                    assert(bucket.contains(i as usize));
                    let q = bucket.index_of(i as usize);
                    assert(bucket[q] == i as usize);
                }
            }
        }
        None
    }

    /// The choice state of `state`, created if it is met for the first time.
    /// Its two bounds are computed here, once.
    pub fn intern_cs(&mut self, state: Vec<i8>, stop: Stop) -> (r: usize)
        requires
            old(self).inv(),
            valid(old(self).tree.net().nodes, state@),
            stops(old(self).tree, state@),
            stop == stop_at(old(self).tree, state@),
        ensures
            final(self).inv(),
            final(self).grown_from(old(self)),
            final(self).records.histories == old(self).records.histories,
            final(self).records.extensions == old(self).records.extensions,
            r < final(self).records.choice_states@.len(),
            final(self).records.choice_states@[r as int].state@ == state@,
            final(self).records.choice_states@[r as int].stop == stop,
            final(self).records.choice_states@.len() == old(self).records.choice_states@.len() + (
            if r < old(self).records.choice_states@.len() {
                0int
            } else {
                1int
            }),
            r <= old(self).records.choice_states@.len(),
            final(self).macro_steps == old(self).macro_steps,
            final(self).outcomes == old(self).outcomes,
            final(self).records.states() == met(old(self).records.states(), state@),
            final(self).taken() == old(self).taken(),
            forall|b: Branch, i: int|
                0 <= i < old(self).records.choice_states@.len() ==> #[trigger] final(self).cs_memo(b)[i]
                    == old(self).cs_memo(b)[i],
    {
        let h = hash_of_state(state.as_slice());
        if let Some(found) = self.find_cs(&state, h) {
            assert(self.cs_true(found as int));
            assert(self.records.states()[found as int] == state@);
            return found;
        }
        let b = bounds(self.tree, state.as_slice());
        let record = ChoiceState { state, stop, upper: b.upper, lower: b.lower };
        let ghost before = *self;
        let at = self.records.choice_states.place(record);
        self.cs_low.push(None);
        self.cs_high.push(None);
        self.cs_index.add(h, at);
        proof {
            self.cs_grown(&before, h, at);
            assert(self.records.states() =~= before.records.states().push(state@));
            assert(!before.records.states().contains(state@)) by {
                if before.records.states().contains(state@) {
                    let i = before.records.states().index_of(state@);
                    assert(before.records.choice_states@[i].state@ == state@);
                }
            }
            self.taken_same(&before);
        }
        at
    }

    /// A choice state that is new has been stepped out of by nobody.
    proof fn taken_same(&self, before: &Store<'t, N>)
        requires
            before.records.choice_states@.len() <= self.records.choice_states@.len(),
            forall|i: int|
                0 <= i < before.records.choice_states@.len()
                    ==> (#[trigger] self.records.choice_states@[i]).state@
                    == before.records.choice_states@[i].state@,
            forall|b: Branch, i: int|
                0 <= i < before.records.choice_states@.len() ==> #[trigger] self.cs_memo(b)[i]
                    == before.cs_memo(b)[i],
            forall|b: Branch, i: int|
                before.records.choice_states@.len() <= i < self.records.choice_states@.len()
                    ==> #[trigger] self.cs_memo(b)[i] is None,
        ensures
            self.taken() == before.taken(),
    {
        assert forall|s: Seq<i8>, b: Branch| self.took(s, b) == before.took(s, b) by {
            if before.took(s, b) {
                let i = choose|i: int|
                    0 <= i < before.records.choice_states@.len()
                        && #[trigger] before.records.choice_states@[i].state@ == s && before.cs_memo(
                        b,
                    )[i] is Some;
                assert(self.records.choice_states@[i].state@ == s);
            }
            if self.took(s, b) {
                let i = choose|i: int|
                    0 <= i < self.records.choice_states@.len()
                        && #[trigger] self.records.choice_states@[i].state@ == s && self.cs_memo(
                        b,
                    )[i] is Some;
                assert(self.cs_memo(b)[i] is Some);
                assert(before.records.choice_states@[i].state@ == s);
            }
        }
        assert(self.taken() =~= before.taken());
    }

    proof fn cs_grown(&self, before: &Store<'t, N>, h: u64, at: usize)
        requires
            before.inv(),
            self.tree == before.tree,
            self.engine == before.engine,
            self.records.histories == before.records.histories,
            self.records.extensions == before.records.extensions,
            self.records.expansions == before.records.expansions,
            self.hist_index == before.hist_index,
            self.hist_low == before.hist_low,
            self.hist_high == before.hist_high,
            at == before.records.choice_states@.len(),
            self.records.choice_states@ == before.records.choice_states@.push(
                self.records.choice_states@[at as int],
            ),
            self.records.choice_states@.len() == at + 1,
            self.cs_true(at as int),
            h == state_hash(
                self.records.choice_states@[at as int].state@,
                self.records.choice_states@[at as int].state@.len() as int,
            ),
            forall|i: int|
                0 <= i < at ==> (#[trigger] before.records.choice_states@[i]).state@
                    != self.records.choice_states@[at as int].state@,
            self.cs_low@ == before.cs_low@.push(None),
            self.cs_high@ == before.cs_high@.push(None),
            self.cs_index.width() == before.cs_index.width(),
            self.cs_index.at(h) == before.cs_index.at(h).push(at),
            forall|o: u64| o != h ==> #[trigger] self.cs_index.at(o) == before.cs_index.at(o),
        ensures
            self.inv(),
            self.grown_from(before),
    {
        self.stepped_kept(before);
        let cs = self.records.choice_states@;
        let ca = before.records.choice_states@;
        assert forall|i: int| 0 <= i < cs.len() implies #[trigger] self.cs_true(i) by {
            if i < at {
                assert(before.cs_true(i));
                assert(cs[i] == ca[i]);
            }
        }
        assert forall|i: int, j: int| 0 <= i < j < cs.len() implies (#[trigger] cs[i]).state@ != (
        #[trigger] cs[j]).state@ by {
            assert(cs[i] == ca[i]);
            if j < at {
                assert(cs[j] == ca[j]);
            }
        }
        assert forall|i: int| 0 <= i < cs.len() implies self.cs_index.at(
            state_hash((#[trigger] cs[i]).state@, cs[i].state@.len() as int),
        ).contains(i as usize) by {
            let q = state_hash(cs[i].state@, cs[i].state@.len() as int);
            if i < at {
                assert(cs[i] == ca[i]);
                let bucket = before.cs_index.at(q);
                assert(bucket.contains(i as usize));
                let j = bucket.index_of(i as usize);
                assert(self.cs_index.at(q)[j] == i as usize);
            } else {
                assert(self.cs_index.at(q)[before.cs_index.at(q).len() as int] == i as usize);
            }
        }
        assert forall|q: u64, j: int|
            0 <= j < self.cs_index.at(q).len() implies #[trigger] self.cs_index.at(q)[j]
            < cs.len() by {
            if q == h && j == before.cs_index.at(q).len() {
            } else {
                assert(self.cs_index.at(q)[j] == before.cs_index.at(q)[j]);
            }
        }
        assert forall|x: int, s: Seq<i8>, b: Branch|
            0 <= x < self.records.extensions@.len() && before.extends(
                x,
                s,
                b,
            ) implies #[trigger] self.extends(x, s, b) by {
            let es = self.records.extensions@[x]@;
            assert(self.records.outcomes(es) =~= before.records.outcomes(es)) by {
                assert forall|i: int| 0 <= i < es.len() implies #[trigger] self.records.outcomes(
                    es,
                )[i] == before.records.outcomes(es)[i] by {
                    assert(es[i].cs < ca.len());
                    assert(cs[es[i].cs as int] == ca[es[i].cs as int]);
                }
            }
        }
        assert forall|i: int, b: Branch|
            0 <= i < cs.len() implies (#[trigger] self.cs_memo(b)[i] matches Some(x) ==> x
            < self.records.extensions@.len() && self.extends(x as int, cs[i].state@, b)) by {
            if i < at {
                assert(before.cs_memo(b)[i] == self.cs_memo(b)[i]);
                assert(cs[i] == ca[i]);
            }
        }
        let hs = self.records.histories@;
        assert forall|i: int| 0 <= i < hs.len() implies #[trigger] self.hist_true(i)
            && self.records.leaf(i) == before.records.leaf(i) by {
            assert(before.hist_true(i));
            assert(cs[hs[i].cs as int] == ca[hs[i].cs as int]);
        }
        assert forall|i: int, b: Branch|
            0 <= i < hs.len() implies (#[trigger] self.hist_memo(b)[i] matches Some(x) ==> x
            < self.records.expansions@.len() && self.expands(
            x as int,
            self.records.leaf(i),
            b,
        )) by {
            assert(before.hist_memo(b)[i] == self.hist_memo(b)[i]);
            assert(self.hist_true(i));
            if let Some(x) = self.hist_memo(b)[i] {
                self.expands_kept(before, x as int, self.records.leaf(i), b);
            }
        }
    }

    /// What a list of extensions is about does not change when the tables grow.
    pub proof fn extends_kept(&self, before: &Store<'t, N>, x: int, s: Seq<i8>, b: Branch)
        requires
            self.grown_from(before),
            0 <= x < before.records.extensions@.len(),
            before.extends(x, s, b),
        ensures
            x < self.records.extensions@.len(),
            self.records.extensions@[x] == before.records.extensions@[x],
            self.extends(x, s, b),
    {
        let es = before.records.extensions@[x]@;
        assert(self.records.extensions@[x] == before.records.extensions@[x]);
        assert(self.records.outcomes(es) =~= before.records.outcomes(es)) by {
            assert forall|j: int| 0 <= j < es.len() implies #[trigger] self.records.outcomes(
                es,
            )[j] == before.records.outcomes(es)[j] by {
                let c = es[j].cs as int;
                assert(es[j].cs < before.records.choice_states@.len());
                assert(self.records.choice_states@[c] == before.records.choice_states@[c]);
            }
        }
    }

    /// What an expansion is about does not change when the tables grow.
    pub proof fn expands_kept(&self, before: &Store<'t, N>, x: int, h: Leaf<N::Value>, b: Branch)
        requires
            self.grown_from(before),
            before.hist_inv(),
            0 <= x < before.records.expansions@.len(),
            before.expands(x, h, b),
        ensures
            self.expands(x, h, b),
    {
        let e = self.records.expansions@[x];
        let ks = kids(self.tree, h, b);
        assert(e == before.records.expansions@[x]);
        assert(self.records.paths(e.open_children@) =~= before.records.paths(e.open_children@)) by {
            assert forall|i: int| 0 <= i < e.open_children@.len() implies #[trigger] self.records.paths(
                e.open_children@,
            )[i] == before.records.paths(e.open_children@)[i] by {
                let q = e.open_children@[i] as int;
                assert(before.hist_true(q));
                assert(self.records.histories@[q] == before.records.histories@[q]);
                let c = before.records.histories@[q].cs as int;
                assert(self.records.choice_states@[c] == before.records.choice_states@[c]);
            }
        }
        assert forall|i: int| 0 <= i < ks.len() implies self.records.has(
            (#[trigger] ks[i]).decisions,
        ) by {
            assert(before.records.has(ks[i].decisions));
            let q = choose|q: int|
                0 <= q < before.records.histories@.len()
                    && #[trigger] before.records.histories@[q].dh@ == ks[i].decisions;
            assert(self.records.histories@[q] == before.records.histories@[q]);
        }
    }

    /// The extensions of a choice state under one action, computed on the first
    /// demand and shared from then on.
    pub fn extensions(&mut self, cs: usize, branch: Branch) -> (r: Result<usize, StepError>)
        requires
            old(self).inv(),
            cs < old(self).records.choice_states@.len(),
            old(self).records.choice_states@[cs as int].stop != Stop::Final,
        ensures
            final(self).inv(),
            final(self).grown_from(old(self)),
            final(self).records.histories == old(self).records.histories,
            ({
                let s = old(self).records.choice_states@[cs as int].state@;
                let ls = reply(old(self).tree, s, child_of(old(self).tree, s, branch));
                match r {
                    Ok(x) => x < final(self).records.extensions@.len() && final(self).extends(
                        x as int,
                        s,
                        branch,
                    ),
                    Err(e) => e == StepError::TooManyOutcomes(old(self).engine.max_outcomes)
                        && ls.len() > 1 && ls.len() > old(self).engine.max_outcomes,
                }
            }),
            r matches Ok(x) ==> final(self).cs_memo(branch)[cs as int] == Some(x) && brings(
                final(self).records.extensions@[x as int]@,
                old(self).records.choice_states@.len(),
                final(self).records.choice_states@.len(),
            ),
            ({
                let s = old(self).records.choice_states@[cs as int].state@;
                let ls = reply(old(self).tree, s, child_of(old(self).tree, s, branch));
                if r is Ok && old(self).cs_memo(branch)[cs as int] is None {
                    &&& final(self).macro_steps == old(self).macro_steps.wrapping_add(1)
                    &&& final(self).outcomes == old(self).outcomes.wrapping_add(ls.len() as usize)
                } else {
                    *final(self) == *old(self)
                }
            }),
            final(self).lore() == if r is Ok {
                step_lore(
                    old(self).tree,
                    old(self).lore(),
                    old(self).records.choice_states@[cs as int].state@,
                    branch,
                )
            } else {
                old(self).lore()
            },
    {
        let ghost start = *self;
        let found = match branch {
            Branch::Low => self.cs_low[cs],
            Branch::High => self.cs_high[cs],
        };
        let ghost s = self.records.choice_states@[cs as int].state@;
        assert(found == self.cs_memo(branch)[cs as int]);
        assert(self.cs_true(cs as int));
        if let Some(x) = found {
            assert(self.took(s, branch));
            return Ok(x);
        }
        assert(!self.took(s, branch)) by {
            if self.took(s, branch) {
                let cs2 = self.records.choice_states@;
                let i = choose|i: int|
                    0 <= i < cs2.len() && #[trigger] cs2[i].state@ == s && self.cs_memo(branch)[i] is Some;
                if i < cs {
                    assert(cs2[i].state@ != cs2[cs as int].state@);
                } else if cs < i {
                    assert(cs2[cs as int].state@ != cs2[i].state@);
                }
            }
        }
        let tree = self.tree;
        proof {
            best_is_least(tree.net().nodes, s, tree.net().size());
            net_children(tree.net(), rank(tree.net().nodes, s).unwrap().1);
        }
        let action = self.records.choice_states.get(cs).action(tree, branch);
        assert(action == child_of(tree, s, branch));
        let outcomes = match self.engine.step_action(
            self.records.choice_states.get(cs).state.as_slice(),
            action,
        ) {
            Ok(v) => v,
            Err(e) => {
                return Err(e);
            },
        };
        let ghost ls = reply(tree, s, action);
        proof {
            branch_works(tree.net(), s);
            forced_outcomes(
                tree,
                started(s, action as int),
                seq![action],
                zeros_v::<N>(tree.k as nat),
                N::one_v(),
            );
            assert forall|i: int| 0 <= i < ls.len() implies outcome_of(
                tree,
                Seq::empty(),
                #[trigger] ls[i],
            ) by {
                assert(outcome_of(tree, seq![action], ls[i]));
                assert(ls[i].decisions.take(0) =~= Seq::empty());
            }
        }
        let made = outcomes.len();
        let built = self.build(outcomes, Ghost(ls));
        let ghost before = *self;
        self.macro_steps = self.macro_steps.wrapping_add(1);
        self.outcomes = self.outcomes.wrapping_add(made);
        let x = self.records.extensions.place(built);
        match branch {
            Branch::Low => {
                self.cs_low.set(cs, Some(x));
            },
            Branch::High => {
                self.cs_high.set(cs, Some(x));
            },
        }
        proof {
            assert(self.records.outcomes(built@) =~= before.records.outcomes(built@));
            self.extensions_grown(&before, cs, branch, x);
            self.taken_more(&before, cs as int, branch);
            assert(self.records.states() =~= before.records.states());
            assert(self.records.names() =~= start.records.names());
        }
        Ok(x)
    }

    proof fn taken_more(&self, before: &Store<'t, N>, cs: int, branch: Branch)
        requires
            0 <= cs < before.records.choice_states@.len(),
            before.cs_memo(branch).len() == before.records.choice_states@.len(),
            self.records.choice_states == before.records.choice_states,
            self.cs_memo(branch)[cs] is Some,
            forall|b: Branch, i: int|
                0 <= i < before.records.choice_states@.len() && (b != branch || i != cs)
                    ==> #[trigger] self.cs_memo(b)[i] == before.cs_memo(b)[i],
        ensures
            self.taken() == before.taken().insert(
                (before.records.choice_states@[cs].state@, branch),
            ),
    {
        let states = before.records.choice_states@;
        let x = (states[cs].state@, branch);
        assert forall|s: Seq<i8>, b: Branch| self.took(s, b) == (before.took(s, b) || (s, b) == x) by {
            if before.took(s, b) {
                let i = choose|i: int|
                    0 <= i < states.len() && #[trigger] states[i].state@ == s && before.cs_memo(
                        b,
                    )[i] is Some;
                if b != branch || i != cs {
                    assert(self.cs_memo(b)[i] == before.cs_memo(b)[i]);
                }
                assert(self.records.choice_states@[i].state@ == s);
            }
            if (s, b) == x {
                assert(self.records.choice_states@[cs].state@ == s);
            }
            if self.took(s, b) {
                let i = choose|i: int|
                    0 <= i < states.len() && #[trigger] self.records.choice_states@[i].state@ == s
                        && self.cs_memo(b)[i] is Some;
                if b != branch || i != cs {
                    assert(self.cs_memo(b)[i] == before.cs_memo(b)[i]);
                    assert(states[i].state@ == s);
                }
            }
        }
        assert(self.taken() =~= before.taken().insert(x));
    }

    /// The extensions a list of outcomes makes, every choice state interned.
    fn build(&mut self, outcomes: Vec<Outcome<N>>, Ghost(ls): Ghost<Seq<Leaf<N::Value>>>) -> (r: Vec<
        Extension<N>,
    >)
        requires
            old(self).inv(),
            ls == leaves(outcomes@),
            forall|i: int|
                0 <= i < ls.len() ==> outcome_of(
                    old(self).tree,
                    Seq::empty(),
                    #[trigger] ls[i],
                ),
        ensures
            final(self).inv(),
            final(self).grown_from(old(self)),
            final(self).records.histories == old(self).records.histories,
            final(self).records.extensions == old(self).records.extensions,
            final(self).macro_steps == old(self).macro_steps,
            final(self).outcomes == old(self).outcomes,
            final(self).records.outcomes(r@) == ls,
            forall|i: int|
                0 <= i < r@.len() ==> (#[trigger] r@[i]).cs
                    < final(self).records.choice_states@.len() && r@[i].impact@.len()
                    == final(self).tree.k,
            brings(
                r@,
                old(self).records.choice_states@.len(),
                final(self).records.choice_states@.len(),
            ),
            final(self).records.states() == met_states(old(self).records.states(), ls),
            final(self).taken() == old(self).taken(),
            forall|b: Branch, i: int|
                0 <= i < old(self).records.choice_states@.len() ==> #[trigger] final(self).cs_memo(b)[i]
                    == old(self).cs_memo(b)[i],
    {
        let ghost start = *self;
        let mut built: Vec<Extension<N>> = Vec::new();
        let mut rest = reversed(outcomes);
        let ghost n = outcomes@.len();
        assert(ls.take(0) =~= Seq::empty());
        while rest.len() > 0
            invariant
                self.inv(),
                self.grown_from(&start),
                self.records.histories == start.records.histories,
                self.records.extensions == start.records.extensions,
                self.macro_steps == start.macro_steps,
                self.outcomes == start.outcomes,
                ls == leaves(outcomes@),
                n == outcomes@.len(),
                rest@.len() + built@.len() == n,
                forall|j: int| 0 <= j < rest@.len() ==> #[trigger] rest@[j] == outcomes@[n - 1 - j],
                forall|i: int|
                    0 <= i < ls.len() ==> outcome_of(
                        start.tree,
                        Seq::empty(),
                        #[trigger] ls[i],
                    ),
                forall|i: int|
                    0 <= i < built@.len() ==> (#[trigger] built@[i]).cs
                        < self.records.choice_states@.len() && built@[i].impact@.len()
                        == self.tree.k && self.records.outcome(built@[i]) == ls[i],
                brings(
                    built@,
                    start.records.choice_states@.len(),
                    self.records.choice_states@.len(),
                ),
                self.records.states() == met_states(
                    start.records.states(),
                    ls.take(built@.len() as int),
                ),
                self.taken() == start.taken(),
                forall|b: Branch, i: int|
                    0 <= i < start.records.choice_states@.len() ==> #[trigger] self.cs_memo(b)[i]
                        == start.cs_memo(b)[i],
            decreases rest@.len(),
        {
            let ghost i = built@.len();
            let o = rest.pop().unwrap();
            assert(o == outcomes@[i as int]);
            assert(ls[i as int] == o.leaf());
            assert(outcome_of(start.tree, Seq::empty(), ls[i as int]));
            assert(vals(o.impact@).len() == o.impact@.len());
            let ghost mid = *self;
            let cs = self.intern_cs(o.state, o.stop);
            let ghost had = built@;
            built.push(Extension { decisions: o.decisions, impact: o.impact, prob: o.prob, cs });
            proof {
                assert(ls.take(i as int + 1).drop_last() =~= ls.take(i as int));
                assert(ls.take(i as int + 1).last() == ls[i as int]);
                let first = start.records.choice_states@.len();
                if mid.records.choice_states@.len() > first {
                    let q = choose|q: int| 0 <= q < had.len() && (#[trigger] had[q]).cs >= first;
                    assert(built@[q] == had[q]);
                } else if self.records.choice_states@.len() > first {
                    assert(built@[i as int].cs >= first);
                }
                assert forall|q: int| 0 <= q < built@.len() implies (#[trigger] built@[q]).cs
                    < self.records.choice_states@.len() && built@[q].impact@.len() == self.tree.k
                    && self.records.outcome(built@[q]) == ls[q] by {
                    if q < i {
                        assert(mid.records.outcome(built@[q]) == ls[q]);
                        let c = built@[q].cs as int;
                        assert(self.records.choice_states@[c] == mid.records.choice_states@[c]);
                    }
                }
            }
        }
        assert(self.records.outcomes(built@) =~= ls);
        assert(ls.take(n as int) =~= ls);
        built
    }

    proof fn extensions_grown(&self, before: &Store<'t, N>, cs: usize, branch: Branch, x: usize)
        requires
            before.inv(),
            self.tree == before.tree,
            self.engine == before.engine,
            self.records.choice_states == before.records.choice_states,
            self.records.histories == before.records.histories,
            self.records.expansions == before.records.expansions,
            self.cs_index == before.cs_index,
            self.hist_index == before.hist_index,
            self.hist_low == before.hist_low,
            self.hist_high == before.hist_high,
            x == before.records.extensions@.len(),
            self.records.extensions@ == before.records.extensions@.push(
                self.records.extensions@[x as int],
            ),
            cs < before.records.choice_states@.len(),
            forall|b: Branch|
                self.cs_memo(b) == if b == branch {
                    before.cs_memo(b).update(cs as int, Some(x))
                } else {
                    before.cs_memo(b)
                },
            self.extends(x as int, self.records.choice_states@[cs as int].state@, branch),
        ensures
            self.inv(),
            self.grown_from(before),
    {
        self.stepped_kept(before);
        let c = self.records.choice_states@;
        assert(self.cs_memo(Branch::Low) == self.cs_low@);
        assert(self.cs_memo(Branch::High) == self.cs_high@);
        assert(self.records.extensions@.len() == x + 1);
        assert forall|i: int| 0 <= i < c.len() implies #[trigger] self.cs_true(i) by {
            assert(before.cs_true(i));
        }
        assert forall|i: int, b: Branch|
            0 <= i < c.len() implies (#[trigger] self.cs_memo(b)[i] matches Some(y) ==> y
            < self.records.extensions@.len() && self.extends(y as int, c[i].state@, b)) by {
            if i == cs && b == branch {
            } else {
                assert(before.cs_memo(b)[i] == self.cs_memo(b)[i]);
                if let Some(y) = self.cs_memo(b)[i] {
                    assert(before.extends(y as int, c[i].state@, b));
                    let es = self.records.extensions@[y as int]@;
                    assert(es == before.records.extensions@[y as int]@);
                    assert(self.records.outcomes(es) =~= before.records.outcomes(es));
                }
            }
        }
        let hs = self.records.histories@;
        assert forall|i: int| 0 <= i < hs.len() implies #[trigger] self.hist_true(i)
            && self.records.leaf(i) == before.records.leaf(i) by {
            assert(before.hist_true(i));
        }
        assert forall|i: int, b: Branch|
            0 <= i < hs.len() implies (#[trigger] self.hist_memo(b)[i] matches Some(y) ==> y
            < self.records.expansions@.len() && self.expands(
            y as int,
            self.records.leaf(i),
            b,
        )) by {
            assert(before.hist_memo(b)[i] == self.hist_memo(b)[i]);
            assert(self.hist_true(i));
            if let Some(y) = self.hist_memo(b)[i] {
                self.expands_kept(before, y as int, self.records.leaf(i), b);
            }
        }
    }

    fn find_history(&self, dh: &Vec<u32>, h: u64) -> (r: Option<usize>)
        requires
            self.hist_inv(),
            h == dh_hash(dh@, dh@.len() as int),
        ensures
            match r {
                Some(i) => i < self.records.histories@.len()
                    && self.records.histories@[i as int].dh@ == dh@,
                None => !self.records.has(dh@),
            },
    {
        let n = self.hist_index.count(h);
        let _made = self.hist_made();
        let ghost bucket = self.hist_index.at(h);
        for j in 0..n
            invariant
                self.hist_inv(),
                bucket == self.hist_index.at(h),
                n == bucket.len(),
                forall|q: int|
                    0 <= q < j ==> self.records.histories@[#[trigger] bucket[q] as int].dh@ != dh@,
        {
            let at = self.hist_index.nth(h, j);
            assert(self.hist_index.at(h)[j as int] < self.records.histories@.len());
            if same_dh(self.records.histories.get(at).dh.as_slice(), dh.as_slice()) {
                return Some(at);
            }
        }
        proof {
            assert forall|i: int|
                0 <= i < self.records.histories@.len() implies #[trigger] self.records.histories@[i].dh@
                != dh@ by {
                if self.records.histories@[i].dh@ == dh@ {
                    assert(bucket.contains(i as usize));
                    let q = bucket.index_of(i as usize);
                    assert(bucket[q] == i as usize);
                }
            }
        }
        None
    }

    /// The history of a decision sequence, created if it is met for the first
    /// time. Two branches of the computation tree that decided an earlier choice
    /// differently reach the same later history, and interning it is what keeps
    /// its impact, its probability and its two contributions computed once.
    pub fn intern_history(&mut self, dh: Vec<u32>, impact: Vec<N>, prob: N, cs: usize) -> (r: usize)
        requires
            old(self).inv(),
            cs < old(self).records.choice_states@.len(),
            trail(old(self).tree, dh@) == Some(
                (Leaf {
                    decisions: dh@,
                    impact: vals(impact@),
                    prob: prob.value(),
                    state: old(self).records.choice_states@[cs as int].state@,
                    stop: old(self).records.choice_states@[cs as int].stop,
                }),
            ),
        ensures
            final(self).inv(),
            final(self).grown_from(old(self)),
            final(self).records.choice_states == old(self).records.choice_states,
            final(self).records.extensions == old(self).records.extensions,
            final(self).records.expansions == old(self).records.expansions,
            r < final(self).records.histories@.len(),
            Some(final(self).records.leaf(r as int)) == trail(old(self).tree, dh@),
            final(self).records.histories@.len() == old(self).records.histories@.len() + (
            if old(self).records.has(dh@) {
                0int
            } else {
                1int
            }),
            !old(self).records.has(dh@) ==> r == old(self).records.histories@.len(),
            final(self).records.names() == met(old(self).records.names(), dh@),
            final(self).macro_steps == old(self).macro_steps,
            final(self).outcomes == old(self).outcomes,
            final(self).cs_low == old(self).cs_low,
            final(self).cs_high == old(self).cs_high,
    {
        let h = hash_of_dh(dh.as_slice());
        if let Some(found) = self.find_history(&dh, h) {
            assert(self.hist_true(found as int));
            assert(self.records.histories@[found as int].dh@ == dh@);
            assert(self.records.names()[found as int] == dh@);
            return found;
        }
        proof {
            trail_facts(self.tree, dh@);
            assert(vals(impact@).len() == impact@.len());
            assert(self.cs_true(cs as int));
        }
        let record = self.choice_state(cs);
        let e_hat = hat(&prob, &impact, &record.upper);
        let l_hat = hat(&prob, &impact, &record.lower);
        let ghost before = *self;
        let id = (self.records.histories.len() as u64).wrapping_add(1);
        let at = self.records.histories.place(
            History { id, dh, impact, prob, cs, e_hat, l_hat },
        );
        self.hist_low.push(None);
        self.hist_high.push(None);
        self.hist_index.add(h, at);
        proof {
            before.records.names_has(dh@);
            assert(self.records.names() =~= before.records.names().push(dh@));
            let l = self.records.leaf(at as int);
            assert(trail(self.tree, dh@) == Some(l));
            assert(vals(e_hat@) =~= hat_v(self.tree, l, true));
            assert(vals(l_hat@) =~= hat_v(self.tree, l, false));
            self.history_grown(&before, h, at);
        }
        at
    }

    /// The choice state at a position.
    pub fn choice_state(&self, at: usize) -> (r: &ChoiceState<N>)
        requires
            at < self.records.choice_states@.len(),
        ensures
            *r == self.records.choice_states@[at as int],
    {
        self.records.choice_states.get(at)
    }

    /// The history at a position.
    pub fn history(&self, at: usize) -> (r: &History<N>)
        requires
            at < self.records.histories@.len(),
        ensures
            *r == self.records.histories@[at as int],
    {
        self.records.histories.get(at)
    }

    proof fn history_grown(&self, before: &Store<'t, N>, h: u64, at: usize)
        requires
            before.inv(),
            self.tree == before.tree,
            self.engine == before.engine,
            self.records.choice_states == before.records.choice_states,
            self.records.extensions == before.records.extensions,
            self.records.expansions == before.records.expansions,
            self.cs_index == before.cs_index,
            self.cs_low == before.cs_low,
            self.cs_high == before.cs_high,
            at == before.records.histories@.len(),
            self.records.histories@ == before.records.histories@.push(
                self.records.histories@[at as int],
            ),
            self.records.histories@.len() == at + 1,
            self.hist_true(at as int),
            h == dh_hash(
                self.records.histories@[at as int].dh@,
                self.records.histories@[at as int].dh@.len() as int,
            ),
            !before.records.has(self.records.histories@[at as int].dh@),
            self.hist_low@ == before.hist_low@.push(None),
            self.hist_high@ == before.hist_high@.push(None),
            self.hist_index.width() == before.hist_index.width(),
            self.hist_index.at(h) == before.hist_index.at(h).push(at),
            forall|o: u64| o != h ==> #[trigger] self.hist_index.at(o) == before.hist_index.at(o),
        ensures
            self.inv(),
            self.grown_from(before),
    {
        self.stepped_kept(before);
        let hs = self.records.histories@;
        let ha = before.records.histories@;
        let cs = self.records.choice_states@;
        assert forall|i: int| 0 <= i < cs.len() implies #[trigger] self.cs_true(i) by {
            assert(before.cs_true(i));
        }
        assert forall|i: int, b: Branch|
            0 <= i < cs.len() implies (#[trigger] self.cs_memo(b)[i] matches Some(y) ==> y
            < self.records.extensions@.len() && self.extends(y as int, cs[i].state@, b)) by {
            assert(before.cs_memo(b)[i] == self.cs_memo(b)[i]);
            if let Some(y) = self.cs_memo(b)[i] {
                let es = self.records.extensions@[y as int]@;
                assert(before.extends(y as int, cs[i].state@, b));
                assert(self.records.outcomes(es) =~= before.records.outcomes(es));
            }
        }
        assert forall|i: int| 0 <= i < hs.len() implies #[trigger] self.hist_true(i) by {
            if i < at {
                assert(before.hist_true(i));
                assert(hs[i] == ha[i]);
                assert(self.records.leaf(i) == before.records.leaf(i));
            }
        }
        assert forall|i: int, j: int| 0 <= i < j < hs.len() implies (#[trigger] hs[i]).dh@ != (
        #[trigger] hs[j]).dh@ by {
            assert(hs[i] == ha[i]);
            if j < at {
                assert(hs[j] == ha[j]);
            } else {
                assert(ha[i].dh@ != hs[at as int].dh@);
            }
        }
        assert forall|i: int| 0 <= i < hs.len() implies self.hist_index.at(
            dh_hash((#[trigger] hs[i]).dh@, hs[i].dh@.len() as int),
        ).contains(i as usize) by {
            let q = dh_hash(hs[i].dh@, hs[i].dh@.len() as int);
            if i < at {
                assert(hs[i] == ha[i]);
                let bucket = before.hist_index.at(q);
                assert(bucket.contains(i as usize));
                let j = bucket.index_of(i as usize);
                assert(self.hist_index.at(q)[j] == i as usize);
            } else {
                assert(self.hist_index.at(q)[before.hist_index.at(q).len() as int] == i as usize);
            }
        }
        assert forall|q: u64, j: int|
            0 <= j < self.hist_index.at(q).len() implies #[trigger] self.hist_index.at(q)[j]
            < hs.len() by {
            if q == h && j == before.hist_index.at(q).len() {
            } else {
                assert(self.hist_index.at(q)[j] == before.hist_index.at(q)[j]);
            }
        }
        assert forall|i: int, b: Branch|
            0 <= i < hs.len() implies (#[trigger] self.hist_memo(b)[i] matches Some(y) ==> y
            < self.records.expansions@.len() && self.expands(
            y as int,
            self.records.leaf(i),
            b,
        )) by {
            if i < at {
                assert(before.hist_memo(b)[i] == self.hist_memo(b)[i]);
                assert(hs[i] == ha[i]);
                assert(self.records.leaf(i) == before.records.leaf(i));
                if let Some(y) = self.hist_memo(b)[i] {
                    self.expands_kept(before, y as int, self.records.leaf(i), b);
                }
            }
        }
    }

    /// What one action does to one history, when it has been asked before.
    pub fn known(&self, elected: usize, branch: Branch) -> (r: Option<usize>)
        requires
            self.inv(),
            elected < self.records.histories@.len(),
        ensures
            r == self.hist_memo(branch)[elected as int],
            r matches Some(x) ==> x < self.records.expansions@.len() && self.expands(
                x as int,
                self.records.leaf(elected as int),
                branch,
            ),
    {
        let r = match branch {
            Branch::Low => self.hist_low[elected],
            Branch::High => self.hist_high[elected],
        };
        assert(r == self.hist_memo(branch)[elected as int]);
        r
    }

    /// What one action does to one history. Computed on the first demand and
    /// shared from then on, which is what keeps the inner loop of the search
    /// free of the work of rebuilding a decision sequence, hashing it and
    /// looking it up once per expansion rather than once per history.
    #[verifier::rlimit(60)]
    pub fn children(&mut self, elected: usize, branch: Branch) -> (r: Result<usize, StepError>)
        requires
            old(self).inv(),
            elected < old(self).records.histories@.len(),
            old(self).records.leaf(elected as int).stop != Stop::Final,
        ensures
            final(self).inv(),
            final(self).grown_from(old(self)),
            ({
                let h = old(self).records.leaf(elected as int);
                let ls = reply(old(self).tree, h.state, child_of(old(self).tree, h.state, branch));
                match r {
                    Ok(x) => {
                        &&& x < final(self).records.expansions@.len()
                        &&& final(self).expands(x as int, h, branch)
                        &&& final(self).hist_memo(branch)[elected as int] == Some(x)
                    },
                    Err(e) => e == StepError::TooManyOutcomes(old(self).engine.max_outcomes)
                        && ls.len() > 1 && ls.len() > old(self).engine.max_outcomes,
                }
            }),
            final(self).lore() == if r is Ok {
                child_lore(
                    old(self).tree,
                    old(self).lore(),
                    old(self).records.leaf(elected as int),
                    branch,
                )
            } else {
                old(self).lore()
            },
            old(self).hist_memo(branch)[elected as int] matches Some(x) ==> r == Ok::<
                usize,
                StepError,
            >(x) && *final(self) == *old(self),
    {
        if let Some(x) = self.known(elected, branch) {
            proof {
                assert(self.hist_true(elected as int));
                assert(self.took(self.records.leaf(elected as int).state, branch)) by {
                    let c = self.records.histories@[elected as int].cs as int;
                    reveal(Store::stepped_first);
                    assert(self.hist_memo(branch)[elected as int] is Some);
                    assert(self.cs_memo(branch)[c] is Some);
                    assert(self.records.choice_states@[c].state@ == self.records.leaf(
                        elected as int,
                    ).state);
                }
                let ks = kids(self.tree, self.records.leaf(elected as int), branch);
                assert forall|i: int| 0 <= i < ks.len() implies self.records.names().contains(
                    (#[trigger] ks[i]).decisions,
                ) by {
                    self.records.names_has(ks[i].decisions);
                }
                met_before(self.records.names(), ks);
            }
            return Ok(x);
        }
        let tree = self.tree;
        let ghost start = *self;
        let ghost h = self.records.leaf(elected as int);
        let ghost ks = kids(tree, h, branch);
        assert(self.hist_true(elected as int));
        proof {
            open_waits(tree, h);
            kids_facts(tree, h, branch);
        }
        let cs = self.history(elected).cs;
        let x = match self.extensions(cs, branch) {
            Ok(x) => x,
            Err(e) => {
                return Err(e);
            },
        };
        let ghost ls = reply(tree, h.state, child_of(tree, h.state, branch));
        let n = self.records.extensions.get(x).len();
        let ghost stepped = *self;
        assert(self.cs_memo(branch)[cs as int] is Some);
        proof {
            assert(self.records.outcomes(self.records.extensions@[x as int]@).len() == ls.len());
            self.leaf_kept(&start, elected as int);
        }
        let mut open_children: Vec<usize> = Vec::new();
        let mut closed_delta: Vec<N> = zeros(tree.k);
        let mut open_e_delta: Vec<N> = zeros(tree.k);
        let mut open_l_delta: Vec<N> = zeros(tree.k);
        proof {
            assert(ks.take(0) =~= Seq::empty());
            assert(self.records.paths(open_children@) =~= part(ks.take(0), true));
        }
        for i in 0..n
            invariant
                self.inv(),
                self.grown_from(&start),
                tree == self.tree,
                elected < self.records.histories@.len(),
                self.records.leaf(elected as int) == h,
                h.stop != Stop::Final,
                x < self.records.extensions@.len(),
                self.extends(x as int, h.state, branch),
                self.records.extensions@[x as int]@.len() == n,
                ks == kids(tree, h, branch),
                n == ks.len(),
                self.records.holds(open_children@),
                self.records.paths(open_children@) == part(ks.take(i as int), true),
                open_children@.len() <= i,
                closed_delta@.len() == tree.k,
                open_e_delta@.len() == tree.k,
                open_l_delta@.len() == tree.k,
                vals(closed_delta@) == heap(tree, part(ks.take(i as int), false), true),
                vals(open_e_delta@) == heap(tree, part(ks.take(i as int), true), true),
                vals(open_l_delta@) == heap(tree, part(ks.take(i as int), true), false),
                forall|j: int|
                    0 <= j < i ==> self.records.has((#[trigger] ks[j]).decisions),
                self.records.names() == met_all(start.records.names(), ks.take(i as int)),
                self.cs_low == stepped.cs_low,
                self.cs_high == stepped.cs_high,
                self.records.choice_states == stepped.records.choice_states,
                self.macro_steps == stepped.macro_steps,
                self.outcomes == stepped.outcomes,
                self.records.histories@[elected as int].cs == cs,
                cs < self.records.choice_states@.len(),
                self.cs_memo(branch)[cs as int] is Some,
        {
            let ghost before = *self;
            let at = self.lengthen(elected, x, i, Ghost(branch));
            let ghost k = ks[i as int];
            proof {
                assert(self.hist_true(at as int));
                assert(ks.take(i + 1).drop_last() =~= ks.take(i as int));
                assert(ks.take(i + 1).last() == k);
                self.paths_kept(&before, open_children@);
                assert forall|j: int| 0 <= j < i + 1 implies self.records.has(
                    (#[trigger] ks[j]).decisions,
                ) by {
                    if j < i {
                        self.has_kept(&before, ks[j].decisions);
                    } else {
                        assert(self.records.histories@[at as int].dh@ == k.decisions);
                    }
                }
            }
            if self.records.is_open(at) {
                let ghost before = open_children@;
                let ghost p = part(ks.take(i as int), true);
                open_e_delta = sum(&open_e_delta, self.history(at).e_hat.as_slice());
                open_l_delta = sum(&open_l_delta, self.history(at).l_hat.as_slice());
                open_children.push(at);
                proof {
                    assert(part(ks.take(i + 1), true) == p.push(k));
                    assert(p.push(k).drop_last() =~= p);
                    assert(self.records.paths(open_children@) =~= p.push(k)) by {
                        assert forall|j: int|
                            0 <= j < open_children@.len() implies #[trigger] self.records.paths(
                            open_children@,
                        )[j] == p.push(k)[j] by {
                            if j < before.len() {
                                assert(self.records.paths(before)[j] == p[j]);
                            }
                        }
                    }
                }
            } else {
                let ghost p = part(ks.take(i as int), false);
                closed_delta = sum(&closed_delta, self.history(at).e_hat.as_slice());
                proof {
                    assert(part(ks.take(i + 1), false) == p.push(k));
                    assert(p.push(k).drop_last() =~= p);
                }
            }
        }
        assert(ks.take(n as int) =~= ks);
        proof {
            part_len(ks);
            assert(self.records.paths(open_children@).len() == open_children@.len());
        }
        let closed_count = n - open_children.len();
        let ghost before = *self;
        let y = self.records.expansions.place(
            Expansion { open_children, closed_delta, open_e_delta, open_l_delta, closed_count },
        );
        match branch {
            Branch::Low => {
                self.hist_low.set(elected, Some(y));
            },
            Branch::High => {
                self.hist_high.set(elected, Some(y));
            },
        }
        proof {
            let e = self.records.expansions@[y as int];
            assert(self.records.paths(e.open_children@) =~= before.records.paths(
                e.open_children@,
            ));
            assert forall|j: int| 0 <= j < ks.len() implies self.records.has(
                (#[trigger] ks[j]).decisions,
            ) by {
                assert(before.records.has(ks[j].decisions));
                let q = choose|q: int|
                    0 <= q < before.records.histories@.len()
                        && #[trigger] before.records.histories@[q].dh@ == ks[j].decisions;
                assert(self.records.histories@[q].dh@ == ks[j].decisions);
            }
            assert(self.records.leaf(elected as int) == h);
            self.expansions_grown(&before, elected, branch, y);
            assert(self.records.names() =~= before.records.names());
            assert(self.records.states() =~= stepped.records.states());
            self.taken_same(&stepped);
        }
        Ok(y)
    }

    /// The history that one extension of the choice state of another leads to.
    fn lengthen(&mut self, elected: usize, x: usize, i: usize, Ghost(branch): Ghost<Branch>) -> (r:
        usize)
        requires
            old(self).inv(),
            elected < old(self).records.histories@.len(),
            old(self).records.leaf(elected as int).stop != Stop::Final,
            x < old(self).records.extensions@.len(),
            old(self).extends(x as int, old(self).records.leaf(elected as int).state, branch),
            i < old(self).records.extensions@[x as int]@.len(),
        ensures
            final(self).inv(),
            final(self).grown_from(old(self)),
            ({
                let h = old(self).records.leaf(elected as int);
                &&& r < final(self).records.histories@.len()
                &&& final(self).records.leaf(r as int) == kids(old(self).tree, h, branch)[i as int]
                &&& final(self).records.leaf(elected as int) == h
                &&& final(self).extends(x as int, h.state, branch)
                &&& final(self).records.extensions@[x as int] == old(self).records.extensions@[x as int]
                &&& final(self).records.names() == met(
                    old(self).records.names(),
                    kids(old(self).tree, h, branch)[i as int].decisions,
                )
            }),
            final(self).cs_low == old(self).cs_low,
            final(self).cs_high == old(self).cs_high,
            final(self).records.choice_states == old(self).records.choice_states,
            final(self).macro_steps == old(self).macro_steps,
            final(self).outcomes == old(self).outcomes,
    {
        let tree = self.tree;
        let ghost h = self.records.leaf(elected as int);
        let ghost k = kids(tree, h, branch)[i as int];
        let ghost es = self.records.extensions@[x as int]@;
        let ghost before = *self;
        proof {
            assert(self.hist_true(elected as int));
            open_waits(tree, h);
            kids_facts(tree, h, branch);
            let ls = reply(tree, h.state, child_of(tree, h.state, branch));
            assert(self.records.outcomes(es)[i as int] == ls[i as int]);
            assert(es[i as int].cs < self.records.choice_states@.len());
            assert(self.records.outcomes(es).len() == ls.len());
            assert(k == extended::<N>(h, ls[i as int]));
            assert(trail(tree, k.decisions) == Some(k));
        }
        let (dh, impact, prob, end) = self.lengthened(elected, x, i);
        assert(vals(impact@) =~= k.impact);
        let at = self.intern_history(dh, impact, prob, end);
        proof {
            self.leaf_kept(&before, elected as int);
            assert(self.records.outcomes(es) =~= before.records.outcomes(es));
        }
        at
    }

    /// What a history is about does not change when the tables grow.
    pub proof fn leaf_kept(&self, before: &Store<'t, N>, i: int)
        requires
            self.grown_from(before),
            before.inv(),
            0 <= i < before.records.histories@.len(),
        ensures
            i < self.records.histories@.len(),
            self.records.leaf(i) == before.records.leaf(i),
    {
        assert(before.hist_true(i));
        assert(self.records.histories@[i] == before.records.histories@[i]);
        let c = before.records.histories@[i].cs as int;
        assert(self.records.choice_states@[c] == before.records.choice_states@[c]);
    }

    /// The decisions, the impact, the probability and the end of a history
    /// lengthened by one extension.
    fn lengthened(&self, elected: usize, x: usize, i: usize) -> (r: (Vec<u32>, Vec<N>, N, usize))
        requires
            elected < self.records.histories@.len(),
            x < self.records.extensions@.len(),
            i < self.records.extensions@[x as int]@.len(),
            self.records.histories@[elected as int].impact@.len()
                == self.records.extensions@[x as int]@[i as int].impact@.len(),
        ensures
            ({
                let h = self.records.histories@[elected as int];
                let e = self.records.extensions@[x as int]@[i as int];
                &&& r.0@ == h.dh@ + e.decisions@
                &&& vals(r.1@) == sum_v::<N>(vals(h.impact@), vals(e.impact@))
                &&& r.2.value() == N::times_v(h.prob.value(), e.prob.value())
                &&& r.3 == e.cs
            }),
    {
        let h = self.history(elected);
        let e = &self.records.extensions.get(x)[i];
        let mut dh: Vec<u32> = Vec::new();
        for j in 0..h.dh.len()
            invariant
                dh@ =~= h.dh@.take(j as int),
        {
            dh.push(h.dh[j]);
        }
        for j in 0..e.decisions.len()
            invariant
                dh@ =~= h.dh@ + e.decisions@.take(j as int),
        {
            dh.push(e.decisions[j]);
        }
        assert(e.decisions@.take(e.decisions@.len() as int) =~= e.decisions@);
        (dh, sum(&h.impact, e.impact.as_slice()), h.prob.times(&e.prob), e.cs)
    }

    /// What a list of histories is about does not change when the tables grow.
    pub proof fn paths_kept(&self, before: &Store<'t, N>, at: Seq<usize>)
        requires
            self.grown_from(before),
            before.inv(),
            before.records.holds(at),
        ensures
            self.records.holds(at),
            self.records.paths(at) == before.records.paths(at),
    {
        assert forall|i: int| 0 <= i < at.len() implies #[trigger] at[i]
            < self.records.histories@.len() && self.records.paths(at)[i] == before.records.paths(
            at,
        )[i] by {
            let q = at[i] as int;
            assert(before.hist_true(q));
            assert(self.records.histories@[q] == before.records.histories@[q]);
            let c = before.records.histories@[q].cs as int;
            assert(self.records.choice_states@[c] == before.records.choice_states@[c]);
        }
        assert(self.records.paths(at) =~= before.records.paths(at));
    }

    pub proof fn has_kept(&self, before: &Store<'t, N>, d: Seq<u32>)
        requires
            self.grown_from(before),
            before.records.has(d),
        ensures
            self.records.has(d),
    {
        let q = choose|q: int|
            0 <= q < before.records.histories@.len()
                && #[trigger] before.records.histories@[q].dh@ == d;
        assert(self.records.histories@[q] == before.records.histories@[q]);
    }

    proof fn expansions_grown(
        &self,
        before: &Store<'t, N>,
        elected: usize,
        branch: Branch,
        y: usize,
    )
        requires
            before.inv(),
            self.tree == before.tree,
            self.engine == before.engine,
            self.records.choice_states == before.records.choice_states,
            self.records.histories == before.records.histories,
            self.records.extensions == before.records.extensions,
            self.cs_index == before.cs_index,
            self.hist_index == before.hist_index,
            self.cs_low == before.cs_low,
            self.cs_high == before.cs_high,
            y == before.records.expansions@.len(),
            self.records.expansions@ == before.records.expansions@.push(
                self.records.expansions@[y as int],
            ),
            elected < before.records.histories@.len(),
            forall|b: Branch|
                self.hist_memo(b) == if b == branch {
                    before.hist_memo(b).update(elected as int, Some(y))
                } else {
                    before.hist_memo(b)
                },
            self.expands(y as int, self.records.leaf(elected as int), branch),
            self.cs_memo(branch)[self.records.histories@[elected as int].cs as int] is Some,
        ensures
            self.inv(),
            self.grown_from(before),
    {
        self.stepped_kept(before);
        let hs = self.records.histories@;
        let cs = self.records.choice_states@;
        assert(self.hist_memo(Branch::Low) == self.hist_low@);
        assert(self.hist_memo(Branch::High) == self.hist_high@);
        assert(self.records.expansions@.len() == y + 1);
        assert(self.grown_from(before));
        assert forall|i: int| 0 <= i < cs.len() implies #[trigger] self.cs_true(i) by {
            assert(before.cs_true(i));
        }
        assert forall|i: int, b: Branch|
            0 <= i < cs.len() implies (#[trigger] self.cs_memo(b)[i] matches Some(q) ==> q
            < self.records.extensions@.len() && self.extends(q as int, cs[i].state@, b)) by {
            assert(before.cs_memo(b)[i] == self.cs_memo(b)[i]);
            if let Some(q) = self.cs_memo(b)[i] {
                let es = self.records.extensions@[q as int]@;
                assert(before.extends(q as int, cs[i].state@, b));
                assert(self.records.outcomes(es) =~= before.records.outcomes(es));
            }
        }
        assert forall|i: int| 0 <= i < hs.len() implies #[trigger] self.hist_true(i)
            && self.records.leaf(i) == before.records.leaf(i) by {
            assert(before.hist_true(i));
        }
        assert forall|i: int, b: Branch|
            0 <= i < hs.len() implies (#[trigger] self.hist_memo(b)[i] matches Some(q) ==> q
            < self.records.expansions@.len() && self.expands(
            q as int,
            self.records.leaf(i),
            b,
        )) by {
            if i == elected && b == branch {
            } else {
                assert(before.hist_memo(b)[i] == self.hist_memo(b)[i]);
                assert(self.hist_true(i));
                if let Some(q) = self.hist_memo(b)[i] {
                    self.expands_kept(before, q as int, self.records.leaf(i), b);
                }
            }
        }
    }

    /// The histories reachable from the initial state without deciding
    /// anything: the label of the root of the computation tree.
    pub fn initial_histories(&mut self) -> (r: Result<Vec<usize>, StepError>)
        requires
            old(self).inv(),
        ensures
            final(self).inv(),
            final(self).grown_from(old(self)),
            ({
                let ls = opening(old(self).tree);
                match r {
                    Ok(v) => {
                        &&& final(self).records.holds(v@)
                        &&& final(self).records.paths(v@) == ls
                        &&& final(self).lore() == first_lore(old(self).tree, old(self).lore())
                        &&& holdable(ls, old(self).engine.max_outcomes)
                        &&& final(self).macro_steps == old(self).macro_steps.wrapping_add(1)
                        &&& final(self).outcomes == old(self).outcomes.wrapping_add(
                            ls.len() as usize,
                        )
                    },
                    Err(e) => {
                        &&& e == StepError::TooManyOutcomes(old(self).engine.max_outcomes)
                        &&& ls.len() > 1
                        &&& ls.len() > old(self).engine.max_outcomes
                        &&& *final(self) == *old(self)
                    },
                }
            }),
    {
        let tree = self.tree;
        let ghost ls = opening(tree);
        let outcomes = match self.engine.initial_outcomes() {
            Ok(v) => v,
            Err(e) => {
                return Err(e);
            },
        };
        let made = outcomes.len();
        proof {
            opening_facts(tree);
            assert forall|i: int| 0 <= i < ls.len() implies outcome_of(
                tree,
                Seq::empty(),
                #[trigger] ls[i],
            ) by {
                assert(path(tree, ls[i]));
                assert(ls[i].decisions.take(0) =~= Seq::empty());
            }
        }
        let ghost start = *self;
        let mut built = reversed(self.build(outcomes, Ghost(ls)));
        let ghost exts = built@.reverse();
        let ghost mid = *self;
        let mut v: Vec<usize> = Vec::new();
        assert(ls.take(0) =~= Seq::empty());
        while built.len() > 0
            invariant
                self.inv(),
                self.grown_from(&mid),
                self.tree == tree,
                tree.wf(),
                ls == opening(tree),
                self.macro_steps == mid.macro_steps,
                self.outcomes == mid.outcomes,
                self.cs_low == mid.cs_low,
                self.cs_high == mid.cs_high,
                self.records.choice_states == mid.records.choice_states,
                mid.records.outcomes(exts) == ls,
                forall|i: int|
                    0 <= i < exts.len() ==> (#[trigger] exts[i]).cs
                        < mid.records.choice_states@.len(),
                built@.len() + v@.len() == ls.len(),
                exts.len() == ls.len(),
                forall|j: int|
                    0 <= j < built@.len() ==> #[trigger] built@[j] == exts[exts.len() - 1 - j],
                self.records.holds(v@),
                forall|j: int|
                    0 <= j < v@.len() ==> self.records.leaf(#[trigger] v@[j] as int) == ls[j],
                self.records.names() == met_all(mid.records.names(), ls.take(v@.len() as int)),
            decreases built@.len(),
        {
            let ghost i = v@.len() as int;
            let e = built.pop().unwrap();
            let ghost before = *self;
            proof {
                assert(e == exts[i]);
                assert(mid.records.outcomes(exts)[i] == ls[i]);
                assert(self.records.choice_states@[e.cs as int]
                    == mid.records.choice_states@[e.cs as int]);
                trail_opening(tree, i);
            }
            let at = self.intern_history(e.decisions, e.impact, e.prob, e.cs);
            proof {
                assert(ls.take(i + 1).drop_last() =~= ls.take(i));
                assert(ls.take(i + 1).last() == ls[i]);
                self.paths_kept(&before, v@);
                assert forall|j: int| 0 <= j < v@.len() implies self.records.leaf(
                    #[trigger] v@[j] as int,
                ) == ls[j] by {
                    assert(self.records.paths(v@)[j] == before.records.paths(v@)[j]);
                }
            }
            v.push(at);
        }
        assert(self.records.paths(v@) =~= ls);
        assert(ls.take(ls.len() as int) =~= ls);
        let ghost before = *self;
        self.macro_steps = self.macro_steps.wrapping_add(1);
        self.outcomes = self.outcomes.wrapping_add(made);
        proof {
            self.counted(&before);
            assert(self.records.paths(v@) =~= before.records.paths(v@));
            self.taken_same(&mid);
            assert(self.records.states() =~= mid.records.states());
            assert(mid.records.names() =~= start.records.names());
        }
        Ok(v)
    }

    /// The counters are no part of what the tables say.
    proof fn counted(&self, before: &Store<'t, N>)
        requires
            before.inv(),
            self.tree == before.tree,
            self.engine == before.engine,
            self.records == before.records,
            self.cs_index == before.cs_index,
            self.hist_index == before.hist_index,
            self.cs_low == before.cs_low,
            self.cs_high == before.cs_high,
            self.hist_low == before.hist_low,
            self.hist_high == before.hist_high,
        ensures
            self.inv(),
    {
        self.stepped_kept(before);
        let hs = self.records.histories@;
        let cs = self.records.choice_states@;
        assert forall|i: int| 0 <= i < cs.len() implies #[trigger] self.cs_true(i) by {
            assert(before.cs_true(i));
        }
        assert forall|i: int, b: Branch|
            0 <= i < cs.len() implies (#[trigger] self.cs_memo(b)[i] matches Some(q) ==> q
            < self.records.extensions@.len() && self.extends(q as int, cs[i].state@, b)) by {
            assert(before.cs_memo(b)[i] == self.cs_memo(b)[i]);
            if let Some(q) = self.cs_memo(b)[i] {
                assert(before.extends(q as int, cs[i].state@, b));
            }
        }
        assert forall|i: int| 0 <= i < hs.len() implies #[trigger] self.hist_true(i) by {
            assert(before.hist_true(i));
        }
        assert forall|i: int, b: Branch|
            0 <= i < hs.len() implies (#[trigger] self.hist_memo(b)[i] matches Some(q) ==> q
            < self.records.expansions@.len() && self.expands(
            q as int,
            self.records.leaf(i),
            b,
        )) by {
            assert(before.hist_memo(b)[i] == self.hist_memo(b)[i]);
            if let Some(q) = self.hist_memo(b)[i] {
                assert(before.expands(q as int, self.records.leaf(i), b));
            }
        }
    }
}

/// `p (a + b)`, entry by entry.
fn hat<N: Number>(p: &N, a: &Vec<N>, b: &Vec<N>) -> (r: Vec<N>)
    requires
        a@.len() == b@.len(),
    ensures
        r@.len() == a@.len(),
        forall|c: int|
            0 <= c < r@.len() ==> (#[trigger] r@[c]).value() == N::times_v(
                p.value(),
                N::plus_v(a@[c].value(), b@[c].value()),
            ),
{
    let mut r: Vec<N> = Vec::new();
    for c in 0..a.len()
        invariant
            a@.len() == b@.len(),
            r@.len() == c,
            forall|j: int|
                0 <= j < c ==> (#[trigger] r@[j]).value() == N::times_v(
                    p.value(),
                    N::plus_v(a@[j].value(), b@[j].value()),
                ),
    {
        r.push(p.times(&a[c].plus(&b[c])));
    }
    r
}

} // verus!
