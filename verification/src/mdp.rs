//! The full single-step MDP of an instance: every state the transition
//! relation reaches from the initial state, and every move as its own
//! transition, nothing compressed. The search never builds this object,
//! its macro step jumping from one choice state to the next; this module
//! exists for inspection, for drawing, and for checking the semantics
//! against an independent computation, and it is priced accordingly: the
//! state space is exponential in the instance, so `explore` carries a cap
//! and stops with an error rather than exhausting memory.

use vstd::prelude::*;
use vstd::string::*;
use crate::effort::{total, total_first, total_push};
use crate::hash::{hash_of_state, same_state, state_hash, Index};
use crate::list::reversed;
use crate::num::{vals, zeros, zeros_v, Number};
use crate::progress::{branch_works, initial_valid, moved_works, net_children, net_durations};
use crate::semantics::{
    advance, best_is_least, busy, forwarded, lowered, moved, raised, rank, started, valid,
};
use crate::state::{paid, Engine, State};
use crate::text::{decimal, decimal_of, join, joined, signed, signed_of, texts};
use crate::tree::{Kind, Tree};

verus! {

/// One transition of the MDP, from state index to state index.
pub struct Edge<N> {
    pub from: usize,
    pub to: usize,
    pub label: Label<N>,
}

pub enum Label<N> {
    /// Rank 1: the decision starting the child carried, an action.
    Action { child: u32 },
    /// Rank 4: the draw starting the child carried, with its probability.
    Draw { child: u32, prob: N },
    /// Rank 2: `tau`, the descent at the witness.
    Down { at: u32 },
    /// Rank 3: `tau`, the hand-over or the closing at the witness.
    Up { at: u32 },
    /// Rank 5: the fast forward, the only move that pays: the time it
    /// advances and the cost of the tasks that complete.
    FastForward { t: i32, cost: Vec<N> },
}

pub struct Mdp<N> {
    pub states: Vec<State>,
    /// The rank and the witness of each state, `None` at the final state.
    pub ranks: Vec<Option<(u8, u32)>>,
    pub edges: Vec<Edge<N>>,
}

// ---------------------------------------------------------------------------
// the moves of a state
// ---------------------------------------------------------------------------

/// What a move is labelled with.
pub enum Step<V> {
    Action { child: u32 },
    Draw { child: u32, prob: V },
    Down { at: u32 },
    Up { at: u32 },
    FastForward { t: i32, cost: Seq<V> },
}

impl<N: Number> Label<N> {
    pub open spec fn step(self) -> Step<N::Value> {
        match self {
            Label::Action { child } => Step::Action { child },
            Label::Draw { child, prob } => Step::Draw { child, prob: prob.value() },
            Label::Down { at } => Step::Down { at },
            Label::Up { at } => Step::Up { at },
            Label::FastForward { t, cost } => Step::FastForward { t, cost: vals(cost@) },
        }
    }
}

/// The moves out of a state, each with the state it leads to, the low branch of
/// a choice and of a draw before the high one.
pub open spec fn moves_of<N: Number>(t: &Tree<N>, s: Seq<i8>) -> Seq<(Seq<i8>, Step<N::Value>)> {
    let g = t.net().nodes;
    match rank(g, s) {
        None => Seq::empty(),
        Some((r, w)) => {
            let (l, h) = (g[w].low, g[w].high);
            if r == 1 {
                seq![
                    (started(s, l), Step::Action { child: l as u32 }),
                    (started(s, h), Step::Action { child: h as u32 }),
                ]
            } else if r == 4 {
                let p = t.prob_v(w);
                seq![
                    (started(s, l), Step::Draw { child: l as u32, prob: p }),
                    (
                        started(s, h),
                        Step::Draw { child: h as u32, prob: N::minus_v(N::one_v(), p) },
                    ),
                ]
            } else if r == 2 {
                seq![(lowered(g, s, w), Step::Down { at: w as u32 })]
            } else if r == 3 {
                seq![(raised(g, s, w), Step::Up { at: w as u32 })]
            } else {
                seq![
                    (
                        forwarded(g, s),
                        Step::FastForward {
                            t: advance(g, s) as i32,
                            cost: paid(t, s, t.net().size(), zeros_v::<N>(t.k as nat)),
                        },
                    ),
                ]
            }
        },
    }
}

/// A transition, from index to index.
pub struct Arrow<V> {
    pub from: int,
    pub to: int,
    pub step: Step<V>,
}

impl<N: Number> Edge<N> {
    pub open spec fn arrow(self) -> Arrow<N::Value> {
        Arrow { from: self.from as int, to: self.to as int, step: self.label.step() }
    }
}

pub open spec fn arrows<N: Number>(s: Seq<Edge<N>>) -> Seq<Arrow<N::Value>> {
    Seq::new(s.len(), |i: int| s[i].arrow())
}

/// The transitions out of the state of index `i`, the first `n` of them.
pub open spec fn arrows_of<N: Number>(t: &Tree<N>, states: Seq<Seq<i8>>, i: int, n: int) -> Seq<
    Arrow<N::Value>,
> {
    Seq::new(
        n as nat,
        |q: int|
            {
                let m = moves_of(t, states[i])[q];
                Arrow { from: i, to: states.index_of(m.0), step: m.1 }
            },
    )
}

/// The transitions out of the first `n` states, state by state.
pub open spec fn arrows_upto<N: Number>(t: &Tree<N>, states: Seq<Seq<i8>>, n: int) -> Seq<
    Arrow<N::Value>,
>
    decreases n,
{
    if n <= 0 {
        Seq::empty()
    } else {
        arrows_upto(t, states, n - 1) + arrows_of(
            t,
            states,
            n - 1,
            moves_of(t, states[n - 1]).len() as int,
        )
    }
}

/// A list of states with one more, unless it is there.
pub open spec fn noted(states: Seq<Seq<i8>>, x: Seq<i8>) -> Seq<Seq<i8>> {
    if states.contains(x) {
        states
    } else {
        states.push(x)
    }
}

/// A list of states with where the first `n` moves of a state lead.
pub open spec fn noted_from<N: Number>(t: &Tree<N>, states: Seq<Seq<i8>>, s: Seq<i8>, n: int) -> Seq<
    Seq<i8>,
>
    decreases n,
{
    if n <= 0 {
        states
    } else {
        noted(noted_from(t, states, s, n - 1), moves_of(t, s)[n - 1].0)
    }
}

/// The states met once the first `n` of these have been looked at, in the order
/// they are met.
pub open spec fn met_by<N: Number>(t: &Tree<N>, states: Seq<Seq<i8>>, n: int) -> Seq<Seq<i8>>
    decreases n,
{
    if n <= 0 {
        seq![t.net().initial()]
    } else {
        noted_from(
            t,
            met_by(t, states, n - 1),
            states[n - 1],
            moves_of(t, states[n - 1]).len() as int,
        )
    }
}

/// The states in the order a breadth-first walk from the initial state meets
/// them, all of them.
pub open spec fn breadth_first<N: Number>(t: &Tree<N>, states: Seq<Seq<i8>>) -> bool {
    &&& states == met_by(t, states, states.len() as int)
    &&& forall|n: int| 0 <= n < states.len() ==> n < #[trigger] met_by(t, states, n).len()
}

/// The states of a list.
pub open spec fn state_views(s: Seq<State>) -> Seq<Seq<i8>> {
    Seq::new(s.len(), |i: int| s[i]@)
}

/// A rank and a witness, as the machine holds them.
pub open spec fn rank_of<N: Number>(t: &Tree<N>, s: Seq<i8>) -> Option<(u8, u32)> {
    match rank(t.net().nodes, s) {
        None => None,
        Some((r, w)) => Some((r as u8, w as u32)),
    }
}

/// A run of the process from the initial state.
pub open spec fn runs<N: Number>(t: &Tree<N>, p: Seq<Seq<i8>>) -> bool {
    &&& p.len() > 0
    &&& p[0] == t.net().initial()
    &&& forall|i: int| 0 <= i < p.len() - 1 ==> #[trigger] follows(t, p[i], p[i + 1])
}

/// Some move leads from one state to another.
pub open spec fn follows<N: Number>(t: &Tree<N>, s: Seq<i8>, x: Seq<i8>) -> bool {
    exists|q: int| 0 <= q < moves_of(t, s).len() && #[trigger] moves_of(t, s)[q].0 == x
}

/// Some run of the process ends in this state.
pub open spec fn reachable<N: Number>(t: &Tree<N>, x: Seq<i8>) -> bool {
    exists|p: Seq<Seq<i8>>| runs(t, p) && p.last() == x
}

pub proof fn reachable_on<N: Number>(t: &Tree<N>, s: Seq<i8>, q: int)
    requires
        reachable(t, s),
        0 <= q < moves_of(t, s).len(),
    ensures
        reachable(t, moves_of(t, s)[q].0),
{
    let p = choose|p: Seq<Seq<i8>>| runs(t, p) && p.last() == s;
    let x = moves_of(t, s)[q].0;
    let r = p.push(x);
    assert(runs(t, r)) by {
        assert forall|i: int| 0 <= i < r.len() - 1 implies #[trigger] follows(t, r[i], r[i + 1]) by {
            if i < p.len() - 1 {
                assert(follows(t, p[i], p[i + 1]));
            } else {
                assert(r[i] == s);
                assert(follows(t, s, x));
            }
        }
    }
    assert(r.last() == x);
}

pub proof fn initial_reachable<N: Number>(t: &Tree<N>)
    ensures
        reachable(t, t.net().initial()),
{
    let p = seq![t.net().initial()];
    assert(runs(t, p));
    assert(p.last() == t.net().initial());
}

// ---------------------------------------------------------------------------
// what a breadth-first list holds
// ---------------------------------------------------------------------------

/// `a` is the beginning of `b`.
pub open spec fn starts(a: Seq<Seq<i8>>, b: Seq<Seq<i8>>) -> bool {
    a.len() <= b.len() && b.take(a.len() as int) == a
}

proof fn starts_trans(a: Seq<Seq<i8>>, b: Seq<Seq<i8>>, c: Seq<Seq<i8>>)
    requires
        starts(a, b),
        starts(b, c),
    ensures
        starts(a, c),
{
    assert(c.take(a.len() as int) =~= a) by {
        assert forall|i: int| 0 <= i < a.len() implies c[i] == a[i] by {
            assert(c.take(b.len() as int)[i] == b[i]);
            assert(b.take(a.len() as int)[i] == a[i]);
        }
    }
}

proof fn starts_contains(a: Seq<Seq<i8>>, b: Seq<Seq<i8>>, x: Seq<i8>)
    requires
        starts(a, b),
        a.contains(x),
    ensures
        b.contains(x),
        b.no_duplicates() ==> a.index_of(x) == b.index_of(x),
{
    let i = a.index_of(x);
    assert(b.take(a.len() as int)[i] == b[i]);
    let j = b.index_of(x);
    if b.no_duplicates() && i != j {
        assert(b[i] != b[j]);
    }
}

proof fn noted_facts(states: Seq<Seq<i8>>, x: Seq<i8>)
    requires
        states.no_duplicates(),
    ensures
        noted(states, x).no_duplicates(),
        noted(states, x).contains(x),
        starts(states, noted(states, x)),
{
    let r = noted(states, x);
    assert(r.take(states.len() as int) =~= states);
    if !states.contains(x) {
        assert(r[states.len() as int] == x);
        assert forall|i: int, j: int| 0 <= i < r.len() && 0 <= j < r.len() && i != j implies r[i]
            != r[j] by {
            if i == states.len() {
                assert(states.contains(states[j]));
            } else if j == states.len() {
                assert(states.contains(states[i]));
            }
        }
    }
}

proof fn noted_from_facts<N: Number>(t: &Tree<N>, states: Seq<Seq<i8>>, s: Seq<i8>, n: int)
    requires
        states.no_duplicates(),
        n <= moves_of(t, s).len(),
    ensures
        noted_from(t, states, s, n).no_duplicates(),
        starts(states, noted_from(t, states, s, n)),
        forall|q: int|
            0 <= q < n ==> noted_from(t, states, s, n).contains(#[trigger] moves_of(t, s)[q].0),
        forall|x: Seq<i8>|
            #[trigger] noted_from(t, states, s, n).contains(x) ==> states.contains(x) || follows(
                t,
                s,
                x,
            ),
    decreases n,
{
    let r = noted_from(t, states, s, n);
    if n <= 0 {
        assert(r.take(states.len() as int) =~= states);
    } else {
        let a = noted_from(t, states, s, n - 1);
        noted_from_facts(t, states, s, n - 1);
        let x = moves_of(t, s)[n - 1].0;
        noted_facts(a, x);
        starts_trans(states, a, r);
        assert forall|q: int| 0 <= q < n implies r.contains(#[trigger] moves_of(t, s)[q].0) by {
            if q < n - 1 {
                starts_contains(a, r, moves_of(t, s)[q].0);
            }
        }
        assert forall|y: Seq<i8>| #[trigger] r.contains(y) implies states.contains(y) || follows(
            t,
            s,
            y,
        ) by {
            let i = r.index_of(y);
            if i < a.len() {
                assert(a[i] == y) by {
                    assert(r.take(a.len() as int)[i] == r[i]);
                }
                assert(a.contains(y));
            } else {
                assert(y == x);
                assert(follows(t, s, x));
            }
        }
    }
}

proof fn met_by_grows<N: Number>(t: &Tree<N>, states: Seq<Seq<i8>>, n: int, m: int)
    requires
        0 <= n <= m,
    ensures
        starts(met_by(t, states, n), met_by(t, states, m)),
        met_by(t, states, m).no_duplicates(),
    decreases m,
{
    let a = met_by(t, states, n);
    if m == 0 {
        assert(a.take(a.len() as int) =~= a);
    } else {
        let b = met_by(t, states, m - 1);
        met_by_grows(t, states, m - 1, m - 1);
        noted_from_facts(t, b, states[m - 1], moves_of(t, states[m - 1]).len() as int);
        if n < m {
            met_by_grows(t, states, n, m - 1);
            starts_trans(a, b, met_by(t, states, m));
        } else {
            assert(a.take(a.len() as int) =~= a);
        }
    }
}

proof fn met_by_reachable<N: Number>(t: &Tree<N>, states: Seq<Seq<i8>>, n: int)
    requires
        breadth_first(t, states),
        0 <= n <= states.len(),
    ensures
        forall|x: Seq<i8>| #[trigger] met_by(t, states, n).contains(x) ==> reachable(t, x),
    decreases n,
{
    if n == 0 {
        initial_reachable(t);
    } else {
        let a = met_by(t, states, n - 1);
        let s = states[n - 1];
        met_by_reachable(t, states, n - 1);
        met_by_grows(t, states, n - 1, states.len() as int);
        met_by_grows(t, states, n - 1, n - 1);
        assert(states.take(a.len() as int)[n - 1] == s);
        assert(a.contains(a[n - 1]));
        assert(reachable(t, s));
        noted_from_facts(t, a, s, moves_of(t, s).len() as int);
        assert forall|x: Seq<i8>| #[trigger] met_by(t, states, n).contains(x) implies reachable(
            t,
            x,
        ) by {
            if !a.contains(x) {
                let q = choose|q: int|
                    0 <= q < moves_of(t, s).len() && #[trigger] moves_of(t, s)[q].0 == x;
                reachable_on(t, s, q);
            }
        }
    }
}

/// Every move out of a state of a breadth-first list leads to a state of it.
proof fn breadth_first_closed<N: Number>(t: &Tree<N>, states: Seq<Seq<i8>>, i: int, q: int)
    requires
        breadth_first(t, states),
        0 <= i < states.len(),
        0 <= q < moves_of(t, states[i]).len(),
    ensures
        states.contains(moves_of(t, states[i])[q].0),
{
    let a = met_by(t, states, i);
    let b = met_by(t, states, i + 1);
    met_by_grows(t, states, i, i);
    noted_from_facts(t, a, states[i], moves_of(t, states[i]).len() as int);
    met_by_grows(t, states, i + 1, states.len() as int);
    starts_contains(b, states, moves_of(t, states[i])[q].0);
}

proof fn run_met<N: Number>(t: &Tree<N>, states: Seq<Seq<i8>>, p: Seq<Seq<i8>>, i: int)
    requires
        breadth_first(t, states),
        runs(t, p),
        0 <= i < p.len(),
    ensures
        states.contains(p[i]),
    decreases i,
{
    if i == 0 {
        met_by_grows(t, states, 0, states.len() as int);
        let a = met_by(t, states, 0);
        assert(a[0] == t.net().initial());
        assert(a.contains(a[0]));
        starts_contains(a, states, t.net().initial());
    } else {
        run_met(t, states, p, i - 1);
        let j = states.index_of(p[i - 1]);
        assert(follows(t, p[i - 1], p[i - 1 + 1]));
        let q = choose|q: int|
            0 <= q < moves_of(t, p[i - 1]).len() && #[trigger] moves_of(t, p[i - 1])[q].0 == p[i];
        breadth_first_closed(t, states, j, q);
    }
}

/// A breadth-first list holds every state that can be reached, each once.
pub proof fn breadth_first_complete<N: Number>(t: &Tree<N>, states: Seq<Seq<i8>>)
    requires
        breadth_first(t, states),
    ensures
        states.no_duplicates(),
        forall|x: Seq<i8>| states.contains(x) <==> #[trigger] reachable(t, x),
{
    met_by_grows(t, states, 0, states.len() as int);
    met_by_reachable(t, states, states.len() as int);
    assert forall|x: Seq<i8>| states.contains(x) <==> #[trigger] reachable(t, x) by {
        if reachable(t, x) {
            let p = choose|p: Seq<Seq<i8>>| runs(t, p) && p.last() == x;
            run_met(t, states, p, p.len() - 1);
        }
    }
}

// ---------------------------------------------------------------------------
// the walk
// ---------------------------------------------------------------------------

/// The states below one, met again as often as they are.
spec fn size<N: Number>(t: &Tree<N>, s: Seq<i8>) -> nat
    decreases t.net().work(s),
{
    let g = t.net().nodes;
    if !t.net().wf() || !valid(g, s) || rank(g, s) is None {
        1
    } else {
        let (r, w) = rank(g, s).unwrap();
        proof {
            best_is_least(g, s, t.net().size());
            if r == 1 || r == 4 {
                branch_works(t.net(), s);
            } else {
                moved_works(t.net(), s);
            }
        }
        if r == 1 || r == 4 {
            1 + size(t, started(s, g[w].low)) + size(t, started(s, g[w].high))
        } else {
            1 + size(t, moved(g, s, r, w))
        }
    }
}

spec fn size_each<N: Number>(t: &Tree<N>) -> spec_fn(Seq<i8>) -> nat {
    |s: Seq<i8>| size(t, s)
}

/// What lies below the first `n` moves of a state.
spec fn size_upto<N: Number>(t: &Tree<N>, s: Seq<i8>, n: int) -> nat
    decreases n,
{
    if n <= 0 {
        0
    } else {
        size_upto(t, s, n - 1) + size(t, moves_of(t, s)[n - 1].0)
    }
}

proof fn size_moves<N: Number>(t: &Tree<N>, s: Seq<i8>)
    requires
        t.net().wf(),
        valid(t.net().nodes, s),
    ensures
        size(t, s) == 1 + size_upto(t, s, moves_of(t, s).len() as int),
        forall|q: int|
            0 <= q < moves_of(t, s).len() ==> valid(
                t.net().nodes,
                #[trigger] moves_of(t, s)[q].0,
            ),
{
    let g = t.net().nodes;
    reveal_with_fuel(size_upto, 3);
    if rank(g, s) is Some {
        let (r, w) = rank(g, s).unwrap();
        best_is_least(g, s, t.net().size());
        if r == 1 || r == 4 {
            branch_works(t.net(), s);
        } else {
            moved_works(t.net(), s);
        }
    }
}

/// States met so far, found by their hash.
struct Seen {
    states: Vec<State>,
    index: Index,
}

impl Seen {
    spec fn all(&self) -> Seq<Seq<i8>> {
        state_views(self.states@)
    }

    spec fn inv(&self) -> bool {
        &&& self.index.width() > 0
        &&& self.all().no_duplicates()
        &&& forall|i: int|
            0 <= i < self.states@.len() ==> self.index.at(
                state_hash((#[trigger] self.states@[i])@, self.states@[i]@.len() as int),
            ).contains(i as usize)
        &&& forall|h: u64, j: int|
            0 <= j < self.index.at(h).len() ==> #[trigger] self.index.at(h)[j] < self.states@.len()
    }

    fn new() -> (r: Seen)
        ensures
            r.inv(),
            r.all() == Seq::<Seq<i8>>::empty(),
    {
        let r = Seen { states: Vec::new(), index: Index::new(1) };
        assert(r.all() =~= Seq::empty());
        r
    }

    fn find(&self, s: &State, h: u64) -> (r: Option<usize>)
        requires
            self.inv(),
            h == state_hash(s@, s@.len() as int),
        ensures
            match r {
                Some(i) => i < self.states@.len() && self.all()[i as int] == s@ && self.all().index_of(
                    s@,
                ) == i,
                None => !self.all().contains(s@),
            },
    {
        let n = self.index.count(h);
        assert(self.states.len() == self.states@.len());
        let ghost bucket = self.index.at(h);
        for j in 0..n
            invariant
                self.inv(),
                bucket == self.index.at(h),
                n == bucket.len(),
                forall|q: int|
                    0 <= q < j ==> self.states@[#[trigger] bucket[q] as int]@ != s@,
        {
            let at = self.index.nth(h, j);
            assert(self.index.at(h)[j as int] < self.states@.len());
            if same_state(self.states[at].as_slice(), s.as_slice()) {
                proof {
                    let all = self.all();
                    assert(all[at as int] == s@);
                    assert(all.contains(s@));
                    let k = all.index_of(s@);
                    assert(all[k] == s@);
                }
                return Some(at);
            }
        }
        proof {
            if self.all().contains(s@) {
                let i = self.all().index_of(s@);
                assert(self.states@[i]@ == s@);
                assert(bucket.contains(i as usize));
                let q = bucket.index_of(i as usize);
                assert(bucket[q] == i as usize);
            }
        }
        None
    }

    fn add(&mut self, s: State, h: u64) -> (r: usize)
        requires
            old(self).inv(),
            h == state_hash(s@, s@.len() as int),
            !old(self).all().contains(s@),
        ensures
            final(self).inv(),
            final(self).all() == old(self).all().push(s@),
            r == old(self).states@.len(),
    {
        let at = self.states.len();
        let ghost before = *self;
        let ghost x = s@;
        self.states.push(s);
        self.index.add(h, at);
        proof {
            let (a, b) = (before.all(), self.all());
            assert(b =~= a.push(x));
            noted_facts(a, x);
            assert forall|i: int| 0 <= i < self.states@.len() implies self.index.at(
                state_hash((#[trigger] self.states@[i])@, self.states@[i]@.len() as int),
            ).contains(i as usize) by {
                let q = state_hash(self.states@[i]@, self.states@[i]@.len() as int);
                if i < at {
                    assert(self.states@[i] == before.states@[i]);
                    let bucket = before.index.at(q);
                    assert(bucket.contains(i as usize));
                    let j = bucket.index_of(i as usize);
                    assert(self.index.at(q)[j] == i as usize);
                } else {
                    assert(self.index.at(q)[before.index.at(q).len() as int] == i as usize);
                }
            }
            assert forall|q: u64, j: int|
                0 <= j < self.index.at(q).len() implies #[trigger] self.index.at(q)[j]
                < self.states@.len() by {
                if q == h && j == before.index.at(q).len() {
                } else {
                    assert(self.index.at(q)[j] == before.index.at(q)[j]);
                }
            }
        }
        at
    }
}

/// The number of states is past the cap: there are this many that can be
/// reached, all different, and one more than the cap allows.
pub open spec fn too_many<N: Number>(t: &Tree<N>, max_states: usize) -> bool {
    exists|seen: Seq<Seq<i8>>|
        {
            &&& seen.no_duplicates()
            &&& seen.len() > max_states
            &&& seen.len() > 1
            &&& forall|i: int| 0 <= i < seen.len() ==> reachable(t, #[trigger] seen[i])
        }
}

pub open spec fn cap_text(max_states: usize) -> Seq<char> {
    "more than "@ + decimal(max_states as nat) + " states; raise --max-states"@
}

/// Notes the state a move leads to, and hands back its index.
fn note(seen: &mut Seen, s: State, max_states: usize) -> (r: Option<usize>)
    requires
        old(seen).inv(),
    ensures
        final(seen).inv(),
        match r {
            Some(j) => {
                &&& final(seen).all() == noted(old(seen).all(), s@)
                &&& final(seen).all().index_of(s@) == j
                &&& final(seen).states@.len() == old(seen).states@.len() || old(seen).states@.len()
                    < max_states
            },
            None => {
                &&& !old(seen).all().contains(s@)
                &&& old(seen).states@.len() >= max_states
                &&& *final(seen) == *old(seen)
            },
        },
{
    let h = hash_of_state(s.as_slice());
    if let Some(j) = seen.find(&s, h) {
        assert(seen.all()[j as int] == s@);
        return Some(j);
    }
    if seen.states.len() >= max_states {
        return None;
    }
    let ghost before = seen.all();
    let ghost x = s@;
    let j = seen.add(s, h);
    proof {
        let all = seen.all();
        noted_facts(before, x);
        assert(all[j as int] == x);
        let k = all.index_of(x);
        assert(all[k] == x);
    }
    Some(j)
}

/// The moves of a list.
spec fn move_views<N: Number>(v: Seq<(State, Label<N>)>) -> Seq<(Seq<i8>, Step<N::Value>)> {
    Seq::new(v.len(), |i: int| (v[i].0@, v[i].1.step()))
}

/// The moves out of a state whose rank is known.
fn moves_at<N: Number>(eng: &Engine<N>, s: &State, found: Option<(u8, u32)>) -> (r: Vec<
    (State, Label<N>),
>)
    requires
        eng.tree.wf(),
        valid(eng.tree.net().nodes, s@),
        found == rank_of(eng.tree, s@),
        found matches Some((i, w)) ==> rank(eng.tree.net().nodes, s@) == Some((i as int, w as int)),
    ensures
        move_views(r@) == moves_of(eng.tree, s@),
{
    let tree = eng.tree;
    let ghost g = tree.net().nodes;
    let mut out: Vec<(State, Label<N>)> = Vec::new();
    proof {
        best_is_least(g, s@, tree.net().size());
        net_durations(tree.net());
    }
    if let Some((r, v)) = found {
        proof {
            net_children(tree.net(), v as int);
        }
        let n = tree.node(v);
        if r == 1 {
            let mut a = s.clone();
            a.set(n.low as usize, 0);
            let mut b = s.clone();
            b.set(n.high as usize, 0);
            out.push((a, Label::Action { child: n.low }));
            out.push((b, Label::Action { child: n.high }));
        } else if r == 4 {
            let mut a = s.clone();
            a.set(n.low as usize, 0);
            let mut b = s.clone();
            b.set(n.high as usize, 0);
            out.push((a, Label::Draw { child: n.low, prob: n.prob.dup() }));
            out.push((b, Label::Draw { child: n.high, prob: N::one().minus(&n.prob) }));
        } else if r == 2 {
            let mut a = s.clone();
            eng.down(&mut a, v);
            out.push((a, Label::Down { at: v }));
        } else if r == 3 {
            let mut a = s.clone();
            eng.up(&mut a, v);
            out.push((a, Label::Up { at: v }));
        } else {
            assert(busy(g, s@, v as int));
            let t = eng.time_left(s);
            let mut a = s.clone();
            let mut cost: Vec<N> = zeros(tree.k);
            eng.fast_forward(&mut a, &mut cost);
            out.push((a, Label::FastForward { t, cost }));
        }
    }
    assert(move_views(out@) =~= moves_of(tree, s@));
    out
}

/// A longer list gives the transitions the same indices.
proof fn arrows_kept<N: Number>(t: &Tree<N>, a: Seq<Seq<i8>>, b: Seq<Seq<i8>>, n: int)
    requires
        starts(a, b),
        b.no_duplicates(),
        0 <= n <= a.len(),
        forall|i: int, q: int|
            0 <= i < n && 0 <= q < moves_of(t, a[i]).len() ==> a.contains(
                (#[trigger] moves_of(t, a[i])[q]).0,
            ),
    ensures
        arrows_upto(t, a, n) == arrows_upto(t, b, n),
    decreases n,
{
    if n > 0 {
        arrows_kept(t, a, b, n - 1);
        assert(b.take(a.len() as int)[n - 1] == a[n - 1]);
        let m = moves_of(t, a[n - 1]).len() as int;
        assert(arrows_of(t, a, n - 1, m) =~= arrows_of(t, b, n - 1, m)) by {
            assert forall|q: int| 0 <= q < m implies #[trigger] arrows_of(t, a, n - 1, m)[q]
                == arrows_of(t, b, n - 1, m)[q] by {
                starts_contains(a, b, moves_of(t, a[n - 1])[q].0);
            }
        }
    }
}

/// A longer list is met in the same order.
proof fn met_by_kept<N: Number>(t: &Tree<N>, a: Seq<Seq<i8>>, b: Seq<Seq<i8>>, n: int)
    requires
        starts(a, b),
        0 <= n <= a.len(),
    ensures
        met_by(t, a, n) == met_by(t, b, n),
    decreases n,
{
    if n > 0 {
        met_by_kept(t, a, b, n - 1);
        assert(b.take(a.len() as int)[n - 1] == a[n - 1]);
    }
}

/// Every move out of the first `n` states leads to a state of the list.
spec fn closed_upto<N: Number>(t: &Tree<N>, a: Seq<Seq<i8>>, n: int) -> bool {
    forall|i: int, q: int|
        0 <= i < n && 0 <= q < moves_of(t, a[i]).len() ==> a.contains(
            (#[trigger] moves_of(t, a[i])[q]).0,
        )
}

proof fn closed_kept<N: Number>(t: &Tree<N>, a: Seq<Seq<i8>>, b: Seq<Seq<i8>>, n: int)
    requires
        starts(a, b),
        0 <= n <= a.len(),
        closed_upto(t, a, n),
    ensures
        closed_upto(t, b, n),
{
    assert forall|i: int, q: int| 0 <= i < n && 0 <= q < moves_of(t, b[i]).len() implies b.contains(
        (#[trigger] moves_of(t, b[i])[q]).0,
    ) by {
        assert(b.take(a.len() as int)[i] == a[i]);
        assert(a.contains(moves_of(t, a[i])[q].0));
        starts_contains(a, b, moves_of(t, a[i])[q].0);
    }
}

/// The walk before the state of index `i` is looked at.
spec fn walking<N: Number>(t: &Tree<N>, all: Seq<Seq<i8>>, i: int) -> bool {
    &&& 0 <= i <= all.len()
    &&& all.len() > 0
    &&& all.no_duplicates()
    &&& all == met_by(t, all, i)
    &&& forall|n: int| 0 <= n < i ==> n < #[trigger] met_by(t, all, n).len()
    &&& closed_upto(t, all, i)
    &&& forall|j: int| 0 <= j < all.len() ==> reachable(t, #[trigger] all[j])
    &&& forall|j: int| 0 <= j < all.len() ==> valid(t.net().nodes, #[trigger] all[j])
}

proof fn walk_on<N: Number>(t: &Tree<N>, a: Seq<Seq<i8>>, i: int)
    requires
        t.wf(),
        walking(t, a, i),
        i < a.len(),
    ensures
        ({
            let b = noted_from(t, a, a[i], moves_of(t, a[i]).len() as int);
            &&& walking(t, b, i + 1)
            &&& starts(a, b)
            &&& b[i] == a[i]
            &&& arrows_upto(t, a, i) == arrows_upto(t, b, i)
        }),
{
    let m = moves_of(t, a[i]).len() as int;
    let b = noted_from(t, a, a[i], m);
    noted_from_facts(t, a, a[i], m);
    size_moves(t, a[i]);
    met_by_kept(t, a, b, i);
    assert(b.take(a.len() as int)[i] == a[i]);
    closed_kept(t, a, b, i);
    arrows_kept(t, a, b, i);
    assert(met_by(t, b, i + 1) == b);
    assert forall|n: int| 0 <= n < i + 1 implies n < #[trigger] met_by(t, b, n).len() by {
        met_by_kept(t, a, b, n);
        if n < i {
            assert(n < met_by(t, a, n).len());
        }
    }
    assert forall|j: int| 0 <= j < b.len() implies reachable(t, #[trigger] b[j]) && valid(
        t.net().nodes,
        b[j],
    ) by {
        assert(b.contains(b[j]));
        if a.contains(b[j]) {
            let k = a.index_of(b[j]);
            assert(reachable(t, a[k]));
            assert(valid(t.net().nodes, a[k]));
        } else {
            let q = choose|q: int|
                0 <= q < moves_of(t, a[i]).len() && #[trigger] moves_of(t, a[i])[q].0 == b[j];
            assert(reachable(t, a[i]));
            reachable_on(t, a[i], q);
        }
    }
    assert forall|x: int, q: int|
        0 <= x < i + 1 && 0 <= q < moves_of(t, b[x]).len() implies b.contains(
        (#[trigger] moves_of(t, b[x])[q]).0,
    ) by {}
}

/// A list of reachable states, one more than the cap allows, is too many.
proof fn past_cap<N: Number>(t: &Tree<N>, all: Seq<Seq<i8>>, x: Seq<i8>, max_states: usize)
    requires
        all.no_duplicates(),
        all.len() > 0,
        all.len() >= max_states,
        !all.contains(x),
        reachable(t, x),
        forall|j: int| 0 <= j < all.len() ==> reachable(t, #[trigger] all[j]),
    ensures
        too_many(t, max_states),
{
    let b = noted(all, x);
    noted_facts(all, x);
    assert forall|j: int| 0 <= j < b.len() implies reachable(t, #[trigger] b[j]) by {
        if j < all.len() {
            assert(b[j] == all[j]);
        }
    }
}

/// Walks the whole reachable state space, breadth first, or fails past
/// `max_states`.
#[verifier::rlimit(60)]
pub fn explore<N: Number>(tree: &Tree<N>, max_states: usize) -> (r: Result<Mdp<N>, String>)
    requires
        tree.wf(),
    ensures
        match r {
            Ok(m) => {
                let states = state_views(m.states@);
                &&& breadth_first(tree, states)
                &&& states.len() == 1 || states.len() <= max_states
                &&& m.ranks@ == Seq::new(states.len(), |i: int| rank_of(tree, states[i]))
                &&& arrows(m.edges@) == arrows_upto(tree, states, states.len() as int)
            },
            Err(e) => too_many(tree, max_states) && e@ == cap_text(max_states),
        },
{
    let eng = Engine::new(tree);
    let mut seen = Seen::new();
    let first = eng.initial_state();
    let h = hash_of_state(first.as_slice());
    seen.add(first, h);
    let mut ranks: Vec<Option<(u8, u32)>> = Vec::new();
    let mut edges: Vec<Edge<N>> = Vec::new();
    let mut i: usize = 0;
    proof {
        assert(seen.all() =~= seq![tree.net().initial()]);
        initial_reachable(tree);
        initial_valid(tree.net());
        assert(walking(tree, seen.all(), 0));
        assert(arrows(edges@) =~= arrows_upto(tree, seen.all(), 0));
        assert(seen.all().skip(0) =~= seen.all());
        assert(seen.all().len() == seen.states@.len());
    }
    while i < seen.states.len()
        invariant
            tree.wf(),
            eng.tree == tree,
            seen.inv(),
            seen.all().len() == seen.states@.len(),
            walking(tree, seen.all(), i as int),
            seen.all().len() == 1 || seen.all().len() <= max_states,
            ranks@.len() == i,
            forall|j: int| 0 <= j < i ==> #[trigger] ranks@[j] == rank_of(tree, seen.all()[j]),
            arrows(edges@) == arrows_upto(tree, seen.all(), i as int),
        decreases total(seen.all().skip(i as int), size_each(tree)),
    {
        let ghost a = seen.all();
        let s = seen.states[i].clone();
        assert(s@ == a[i as int]);
        let found = eng.rank_witness(s.as_slice());
        proof {
            best_is_least(tree.net().nodes, s@, tree.net().size());
            assert(found == rank_of(tree, s@));
        }
        ranks.push(found);
        let mut moves = reversed(moves_at(&eng, &s, found));
        let ghost ms = moves_of(tree, s@);
        let n = moves.len();
        let ghost base = arrows(edges@);
        proof {
            walk_on(tree, a, i as int);
            size_moves(tree, s@);
            assert(arrows(edges@) =~= base + Seq::<Arrow<N::Value>>::empty());
            assert(here(ms, a, i as int, 0) =~= Seq::empty());
        }
        for q in 0..n
            invariant
                n == ms.len(),
                ms == moves_of(tree, s@),
                moves@.len() == n - q,
                forall|j: int|
                    0 <= j < moves@.len() ==> (#[trigger] moves@[j].0@, moves@[j].1.step()) == ms[n
                        - 1 - j],
                seen.inv(),
                seen.all().len() == seen.states@.len(),
                a.no_duplicates(),
                a.len() > 0,
                seen.all() == noted_from(tree, a, s@, q as int),
                seen.all().len() == 1 || seen.all().len() <= max_states,
                forall|j: int| 0 <= j < a.len() ==> reachable(tree, #[trigger] a[j]),
                reachable(tree, s@),
                arrows(edges@) == base + here(ms, seen.all(), i as int, q as int),
                total(seen.all(), size_each(tree)) <= total(a, size_each(tree)) + size_upto(
                    tree,
                    s@,
                    q as int,
                ),
        {
            let (next, label) = moves.pop().unwrap();
            let ghost before = seen.all();
            let ghost edges0 = edges@;
            let ghost x = next@;
            proof {
                assert((x, label.step()) == ms[q as int]);
                noted_from_facts(tree, a, s@, q as int);
                reachable_on(tree, s@, q as int);
            }
            match note(&mut seen, next, max_states) {
                Some(j) => {
                    proof {
                        let b = seen.all();
                        noted_facts(before, x);
                        if !before.contains(x) {
                            assert(b =~= before.push(x));
                            total_push(before, x, size_each(tree));
                        }
                    }
                    edges.push(Edge { from: i, to: j, label });
                    proof {
                        let b = seen.all();
                        let (u, v) = (
                            here(ms, before, i as int, q as int),
                            here(ms, b, i as int, q + 1),
                        );
                        assert(v =~= u.push(
                            Arrow { from: i as int, to: j as int, step: label.step() },
                        )) by {
                            assert forall|y: int| 0 <= y < q implies #[trigger] v[y] == u[y] by {
                                assert(before.contains(ms[y].0));
                                starts_contains(before, b, ms[y].0);
                            }
                        }
                        assert(arrows(edges@) =~= arrows(edges0).push(edges@.last().arrow()));
                        assert(arrows(edges@) =~= base + v);
                    }
                },
                None => {
                    proof {
                        assert forall|y: int| 0 <= y < before.len() implies reachable(
                            tree,
                            #[trigger] before[y],
                        ) by {
                            assert(before.contains(before[y]));
                            if a.contains(before[y]) {
                                let k = a.index_of(before[y]);
                                assert(reachable(tree, a[k]));
                            } else {
                                let p = choose|p: int|
                                    0 <= p < moves_of(tree, s@).len() && #[trigger] moves_of(
                                        tree,
                                        s@,
                                    )[p].0 == before[y];
                                reachable_on(tree, s@, p);
                            }
                        }
                        assert(starts(a, before));
                        past_cap(tree, before, x, max_states);
                    }
                    let mut e = String::from_str("more than ");
                    e.append(decimal_of(max_states as u128).as_str());
                    e.append(" states; raise --max-states");
                    return Err(e);
                },
            }
        }
        proof {
            let b = seen.all();
            let f = size_each(tree);
            assert(here(ms, b, i as int, n as int) =~= arrows_of(tree, b, i as int, n as int));
            assert(arrows(edges@) == arrows_upto(tree, b, i + 1));
            assert forall|j: int| 0 <= j < i + 1 implies #[trigger] ranks@[j] == rank_of(
                tree,
                b[j],
            ) by {
                assert(b.take(a.len() as int)[j] == a[j]);
            }
            total_parts(a, i as int, f);
            total_parts(b, i as int, f);
            assert(b.take(i as int) =~= a.take(i as int)) by {
                assert forall|j: int| 0 <= j < i implies b[j] == a[j] by {
                    assert(b.take(a.len() as int)[j] == a[j]);
                }
            }
        }
        i = i + 1;
    }
    proof {
        let all = seen.all();
        assert(ranks@ =~= Seq::new(all.len(), |i: int| rank_of(tree, all[i])));
    }
    Ok(Mdp { states: seen.states, ranks, edges })
}

/// The transitions of the first `n` moves out of the state of index `i`.
spec fn here<V>(ms: Seq<(Seq<i8>, Step<V>)>, all: Seq<Seq<i8>>, i: int, n: int) -> Seq<Arrow<V>> {
    Seq::new(n as nat, |q: int| Arrow { from: i, to: all.index_of(ms[q].0), step: ms[q].1 })
}

proof fn total_parts(s: Seq<Seq<i8>>, i: int, f: spec_fn(Seq<i8>) -> nat)
    requires
        0 <= i < s.len(),
    ensures
        total(s, f) == total(s.take(i), f) + f(s[i]) + total(s.skip(i + 1), f),
        total(s.skip(i), f) == f(s[i]) + total(s.skip(i + 1), f),
    decreases s.len() - i,
{
    let r = s.skip(i);
    total_first(r, f);
    assert(r.subrange(1, r.len() as int) =~= s.skip(i + 1));
    assert(s.take(i + 1) =~= s.take(i).push(s[i]));
    total_push(s.take(i), s[i], f);
    if i + 1 < s.len() {
        total_parts(s, i + 1, f);
    } else {
        assert(s.take(i + 1) =~= s);
        assert(s.skip(i + 1) =~= Seq::empty());
    }
}

// ---------------------------------------------------------------------------
// the dump
// ---------------------------------------------------------------------------

/// A number as the dump writes it: an integer below `10^15` in magnitude without
/// a point, anything else as the number shows itself.
pub open spec fn number_text<N: Number>(a: N::Value) -> Seq<char> {
    match N::integral_v(a) {
        Some(i) => if -1_000_000_000_000_000 < i < 1_000_000_000_000_000 {
            signed(i as int)
        } else {
            N::show_v(a)
        },
        None => N::show_v(a),
    }
}

/// A number as the dump writes it.
pub fn show_number<N: Number>(a: &N) -> (r: String)
    ensures
        r@ == number_text::<N>(a.value()),
{
    match a.integral() {
        Some(i) => if -1_000_000_000_000_000 < i && i < 1_000_000_000_000_000 {
            signed_of(i)
        } else {
            a.show()
        },
        None => a.show(),
    }
}

/// The numbers of a vector, each as the dump writes it.
pub open spec fn number_texts<N: Number>(v: Seq<N::Value>) -> Seq<Seq<char>> {
    Seq::new(v.len(), |i: int| number_text::<N>(v[i]))
}

/// A vector between brackets.
pub open spec fn cost_text<N: Number>(v: Seq<N::Value>) -> Seq<char> {
    "["@ + joined(number_texts::<N>(v), ", "@) + "]"@
}

/// A vector between brackets.
pub fn fmt_cost<N: Number>(cost: &[N]) -> (r: String)
    ensures
        r@ == cost_text::<N>(vals(cost@)),
{
    let mut parts: Vec<String> = Vec::new();
    for i in 0..cost.len()
        invariant
            parts@.len() == i,
            forall|j: int|
                0 <= j < i ==> (#[trigger] parts@[j])@ == number_text::<N>(cost@[j].value()),
    {
        parts.push(show_number(&cost[i]));
    }
    assert(texts(parts@) =~= number_texts::<N>(vals(cost@)));
    let mut r = String::from_str("[");
    r.append(join(&parts, ", ").as_str());
    r.append("]");
    r
}

pub open spec fn kind_text(k: Kind) -> Seq<char> {
    match k {
        Kind::Task => "task"@,
        Kind::Sequence => "sequence"@,
        Kind::Parallel => "parallel"@,
        Kind::Choice => "choice"@,
        Kind::Nature => "nature"@,
    }
}

/// The line of a node.
pub open spec fn node_line<N: Number>(t: &Tree<N>, id: int) -> Seq<char> {
    let n = t.nodes@[id];
    let start = "node "@ + decimal(id as nat) + " "@ + kind_text(n.kind);
    let ends = " low "@ + decimal(n.low as nat) + " high "@ + decimal(n.high as nat);
    match n.kind {
        Kind::Task => start + " "@ + t.task_names@[id]@ + " duration "@ + signed(n.duration as int)
            + " impact "@ + cost_text::<N>(t.impact_v(id)) + "\n"@,
        Kind::Nature => start + " "@ + N::show_v(n.prob.value()) + ends + "\n"@,
        _ => start + ends + "\n"@,
    }
}

pub open spec fn node_lines<N: Number>(t: &Tree<N>, n: int) -> Seq<char>
    decreases n,
{
    if n <= 0 {
        Seq::empty()
    } else {
        node_lines(t, n - 1) + node_line(t, n)
    }
}

pub(crate) fn kind_word(k: Kind) -> (r: &'static str)
    ensures
        r@ == kind_text(k),
{
    match k {
        Kind::Task => "task",
        Kind::Sequence => "sequence",
        Kind::Parallel => "parallel",
        Kind::Choice => "choice",
        Kind::Nature => "nature",
    }
}

fn write_node<N: Number>(out: &mut String, tree: &Tree<N>, id: u32)
    requires
        tree.wf(),
        1 <= id <= tree.n_nodes,
    ensures
        final(out)@ == old(out)@ + node_line(tree, id as int),
{
    let ghost o = out@;
    let n = tree.node(id);
    let mut s = String::from_str("node ");
    s.append(decimal_of(id as u128).as_str());
    s.append(" ");
    s.append(kind_word(n.kind));
    match n.kind {
        Kind::Task => {
            s.append(" ");
            s.append(tree.task_names[id as usize].as_str());
            s.append(" duration ");
            s.append(signed_of(n.duration as i64).as_str());
            s.append(" impact ");
            s.append(fmt_cost(tree.impact(id)).as_str());
        },
        Kind::Nature => {
            s.append(" ");
            s.append(n.prob.show().as_str());
            write_ends(&mut s, n.low, n.high);
        },
        _ => {
            write_ends(&mut s, n.low, n.high);
        },
    }
    s.append("\n");
    assert(s@ =~= node_line(tree, id as int));
    out.append(s.as_str());
}

fn write_ends(s: &mut String, low: u32, high: u32)
    ensures
        final(s)@ == old(s)@ + (" low "@ + decimal(low as nat) + " high "@ + decimal(high as nat)),
{
    let ghost o = s@;
    s.append(" low ");
    s.append(decimal_of(low as u128).as_str());
    s.append(" high ");
    s.append(decimal_of(high as u128).as_str());
    assert(s@ =~= o + (" low "@ + decimal(low as nat) + " high "@ + decimal(high as nat)));
}

/// The entries of a state but for the filler.
pub open spec fn value_texts(s: Seq<i8>) -> Seq<Seq<char>> {
    Seq::new((s.len() - 1) as nat, |i: int| signed(s[i + 1] as int))
}

/// The line of a state.
pub open spec fn state_line(i: int, s: Seq<i8>, rank: Option<(u8, u32)>) -> Seq<char> {
    let values = " values "@ + joined(value_texts(s), " "@) + "\n"@;
    match rank {
        None => "state "@ + decimal(i as nat) + " final"@ + values,
        Some((r, w)) => "state "@ + decimal(i as nat) + " rank "@ + decimal(r as nat) + " witness "@
            + decimal(w as nat) + values,
    }
}

pub open spec fn state_lines(
    states: Seq<Seq<i8>>,
    ranks: Seq<Option<(u8, u32)>>,
    n: int,
) -> Seq<char>
    decreases n,
{
    if n <= 0 {
        Seq::empty()
    } else {
        state_lines(states, ranks, n - 1) + state_line(n - 1, states[n - 1], ranks[n - 1])
    }
}

fn write_state(out: &mut String, i: usize, s: &State, rank: Option<(u8, u32)>)
    requires
        s@.len() > 0,
    ensures
        final(out)@ == old(out)@ + state_line(i as int, s@, rank),
{
    let mut values: Vec<String> = Vec::new();
    for j in 1..s.len()
        invariant
            s@.len() > 0,
            values@.len() == j - 1,
            forall|q: int|
                0 <= q < values@.len() ==> (#[trigger] values@[q])@ == signed(s@[q + 1] as int),
    {
        values.push(signed_of(s[j] as i64));
    }
    assert(texts(values@) =~= value_texts(s@));
    let mut t = String::from_str("state ");
    t.append(decimal_of(i as u128).as_str());
    match rank {
        None => {
            t.append(" final");
        },
        Some((r, w)) => {
            t.append(" rank ");
            t.append(decimal_of(r as u128).as_str());
            t.append(" witness ");
            t.append(decimal_of(w as u128).as_str());
        },
    }
    t.append(" values ");
    t.append(join(&values, " ").as_str());
    t.append("\n");
    assert(t@ =~= state_line(i as int, s@, rank));
    out.append(t.as_str());
}

/// The label of a transition.
pub open spec fn step_text<N: Number>(step: Step<N::Value>) -> Seq<char> {
    match step {
        Step::Action { child } => " action "@ + decimal(child as nat),
        Step::Draw { child, prob } => " draw "@ + decimal(child as nat) + " "@ + N::show_v(prob),
        Step::Down { at } => " down "@ + decimal(at as nat),
        Step::Up { at } => " up "@ + decimal(at as nat),
        Step::FastForward { t, cost } => " ff "@ + signed(t as int) + " "@ + cost_text::<N>(cost),
    }
}

/// The line of a transition.
pub open spec fn edge_line<N: Number>(a: Arrow<N::Value>) -> Seq<char> {
    "edge "@ + decimal(a.from as nat) + " "@ + decimal(a.to as nat) + step_text::<N>(a.step)
        + "\n"@
}

pub open spec fn edge_lines<N: Number>(s: Seq<Arrow<N::Value>>) -> Seq<char>
    decreases s.len(),
{
    if s.len() == 0 {
        Seq::empty()
    } else {
        edge_lines::<N>(s.drop_last()) + edge_line::<N>(s.last())
    }
}

fn write_edge<N: Number>(out: &mut String, e: &Edge<N>)
    ensures
        final(out)@ == old(out)@ + edge_line::<N>(e.arrow()),
{
    let mut s = String::from_str("edge ");
    s.append(decimal_of(e.from as u128).as_str());
    s.append(" ");
    s.append(decimal_of(e.to as u128).as_str());
    match &e.label {
        Label::Action { child } => {
            s.append(" action ");
            s.append(decimal_of(*child as u128).as_str());
        },
        Label::Draw { child, prob } => {
            s.append(" draw ");
            s.append(decimal_of(*child as u128).as_str());
            s.append(" ");
            s.append(prob.show().as_str());
        },
        Label::Down { at } => {
            s.append(" down ");
            s.append(decimal_of(*at as u128).as_str());
        },
        Label::Up { at } => {
            s.append(" up ");
            s.append(decimal_of(*at as u128).as_str());
        },
        Label::FastForward { t, cost } => {
            s.append(" ff ");
            s.append(signed_of(*t as i64).as_str());
            s.append(" ");
            s.append(fmt_cost(cost.as_slice()).as_str());
        },
    }
    s.append("\n");
    assert(s@ =~= edge_line::<N>(e.arrow()));
    out.append(s.as_str());
}

/// The states, each with its rank and witness.
pub open spec fn states_text<N: Number>(m: Mdp<N>) -> Seq<char> {
    "states "@ + decimal(m.states@.len()) + "\n"@ + state_lines(
        state_views(m.states@),
        m.ranks@,
        m.states@.len() as int,
    )
}

/// The moves, each with its label.
pub open spec fn edges_text<N: Number>(m: Mdp<N>) -> Seq<char> {
    "edges "@ + decimal(m.edges@.len()) + "\n"@ + edge_lines::<N>(arrows(m.edges@))
}

/// The whole dump.
pub open spec fn dump_text<N: Number>(t: &Tree<N>, m: Mdp<N>) -> Seq<char> {
    let head = "nodes "@ + decimal(t.n_nodes as nat) + "\n"@ + "dimensions "@ + decimal(t.k as nat)
        + "\n"@;
    let names = if t.meta.impact_names@.len() == 0 {
        Seq::empty()
    } else {
        "impact_names ["@ + joined(texts(t.meta.impact_names@), ", "@) + "]\n"@
    };
    head + names + node_lines(t, t.n_nodes as int) + states_text(m) + edges_text(m)
}

fn write_nodes<N: Number>(out: &mut String, tree: &Tree<N>)
    requires
        tree.wf(),
    ensures
        final(out)@ == old(out)@ + node_lines(tree, tree.n_nodes as int),
{
    let ghost before = out@;
    assert(out@ =~= before + node_lines(tree, 0));
    let n = tree.n_nodes;
    for id in 1..n + 1
        invariant
            tree.wf(),
            n == tree.n_nodes,
            n < u32::MAX,
            out@ == before + node_lines(tree, id - 1),
    {
        write_node(out, tree, id);
        assert(out@ =~= before + node_lines(tree, id as int));
    }
}

fn write_states<N: Number>(out: &mut String, mdp: &Mdp<N>)
    requires
        mdp.ranks@.len() == mdp.states@.len(),
        forall|i: int| 0 <= i < mdp.states@.len() ==> (#[trigger] mdp.states@[i])@.len() > 0,
    ensures
        final(out)@ == old(out)@ + states_text(*mdp),
{
    let ghost start = out@;
    let ghost sv = state_views(mdp.states@);
    let ghost title = "states "@ + decimal(mdp.states@.len()) + "\n"@;
    out.append("states ");
    out.append(decimal_of(mdp.states.len() as u128).as_str());
    out.append("\n");
    let ghost before = out@;
    assert(before =~= start + title);
    assert(before =~= before + state_lines(sv, mdp.ranks@, 0));
    for i in 0..mdp.states.len()
        invariant
            mdp.ranks@.len() == mdp.states@.len(),
            forall|i: int| 0 <= i < mdp.states@.len() ==> (#[trigger] mdp.states@[i])@.len() > 0,
            sv == state_views(mdp.states@),
            out@ == before + state_lines(sv, mdp.ranks@, i as int),
    {
        write_state(out, i, &mdp.states[i], mdp.ranks[i]);
        assert(out@ =~= before + state_lines(sv, mdp.ranks@, i + 1));
    }
    assert(out@ =~= start + (title + state_lines(sv, mdp.ranks@, mdp.states@.len() as int)));
}

fn write_edges<N: Number>(out: &mut String, mdp: &Mdp<N>)
    ensures
        final(out)@ == old(out)@ + edges_text(*mdp),
{
    let ghost start = out@;
    let ghost av = arrows(mdp.edges@);
    let ghost title = "edges "@ + decimal(mdp.edges@.len()) + "\n"@;
    out.append("edges ");
    out.append(decimal_of(mdp.edges.len() as u128).as_str());
    out.append("\n");
    let ghost before = out@;
    assert(before =~= start + title);
    assert(av.take(0) =~= Seq::empty());
    assert(before =~= before + edge_lines::<N>(av.take(0)));
    for i in 0..mdp.edges.len()
        invariant
            av == arrows(mdp.edges@),
            out@ == before + edge_lines::<N>(av.take(i as int)),
    {
        write_edge(out, &mdp.edges[i]);
        proof {
            assert(av.take(i + 1).drop_last() =~= av.take(i as int));
            assert(av.take(i + 1).last() == mdp.edges@[i as int].arrow());
            assert(out@ =~= before + edge_lines::<N>(av.take(i + 1)));
        }
    }
    assert(av.take(av.len() as int) =~= av);
    assert(out@ =~= start + (title + edge_lines::<N>(av)));
}

/// The dump: the node table of the tree, every state with its rank and
/// witness, and every transition with its label, one line each.
pub fn dump<N: Number>(tree: &Tree<N>, mdp: &Mdp<N>) -> (r: String)
    requires
        tree.wf(),
        mdp.ranks@.len() == mdp.states@.len(),
        forall|i: int| 0 <= i < mdp.states@.len() ==> (#[trigger] mdp.states@[i])@.len() > 0,
    ensures
        r@ == dump_text(tree, *mdp),
{
    let mut out = String::from_str("nodes ");
    out.append(decimal_of(tree.n_nodes as u128).as_str());
    out.append("\n");
    out.append("dimensions ");
    out.append(decimal_of(tree.k as u128).as_str());
    out.append("\n");
    let ghost head = out@;
    if tree.meta.impact_names.len() > 0 {
        out.append("impact_names [");
        out.append(join(&tree.meta.impact_names, ", ").as_str());
        out.append("]\n");
    }
    let ghost names = if tree.meta.impact_names@.len() == 0 {
        Seq::empty()
    } else {
        "impact_names ["@ + joined(texts(tree.meta.impact_names@), ", "@) + "]\n"@
    };
    assert(out@ =~= head + names);
    write_nodes(&mut out, tree);
    write_states(&mut out, mdp);
    write_edges(&mut out, mdp);
    out
}

} // verus!
