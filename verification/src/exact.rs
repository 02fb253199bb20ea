//! The least and the greatest expected impact of each component, computed
//! exactly over the graph of the choice states.
//!
//! This is not the search: it optimises one component at a time, which is a
//! single-objective question and has nothing to say about a threshold on a
//! vector. It is the scale on which a threshold is placed, a bound above every
//! maximum being a yes for any strategy and one below some minimum a no for all
//! of them.
//!
//! The recursion terminates because the graph is acyclic: every macro step
//! completes at least one task or closes at least one node, and four transitions
//! for each node bound a run.

use vstd::prelude::*;
use crate::bound::{bound_v, extreme_v};
use crate::effort::{total, total_first, total_push};
use crate::num::{dup_vec, sum_v, vals, zeros, zeros_v, Number};
use crate::progress::{branch_works, initial_valid};
use crate::semantics::{best_is_least, rank, started, valid};
use crate::state::{forced_some, opening, reply, stops, Leaf, StepError, Stop};
use crate::tables::{child_of, first_lore, holdable, met_states, step_lore, Branch, Lore, Store};
use crate::tree::Tree;
use crate::unfolding::{forced_outcomes, outcome_of};

verus! {

pub struct Optima<N> {
    pub min: Vec<N>,
    pub max: Vec<N>,
}

/// Why an exact pass gave up, when it did.
#[derive(Debug)]
pub enum ExactError {
    Step(StepError),
    /// The graph of the choice states passed the cap. The whole graph is what
    /// the search exists not to build, so a cap here is not a limitation of the
    /// search, only of this check.
    TooManyStates(usize),
}

/// `p (i + v)`, entry by entry.
pub open spec fn share_v<N: Number>(l: Leaf<N::Value>, v: Seq<N::Value>) -> Seq<N::Value> {
    Seq::new(v.len(), |c: int| N::times_v(l.prob, N::plus_v(l.impact[c], v[c])))
}

/// The greatest, or the least, expected impact still to be paid from a choice
/// state, each component optimised on its own.
pub open spec fn optimum_v<N: Number>(t: &Tree<N>, s: Seq<i8>, up: bool) -> Seq<N::Value>
    decreases t.net().work(s), 1nat, 0nat,
{
    if !t.wf() || !valid(t.net().nodes, s) || rank(t.net().nodes, s) is None {
        zeros_v::<N>(t.k as nat)
    } else {
        extreme_v::<N>(
            up,
            gain_v(t, reply(t, s, child_of(t, s, Branch::Low)), up, t.net().work(s)),
            gain_v(t, reply(t, s, child_of(t, s, Branch::High)), up, t.net().work(s)),
        )
    }
}

/// The expectation over these outcomes, added up one by one, of what each pays
/// and of the optimum from where it ends. Outcomes end where less than `work`
/// is left.
pub open spec fn gain_v<N: Number>(t: &Tree<N>, ls: Seq<Leaf<N::Value>>, up: bool, work: nat) -> Seq<
    N::Value,
>
    decreases work, 0nat, ls.len(),
{
    if ls.len() == 0 {
        zeros_v::<N>(t.k as nat)
    } else {
        let l = ls.last();
        let end = if t.net().work(l.state) < work {
            optimum_v(t, l.state, up)
        } else {
            zeros_v::<N>(t.k as nat)
        };
        sum_v::<N>(gain_v(t, ls.drop_last(), up, work), share_v::<N>(l, end))
    }
}

/// The expectation over these outcomes, whatever is left where they end.
pub open spec fn mean_over<N: Number>(t: &Tree<N>, ls: Seq<Leaf<N::Value>>, up: bool) -> Seq<N::Value>
    decreases ls.len(),
{
    if ls.len() == 0 {
        zeros_v::<N>(t.k as nat)
    } else {
        let l = ls.last();
        sum_v::<N>(mean_over(t, ls.drop_last(), up), share_v::<N>(l, optimum_v(t, l.state, up)))
    }
}

/// The greatest, or the least, expected impact of a strategy, component by
/// component.
pub open spec fn best_of<N: Number>(t: &Tree<N>, up: bool) -> Seq<N::Value> {
    mean_over(t, opening(t), up)
}

pub proof fn optimum_len<N: Number>(t: &Tree<N>, s: Seq<i8>, up: bool)
    ensures
        optimum_v(t, s, up).len() == t.k,
{
    if t.wf() && valid(t.net().nodes, s) && rank(t.net().nodes, s) is Some {
        gain_len(t, reply(t, s, child_of(t, s, Branch::Low)), up, t.net().work(s));
    }
}

proof fn gain_len<N: Number>(t: &Tree<N>, ls: Seq<Leaf<N::Value>>, up: bool, work: nat)
    ensures
        gain_v(t, ls, up, work).len() == t.k,
    decreases ls.len(),
{
    if ls.len() > 0 {
        gain_len(t, ls.drop_last(), up, work);
    }
}

/// Where every outcome leaves less to do, the guard of the recursion is idle.
pub proof fn gain_is_mean<N: Number>(t: &Tree<N>, ls: Seq<Leaf<N::Value>>, up: bool, work: nat)
    requires
        forall|i: int| 0 <= i < ls.len() ==> t.net().work((#[trigger] ls[i]).state) < work,
    ensures
        gain_v(t, ls, up, work) == mean_over(t, ls, up),
    decreases ls.len(),
{
    if ls.len() > 0 {
        let a = ls.drop_last();
        assert forall|i: int| 0 <= i < a.len() implies t.net().work((#[trigger] a[i]).state)
            < work by {
            assert(a[i] == ls[i]);
        }
        gain_is_mean(t, a, up, work);
        assert(ls[ls.len() - 1] == ls.last());
    }
}

/// The outcomes of a macro step out of a choice state leave less to do.
pub proof fn reply_descends<N: Number>(t: &Tree<N>, s: Seq<i8>, b: Branch)
    requires
        t.wf(),
        valid(t.net().nodes, s),
        rank(t.net().nodes, s) is Some,
        rank(t.net().nodes, s).unwrap().0 == 1,
    ensures
        ({
            let ls = reply(t, s, child_of(t, s, b));
            forall|i: int|
                0 <= i < ls.len() ==> valid(t.net().nodes, (#[trigger] ls[i]).state) && stops(
                    t,
                    ls[i].state,
                ) && t.net().work(ls[i].state) < t.net().work(s) && ls[i].impact.len() == t.k
        }),
{
    let g = t.net().nodes;
    let a = child_of(t, s, b);
    best_is_least(g, s, t.net().size());
    branch_works(t.net(), s);
    forced_outcomes(t, started(s, a as int), seq![a], zeros_v::<N>(t.k as nat), N::one_v());
    let ls = reply(t, s, a);
    assert forall|i: int| 0 <= i < ls.len() implies valid(t.net().nodes, (#[trigger] ls[i]).state)
        && stops(t, ls[i].state) && t.net().work(ls[i].state) < t.net().work(s) && ls[i].impact.len()
        == t.k by {
        assert(outcome_of(t, seq![a], ls[i]));
    }
}

/// At a choice the optimum is the better of what the two branches give.
pub proof fn optimum_chosen<N: Number>(t: &Tree<N>, s: Seq<i8>, up: bool)
    requires
        t.wf(),
        valid(t.net().nodes, s),
        rank(t.net().nodes, s) is Some,
        rank(t.net().nodes, s).unwrap().0 == 1,
    ensures
        optimum_v(t, s, up) == extreme_v::<N>(
            up,
            mean_over(t, reply(t, s, child_of(t, s, Branch::Low)), up),
            mean_over(t, reply(t, s, child_of(t, s, Branch::High)), up),
        ),
{
    reply_descends(t, s, Branch::Low);
    reply_descends(t, s, Branch::High);
    gain_is_mean(t, reply(t, s, child_of(t, s, Branch::Low)), up, t.net().work(s));
    gain_is_mean(t, reply(t, s, child_of(t, s, Branch::High)), up, t.net().work(s));
}

/// The state an outcome of a macro step out of `s` ends in, and it leaves less
/// to do.
pub open spec fn leads_to<N: Number>(t: &Tree<N>, s: Seq<i8>, b: Branch, i: int) -> bool {
    let ls = reply(t, s, child_of(t, s, b));
    &&& rank(t.net().nodes, s) is Some
    &&& 0 <= i < ls.len()
    &&& t.net().work(ls[i].state) < t.net().work(s)
}

/// Every macro step out of `s`, and out of the choice states it leads to, has no
/// more outcomes than can be held.
#[verifier::opaque]
pub open spec fn narrow<N: Number>(t: &Tree<N>, s: Seq<i8>, max: usize) -> bool
    decreases t.net().work(s),
{
    rank(t.net().nodes, s) is Some ==> {
        &&& forall|b: Branch| holdable(reply(t, s, #[trigger] child_of(t, s, b)), max)
        &&& forall|b: Branch, i: int| #[trigger]
            leads_to(t, s, b, i) ==> narrow(t, reply(t, s, child_of(t, s, b))[i].state, max)
    }
}

/// The outcomes of a macro step can be held, and so can those of every macro
/// step that follows.
pub open spec fn narrow_all<N: Number>(t: &Tree<N>, ls: Seq<Leaf<N::Value>>, max: usize) -> bool {
    holdable(ls, max) && forall|i: int| 0 <= i < ls.len() ==> narrow(t, (#[trigger] ls[i]).state, max)
}

pub proof fn narrow_chosen<N: Number>(t: &Tree<N>, s: Seq<i8>, max: usize)
    requires
        t.wf(),
        valid(t.net().nodes, s),
        stops(t, s),
        rank(t.net().nodes, s) is Some,
    ensures
        narrow(t, s, max) == (narrow_all(t, reply(t, s, child_of(t, s, Branch::Low)), max)
            && narrow_all(t, reply(t, s, child_of(t, s, Branch::High)), max)),
{
    reveal(narrow);
    reply_descends(t, s, Branch::Low);
    reply_descends(t, s, Branch::High);
    let (a, b) = (
        reply(t, s, child_of(t, s, Branch::Low)),
        reply(t, s, child_of(t, s, Branch::High)),
    );
    if narrow(t, s, max) {
        assert forall|i: int| 0 <= i < a.len() implies narrow(t, (#[trigger] a[i]).state, max) by {
            assert(leads_to(t, s, Branch::Low, i));
        }
        assert forall|i: int| 0 <= i < b.len() implies narrow(t, (#[trigger] b[i]).state, max) by {
            assert(leads_to(t, s, Branch::High, i));
        }
    } else if narrow_all(t, a, max) && narrow_all(t, b, max) {
        assert forall|c: Branch, i: int| #[trigger] leads_to(t, s, c, i) implies narrow(
            t,
            reply(t, s, child_of(t, s, c))[i].state,
            max,
        ) by {
            match c {
                Branch::Low => assert(narrow(t, a[i].state, max)),
                Branch::High => assert(narrow(t, b[i].state, max)),
            }
        }
        assert forall|c: Branch| holdable(reply(t, s, #[trigger] child_of(t, s, c)), max) by {
            match c {
                Branch::Low => assert(holdable(a, max)),
                Branch::High => assert(holdable(b, max)),
            }
        }
    }
}

// ---------------------------------------------------------------------------
// the choice states that are met
// ---------------------------------------------------------------------------

/// A choice state can be reached from another.
pub open spec fn reaches<N: Number>(t: &Tree<N>, s: Seq<i8>, x: Seq<i8>) -> bool
    decreases t.net().work(s),
{
    s == x || exists|b: Branch, i: int|
        #[trigger] leads_to(t, s, b, i) && reaches(
            t,
            reply(t, s, child_of(t, s, b))[i].state,
            x,
        )
}

pub proof fn reaches_on<N: Number>(t: &Tree<N>, s: Seq<i8>, x: Seq<i8>, b: Branch, i: int)
    requires
        reaches(t, s, x),
        leads_to(t, x, b, i),
    ensures
        reaches(t, s, reply(t, x, child_of(t, x, b))[i].state),
    decreases t.net().work(s),
{
    let y = reply(t, x, child_of(t, x, b))[i].state;
    if s == x {
        assert(reaches(t, y, y));
    } else {
        let (c, j) = choose|c: Branch, j: int|
            #[trigger] leads_to(t, s, c, j) && reaches(
                t,
                reply(t, s, child_of(t, s, c))[j].state,
                x,
            );
        reaches_on(t, reply(t, s, child_of(t, s, c))[j].state, x, b, i);
    }
}

/// A choice state can be reached from the start of the process.
pub open spec fn reached_at_all<N: Number>(t: &Tree<N>, x: Seq<i8>) -> bool {
    exists|j: int| 0 <= j < opening(t).len() && #[trigger] reaches(t, opening(t)[j].state, x)
}

/// Every choice state that was recorded in between can be reached.
pub open spec fn met_only<N: Number>(a: &Store<N>, b: &Store<N>) -> bool {
    forall|i: int|
        a.records.choice_states@.len() <= i < b.records.choice_states@.len() ==> reached_at_all(
            b.tree,
            (#[trigger] b.records.choice_states@[i]).state@,
        )
}

/// Every choice state that can be reached is recorded.
pub open spec fn met_all<N: Number>(b: &Store<N>) -> bool {
    forall|x: Seq<i8>| #[trigger] reached_at_all(b.tree, x) ==> b.records.states().contains(x)
}

/// Every choice state that was recorded in between can be reached from `s`.
#[verifier::opaque]
pub open spec fn adds_from<N: Number>(a: &Store<N>, b: &Store<N>, s: Seq<i8>) -> bool {
    forall|i: int|
        a.records.choice_states@.len() <= i < b.records.choice_states@.len() ==> reaches(
            b.tree,
            s,
            (#[trigger] b.records.choice_states@[i]).state@,
        )
}

/// Every choice state that can be reached from `s` is recorded, and the macro
/// steps out of it have been taken.
#[verifier::opaque]
pub open spec fn explored<N: Number>(b: &Store<N>, s: Seq<i8>) -> bool {
    forall|x: Seq<i8>| #[trigger]
        reaches(b.tree, s, x) ==> {
            &&& b.records.states().contains(x)
            &&& rank(b.tree.net().nodes, x) is Some ==> b.took(x, Branch::Low) && b.took(
                x,
                Branch::High,
            )
        }
}

pub open spec fn explored_all<N: Number>(b: &Store<N>, ls: Seq<Leaf<N::Value>>, n: int) -> bool {
    forall|j: int| 0 <= j < n ==> explored(b, (#[trigger] ls[j]).state)
}

/// A macro step that has been taken stays taken.
pub open spec fn took_kept<N: Number>(a: &Store<N>, b: &Store<N>) -> bool {
    forall|x: Seq<i8>, br: Branch| a.took(x, br) ==> #[trigger] b.took(x, br)
}

pub proof fn adds_none<N: Number>(a: &Store<N>, s: Seq<i8>)
    ensures
        adds_from(a, a, s),
{
    reveal(adds_from);
}

pub proof fn adds_more<N: Number>(a: &Store<N>, b: &Store<N>, c: &Store<N>, s: Seq<i8>)
    requires
        b.grown_from(a),
        c.grown_from(b),
        adds_from(a, b, s),
        adds_from(b, c, s),
    ensures
        adds_from(a, c, s),
{
    reveal(adds_from);
    assert forall|i: int|
        a.records.choice_states@.len() <= i < c.records.choice_states@.len() implies reaches(
        c.tree,
        s,
        (#[trigger] c.records.choice_states@[i]).state@,
    ) by {
        if i < b.records.choice_states@.len() {
            assert(c.records.choice_states@[i] == b.records.choice_states@[i]);
            assert(reaches(b.tree, s, b.records.choice_states@[i].state@));
        }
    }
}

/// What can be reached from where an outcome ends can be reached from where the
/// macro step begins.
pub proof fn adds_below<N: Number>(a: &Store<N>, b: &Store<N>, s: Seq<i8>, br: Branch, j: int)
    requires
        leads_to(b.tree, s, br, j),
        adds_from(a, b, reply(b.tree, s, child_of(b.tree, s, br))[j].state),
    ensures
        adds_from(a, b, s),
{
    reveal(adds_from);
    let t = b.tree;
    let y = reply(t, s, child_of(t, s, br))[j].state;
    assert forall|i: int|
        a.records.choice_states@.len() <= i < b.records.choice_states@.len() implies reaches(
        t,
        s,
        (#[trigger] b.records.choice_states@[i]).state@,
    ) by {
        assert(reaches(t, y, b.records.choice_states@[i].state@));
        assert(leads_to(t, s, br, j));
    }
}

pub proof fn adds_to_met<N: Number>(a: &Store<N>, b: &Store<N>, j: int)
    requires
        0 <= j < opening(b.tree).len(),
        adds_from(a, b, opening(b.tree)[j].state),
    ensures
        met_only(a, b),
{
    reveal(adds_from);
    assert forall|i: int|
        a.records.choice_states@.len() <= i < b.records.choice_states@.len() implies reached_at_all(
        b.tree,
        (#[trigger] b.records.choice_states@[i]).state@,
    ) by {
        assert(reaches(b.tree, opening(b.tree)[j].state, b.records.choice_states@[i].state@));
    }
}

pub proof fn met_more<N: Number>(a: &Store<N>, b: &Store<N>, c: &Store<N>)
    requires
        b.grown_from(a),
        c.grown_from(b),
        met_only(a, b),
        met_only(b, c),
    ensures
        met_only(a, c),
{
    assert forall|i: int|
        a.records.choice_states@.len() <= i < c.records.choice_states@.len() implies reached_at_all(
        c.tree,
        (#[trigger] c.records.choice_states@[i]).state@,
    ) by {
        if i < b.records.choice_states@.len() {
            assert(c.records.choice_states@[i] == b.records.choice_states@[i]);
            assert(reached_at_all(b.tree, b.records.choice_states@[i].state@));
        }
    }
}

/// The states that are new are those the outcomes end in.
proof fn met_states_new<V>(known: Seq<Seq<i8>>, ls: Seq<Leaf<V>>)
    ensures
        known.len() <= met_states(known, ls).len(),
        forall|i: int|
            known.len() <= i < met_states(known, ls).len() ==> exists|j: int|
                0 <= j < ls.len() && (#[trigger] ls[j]).state == #[trigger] met_states(known, ls)[i],
    decreases ls.len(),
{
    if ls.len() > 0 {
        let a = ls.drop_last();
        met_states_new(known, a);
        let (m, r) = (met_states(known, a), met_states(known, ls));
        assert forall|i: int| known.len() <= i < r.len() implies exists|j: int|
            0 <= j < ls.len() && (#[trigger] ls[j]).state == #[trigger] r[i] by {
            if i < m.len() {
                assert(r[i] == m[i]);
                let j = choose|j: int| 0 <= j < a.len() && (#[trigger] a[j]).state == m[i];
                assert(ls[j] == a[j]);
            } else {
                assert(ls[ls.len() - 1].state == r[i]);
            }
        }
    }
}

/// A macro step records the states its outcomes end in.
pub proof fn adds_step<N: Number>(a: &Store<N>, b: &Store<N>, s: Seq<i8>, br: Branch)
    requires
        b.grown_from(a),
        a.tree.wf(),
        valid(a.tree.net().nodes, s),
        stops(a.tree, s),
        rank(a.tree.net().nodes, s) is Some,
        b.lore() == step_lore(a.tree, a.lore(), s, br),
    ensures
        adds_from(a, b, s),
        took_kept(a, b),
        b.took(s, br),
{
    let t = a.tree;
    let ls = reply(t, s, child_of(t, s, br));
    reply_descends(t, s, br);
    met_states_new(a.records.states(), ls);
    assert forall|i: int|
        a.records.choice_states@.len() <= i < b.records.choice_states@.len() implies reaches(
        t,
        s,
        (#[trigger] b.records.choice_states@[i]).state@,
    ) by {
        let x = b.records.choice_states@[i].state@;
        assert(b.lore().states[i] == x);
        assert(!a.lore().taken.contains((s, br))) by {
            if a.lore().taken.contains((s, br)) {
                assert(b.lore().states.len() == a.lore().states.len());
            }
        }
        let j = choose|j: int| 0 <= j < ls.len() && (#[trigger] ls[j]).state == x;
        assert(leads_to(t, s, br, j));
        assert(reaches(t, ls[j].state, x));
    }
    reveal(adds_from);
    assert forall|x: Seq<i8>, c: Branch| a.took(x, c) implies #[trigger] b.took(x, c) by {
        assert(a.lore().taken.contains((x, c)));
        assert(b.lore().taken.contains((x, c)));
    }
    assert(b.lore().taken.contains((s, br)));
}

/// The first macro step records the states the process opens with.
pub proof fn adds_first<N: Number>(a: &Store<N>, b: &Store<N>)
    requires
        b.grown_from(a),
        b.lore() == first_lore(a.tree, a.lore()),
    ensures
        met_only(a, b),
        took_kept(a, b),
{
    let ls = opening(a.tree);
    met_states_new(a.records.states(), ls);
    assert forall|i: int|
        a.records.choice_states@.len() <= i < b.records.choice_states@.len() implies reached_at_all(
        b.tree,
        (#[trigger] b.records.choice_states@[i]).state@,
    ) by {
        let x = b.records.choice_states@[i].state@;
        assert(b.lore().states[i] == x);
        let j = choose|j: int| 0 <= j < ls.len() && (#[trigger] ls[j]).state == x;
        assert(reaches(b.tree, ls[j].state, x));
    }
    assert forall|x: Seq<i8>, c: Branch| a.took(x, c) implies #[trigger] b.took(x, c) by {
        assert(a.lore().taken.contains((x, c)));
        assert(b.lore().taken.contains((x, c)));
    }
}

pub proof fn explored_kept<N: Number>(a: &Store<N>, b: &Store<N>, s: Seq<i8>)
    requires
        b.grown_from(a),
        took_kept(a, b),
        explored(a, s),
    ensures
        explored(b, s),
{
    reveal(explored);
    assert forall|x: Seq<i8>| #[trigger] reaches(b.tree, s, x) implies {
        &&& b.records.states().contains(x)
        &&& rank(b.tree.net().nodes, x) is Some ==> b.took(x, Branch::Low) && b.took(x, Branch::High)
    } by {
        assert(reaches(a.tree, s, x));
        let i = a.records.states().index_of(x);
        assert(a.records.states().contains(x));
        assert(b.records.choice_states@[i] == a.records.choice_states@[i]);
        assert(b.records.states()[i] == x);
    }
}

pub proof fn explored_all_kept<N: Number>(
    a: &Store<N>,
    b: &Store<N>,
    ls: Seq<Leaf<N::Value>>,
    n: int,
)
    requires
        b.grown_from(a),
        took_kept(a, b),
        explored_all(a, ls, n),
    ensures
        explored_all(b, ls, n),
{
    assert forall|j: int| 0 <= j < n implies explored(b, (#[trigger] ls[j]).state) by {
        explored_kept(a, b, ls[j].state);
    }
}

pub proof fn explored_end<N: Number>(b: &Store<N>, cs: int)
    requires
        0 <= cs < b.records.choice_states@.len(),
        rank(b.tree.net().nodes, b.records.choice_states@[cs].state@) is None,
    ensures
        explored(b, b.records.choice_states@[cs].state@),
{
    reveal(explored);
    let s = b.records.choice_states@[cs].state@;
    assert(b.records.states()[cs] == s);
    assert forall|x: Seq<i8>| #[trigger] reaches(b.tree, s, x) implies x == s by {}
}

pub proof fn explored_chosen<N: Number>(b: &Store<N>, cs: int)
    requires
        0 <= cs < b.records.choice_states@.len(),
        ({
            let t = b.tree;
            let s = b.records.choice_states@[cs].state@;
            let (l, h) = (
                reply(t, s, child_of(t, s, Branch::Low)),
                reply(t, s, child_of(t, s, Branch::High)),
            );
            &&& explored_all(b, l, l.len() as int)
            &&& explored_all(b, h, h.len() as int)
            &&& b.took(s, Branch::Low)
            &&& b.took(s, Branch::High)
        }),
    ensures
        explored(b, b.records.choice_states@[cs].state@),
{
    reveal(explored);
    let t = b.tree;
    let s = b.records.choice_states@[cs].state@;
    assert(b.records.states()[cs] == s);
    assert forall|x: Seq<i8>| #[trigger] reaches(t, s, x) implies {
        &&& b.records.states().contains(x)
        &&& rank(t.net().nodes, x) is Some ==> b.took(x, Branch::Low) && b.took(x, Branch::High)
    } by {
        if x != s {
            let (c, i) = choose|c: Branch, i: int|
                #[trigger] leads_to(t, s, c, i) && reaches(
                    t,
                    reply(t, s, child_of(t, s, c))[i].state,
                    x,
                );
            let ls = reply(t, s, child_of(t, s, c));
            assert(explored(b, ls[i].state)) by {
                match c {
                    Branch::Low => {},
                    Branch::High => {},
                }
            }
        }
    }
}

pub proof fn explored_met<N: Number>(b: &Store<N>)
    requires
        explored_all(b, opening(b.tree), opening(b.tree).len() as int),
    ensures
        met_all(b),
{
    reveal(explored);
    assert forall|x: Seq<i8>| #[trigger] reached_at_all(b.tree, x) implies b.records.states().contains(
        x,
    ) by {
        let ls = opening(b.tree);
        let j = choose|j: int| 0 <= j < ls.len() && #[trigger] reaches(b.tree, ls[j].state, x);
        assert(explored(b, ls[j].state));
    }
}

// ---------------------------------------------------------------------------
// the course of an exact pass
// ---------------------------------------------------------------------------

/// How far a pass has come: what the tables hold, and the choice states it is
/// done with.
pub struct Pass {
    pub lore: Lore,
    pub done: Set<Seq<i8>>,
}

/// Why a pass stops before its end.
pub enum Halt {
    /// A macro step has more outcomes than can be held.
    Wide,
    /// There are more choice states than the cap allows.
    Full,
}

/// What a pass may come to hold.
pub struct Caps {
    pub states: usize,
    pub outcomes: usize,
}

pub struct Visit {
    pub pass: Pass,
    pub halt: Option<Halt>,
}

/// A pass looks at a choice state, unless it is done with it: the low branch
/// first, and it stops where it first has to.
pub open spec fn visit_v<N: Number>(t: &Tree<N>, p: Pass, s: Seq<i8>, caps: Caps) -> Visit
    decreases t.net().work(s), 2nat, 0nat,
{
    if p.done.contains(s) {
        Visit { pass: p, halt: None }
    } else if p.lore.states.len() > caps.states {
        Visit { pass: p, halt: Some(Halt::Full) }
    } else if rank(t.net().nodes, s) is None {
        Visit { pass: Pass { done: p.done.insert(s), ..p }, halt: None }
    } else {
        let low = branch_visit(t, p, s, Branch::Low, caps);
        if low.halt is Some {
            low
        } else {
            let high = branch_visit(t, low.pass, s, Branch::High, caps);
            if high.halt is Some {
                high
            } else {
                Visit { pass: Pass { done: high.pass.done.insert(s), ..high.pass }, halt: None }
            }
        }
    }
}

/// A pass takes a macro step and looks at where its outcomes end.
pub open spec fn branch_visit<N: Number>(
    t: &Tree<N>,
    p: Pass,
    s: Seq<i8>,
    b: Branch,
    caps: Caps,
) -> Visit
    decreases t.net().work(s), 1nat, 0nat,
{
    let ls = reply(t, s, child_of(t, s, b));
    if !holdable(ls, caps.outcomes) {
        Visit { pass: p, halt: Some(Halt::Wide) }
    } else {
        visits_v(t, Pass { lore: step_lore(t, p.lore, s, b), ..p }, ls, caps, t.net().work(s))
    }
}

/// A pass looks at where these outcomes end, in their order. They end where less
/// than `work` is left.
pub open spec fn visits_v<N: Number>(
    t: &Tree<N>,
    p: Pass,
    ls: Seq<Leaf<N::Value>>,
    caps: Caps,
    work: nat,
) -> Visit
    decreases work, 0nat, ls.len(),
{
    if ls.len() == 0 {
        Visit { pass: p, halt: None }
    } else {
        let a = visits_v(t, p, ls.drop_last(), caps, work);
        if a.halt is None && t.net().work(ls.last().state) < work {
            visit_v(t, a.pass, ls.last().state, caps)
        } else {
            a
        }
    }
}

/// The whole of a pass over tables that hold this much.
pub open spec fn pass_v<N: Number>(t: &Tree<N>, lore: Lore, caps: Caps) -> Visit {
    let ls = opening(t);
    if !holdable(ls, caps.outcomes) {
        Visit { pass: Pass { lore, done: Set::empty() }, halt: Some(Halt::Wide) }
    } else {
        visits_v(
            t,
            Pass { lore: first_lore(t, lore), done: Set::empty() },
            ls,
            caps,
            t.net().work(t.net().initial()) + 1,
        )
    }
}

/// The error a pass that stopped is reported as.
pub open spec fn halted(e: ExactError, h: Option<Halt>, caps: Caps) -> bool {
    match h {
        None => false,
        Some(Halt::Wide) => e == ExactError::Step(StepError::TooManyOutcomes(caps.outcomes)),
        Some(Halt::Full) => e == ExactError::TooManyStates(caps.states),
    }
}

/// A pass that stops at one of the first outcomes stops there.
proof fn visits_prefix<N: Number>(
    t: &Tree<N>,
    p: Pass,
    ls: Seq<Leaf<N::Value>>,
    caps: Caps,
    work: nat,
    n: int,
)
    requires
        0 <= n <= ls.len(),
        visits_v(t, p, ls.take(n), caps, work).halt is Some,
    ensures
        visits_v(t, p, ls, caps, work) == visits_v(t, p, ls.take(n), caps, work),
    decreases ls.len() - n,
{
    if n < ls.len() {
        assert(ls.take(n + 1).drop_last() =~= ls.take(n));
        visits_prefix(t, p, ls, caps, work, n + 1);
    } else {
        assert(ls.take(n) =~= ls);
    }
}

/// The outcomes the process opens with leave no more to do than its start.
pub proof fn opening_descends<N: Number>(t: &Tree<N>)
    requires
        t.wf(),
    ensures
        forall|i: int|
            0 <= i < opening(t).len() ==> valid(t.net().nodes, (#[trigger] opening(t)[i]).state)
                && stops(t, opening(t)[i].state) && t.net().work(opening(t)[i].state) <= t.net().work(
                t.net().initial(),
            ),
{
    initial_valid(t.net());
    forced_outcomes(t, t.net().initial(), Seq::empty(), zeros_v::<N>(t.k as nat), N::one_v());
    let ls = opening(t);
    assert forall|i: int| 0 <= i < ls.len() implies valid(t.net().nodes, (#[trigger] ls[i]).state)
        && stops(t, ls[i].state) && t.net().work(ls[i].state) <= t.net().work(t.net().initial()) by {
        assert(outcome_of(t, Seq::empty(), ls[i]));
    }
}

/// What a pass is done with holds what its macro steps lead to.
pub open spec fn closed<N: Number>(t: &Tree<N>, done: Set<Seq<i8>>) -> bool {
    forall|x: Seq<i8>, b: Branch, i: int|
        done.contains(x) && #[trigger] leads_to(t, x, b, i) ==> done.contains(
            reply(t, x, child_of(t, x, b))[i].state,
        )
}

proof fn closed_reaches<N: Number>(t: &Tree<N>, done: Set<Seq<i8>>, s: Seq<i8>, x: Seq<i8>)
    requires
        closed(t, done),
        done.contains(s),
        reaches(t, s, x),
    ensures
        done.contains(x),
    decreases t.net().work(s),
{
    if s != x {
        let (b, i) = choose|b: Branch, i: int|
            #[trigger] leads_to(t, s, b, i) && reaches(
                t,
                reply(t, s, child_of(t, s, b))[i].state,
                x,
            );
        closed_reaches(t, done, reply(t, s, child_of(t, s, b))[i].state, x);
    }
}

proof fn visit_closes<N: Number>(t: &Tree<N>, p: Pass, s: Seq<i8>, caps: Caps)
    requires
        t.wf(),
        closed(t, p.done),
        valid(t.net().nodes, s),
        stops(t, s),
    ensures
        closed(t, visit_v(t, p, s, caps).pass.done),
        p.done.subset_of(visit_v(t, p, s, caps).pass.done),
        visit_v(t, p, s, caps).halt is None ==> visit_v(t, p, s, caps).pass.done.contains(s),
    decreases t.net().work(s), 2nat, 0nat,
{
    let v = visit_v(t, p, s, caps);
    if !p.done.contains(s) && p.lore.states.len() <= caps.states && rank(t.net().nodes, s) is Some {
        let low = branch_visit(t, p, s, Branch::Low, caps);
        branch_closes(t, p, s, Branch::Low, caps);
        if low.halt is None {
            let high = branch_visit(t, low.pass, s, Branch::High, caps);
            branch_closes(t, low.pass, s, Branch::High, caps);
            if high.halt is None {
                assert forall|x: Seq<i8>, b: Branch, i: int|
                    v.pass.done.contains(x) && #[trigger] leads_to(t, x, b, i) implies v.pass.done.contains(
                    reply(t, x, child_of(t, x, b))[i].state,
                ) by {
                    if !high.pass.done.contains(x) {
                        let ls = reply(t, s, child_of(t, s, b));
                        match b {
                            Branch::Low => assert(low.pass.done.contains(ls[i].state)),
                            Branch::High => assert(high.pass.done.contains(ls[i].state)),
                        }
                    }
                }
            }
        }
    }
}

proof fn branch_closes<N: Number>(t: &Tree<N>, p: Pass, s: Seq<i8>, b: Branch, caps: Caps)
    requires
        t.wf(),
        closed(t, p.done),
        valid(t.net().nodes, s),
        stops(t, s),
        rank(t.net().nodes, s) is Some,
    ensures
        ({
            let v = branch_visit(t, p, s, b, caps);
            let ls = reply(t, s, child_of(t, s, b));
            &&& closed(t, v.pass.done)
            &&& p.done.subset_of(v.pass.done)
            &&& v.halt is None ==> forall|i: int|
                0 <= i < ls.len() ==> v.pass.done.contains((#[trigger] ls[i]).state)
        }),
    decreases t.net().work(s), 1nat, 0nat,
{
    let ls = reply(t, s, child_of(t, s, b));
    if holdable(ls, caps.outcomes) {
        reply_descends(t, s, b);
        visits_close(
            t,
            Pass { lore: step_lore(t, p.lore, s, b), ..p },
            ls,
            caps,
            t.net().work(s),
        );
    }
}

proof fn visits_close<N: Number>(
    t: &Tree<N>,
    p: Pass,
    ls: Seq<Leaf<N::Value>>,
    caps: Caps,
    work: nat,
)
    requires
        t.wf(),
        closed(t, p.done),
        forall|i: int|
            0 <= i < ls.len() ==> valid(t.net().nodes, (#[trigger] ls[i]).state) && stops(
                t,
                ls[i].state,
            ) && t.net().work(ls[i].state) < work,
    ensures
        ({
            let v = visits_v(t, p, ls, caps, work);
            &&& closed(t, v.pass.done)
            &&& p.done.subset_of(v.pass.done)
            &&& v.halt is None ==> forall|i: int|
                0 <= i < ls.len() ==> v.pass.done.contains((#[trigger] ls[i]).state)
        }),
    decreases work, 0nat, ls.len(),
{
    if ls.len() > 0 {
        let a = ls.drop_last();
        assert forall|i: int| 0 <= i < a.len() implies valid(t.net().nodes, (#[trigger] a[i]).state)
            && stops(t, a[i].state) && t.net().work(a[i].state) < work by {
            assert(a[i] == ls[i]);
        }
        visits_close(t, p, a, caps, work);
        let u = visits_v(t, p, a, caps, work);
        assert(ls[ls.len() - 1] == ls.last());
        if u.halt is None {
            visit_closes(t, u.pass, ls.last().state, caps);
            let v = visits_v(t, p, ls, caps, work);
            if v.halt is None {
                assert forall|i: int| 0 <= i < ls.len() implies v.pass.done.contains(
                    (#[trigger] ls[i]).state,
                ) by {
                    if i < a.len() {
                        assert(u.pass.done.contains(a[i].state));
                    }
                }
            }
        }
    }
}

/// What has been computed of the choice states so far.
pub struct Memo<N> {
    found: Vec<Option<(Vec<N>, Vec<N>)>>,
}

impl<N: Number> Memo<N> {
    /// Every entry is the two optima from its choice state, and nothing that can
    /// be reached from there is still to be met.
    pub closed spec fn inv(&self, store: &Store<N>) -> bool {
        &&& self.found@.len() <= store.records.choice_states@.len()
        &&& forall|i: int|
            0 <= i < self.found@.len() ==> (#[trigger] self.found@[i] matches Some(p) ==> {
                let s = store.records.choice_states@[i].state@;
                &&& vals(p.0@) == optimum_v(store.tree, s, false)
                &&& vals(p.1@) == optimum_v(store.tree, s, true)
                &&& narrow(store.tree, s, store.engine.max_outcomes)
                &&& explored(store, s)
            })
    }

    /// The choice state has been looked at.
    pub closed spec fn has(&self, cs: int) -> bool {
        0 <= cs < self.found@.len() && self.found@[cs] is Some
    }

    /// The choice states that have been looked at.
    pub open spec fn done(&self, store: &Store<N>) -> Set<Seq<i8>> {
        Set::new(
            |x: Seq<i8>|
                exists|i: int| self.has(i) && #[trigger] store.records.choice_states@[i].state@ == x,
        )
    }

    /// How far the pass has come.
    pub open spec fn pass(&self, store: &Store<N>) -> Pass {
        Pass { lore: store.lore(), done: self.done(store) }
    }

    proof fn inv_kept(&self, before: &Store<N>, store: &Store<N>)
        requires
            self.inv(before),
            store.grown_from(before),
            took_kept(before, store),
        ensures
            self.inv(store),
            self.done(store) == self.done(before),
    {
        assert forall|i: int| 0 <= i < self.found@.len() implies (
        #[trigger] self.found@[i] matches Some(p) ==> {
            let s = store.records.choice_states@[i].state@;
            &&& vals(p.0@) == optimum_v(store.tree, s, false)
            &&& vals(p.1@) == optimum_v(store.tree, s, true)
            &&& narrow(store.tree, s, store.engine.max_outcomes)
            &&& explored(store, s)
        }) by {
            assert(store.records.choice_states@[i] == before.records.choice_states@[i]);
            if self.found@[i] is Some {
                explored_kept(before, store, store.records.choice_states@[i].state@);
            }
        }
        assert forall|x: Seq<i8>| self.done(store).contains(x) == self.done(before).contains(x) by {
            if self.done(store).contains(x) {
                let i = choose|i: int|
                    self.has(i) && #[trigger] store.records.choice_states@[i].state@ == x;
                assert(before.records.choice_states@[i].state@ == x);
            }
            if self.done(before).contains(x) {
                let i = choose|i: int|
                    self.has(i) && #[trigger] before.records.choice_states@[i].state@ == x;
                assert(store.records.choice_states@[i].state@ == x);
            }
        }
        assert(self.done(store) =~= self.done(before));
    }

    /// A choice state is recorded once, so the place of it tells whether it has
    /// been looked at.
    proof fn done_has(&self, store: &Store<N>, cs: int)
        requires
            self.inv(store),
            store.inv(),
            0 <= cs < store.records.choice_states@.len(),
        ensures
            self.done(store).contains(store.records.choice_states@[cs].state@) == self.has(cs),
    {
        let all = store.records.choice_states@;
        let x = all[cs].state@;
        if self.done(store).contains(x) {
            let i = choose|i: int| self.has(i) && #[trigger] all[i].state@ == x;
            if i < cs {
                assert(all[i].state@ != all[cs].state@);
            } else if cs < i {
                assert(all[cs].state@ != all[i].state@);
            }
        }
        if self.has(cs) {
            assert(all[cs].state@ == x);
        }
    }

    pub fn new() -> (r: Memo<N>)
        ensures
            forall|store: Store<N>| #[trigger] r.inv(&store),
            forall|cs: int| !#[trigger] r.has(cs),
    {
        Memo { found: Vec::new() }
    }

    proof fn bounded(&self, store: &Store<N>)
        requires
            self.inv(store),
        ensures
            forall|cs: int| #[trigger] self.has(cs) ==> cs < store.records.choice_states@.len(),
    {
    }

    fn get(&self, cs: usize, Ghost(store): Ghost<Store<N>>) -> (r: Option<(Vec<N>, Vec<N>)>)
        requires
            self.inv(&store),
            store.inv(),
            cs < store.records.choice_states@.len(),
        ensures
            r is Some == self.has(cs as int),
            r is Some == self.done(&store).contains(store.records.choice_states@[cs as int].state@),
            r matches Some(p) ==> {
                let s = store.records.choice_states@[cs as int].state@;
                &&& vals(p.0@) == optimum_v(store.tree, s, false)
                &&& vals(p.1@) == optimum_v(store.tree, s, true)
                &&& narrow(store.tree, s, store.engine.max_outcomes)
                &&& explored(&store, s)
            },
    {
        proof {
            self.done_has(&store, cs as int);
        }
        if cs >= self.found.len() {
            return None;
        }
        match &self.found[cs] {
            Some(p) => Some((dup_vec(&p.0), dup_vec(&p.1))),
            None => None,
        }
    }

    fn put(&mut self, cs: usize, lo: &Vec<N>, hi: &Vec<N>, Ghost(store): Ghost<Store<N>>)
        requires
            old(self).inv(&store),
            cs < store.records.choice_states@.len(),
            vals(lo@) == optimum_v(
                store.tree,
                store.records.choice_states@[cs as int].state@,
                false,
            ),
            vals(hi@) == optimum_v(
                store.tree,
                store.records.choice_states@[cs as int].state@,
                true,
            ),
            narrow(
                store.tree,
                store.records.choice_states@[cs as int].state@,
                store.engine.max_outcomes,
            ),
            explored(&store, store.records.choice_states@[cs as int].state@),
        ensures
            final(self).inv(&store),
            final(self).done(&store) == old(self).done(&store).insert(
                store.records.choice_states@[cs as int].state@,
            ),
    {
        while self.found.len() <= cs
            invariant
                self.inv(&store),
                cs < store.records.choice_states@.len(),
                forall|j: int| #[trigger] self.has(j) == old(self).has(j),
            decreases cs + 1 - self.found@.len(),
        {
            let ghost before = *self;
            self.found.push(None);
            assert forall|j: int| #[trigger] self.has(j) == old(self).has(j) by {
                assert(before.has(j) == old(self).has(j));
            }
        }
        let ghost before = *self;
        self.found.set(cs, Some((dup_vec(lo), dup_vec(hi))));
        proof {
            let all = store.records.choice_states@;
            let s = all[cs as int].state@;
            assert forall|j: int| #[trigger] self.has(j) == (old(self).has(j) || j == cs) by {
                assert(before.has(j) == old(self).has(j));
            }
            assert forall|x: Seq<i8>| #[trigger] self.done(&store).contains(x) == (old(self).done(
                &store,
            ).contains(x) || x == s) by {
                if self.done(&store).contains(x) {
                    let i = choose|i: int| self.has(i) && #[trigger] all[i].state@ == x;
                    assert(self.has(i));
                }
                if old(self).done(&store).contains(x) {
                    let i = choose|i: int| old(self).has(i) && #[trigger] all[i].state@ == x;
                    assert(self.has(i) && all[i].state@ == x);
                }
                if x == s {
                    assert(self.has(cs as int) && all[cs as int].state@ == x);
                }
            }
            assert(self.done(&store) =~= old(self).done(&store).insert(s));
        }
    }
}

/// `a + p (i + v)`, entry by entry.
pub fn add_share<N: Number>(a: &Vec<N>, p: &N, i: &Vec<N>, v: &Vec<N>) -> (r: Vec<N>)
    requires
        a@.len() == i@.len(),
        a@.len() == v@.len(),
    ensures
        r@.len() == a@.len(),
        forall|c: int|
            0 <= c < r@.len() ==> (#[trigger] r@[c]).value() == N::plus_v(
                a@[c].value(),
                N::times_v(p.value(), N::plus_v(i@[c].value(), v@[c].value())),
            ),
{
    let mut r: Vec<N> = Vec::new();
    for c in 0..a.len()
        invariant
            a@.len() == i@.len(),
            a@.len() == v@.len(),
            r@.len() == c,
            forall|j: int|
                0 <= j < c ==> (#[trigger] r@[j]).value() == N::plus_v(
                    a@[j].value(),
                    N::times_v(p.value(), N::plus_v(i@[j].value(), v@[j].value())),
                ),
    {
        r.push(a[c].plus(&p.times(&i[c].plus(&v[c]))));
    }
    r
}

/// The larger, or the smaller, of two vectors, entry by entry.
fn extreme<N: Number>(up: bool, a: &Vec<N>, b: &Vec<N>) -> (r: Vec<N>)
    requires
        a@.len() == b@.len(),
    ensures
        vals(r@) =~= extreme_v::<N>(up, vals(a@), vals(b@)),
{
    let mut r: Vec<N> = Vec::new();
    for c in 0..a.len()
        invariant
            a@.len() == b@.len(),
            r@.len() == c,
            forall|j: int|
                0 <= j < c ==> (#[trigger] r@[j]).value() == (if up {
                    N::max_v(a@[j].value(), b@[j].value())
                } else {
                    N::min_v(a@[j].value(), b@[j].value())
                }),
    {
        r.push(
            if up {
                a[c].max(&b[c])
            } else {
                a[c].min(&b[c])
            },
        );
    }
    r
}

/// An exact pass gave up for a reason: a macro step too wide to hold, or more
/// choice states than the cap.
pub open spec fn gave_up<N: Number>(
    e: ExactError,
    store: &Store<N>,
    max_states: usize,
    wide: bool,
) -> bool {
    match e {
        ExactError::Step(x) => x == StepError::TooManyOutcomes(store.engine.max_outcomes) && wide,
        ExactError::TooManyStates(n) => n == max_states && store.records.choice_states@.len()
            > max_states,
    }
}

/// What a pass is held to.
pub open spec fn caps_of<N: Number>(store: &Store<N>, max_states: usize) -> Caps {
    Caps { states: max_states, outcomes: store.engine.max_outcomes }
}

/// The least and the greatest expected impact still to be paid from a choice
/// state, each component optimised on its own, as a per-component question is.
#[verifier::rlimit(40)]
fn value<N: Number>(
    store: &mut Store<N>,
    cs: usize,
    memo: &mut Memo<N>,
    max_states: usize,
) -> (r: Result<(Vec<N>, Vec<N>), ExactError>)
    requires
        old(store).inv(),
        old(memo).inv(old(store)),
        cs < old(store).records.choice_states@.len(),
    ensures
        final(store).inv(),
        final(store).grown_from(old(store)),
        final(memo).inv(final(store)),
        took_kept(old(store), final(store)),
        adds_from(old(store), final(store), old(store).records.choice_states@[cs as int].state@),
        ({
            let s = old(store).records.choice_states@[cs as int].state@;
            let v = visit_v(
                old(store).tree,
                old(memo).pass(old(store)),
                s,
                caps_of(old(store), max_states),
            );
            &&& final(memo).pass(final(store)) == v.pass
            &&& r is Ok == v.halt is None
            &&& r matches Err(e) ==> halted(e, v.halt, caps_of(old(store), max_states))
        }),
        match r {
            Ok(p) => {
                let s = old(store).records.choice_states@[cs as int].state@;
                &&& vals(p.0@) == optimum_v(old(store).tree, s, false)
                &&& vals(p.1@) == optimum_v(old(store).tree, s, true)
                &&& narrow(old(store).tree, s, old(store).engine.max_outcomes)
                &&& explored(final(store), s)
                &&& old(store).records.choice_states@.len() <= max_states || !old(memo).has(cs as int)
                    ==> final(store).records.choice_states@.len() <= max_states
            },
            Err(e) => gave_up(
                e,
                final(store),
                max_states,
                !narrow(
                    old(store).tree,
                    old(store).records.choice_states@[cs as int].state@,
                    old(store).engine.max_outcomes,
                ),
            ),
        },
        old(memo).has(cs as int) ==> *final(store) == *old(store) && *final(memo) == *old(memo),
    decreases old(store).tree.net().work(old(store).records.choice_states@[cs as int].state@), 1nat,
{
    let tree = store.tree;
    let ghost s = store.records.choice_states@[cs as int].state@;
    proof {
        adds_none(store, s);
    }
    if let Some(found) = memo.get(cs, Ghost(*store)) {
        return Ok(found);
    }
    assert(store.lore().states.len() == store.records.choice_states@.len());
    if store.cs_made() > max_states {
        return Err(ExactError::TooManyStates(max_states));
    }
    assert(store.cs_true(cs as int));
    if store.choice_state(cs).is_final() {
        let lo: Vec<N> = zeros(tree.k);
        let hi: Vec<N> = zeros(tree.k);
        proof {
            reveal(narrow);
            explored_end(store, cs as int);
        }
        memo.put(cs, &lo, &hi, Ghost(*store));
        return Ok((lo, hi));
    }
    let ghost start = *store;
    proof {
        narrow_chosen(tree, s, store.engine.max_outcomes);
    }
    let (lo_a, hi_a) = match branch_value(store, cs, Branch::Low, memo, max_states) {
        Ok(p) => p,
        Err(e) => {
            return Err(e);
        },
    };
    let ghost mid = *store;
    assert(store.records.choice_states@[cs as int] == start.records.choice_states@[cs as int]);
    let (lo_b, hi_b) = match branch_value(store, cs, Branch::High, memo, max_states) {
        Ok(p) => p,
        Err(e) => {
            proof {
                adds_more(&start, &mid, store, s);
            }
            return Err(e);
        },
    };
    assert(store.records.choice_states@[cs as int] == mid.records.choice_states@[cs as int]);
    proof {
        optimum_chosen(tree, s, false);
        optimum_chosen(tree, s, true);
        adds_more(&start, &mid, store, s);
        let low = reply(tree, s, child_of(tree, s, Branch::Low));
        explored_all_kept(&mid, store, low, low.len() as int);
        explored_chosen(store, cs as int);
    }
    let lo = extreme(false, &lo_a, &lo_b);
    let hi = extreme(true, &hi_a, &hi_b);
    memo.put(cs, &lo, &hi, Ghost(*store));
    Ok((lo, hi))
}

/// What one branch of a choice gives, at least and at most.
#[verifier::rlimit(60)]
fn branch_value<N: Number>(
    store: &mut Store<N>,
    cs: usize,
    branch: Branch,
    memo: &mut Memo<N>,
    max_states: usize,
) -> (r: Result<(Vec<N>, Vec<N>), ExactError>)
    requires
        old(store).inv(),
        old(memo).inv(old(store)),
        cs < old(store).records.choice_states@.len(),
        old(store).records.choice_states@[cs as int].stop != Stop::Final,
        old(store).records.choice_states@.len() <= max_states,
    ensures
        final(store).inv(),
        final(store).grown_from(old(store)),
        final(memo).inv(final(store)),
        took_kept(old(store), final(store)),
        adds_from(old(store), final(store), old(store).records.choice_states@[cs as int].state@),
        ({
            let s = old(store).records.choice_states@[cs as int].state@;
            let v = branch_visit(
                old(store).tree,
                old(memo).pass(old(store)),
                s,
                branch,
                caps_of(old(store), max_states),
            );
            &&& final(memo).pass(final(store)) == v.pass
            &&& r is Ok == v.halt is None
            &&& r matches Err(e) ==> halted(e, v.halt, caps_of(old(store), max_states))
        }),
        r is Ok ==> final(store).records.choice_states@.len() <= max_states,
        match r {
            Ok(p) => {
                let s = old(store).records.choice_states@[cs as int].state@;
                let ls = reply(old(store).tree, s, child_of(old(store).tree, s, branch));
                &&& p.0@.len() == old(store).tree.k
                &&& p.1@.len() == old(store).tree.k
                &&& vals(p.0@) == mean_over(old(store).tree, ls, false)
                &&& vals(p.1@) == mean_over(old(store).tree, ls, true)
                &&& narrow_all(old(store).tree, ls, old(store).engine.max_outcomes)
                &&& explored_all(final(store), ls, ls.len() as int)
                &&& final(store).took(s, branch)
            },
            Err(e) => {
                let s = old(store).records.choice_states@[cs as int].state@;
                let ls = reply(old(store).tree, s, child_of(old(store).tree, s, branch));
                gave_up(
                    e,
                    final(store),
                    max_states,
                    !narrow_all(old(store).tree, ls, old(store).engine.max_outcomes),
                )
            },
        },
    decreases old(store).tree.net().work(old(store).records.choice_states@[cs as int].state@), 0nat,
{
    let tree = store.tree;
    let ghost s = store.records.choice_states@[cs as int].state@;
    let ghost start = *store;
    let ghost ls = reply(tree, s, child_of(tree, s, branch));
    assert(store.cs_true(cs as int));
    let x = match store.extensions(cs, branch) {
        Ok(x) => x,
        Err(e) => {
            proof {
                adds_none(store, s);
            }
            return Err(ExactError::Step(e));
        },
    };
    let ghost caps = caps_of(&start, max_states);
    let ghost p = Pass { lore: store.lore(), done: memo.done(&start) };
    proof {
        adds_step(&start, store, s, branch);
        memo.inv_kept(&start, store);
        reply_descends(tree, s, branch);
    }
    let n = store.records.extensions.get(x).len();
    let mut lo: Vec<N> = zeros(tree.k);
    let mut hi: Vec<N> = zeros(tree.k);
    let ghost es = store.records.extensions@[x as int]@;
    let ghost memo0 = *memo;
    let ghost new = choose|j: int|
        0 <= j < es.len() && (#[trigger] es[j]).cs >= start.records.choice_states@.len();
    proof {
        memo.bounded(&start);
        assert(visits_v(tree, p, ls.take(0), caps, tree.net().work(s)) == (Visit {
            pass: p,
            halt: None,
        })) by {
            assert(ls.take(0) =~= Seq::empty());
        }
        assert(store.records.outcomes(store.records.extensions@[x as int]@).len() == n);
        assert(ls.take(0) =~= Seq::empty());
    }
    for i in 0..n
        invariant
            store.inv(),
            store.grown_from(old(store)),
            memo.inv(store),
            took_kept(old(store), store),
            adds_from(old(store), store, s),
            explored_all(store, ls, i as int),
            store.took(s, branch),
            caps == caps_of(old(store), max_states),
            visits_v(tree, p, ls.take(i as int), caps, tree.net().work(s)) == (Visit {
                pass: memo.pass(store),
                halt: None,
            }),
            branch_visit(tree, old(memo).pass(old(store)), s, branch, caps) == visits_v(
                tree,
                p,
                ls,
                caps,
                tree.net().work(s),
            ),
            rank(tree.net().nodes, s) is Some,
            tree == store.tree,
            tree.wf(),
            tree == old(store).tree,
            s == old(store).records.choice_states@[cs as int].state@,
            ls == reply(tree, s, child_of(tree, s, branch)),
            x < store.records.extensions@.len(),
            store.extends(x as int, s, branch),
            n == ls.len(),
            n == store.records.extensions@[x as int]@.len(),
            lo@.len() == tree.k,
            hi@.len() == tree.k,
            vals(lo@) == mean_over(tree, ls.take(i as int), false),
            vals(hi@) == mean_over(tree, ls.take(i as int), true),
            es == store.records.extensions@[x as int]@,
            forall|j: int|
                0 <= j < i ==> narrow(tree, (#[trigger] ls[j]).state, store.engine.max_outcomes),
            store.records.choice_states@.len() <= max_states || (*memo == memo0 && i <= new < n
                && !memo0.has(es[new].cs as int)),
            forall|j: int|
                0 <= j < ls.len() ==> valid(tree.net().nodes, (#[trigger] ls[j]).state)
                    && tree.net().work(ls[j].state) < tree.net().work(s),
    {
        let ghost before = *store;
        let end = store.records.extensions.get(x)[i].cs;
        proof {
            assert(es[i as int].cs < store.records.choice_states@.len());
            assert(store.records.outcomes(es)[i as int] == ls[i as int]);
            assert(ls.take(i + 1).drop_last() =~= ls.take(i as int));
            assert(ls.take(i + 1).last() == ls[i as int]);
            assert(leads_to(tree, s, branch, i as int));
        }
        let (cl, ch) = match value(store, end, memo, max_states) {
            Ok(p) => p,
            Err(e) => {
                proof {
                    adds_below(&before, store, s, branch, i as int);
                    adds_more(old(store), &before, store, s);
                    visits_prefix(tree, p, ls, caps, tree.net().work(s), i + 1);
                }
                return Err(e);
            },
        };
        proof {
            adds_below(&before, store, s, branch, i as int);
            adds_more(old(store), &before, store, s);
            explored_all_kept(&before, store, ls, i as int);
            optimum_len(tree, ls[i as int].state, false);
            optimum_len(tree, ls[i as int].state, true);
            assert(vals(cl@).len() == cl@.len());
            assert(vals(ch@).len() == ch@.len());
            store.extends_kept(&before, x as int, s, branch);
        }
        let ext = &store.records.extensions.get(x)[i];
        assert(es[i as int].impact@.len() == tree.k);
        let ghost lo0 = vals(lo@);
        let ghost hi0 = vals(hi@);
        lo = add_share(&lo, &ext.prob, &ext.impact, &cl);
        hi = add_share(&hi, &ext.prob, &ext.impact, &ch);
        proof {
            let l = ls[i as int];
            assert(store.records.outcomes(es)[i as int] == l);
            assert(ls.take(i + 1).drop_last() =~= ls.take(i as int));
            assert(ls.take(i + 1).last() == l);
            assert(vals(lo@) =~= sum_v::<N>(
                lo0,
                share_v::<N>(l, optimum_v(tree, l.state, false)),
            ));
            assert(vals(hi@) =~= sum_v::<N>(
                hi0,
                share_v::<N>(l, optimum_v(tree, l.state, true)),
            ));
        }
    }
    assert(ls.take(n as int) =~= ls);
    Ok((lo, hi))
}

/// The least and the greatest expected impact of each component, over every
/// strategy, or the reason why the pass gave up: the first thing in its course
/// that passed a cap. What it records can be reached, and a pass that comes to
/// its end leaves nothing that can be reached unrecorded.
pub fn optima<N: Number>(store: &mut Store<N>, max_states: usize) -> (r: Result<
    Optima<N>,
    ExactError,
>)
    requires
        old(store).inv(),
    ensures
        final(store).inv(),
        final(store).grown_from(old(store)),
        met_only(old(store), final(store)),
        r is Ok ==> met_all(final(store)),
        ({
            let v = pass_v(old(store).tree, old(store).lore(), caps_of(old(store), max_states));
            &&& final(store).lore() == v.pass.lore
            &&& r is Ok == v.halt is None
            &&& r matches Err(e) ==> halted(e, v.halt, caps_of(old(store), max_states))
        }),
        match r {
            Ok(o) => {
                &&& vals(o.min@) == best_of(old(store).tree, false)
                &&& vals(o.max@) == best_of(old(store).tree, true)
                &&& narrow_all(
                    old(store).tree,
                    opening(old(store).tree),
                    old(store).engine.max_outcomes,
                )
                &&& final(store).records.choice_states@.len() <= max_states
            },
            Err(e) => gave_up(
                e,
                final(store),
                max_states,
                !narrow_all(
                    old(store).tree,
                    opening(old(store).tree),
                    old(store).engine.max_outcomes,
                ),
            ),
        },
{
    let tree = store.tree;
    let initial = match store.initial_histories() {
        Ok(v) => v,
        Err(e) => {
            return Err(ExactError::Step(e));
        },
    };
    let ghost start = *store;
    let ghost ls = opening(tree);
    let ghost caps = caps_of(old(store), max_states);
    let ghost work = tree.net().work(tree.net().initial()) + 1;
    let ghost p = Pass { lore: store.lore(), done: Set::empty() };
    proof {
        adds_first(old(store), store);
        opening_descends(tree);
    }
    let mut memo: Memo<N> = Memo::new();
    let mut min: Vec<N> = zeros(tree.k);
    let mut max: Vec<N> = zeros(tree.k);
    proof {
        assert(memo.inv(&*store));
        assert(memo.done(store) =~= Set::empty());
        assert(ls.take(0) =~= Seq::empty());
        assert(store.records.paths(initial@).len() == initial@.len());
    }
    for i in 0..initial.len()
        invariant
            store.inv(),
            store.grown_from(&start),
            store.grown_from(old(store)),
            start.inv(),
            memo.inv(store),
            met_only(old(store), store),
            explored_all(store, ls, i as int),
            caps == caps_of(old(store), max_states),
            visits_v(tree, p, ls.take(i as int), caps, work) == (Visit {
                pass: memo.pass(store),
                halt: None,
            }),
            pass_v(old(store).tree, old(store).lore(), caps) == visits_v(tree, p, ls, caps, work),
            forall|j: int| 0 <= j < ls.len() ==> tree.net().work((#[trigger] ls[j]).state) < work,
            tree == store.tree,
            tree == start.tree,
            ls == opening(tree),
            start.records.holds(initial@),
            start.records.paths(initial@) == ls,
            initial@.len() == ls.len(),
            min@.len() == tree.k,
            max@.len() == tree.k,
            vals(min@) == mean_over(tree, ls.take(i as int), false),
            vals(max@) == mean_over(tree, ls.take(i as int), true),
            holdable(ls, store.engine.max_outcomes),
            forall|j: int|
                0 <= j < i ==> narrow(tree, (#[trigger] ls[j]).state, store.engine.max_outcomes),
            i == 0 ==> forall|c: int| !#[trigger] memo.has(c),
            i > 0 ==> store.records.choice_states@.len() <= max_states,
    {
        let at = initial[i];
        let ghost l = ls[i as int];
        proof {
            store.leaf_kept(&start, at as int);
            assert(start.records.paths(initial@)[i as int] == l);
            assert(store.hist_true(at as int));
            assert(ls.take(i + 1).drop_last() =~= ls.take(i as int));
            assert(ls.take(i + 1).last() == l);
        }
        let cs = store.history(at).cs;
        let ghost before = *store;
        let (lo, hi) = match value(store, cs, &mut memo, max_states) {
            Ok(p) => p,
            Err(e) => {
                proof {
                    adds_to_met(&before, store, i as int);
                    met_more(old(store), &before, store);
                    visits_prefix(tree, p, ls, caps, work, i + 1);
                }
                return Err(e);
            },
        };
        proof {
            adds_to_met(&before, store, i as int);
            met_more(old(store), &before, store);
            explored_all_kept(&before, store, ls, i as int);
            optimum_len(tree, l.state, false);
            optimum_len(tree, l.state, true);
            assert(vals(lo@).len() == lo@.len());
            assert(vals(hi@).len() == hi@.len());
            store.leaf_kept(&before, at as int);
            assert(store.hist_true(at as int));
        }
        let h = store.history(at);
        let ghost min0 = vals(min@);
        let ghost max0 = vals(max@);
        min = add_share(&min, &h.prob, &h.impact, &lo);
        max = add_share(&max, &h.prob, &h.impact, &hi);
        proof {
            assert(ls.take(i + 1).drop_last() =~= ls.take(i as int));
            assert(ls.take(i + 1).last() == l);
            assert(vals(min@) =~= sum_v::<N>(
                min0,
                share_v::<N>(l, optimum_v(tree, l.state, false)),
            ));
            assert(vals(max@) =~= sum_v::<N>(
                max0,
                share_v::<N>(l, optimum_v(tree, l.state, true)),
            ));
        }
    }
    proof {
        assert(ls.take(ls.len() as int) =~= ls);
        explored_met(store);
        initial_valid(tree.net());
        forced_some(
            tree,
            tree.net().initial(),
            Seq::empty(),
            zeros_v::<N>(tree.k as nat),
            N::one_v(),
        );
    }
    Ok(Optima { min, max })
}

// ---------------------------------------------------------------------------
// how tight the bounds are
// ---------------------------------------------------------------------------

/// The states of a list of choice states.
pub open spec fn states_of<N: Number>(store: &Store<N>, at: Seq<usize>) -> Seq<Seq<i8>> {
    Seq::new(at.len(), |i: int| store.records.choice_states@[at[i] as int].state@)
}

/// A list of states, each once, that holds exactly those that can be reached
/// from `s`.
pub open spec fn gathers<N: Number>(t: &Tree<N>, seen: Seq<Seq<i8>>, s: Seq<i8>) -> bool {
    &&& seen.no_duplicates()
    &&& forall|x: Seq<i8>| seen.contains(x) <==> #[trigger] reaches(t, s, x)
}

/// Every state a macro step out of `s` ends in is among these.
spec fn covered<N: Number>(t: &Tree<N>, seen: Seq<Seq<i8>>, s: Seq<i8>, b: Branch, n: int) -> bool {
    forall|i: int|
        0 <= i < n && #[trigger] leads_to(t, s, b, i) ==> seen.contains(
            reply(t, s, child_of(t, s, b))[i].state,
        )
}

proof fn covered_reaches<N: Number>(t: &Tree<N>, seen: Seq<Seq<i8>>, s: Seq<i8>, x: Seq<i8>)
    requires
        seen.contains(s),
        reaches(t, s, x),
        forall|j: int, b: Branch|
            0 <= j < seen.len() ==> #[trigger] covered(
                t,
                seen,
                seen[j],
                b,
                reply(t, seen[j], child_of(t, seen[j], b)).len() as int,
            ),
    ensures
        seen.contains(x),
    decreases t.net().work(s),
{
    if s != x {
        let (b, i) = choose|b: Branch, i: int|
            #[trigger] leads_to(t, s, b, i) && reaches(
                t,
                reply(t, s, child_of(t, s, b))[i].state,
                x,
            );
        let j = seen.index_of(s);
        assert(covered(
            t,
            seen,
            seen[j],
            b,
            reply(t, seen[j], child_of(t, seen[j], b)).len() as int,
        ));
        covered_reaches(t, seen, reply(t, s, child_of(t, s, b))[i].state, x);
    }
}

/// The number of choice states below one, met again as often as they are.
spec fn below<N: Number>(t: &Tree<N>, s: Seq<i8>) -> nat
    decreases t.net().work(s), 1nat, 0nat,
{
    if rank(t.net().nodes, s) is None {
        1
    } else {
        1 + below_all(t, reply(t, s, child_of(t, s, Branch::Low)), t.net().work(s)) + below_all(
            t,
            reply(t, s, child_of(t, s, Branch::High)),
            t.net().work(s),
        )
    }
}

spec fn below_all<N: Number>(t: &Tree<N>, ls: Seq<Leaf<N::Value>>, work: nat) -> nat
    decreases work, 0nat, ls.len(),
{
    if ls.len() == 0 {
        0
    } else {
        below_all(t, ls.drop_last(), work) + if t.net().work(ls.last().state) < work {
            below(t, ls.last().state)
        } else {
            0
        }
    }
}

spec fn below_each<N: Number>(t: &Tree<N>) -> spec_fn(Seq<i8>) -> nat {
    |s: Seq<i8>| below(t, s)
}

/// Which choice states a walk has met.
struct Marks {
    met: Vec<bool>,
}

impl Marks {
    spec fn has(&self, i: int) -> bool {
        0 <= i < self.met@.len() && self.met@[i]
    }

    fn new() -> (r: Marks)
        ensures
            forall|i: int| !#[trigger] r.has(i),
    {
        Marks { met: Vec::new() }
    }

    /// Marks a choice state, and answers whether it had not been marked.
    fn insert(&mut self, i: usize) -> (r: bool)
        requires
            i < usize::MAX,
        ensures
            r == !old(self).has(i as int),
            forall|j: int| #[trigger] final(self).has(j) == (old(self).has(j) || j == i),
    {
        while self.met.len() <= i
            invariant
                i < usize::MAX,
                forall|j: int| #[trigger] self.has(j) == old(self).has(j),
            decreases i + 1 - self.met@.len(),
        {
            let ghost before = *self;
            self.met.push(false);
            assert forall|j: int| #[trigger] self.has(j) == old(self).has(j) by {
                assert(before.has(j) == old(self).has(j));
            }
        }
        let fresh = !self.met[i];
        let ghost before = *self;
        assert(before.has(i as int) == !fresh);
        self.met.set(i, true);
        assert forall|j: int| #[trigger] self.has(j) == (old(self).has(j) || j == i) by {
            assert(before.has(j) == old(self).has(j));
        }
        fresh
    }
}

/// A walk from `s`: choice states that can be reached from it, each once, all of
/// them marked and nothing else.
spec fn walk<N: Number>(store: &Store<N>, out: Seq<usize>, seen: Marks, s: Seq<i8>) -> bool {
    &&& forall|i: int| 0 <= i < out.len() ==> #[trigger] out[i] < store.records.choice_states@.len()
    &&& forall|i: int, j: int| 0 <= i < j < out.len() ==> out[i] != out[j]
    &&& forall|i: int| 0 <= i < out.len() ==> seen.has(#[trigger] out[i] as int)
    &&& forall|q: int| #[trigger] seen.has(q) ==> out.contains(q as usize) && 0 <= q <= usize::MAX
    &&& forall|i: int|
        0 <= i < out.len() ==> reaches(
            store.tree,
            s,
            store.records.choice_states@[#[trigger] out[i] as int].state@,
        )
}

/// The place of a choice state tells whether a macro step out of it has been
/// taken.
proof fn taken_at<N: Number>(store: &Store<N>, cs: int, b: Branch)
    requires
        store.inv(),
        0 <= cs < store.records.choice_states@.len(),
        store.took(store.records.choice_states@[cs].state@, b),
    ensures
        store.cs_memo(b)[cs] is Some,
{
    let all = store.records.choice_states@;
    let i = choose|i: int|
        0 <= i < all.len() && #[trigger] all[i].state@ == all[cs].state@ && store.cs_memo(b)[i] is Some;
    if i < cs {
        assert(all[i].state@ != all[cs].state@);
    } else if cs < i {
        assert(all[cs].state@ != all[i].state@);
    }
}

/// Meets the choice states one branch of a choice leads to. Nothing is left to
/// be recorded.
fn collect_branch<N: Number>(
    store: &mut Store<N>,
    cs: usize,
    branch: Branch,
    out: &mut Vec<usize>,
    seen: &mut Marks,
    Ghost(s0): Ghost<Seq<i8>>,
) -> (r: Result<(), StepError>)
    requires
        old(store).inv(),
        cs < old(store).records.choice_states@.len(),
        old(store).records.choice_states@[cs as int].stop != Stop::Final,
        walk(old(store), old(out)@, *old(seen), s0),
        reaches(old(store).tree, s0, old(store).records.choice_states@[cs as int].state@),
        explored(old(store), s0),
    ensures
        *final(store) == *old(store),
        r is Ok,
        ({
            let t = old(store).tree;
            let s = old(store).records.choice_states@[cs as int].state@;
            let ls = reply(t, s, child_of(t, s, branch));
            let (a, b) = (old(out)@, final(out)@);
            &&& walk(old(store), b, *final(seen), s0)
            &&& a.len() <= b.len()
            &&& b.take(a.len() as int) == a
            &&& covered(t, states_of(old(store), b), s, branch, ls.len() as int)
            &&& total(states_of(old(store), b), below_each(t)) <= total(
                states_of(old(store), a),
                below_each(t),
            ) + below_all(t, ls, t.net().work(s))
        }),
{
    let ghost s = store.records.choice_states@[cs as int].state@;
    let tree = store.tree;
    let ghost start = *store;
    let ghost ls = reply(tree, s, child_of(tree, s, branch));
    let ghost a = out@;
    assert(store.cs_true(cs as int));
    proof {
        reveal(explored);
        assert(store.took(s, branch)) by {
            match branch {
                Branch::Low => {},
                Branch::High => {},
            }
        }
        taken_at(store, cs as int, branch);
    }
    let x = match store.extensions(cs, branch) {
        Ok(x) => x,
        Err(e) => {
            return Err(e);
        },
    };
    proof {
        assert(*store == start);
        reply_descends(tree, s, branch);
        assert(out@.take(a.len() as int) =~= a);
        assert(ls.take(0) =~= Seq::empty());
    }
    let n = store.records.extensions.get(x).len();
    let made = store.cs_made();
    let ghost es = store.records.extensions@[x as int]@;
    assert(store.records.outcomes(es).len() == n);
    for i in 0..n
        invariant
            n == ls.len(),
            store.inv(),
            *store == start,
            tree == store.tree,
            made == store.records.choice_states@.len(),
            x < store.records.extensions@.len(),
            store.extends(x as int, s, branch),
            n == store.records.extensions@[x as int]@.len(),
            ls == reply(tree, s, child_of(tree, s, branch)),
            rank(tree.net().nodes, s) is Some,
            reaches(tree, s0, s),
            forall|j: int|
                0 <= j < ls.len() ==> valid(tree.net().nodes, (#[trigger] ls[j]).state)
                    && tree.net().work(ls[j].state) < tree.net().work(s),
            walk(store, out@, *seen, s0),
            a.len() <= out@.len(),
            out@.take(a.len() as int) == a,
            covered(tree, states_of(store, out@), s, branch, i as int),
            es == store.records.extensions@[x as int]@,
            total(states_of(store, out@), below_each(tree)) <= total(
                states_of(store, a),
                below_each(tree),
            ) + below_all(tree, ls.take(i as int), tree.net().work(s)),
    {
        let end = store.records.extensions.get(x)[i].cs;
        let ghost before = out@;
        let ghost seen0 = *seen;
        let ghost st0 = states_of(store, before);
        let ghost y = ls[i as int].state;
        proof {
            assert(es[i as int].cs < store.records.choice_states@.len());
            assert(store.records.outcomes(es)[i as int] == ls[i as int]);
            assert(leads_to(tree, s, branch, i as int));
            reaches_on(tree, s0, s, branch, i as int);
            assert(ls.take(i + 1).drop_last() =~= ls.take(i as int));
            assert(ls.take(i + 1).last() == ls[i as int]);
        }
        if seen.insert(end) {
            out.push(end);
            proof {
                assert(states_of(store, out@) =~= st0.push(y));
                total_push(st0, y, below_each(tree));
                assert(out@[before.len() as int] == end);
                assert forall|q: int| #[trigger] seen.has(q) implies out@.contains(q as usize)
                    && 0 <= q <= usize::MAX by {
                    if seen0.has(q) {
                        let j = before.index_of(q as usize);
                        assert(out@[j] == q as usize);
                    } else {
                        assert(out@[before.len() as int] == q as usize);
                    }
                }
                assert forall|j: int, k: int| 0 <= j < k < out@.len() implies out@[j] != out@[k] by {
                    if k == before.len() {
                        assert(seen0.has(before[j] as int));
                    }
                }
                assert forall|j: int| 0 <= j < out@.len() implies seen.has(
                    #[trigger] out@[j] as int,
                ) by {
                    if j < before.len() {
                        assert(seen0.has(before[j] as int));
                    }
                }
                assert(out@.take(a.len() as int) =~= before.take(a.len() as int));
            }
        } else {
            proof {
                assert(seen0.has(end as int));
                let j = before.index_of(end);
                assert(st0[j] == y);
                assert forall|q: int| #[trigger] seen.has(q) implies out@.contains(q as usize)
                    && 0 <= q <= usize::MAX by {
                    assert(seen0.has(q));
                }
                assert forall|j: int| 0 <= j < out@.len() implies seen.has(
                    #[trigger] out@[j] as int,
                ) by {
                    assert(seen0.has(before[j] as int));
                }
            }
        }
        proof {
            let st = states_of(store, out@);
            assert forall|j: int|
                0 <= j < i + 1 && #[trigger] leads_to(tree, s, branch, j) implies st.contains(
                ls[j].state,
            ) by {
                if j < i {
                    assert(st0.contains(ls[j].state));
                    let q = st0.index_of(ls[j].state);
                    assert(st[q] == ls[j].state);
                } else if out@.len() > before.len() {
                    assert(st[before.len() as int] == y);
                } else {
                    let q = before.index_of(end);
                    assert(st[q] == y);
                }
            }
        }
    }
    proof {
        assert(ls.take(n as int) =~= ls);
    }
    Ok(())
}

/// Every choice state that can be reached from one, each once. Nothing is left
/// to be recorded.
#[verifier::rlimit(40)]
fn collect<N: Number>(store: &mut Store<N>, cs: usize) -> (r: Result<Vec<usize>, StepError>)
    requires
        old(store).inv(),
        cs < old(store).records.choice_states@.len(),
        explored(old(store), old(store).records.choice_states@[cs as int].state@),
    ensures
        *final(store) == *old(store),
        r is Ok,
        r matches Ok(out) ==> {
            &&& forall|i: int|
                0 <= i < out@.len() ==> #[trigger] out@[i] < old(store).records.choice_states@.len()
            &&& gathers(
                old(store).tree,
                states_of(old(store), out@),
                old(store).records.choice_states@[cs as int].state@,
            )
        },
{
    let ghost s0 = store.records.choice_states@[cs as int].state@;
    let tree = store.tree;
    let mut out: Vec<usize> = Vec::new();
    let mut seen = Marks::new();
    let _made = store.cs_made();
    seen.insert(cs);
    out.push(cs);
    let mut i: usize = 0;
    proof {
        assert(out@[0] == cs);
        assert(walk(store, out@, seen, s0));
        assert(out@.skip(0) =~= out@);
    }
    while i < out.len()
        invariant
            i <= out@.len(),
            store.inv(),
            *store == *old(store),
            tree == store.tree,
            cs < store.records.choice_states@.len(),
            s0 == store.records.choice_states@[cs as int].state@,
            explored(store, s0),
            walk(store, out@, seen, s0),
            out@.len() > 0,
            out@[0] == cs,
            forall|j: int, b: Branch|
                0 <= j < i ==> #[trigger] covered(
                    tree,
                    states_of(store, out@),
                    states_of(store, out@)[j],
                    b,
                    reply(
                        tree,
                        states_of(store, out@)[j],
                        child_of(tree, states_of(store, out@)[j], b),
                    ).len() as int,
                ),
        decreases total(states_of(store, out@).skip(i as int), below_each(tree)),
    {
        let at = out[i];
        let ghost out0 = out@;
        let ghost s = store.records.choice_states@[at as int].state@;
        let ghost st0 = states_of(store, out0);
        assert(store.cs_true(at as int));
        if !store.choice_state(at).is_final() {
            match collect_branch(store, at, Branch::Low, &mut out, &mut seen, Ghost(s0)) {
                Ok(()) => {},
                Err(e) => {
                    return Err(e);
                },
            }
            let ghost out1 = out@;
            match collect_branch(store, at, Branch::High, &mut out, &mut seen, Ghost(s0)) {
                Ok(()) => {},
                Err(e) => {
                    return Err(e);
                },
            }
            proof {
                walk_on(store, out0, out1, out@, i as int);
            }
        } else {
            proof {
                walk_end(tree, st0, i as int);
            }
        }
        i = i + 1;
    }
    proof {
        let st = states_of(store, out@);
        assert(st.no_duplicates()) by {
            assert forall|j: int, k: int| 0 <= j < st.len() && 0 <= k < st.len() && j != k implies st[j]
                != st[k] by {
                let (a, b) = (out@[j] as int, out@[k] as int);
                assert(a != b);
                let cs = store.records.choice_states@;
                if a < b {
                    assert(cs[a].state@ != cs[b].state@);
                } else {
                    assert(cs[b].state@ != cs[a].state@);
                }
            }
        }
        assert(st[0] == s0);
        assert forall|x: Seq<i8>| st.contains(x) <==> #[trigger] reaches(tree, s0, x) by {
            if st.contains(x) {
                let j = st.index_of(x);
                assert(reaches(tree, s0, store.records.choice_states@[out@[j] as int].state@));
            }
            if reaches(tree, s0, x) {
                covered_reaches(tree, st, s0, x);
            }
        }
    }
    Ok(out)
}

proof fn same_states<N: Number>(before: &Store<N>, store: &Store<N>, out: Seq<usize>)
    requires
        store.grown_from(before),
        forall|i: int| 0 <= i < out.len() ==> #[trigger] out[i] < before.records.choice_states@.len(),
    ensures
        states_of(store, out) == states_of(before, out),
{
    assert forall|i: int| 0 <= i < out.len() implies #[trigger] states_of(store, out)[i] == states_of(
        before,
        out,
    )[i] by {
        assert(store.records.choice_states@[out[i] as int]
            == before.records.choice_states@[out[i] as int]);
    }
    assert(states_of(store, out) =~= states_of(before, out));
}

proof fn covered_more<N: Number>(
    t: &Tree<N>,
    a: Seq<Seq<i8>>,
    b: Seq<Seq<i8>>,
    s: Seq<i8>,
    br: Branch,
    n: int,
)
    requires
        covered(t, a, s, br, n),
        a.len() <= b.len(),
        b.take(a.len() as int) == a,
    ensures
        covered(t, b, s, br, n),
{
    assert forall|i: int| 0 <= i < n && #[trigger] leads_to(t, s, br, i) implies b.contains(
        reply(t, s, child_of(t, s, br))[i].state,
    ) by {
        let x = reply(t, s, child_of(t, s, br))[i].state;
        assert(a.contains(x));
        let j = a.index_of(x);
        assert(b.take(a.len() as int)[j] == b[j]);
    }
}

proof fn total_skip(s: Seq<Seq<i8>>, i: int, f: spec_fn(Seq<i8>) -> nat)
    requires
        0 <= i < s.len(),
    ensures
        total(s.skip(i), f) == f(s[i]) + total(s.skip(i + 1), f),
{
    let r = s.skip(i);
    total_first(r, f);
    assert(r.subrange(1, r.len() as int) =~= s.skip(i + 1));
}

proof fn total_split(s: Seq<Seq<i8>>, i: int, f: spec_fn(Seq<i8>) -> nat)
    requires
        0 <= i <= s.len(),
    ensures
        total(s, f) == total(s.take(i), f) + total(s.skip(i), f),
    decreases s.len() - i,
{
    if i == s.len() {
        assert(s.take(i) =~= s);
        assert(s.skip(i) =~= Seq::empty());
    } else {
        total_split(s, i + 1, f);
        total_skip(s, i, f);
        assert(s.take(i + 1) =~= s.take(i).push(s[i]));
        total_push(s.take(i), s[i], f);
    }
}

/// One choice state walked through: what it leads to has been met, and less is
/// left to walk.
proof fn walk_step<N: Number>(
    t: &Tree<N>,
    st0: Seq<Seq<i8>>,
    st1: Seq<Seq<i8>>,
    st2: Seq<Seq<i8>>,
    i: int,
)
    requires
        0 <= i < st0.len(),
        st0.len() <= st1.len() <= st2.len(),
        st1.take(st0.len() as int) == st0,
        st2.take(st1.len() as int) == st1,
        rank(t.net().nodes, st0[i]) is Some,
        covered(
            t,
            st1,
            st0[i],
            Branch::Low,
            reply(t, st0[i], child_of(t, st0[i], Branch::Low)).len() as int,
        ),
        covered(
            t,
            st2,
            st0[i],
            Branch::High,
            reply(t, st0[i], child_of(t, st0[i], Branch::High)).len() as int,
        ),
        total(st1, below_each(t)) <= total(st0, below_each(t)) + below_all(
            t,
            reply(t, st0[i], child_of(t, st0[i], Branch::Low)),
            t.net().work(st0[i]),
        ),
        total(st2, below_each(t)) <= total(st1, below_each(t)) + below_all(
            t,
            reply(t, st0[i], child_of(t, st0[i], Branch::High)),
            t.net().work(st0[i]),
        ),
        forall|j: int, b: Branch|
            0 <= j < i ==> #[trigger] covered(
                t,
                st0,
                st0[j],
                b,
                reply(t, st0[j], child_of(t, st0[j], b)).len() as int,
            ),
    ensures
        forall|j: int, b: Branch|
            0 <= j < i + 1 ==> #[trigger] covered(
                t,
                st2,
                st2[j],
                b,
                reply(t, st2[j], child_of(t, st2[j], b)).len() as int,
            ),
        total(st2.skip(i + 1), below_each(t)) < total(st0.skip(i), below_each(t)),
{
    let f = below_each(t);
    assert(st2.take(st0.len() as int) =~= st0) by {
        assert forall|j: int| 0 <= j < st0.len() implies st2[j] == st0[j] by {
            assert(st2.take(st1.len() as int)[j] == st1[j]);
            assert(st1.take(st0.len() as int)[j] == st0[j]);
        }
    }
    assert forall|j: int| 0 <= j < st0.len() implies st2[j] == st0[j] by {
        assert(st2.take(st0.len() as int)[j] == st0[j]);
    }
    assert forall|j: int, b: Branch| 0 <= j < i + 1 implies #[trigger] covered(
        t,
        st2,
        st2[j],
        b,
        reply(t, st2[j], child_of(t, st2[j], b)).len() as int,
    ) by {
        let n = reply(t, st2[j], child_of(t, st2[j], b)).len() as int;
        if j < i {
            assert(covered(t, st0, st0[j], b, n));
            covered_more(t, st0, st2, st0[j], b, n);
        } else if b == Branch::Low {
            covered_more(t, st1, st2, st0[i], b, n);
        }
    }
    total_split(st2, i, f);
    total_split(st0, i, f);
    total_skip(st2, i, f);
    assert(st2.take(i) =~= st0.take(i));
}

/// Both branches of one choice state walked through.
proof fn walk_on<N: Number>(
    store: &Store<N>,
    out0: Seq<usize>,
    out1: Seq<usize>,
    out2: Seq<usize>,
    i: int,
)
    requires
        0 <= i < out0.len(),
        out0.len() <= out1.len() <= out2.len(),
        out1.take(out0.len() as int) == out0,
        out2.take(out1.len() as int) == out1,
        rank(store.tree.net().nodes, states_of(store, out0)[i]) is Some,
        ({
            let t = store.tree;
            let s = states_of(store, out0)[i];
            let (a, b) = (
                reply(t, s, child_of(t, s, Branch::Low)),
                reply(t, s, child_of(t, s, Branch::High)),
            );
            &&& covered(t, states_of(store, out1), s, Branch::Low, a.len() as int)
            &&& covered(t, states_of(store, out2), s, Branch::High, b.len() as int)
            &&& total(states_of(store, out1), below_each(t)) <= total(
                states_of(store, out0),
                below_each(t),
            ) + below_all(t, a, t.net().work(s))
            &&& total(states_of(store, out2), below_each(t)) <= total(
                states_of(store, out1),
                below_each(t),
            ) + below_all(t, b, t.net().work(s))
        }),
        forall|j: int, b: Branch|
            0 <= j < i ==> #[trigger] covered(
                store.tree,
                states_of(store, out0),
                states_of(store, out0)[j],
                b,
                reply(
                    store.tree,
                    states_of(store, out0)[j],
                    child_of(store.tree, states_of(store, out0)[j], b),
                ).len() as int,
            ),
    ensures
        out2[0] == out0[0],
        forall|j: int, b: Branch|
            0 <= j < i + 1 ==> #[trigger] covered(
                store.tree,
                states_of(store, out2),
                states_of(store, out2)[j],
                b,
                reply(
                    store.tree,
                    states_of(store, out2)[j],
                    child_of(store.tree, states_of(store, out2)[j], b),
                ).len() as int,
            ),
        total(states_of(store, out2).skip(i + 1), below_each(store.tree)) < total(
            states_of(store, out0).skip(i),
            below_each(store.tree),
        ),
{
    let (st0, st1, st2) = (
        states_of(store, out0),
        states_of(store, out1),
        states_of(store, out2),
    );
    assert(st1.take(st0.len() as int) =~= st0) by {
        assert forall|j: int| 0 <= j < st0.len() implies st1[j] == st0[j] by {
            assert(out1.take(out0.len() as int)[j] == out1[j]);
        }
    }
    assert(st2.take(st1.len() as int) =~= st1) by {
        assert forall|j: int| 0 <= j < st1.len() implies st2[j] == st1[j] by {
            assert(out2.take(out1.len() as int)[j] == out2[j]);
        }
    }
    walk_step(store.tree, st0, st1, st2, i);
    assert(out1.take(out0.len() as int)[0] == out1[0]);
    assert(out2.take(out1.len() as int)[0] == out2[0]);
}

proof fn walk_end<N: Number>(t: &Tree<N>, st: Seq<Seq<i8>>, i: int)
    requires
        0 <= i < st.len(),
        rank(t.net().nodes, st[i]) is None,
        forall|j: int, b: Branch|
            0 <= j < i ==> #[trigger] covered(
                t,
                st,
                st[j],
                b,
                reply(t, st[j], child_of(t, st[j], b)).len() as int,
            ),
    ensures
        forall|j: int, b: Branch|
            0 <= j < i + 1 ==> #[trigger] covered(
                t,
                st,
                st[j],
                b,
                reply(t, st[j], child_of(t, st[j], b)).len() as int,
            ),
        total(st.skip(i + 1), below_each(t)) < total(st.skip(i), below_each(t)),
{
    total_skip(st, i, below_each(t));
}

/// The largest of `acc` and of the differences between a bound of a state and
/// the optimum it bounds, in the components before `n`.
pub open spec fn gap_v<N: Number>(t: &Tree<N>, s: Seq<i8>, up: bool, acc: N::Value, n: int) -> N::Value
    decreases n,
{
    if n <= 0 {
        acc
    } else {
        N::max_v(
            gap_v(t, s, up, acc, n - 1),
            N::abs_v(N::minus_v(bound_v(t, s, up)[n - 1], optimum_v(t, s, up)[n - 1])),
        )
    }
}

/// The largest difference between a bound and the optimum it bounds, over these
/// states.
pub open spec fn widest_v<N: Number>(t: &Tree<N>, sts: Seq<Seq<i8>>, up: bool) -> N::Value
    decreases sts.len(),
{
    if sts.len() == 0 {
        N::zero_v()
    } else {
        gap_v(t, sts.last(), up, widest_v(t, sts.drop_last(), up), t.k as int)
    }
}

/// These lists, end to end.
pub open spec fn flat(lists: Seq<Seq<Seq<i8>>>) -> Seq<Seq<i8>>
    decreases lists.len(),
{
    if lists.len() == 0 {
        Seq::empty()
    } else {
        flat(lists.drop_last()) + lists.last()
    }
}

/// One list for each of these outcomes, of the choice states that can be reached
/// from where it ends.
pub open spec fn reached<N: Number>(
    t: &Tree<N>,
    lists: Seq<Seq<Seq<i8>>>,
    ls: Seq<Leaf<N::Value>>,
) -> bool {
    &&& lists.len() == ls.len()
    &&& forall|i: int| 0 <= i < ls.len() ==> gathers(t, #[trigger] lists[i], ls[i].state)
}

/// A pass is done with everything that can be reached from what it looked at.
proof fn done_flat<N: Number>(
    t: &Tree<N>,
    lists: Seq<Seq<Seq<i8>>>,
    ls: Seq<Leaf<N::Value>>,
    done: Set<Seq<i8>>,
)
    requires
        closed(t, done),
        reached(t, lists, ls),
        forall|i: int| 0 <= i < ls.len() ==> done.contains((#[trigger] ls[i]).state),
    ensures
        forall|j: int| 0 <= j < flat(lists).len() ==> done.contains(#[trigger] flat(lists)[j]),
    decreases lists.len(),
{
    if lists.len() > 0 {
        let (a, b) = (lists.drop_last(), ls.drop_last());
        assert forall|i: int| 0 <= i < b.len() implies gathers(t, #[trigger] a[i], b[i].state) by {
            assert(a[i] == lists[i] && b[i] == ls[i]);
        }
        assert forall|i: int| 0 <= i < b.len() implies done.contains((#[trigger] b[i]).state) by {
            assert(b[i] == ls[i]);
        }
        done_flat(t, a, b, done);
        let all = flat(lists);
        assert forall|j: int| 0 <= j < all.len() implies done.contains(#[trigger] all[j]) by {
            if j < flat(a).len() {
                assert(all[j] == flat(a)[j]);
            } else {
                let x = lists.last()[j - flat(a).len()];
                assert(all[j] == x);
                assert(gathers(t, lists[lists.len() - 1], ls[lists.len() - 1].state));
                assert(lists.last().contains(x));
                closed_reaches(t, done, ls[lists.len() - 1].state, x);
            }
        }
    }
}

/// The largest of `acc` and of the differences between the entries of a bound
/// and those of the optimum it bounds.
fn gap<N: Number>(
    tree: &Tree<N>,
    acc: N,
    a: &Vec<N>,
    b: &Vec<N>,
    Ghost(s): Ghost<Seq<i8>>,
    Ghost(up): Ghost<bool>,
) -> (r: N)
    requires
        a@.len() == tree.k,
        b@.len() == tree.k,
        vals(a@) == bound_v(tree, s, up),
        vals(b@) == optimum_v(tree, s, up),
    ensures
        r.value() == gap_v(tree, s, up, acc.value(), tree.k as int),
{
    let mut r = acc;
    for c in 0..tree.k
        invariant
            a@.len() == tree.k,
            b@.len() == tree.k,
            vals(a@) == bound_v(tree, s, up),
            vals(b@) == optimum_v(tree, s, up),
            r.value() == gap_v(tree, s, up, acc.value(), c as int),
    {
        assert(vals(a@)[c as int] == a@[c as int].value());
        assert(vals(b@)[c as int] == b@[c as int].value());
        r = r.max(&a[c].minus(&b[c]).abs());
    }
    r
}

/// How far the two bounds sit from the exact optimum, over every choice state
/// the process can reach: the largest difference between `U_s` and the greatest
/// expected impact still to be paid from `s`, and between `L_s` and the least,
/// with the number of choice states looked at, those reached from several
/// initial histories counted for each.
#[verifier::rlimit(60)]
pub fn tightness<N: Number>(store: &mut Store<N>, max_states: usize) -> (r: Result<
    (N, N, usize),
    ExactError,
>)
    requires
        old(store).inv(),
    ensures
        final(store).inv(),
        final(store).grown_from(old(store)),
        met_only(old(store), final(store)),
        r is Ok ==> met_all(final(store)),
        ({
            let v = pass_v(old(store).tree, old(store).lore(), caps_of(old(store), max_states));
            &&& final(store).lore() == v.pass.lore
            &&& r is Ok == v.halt is None
            &&& r matches Err(e) ==> halted(e, v.halt, caps_of(old(store), max_states))
        }),
        ({
            let t = old(store).tree;
            match r {
                Ok(p) => exists|lists: Seq<Seq<Seq<i8>>>|
                    {
                        &&& #[trigger] reached(t, lists, opening(t))
                        &&& p.0.value() == widest_v(t, flat(lists), true)
                        &&& p.1.value() == widest_v(t, flat(lists), false)
                        &&& p.2 == flat(lists).len()
                        &&& narrow_all(t, opening(t), old(store).engine.max_outcomes)
                        &&& final(store).records.choice_states@.len() <= max_states
                    },
                Err(e) => gave_up(
                    e,
                    final(store),
                    max_states,
                    !narrow_all(t, opening(t), old(store).engine.max_outcomes),
                ),
            }
        }),
{
    let tree = store.tree;
    let initial = match store.initial_histories() {
        Ok(v) => v,
        Err(e) => {
            return Err(ExactError::Step(e));
        },
    };
    let ghost start = *store;
    let ghost ls = opening(tree);
    let ghost caps = caps_of(old(store), max_states);
    let ghost work = tree.net().work(tree.net().initial()) + 1;
    let ghost p = Pass { lore: store.lore(), done: Set::empty() };
    proof {
        adds_first(old(store), store);
        opening_descends(tree);
    }
    let mut memo: Memo<N> = Memo::new();
    let mut seen: Vec<usize> = Vec::new();
    let ghost mut lists: Seq<Seq<Seq<i8>>> = Seq::empty();
    proof {
        assert(memo.inv(&*store));
        assert(memo.done(store) =~= Set::empty());
        assert(visits_v(tree, p, ls.take(0), caps, work) == (Visit { pass: p, halt: None })) by {
            assert(ls.take(0) =~= Seq::empty());
        }
        assert(store.records.paths(initial@).len() == initial@.len());
        assert(states_of(store, seen@) =~= flat(lists));
    }
    for i in 0..initial.len()
        invariant
            store.inv(),
            store.grown_from(&start),
            store.grown_from(old(store)),
            start.inv(),
            memo.inv(store),
            met_only(old(store), store),
            explored_all(store, ls, i as int),
            caps == caps_of(old(store), max_states),
            visits_v(tree, p, ls.take(i as int), caps, work) == (Visit {
                pass: memo.pass(store),
                halt: None,
            }),
            pass_v(old(store).tree, old(store).lore(), caps) == visits_v(tree, p, ls, caps, work),
            forall|j: int| 0 <= j < ls.len() ==> tree.net().work((#[trigger] ls[j]).state) < work,
            tree == store.tree,
            tree == start.tree,
            ls == opening(tree),
            start.records.holds(initial@),
            start.records.paths(initial@) == ls,
            initial@.len() == ls.len(),
            lists.len() == i,
            forall|j: int| 0 <= j < i ==> gathers(tree, #[trigger] lists[j], ls[j].state),
            forall|j: int|
                0 <= j < seen@.len() ==> #[trigger] seen@[j] < store.records.choice_states@.len(),
            states_of(store, seen@) == flat(lists),
            holdable(ls, store.engine.max_outcomes),
            forall|j: int|
                0 <= j < i ==> narrow(tree, (#[trigger] ls[j]).state, store.engine.max_outcomes),
            i == 0 ==> forall|c: int| !#[trigger] memo.has(c),
            i > 0 ==> store.records.choice_states@.len() <= max_states,
    {
        let at = initial[i];
        let ghost before = *store;
        proof {
            store.leaf_kept(&start, at as int);
            assert(start.records.paths(initial@)[i as int] == ls[i as int]);
            assert(store.hist_true(at as int));
            assert(ls.take(i + 1).drop_last() =~= ls.take(i as int));
            assert(ls.take(i + 1).last() == ls[i as int]);
        }
        let cs = store.history(at).cs;
        match value(store, cs, &mut memo, max_states) {
            Ok(_) => {},
            Err(e) => {
                proof {
                    adds_to_met(&before, store, i as int);
                    met_more(old(store), &before, store);
                    visits_prefix(tree, p, ls, caps, work, i + 1);
                }
                return Err(e);
            },
        }
        proof {
            adds_to_met(&before, store, i as int);
            met_more(old(store), &before, store);
            explored_all_kept(&before, store, ls, i as int);
            assert(store.records.choice_states@[cs as int] == before.records.choice_states@[cs as int]);
        }
        let mut more = match collect(store, cs) {
            Ok(v) => v,
            Err(e) => {
                return Err(ExactError::Step(e));
            },
        };
        proof {
            same_states(&before, store, seen@);
            let st = states_of(store, more@);
            let next = lists.push(st);
            assert(next.drop_last() =~= lists);
            assert(states_of(store, seen@ + more@) =~= flat(next));
            lists = next;
        }
        seen.append(&mut more);
    }
    proof {
        initial_valid(tree.net());
        forced_some(
            tree,
            tree.net().initial(),
            Seq::empty(),
            zeros_v::<N>(tree.k as nat),
            N::one_v(),
        );
    }
    let ghost sts = flat(lists);
    let ghost done = memo.done(store);
    proof {
        assert(ls.take(ls.len() as int) =~= ls);
        explored_met(store);
        visits_close(tree, p, ls, caps, work);
        done_flat(tree, lists, ls, done);
    }
    let mut du = N::zero();
    let mut dl = N::zero();
    let n = seen.len();
    assert(sts.take(0) =~= Seq::empty());
    for j in 0..n
        invariant
            n == seen@.len(),
            store.inv(),
            memo.inv(store),
            tree == store.tree,
            done == memo.done(store),
            forall|q: int|
                0 <= q < seen@.len() ==> #[trigger] seen@[q] < store.records.choice_states@.len(),
            states_of(store, seen@) == sts,
            forall|q: int| 0 <= q < sts.len() ==> done.contains(#[trigger] sts[q]),
            du.value() == widest_v(tree, sts.take(j as int), true),
            dl.value() == widest_v(tree, sts.take(j as int), false),
    {
        let cs = seen[j];
        let ghost s = sts[j as int];
        proof {
            assert(s == states_of(store, seen@)[j as int]);
            assert(done.contains(s));
            assert(store.cs_true(cs as int));
            optimum_len(tree, s, false);
            optimum_len(tree, s, true);
            assert(sts.take(j + 1).drop_last() =~= sts.take(j as int));
            assert(sts.take(j + 1).last() == s);
        }
        if let Some((lo, hi)) = memo.get(cs, Ghost(*store)) {
            proof {
                assert(vals(lo@).len() == lo@.len());
                assert(vals(hi@).len() == hi@.len());
            }
            let record = store.choice_state(cs);
            du = gap(tree, du, &record.upper, &hi, Ghost(s), Ghost(true));
            dl = gap(tree, dl, &record.lower, &lo, Ghost(s), Ghost(false));
        }
    }
    proof {
        assert(sts.take(n as int) =~= sts);
        assert(reached(tree, lists, opening(tree)));
    }
    Ok((du, dl, n))
}

/// A step that failed is why an exact pass gave up.
impl From<StepError> for ExactError {
    fn from(e: StepError) -> (r: ExactError) {
        ExactError::Step(e)
    }
}

impl vstd::std_specs::convert::FromSpecImpl<StepError> for ExactError {
    open spec fn obeys_from_spec() -> bool {
        true
    }

    open spec fn from_spec(e: StepError) -> ExactError {
        ExactError::Step(e)
    }
}

} // verus!
