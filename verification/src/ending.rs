//! When an exact pass comes to its end.

use vstd::prelude::*;
use crate::exact::{
    branch_visit, leads_to, met_all, narrow, narrow_all, narrow_chosen, opening_descends, pass_v,
    reached_at_all, reaches, reaches_on, reply_descends, visit_v, visits_v, Caps, Halt, Pass,
};
use crate::num::Number;
use crate::semantics::{rank, valid};
use crate::state::{opening, reply, stops, Leaf};
use crate::tables::{child_of, first_lore, met_states, no_lore, step_lore, Branch, Store};
use crate::tree::Tree;

verus! {

/// Choice states that can be reached, each once.
pub open spec fn reachable<N: Number>(t: &Tree<N>, xs: Seq<Seq<i8>>) -> bool {
    &&& xs.no_duplicates()
    &&& forall|i: int| 0 <= i < xs.len() ==> reached_at_all(t, #[trigger] xs[i])
}

/// A pass that had nothing too wide to hold, and stopped only with more choice
/// states than the cap allows.
spec fn sound<N: Number>(t: &Tree<N>, p: Pass, halt: Option<Halt>, caps: Caps) -> bool {
    &&& reachable(t, p.lore.states)
    &&& match halt {
        None => true,
        Some(Halt::Wide) => false,
        Some(Halt::Full) => p.lore.states.len() > caps.states,
    }
}

proof fn met_reachable<N: Number>(t: &Tree<N>, known: Seq<Seq<i8>>, ls: Seq<Leaf<N::Value>>)
    requires
        reachable(t, known),
        forall|i: int| 0 <= i < ls.len() ==> reached_at_all(t, (#[trigger] ls[i]).state),
    ensures
        reachable(t, met_states(known, ls)),
    decreases ls.len(),
{
    if ls.len() > 0 {
        let a = ls.drop_last();
        assert forall|i: int| 0 <= i < a.len() implies reached_at_all(t, (#[trigger] a[i]).state) by {
            assert(a[i] == ls[i]);
        }
        met_reachable(t, known, a);
        assert(reached_at_all(t, ls[ls.len() - 1].state));
        let (m, r) = (met_states(known, a), met_states(known, ls));
        assert forall|i: int| 0 <= i < r.len() implies reached_at_all(t, #[trigger] r[i]) by {
            if i < m.len() {
                assert(r[i] == m[i]);
            }
        }
    }
}

proof fn reply_reached<N: Number>(t: &Tree<N>, s: Seq<i8>, b: Branch)
    requires
        t.wf(),
        valid(t.net().nodes, s),
        stops(t, s),
        rank(t.net().nodes, s) is Some,
        reached_at_all(t, s),
    ensures
        forall|i: int|
            0 <= i < reply(t, s, child_of(t, s, b)).len() ==> reached_at_all(
                t,
                (#[trigger] reply(t, s, child_of(t, s, b))[i]).state,
            ),
{
    reply_descends(t, s, b);
    let ls = reply(t, s, child_of(t, s, b));
    let j = choose|j: int| 0 <= j < opening(t).len() && #[trigger] reaches(t, opening(t)[j].state, s);
    assert forall|i: int| 0 <= i < ls.len() implies reached_at_all(t, (#[trigger] ls[i]).state) by {
        assert(leads_to(t, s, b, i));
        reaches_on(t, opening(t)[j].state, s, b, i);
        assert(reaches(t, opening(t)[j].state, ls[i].state));
    }
}

proof fn visit_sound<N: Number>(t: &Tree<N>, p: Pass, s: Seq<i8>, caps: Caps)
    requires
        t.wf(),
        valid(t.net().nodes, s),
        stops(t, s),
        reached_at_all(t, s),
        narrow(t, s, caps.outcomes),
        reachable(t, p.lore.states),
    ensures
        sound(t, visit_v(t, p, s, caps).pass, visit_v(t, p, s, caps).halt, caps),
    decreases t.net().work(s), 2nat, 0nat,
{
    if !p.done.contains(s) && p.lore.states.len() <= caps.states && rank(t.net().nodes, s) is Some {
        narrow_chosen(t, s, caps.outcomes);
        branch_sound(t, p, s, Branch::Low, caps);
        let low = branch_visit(t, p, s, Branch::Low, caps);
        if low.halt is None {
            branch_sound(t, low.pass, s, Branch::High, caps);
        }
    }
}

proof fn branch_sound<N: Number>(t: &Tree<N>, p: Pass, s: Seq<i8>, b: Branch, caps: Caps)
    requires
        t.wf(),
        valid(t.net().nodes, s),
        stops(t, s),
        rank(t.net().nodes, s) is Some,
        reached_at_all(t, s),
        narrow_all(t, reply(t, s, child_of(t, s, b)), caps.outcomes),
        reachable(t, p.lore.states),
    ensures
        sound(t, branch_visit(t, p, s, b, caps).pass, branch_visit(t, p, s, b, caps).halt, caps),
    decreases t.net().work(s), 1nat, 0nat,
{
    let ls = reply(t, s, child_of(t, s, b));
    reply_descends(t, s, b);
    reply_reached(t, s, b);
    met_reachable(t, p.lore.states, ls);
    let q = Pass { lore: step_lore(t, p.lore, s, b), ..p };
    visits_sound(t, q, ls, caps, t.net().work(s));
}

proof fn visits_sound<N: Number>(
    t: &Tree<N>,
    p: Pass,
    ls: Seq<Leaf<N::Value>>,
    caps: Caps,
    work: nat,
)
    requires
        t.wf(),
        reachable(t, p.lore.states),
        forall|i: int|
            0 <= i < ls.len() ==> {
                let s = (#[trigger] ls[i]).state;
                &&& valid(t.net().nodes, s)
                &&& stops(t, s)
                &&& t.net().work(s) < work
                &&& reached_at_all(t, s)
                &&& narrow(t, s, caps.outcomes)
            },
    ensures
        sound(t, visits_v(t, p, ls, caps, work).pass, visits_v(t, p, ls, caps, work).halt, caps),
    decreases work, 0nat, ls.len(),
{
    if ls.len() > 0 {
        let a = ls.drop_last();
        assert forall|i: int| 0 <= i < a.len() implies {
            let s = (#[trigger] a[i]).state;
            &&& valid(t.net().nodes, s)
            &&& stops(t, s)
            &&& t.net().work(s) < work
            &&& reached_at_all(t, s)
            &&& narrow(t, s, caps.outcomes)
        } by {
            assert(a[i] == ls[i]);
        }
        visits_sound(t, p, a, caps, work);
        let u = visits_v(t, p, a, caps, work);
        assert(ls[ls.len() - 1] == ls.last());
        if u.halt is None {
            visit_sound(t, u.pass, ls.last().state, caps);
        }
    }
}

/// Where every macro step can be held, and no more choice states can be reached
/// than the cap allows, a pass over empty tables comes to its end.
pub proof fn pass_ends<N: Number>(t: &Tree<N>, caps: Caps)
    requires
        t.wf(),
        narrow_all(t, opening(t), caps.outcomes),
        forall|xs: Seq<Seq<i8>>| #[trigger] reachable(t, xs) ==> xs.len() <= caps.states,
    ensures
        pass_v(t, no_lore(), caps).halt is None,
{
    let ls = opening(t);
    let lore = no_lore();
    opening_descends(t);
    assert forall|i: int| 0 <= i < ls.len() implies reached_at_all(t, (#[trigger] ls[i]).state) by {
        assert(reaches(t, ls[i].state, ls[i].state));
    }
    met_reachable(t, lore.states, ls);
    let v = pass_v(t, lore, caps);
    let p = Pass { lore: first_lore(t, lore), done: Set::empty() };
    visits_sound(t, p, ls, caps, t.net().work(t.net().initial()) + 1);
    assert(reachable(t, v.pass.lore.states));
}

/// Where a pass has come to its end, no more choice states can be reached than
/// the cap allows.
pub proof fn ended_within<N: Number>(b: &Store<N>, max_states: usize, xs: Seq<Seq<i8>>)
    requires
        met_all(b),
        b.records.choice_states@.len() <= max_states,
        reachable(b.tree, xs),
    ensures
        xs.len() <= max_states,
{
    let all = b.records.states();
    xs.unique_seq_to_set();
    all.lemma_cardinality_of_set();
    assert(xs.to_set().subset_of(all.to_set())) by {
        assert forall|x: Seq<i8>| xs.to_set().contains(x) implies all.to_set().contains(x) by {
            let i = xs.index_of(x);
            assert(reached_at_all(b.tree, xs[i]));
        }
    }
    vstd::set_lib::lemma_len_subset(xs.to_set(), all.to_set());
}

} // verus!
