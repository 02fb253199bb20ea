//! The label of a node of the computation tree: its frontier, held as positions
//! of records and three running sums.

use vstd::prelude::*;
use crate::frontier::{
    front_of, heap, part, part_from, part_len, resolved, resolved_sound, sound, spent_by, spent_v,
    swap_v, Front,
};
use crate::history::kids;
use crate::num::{dup_vec, sum, sum_v, vals, zeros, Number};
use crate::state::Leaf;
use crate::tables::{Branch, Records, Store};
use crate::unfolding::{begins, prefix_free};

verus! {

/// A frontier: the open histories, and the three running sums.
///
/// The open histories are a flat array of positions, copied at every expansion.
///
/// The sums are what the histories that are already final have paid, and what
/// the open ones contribute to the accepting and to the rejecting sum. The last
/// two are carried forward by adding the terms of an expansion and taking away
/// the term of the history it replaced, and they are **set to zero** when the
/// open array empties rather than left to whatever the additions and
/// subtractions leave behind. That is what makes the two sums the same number on
/// a frontier whose histories are all final, where they are the same number by
/// definition and one of the two tests has to answer.
pub struct Frontier<N> {
    pub open: Vec<usize>,
    pub paid: Vec<N>,
    pub upper: Vec<N>,
    pub lower: Vec<N>,
    /// Every history the frontier holds, the final ones included. They are
    /// summed into the closed part and not kept, so counting them here is the
    /// only way to say how large a partial strategy is: `open` alone is zero
    /// wherever the accepting test is read at a closed frontier, which is every
    /// success once the upper bound is ablated away.
    pub total: usize,
}

impl<N: Number> Frontier<N> {
    /// The frontier is the one meant.
    pub open spec fn shows(&self, r: Records<N>, f: Front<N::Value>) -> bool {
        &&& r.holds(self.open@)
        &&& r.paths(self.open@) == f.open
        &&& vals(self.paid@) == f.paid
        &&& vals(self.upper@) == f.upper
        &&& vals(self.lower@) == f.lower
        &&& self.total == f.all().len()
    }

    /// `E(F) = sum over F of P(h) (cost(h) + U_last(h))`.
    pub fn accepting(&self) -> (r: Vec<N>)
        requires
            self.paid@.len() == self.upper@.len(),
        ensures
            vals(r@) == sum_v::<N>(vals(self.paid@), vals(self.upper@)),
    {
        sum(&self.paid, self.upper.as_slice())
    }

    /// `A(F) = sum over F of P(h) cost(h)`, what the frontier has already paid.
    /// Costs are non-negative, so this never decreases as the frontier is
    /// expanded and a component of it above the threshold is a completion of the
    /// search that cannot exist. It is the rejecting test with `L` taken to be
    /// zero, and it is what remains when the lower bound is ablated away:
    /// arithmetic rather than a bound.
    pub fn accumulated(&self, records: &Records<N>) -> (r: Vec<N>)
        requires
            records.holds(self.open@),
            forall|i: int|
                0 <= i < records.histories@.len() ==> (
                #[trigger] records.histories@[i]).impact@.len() == self.paid@.len(),
        ensures
            vals(r@) == spent_by::<N>(vals(self.paid@), records.paths(self.open@)),
    {
        let k = self.paid.len();
        let mut out = dup_vec(&self.paid);
        let ghost ls = records.paths(self.open@);
        assert(ls.take(0) =~= Seq::empty());
        for i in 0..self.open.len()
            invariant
                k == self.paid@.len(),
                out@.len() == k,
                ls == records.paths(self.open@),
                records.holds(self.open@),
                forall|j: int|
                    0 <= j < records.histories@.len() ==> (
                    #[trigger] records.histories@[j]).impact@.len() == k,
                vals(out@) == spent_by::<N>(vals(self.paid@), ls.take(i as int)),
        {
            let h = records.histories.get(self.open[i]);
            assert(records.histories@[self.open@[i as int] as int].impact@.len() == k);
            let mut spent: Vec<N> = Vec::new();
            for c in 0..k
                invariant
                    k == h.impact@.len(),
                    spent@.len() == c,
                    forall|j: int|
                        0 <= j < c ==> (#[trigger] spent@[j]).value() == N::times_v(
                            h.prob.value(),
                            h.impact@[j].value(),
                        ),
            {
                spent.push(h.prob.times(&h.impact[c]));
            }
            proof {
                let l = ls[i as int];
                assert(l == records.leaf(self.open@[i as int] as int));
                assert(vals(spent@) =~= spent_v::<N>(l, k as nat));
                assert(ls.take(i + 1).drop_last() =~= ls.take(i as int));
                assert(ls.take(i + 1).last() == l);
            }
            out = sum(&out, spent.as_slice());
        }
        assert(ls.take(ls.len() as int) =~= ls);
        out
    }

    /// `L(F) = sum over F of P(h) (cost(h) + L_last(h))`.
    pub fn rejecting(&self) -> (r: Vec<N>)
        requires
            self.paid@.len() == self.lower@.len(),
        ensures
            vals(r@) == sum_v::<N>(vals(self.paid@), vals(self.lower@)),
    {
        sum(&self.paid, self.lower.as_slice())
    }

    /// The frontier a list of histories makes.
    pub fn from_histories(store: &Store<N>, histories: &Vec<usize>) -> (r: Frontier<N>)
        requires
            store.inv(),
            store.records.holds(histories@),
        ensures
            r.shows(store.records, front_of(store.tree, store.records.paths(histories@))),
    {
        let k = store.tree.k;
        let t = store.tree;
        let ghost ls = store.records.paths(histories@);
        let mut open: Vec<usize> = Vec::new();
        let mut paid: Vec<N> = zeros(k);
        let mut upper: Vec<N> = zeros(k);
        let mut lower: Vec<N> = zeros(k);
        proof {
            assert(ls.take(0) =~= Seq::empty());
            assert(store.records.paths(open@) =~= part(ls.take(0), true));
        }
        for i in 0..histories.len()
            invariant
                k == t.k,
                t == store.tree,
                store.inv(),
                store.records.holds(histories@),
                ls == store.records.paths(histories@),
                store.records.holds(open@),
                store.records.paths(open@) == part(ls.take(i as int), true),
                paid@.len() == k,
                upper@.len() == k,
                lower@.len() == k,
                vals(paid@) == heap(t, part(ls.take(i as int), false), true),
                vals(upper@) == heap(t, part(ls.take(i as int), true), true),
                vals(lower@) == heap(t, part(ls.take(i as int), true), false),
        {
            let at = histories[i];
            let ghost l = ls[i as int];
            proof {
                assert(l == store.records.leaf(at as int));
                assert(store.hist_true(at as int));
                assert(ls.take(i + 1).drop_last() =~= ls.take(i as int));
                assert(ls.take(i + 1).last() == l);
            }
            let h = store.history(at);
            if store.records.is_open(at) {
                let ghost before = open@;
                let ghost p = part(ls.take(i as int), true);
                upper = sum(&upper, h.e_hat.as_slice());
                lower = sum(&lower, h.l_hat.as_slice());
                open.push(at);
                proof {
                    assert(part(ls.take(i + 1), true) == p.push(l));
                    assert(p.push(l).drop_last() =~= p);
                    assert(store.records.paths(open@) =~= store.records.paths(before).push(l));
                }
            } else {
                let ghost p = part(ls.take(i as int), false);
                paid = sum(&paid, h.e_hat.as_slice());
                proof {
                    assert(part(ls.take(i + 1), false) == p.push(l));
                    assert(p.push(l).drop_last() =~= p);
                }
            }
        }
        assert(ls.take(ls.len() as int) =~= ls);
        proof {
            part_len(ls);
        }
        Frontier { open, paid, upper, lower, total: histories.len() }
    }

    /// `E` and `L` of a list of histories: their contributions added up, final
    /// ones included.
    pub fn sums(store: &Store<N>, histories: &Vec<usize>) -> (r: (Vec<N>, Vec<N>))
        requires
            store.inv(),
            store.records.holds(histories@),
        ensures
            vals(r.0@) == heap(store.tree, store.records.paths(histories@), true),
            vals(r.1@) == heap(store.tree, store.records.paths(histories@), false),
    {
        let k = store.tree.k;
        let ghost ls = store.records.paths(histories@);
        let mut upper: Vec<N> = zeros(k);
        let mut lower: Vec<N> = zeros(k);
        assert(ls.take(0) =~= Seq::empty());
        for i in 0..histories.len()
            invariant
                k == store.tree.k,
                store.inv(),
                store.records.holds(histories@),
                ls == store.records.paths(histories@),
                upper@.len() == k,
                lower@.len() == k,
                vals(upper@) == heap(store.tree, ls.take(i as int), true),
                vals(lower@) == heap(store.tree, ls.take(i as int), false),
        {
            let at = histories[i];
            proof {
                assert(ls[i as int] == store.records.leaf(at as int));
                assert(store.hist_true(at as int));
                assert(ls.take(i + 1).drop_last() =~= ls.take(i as int));
                assert(ls.take(i + 1).last() == ls[i as int]);
            }
            let h = store.history(at);
            upper = sum(&upper, h.e_hat.as_slice());
            lower = sum(&lower, h.l_hat.as_slice());
        }
        assert(ls.take(ls.len() as int) =~= ls);
        (upper, lower)
    }

    /// Replaces the elected history by the histories one action leads to.
    pub(crate) fn expand(
        &self,
        store: &Store<N>,
        at: usize,
        exp: usize,
        Ghost(f): Ghost<Front<N::Value>>,
        Ghost(b): Ghost<Branch>,
    ) -> (r: Frontier<N>)
        requires
            store.inv(),
            self.shows(store.records, f),
            sound(store.tree, f),
            forall|i: int|
                0 <= i < f.all().len() ==> store.records.has((#[trigger] f.all()[i]).decisions),
            at < self.open@.len(),
            exp < store.records.expansions@.len(),
            store.expands(exp as int, f.open[at as int], b),
        ensures
            r.shows(store.records, resolved(store.tree, f, at as int, b)),
            ({
                let all = resolved(store.tree, f, at as int, b).all();
                forall|i: int|
                    0 <= i < all.len() ==> store.records.has((#[trigger] all[i]).decisions)
            }),
    {
        let t = store.tree;
        let elected = self.open[at];
        let e = store.records.expansions.get(exp);
        let h = store.history(elected);
        let _made = store.hist_made();
        let ghost next = resolved(t, f, at as int, b);
        let ghost ks = kids(t, f.open[at as int], b);
        proof {
            assert(store.records.paths(self.open@)[at as int] == store.records.leaf(
                elected as int,
            ));
            assert(store.hist_true(elected as int));
            resolved_sound(t, f, at as int, b);
            resolved_named(store, f, at as int, b);
            names_counted(store, next.all());
            part_len(ks);
            open_distinct(store, self.open@, f);
        }
        let mut open: Vec<usize> = Vec::new();
        for j in 0..self.open.len()
            invariant
                at < self.open@.len(),
                elected == self.open@[at as int],
                forall|x: int, y: int|
                    0 <= x < y < self.open@.len() ==> self.open@[x] != self.open@[y],
                j <= at ==> open@ =~= self.open@.take(j as int),
                j > at ==> open@ =~= self.open@.take(j as int).remove(at as int),
        {
            if self.open[j] != elected {
                open.push(self.open[j]);
            }
        }
        assert(self.open@.take(self.open@.len() as int) =~= self.open@);
        let ghost rest = open@;
        for j in 0..e.open_children.len()
            invariant
                open@ =~= rest + e.open_children@.take(j as int),
        {
            open.push(e.open_children[j]);
        }
        proof {
            assert(e.open_children@.take(e.open_children@.len() as int) =~= e.open_children@);
            assert(open@ =~= self.open@.remove(at as int) + e.open_children@);
            assert(store.records.paths(open@) =~= next.open) by {
                assert forall|j: int| 0 <= j < open@.len() implies #[trigger] store.records.paths(
                    open@,
                )[j] == next.open[j] by {
                    if j < rest.len() {
                        let q = if j < at { j } else { j + 1 };
                        assert(store.records.paths(self.open@)[q] == f.open[q]);
                    } else {
                        let q = j - rest.len();
                        assert(store.records.paths(e.open_children@)[q] == part(ks, true)[q]);
                    }
                }
            }
            assert(store.records.paths(open@).len() == open@.len());
            assert(store.records.paths(e.open_children@).len() == e.open_children@.len());
            assert(store.records.holds(open@)) by {
                assert forall|j: int| 0 <= j < open@.len() implies #[trigger] open@[j]
                    < store.records.histories@.len() by {
                    if j < rest.len() {
                        let q = if j < at { j } else { j + 1 };
                        assert(open@[j] == self.open@[q]);
                    } else {
                        assert(open@[j] == e.open_children@[j - rest.len()]);
                    }
                }
            }
            assert(vals(self.paid@).len() == self.paid@.len());
            assert(vals(self.upper@).len() == self.upper@.len());
            assert(vals(self.lower@).len() == self.lower@.len());
        }
        let paid = sum(&self.paid, e.closed_delta.as_slice());
        let none = open.len() == 0;
        let upper = if none {
            zeros(t.k)
        } else {
            swap(&self.upper, &e.open_e_delta, &h.e_hat)
        };
        let lower = if none {
            zeros(t.k)
        } else {
            swap(&self.lower, &e.open_l_delta, &h.l_hat)
        };
        let total = self.total - 1 + e.open_children.len() + e.closed_count;
        Frontier { open, paid, upper, lower, total }
    }
}

/// `a + (b - c)`, entry by entry.
fn swap<N: Number>(a: &Vec<N>, b: &Vec<N>, c: &Vec<N>) -> (r: Vec<N>)
    requires
        a@.len() == b@.len(),
        a@.len() == c@.len(),
    ensures
        r@.len() == a@.len(),
        vals(r@) =~= swap_v::<N>(vals(a@), vals(b@), vals(c@)),
{
    let mut r: Vec<N> = Vec::new();
    for i in 0..a.len()
        invariant
            a@.len() == b@.len(),
            a@.len() == c@.len(),
            r@.len() == i,
            forall|j: int|
                0 <= j < i ==> (#[trigger] r@[j]).value() == N::plus_v(
                    a@[j].value(),
                    N::minus_v(b@[j].value(), c@[j].value()),
                ),
    {
        r.push(a[i].plus(&b[i].minus(&c[i])));
    }
    r
}

/// The open histories of a frontier are distinct records.
proof fn open_distinct<N: Number>(store: &Store<N>, open: Seq<usize>, f: Front<N::Value>)
    requires
        store.records.paths(open) == f.open,
        prefix_free(f.all()),
    ensures
        forall|x: int, y: int| 0 <= x < y < open.len() ==> open[x] != open[y],
{
    assert forall|x: int, y: int| 0 <= x < y < open.len() implies open[x] != open[y] by {
        let (a, b) = (store.records.paths(open)[x], store.records.paths(open)[y]);
        assert(f.all()[x] == a && f.all()[y] == b);
        if open[x] == open[y] {
            assert(a.decisions.take(a.decisions.len() as int) =~= a.decisions);
        }
    }
}

/// Every history of a resolved frontier has been recorded.
proof fn resolved_named<N: Number>(store: &Store<N>, f: Front<N::Value>, i: int, b: Branch)
    requires
        0 <= i < f.open.len(),
        forall|j: int|
            0 <= j < f.all().len() ==> store.records.has((#[trigger] f.all()[j]).decisions),
        forall|j: int|
            0 <= j < kids(store.tree, f.open[i], b).len() ==> store.records.has(
                (#[trigger] kids(store.tree, f.open[i], b)[j]).decisions,
            ),
    ensures
        ({
            let all = resolved(store.tree, f, i, b).all();
            forall|j: int| 0 <= j < all.len() ==> store.records.has((#[trigger] all[j]).decisions)
        }),
{
    let ks = kids(store.tree, f.open[i], b);
    let r = resolved(store.tree, f, i, b);
    let all = r.all();
    let (po, pc) = (part(ks, true), part(ks, false));
    part_from(ks, true);
    part_from(ks, false);
    let n = f.open.len() - 1;
    assert forall|j: int| 0 <= j < all.len() implies store.records.has(
        (#[trigger] all[j]).decisions,
    ) by {
        if j < n {
            assert(all[j] == f.all()[if j < i { j } else { j + 1 }]);
        } else if j < n + po.len() {
            let x = po[j - n];
            assert(all[j] == x);
            let q = ks.index_of(x);
            assert(ks[q] == x);
        } else if j < n + po.len() + f.closed.len() {
            assert(all[j] == f.all()[j - po.len() + 1]);
        } else {
            let x = pc[j - n - po.len() - f.closed.len()];
            assert(all[j] == x);
            let q = ks.index_of(x);
            assert(ks[q] == x);
        }
    }
}

/// There are no more recorded names, none of which begins another, than
/// records.
proof fn names_counted<N: Number>(store: &Store<N>, ls: Seq<Leaf<N::Value>>)
    requires
        prefix_free(ls),
        forall|i: int| 0 <= i < ls.len() ==> store.records.has((#[trigger] ls[i]).decisions),
    ensures
        ls.len() <= store.records.histories@.len(),
{
    let n = store.records.histories@.len() as int;
    let at = |i: int|
        choose|q: int| 0 <= q < n && #[trigger] store.records.histories@[q].dh@ == ls[i].decisions;
    let s = Seq::new(ls.len(), |i: int| at(i));
    assert forall|i: int| 0 <= i < ls.len() implies 0 <= #[trigger] s[i] < n
        && store.records.histories@[s[i]].dh@ == ls[i].decisions by {
        assert(store.records.has(ls[i].decisions));
    }
    assert(s.no_duplicates()) by {
        assert forall|i: int, j: int| 0 <= i < s.len() && 0 <= j < s.len() && i != j implies s[i]
            != s[j] by {
            if s[i] == s[j] {
                let d = ls[i].decisions;
                assert(d == ls[j].decisions);
                assert(d.take(d.len() as int) =~= d);
                assert(begins(ls[i].decisions, ls[j].decisions));
            }
        }
    }
    s.unique_seq_to_set();
    vstd::set_lib::lemma_int_range(0, n);
    let range = vstd::set_lib::set_int_range(0, n);
    assert(s.to_set().subset_of(range)) by {
        assert forall|x: int| s.to_set().contains(x) implies range.contains(x) by {
            let i = s.index_of(x);
            assert(s[i] == x);
        }
    }
    vstd::set_lib::lemma_len_subset(s.to_set(), range);
}

} // verus!
