//! The exact set of vectors a deterministic policy can achieve, as an oracle for
//! the search.
//!
//! At a choice state the achievable set is the union of what the two actions
//! achieve, and an action achieves the sum, over the outcomes of its macro step,
//! of the probability of the outcome times its impact plus anything achievable
//! from the choice state it leads to. The outcomes are combined as a product and
//! not as a union, which is exactly the freedom a history-dependent policy has
//! and a memoryless one has not: after one draw of nature it may decide one way
//! and after the other draw the other way.
//!
//! Only the Pareto-minimal vectors are kept. The question asked of the set is
//! whether some vector of it is at most `B`, and a vector that another vector of
//! the set dominates can never be the only witness of that.
//!
//! This is exponential and is meant to be. It exists to answer the same question
//! as the search on instances small enough for both, so that the search can be
//! checked against something that shares none of its machinery.

use vstd::prelude::*;
use crate::exact::{
    add_share, adds_below, adds_first, adds_from, adds_more, adds_none, adds_step, adds_to_met,
    explored, explored_all, explored_all_kept, explored_chosen, explored_end, explored_kept,
    explored_met, leads_to, met_all, met_more, met_only, narrow, narrow_all, narrow_chosen,
    opening_descends, reply_descends, share_v, took_kept, Pass,
};
use crate::list::reversed;
use crate::num::{dup_vec, sum_v, vals, zeros, zeros_v, Number};
use crate::semantics::{rank, valid};
use crate::state::{opening, reply, stops, Leaf, StepError, Stop};
use crate::tables::{child_of, first_lore, holdable, step_lore, Branch, Lore, Store};
use crate::tree::Tree;

verus! {

#[derive(Debug)]
pub enum BruteError {
    Step(StepError),
    /// A Pareto set passed the cap.
    TooWide(usize),
}

impl From<StepError> for BruteError {
    fn from(e: StepError) -> (r: BruteError) {
        BruteError::Step(e)
    }
}

impl vstd::std_specs::convert::FromSpecImpl<StepError> for BruteError {
    open spec fn obeys_from_spec() -> bool {
        true
    }

    open spec fn from_spec(e: StepError) -> BruteError {
        BruteError::Step(e)
    }
}

// ---------------------------------------------------------------------------
// minimal vectors
// ---------------------------------------------------------------------------

/// A set of vectors.
pub type Points<V> = Seq<Seq<V>>;

/// `a <= b` in every component the two share.
pub open spec fn at_most<N: Number>(a: Seq<N::Value>, b: Seq<N::Value>) -> bool {
    forall|c: int| 0 <= c < a.len() && c < b.len() ==> N::le_v(#[trigger] a[c], b[c])
}

/// `a` comes before `b` in the order of the first component in which they
/// differ, from `c` on.
pub open spec fn precedes<N: Number>(a: Seq<N::Value>, b: Seq<N::Value>, c: int) -> bool
    decreases a.len() - c,
{
    if c >= a.len() || c >= b.len() {
        false
    } else if N::le_v(a[c], b[c]) && N::le_v(b[c], a[c]) {
        precedes::<N>(a, b, c + 1)
    } else {
        N::lt_v(a[c], b[c])
    }
}

/// A sorted list with one more vector, after those it does not come before.
pub open spec fn inserted<N: Number>(s: Points<N::Value>, x: Seq<N::Value>) -> Points<N::Value>
    decreases s.len(),
{
    if s.len() > 0 && precedes::<N>(x, s.last(), 0) {
        inserted::<N>(s.drop_last(), x).push(s.last())
    } else {
        s.push(x)
    }
}

pub open spec fn sorted<N: Number>(s: Points<N::Value>) -> Points<N::Value>
    decreases s.len(),
{
    if s.len() == 0 {
        Seq::empty()
    } else {
        inserted::<N>(sorted::<N>(s.drop_last()), s.last())
    }
}

/// Those of these vectors that `p` is not at most.
pub open spec fn undominated<N: Number>(s: Points<N::Value>, p: Seq<N::Value>) -> Points<N::Value>
    decreases s.len(),
{
    if s.len() == 0 {
        Seq::empty()
    } else if at_most::<N>(p, s.last()) {
        undominated::<N>(s.drop_last(), p)
    } else {
        undominated::<N>(s.drop_last(), p).push(s.last())
    }
}

/// One of these vectors is at most `p`.
pub open spec fn dominated<N: Number>(s: Points<N::Value>, p: Seq<N::Value>) -> bool {
    exists|i: int| 0 <= i < s.len() && at_most::<N>(#[trigger] s[i], p)
}

/// The minimal ones, taking the vectors one by one.
pub open spec fn sieved<N: Number>(s: Points<N::Value>) -> Points<N::Value>
    decreases s.len(),
{
    if s.len() == 0 {
        Seq::empty()
    } else {
        let kept = sieved::<N>(s.drop_last());
        if dominated::<N>(kept, s.last()) {
            kept
        } else {
            undominated::<N>(kept, s.last()).push(s.last())
        }
    }
}

/// The minimal ones of these vectors, in order.
pub open spec fn pareto_v<N: Number>(s: Points<N::Value>) -> Points<N::Value> {
    sieved::<N>(sorted::<N>(s))
}

/// The values of a list of vectors.
pub open spec fn points<N: Number>(s: Seq<Vec<N>>) -> Points<N::Value> {
    Seq::new(s.len(), |i: int| vals(s[i]@))
}

fn leq_all<N: Number>(a: &Vec<N>, b: &Vec<N>) -> (r: bool)
    ensures
        r == at_most::<N>(vals(a@), vals(b@)),
{
    let n = if a.len() < b.len() {
        a.len()
    } else {
        b.len()
    };
    for c in 0..n
        invariant
            n == if a@.len() < b@.len() {
                a@.len()
            } else {
                b@.len()
            },
            forall|j: int| 0 <= j < c ==> N::le_v(#[trigger] vals(a@)[j], vals(b@)[j]),
    {
        if !a[c].le(&b[c]) {
            assert(vals(a@)[c as int] == a@[c as int].value());
            assert(vals(b@)[c as int] == b@[c as int].value());
            return false;
        }
    }
    true
}

fn comes_before<N: Number>(a: &Vec<N>, b: &Vec<N>) -> (r: bool)
    ensures
        r == precedes::<N>(vals(a@), vals(b@), 0),
{
    let mut c: usize = 0;
    while c < a.len() && c < b.len()
        invariant
            c <= a@.len(),
            c <= b@.len(),
            precedes::<N>(vals(a@), vals(b@), 0) == precedes::<N>(vals(a@), vals(b@), c as int),
        decreases a@.len() - c,
    {
        assert(vals(a@)[c as int] == a@[c as int].value());
        assert(vals(b@)[c as int] == b@[c as int].value());
        if !(a[c].le(&b[c]) && b[c].le(&a[c])) {
            return a[c].lt(&b[c]);
        }
        c = c + 1;
    }
    false
}

/// The vectors in order, equal ones as they came.
fn sort<N: Number>(all: Vec<Vec<N>>) -> (r: Vec<Vec<N>>)
    ensures
        points(r@) == sorted::<N>(points(all@)),
{
    let mut rest = reversed(all);
    let mut r: Vec<Vec<N>> = Vec::new();
    let ghost ps = points(all@);
    let n = rest.len();
    assert(ps.take(0) =~= Seq::empty());
    assert(points(r@) =~= sorted::<N>(ps.take(0)));
    for i in 0..n
        invariant
            n == all@.len(),
            rest@.len() == n - i,
            forall|j: int| 0 <= j < rest@.len() ==> #[trigger] rest@[j] == all@[n - 1 - j],
            ps == points(all@),
            points(r@) == sorted::<N>(ps.take(i as int)),
    {
        let x = rest.pop().unwrap();
        assert(x == all@[i as int]);
        let ghost before = points(r@);
        let mut at = r.len();
        assert(before.take(before.len() as int) =~= before);
        assert(before.skip(before.len() as int) =~= Seq::empty());
        let ghost goal = inserted::<N>(before, vals(x@));
        assert(goal =~= inserted::<N>(before.take(at as int), vals(x@)) + before.skip(at as int));
        while at > 0 && comes_before(&x, &r[at - 1])
            invariant
                at <= r@.len(),
                before == points(r@),
                goal == inserted::<N>(before.take(at as int), vals(x@)) + before.skip(at as int),
            decreases at,
        {
            proof {
                let a = before.take(at as int);
                assert(a.last() == vals(r@[at - 1]@));
                assert(a.drop_last() =~= before.take(at - 1));
                let b = inserted::<N>(before.take(at - 1), vals(x@));
                assert(b.push(a.last()) + before.skip(at as int) =~= b + before.skip(at - 1));
            }
            at = at - 1;
        }
        proof {
            let a = before.take(at as int);
            if at > 0 {
                assert(a.last() == vals(r@[at - 1]@));
            }
            assert(goal =~= a.push(vals(x@)) + before.skip(at as int));
            assert(ps.take(i + 1).drop_last() =~= ps.take(i as int));
            assert(ps.take(i + 1).last() == vals(x@));
        }
        r.insert(at, x);
        assert(points(r@) =~= goal);
    }
    assert(ps.take(n as int) =~= ps);
    r
}

/// Keeps the minimal vectors: one that another dominates componentwise can never
/// be the only witness of a threshold.
pub fn pareto<N: Number>(all: Vec<Vec<N>>) -> (r: Vec<Vec<N>>)
    ensures
        points(r@) == pareto_v::<N>(points(all@)),
{
    let order = sort(all);
    let ghost ps = points(order@);
    let mut rest = reversed(order);
    let mut kept: Vec<Vec<N>> = Vec::new();
    let n = rest.len();
    assert(ps.take(0) =~= Seq::empty());
    assert(points(kept@) =~= sieved::<N>(ps.take(0)));
    for i in 0..n
        invariant
            n == order@.len(),
            rest@.len() == n - i,
            forall|j: int| 0 <= j < rest@.len() ==> #[trigger] rest@[j] == order@[n - 1 - j],
            ps == points(order@),
            points(kept@) == sieved::<N>(ps.take(i as int)),
    {
        let p = rest.pop().unwrap();
        let ghost before = points(kept@);
        proof {
            assert(p == order@[i as int]);
            assert(ps.take(i + 1).drop_last() =~= ps.take(i as int));
            assert(ps.take(i + 1).last() == vals(p@));
        }
        let mut out = false;
        for j in 0..kept.len()
            invariant
                before == points(kept@),
                out == exists|q: int|
                    0 <= q < j && at_most::<N>(#[trigger] before[q], vals(p@)),
        {
            assert(before[j as int] == vals(kept@[j as int]@));
            if leq_all(&kept[j], &p) {
                out = true;
            }
        }
        if !out {
            let mut left = reversed(kept);
            let m = left.len();
            let ghost k0 = kept@;
            kept = Vec::new();
            assert(before.take(0) =~= Seq::empty());
            assert(points(kept@) =~= undominated::<N>(before.take(0), vals(p@)));
            for j in 0..m
                invariant
                    m == k0.len(),
                    before == points(k0),
                    left@.len() == m - j,
                    forall|q: int| 0 <= q < left@.len() ==> #[trigger] left@[q] == k0[m - 1 - q],
                    points(kept@) == undominated::<N>(before.take(j as int), vals(p@)),
            {
                let q = left.pop().unwrap();
                let ghost kept0 = points(kept@);
                proof {
                    assert(q == k0[j as int]);
                    assert(before.take(j + 1).drop_last() =~= before.take(j as int));
                    assert(before.take(j + 1).last() == vals(q@));
                }
                if !leq_all(&p, &q) {
                    kept.push(q);
                    assert(points(kept@) =~= kept0.push(vals(q@)));
                }
            }
            assert(before.take(m as int) =~= before);
            let ghost kept0 = points(kept@);
            kept.push(p);
            assert(points(kept@) =~= kept0.push(vals(p@)));
        }
    }
    assert(ps.take(n as int) =~= ps);
    kept
}

// ---------------------------------------------------------------------------
// achievable sets
// ---------------------------------------------------------------------------

/// `{ a + p (i + t) }` for the first `n` vectors `t`.
pub open spec fn row_v<N: Number>(
    a: Seq<N::Value>,
    tail: Points<N::Value>,
    l: Leaf<N::Value>,
    n: int,
) -> Points<N::Value> {
    Seq::new(n as nat, |j: int| sum_v::<N>(a, share_v::<N>(l, tail[j])))
}

/// `{ a + p (i + t) }` for every `a` of one set and every `t` of another.
pub open spec fn product_v<N: Number>(
    acc: Points<N::Value>,
    tail: Points<N::Value>,
    l: Leaf<N::Value>,
) -> Points<N::Value>
    decreases acc.len(),
{
    if acc.len() == 0 {
        Seq::empty()
    } else {
        product_v::<N>(acc.drop_last(), tail, l) + row_v::<N>(
            acc.last(),
            tail,
            l,
            tail.len() as int,
        )
    }
}

/// A product as far as a `usize` can count.
pub open spec fn counted(a: int, b: int) -> int {
    if a * b > usize::MAX {
        usize::MAX as int
    } else {
        a * b
    }
}

/// The minimal ones of a product, unless there are too many.
pub open spec fn combined<N: Number>(
    acc: Points<N::Value>,
    tail: Points<N::Value>,
    l: Leaf<N::Value>,
    cap: usize,
) -> Option<Points<N::Value>> {
    let r = pareto_v::<N>(product_v::<N>(acc, tail, l));
    if counted(acc.len() as int, tail.len() as int) > counted(cap as int, 64) || r.len() > cap {
        None
    } else {
        Some(r)
    }
}

/// What can be achieved from a choice state, unless there is too much of it.
pub open spec fn set_v<N: Number>(t: &Tree<N>, s: Seq<i8>, cap: usize) -> Option<Points<N::Value>>
    decreases t.net().work(s), 1nat, 0nat,
{
    if !t.wf() || !valid(t.net().nodes, s) || rank(t.net().nodes, s) is None {
        Some(seq![zeros_v::<N>(t.k as nat)])
    } else {
        let low = fold_v(t, reply(t, s, child_of(t, s, Branch::Low)), cap, t.net().work(s));
        let high = fold_v(t, reply(t, s, child_of(t, s, Branch::High)), cap, t.net().work(s));
        if low is Some && high is Some {
            let r = pareto_v::<N>(low.unwrap() + high.unwrap());
            if r.len() > cap {
                None
            } else {
                Some(r)
            }
        } else {
            None
        }
    }
}

/// What can be achieved over these outcomes, one after the other, unless there
/// is too much of it. Outcomes end where less than `work` is left.
pub open spec fn fold_v<N: Number>(
    t: &Tree<N>,
    ls: Seq<Leaf<N::Value>>,
    cap: usize,
    work: nat,
) -> Option<Points<N::Value>>
    decreases work, 0nat, ls.len(),
{
    if ls.len() == 0 {
        Some(seq![zeros_v::<N>(t.k as nat)])
    } else {
        let l = ls.last();
        let acc = fold_v(t, ls.drop_last(), cap, work);
        let tail = if t.net().work(l.state) < work {
            set_v(t, l.state, cap)
        } else {
            None
        };
        if acc is Some && tail is Some {
            combined::<N>(acc.unwrap(), tail.unwrap(), l, cap)
        } else {
            None
        }
    }
}

/// What can be achieved over these outcomes, unless there is too much of it.
pub open spec fn spread_v<N: Number>(t: &Tree<N>, ls: Seq<Leaf<N::Value>>, cap: usize) -> Option<
    Points<N::Value>,
>
    decreases ls.len(),
{
    if ls.len() == 0 {
        Some(seq![zeros_v::<N>(t.k as nat)])
    } else {
        let l = ls.last();
        let acc = spread_v(t, ls.drop_last(), cap);
        let tail = set_v(t, l.state, cap);
        if acc is Some && tail is Some {
            combined::<N>(acc.unwrap(), tail.unwrap(), l, cap)
        } else {
            None
        }
    }
}

/// Where every outcome leaves less to do, the guard of the recursion is idle.
pub proof fn fold_is_spread<N: Number>(t: &Tree<N>, ls: Seq<Leaf<N::Value>>, cap: usize, work: nat)
    requires
        forall|i: int| 0 <= i < ls.len() ==> t.net().work((#[trigger] ls[i]).state) < work,
    ensures
        fold_v(t, ls, cap, work) == spread_v(t, ls, cap),
    decreases ls.len(),
{
    if ls.len() > 0 {
        let a = ls.drop_last();
        assert forall|i: int| 0 <= i < a.len() implies t.net().work((#[trigger] a[i]).state)
            < work by {
            assert(a[i] == ls[i]);
        }
        fold_is_spread(t, a, cap, work);
        assert(ls[ls.len() - 1] == ls.last());
    }
}

/// Too much to achieve over the first outcomes is too much over all.
proof fn spread_prefix<N: Number>(t: &Tree<N>, ls: Seq<Leaf<N::Value>>, n: int, cap: usize)
    requires
        0 <= n <= ls.len(),
        spread_v(t, ls.take(n), cap) is None,
    ensures
        spread_v(t, ls, cap) is None,
    decreases ls.len() - n,
{
    if n < ls.len() {
        assert(ls.take(n + 1).drop_last() =~= ls.take(n));
        spread_prefix(t, ls, n + 1, cap);
    } else {
        assert(ls.take(n) =~= ls);
    }
}

/// A choice achieves what either of its branches does.
pub proof fn set_chosen<N: Number>(t: &Tree<N>, s: Seq<i8>, cap: usize)
    requires
        t.wf(),
        valid(t.net().nodes, s),
        rank(t.net().nodes, s) is Some,
        rank(t.net().nodes, s).unwrap().0 == 1,
    ensures
        set_v(t, s, cap) == ({
            let low = spread_v(t, reply(t, s, child_of(t, s, Branch::Low)), cap);
            let high = spread_v(t, reply(t, s, child_of(t, s, Branch::High)), cap);
            if low is Some && high is Some {
                let r = pareto_v::<N>(low.unwrap() + high.unwrap());
                if r.len() > cap {
                    None
                } else {
                    Some(r)
                }
            } else {
                None
            }
        }),
{
    reply_descends(t, s, Branch::Low);
    reply_descends(t, s, Branch::High);
    fold_is_spread(t, reply(t, s, child_of(t, s, Branch::Low)), cap, t.net().work(s));
    fold_is_spread(t, reply(t, s, child_of(t, s, Branch::High)), cap, t.net().work(s));
}

/// Every vector of the set has this many components.
pub open spec fn wide<V>(s: Points<V>, k: nat) -> bool {
    forall|i: int| 0 <= i < s.len() ==> (#[trigger] s[i]).len() == k
}

proof fn inserted_from<N: Number>(s: Points<N::Value>, x: Seq<N::Value>)
    ensures
        forall|i: int|
            0 <= i < inserted::<N>(s, x).len() ==> s.contains(#[trigger] inserted::<N>(s, x)[i])
                || inserted::<N>(s, x)[i] == x,
        forall|y: Seq<N::Value>|
            #![trigger s.contains(y)]
            #![trigger inserted::<N>(s, x).contains(y)]
            s.contains(y) ==> inserted::<N>(s, x).contains(y),
        inserted::<N>(s, x).contains(x),
        inserted::<N>(s, x).len() == s.len() + 1,
    decreases s.len(),
{
    let r = inserted::<N>(s, x);
    if s.len() > 0 && precedes::<N>(x, s.last(), 0) {
        let a = s.drop_last();
        let q = inserted::<N>(a, x);
        inserted_from::<N>(a, x);
        assert forall|i: int| 0 <= i < r.len() implies s.contains(#[trigger] r[i]) || r[i] == x by {
            if i < q.len() {
                assert(r[i] == q[i]);
                if a.contains(q[i]) {
                    let j = a.index_of(q[i]);
                    assert(s[j] == q[i]);
                }
            } else {
                assert(r[i] == s[s.len() - 1]);
            }
        }
        assert forall|y: Seq<N::Value>| s.contains(y) implies #[trigger] r.contains(y) by {
            let j = s.index_of(y);
            if j < a.len() {
                assert(a[j] == y);
                assert(a.contains(y));
                assert(q.contains(y));
                let m = q.index_of(y);
                assert(r[m] == y);
            } else {
                assert(r[q.len() as int] == y);
            }
        }
        let m = q.index_of(x);
        assert(r[m] == x);
    } else {
        assert forall|y: Seq<N::Value>| s.contains(y) implies #[trigger] r.contains(y) by {
            let j = s.index_of(y);
            assert(r[j] == y);
        }
        assert(r[s.len() as int] == x);
    }
}

/// Sorting keeps the vectors.
pub proof fn sorted_from<N: Number>(s: Points<N::Value>)
    ensures
        forall|y: Seq<N::Value>| s.contains(y) <==> #[trigger] sorted::<N>(s).contains(y),
        sorted::<N>(s).len() == s.len(),
    decreases s.len(),
{
    if s.len() > 0 {
        let a = s.drop_last();
        sorted_from::<N>(a);
        let q = sorted::<N>(a);
        let r = sorted::<N>(s);
        inserted_from::<N>(q, s.last());
        assert forall|y: Seq<N::Value>| s.contains(y) <==> #[trigger] r.contains(y) by {
            if s.contains(y) {
                let j = s.index_of(y);
                if j < a.len() {
                    assert(a[j] == y);
                    assert(a.contains(y));
                    assert(q.contains(y));
                }
            }
            if r.contains(y) {
                let j = r.index_of(y);
                if q.contains(r[j]) {
                    assert(a.contains(y));
                    let m = a.index_of(y);
                    assert(s[m] == y);
                } else {
                    assert(s[s.len() - 1] == y);
                }
            }
        }
    }
}

pub proof fn undominated_from<N: Number>(s: Points<N::Value>, p: Seq<N::Value>)
    ensures
        forall|y: Seq<N::Value>|
            #[trigger] undominated::<N>(s, p).contains(y) <==> s.contains(y) && !at_most::<N>(p, y),
    decreases s.len(),
{
    if s.len() > 0 {
        let a = s.drop_last();
        undominated_from::<N>(a, p);
        let q = undominated::<N>(a, p);
        let r = undominated::<N>(s, p);
        assert forall|y: Seq<N::Value>| #[trigger] r.contains(y) <==> s.contains(y) && !at_most::<N>(
            p,
            y,
        ) by {
            if r.contains(y) {
                let j = r.index_of(y);
                if j < q.len() {
                    assert(q[j] == y);
                    assert(q.contains(y));
                    let m = a.index_of(y);
                    assert(s[m] == y);
                } else {
                    assert(s[s.len() - 1] == y);
                }
            }
            if s.contains(y) && !at_most::<N>(p, y) {
                let j = s.index_of(y);
                if j < a.len() {
                    assert(a[j] == y);
                    assert(q.contains(y));
                    let m = q.index_of(y);
                    assert(r[m] == y);
                } else {
                    assert(r[q.len() as int] == y);
                }
            }
        }
    }
}

proof fn sieved_from<N: Number>(s: Points<N::Value>)
    ensures
        forall|y: Seq<N::Value>| #[trigger] sieved::<N>(s).contains(y) ==> s.contains(y),
    decreases s.len(),
{
    if s.len() > 0 {
        let a = s.drop_last();
        sieved_from::<N>(a);
        let kept = sieved::<N>(a);
        let r = sieved::<N>(s);
        undominated_from::<N>(kept, s.last());
        assert forall|y: Seq<N::Value>| #[trigger] r.contains(y) implies s.contains(y) by {
            let j = r.index_of(y);
            if !dominated::<N>(kept, s.last()) && j == r.len() - 1 {
                assert(s[s.len() - 1] == y);
            } else {
                if !dominated::<N>(kept, s.last()) {
                    let u = undominated::<N>(kept, s.last());
                    assert(u[j] == y);
                    assert(u.contains(y));
                }
                assert(kept.contains(y));
                let m = a.index_of(y);
                assert(s[m] == y);
            }
        }
    }
}

/// The minimal vectors are among the vectors.
pub proof fn pareto_from<N: Number>(s: Points<N::Value>)
    ensures
        forall|y: Seq<N::Value>| #[trigger] pareto_v::<N>(s).contains(y) ==> s.contains(y),
{
    sorted_from::<N>(s);
    sieved_from::<N>(sorted::<N>(s));
    assert forall|y: Seq<N::Value>| #[trigger] pareto_v::<N>(s).contains(y) implies s.contains(
        y,
    ) by {
        assert(sorted::<N>(s).contains(y));
    }
}

pub proof fn pareto_wide<N: Number>(s: Points<N::Value>, k: nat)
    requires
        wide(s, k),
    ensures
        wide(pareto_v::<N>(s), k),
{
    pareto_from::<N>(s);
    let r = pareto_v::<N>(s);
    assert forall|i: int| 0 <= i < r.len() implies (#[trigger] r[i]).len() == k by {
        assert(r.contains(r[i]));
        let j = s.index_of(r[i]);
        assert(s[j].len() == k);
    }
}

/// A vector of a product, and where it comes from.
pub proof fn product_from<N: Number>(
    acc: Points<N::Value>,
    tail: Points<N::Value>,
    l: Leaf<N::Value>,
)
    ensures
        product_v::<N>(acc, tail, l).len() == acc.len() * tail.len(),
        forall|y: Seq<N::Value>|
            #[trigger] product_v::<N>(acc, tail, l).contains(y) ==> exists|i: int, j: int|
                0 <= i < acc.len() && 0 <= j < tail.len() && y == #[trigger] sum_v::<N>(
                    acc[i],
                    share_v::<N>(l, tail[j]),
                ),
        forall|i: int, j: int|
            0 <= i < acc.len() && 0 <= j < tail.len() ==> product_v::<N>(acc, tail, l).contains(
                #[trigger] sum_v::<N>(acc[i], share_v::<N>(l, tail[j])),
            ),
    decreases acc.len(),
{
    let r = product_v::<N>(acc, tail, l);
    if acc.len() > 0 {
        let a = acc.drop_last();
        let q = product_v::<N>(a, tail, l);
        let w = row_v::<N>(acc.last(), tail, l, tail.len() as int);
        product_from::<N>(a, tail, l);
        let (x, y) = (a.len() as int, tail.len() as int);
        assert((x + 1) * y == x * y + y) by (nonlinear_arith);
        assert forall|y: Seq<N::Value>| #[trigger] r.contains(y) implies exists|i: int, j: int|
            0 <= i < acc.len() && 0 <= j < tail.len() && y == #[trigger] sum_v::<N>(
                acc[i],
                share_v::<N>(l, tail[j]),
            ) by {
            let m = r.index_of(y);
            if m < q.len() {
                assert(q[m] == y);
                assert(q.contains(y));
                let (i, j) = choose|i: int, j: int|
                    0 <= i < a.len() && 0 <= j < tail.len() && y == #[trigger] sum_v::<N>(
                        a[i],
                        share_v::<N>(l, tail[j]),
                    );
                assert(y == sum_v::<N>(acc[i], share_v::<N>(l, tail[j])));
            } else {
                let j = m - q.len();
                assert(w[j] == y);
                assert(y == sum_v::<N>(acc[acc.len() - 1], share_v::<N>(l, tail[j])));
            }
        }
        assert forall|i: int, j: int| 0 <= i < acc.len() && 0 <= j < tail.len() implies r.contains(
            #[trigger] sum_v::<N>(acc[i], share_v::<N>(l, tail[j])),
        ) by {
            let y = sum_v::<N>(acc[i], share_v::<N>(l, tail[j]));
            if i < a.len() {
                assert(a[i] == acc[i]);
                assert(q.contains(y));
                let m = q.index_of(y);
                assert(r[m] == y);
            } else {
                assert(w[j] == y);
                assert(r[q.len() + j] == y);
            }
        }
    } else {
        let y = tail.len() as int;
        assert(0 * y == 0) by (nonlinear_arith);
    }
}

proof fn product_wide<N: Number>(
    acc: Points<N::Value>,
    tail: Points<N::Value>,
    l: Leaf<N::Value>,
    k: nat,
)
    requires
        wide(acc, k),
    ensures
        wide(product_v::<N>(acc, tail, l), k),
{
    let r = product_v::<N>(acc, tail, l);
    product_from::<N>(acc, tail, l);
    assert forall|i: int| 0 <= i < r.len() implies (#[trigger] r[i]).len() == k by {
        assert(r.contains(r[i]));
        let (a, b) = choose|a: int, b: int|
            0 <= a < acc.len() && 0 <= b < tail.len() && r[i] == #[trigger] sum_v::<N>(
                acc[a],
                share_v::<N>(l, tail[b]),
            );
        assert(acc[a].len() == k);
    }
}

pub proof fn spread_wide<N: Number>(t: &Tree<N>, ls: Seq<Leaf<N::Value>>, cap: usize)
    ensures
        spread_v(t, ls, cap) matches Some(p) ==> wide(p, t.k as nat),
    decreases ls.len(),
{
    if ls.len() > 0 {
        spread_wide(t, ls.drop_last(), cap);
        if spread_v(t, ls, cap) is Some {
            let acc = spread_v(t, ls.drop_last(), cap).unwrap();
            let tail = set_v(t, ls.last().state, cap).unwrap();
            product_wide::<N>(acc, tail, ls.last(), t.k as nat);
            pareto_wide::<N>(product_v::<N>(acc, tail, ls.last()), t.k as nat);
        }
    }
}

pub proof fn set_wide<N: Number>(t: &Tree<N>, s: Seq<i8>, cap: usize)
    requires
        stops(t, s),
    ensures
        set_v(t, s, cap) matches Some(p) ==> wide(p, t.k as nat),
{
    if t.wf() && valid(t.net().nodes, s) && rank(t.net().nodes, s) is Some && set_v(t, s, cap) is Some {
        set_chosen(t, s, cap);
        let ls = reply(t, s, child_of(t, s, Branch::Low));
        let hs = reply(t, s, child_of(t, s, Branch::High));
        spread_wide(t, ls, cap);
        spread_wide(t, hs, cap);
        let u = spread_v(t, ls, cap).unwrap() + spread_v(t, hs, cap).unwrap();
        assert(wide(u, t.k as nat)) by {
            assert forall|i: int| 0 <= i < u.len() implies (#[trigger] u[i]).len() == t.k by {
                if i < spread_v(t, ls, cap).unwrap().len() {
                    assert(u[i] == spread_v(t, ls, cap).unwrap()[i]);
                } else {
                    assert(u[i] == spread_v(t, hs, cap).unwrap()[i - spread_v(t, ls, cap).unwrap().len()]);
                }
            }
        }
        pareto_wide::<N>(u, t.k as nat);
    }
}

/// The same vectors once more.
fn dup_points<N: Number>(v: &Vec<Vec<N>>) -> (r: Vec<Vec<N>>)
    ensures
        points(r@) == points(v@),
{
    let mut r: Vec<Vec<N>> = Vec::new();
    for i in 0..v.len()
        invariant
            r@.len() == i,
            forall|j: int| 0 <= j < i ==> vals((#[trigger] r@[j])@) == vals(v@[j]@),
    {
        r.push(dup_vec(&v[i]));
    }
    assert(points(r@) =~= points(v@));
    r
}

/// `a b`, as far as a `usize` can count.
fn product_of(a: usize, b: usize) -> (r: usize)
    ensures
        r == counted(a as int, b as int),
{
    match a.checked_mul(b) {
        Some(p) => p,
        None => usize::MAX,
    }
}

/// `{ a + p (i + t) : a in acc, t in tail }`, Pareto filtered.
fn combine<N: Number>(
    acc: &Vec<Vec<N>>,
    tail: &Vec<Vec<N>>,
    p: &N,
    i: &Vec<N>,
    cap: usize,
    Ghost(l): Ghost<Leaf<N::Value>>,
) -> (r: Result<Vec<Vec<N>>, BruteError>)
    requires
        wide(points(acc@), i@.len()),
        wide(points(tail@), i@.len()),
        l.prob == p.value(),
        l.impact == vals(i@),
    ensures
        match r {
            Ok(v) => combined::<N>(points(acc@), points(tail@), l, cap) == Some(points(v@)),
            Err(e) => e == BruteError::TooWide(cap) && combined::<N>(
                points(acc@),
                points(tail@),
                l,
                cap,
            ) is None,
        },
{
    if product_of(acc.len(), tail.len()) > product_of(cap, 64) {
        return Err(BruteError::TooWide(cap));
    }
    let ghost (a0, t0) = (points(acc@), points(tail@));
    let mut out: Vec<Vec<N>> = Vec::new();
    assert(a0.take(0) =~= Seq::empty());
    assert(points(out@) =~= product_v::<N>(a0.take(0), t0, l));
    for x in 0..acc.len()
        invariant
            a0 == points(acc@),
            t0 == points(tail@),
            wide(a0, i@.len()),
            wide(t0, i@.len()),
            l.prob == p.value(),
            l.impact == vals(i@),
            points(out@) == product_v::<N>(a0.take(x as int), t0, l),
    {
        let ghost before = points(out@);
        let ghost a = a0[x as int];
        assert(a == vals(acc@[x as int]@));
        assert(row_v::<N>(a, t0, l, 0) =~= Seq::empty());
        assert(points(out@) =~= before + row_v::<N>(a, t0, l, 0));
        for y in 0..tail.len()
            invariant
                x < acc@.len(),
                a0 == points(acc@),
                t0 == points(tail@),
                wide(a0, i@.len()),
                wide(t0, i@.len()),
                l.prob == p.value(),
                l.impact == vals(i@),
                a == vals(acc@[x as int]@),
                a == a0[x as int],
                points(out@) == before + row_v::<N>(a, t0, l, y as int),
        {
            let ghost mid = points(out@);
            proof {
                assert(t0[y as int] == vals(tail@[y as int]@));
                assert(a0[x as int].len() == i@.len());
                assert(t0[y as int].len() == i@.len());
                assert(vals(acc@[x as int]@).len() == acc@[x as int]@.len());
                assert(vals(tail@[y as int]@).len() == tail@[y as int]@.len());
            }
            let v = add_share(&acc[x], p, i, &tail[y]);
            assert(vals(v@) =~= sum_v::<N>(a, share_v::<N>(l, t0[y as int])));
            out.push(v);
            proof {
                assert(points(out@) =~= mid.push(vals(v@)));
                assert(row_v::<N>(a, t0, l, y + 1) =~= row_v::<N>(a, t0, l, y as int).push(
                    vals(v@),
                ));
                assert(points(out@) =~= before + row_v::<N>(a, t0, l, y + 1));
            }
        }
        assert(a0.take(x + 1).drop_last() =~= a0.take(x as int));
        assert(a0.take(x + 1).last() == a);
    }
    assert(a0.take(a0.len() as int) =~= a0);
    let out = pareto(out);
    if out.len() > cap {
        assert(points(out@).len() == out@.len());
        return Err(BruteError::TooWide(cap));
    }
    assert(points(out@).len() == out@.len());
    Ok(out)
}

// ---------------------------------------------------------------------------
// the course of a brute-force pass
// ---------------------------------------------------------------------------

/// Why a brute-force pass stops before its end.
pub enum Fault {
    /// A macro step has more outcomes than can be held.
    Wide,
    /// There are more points than the cap allows.
    Much,
}

/// What a brute-force pass may come to hold.
pub struct Bounds {
    pub points: usize,
    pub outcomes: usize,
}

pub struct Survey {
    pub pass: Pass,
    pub fault: Option<Fault>,
}

/// A pass looks at a choice state, unless it is done with it: the low branch
/// first, then the high one, then the two together, and it stops where it first
/// has to.
#[verifier::opaque]
pub open spec fn survey_v<N: Number>(t: &Tree<N>, p: Pass, s: Seq<i8>, caps: Bounds) -> Survey
    decreases t.net().work(s), 2nat, 0nat,
{
    if p.done.contains(s) {
        Survey { pass: p, fault: None }
    } else if rank(t.net().nodes, s) is None {
        Survey { pass: Pass { done: p.done.insert(s), ..p }, fault: None }
    } else {
        let low = branch_survey(t, p, s, Branch::Low, caps);
        if low.fault is Some {
            low
        } else {
            let high = branch_survey(t, low.pass, s, Branch::High, caps);
            if high.fault is Some {
                high
            } else if set_v(t, s, caps.points) is None {
                Survey { pass: high.pass, fault: Some(Fault::Much) }
            } else {
                Survey { pass: Pass { done: high.pass.done.insert(s), ..high.pass }, fault: None }
            }
        }
    }
}

/// A pass takes a macro step and looks at where its outcomes end.
#[verifier::opaque]
pub open spec fn branch_survey<N: Number>(
    t: &Tree<N>,
    p: Pass,
    s: Seq<i8>,
    b: Branch,
    caps: Bounds,
) -> Survey
    decreases t.net().work(s), 1nat, 0nat,
{
    let ls = reply(t, s, child_of(t, s, b));
    if !holdable(ls, caps.outcomes) {
        Survey { pass: p, fault: Some(Fault::Wide) }
    } else {
        surveys_v(t, Pass { lore: step_lore(t, p.lore, s, b), ..p }, ls, caps, t.net().work(s))
    }
}

/// A pass looks at where these outcomes end, in their order, and combines what
/// each achieves with what those before it do. They end where less than `work`
/// is left.
#[verifier::opaque]
pub open spec fn surveys_v<N: Number>(
    t: &Tree<N>,
    p: Pass,
    ls: Seq<Leaf<N::Value>>,
    caps: Bounds,
    work: nat,
) -> Survey
    decreases work, 0nat, ls.len(),
{
    if ls.len() == 0 {
        Survey { pass: p, fault: None }
    } else {
        let a = surveys_v(t, p, ls.drop_last(), caps, work);
        if a.fault is Some || t.net().work(ls.last().state) >= work {
            a
        } else {
            let b = survey_v(t, a.pass, ls.last().state, caps);
            if b.fault is None && spread_v(t, ls, caps.points) is None {
                Survey { pass: b.pass, fault: Some(Fault::Much) }
            } else {
                b
            }
        }
    }
}

/// The whole of a brute-force pass over tables that hold this much.
pub open spec fn sweep_v<N: Number>(t: &Tree<N>, lore: Lore, caps: Bounds) -> Survey {
    let ls = opening(t);
    if !holdable(ls, caps.outcomes) {
        Survey { pass: Pass { lore, done: Set::empty() }, fault: Some(Fault::Wide) }
    } else {
        surveys_v(
            t,
            Pass { lore: first_lore(t, lore), done: Set::empty() },
            ls,
            caps,
            t.net().work(t.net().initial()) + 1,
        )
    }
}

/// The error a pass that stopped is reported as.
pub open spec fn faulted(e: BruteError, f: Option<Fault>, caps: Bounds) -> bool {
    match f {
        None => false,
        Some(Fault::Wide) => e == BruteError::Step(StepError::TooManyOutcomes(caps.outcomes)),
        Some(Fault::Much) => e == BruteError::TooWide(caps.points),
    }
}

/// What a pass is held to.
pub open spec fn bounds_of<N: Number>(store: &Store<N>, cap: usize) -> Bounds {
    Bounds { points: cap, outcomes: store.engine.max_outcomes }
}

/// What a pass does at a choice state.
proof fn survey_is<N: Number>(t: &Tree<N>, p: Pass, s: Seq<i8>, caps: Bounds)
    ensures
        survey_v(t, p, s, caps) == (if p.done.contains(s) {
            Survey { pass: p, fault: None }
        } else if rank(t.net().nodes, s) is None {
            Survey { pass: Pass { done: p.done.insert(s), ..p }, fault: None }
        } else {
            let low = branch_survey(t, p, s, Branch::Low, caps);
            if low.fault is Some {
                low
            } else {
                let high = branch_survey(t, low.pass, s, Branch::High, caps);
                if high.fault is Some {
                    high
                } else if set_v(t, s, caps.points) is None {
                    Survey { pass: high.pass, fault: Some(Fault::Much) }
                } else {
                    Survey {
                        pass: Pass { done: high.pass.done.insert(s), ..high.pass },
                        fault: None,
                    }
                }
            }
        }),
{
    reveal(survey_v);
    reveal(branch_survey);
    reveal(surveys_v);
}

/// What a pass does at a macro step.
proof fn branch_survey_is<N: Number>(t: &Tree<N>, p: Pass, s: Seq<i8>, b: Branch, caps: Bounds)
    ensures
        branch_survey(t, p, s, b, caps) == ({
            let ls = reply(t, s, child_of(t, s, b));
            if !holdable(ls, caps.outcomes) {
                Survey { pass: p, fault: Some(Fault::Wide) }
            } else {
                surveys_v(
                    t,
                    Pass { lore: step_lore(t, p.lore, s, b), ..p },
                    ls,
                    caps,
                    t.net().work(s),
                )
            }
        }),
{
    reveal(survey_v);
    reveal(branch_survey);
    reveal(surveys_v);
}

/// No outcome to look at.
proof fn surveys_none<N: Number>(
    t: &Tree<N>,
    p: Pass,
    ls: Seq<Leaf<N::Value>>,
    caps: Bounds,
    work: nat,
)
    ensures
        surveys_v(t, p, ls.take(0), caps, work) == (Survey { pass: p, fault: None }),
{
    reveal(survey_v);
    reveal(branch_survey);
    reveal(surveys_v);
    assert(ls.take(0) =~= Seq::empty());
}

/// One more outcome to look at.
proof fn surveys_next<N: Number>(
    t: &Tree<N>,
    p: Pass,
    ls: Seq<Leaf<N::Value>>,
    caps: Bounds,
    work: nat,
    n: int,
)
    requires
        0 <= n < ls.len(),
        surveys_v(t, p, ls.take(n), caps, work).fault is None,
        t.net().work(ls[n].state) < work,
    ensures
        surveys_v(t, p, ls.take(n + 1), caps, work) == ({
            let a = surveys_v(t, p, ls.take(n), caps, work);
            let b = survey_v(t, a.pass, ls[n].state, caps);
            if b.fault is None && spread_v(t, ls.take(n + 1), caps.points) is None {
                Survey { pass: b.pass, fault: Some(Fault::Much) }
            } else {
                b
            }
        }),
{
    reveal(survey_v);
    reveal(branch_survey);
    reveal(surveys_v);
    assert(ls.take(n + 1).drop_last() =~= ls.take(n));
    assert(ls.take(n + 1).last() == ls[n]);
}

/// A pass that stops at one of the first outcomes stops there.
proof fn surveys_prefix<N: Number>(
    t: &Tree<N>,
    p: Pass,
    ls: Seq<Leaf<N::Value>>,
    caps: Bounds,
    work: nat,
    n: int,
)
    requires
        0 <= n <= ls.len(),
        surveys_v(t, p, ls.take(n), caps, work).fault is Some,
    ensures
        surveys_v(t, p, ls, caps, work) == surveys_v(t, p, ls.take(n), caps, work),
    decreases ls.len() - n,
{
    if n < ls.len() {
        assert(ls.take(n + 1).drop_last() =~= ls.take(n));
        assert(surveys_v(t, p, ls.take(n + 1), caps, work) == surveys_v(
            t,
            p,
            ls.take(n),
            caps,
            work,
        )) by {
            reveal(survey_v);
            reveal(branch_survey);
            reveal(surveys_v);
        }
        surveys_prefix(t, p, ls, caps, work, n + 1);
    } else {
        assert(ls.take(n) =~= ls);
    }
}

/// What has been computed of the choice states so far.
pub struct Sets<N> {
    found: Vec<Option<Vec<Vec<N>>>>,
}

impl<N: Number> Sets<N> {
    /// Every entry is what can be achieved from its choice state, and nothing
    /// that can be reached from there is still to be met.
    closed spec fn inv(&self, store: &Store<N>, cap: usize) -> bool {
        &&& self.found@.len() <= store.records.choice_states@.len()
        &&& forall|i: int|
            0 <= i < self.found@.len() ==> (#[trigger] self.found@[i] matches Some(p) ==> {
                let s = store.records.choice_states@[i].state@;
                &&& set_v(store.tree, s, cap) == Some(points(p@))
                &&& narrow(store.tree, s, store.engine.max_outcomes)
                &&& explored(store, s)
            })
    }

    /// The choice state has been looked at.
    closed spec fn has(&self, cs: int) -> bool {
        0 <= cs < self.found@.len() && self.found@[cs] is Some
    }

    /// The choice states that have been looked at.
    closed spec fn done(&self, store: &Store<N>) -> Set<Seq<i8>> {
        Set::new(
            |x: Seq<i8>|
                exists|i: int| self.has(i) && #[trigger] store.records.choice_states@[i].state@ == x,
        )
    }

    /// How far the pass has come.
    closed spec fn pass(&self, store: &Store<N>) -> Pass {
        Pass { lore: store.lore(), done: self.done(store) }
    }

    proof fn inv_kept(&self, before: &Store<N>, store: &Store<N>, cap: usize)
        requires
            self.inv(before, cap),
            store.grown_from(before),
            took_kept(before, store),
        ensures
            self.inv(store, cap),
            self.done(store) == self.done(before),
    {
        assert forall|i: int| 0 <= i < self.found@.len() implies (
        #[trigger] self.found@[i] matches Some(p) ==> {
            let s = store.records.choice_states@[i].state@;
            &&& set_v(store.tree, s, cap) == Some(points(p@))
            &&& narrow(store.tree, s, store.engine.max_outcomes)
            &&& explored(store, s)
        }) by {
            assert(store.records.choice_states@[i] == before.records.choice_states@[i]);
            if self.found@[i] is Some {
                explored_kept(before, store, store.records.choice_states@[i].state@);
            }
        }
        assert forall|x: Seq<i8>| self.done(store).contains(x) == self.done(before).contains(x) by {
            if self.done(store).contains(x) {
                let i = choose|i: int|
                    self.has(i) && #[trigger] store.records.choice_states@[i].state@ == x;
                assert(before.records.choice_states@[i].state@ == x);
            }
            if self.done(before).contains(x) {
                let i = choose|i: int|
                    self.has(i) && #[trigger] before.records.choice_states@[i].state@ == x;
                assert(store.records.choice_states@[i].state@ == x);
            }
        }
        assert(self.done(store) =~= self.done(before));
    }

    /// A choice state is recorded once, so the place of it tells whether it has
    /// been looked at.
    proof fn done_has(&self, store: &Store<N>, cap: usize, cs: int)
        requires
            self.inv(store, cap),
            store.inv(),
            0 <= cs < store.records.choice_states@.len(),
        ensures
            self.done(store).contains(store.records.choice_states@[cs].state@) == self.has(cs),
    {
        let all = store.records.choice_states@;
        let x = all[cs].state@;
        if self.done(store).contains(x) {
            let i = choose|i: int| self.has(i) && #[trigger] all[i].state@ == x;
            if i < cs {
                assert(all[i].state@ != all[cs].state@);
            } else if cs < i {
                assert(all[cs].state@ != all[i].state@);
            }
        }
        if self.has(cs) {
            assert(all[cs].state@ == x);
        }
    }

    fn new() -> (r: Sets<N>)
        ensures
            forall|store: Store<N>, cap: usize| #[trigger] r.inv(&store, cap),
            forall|cs: int| !#[trigger] r.has(cs),
    {
        Sets { found: Vec::new() }
    }

    fn get(&self, cs: usize, Ghost(store): Ghost<Store<N>>, Ghost(cap): Ghost<usize>) -> (r: Option<
        Vec<Vec<N>>,
    >)
        requires
            self.inv(&store, cap),
            store.inv(),
            cs < store.records.choice_states@.len(),
        ensures
            r is Some == self.done(&store).contains(store.records.choice_states@[cs as int].state@),
            r matches Some(p) ==> {
                let s = store.records.choice_states@[cs as int].state@;
                &&& set_v(store.tree, s, cap) == Some(points(p@))
                &&& narrow(store.tree, s, store.engine.max_outcomes)
                &&& explored(&store, s)
            },
    {
        proof {
            self.done_has(&store, cap, cs as int);
        }
        if cs >= self.found.len() {
            return None;
        }
        match &self.found[cs] {
            Some(p) => Some(dup_points(p)),
            None => None,
        }
    }

    fn put(
        &mut self,
        cs: usize,
        set: &Vec<Vec<N>>,
        Ghost(store): Ghost<Store<N>>,
        Ghost(cap): Ghost<usize>,
    )
        requires
            old(self).inv(&store, cap),
            cs < store.records.choice_states@.len(),
            set_v(store.tree, store.records.choice_states@[cs as int].state@, cap) == Some(
                points(set@),
            ),
            narrow(
                store.tree,
                store.records.choice_states@[cs as int].state@,
                store.engine.max_outcomes,
            ),
            explored(&store, store.records.choice_states@[cs as int].state@),
        ensures
            final(self).inv(&store, cap),
            final(self).done(&store) == old(self).done(&store).insert(
                store.records.choice_states@[cs as int].state@,
            ),
    {
        while self.found.len() <= cs
            invariant
                self.inv(&store, cap),
                cs < store.records.choice_states@.len(),
                forall|j: int| #[trigger] self.has(j) == old(self).has(j),
            decreases cs + 1 - self.found@.len(),
        {
            let ghost before = *self;
            self.found.push(None);
            assert forall|j: int| #[trigger] self.has(j) == old(self).has(j) by {
                assert(before.has(j) == old(self).has(j));
            }
        }
        let ghost before = *self;
        self.found.set(cs, Some(dup_points(set)));
        proof {
            let all = store.records.choice_states@;
            let s = all[cs as int].state@;
            assert forall|j: int| #[trigger] self.has(j) == (old(self).has(j) || j == cs) by {
                assert(before.has(j) == old(self).has(j));
            }
            assert forall|x: Seq<i8>| #[trigger] self.done(&store).contains(x) == (old(self).done(
                &store,
            ).contains(x) || x == s) by {
                if self.done(&store).contains(x) {
                    let i = choose|i: int| self.has(i) && #[trigger] all[i].state@ == x;
                    assert(self.has(i));
                }
                if old(self).done(&store).contains(x) {
                    let i = choose|i: int| old(self).has(i) && #[trigger] all[i].state@ == x;
                    assert(self.has(i) && all[i].state@ == x);
                }
                if x == s {
                    assert(self.has(cs as int) && all[cs as int].state@ == x);
                }
            }
            assert(self.done(&store) =~= old(self).done(&store).insert(s));
        }
    }
}

/// A brute-force pass gave up for a reason: a macro step too wide to hold, or
/// more points than the cap.
pub open spec fn stuck(
    e: BruteError,
    max_outcomes: usize,
    cap: usize,
    wide: bool,
    too_much: bool,
) -> bool {
    match e {
        BruteError::Step(x) => x == StepError::TooManyOutcomes(max_outcomes) && wide,
        BruteError::TooWide(n) => n == cap && too_much,
    }
}

/// What can be achieved from a choice state.
#[verifier::rlimit(60)]
fn set_of<N: Number>(store: &mut Store<N>, cs: usize, memo: &mut Sets<N>, cap: usize) -> (r: Result<
    Vec<Vec<N>>,
    BruteError,
>)
    requires
        old(store).inv(),
        old(memo).inv(old(store), cap),
        cs < old(store).records.choice_states@.len(),
    ensures
        final(store).inv(),
        final(store).grown_from(old(store)),
        final(memo).inv(final(store), cap),
        took_kept(old(store), final(store)),
        adds_from(old(store), final(store), old(store).records.choice_states@[cs as int].state@),
        r is Ok ==> explored(final(store), old(store).records.choice_states@[cs as int].state@),
        ({
            let s = old(store).records.choice_states@[cs as int].state@;
            let v = survey_v(
                old(store).tree,
                old(memo).pass(old(store)),
                s,
                bounds_of(old(store), cap),
            );
            &&& final(memo).pass(final(store)) == v.pass
            &&& r is Ok == v.fault is None
            &&& r matches Err(e) ==> faulted(e, v.fault, bounds_of(old(store), cap))
        }),
        ({
            let s = old(store).records.choice_states@[cs as int].state@;
            let set = set_v(old(store).tree, s, cap);
            let max = old(store).engine.max_outcomes;
            match r {
                Ok(p) => set == Some(points(p@)) && narrow(old(store).tree, s, max),
                Err(e) => stuck(e, max, cap, !narrow(old(store).tree, s, max), set is None),
            }
        }),
    decreases old(store).tree.net().work(old(store).records.choice_states@[cs as int].state@), 1nat,
{
    let tree = store.tree;
    let ghost s = store.records.choice_states@[cs as int].state@;
    proof {
        survey_is(tree, memo.pass(store), s, bounds_of(store, cap));
        adds_none(store, s);
    }
    if let Some(found) = memo.get(cs, Ghost(*store), Ghost(cap)) {
        return Ok(found);
    }
    assert(store.cs_true(cs as int));
    if store.choice_state(cs).is_final() {
        let mut out: Vec<Vec<N>> = Vec::new();
        out.push(zeros(tree.k));
        assert(points(out@) =~= seq![zeros_v::<N>(tree.k as nat)]);
        proof {
            reveal(narrow);
            explored_end(store, cs as int);
        }
        memo.put(cs, &out, Ghost(*store), Ghost(cap));
        return Ok(out);
    }
    let ghost start = *store;
    proof {
        set_chosen(tree, s, cap);
        narrow_chosen(tree, s, store.engine.max_outcomes);
    }
    let mut union = match branch_set(store, cs, Branch::Low, memo, cap) {
        Ok(p) => p,
        Err(e) => {
            return Err(e);
        },
    };
    let ghost mid = *store;
    assert(store.records.choice_states@[cs as int] == start.records.choice_states@[cs as int]);
    let mut more = match branch_set(store, cs, Branch::High, memo, cap) {
        Ok(p) => p,
        Err(e) => {
            proof {
                adds_more(&start, &mid, store, s);
            }
            return Err(e);
        },
    };
    assert(store.records.choice_states@[cs as int] == mid.records.choice_states@[cs as int]);
    proof {
        adds_more(&start, &mid, store, s);
        let low = reply(tree, s, child_of(tree, s, Branch::Low));
        explored_all_kept(&mid, store, low, low.len() as int);
        explored_chosen(store, cs as int);
    }
    let ghost (a, b) = (points(union@), points(more@));
    union.append(&mut more);
    assert(points(union@) =~= a + b);
    let out = pareto(union);
    assert(points(out@).len() == out@.len());
    if out.len() > cap {
        return Err(BruteError::TooWide(cap));
    }
    memo.put(cs, &out, Ghost(*store), Ghost(cap));
    Ok(out)
}

/// What one branch of a choice achieves.
#[verifier::rlimit(80)]
fn branch_set<N: Number>(
    store: &mut Store<N>,
    cs: usize,
    branch: Branch,
    memo: &mut Sets<N>,
    cap: usize,
) -> (r: Result<Vec<Vec<N>>, BruteError>)
    requires
        old(store).inv(),
        old(memo).inv(old(store), cap),
        cs < old(store).records.choice_states@.len(),
        old(store).records.choice_states@[cs as int].stop != Stop::Final,
    ensures
        final(store).inv(),
        final(store).grown_from(old(store)),
        final(memo).inv(final(store), cap),
        took_kept(old(store), final(store)),
        adds_from(old(store), final(store), old(store).records.choice_states@[cs as int].state@),
        ({
            let s = old(store).records.choice_states@[cs as int].state@;
            let ls = reply(old(store).tree, s, child_of(old(store).tree, s, branch));
            let v = branch_survey(
                old(store).tree,
                old(memo).pass(old(store)),
                s,
                branch,
                bounds_of(old(store), cap),
            );
            &&& final(memo).pass(final(store)) == v.pass
            &&& r is Ok == v.fault is None
            &&& r matches Err(e) ==> faulted(e, v.fault, bounds_of(old(store), cap))
            &&& r is Ok ==> explored_all(final(store), ls, ls.len() as int) && final(store).took(
                s,
                branch,
            )
        }),
        ({
            let s = old(store).records.choice_states@[cs as int].state@;
            let ls = reply(old(store).tree, s, child_of(old(store).tree, s, branch));
            let set = spread_v(old(store).tree, ls, cap);
            let max = old(store).engine.max_outcomes;
            match r {
                Ok(p) => set == Some(points(p@)) && narrow_all(old(store).tree, ls, max),
                Err(e) => stuck(e, max, cap, !narrow_all(old(store).tree, ls, max), set is None),
            }
        }),
    decreases old(store).tree.net().work(old(store).records.choice_states@[cs as int].state@), 0nat,
{
    let tree = store.tree;
    let ghost s = store.records.choice_states@[cs as int].state@;
    let ghost start = *store;
    let ghost ls = reply(tree, s, child_of(tree, s, branch));
    assert(store.cs_true(cs as int));
    proof {
        branch_survey_is(tree, memo.pass(store), s, branch, bounds_of(store, cap));
    }
    let x = match store.extensions(cs, branch) {
        Ok(x) => x,
        Err(e) => {
            proof {
                adds_none(store, s);
            }
            return Err(BruteError::Step(e));
        },
    };
    let ghost caps = bounds_of(&start, cap);
    let ghost p = Pass { lore: store.lore(), done: memo.done(&start) };
    proof {
        surveys_none(tree, p, ls, caps, tree.net().work(s));
        adds_step(&start, store, s, branch);
        memo.inv_kept(&start, store, cap);
        reply_descends(tree, s, branch);
    }
    let n = store.records.extensions.get(x).len();
    let mut acc: Vec<Vec<N>> = Vec::new();
    acc.push(zeros(tree.k));
    proof {
        assert(store.records.outcomes(store.records.extensions@[x as int]@).len() == n);
        assert(ls.take(0) =~= Seq::empty());
        assert(points(acc@) =~= seq![zeros_v::<N>(tree.k as nat)]);
    }
    for i in 0..n
        invariant
            store.inv(),
            store.grown_from(old(store)),
            memo.inv(store, cap),
            took_kept(old(store), store),
            adds_from(old(store), store, s),
            explored_all(store, ls, i as int),
            store.took(s, branch),
            caps == bounds_of(old(store), cap),
            surveys_v(tree, p, ls.take(i as int), caps, tree.net().work(s)) == (Survey {
                pass: memo.pass(store),
                fault: None,
            }),
            branch_survey(tree, old(memo).pass(old(store)), s, branch, caps) == surveys_v(
                tree,
                p,
                ls,
                caps,
                tree.net().work(s),
            ),
            rank(tree.net().nodes, s) is Some,
            tree == store.tree,
            tree.wf(),
            tree == old(store).tree,
            s == old(store).records.choice_states@[cs as int].state@,
            ls == reply(tree, s, child_of(tree, s, branch)),
            x < store.records.extensions@.len(),
            store.extends(x as int, s, branch),
            n == ls.len(),
            n == store.records.extensions@[x as int]@.len(),
            spread_v(tree, ls.take(i as int), cap) == Some(points(acc@)),
            forall|j: int|
                0 <= j < i ==> narrow(tree, (#[trigger] ls[j]).state, store.engine.max_outcomes),
            forall|j: int|
                0 <= j < ls.len() ==> valid(tree.net().nodes, (#[trigger] ls[j]).state)
                    && tree.net().work(ls[j].state) < tree.net().work(s),
    {
        let ghost before = *store;
        let ghost es = store.records.extensions@[x as int]@;
        let ghost l = ls[i as int];
        let end = store.records.extensions.get(x)[i].cs;
        proof {
            assert(es[i as int].cs < store.records.choice_states@.len());
            assert(store.records.outcomes(es)[i as int] == l);
            assert(store.cs_true(end as int));
            assert(ls.take(i + 1).drop_last() =~= ls.take(i as int));
            assert(ls.take(i + 1).last() == l);
            assert(leads_to(tree, s, branch, i as int));
            surveys_next(tree, p, ls, caps, tree.net().work(s), i as int);
        }
        let tail = match set_of(store, end, memo, cap) {
            Ok(p) => p,
            Err(e) => {
                proof {
                    adds_below(&before, store, s, branch, i as int);
                    adds_more(old(store), &before, store, s);
                    surveys_prefix(tree, p, ls, caps, tree.net().work(s), i + 1);
                    if spread_v(tree, ls.take(i + 1), cap) is None {
                        spread_prefix(tree, ls, i + 1, cap);
                    }
                }
                return Err(e);
            },
        };
        proof {
            adds_below(&before, store, s, branch, i as int);
            adds_more(old(store), &before, store, s);
            explored_all_kept(&before, store, ls, i as int);
            store.extends_kept(&before, x as int, s, branch);
            assert(store.records.outcomes(es)[i as int] == l);
            assert(es[i as int].impact@.len() == tree.k);
            spread_wide(tree, ls.take(i as int), cap);
            set_wide(tree, l.state, cap);
        }
        let ext = &store.records.extensions.get(x)[i];
        acc = match combine(&acc, &tail, &ext.prob, &ext.impact, cap, Ghost(l)) {
            Ok(v) => v,
            Err(e) => {
                proof {
                    surveys_prefix(tree, p, ls, caps, tree.net().work(s), i + 1);
                    spread_prefix(tree, ls, i + 1, cap);
                }
                return Err(e);
            },
        };
    }
    assert(ls.take(n as int) =~= ls);
    Ok(acc)
}

/// Every Pareto-minimal value a deterministic policy achieves from the initial
/// state, or the reason why the pass gave up: the first thing in its course that
/// passed a cap.
#[verifier::rlimit(60)]
pub fn achievable<N: Number>(store: &mut Store<N>, cap: usize) -> (r: Result<
    Vec<Vec<N>>,
    BruteError,
>)
    requires
        old(store).inv(),
    ensures
        final(store).inv(),
        final(store).grown_from(old(store)),
        met_only(old(store), final(store)),
        r is Ok ==> met_all(final(store)),
        ({
            let v = sweep_v(old(store).tree, old(store).lore(), bounds_of(old(store), cap));
            &&& final(store).lore() == v.pass.lore
            &&& r is Ok == v.fault is None
            &&& r matches Err(e) ==> faulted(e, v.fault, bounds_of(old(store), cap))
        }),
        ({
            let t = old(store).tree;
            let set = spread_v(t, opening(t), cap);
            let max = old(store).engine.max_outcomes;
            match r {
                Ok(p) => set == Some(points(p@)) && narrow_all(t, opening(t), max),
                Err(e) => stuck(e, max, cap, !narrow_all(t, opening(t), max), set is None),
            }
        }),
{
    let tree = store.tree;
    let initial = match store.initial_histories() {
        Ok(v) => v,
        Err(e) => {
            return Err(BruteError::Step(e));
        },
    };
    let ghost start = *store;
    let ghost ls = opening(tree);
    let ghost caps = bounds_of(old(store), cap);
    let ghost work = tree.net().work(tree.net().initial()) + 1;
    let ghost p = Pass { lore: store.lore(), done: Set::empty() };
    proof {
        adds_first(old(store), store);
        opening_descends(tree);
        surveys_none(tree, p, ls, caps, work);
    }
    let mut memo: Sets<N> = Sets::new();
    // The initial histories are the outcomes of one macro step, so they combine
    // as a product exactly as the outcomes of an action do.
    let mut acc: Vec<Vec<N>> = Vec::new();
    acc.push(zeros(tree.k));
    proof {
        assert(memo.inv(&*store, cap));
        assert(memo.done(store) =~= Set::empty());
        assert(ls.take(0) =~= Seq::empty());
        assert(points(acc@) =~= seq![zeros_v::<N>(tree.k as nat)]);
        assert(store.records.paths(initial@).len() == initial@.len());
    }
    for i in 0..initial.len()
        invariant
            store.inv(),
            store.grown_from(&start),
            store.grown_from(old(store)),
            start.inv(),
            memo.inv(store, cap),
            met_only(old(store), store),
            explored_all(store, ls, i as int),
            caps == bounds_of(old(store), cap),
            surveys_v(tree, p, ls.take(i as int), caps, work) == (Survey {
                pass: memo.pass(store),
                fault: None,
            }),
            sweep_v(old(store).tree, old(store).lore(), caps) == surveys_v(tree, p, ls, caps, work),
            forall|j: int| 0 <= j < ls.len() ==> tree.net().work((#[trigger] ls[j]).state) < work,
            tree == store.tree,
            tree == start.tree,
            ls == opening(tree),
            start.records.holds(initial@),
            start.records.paths(initial@) == ls,
            initial@.len() == ls.len(),
            spread_v(tree, ls.take(i as int), cap) == Some(points(acc@)),
            holdable(ls, store.engine.max_outcomes),
            forall|j: int|
                0 <= j < i ==> narrow(tree, (#[trigger] ls[j]).state, store.engine.max_outcomes),
    {
        let at = initial[i];
        let ghost before = *store;
        let ghost l = ls[i as int];
        proof {
            store.leaf_kept(&start, at as int);
            assert(start.records.paths(initial@)[i as int] == l);
            assert(store.hist_true(at as int));
            assert(ls.take(i + 1).drop_last() =~= ls.take(i as int));
            assert(ls.take(i + 1).last() == l);
            surveys_next(tree, p, ls, caps, work, i as int);
        }
        let cs = store.history(at).cs;
        assert(store.cs_true(cs as int));
        let tail = match set_of(store, cs, &mut memo, cap) {
            Ok(p) => p,
            Err(e) => {
                proof {
                    adds_to_met(&before, store, i as int);
                    met_more(old(store), &before, store);
                    surveys_prefix(tree, p, ls, caps, work, i + 1);
                    if spread_v(tree, ls.take(i + 1), cap) is None {
                        spread_prefix(tree, ls, i + 1, cap);
                    }
                }
                return Err(e);
            },
        };
        proof {
            adds_to_met(&before, store, i as int);
            met_more(old(store), &before, store);
            explored_all_kept(&before, store, ls, i as int);
            store.leaf_kept(&before, at as int);
            assert(store.hist_true(at as int));
            spread_wide(tree, ls.take(i as int), cap);
            set_wide(tree, l.state, cap);
        }
        let h = store.history(at);
        acc = match combine(&acc, &tail, &h.prob, &h.impact, cap, Ghost(l)) {
            Ok(v) => v,
            Err(e) => {
                proof {
                    surveys_prefix(tree, p, ls, caps, work, i + 1);
                    spread_prefix(tree, ls, i + 1, cap);
                }
                return Err(e);
            },
        };
    }
    proof {
        assert(ls.take(ls.len() as int) =~= ls);
        explored_met(store);
    }
    Ok(acc)
}

/// Whether some vector of a set is at most the threshold.
pub fn meets<N: Number>(set: &Vec<Vec<N>>, threshold: &Vec<N>) -> (r: bool)
    ensures
        r == dominated::<N>(points(set@), vals(threshold@)),
{
    let ghost ps = points(set@);
    for i in 0..set.len()
        invariant
            ps == points(set@),
            forall|j: int|
                0 <= j < i ==> !at_most::<N>(#[trigger] ps[j], vals(threshold@)),
    {
        assert(ps[i as int] == vals(set@[i as int]@));
        if leq_all(&set[i], threshold) {
            return true;
        }
    }
    false
}

} // verus!
