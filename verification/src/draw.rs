//! Which open history is resolved next.

use vstd::prelude::*;
use crate::config::Selection;
use crate::num::Number;
use crate::tables::Records;

verus! {

/// A small seeded generator, so that a run of one worker repeats.
pub struct Rng(pub u64);

/// The state after a draw.
pub open spec fn stepped(x: u64) -> u64 {
    x.wrapping_add(0x9E37_79B9_7F4A_7C15)
}

/// The number drawn at a state.
pub open spec fn scrambled(x: u64) -> u64 {
    let a = (x ^ (x >> 30u64)).wrapping_mul(0xBF58_476D_1CE4_E5B9);
    let b = (a ^ (a >> 27u64)).wrapping_mul(0x94D0_49BB_1331_11EB);
    b ^ (b >> 31u64)
}

impl Rng {
    pub fn new(seed: u64) -> (r: Rng)
        ensures
            r.0 == seed | 1,
    {
        Rng(seed | 1)
    }

    pub fn next_u64(&mut self) -> (r: u64)
        ensures
            final(self).0 == stepped(old(self).0),
            r == scrambled(final(self).0),
    {
        let x = self.0.wrapping_add(0x9E37_79B9_7F4A_7C15);
        self.0 = x;
        let a = (x ^ (x >> 30u64)).wrapping_mul(0xBF58_476D_1CE4_E5B9);
        let b = (a ^ (a >> 27u64)).wrapping_mul(0x94D0_49BB_1331_11EB);
        b ^ (b >> 31u64)
    }

    /// A draw from zero to one, of fifty-three bits.
    pub fn unit<N: Number>(&mut self) -> (r: N)
        ensures
            final(self).0 == stepped(old(self).0),
            r.value() == N::unit_v(scrambled(final(self).0) >> 11u64),
    {
        N::unit(self.next_u64() >> 11u64)
    }
}

/// The sum of the first `n` probabilities, from the first on.
pub open spec fn mass<N: Number>(ps: Seq<N::Value>, n: int) -> N::Value
    decreases n,
{
    if n <= 0 {
        N::zero_v()
    } else {
        N::plus_v(mass::<N>(ps, n - 1), ps[n - 1])
    }
}

/// Where a draw lands: the first interval that reaches past it, and the last
/// one where rounding leaves a remainder.
pub open spec fn lands<N: Number>(ps: Seq<N::Value>, r: N::Value) -> int
    decreases ps.len(),
{
    if ps.len() <= 1 || N::lt_v(r, ps[0]) {
        0
    } else {
        1 + lands::<N>(ps.skip(1), N::minus_v(r, ps[0]))
    }
}

/// The first of the least among the first `n`.
pub open spec fn least(ids: Seq<u64>, n: int) -> int
    decreases n,
{
    if n <= 1 {
        0
    } else {
        let m = least(ids, n - 1);
        if ids[n - 1] < ids[m] { n - 1 } else { m }
    }
}

/// The probabilities of the histories at these positions.
pub open spec fn probs_at<N: Number>(r: Records<N>, open: Seq<usize>) -> Seq<N::Value> {
    Seq::new(open.len(), |i: int| r.histories@[open[i] as int].prob.value())
}

pub open spec fn ids_at<N: Number>(r: Records<N>, open: Seq<usize>) -> Seq<u64> {
    Seq::new(open.len(), |i: int| r.histories@[open[i] as int].id)
}

/// The election, given the state of the generator before it.
pub open spec fn election<N: Number>(
    r: Records<N>,
    open: Seq<usize>,
    selection: Selection,
    x: u64,
) -> int {
    let z = scrambled(stepped(x));
    match selection {
        Selection::Weighted => {
            let ps = probs_at(r, open);
            lands::<N>(ps, N::times_v(N::unit_v(z >> 11u64), mass::<N>(ps, ps.len() as int)))
        },
        Selection::Uniform => z as int % open.len() as int,
        Selection::Oldest => least(ids_at(r, open), open.len() as int),
    }
}

/// Elects one of the open histories.
pub fn elect<N: Number>(
    records: &Records<N>,
    open: &Vec<usize>,
    selection: Selection,
    rng: &mut Rng,
) -> (i: usize)
    requires
        open@.len() > 0,
        records.holds(open@),
    ensures
        i < open@.len(),
        i == election(*records, open@, selection, old(rng).0),
        final(rng).0 == (if selection == Selection::Oldest {
            old(rng).0
        } else {
            stepped(old(rng).0)
        }),
{
    let n = open.len();
    match selection {
        Selection::Weighted => {
            let ghost ps = probs_at(*records, open@);
            let mut total = N::zero();
            for i in 0..n
                invariant
                    n == open@.len(),
                    records.holds(open@),
                    ps == probs_at(*records, open@),
                    total.value() == mass::<N>(ps, i as int),
            {
                total = total.plus(&records.histories.get(open[i]).prob);
            }
            let u: N = rng.unit();
            let mut r = u.times(&total);
            let ghost whole = lands::<N>(ps, r.value());
            assert(ps.skip(0) =~= ps);
            for i in 0..n
                invariant
                    n == open@.len(),
                    n > 0,
                    records.holds(open@),
                    ps == probs_at(*records, open@),
                    selection == Selection::Weighted,
                    rng.0 == stepped(old(rng).0),
                    whole == election(*records, open@, selection, old(rng).0),
                    whole == if i < n {
                        i + lands::<N>(ps.skip(i as int), r.value())
                    } else {
                        n - 1
                    },
            {
                let p = &records.histories.get(open[i]).prob;
                assert(ps.skip(i as int)[0] == p.value());
                if r.lt(p) {
                    return i;
                }
                assert(ps.skip(i as int).skip(1) =~= ps.skip(i + 1));
                r = r.minus(p);
            }
            n - 1
        },
        Selection::Uniform => {
            let z = rng.next_u64();
            let i = z % (n as u64);
            i as usize
        },
        Selection::Oldest => {
            let ghost ids = ids_at(*records, open@);
            let mut best: usize = 0;
            for i in 1..n
                invariant
                    n == open@.len(),
                    records.holds(open@),
                    ids == ids_at(*records, open@),
                    best < i,
                    best == least(ids, i as int),
            {
                if records.histories.get(open[i]).id < records.histories.get(open[best]).id {
                    best = i;
                }
            }
            best
        },
    }
}

} // verus!
