//! Electing: which open history a draw falls on.

use vstd::prelude::*;
use vstd::arithmetic::power2::{lemma2_to64, lemma_pow2_adds, lemma_pow2_unfold, pow2};
use crate::config::Selection;
use crate::decimal::{five, products_as_real, real_by_sign, real_v, same_real, tenth, Decimal};
use crate::digits::ten;
use crate::draw::{election, ids_at, lands, least, mass, probs_at, scrambled, stepped};
use crate::num::{exact, Number};
use crate::tables::Records;

verus! {

proof fn least_is_first(ids: Seq<u64>, n: int)
    requires
        1 <= n <= ids.len(),
    ensures
        0 <= least(ids, n) < n,
        forall|i: int| 0 <= i < n ==> ids[least(ids, n)] <= #[trigger] ids[i],
        forall|i: int| 0 <= i < least(ids, n) ==> ids[least(ids, n)] < #[trigger] ids[i],
    decreases n,
{
    if n > 1 {
        least_is_first(ids, n - 1);
    }
}

/// The oldest history is the one of least identifier, and the first where two
/// share it; the generator has no say in it.
pub proof fn oldest_is_elected<N: Number>(r: Records<N>, open: Seq<usize>, x: u64, j: int)
    requires
        0 <= j < open.len(),
    ensures
        ({
            let i = election(r, open, Selection::Oldest, x);
            &&& 0 <= i < open.len()
            &&& r.histories@[open[i] as int].id <= r.histories@[open[j] as int].id
            &&& j < i ==> r.histories@[open[i] as int].id < r.histories@[open[j] as int].id
        }),
{
    let ids = ids_at(r, open);
    least_is_first(ids, open.len() as int);
    let i = election(r, open, Selection::Oldest, x);
    assert(ids[i] <= ids[j]);
}

/// A uniform election counts the draw round the open histories.
pub proof fn uniform_counts_round<N: Number>(r: Records<N>, open: Seq<usize>, x: u64)
    requires
        open.len() > 0,
    ensures
        ({
            let i = election(r, open, Selection::Uniform, x);
            &&& 0 <= i < open.len()
            &&& exists|q: int| scrambled(stepped(x)) == #[trigger] (q * open.len()) + i
        }),
{
    let (z, n) = (scrambled(stepped(x)) as int, open.len() as int);
    vstd::arithmetic::div_mod::lemma_fundamental_div_mod(z, n);
    vstd::arithmetic::mul::lemma_mul_is_commutative(n, z / n);
    assert(z == ((z / n) * open.len()) + z % n);
}

/// The sum of the first `n` of these numbers.
pub open spec fn total<N: Number>(ps: Seq<N::Value>, n: int) -> real
    decreases n,
{
    if n <= 0 {
        0 as real
    } else {
        total::<N>(ps, n - 1) + N::real_of(ps[n - 1])
    }
}

proof fn total_is_mass<N: Number>(ps: Seq<N::Value>, n: int)
    requires
        exact::<N>(),
    ensures
        N::real_of(mass::<N>(ps, n)) == total::<N>(ps, n),
    decreases n,
{
    if n > 0 {
        total_is_mass::<N>(ps, n - 1);
    }
}

proof fn total_skips<N: Number>(ps: Seq<N::Value>, n: int)
    requires
        0 <= n < ps.len(),
    ensures
        total::<N>(ps, n + 1) == N::real_of(ps[0]) + total::<N>(ps.skip(1), n),
    decreases n,
{
    if n > 0 {
        total_skips::<N>(ps, n - 1);
        assert(ps.skip(1)[n - 1] == ps[n]);
    } else {
        assert(total::<N>(ps, 1) == total::<N>(ps, 0) + N::real_of(ps[0]));
    }
}

/// A number lands in the interval it lies in, the intervals standing one behind
/// the other from zero on, each as long as its probability and without its upper
/// end; what lies behind them all lands in the last one.
pub proof fn numbers_land<N: Number>(ps: Seq<N::Value>, r: N::Value)
    requires
        exact::<N>(),
        ps.len() > 0,
    ensures
        ({
            let i = lands::<N>(ps, r);
            &&& 0 <= i < ps.len()
            &&& i < ps.len() - 1 ==> N::real_of(r) < total::<N>(ps, i + 1)
            &&& i > 0 ==> N::real_of(r) >= total::<N>(ps, i)
            &&& forall|j: int| 1 <= j <= i ==> N::real_of(r) >= #[trigger] total::<N>(ps, j)
        }),
    decreases ps.len(),
{
    assert(total::<N>(ps, 1) == total::<N>(ps, 0) + N::real_of(ps[0]));
    if ps.len() > 1 && !N::lt_v(r, ps[0]) {
        let rest = ps.skip(1);
        let s = N::minus_v(r, ps[0]);
        numbers_land::<N>(rest, s);
        let i = lands::<N>(rest, s);
        if i < rest.len() - 1 {
            total_skips::<N>(ps, i + 1);
        }
        assert forall|j: int| 1 <= j <= i + 1 implies N::real_of(r) >= #[trigger] total::<N>(ps, j) by {
            total_skips::<N>(ps, j - 1);
            if j > 1 {
                assert(N::real_of(s) >= total::<N>(rest, j - 1));
            }
        }
        assert(N::real_of(r) >= total::<N>(ps, i + 1));
    }
}

/// A weighted election: the draw, from zero to one, is stretched over the
/// probabilities of the open histories, and the history whose interval it falls
/// in is elected.
pub proof fn weighted_draw_lands<N: Number>(r: Records<N>, open: Seq<usize>, x: u64)
    requires
        exact::<N>(),
        open.len() > 0,
    ensures
        ({
            let i = election(r, open, Selection::Weighted, x);
            let ps = probs_at(r, open);
            let at = N::real_of(N::unit_v(scrambled(stepped(x)) >> 11u64)) * total::<N>(
                ps,
                ps.len() as int,
            );
            &&& 0 <= i < open.len()
            &&& i < open.len() - 1 ==> at < total::<N>(ps, i + 1)
            &&& i > 0 ==> at >= total::<N>(ps, i)
        }),
{
    let ps = probs_at(r, open);
    total_is_mass::<N>(ps, ps.len() as int);
    let u = N::unit_v(scrambled(stepped(x)) >> 11u64);
    numbers_land::<N>(ps, N::times_v(u, mass::<N>(ps, ps.len() as int)));
}

proof fn fives_and_twos(n: nat)
    ensures
        five(n) * pow2(n) == ten(n),
    decreases n,
{
    if n == 0 {
        lemma2_to64();
        assert(five(0) == 1);
        assert(ten(0) == 1);
    } else {
        let m = (n - 1) as nat;
        fives_and_twos(m);
        lemma_pow2_unfold(n);
        let (a, b) = (five(m), pow2(m));
        assert((a * 5) * (2 * b) == 10 * (a * b)) by (nonlinear_arith);
    }
}

/// A draw of fifty-three bits is that many parts of two to the fifty-three: it
/// reaches zero and does not reach one.
pub proof fn draws_are_parts(n: u64)
    ensures
        Decimal::real_of(Decimal::unit_v(n)) * (0x20_0000_0000_0000int as real) == n as real,
        n < 0x20_0000_0000_0000 ==> 0 as real <= Decimal::real_of(Decimal::unit_v(n)) < 1 as real,
{
    fives_and_twos(53);
    lemma2_to64();
    let two: int = 0x20_0000_0000_0000;
    lemma_pow2_adds(32, 21);
    assert(pow2(53) == two);
    let a = Decimal::unit_v(n);
    real_by_sign(a);
    let m = n * five(53);
    assert(m * two == n * ten(53)) by (nonlinear_arith)
        requires
            m == n * five(53),
            five(53) * two == ten(53),
    ;
    same_real(n as int, 0, 53);
    assert(tenth(0) == 1 as real);
    products_as_real(m, two);
    let (x, t, w, y) = (m as real, tenth(53), two as real, (n * ten(53)) as real);
    assert((x * t) * w == (x * w) * t) by (nonlinear_arith);
    assert(real_v(n as int, 0) == (n as real) * (1 as real));
    assert((n as real) * (1 as real) == n as real) by (nonlinear_arith);
    let u = Decimal::real_of(a);
    assert(u * w == n as real);
    if n < 0x20_0000_0000_0000 {
        let v = n as real;
        assert(v < w);
        assert(0 as real <= u < 1 as real) by (nonlinear_arith)
            requires
                u * w == v,
                0 as real <= v < w,
        ;
    }
}

} // verus!
