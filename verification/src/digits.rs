//! Natural numbers as lists of decimal digits, the lowest first.

use vstd::prelude::*;
use crate::text::{decimal, digit, digit_of};

verus! {

/// Ten to the power `n`.
pub open spec fn ten(n: nat) -> nat
    decreases n,
{
    if n == 0 {
        1
    } else {
        10 * ten((n - 1) as nat)
    }
}

/// The digit at a place, zero past the end.
pub open spec fn at(s: Seq<u8>, i: int) -> nat {
    if 0 <= i < s.len() {
        s[i] as nat
    } else {
        0
    }
}

/// The number the lowest `n` digits stand for.
pub open spec fn low(s: Seq<u8>, n: nat) -> nat
    decreases n,
{
    if n == 0 {
        0
    } else {
        low(s, (n - 1) as nat) + at(s, n - 1) * ten((n - 1) as nat)
    }
}

/// The number a list of digits stands for.
pub open spec fn val(s: Seq<u8>) -> nat {
    low(s, s.len())
}

/// Every entry is a digit.
pub open spec fn digital(s: Seq<u8>) -> bool {
    forall|i: int| 0 <= i < s.len() ==> #[trigger] s[i] < 10
}

pub proof fn ten_positive(n: nat)
    ensures
        ten(n) >= 1,
    decreases n,
{
    if n > 0 {
        ten_positive((n - 1) as nat);
    }
}

proof fn spread(a: nat, b: nat, t: nat)
    ensures
        (a + b) * t == a * t + b * t,
{
    assert((a + b) * t == a * t + b * t) by (nonlinear_arith);
}

/// The lowest digits do not see what is added above them.
pub proof fn low_kept(s: Seq<u8>, t: Seq<u8>, n: nat)
    requires
        forall|i: int| 0 <= i < n ==> at(s, i) == #[trigger] at(t, i),
    ensures
        low(s, n) == low(t, n),
    decreases n,
{
    if n > 0 {
        assert(at(s, n - 1) == at(t, n - 1));
        low_kept(s, t, (n - 1) as nat);
    }
}

/// Past the end there are only zeros.
pub proof fn low_whole(s: Seq<u8>, n: nat)
    requires
        n >= s.len(),
    ensures
        low(s, n) == val(s),
    decreases n,
{
    if n > s.len() {
        low_whole(s, (n - 1) as nat);
        let t = ten((n - 1) as nat);
        assert(0 * t == 0) by (nonlinear_arith);
    }
}

/// The lowest `n` digits stand for less than ten to the power `n`.
pub proof fn low_bound(s: Seq<u8>, n: nat)
    requires
        digital(s),
    ensures
        low(s, n) < ten(n),
    decreases n,
{
    if n > 0 {
        low_bound(s, (n - 1) as nat);
        let t = ten((n - 1) as nat);
        let d = at(s, n - 1);
        assert(d * t <= 9 * t) by (nonlinear_arith)
            requires
                d <= 9,
        ;
    }
}

/// A digit below the others.
pub proof fn val_cons(d: u8, s: Seq<u8>)
    ensures
        val(seq![d] + s) == d + 10 * val(s),
{
    low_cons(d, s, s.len());
}

proof fn low_cons(d: u8, s: Seq<u8>, n: nat)
    ensures
        low(seq![d] + s, n + 1) == d + 10 * low(s, n),
    decreases n,
{
    let t = seq![d] + s;
    reveal_with_fuel(low, 2);
    if n > 0 {
        low_cons(d, s, (n - 1) as nat);
        assert(at(t, n as int) == at(s, n - 1));
        let (x, y) = (at(s, n - 1), ten((n - 1) as nat));
        assert(x * (10 * y) == 10 * (x * y)) by (nonlinear_arith);
    } else {
        assert(at(t, 0) == d);
        assert(d as nat * 1 == d);
    }
}

/// The digits from a place on, with the one at that place apart.
pub proof fn val_skip(s: Seq<u8>, i: int)
    requires
        0 <= i < s.len(),
    ensures
        val(s.skip(i)) == s[i] + 10 * val(s.skip(i + 1)),
{
    assert(s.skip(i) =~= seq![s[i]] + s.skip(i + 1));
    val_cons(s[i], s.skip(i + 1));
}

/// A number is what stands below a place and what stands above it.
pub proof fn val_split(s: Seq<u8>, n: nat)
    requires
        n <= s.len(),
    ensures
        val(s) == val(s.take(n as int)) + ten(n) * val(s.skip(n as int)),
    decreases n,
{
    if n == 0 {
        assert(s.take(0) =~= Seq::empty());
        assert(s.skip(0) =~= s);
        assert(1 * val(s) == val(s));
    } else {
        let m = (n - 1) as nat;
        val_split(s, m);
        val_skip(s, m as int);
        let head = s.take(n as int);
        low_kept(head, s.take(m as int), m);
        assert(val(head) == val(s.take(m as int)) + s[m as int] * ten(m));
        let (t, d, r) = (ten(m), s[m as int] as nat, val(s.skip(n as int)));
        assert(t * (d + 10 * r) == d * t + (10 * t) * r) by (nonlinear_arith);
    }
}

/// Dividing by a power of ten cuts digits off, and the remainder is what was
/// cut.
pub proof fn val_cut(s: Seq<u8>, n: nat)
    requires
        digital(s),
        n <= s.len(),
    ensures
        val(s) / ten(n) == val(s.skip(n as int)),
        val(s) % ten(n) == val(s.take(n as int)),
{
    val_split(s, n);
    ten_positive(n);
    let head = s.take(n as int);
    assert(digital(head));
    low_bound(head, n);
    let (q, r, t) = (val(s.skip(n as int)) as int, val(head) as int, ten(n) as int);
    assert(t * q == q * t) by (nonlinear_arith);
    vstd::arithmetic::div_mod::lemma_fundamental_div_mod_converse(val(s) as int, t, q, r);
}

/// Zeros above change nothing.
pub proof fn val_padded(s: Seq<u8>, t: Seq<u8>)
    requires
        s.len() <= t.len(),
        forall|i: int| 0 <= i < t.len() ==> #[trigger] at(t, i) == at(s, i),
    ensures
        val(t) == val(s),
{
    low_kept(t, s, t.len());
    low_whole(s, t.len());
}

pub(crate) fn digit_at(s: &[u8], i: usize) -> (r: u8)
    ensures
        r as nat == at(s@, i as int),
        digital(s@) ==> r < 10,
{
    if i < s.len() {
        s[i]
    } else {
        0
    }
}

/// The sum of two numbers.
pub(crate) fn add_digits(a: &[u8], b: &[u8]) -> (r: Vec<u8>)
    requires
        digital(a@),
        digital(b@),
    ensures
        digital(r@),
        val(r@) == val(a@) + val(b@),
        r@.len() >= a@.len(),
        r@.len() >= b@.len(),
{
    let n: usize = if a.len() > b.len() {
        a.len()
    } else {
        b.len()
    };
    let mut r: Vec<u8> = Vec::new();
    let mut carry: u8 = 0;
    for i in 0..n
        invariant
            digital(a@),
            digital(b@),
            digital(r@),
            r@.len() == i,
            carry <= 1,
            low(r@, i as nat) + carry * ten(i as nat) == low(a@, i as nat) + low(b@, i as nat),
    {
        let x: u8 = digit_at(a, i) + digit_at(b, i) + carry;
        let (d, up): (u8, u8) = if x >= 10 {
            ((x - 10) as u8, 1)
        } else {
            (x, 0)
        };
        let ghost before = r@;
        r.push(d);
        proof {
            let t = ten(i as nat);
            low_kept(r@, before, i as nat);
            let (da, db) = (at(a@, i as int), at(b@, i as int));
            spread(da, db, t);
            spread(da + db, carry as nat, t);
            spread(d as nat, (10 * up) as nat, t);
            assert((10 * up) * t == up * (10 * t)) by (nonlinear_arith);
            assert(at(r@, i as int) == d);
        }
        carry = up;
    }
    let ghost before = r@;
    proof {
        low_whole(a@, n as nat);
        low_whole(b@, n as nat);
        assert(0 * ten(n as nat) == 0);
    }
    if carry > 0 {
        r.push(carry);
        proof {
            low_kept(r@, before, n as nat);
            assert(at(r@, n as int) == carry);
        }
    }
    r
}

/// The difference of two numbers, the second being no larger.
pub(crate) fn sub_digits(a: &[u8], b: &[u8]) -> (r: Vec<u8>)
    requires
        digital(a@),
        digital(b@),
        val(b@) <= val(a@),
    ensures
        digital(r@),
        val(r@) == val(a@) - val(b@),
        r@.len() >= a@.len(),
        r@.len() >= b@.len(),
{
    let n: usize = if a.len() > b.len() {
        a.len()
    } else {
        b.len()
    };
    let mut r: Vec<u8> = Vec::new();
    let mut borrow: u8 = 0;
    for i in 0..n
        invariant
            digital(a@),
            digital(b@),
            digital(r@),
            r@.len() == i,
            borrow <= 1,
            low(a@, i as nat) + borrow * ten(i as nat) == low(r@, i as nat) + low(b@, i as nat),
    {
        let x: u8 = digit_at(a, i);
        let y: u8 = digit_at(b, i) + borrow;
        let (d, down): (u8, u8) = if x >= y {
            ((x - y) as u8, 0)
        } else {
            ((x + 10 - y) as u8, 1)
        };
        let ghost before = r@;
        r.push(d);
        proof {
            let t = ten(i as nat);
            low_kept(r@, before, i as nat);
            let (da, db) = (at(a@, i as int), at(b@, i as int));
            spread(da, (10 * down) as nat, t);
            spread(d as nat, db, t);
            spread(d as nat + db, borrow as nat, t);
            assert((10 * down) * t == down * (10 * t)) by (nonlinear_arith);
            assert(at(r@, i as int) == d);
        }
        borrow = down;
    }
    proof {
        low_whole(a@, n as nat);
        low_whole(b@, n as nat);
        low_bound(r@, n as nat);
        let t = ten(n as nat);
        assert(1 * t == t);
        assert(0 * t == 0);
    }
    r
}

/// Whether one number is no larger than another.
pub(crate) fn le_digits(a: &[u8], b: &[u8]) -> (r: bool)
    requires
        digital(a@),
        digital(b@),
    ensures
        r == (val(a@) <= val(b@)),
{
    let n: usize = if a.len() > b.len() {
        a.len()
    } else {
        b.len()
    };
    let mut i = n;
    proof {
        low_whole(a@, n as nat);
        low_whole(b@, n as nat);
    }
    while i > 0
        invariant
            i <= n,
            digital(a@),
            digital(b@),
            val(a@) - val(b@) == low(a@, i as nat) - low(b@, i as nat),
        decreases i,
    {
        i = i - 1;
        let x = digit_at(a, i);
        let y = digit_at(b, i);
        if x != y {
            proof {
                low_bound(a@, i as nat);
                low_bound(b@, i as nat);
                let t = ten(i as nat);
                let (p, q) = (x as nat, y as nat);
                assert(p < q ==> p * t + t <= q * t) by (nonlinear_arith);
                assert(q < p ==> q * t + t <= p * t) by (nonlinear_arith);
            }
            return x < y;
        }
    }
    true
}

/// The number times a power of ten.
pub(crate) fn raise(a: &[u8], k: usize) -> (r: Vec<u8>)
    requires
        digital(a@),
    ensures
        digital(r@),
        val(r@) == val(a@) * ten(k as nat),
        r@.len() == a@.len() + k,
{
    let mut r: Vec<u8> = Vec::new();
    for i in 0..a.len()
        invariant
            r@ =~= a@.take(i as int),
    {
        r.push(a[i]);
    }
    assert(a@.take(a@.len() as int) =~= a@);
    assert(val(a@) * 1 == val(a@));
    for i in 0..k
        invariant
            digital(a@),
            digital(r@),
            val(r@) == val(a@) * ten(i as nat),
            r@.len() == a@.len() + i,
    {
        let ghost before = r@;
        r.insert(0, 0);
        proof {
            assert(r@ =~= seq![0u8] + before);
            val_cons(0, before);
            let (v, t) = (val(a@), ten(i as nat));
            assert(10 * (v * t) == v * (10 * t)) by (nonlinear_arith);
        }
    }
    r
}

/// The product of two numbers.
pub(crate) fn mul_digits(a: &[u8], b: &[u8]) -> (r: Vec<u8>)
    requires
        digital(a@),
        digital(b@),
    ensures
        digital(r@),
        val(r@) == val(a@) * val(b@),
        r@.len() >= a@.len() + b@.len(),
{
    let mut r: Vec<u8> = Vec::new();
    let n = b.len();
    let mut i = n;
    assert(b@.skip(n as int) =~= Seq::empty());
    assert(val(a@) * 0 == 0);
    while i > 0
        invariant
            i <= n,
            n == b@.len(),
            digital(a@),
            digital(b@),
            digital(r@),
            val(r@) == val(a@) * val(b@.skip(i as int)),
            r@.len() >= n - i,
        decreases i,
    {
        i = i - 1;
        let ghost above = val(b@.skip(i + 1));
        let ghost before = r@;
        r.insert(0, 0);
        proof {
            assert(r@ =~= seq![0u8] + before);
            val_cons(0, before);
            val_skip(b@, i as int);
            assert(10 * (val(a@) * above) + val(a@) * 0 == 10 * (val(a@) * above));
        }
        let times = b[i];
        for j in 0..times
            invariant
                i < n,
                times == b@[i as int],
                n == b@.len(),
                digital(a@),
                digital(r@),
                val(r@) == 10 * (val(a@) * above) + val(a@) * (j as nat),
                r@.len() >= n - i,
        {
            r = add_digits(r.as_slice(), a);
            proof {
                let (v, c) = (val(a@), j as nat);
                assert(v * (c + 1) == v * c + v) by (nonlinear_arith);
            }
        }
        proof {
            let (v, d) = (val(a@), b@[i as int] as nat);
            assert(v * (d + 10 * above) == 10 * (v * above) + v * d) by (nonlinear_arith);
        }
    }
    assert(b@.skip(0) =~= b@);
    while r.len() - n < a.len()
        invariant
            digital(r@),
            val(r@) == val(a@) * val(b@),
            r@.len() >= n,
        decreases a@.len() + n - r@.len(),
    {
        let ghost before = r@;
        r.push(0);
        proof {
            val_padded(before, r@);
        }
    }
    r
}

/// The number in decimal.
pub(crate) fn decimal_text(s: &[u8]) -> (r: Vec<char>)
    requires
        digital(s@),
    ensures
        r@ == decimal(val(s@)),
{
    let mut r: Vec<char> = Vec::new();
    let n = s.len();
    let mut i = n;
    assert(s@.skip(n as int) =~= Seq::empty());
    while i > 0
        invariant
            i <= n,
            n == s@.len(),
            digital(s@),
            val(s@.skip(i as int)) == 0 ==> r@.len() == 0,
            val(s@.skip(i as int)) > 0 ==> r@.len() > 0 && r@ == decimal(val(s@.skip(i as int))),
        decreases i,
    {
        i = i - 1;
        proof {
            val_skip(s@, i as int);
        }
        if r.len() > 0 || s[i] > 0 {
            r.push(digit_of(s[i]));
            proof {
                let v = val(s@.skip(i as int));
                assert(r@ =~= decimal(v));
            }
        }
    }
    assert(s@.skip(0) =~= s@);
    if r.len() == 0 {
        r.push('0');
        assert(r@ =~= decimal(0));
    }
    r
}

/// The lowest `k` digits of a number in decimal, zeros in front.
pub open spec fn padded(n: nat, k: nat) -> Seq<char>
    decreases k,
{
    if k == 0 {
        Seq::empty()
    } else {
        padded(n / 10, (k - 1) as nat).push(digit((n % 10) as int))
    }
}

/// The number in decimal, zeros in front.
pub(crate) fn padded_text(s: &[u8]) -> (r: Vec<char>)
    requires
        digital(s@),
    ensures
        r@ == padded(val(s@), s@.len()),
{
    let mut r: Vec<char> = Vec::new();
    let n = s.len();
    let mut i = n;
    assert(s@.skip(n as int) =~= Seq::empty());
    while i > 0
        invariant
            i <= n,
            n == s@.len(),
            digital(s@),
            r@ == padded(val(s@.skip(i as int)), (n - i) as nat),
        decreases i,
    {
        i = i - 1;
        proof {
            val_skip(s@, i as int);
        }
        r.push(digit_of(s[i]));
    }
    assert(s@.skip(0) =~= s@);
    r
}

/// The number, or `cap` where it is larger.
pub(crate) fn capped(s: &[u8], cap: u128) -> (r: u128)
    requires
        digital(s@),
        cap <= u64::MAX,
    ensures
        r == if val(s@) <= cap {
            val(s@)
        } else {
            cap as nat
        },
{
    let mut r: u128 = 0;
    let n = s.len();
    let mut i = n;
    assert(s@.skip(n as int) =~= Seq::empty());
    while i > 0
        invariant
            i <= n,
            n == s@.len(),
            digital(s@),
            cap <= u64::MAX,
            r == if val(s@.skip(i as int)) <= cap {
                val(s@.skip(i as int))
            } else {
                cap as nat
            },
        decreases i,
    {
        i = i - 1;
        proof {
            val_skip(s@, i as int);
        }
        let x: u128 = 10 * r + s[i] as u128;
        r = if x <= cap {
            x
        } else {
            cap
        };
    }
    assert(s@.skip(0) =~= s@);
    r
}

/// Zeros above, until there are `n` digits at least.
pub(crate) fn pad(s: &mut Vec<u8>, n: usize)
    requires
        digital(old(s)@),
    ensures
        digital(final(s)@),
        val(final(s)@) == val(old(s)@),
        final(s)@.len() >= n,
        final(s)@.len() >= old(s)@.len(),
{
    while s.len() < n
        invariant
            digital(s@),
            val(s@) == val(old(s)@),
            s@.len() >= old(s)@.len(),
        decreases n - s@.len(),
    {
        let ghost before = s@;
        s.push(0);
        proof {
            val_padded(before, s@);
        }
    }
}

/// Drops the zeros above, down to `n` digits.
pub(crate) fn strip(s: &mut Vec<u8>, n: usize)
    requires
        digital(old(s)@),
        n <= old(s)@.len(),
    ensures
        digital(final(s)@),
        val(final(s)@) == val(old(s)@),
        n <= final(s)@.len() <= old(s)@.len(),
{
    while s.len() > n && s[s.len() - 1] == 0
        invariant
            digital(s@),
            val(s@) == val(old(s)@),
            n <= s@.len() <= old(s)@.len(),
        decreases s@.len(),
    {
        let ghost before = s@;
        let _ = s.pop();
        proof {
            assert(s@ =~= before.drop_last());
            val_padded(s@, before);
        }
    }
}

/// How many digits a number has, none for zero.
pub open spec fn width(n: nat) -> nat
    decreases n,
{
    if n == 0 {
        0
    } else {
        width(n / 10) + 1
    }
}

/// How many digits the number has, none for zero.
pub(crate) fn width_of(s: &[u8]) -> (r: usize)
    requires
        digital(s@),
    ensures
        r == width(val(s@)),
        r <= s@.len(),
{
    let mut r: usize = 0;
    let n = s.len();
    let mut i = n;
    assert(s@.skip(n as int) =~= Seq::empty());
    while i > 0
        invariant
            i <= n,
            n == s@.len(),
            digital(s@),
            r == width(val(s@.skip(i as int))),
            r <= n - i,
            r == 0 <==> val(s@.skip(i as int)) == 0,
        decreases i,
    {
        i = i - 1;
        proof {
            val_skip(s@, i as int);
        }
        if r > 0 || s[i] > 0 {
            r = r + 1;
        }
    }
    assert(s@.skip(0) =~= s@);
    r
}

} // verus!
