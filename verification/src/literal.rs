//! What the literals of the emitted model denote.

use vstd::prelude::*;
use vstd::string::*;
use crate::decimal::{
    all_digits, cut_v, digits_joined, exponent_of, padded_back, plain_v, pointed_reads,
    real_by_sign, real_v, rounded_v, same_real, sign_text, size_of, tenth, tenth_step, whole_reads,
    Dec, Decimal,
};
use crate::digits::{padded, ten, ten_positive, width};
use crate::layout::{digits_back, find_at, find_none};
use crate::num::Number;
use crate::prism::{dbl_v, exponent_v, general_v};
use crate::reals::times_unit;
use crate::text::{decimal, signed};
use crate::words::{digits_v, find_bounds, has_char, is_digit, shed_end, trimmed_v};

verus! {

// ---------------------------------------------------------------------------
// rounding
// ---------------------------------------------------------------------------

/// The magnitude of a number.
pub open spec fn magnitude(a: Dec) -> real {
    real_v(size_of(a) as int, a.s)
}

/// A number has no digit behind the first `d` after the point.
pub open spec fn ends_within(a: Dec, d: nat) -> bool {
    a.s <= d || size_of(a) % ten((a.s - d) as nat) == 0
}

/// A number is another one rounded to `d` digits after the point: a whole number
/// of those units, the nearest one, a half going away from zero, and of the same
/// sign.
pub open spec fn rounds(b: Dec, a: Dec, d: nat) -> bool {
    let (u, v) = (magnitude(a), magnitude(b));
    &&& exists|q: nat| v == #[trigger] real_v(q as int, d)
    &&& (2 as real) * (v - u) <= tenth(d)
    &&& (2 as real) * (u - v) < tenth(d)
    &&& ends_within(a, d) ==> v == u
    &&& b.m > 0 ==> a.m > 0
    &&& b.m < 0 ==> a.m < 0
}

proof fn half_of(n: nat, u: nat)
    requires
        u > 0,
    ensures
        ({
            let t = 10 * u;
            let q = if (n / u) % 10 >= 5 {
                n / t + 1
            } else {
                n / t
            };
            &&& 2 * (q * t - n) <= t
            &&& 2 * (n - q * t) < t
            &&& n % t == 0 ==> q * t == n
        }),
{
    let t = 10 * u;
    let (c, r) = (n / t, n % t);
    vstd::arithmetic::div_mod::lemma_fundamental_div_mod(n as int, t as int);
    let (e, f) = (r / u, r % u);
    vstd::arithmetic::div_mod::lemma_fundamental_div_mod(r as int, u as int);
    assert(n == u * (10 * c + e) + f) by (nonlinear_arith)
        requires
            n == t * c + r,
            r == u * e + f,
            t == 10 * u,
    ;
    assert(0 <= f < u);
    assert(u * (10 * c + e) == (10 * c + e) * u) by (nonlinear_arith);
    vstd::arithmetic::div_mod::lemma_fundamental_div_mod_converse(
        n as int,
        u as int,
        (10 * c + e) as int,
        f as int,
    );
    assert(e < 10) by (nonlinear_arith)
        requires
            r == u * e + f,
            r < 10 * u,
            f >= 0,
            u > 0,
    ;
    assert((10 * c + e) % 10 == e);
    if e >= 5 {
        assert(u * e >= u * 5) by (nonlinear_arith)
            requires
                e >= 5,
        ;
        assert((c + 1) * t == t * c + t) by (nonlinear_arith);
    } else {
        assert(u * e <= u * 4) by (nonlinear_arith)
            requires
                e <= 4,
        ;
        assert(c * t == t * c) by (nonlinear_arith);
    }
    if r == 0 {
        assert(e == 0) by (nonlinear_arith)
            requires
                0 == u * e + f,
                u > 0,
                f >= 0,
                e >= 0,
        ;
    }
}

proof fn real_order(a: int, b: int, t: real)
    requires
        t > 0 as real,
    ensures
        a <= b ==> (a as real) * t <= (b as real) * t,
        a < b ==> (a as real) * t < (b as real) * t,
{
    let (x, y) = (a as real, b as real);
    if a <= b {
        assert(x * t <= y * t) by (nonlinear_arith)
            requires
                x <= y,
                t > 0 as real,
        ;
    }
    if a < b {
        assert(x * t < y * t) by (nonlinear_arith)
            requires
                x < y,
                t > 0 as real,
        ;
    }
}

/// Rounding goes to the nearest.
proof fn rounded_near(n: nat, s: nat, d: nat)
    ensures
        ({
            let (u, v) = (real_v(n as int, s), real_v(rounded_v(n, s, d) as int, d));
            &&& (2 as real) * (v - u) <= tenth(d)
            &&& (2 as real) * (u - v) < tenth(d)
            &&& d >= s || n % ten((s - d) as nat) == 0 ==> v == u
        }),
{
    let q = rounded_v(n, s, d);
    tenth_step(d);
    if d >= s {
        same_real(n as int, s, (d - s) as nat);
        assert(s + (d - s) as nat == d);
        assert((2 as real) * (0 as real) == 0 as real);
    } else {
        let k = (s - d) as nat;
        let u = ten((k - 1) as nat);
        let t = ten(k);
        ten_positive((k - 1) as nat);
        assert(t == 10 * u);
        half_of(n, u);
        same_real(q as int, d, k);
        same_real(1, d, k);
        assert(1 * t == t);
        assert(d + k == s);
        let e = tenth(s);
        tenth_step(s);
        let (m, w) = ((q * t) as int, n as int);
        assert(real_v(m, s) == real_v(q as int, d));
        assert(real_v(t as int, s) == real_v(1, d));
        times_unit(tenth(d));
        assert(real_v(1, d) == tenth(d));
        real_order(2 * (m - w), t as int, e);
        real_order(2 * (w - m), t as int, e);
        let (x, y) = (m as real, w as real);
        assert((2 * (m - w)) as real == (2 as real) * (x - y));
        assert((2 * (w - m)) as real == (2 as real) * (y - x));
        assert(((2 as real) * (x - y)) * e == (2 as real) * (x * e - y * e)) by (nonlinear_arith);
        assert(((2 as real) * (y - x)) * e == (2 as real) * (y * e - x * e)) by (nonlinear_arith);
    }
}

// ---------------------------------------------------------------------------
// texts
// ---------------------------------------------------------------------------

/// A sign where it is below zero, digits, a point and digits.
pub open spec fn pointed(text: Seq<char>) -> bool {
    exists|neg: bool, w: Seq<char>, f: Seq<char>|
        {
            &&& text == #[trigger] written(neg, w, f)
            &&& w.len() > 0
            &&& f.len() > 0
            &&& all_digits(w)
            &&& all_digits(f)
        }
}

pub open spec fn written(neg: bool, w: Seq<char>, f: Seq<char>) -> Seq<char> {
    sign_text(neg) + w + seq!['.'] + f
}

proof fn point_at(neg: bool, w: Seq<char>, f: Seq<char>)
    requires
        all_digits(w),
        all_digits(f),
    ensures
        ({
            let text = written(neg, w, f);
            &&& has_char(text, '.')
            &&& !has_char(text, 'e')
            &&& !has_char(text, 'E')
        }),
{
    let text = written(neg, w, f);
    let at = (sign_text(neg).len() + w.len()) as int;
    assert forall|i: int| 0 <= i < text.len() && i != at implies #[trigger] text[i] != '.' && text[i]
        != 'e' && text[i] != 'E' by {
        if i >= sign_text(neg).len() && i < at {
            assert(is_digit(w[i - sign_text(neg).len()]));
        } else if i > at {
            assert(is_digit(f[i - at - 1]));
        }
    }
    assert(text[at] == '.');
    find_at(text, '.', 0, at);
    find_none(text, 'e', 0);
    find_none(text, 'E', 0);
}

pub proof fn no_point(neg: bool, w: Seq<char>)
    requires
        all_digits(w),
    ensures
        ({
            let text = sign_text(neg) + w;
            &&& !has_char(text, '.')
            &&& !has_char(text, 'e')
            &&& !has_char(text, 'E')
        }),
{
    let text = sign_text(neg) + w;
    assert forall|i: int| 0 <= i < text.len() implies #[trigger] text[i] != '.' && text[i] != 'e'
        && text[i] != 'E' by {
        if i >= sign_text(neg).len() {
            assert(is_digit(w[i - sign_text(neg).len()]));
        }
    }
    find_none(text, '.', 0);
    find_none(text, 'e', 0);
    find_none(text, 'E', 0);
}

/// Without the zeros at the end of the fraction, the same number is left.
pub proof fn zeros_shed(neg: bool, w: Seq<char>, p: Seq<char>) -> (f: Seq<char>)
    requires
        w.len() > 0,
        all_digits(w),
        all_digits(p),
    ensures
        all_digits(f),
        shed_end(written(neg, w, p), '0') == written(neg, w, f),
        digits_v(w + p) is Some,
        digits_v(w + f) is Some,
        real_v(digits_v(w + f)->0 as int, f.len()) == real_v(digits_v(w + p)->0 as int, p.len()),
    decreases p.len(),
{
    let text = written(neg, w, p);
    digits_joined(w, p);
    if p.len() == 0 {
        assert(text.last() == '.');
        p
    } else if p.last() == '0' {
        let o = p.drop_last();
        assert(text.last() == p.last());
        assert(text.drop_last() =~= written(neg, w, o));
        assert forall|i: int| 0 <= i < o.len() implies is_digit(#[trigger] o[i]) by {
            assert(is_digit(p[i]));
        }
        let f = zeros_shed(neg, w, o);
        assert((w + p).drop_last() =~= w + o);
        assert((w + p).last() == '0');
        let n = digits_v(w + o)->0;
        assert(digits_v(w + p) == Some(10 * n));
        same_real(n as int, o.len(), 1);
        assert(ten(1) == 10) by {
            assert(ten(0) == 1);
        }
        f
    } else {
        assert(text.last() == p.last());
        p
    }
}

/// A whole number of units with its point, taken apart.
pub proof fn plain_parts(neg: bool, q: nat, d: nat) -> (r: (Seq<char>, Seq<char>))
    ensures
        all_digits(r.0),
        all_digits(r.1),
        r.0.len() > 0,
        r.1.len() == d,
        digits_v(r.0 + r.1) == Some(q),
        d > 0 ==> plain_v(neg, q, d) == written(neg && q > 0, r.0, r.1),
        d == 0 ==> plain_v(neg, q, d) == sign_text(neg && q > 0) + r.0,
{
    let t = ten(d);
    ten_positive(d);
    let w = decimal(q / t);
    digits_back(q / t);
    if d == 0 {
        assert(q / 1 == q);
        let none = Seq::<char>::empty();
        assert(w + none =~= w);
        assert(plain_v(neg, q, d) =~= sign_text(neg && q > 0) + w);
        (w, none)
    } else {
        let p = padded(q % t, d);
        vstd::arithmetic::div_mod::lemma_fundamental_div_mod(q as int, t as int);
        vstd::arithmetic::mul::lemma_mul_is_commutative(t as int, (q / t) as int);
        padded_back(q % t, d);
        digits_joined(w, p);
        assert(plain_v(neg, q, d) =~= written(neg && q > 0, w, p));
        (w, p)
    }
}

/// The literal with a point that these digits make, and what it denotes.
proof fn literal_made(neg: bool, w: Seq<char>, f: Seq<char>, q: nat, d: nat)
    requires
        w.len() > 0,
        all_digits(w),
        all_digits(f),
        digits_v(w + f) is Some,
        real_v(digits_v(w + f)->0 as int, f.len()) == real_v(q as int, d),
        neg ==> q > 0,
    ensures
        ({
            let text = if f.len() == 0 {
                written(neg, w, seq!['0'])
            } else {
                written(neg, w, f)
            };
            &&& pointed(text)
            &&& Decimal::read_v(text) matches Some(b) && magnitude(b) == real_v(q as int, d) && (b.m < 0
                ==> neg) && (b.m > 0 ==> !neg)
        }),
{
    if f.len() == 0 {
        let zero = seq!['0'];
        assert(all_digits(zero));
        let n = digits_v(w + f)->0;
        assert(w + f =~= w);
        assert((w + zero).drop_last() =~= w);
        assert((w + zero).last() == '0');
        assert(digits_v(w + zero) == Some(10 * n));
        same_real(n as int, 0, 1);
        assert(ten(1) == 10) by {
            assert(ten(0) == 1);
        }
        pointed_reads(neg, w, zero);
        assert(pointed(written(neg, w, zero)));
    } else {
        pointed_reads(neg, w, f);
        assert(pointed(written(neg, w, f)));
    }
}

/// A number written with so many digits after the point is the number rounded to
/// them.
pub proof fn fixed_is_rounded(a: Dec, digits: usize)
    ensures
        Decimal::read_v(Decimal::fixed_v(a, digits)) matches Some(b) && rounds(b, a, digits as nat),
        digits > 0 ==> pointed(Decimal::fixed_v(a, digits)),
{
    let (neg, n, s, d) = (a.m < 0, size_of(a), a.s, digits as nat);
    let q = rounded_v(n, s, d);
    let (w, p) = plain_parts(neg, q, d);
    rounded_near(n, s, d);
    signs(a, d);
    let below = neg && q > 0;
    let v = real_v(q as int, d);
    if d == 0 {
        assert(w + p =~= w);
        whole_reads(below, w);
    } else {
        pointed_reads(below, w, p);
        assert(pointed(written(below, w, p)));
    }
    let b = Decimal::read_v(Decimal::fixed_v(a, digits))->0;
    assert(magnitude(b) == v);
    assert(magnitude(b) == real_v(q as int, d));
}

/// Rounding keeps zero where it was.
proof fn signs(a: Dec, d: nat)
    ensures
        a.m == 0 ==> rounded_v(size_of(a), a.s, d) == 0,
{
    if a.m == 0 {
        if d < a.s {
            ten_positive((a.s - d) as nat);
            ten_positive((a.s - d - 1) as nat);
            let (x, y) = (ten((a.s - d) as nat), ten((a.s - d - 1) as nat));
            assert(0nat / x == 0) by (nonlinear_arith)
                requires
                    x >= 1,
            ;
            assert(0nat / y == 0) by (nonlinear_arith)
                requires
                    y >= 1,
            ;
        } else {
            let x = ten((d - a.s) as nat);
            assert(0 * x == 0) by (nonlinear_arith);
        }
    }
}

// ---------------------------------------------------------------------------
// the literals
// ---------------------------------------------------------------------------

/// The first digit of a number stands at this power of ten: the number lies
/// between it and the next one.
pub open spec fn leads_at(a: Dec, p: int) -> bool {
    &&& p + a.s >= 0
    &&& ten((p + a.s) as nat) <= size_of(a) < ten((p + a.s + 1) as nat)
}

/// How many digits after the point a literal keeps: as many as make twelve
/// significant digits where the first one stands neither far above nor far below
/// the point, and twelve otherwise.
pub open spec fn places(p: int) -> nat {
    if -4 <= p < 12 {
        (11 - p) as nat
    } else {
        12
    }
}

proof fn width_is(n: nat, w: nat)
    requires
        ten(w) <= n < ten(w + 1),
    ensures
        width(n) == w + 1,
    decreases w,
{
    ten_positive(w);
    if w == 0 {
        assert(ten(1) == 10) by {
            assert(ten(0) == 1);
        }
        assert(n / 10 == 0);
        assert(width(0) == 0);
    } else {
        let v = (w - 1) as nat;
        assert(ten(w) == 10 * ten(v));
        assert(ten(w + 1) == 10 * ten(w));
        width_is(n / 10, v);
    }
}

/// The exponent that scientific notation carries.
proof fn exponent_written(a: Dec, p: int)
    requires
        a.m != 0,
        leads_at(a, p),
    ensures
        ({
            let e = Decimal::scientific_v(a, 11);
            &&& has_char(e, 'e')
            &&& exponent_v(e) is Some ==> exponent_v(e) == Some(p)
            &&& -4 <= p < 12 ==> exponent_v(e) == Some(p)
        }),
{
    let n = size_of(a);
    width_is(n, (p + a.s) as nat);
    assert(exponent_of(a) == p);
    let c = cut_v(n, (width(n) - 1) as nat, 11);
    let (w, f) = plain_parts(a.m < 0, c, 11);
    let head = plain_v(a.m < 0, c, 11);
    point_at(a.m < 0 && c > 0, w, f);
    let e = head + seq!['e'] + signed(p);
    assert(Decimal::scientific_v(a, 11) =~= e);
    let k = head.len() as int;
    find_bounds(head, 'e', 0);
    assert forall|i: int| 0 <= i < k implies #[trigger] e[i] != 'e' by {
        assert(e[i] == head[i]);
    }
    assert(e[k] == 'e');
    find_at(e, 'e', 0, k);
    assert(e.skip(k + 1) =~= signed(p));
    let m = if p < 0 {
        (-p) as nat
    } else {
        p as nat
    };
    digits_back(m);
    assert(is_digit(decimal(m)[0]));
    if p < 0 {
        assert(signed(p).skip(1) =~= decimal(m));
    }
}

/// A number without the zeros of its fraction.
pub proof fn zeros_trimmed(neg: bool, w: Seq<char>, p: Seq<char>, f: Seq<char>)
    requires
        w.len() > 0,
        all_digits(w),
        all_digits(p),
        all_digits(f),
        shed_end(written(neg, w, p), '0') == written(neg, w, f),
    ensures
        trimmed_v(written(neg, w, p)) == if f.len() == 0 {
            sign_text(neg) + w
        } else {
            written(neg, w, f)
        },
{
    point_at(neg, w, p);
    shed_shape(neg, w, f);
}

/// What a literal without zeros ends with.
proof fn shed_shape(neg: bool, w: Seq<char>, f: Seq<char>)
    requires
        all_digits(f),
    ensures
        ({
            let t = written(neg, w, f);
            &&& t.len() > 0
            &&& t.last() == '.' <==> f.len() == 0
            &&& f.len() == 0 ==> t.drop_last() == sign_text(neg) + w
            &&& f.len() == 0 ==> t.push('0') == written(neg, w, seq!['0'])
        }),
{
    let t = written(neg, w, f);
    if f.len() == 0 {
        assert(t.last() == '.');
        assert(t.drop_last() =~= sign_text(neg) + w);
        assert(t.push('0') =~= written(neg, w, seq!['0']));
    } else {
        assert(t.last() == f.last());
        assert(is_digit(f[f.len() - 1]));
    }
}

proof fn near_literal(a: Dec, neg: bool, w: Seq<char>, f: Seq<char>)
    requires
        all_digits(w),
        all_digits(f),
        general_v::<Decimal>(a) == if f.len() == 0 {
            sign_text(neg) + w
        } else {
            written(neg, w, f)
        },
    ensures
        dbl_v::<Decimal>(a) == if f.len() == 0 {
            written(neg, w, seq!['0'])
        } else {
            written(neg, w, f)
        },
{
    if f.len() == 0 {
        no_point(neg, w);
        reveal_strlit(".0");
        assert(".0"@ =~= seq!['.', '0']);
        assert(sign_text(neg) + w + ".0"@ =~= written(neg, w, seq!['0']));
    } else {
        point_at(neg, w, f);
    }
}

proof fn far_literal(a: Dec, neg: bool, w: Seq<char>, f: Seq<char>)
    requires
        all_digits(w),
        all_digits(f),
        has_char(general_v::<Decimal>(a), 'e'),
        shed_end(Decimal::fixed_v(a, 12), '0') == written(neg, w, f),
    ensures
        dbl_v::<Decimal>(a) == if f.len() == 0 {
            written(neg, w, seq!['0'])
        } else {
            written(neg, w, f)
        },
{
    shed_shape(neg, w, f);
    if f.len() == 0 {
        assert(all_digits(seq!['0']));
        point_at(neg, w, seq!['0']);
    } else {
        point_at(neg, w, f);
    }
}

/// The literal of a number in the model, a probability or an impact: a sign where
/// it is below zero, digits, a point and digits, and what it denotes is the
/// number rounded to twelve significant digits, or to twelve digits after the
/// point where the first one stands far from it. A number that ends within them
/// is denoted as it is.
pub proof fn literals_denote(a: Dec, p: int)
    requires
        a.m != 0,
        leads_at(a, p),
    ensures
        pointed(dbl_v::<Decimal>(a)),
        Decimal::read_v(dbl_v::<Decimal>(a)) matches Some(b) && rounds(b, a, places(p)) && (ends_within(
            a,
            places(p),
        ) ==> Decimal::real_of(b) == Decimal::real_of(a)),
{
    let d = places(p);
    let (neg, n, s) = (a.m < 0, size_of(a), a.s);
    let q = rounded_v(n, s, d);
    let below = neg && q > 0;
    let (w, f0) = plain_parts(neg, q, d);
    let e = Decimal::scientific_v(a, 11);
    exponent_written(a, p);
    not_zero(a);
    rounded_near(n, s, d);
    let text = dbl_v::<Decimal>(a);
    let f = if d == 0 {
        f0
    } else {
        zeros_shed(below, w, f0)
    };
    if -4 <= p < 12 {
        assert(Decimal::fixed_v(a, (11 - p) as usize) == plain_v(neg, q, d));
        if d == 0 {
            no_point(below, w);
        } else {
            zeros_trimmed(below, w, f0, f);
        }
        assert(general_v::<Decimal>(a) == if f.len() == 0 {
            sign_text(below) + w
        } else {
            written(below, w, f)
        });
        near_literal(a, below, w, f);
    } else {
        assert(Decimal::fixed_v(a, 12) == plain_v(neg, q, d));
        assert(general_v::<Decimal>(a) == e);
        far_literal(a, below, w, f);
    }
    literal_made(below, w, f, q, d);
    let b = Decimal::read_v(text)->0;
    assert(magnitude(b) == real_v(q as int, d));
    if q == 0 {
        nothing(b, d);
    }
    same_sign(a, b);
}

proof fn not_zero(a: Dec)
    requires
        a.m != 0,
    ensures
        !(Decimal::le_v(a, Decimal::zero_v()) && Decimal::le_v(Decimal::zero_v(), a)),
{
    let zero = Dec { m: 0, s: 0 };
    let (x, y) = (ten(a.s), ten((a.s - a.s) as nat));
    assert(0 * x == 0) by (nonlinear_arith);
    assert(ten(0) == 1);
    assert(a.m * 1 == a.m);
}

proof fn nothing(b: Dec, d: nat)
    requires
        magnitude(b) == real_v(0, d),
    ensures
        b.m == 0,
{
    times_unit(tenth(d));
    tenth_step(b.s);
    if b.m != 0 {
        real_order(0, size_of(b) as int, tenth(b.s));
        times_unit(tenth(b.s));
    }
}

proof fn same_sign(a: Dec, b: Dec)
    requires
        b.m > 0 ==> a.m > 0,
        b.m < 0 ==> a.m < 0,
    ensures
        magnitude(b) == magnitude(a) && a.m != 0 ==> Decimal::real_of(b) == Decimal::real_of(a),
{
    real_by_sign(a);
    real_by_sign(b);
    tenth_step(a.s);
    if magnitude(b) == magnitude(a) && a.m != 0 && b.m == 0 {
        real_order(0, size_of(a) as int, tenth(a.s));
    }
}

/// The literal of zero denotes it.
pub proof fn zero_is_denoted(a: Dec)
    requires
        a.m == 0,
    ensures
        pointed(dbl_v::<Decimal>(a)),
        Decimal::read_v(dbl_v::<Decimal>(a)) matches Some(b) && Decimal::real_of(b) == 0 as real,
{
    let (x, y) = (ten(a.s), ten((a.s - a.s) as nat));
    assert(0 * x == 0) by (nonlinear_arith);
    assert(0 * y == 0) by (nonlinear_arith);
    let w = seq!['0'];
    reveal_strlit("0");
    reveal_strlit(".0");
    assert("0"@ =~= w);
    no_point(false, w);
    assert(sign_text(false) + w =~= w);
    let text = written(false, w, w);
    assert(all_digits(w));
    assert("0"@ + ".0"@ =~= text);
    pointed_reads(false, w, w);
    assert(pointed(text));
    assert((w + w).drop_last() =~= w);
    assert(w.drop_last() =~= Seq::empty());
    assert(digits_v(w.drop_last()) == Some(0nat));
    assert(digits_v(w) == Some(0nat));
    assert(digits_v(w + w) == Some(0nat));
    let b = Decimal::read_v(text)->0;
    real_by_sign(b);
}

} // verus!
