//! Figures and lists: what the texts of numbers and of vectors say.

use vstd::prelude::*;
use vstd::string::*;
use crate::decimal::{
    all_digits, digits_joined, exponent_of, literal_v, mark_of, power_at, products_as_real,
    real_by_sign, real_v, same_real, sign_text, size_of, tenth, tenth_adds, tenth_step, with_sign,
    Dec, Decimal,
};
use crate::digits::{ten, ten_positive, width};
use crate::layout::{digits_back, find_at, find_none, list_back, natural_back, tidy, without};
use crate::literal::{
    fixed_is_rounded, no_point, plain_parts, pointed, rounds, written, zeros_shed, zeros_trimmed,
};
use crate::num::Number;
use crate::report::{trail_text, vec_text};
use crate::text::{decimal, digit, joined, signed};
use crate::words::{digits_v, is_digit, is_white, split_v, trim_v};

verus! {

// ---------------------------------------------------------------------------
// numerals
// ---------------------------------------------------------------------------

/// A number in decimal is its digits in base ten, the highest first, without a
/// zero in front but for zero itself.
pub proof fn numerals_are_positional(n: nat, i: nat)
    requires
        i < decimal(n).len(),
    ensures
        decimal(n)[decimal(n).len() - 1 - i] as int == '0' as int + (n / ten(i)) % 10,
        n > 0 ==> decimal(n)[0] != '0',
        n == 0 ==> decimal(n) == seq!['0'],
        ten(decimal(n).len()) > n,
        n > 0 ==> ten((decimal(n).len() - 1) as nat) <= n,
    decreases n,
{
    assert(ten(0) == 1);
    assert(ten(1) == 10);
    if n < 10 {
        assert(n / 1 == n);
        assert(decimal(n) =~= seq![digit(n as int)]);
    } else {
        let m = n / 10;
        let s = decimal(m);
        digits_back(m);
        assert(decimal(n) =~= s.push(digit((n % 10) as int)));
        assert(decimal(n).len() == s.len() + 1);
        numerals_are_positional(m, if i > 0 {
            (i - 1) as nat
        } else {
            0
        });
        assert(ten(s.len() + 1) == 10 * ten(s.len()));
        assert(ten(s.len()) == 10 * ten((s.len() - 1) as nat));
        if i > 0 {
            let j = (i - 1) as nat;
            assert(ten(i) == 10 * ten(j));
            ten_positive(j);
            vstd::arithmetic::div_mod::lemma_div_denominator(n as int, 10, ten(j) as int);
            assert(decimal(n)[decimal(n).len() - 1 - i] == s[s.len() - 1 - j]);
        } else {
            assert(n / 1 == n);
        }
        assert(decimal(n)[0] == s[0]);
    }
}

/// A number with its sign: a minus below zero and nothing otherwise, in front of
/// its size.
pub proof fn signs_are_written(n: int)
    ensures
        n < 0 ==> signed(n)[0] == '-' && signed(n).skip(1) == decimal((-n) as nat),
        n >= 0 ==> signed(n) == decimal(n as nat) && is_digit(signed(n)[0]),
{
    if n < 0 {
        assert(signed(n).skip(1) =~= decimal((-n) as nat));
    } else {
        digits_back(n as nat);
        assert(is_digit(decimal(n as nat)[0]));
    }
}

// ---------------------------------------------------------------------------
// lists
// ---------------------------------------------------------------------------

/// Where a part of a list begins.
pub open spec fn part_at(ps: Seq<Seq<char>>, sep: Seq<char>, j: int) -> int
    decreases j,
{
    if j <= 0 {
        0
    } else {
        part_at(ps, sep, j - 1) + ps[j - 1].len() + sep.len()
    }
}

proof fn part_same(a: Seq<Seq<char>>, b: Seq<Seq<char>>, sep: Seq<char>, j: int)
    requires
        j <= a.len(),
        j <= b.len(),
        forall|i: int| 0 <= i < j ==> a[i] == b[i],
    ensures
        part_at(a, sep, j) == part_at(b, sep, j),
        part_at(a, sep, j) >= 0,
    decreases j,
{
    if j > 0 {
        part_same(a, b, sep, j - 1);
    }
}

/// A list holds its parts, all of them and in their order, each behind the
/// separator that follows the one before it, and nothing else.
pub proof fn lists_hold_parts(ps: Seq<Seq<char>>, sep: Seq<char>, j: int)
    requires
        0 <= j < ps.len(),
    ensures
        ({
            let all = joined(ps, sep);
            let at = part_at(ps, sep, j);
            &&& all.len() == part_at(ps, sep, ps.len() as int) - sep.len()
            &&& 0 <= at <= at + ps[j].len() <= all.len()
            &&& all.subrange(at, (at + ps[j].len()) as int) == ps[j]
            &&& j > 0 ==> at >= sep.len() && all.subrange((at - sep.len()) as int, at) == sep
        }),
    decreases ps.len(),
{
    let n = ps.len() as int;
    let all = joined(ps, sep);
    let at = part_at(ps, sep, j);
    if n == 1 {
        assert(part_at(ps, sep, 1) == part_at(ps, sep, 0) + ps[0].len() + sep.len());
        assert(all.subrange(0, all.len() as int) =~= ps[0]);
    } else {
        let front = ps.drop_last();
        part_same(front, ps, sep, n - 1);
        part_same(front, ps, sep, j);
        let head = joined(front, sep);
        assert(all == head + sep + ps.last());
        assert(part_at(ps, sep, n) == part_at(ps, sep, n - 1) + ps[n - 1].len() + sep.len());
        if j < n - 1 {
            lists_hold_parts(front, sep, j);
            assert(all.subrange(at, (at + ps[j].len()) as int) =~= head.subrange(
                at,
                (at + ps[j].len()) as int,
            ));
            if j > 0 {
                assert(all.subrange((at - sep.len()) as int, at) =~= head.subrange(
                    (at - sep.len()) as int,
                    at,
                ));
            }
        } else {
            lists_hold_parts(front, sep, 0);
            assert(all.subrange(at, (at + ps[j].len()) as int) =~= ps[j]);
            assert(all.subrange((at - sep.len()) as int, at) =~= sep);
        }
    }
}

/// A printed vector tells its numbers: between brackets, in their order and as
/// many as there are, each rounded to six digits after the point.
pub proof fn vectors_are_told(v: Seq<Dec>)
    requires
        v.len() > 0,
    ensures
        ({
            let text = vec_text::<Decimal>(v);
            let cut = split_v(text.subrange(1, text.len() - 1), ',', 0);
            &&& text[0] == '['
            &&& text.last() == ']'
            &&& cut.len() == v.len()
            &&& forall|c: int|
                0 <= c < v.len() ==> (Decimal::read_v(trim_v(#[trigger] cut[c])) matches Some(b)
                    && rounds(b, v[c], 6))
        }),
{
    reveal_strlit("[");
    reveal_strlit("]");
    reveal_strlit(", ");
    let ps = Seq::new(v.len(), |i: int| Decimal::fixed_v(v[i], 6));
    let sep = seq![',', ' '];
    assert(", "@ =~= sep);
    let text = vec_text::<Decimal>(v);
    let all = joined(ps, sep);
    assert(text =~= "["@ + all + "]"@);
    assert(text.subrange(1, text.len() - 1) =~= all);
    assert forall|i: int| 0 <= i < ps.len() implies without(#[trigger] ps[i], ',') && tidy(ps[i]) by {
        fixed_is_rounded(v[i], 6);
        pointed_is_plain(ps[i]);
    }
    list_back(ps);
    let cut = split_v(all, ',', 0);
    assert forall|c: int| 0 <= c < v.len() implies (Decimal::read_v(
        trim_v(#[trigger] cut[c]),
    ) matches Some(b) && rounds(b, v[c], 6)) by {
        assert(trim_v(cut[c]) == ps[c]);
        fixed_is_rounded(v[c], 6);
    }
}

/// A literal with a point holds neither blanks nor commas.
proof fn pointed_is_plain(s: Seq<char>)
    requires
        pointed(s),
    ensures
        without(s, ','),
        tidy(s),
{
    let (neg, w, f) = choose|neg: bool, w: Seq<char>, f: Seq<char>|
        {
            &&& s == #[trigger] written(neg, w, f)
            &&& w.len() > 0
            &&& f.len() > 0
            &&& all_digits(w)
            &&& all_digits(f)
        };
    let at = (sign_text(neg).len() + w.len()) as int;
    assert forall|i: int| 0 <= i < s.len() implies #[trigger] s[i] != ',' && !is_white(s[i]) by {
        if i >= sign_text(neg).len() && i < at {
            assert(is_digit(w[i - sign_text(neg).len()]));
        } else if i > at {
            assert(is_digit(f[i - at - 1]));
        }
    }
}

/// A printed history tells its decisions: between brackets, in their order and
/// as many as there are.
pub proof fn trails_are_told(d: Seq<u32>)
    requires
        d.len() > 0,
    ensures
        ({
            let text = trail_text(d);
            let cut = split_v(text.subrange(1, text.len() - 1), ',', 0);
            &&& text[0] == '['
            &&& text.last() == ']'
            &&& cut.len() == d.len()
            &&& forall|c: int|
                0 <= c < d.len() ==> digits_v(trim_v(#[trigger] cut[c])) == Some(d[c] as nat)
        }),
{
    reveal_strlit("[");
    reveal_strlit("]");
    reveal_strlit(", ");
    let ps = Seq::new(d.len(), |i: int| decimal(d[i] as nat));
    let sep = seq![',', ' '];
    assert(", "@ =~= sep);
    let text = trail_text(d);
    let all = joined(ps, sep);
    assert(text =~= "["@ + all + "]"@);
    assert(text.subrange(1, text.len() - 1) =~= all);
    assert forall|i: int| 0 <= i < ps.len() implies without(#[trigger] ps[i], ',') && tidy(ps[i]) by {
        natural_back(d[i] as nat, u32::MAX as nat);
    }
    list_back(ps);
    let cut = split_v(all, ',', 0);
    assert forall|c: int| 0 <= c < d.len() implies digits_v(trim_v(#[trigger] cut[c])) == Some(
        d[c] as nat,
    ) by {
        assert(trim_v(cut[c]) == ps[c]);
        digits_back(d[c] as nat);
    }
}

// ---------------------------------------------------------------------------
// literals with an exponent
// ---------------------------------------------------------------------------

/// Ten to a power, above the point or below it.
pub open spec fn tens(p: int) -> real {
    if p >= 0 {
        ten(p as nat) as real
    } else {
        tenth((-p) as nat)
    }
}

/// Digits in units of a power of ten, put as a decimal.
proof fn literal_is_real(neg: bool, n: nat, part: nat, power: int)
    ensures
        Decimal::real_of(literal_v(neg, n, part, power)) == real_v(with_sign(neg, n), part) * tens(power),
{
    let d = literal_v(neg, n, part, power);
    real_by_sign(d);
    let m = with_sign(neg, n);
    let s = part - power;
    if power >= 0 {
        let p = power as nat;
        ten_as_real(p);
        if s >= 0 {
            // m tenth(part - p) == m tenth(part) 10^p
            tenth_splits(s as nat, p);
            assert(s + p == part);
            let (x, a, b, c) = (m as real, tenth(s as nat), tenth(part), ten(p) as real);
            assert(x * a == (x * b) * c) by (nonlinear_arith)
                requires
                    a == b * c,
            ;
        } else {
            let k = (-s) as nat;
            same_real(m, 0, part);
            same_real(m, part, 0);
            ten_adds(part, k);
            assert(part + k == p);
            ten_times_tenth(part);
            let (x, t, u, v) = (m as real, tenth(part), ten(part) as real, ten(k) as real);
            assert(d.m == m * ten(k)) by {
                if neg {
                    assert((-(n as int)) * (ten(k) as int) == -((n * ten(k)) as int)) by (nonlinear_arith);
                }
            }
            products_as_real(m, ten(k) as int);
            products_as_real(ten(part) as int, ten(k) as int);
            assert((ten(part) * ten(k)) as real == u * v);
            assert((x * v) * (1 as real) == (x * t) * (u * v)) by (nonlinear_arith)
                requires
                    t * u == 1 as real,
            ;
            assert(tenth(0) == 1 as real);
        }
    } else {
        let q = (-power) as nat;
        tenth_adds(part, q);
        assert(s == part + q);
        let (x, a, b) = (m as real, tenth(part), tenth(q));
        assert(x * (a * b) == (x * a) * b) by (nonlinear_arith);
    }
}

proof fn ten_as_real(p: nat)
    ensures
        ten(p) as real >= 1 as real,
{
    ten_positive(p);
}

/// A tenth to a power and ten to the same one.
proof fn ten_times_tenth(p: nat)
    ensures
        tenth(p) * (ten(p) as real) == 1 as real,
{
    same_real(1, 0, p);
    assert(1 * ten(p) == ten(p));
    assert(0 + p == p);
    let (t, u) = (tenth(p), ten(p) as real);
    assert(real_v(ten(p) as int, p) == u * t);
    assert(real_v(1, 0) == (1 as real) * tenth(0));
    assert(tenth(0) == 1 as real);
    assert((1 as real) * (1 as real) == 1 as real);
    assert(u * t == t * u) by (nonlinear_arith);
}

proof fn tenth_splits(a: nat, p: nat)
    ensures
        tenth(a) == tenth(a + p) * (ten(p) as real),
{
    tenth_adds(a, p);
    ten_times_tenth(p);
    let (x, y, z) = (tenth(a), tenth(p), ten(p) as real);
    assert((x * y) * z == x * (y * z)) by (nonlinear_arith);
    assert(x * (1 as real) == x) by (nonlinear_arith);
}

proof fn ten_adds(a: nat, b: nat)
    ensures
        ten(a + b) == ten(a) * ten(b),
    decreases a,
{
    if a == 0 {
        assert(1 * ten(b) == ten(b));
    } else {
        let c = (a - 1) as nat;
        ten_adds(c, b);
        assert(a + b == (c + b) + 1);
        let (x, y) = (ten(c), ten(b));
        assert((10 * x) * y == 10 * (x * y)) by (nonlinear_arith);
    }
}

/// A literal with a point and an exponent denotes its digits, as many of them
/// behind the point as there are, times its power of ten.
pub proof fn exponents_are_read(neg: bool, w: Seq<char>, f: Seq<char>, power: int)
    requires
        w.len() > 0,
        all_digits(w),
        all_digits(f),
        -9999 <= power <= 9999,
    ensures
        Decimal::read_v(written(neg, w, f) + seq!['e'] + signed(power)) matches Some(b)
            && Decimal::real_of(b) == real_v(with_sign(neg, digits_v(w + f)->0), f.len()) * tens(power),
{
    let body = w + seq!['.'] + f;
    let s = body + seq!['e'] + signed(power);
    let text = written(neg, w, f) + seq!['e'] + signed(power);
    digits_joined(w, f);
    let k = body.len() as int;
    assert forall|i: int| 0 <= i < k implies #[trigger] s[i] != 'e' && s[i] != 'E' && (s[i] == '.' <==> i
        == w.len()) by {
        assert(s[i] == body[i]);
        if i < w.len() {
            assert(is_digit(w[i]));
        } else if i > w.len() {
            assert(is_digit(f[i - w.len() - 1]));
        }
    }
    assert(s[k] == 'e');
    find_at(s, 'e', 0, k);
    let m = if power < 0 {
        (-power) as nat
    } else {
        power as nat
    };
    digits_back(m);
    let tail = signed(power);
    assert forall|i: int| k < i < s.len() implies #[trigger] s[i] != 'E' by {
        assert(s[i] == tail[i - k - 1]);
        if power < 0 {
            if i - k - 1 > 0 {
                assert(tail[i - k - 1] == decimal(m)[i - k - 2]);
                assert(is_digit(decimal(m)[i - k - 2]));
            }
        } else {
            assert(is_digit(decimal(m)[i - k - 1]));
        }
    }
    find_none(s, 'E', 0);
    assert(mark_of(s) == k);
    assert(s.take(k) =~= body);
    assert(s.skip(k + 1) =~= tail);
    assert(body[w.len() as int] == '.');
    assert forall|i: int| 0 <= i < w.len() implies #[trigger] body[i] != '.' by {
        assert(is_digit(w[i]));
    }
    find_at(body, '.', 0, w.len() as int);
    assert(body.skip(w.len() as int + 1) =~= f);
    assert(body.take(w.len() as int) =~= w);
    assert(is_digit(decimal(m)[0]));
    if power < 0 {
        assert(tail.skip(1) =~= decimal(m));
    }
    assert(power_at(s, k) == Some(power));
    assert(is_digit(w[0]));
    if neg {
        assert(text[0] == '-');
        assert(text.skip(1) =~= s);
    } else {
        assert(text =~= s);
        assert(s[0] == w[0]);
    }
    literal_is_real(neg, digits_v(w + f)->0, f.len(), power);
}

/// The same of a literal without a point.
pub proof fn whole_exponents_are_read(neg: bool, w: Seq<char>, power: int)
    requires
        w.len() > 0,
        all_digits(w),
        -9999 <= power <= 9999,
    ensures
        Decimal::read_v(sign_text(neg) + w + seq!['e'] + signed(power)) matches Some(b)
            && Decimal::real_of(b) == real_v(with_sign(neg, digits_v(w)->0), 0) * tens(power),
{
    let none = Seq::<char>::empty();
    let s = w + seq!['e'] + signed(power);
    let text = sign_text(neg) + w + seq!['e'] + signed(power);
    digits_joined(w, none);
    assert(w + none =~= w);
    let k = w.len() as int;
    assert forall|i: int| 0 <= i < k implies #[trigger] s[i] != 'e' && s[i] != 'E' by {
        assert(s[i] == w[i]);
        assert(is_digit(w[i]));
    }
    assert(s[k] == 'e');
    find_at(s, 'e', 0, k);
    let m = if power < 0 {
        (-power) as nat
    } else {
        power as nat
    };
    digits_back(m);
    let tail = signed(power);
    assert forall|i: int| k < i < s.len() implies #[trigger] s[i] != 'E' by {
        assert(s[i] == tail[i - k - 1]);
        if power < 0 {
            if i - k - 1 > 0 {
                assert(tail[i - k - 1] == decimal(m)[i - k - 2]);
                assert(is_digit(decimal(m)[i - k - 2]));
            }
        } else {
            assert(is_digit(decimal(m)[i - k - 1]));
        }
    }
    find_none(s, 'E', 0);
    assert(mark_of(s) == k);
    assert(s.take(k) =~= w);
    assert(s.skip(k + 1) =~= tail);
    assert forall|i: int| 0 <= i < w.len() implies #[trigger] w[i] != '.' by {
        assert(is_digit(w[i]));
    }
    find_none(w, '.', 0);
    assert(w.take(k) + none =~= w);
    assert(is_digit(decimal(m)[0]));
    if power < 0 {
        assert(tail.skip(1) =~= decimal(m));
    }
    assert(power_at(s, k) == Some(power));
    assert(is_digit(w[0]));
    if neg {
        assert(text[0] == '-');
        assert(text.skip(1) =~= s);
    } else {
        assert(text =~= s);
        assert(s[0] == w[0]);
    }
    literal_is_real(neg, digits_v(w)->0, 0, power);
}

/// Negation passes through a product.
proof fn sign_moves(neg: bool, n: nat, s: nat, m: nat, r: nat)
    requires
        real_v(n as int, s) == real_v(m as int, r),
    ensures
        real_v(with_sign(neg, n), s) == real_v(with_sign(neg, m), r),
{
    if neg {
        let (x, y, t, u) = (n as real, m as real, tenth(s), tenth(r));
        assert((-(n as int)) as real == 0 as real - x);
        assert((-(m as int)) as real == 0 as real - y);
        assert((0 as real - x) * t == 0 as real - x * t) by (nonlinear_arith);
        assert((0 as real - y) * u == 0 as real - y * u) by (nonlinear_arith);
    }
}

/// A number moved by its exponent and back.
proof fn point_moves(m: int, k: nat, s: nat)
    ensures
        real_v(m, k) * tens(k - s) == real_v(m, s),
{
    let x = m as real;
    if k >= s {
        let p = (k - s) as nat;
        tenth_splits(s, p);
        assert(s + p == k);
        let (a, b, c) = (tenth(s), tenth(k), ten(p) as real);
        assert((x * b) * c == x * a) by (nonlinear_arith)
            requires
                a == b * c,
        ;
    } else {
        let q = (s - k) as nat;
        tenth_adds(k, q);
        assert(k + q == s);
        let (a, b) = (tenth(k), tenth(q));
        assert((x * a) * b == x * (a * b)) by (nonlinear_arith);
    }
}

/// A number written with a power of ten denotes itself, whole, wherever its
/// first digit stands.
pub proof fn powers_denote(a: Dec)
    requires
        -9999 <= exponent_of(a) <= 9999,
    ensures
        Decimal::read_v(Decimal::power_v(a)) matches Some(b) && Decimal::real_of(b)
            == Decimal::real_of(a),
{
    let n = size_of(a);
    real_by_sign(a);
    if n == 0 {
        let z = seq!['0'];
        assert(all_digits(z));
        assert(digits_v(z.drop_last()) == Some(0nat));
        assert(digits_v(z) == Some(0nat));
        whole_exponents_are_read(false, z, 0);
        assert(decimal(0) =~= z);
        assert(sign_text(false) + z + seq!['e'] + signed(0) =~= seq!['0', 'e', '0']);
        let t = tens(0);
        let u = tenth(0);
        assert((0 as real) * u == 0 as real) by (nonlinear_arith);
        assert((0 as real) * t == 0 as real) by (nonlinear_arith);
    } else {
        let neg = a.m < 0;
        let k = (width(n) - 1) as nat;
        let e = exponent_of(a);
        let (w, p) = plain_parts(neg, n, k);
        assert(with_sign(neg, n) == a.m);
        point_moves(a.m, k, a.s);
        assert(e == k - a.s);
        if k == 0 {
            assert(w + p =~= w);
            let text = sign_text(neg) + w;
            no_point(neg, w);
            whole_exponents_are_read(neg, w, e);
        } else {
            let f = zeros_shed(neg, w, p);
            zeros_trimmed(neg, w, p, f);
            sign_moves(neg, digits_v(w + f)->0, f.len(), n, k);
            if f.len() == 0 {
                assert(w + f =~= w);
                whole_exponents_are_read(neg, w, e);
            } else {
                exponents_are_read(neg, w, f, e);
            }
        }
    }
}

/// A number is an integer exactly where it equals one, which is then clamped to
/// sixty-four bits.
pub proof fn integers_are_whole(a: Dec)
    ensures
        match Decimal::integral_v(a) {
            Some(i) => exists|q: int| #[trigger]
                real_v(q, 0) == Decimal::real_of(a) && i == clamped(q),
            None => forall|q: int| #[trigger] real_v(q, 0) != Decimal::real_of(a),
        },
{
    let (n, t) = (size_of(a), ten(a.s));
    real_by_sign(a);
    ten_positive(a.s);
    vstd::arithmetic::div_mod::lemma_fundamental_div_mod(n as int, t as int);
    if n % t == 0 {
        let q = with_sign(a.m < 0, n / t);
        let h = n / t;
        assert(n == h * t) by (nonlinear_arith)
            requires
                n == t * h,
        ;
        assert((-(h as int)) * (t as int) == -(h * t)) by (nonlinear_arith);
        assert(q * t == a.m);
        same_real(q, 0, a.s);
        assert(0 + a.s == a.s);
        assert(real_v(q, 0) == Decimal::real_of(a));
    } else {
        assert forall|q: int| #[trigger] real_v(q, 0) != Decimal::real_of(a) by {
            same_real(q, 0, a.s);
            assert(0 + a.s == a.s);
            if real_v(q, 0) == Decimal::real_of(a) {
                let (x, y, u) = ((q * t) as real, a.m as real, tenth(a.s));
                tenth_step(a.s);
                assert(x == y) by (nonlinear_arith)
                    requires
                        x * u == y * u,
                        u > 0 as real,
                ;
                assert(q * t == a.m);
                let h = if q < 0 {
                    -q
                } else {
                    q
                };
                assert(n == h * t) by (nonlinear_arith)
                    requires
                        q * t == a.m,
                        t >= 1,
                        n == (if a.m < 0 {
                            -a.m
                        } else {
                            a.m
                        }),
                        h == (if q < 0 {
                            -q
                        } else {
                            q
                        }),
                ;
                vstd::arithmetic::div_mod::lemma_mod_multiples_basic(h, t as int);
            }
        }
    }
}

/// An integer held within sixty-four bits.
pub open spec fn clamped(q: int) -> int {
    if q < -0x8000_0000_0000_0000 {
        -0x8000_0000_0000_0000
    } else if q > 0x7fff_ffff_ffff_ffff {
        0x7fff_ffff_ffff_ffff
    } else {
        q
    }
}

} // verus!
