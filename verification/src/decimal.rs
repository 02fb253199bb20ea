//! Exact decimal numbers.
//!
//! A decimal is a whole number of units of a power of a tenth. Sums, differences
//! and products of decimals are decimals, so nothing is ever rounded but where a
//! number of digits is asked for.

use vstd::prelude::*;
use vstd::slice::slice_subrange;
use vstd::string::*;
use crate::digits::{
    add_digits, at, capped, decimal_text, digital, le_digits, low_kept, mul_digits, pad, padded,
    padded_text, raise, strip, sub_digits, ten, ten_positive, val, val_cons, val_cut, val_padded,
    val_skip, width, width_of,
};
use crate::layout::{digits_back, find_at, find_none, solid, without};
use crate::mdp::number_text;
use crate::num::{exact, Number};
use crate::reals::{times_both, times_grows, times_positive, times_sum, times_swap, times_unit};
use crate::text::{chars_of, decimal, decimal_of, digit, signed, text_of};
use crate::words::{
    digits_v, find, find_v, integer, integer_v, is_digit, is_white, shed_end, trimmed, trimmed_v,
};

verus! {

/// `m` units of a tenth to the power `s`.
pub struct Dec {
    pub m: int,
    pub s: nat,
}

/// An exact decimal number: its digits, the lowest first, and how many of them
/// stand after the point.
pub struct Decimal {
    neg: bool,
    digits: Vec<u8>,
    frac: usize,
}

/// The number without its sign.
pub open spec fn size_of(a: Dec) -> nat {
    if a.m < 0 {
        (-a.m) as nat
    } else {
        a.m as nat
    }
}

/// How many units a number is of a finer power of a tenth.
pub open spec fn units(a: Dec, s: nat) -> int {
    a.m * ten((s - a.s) as nat)
}

/// The finer of the two powers.
pub open spec fn finer(a: Dec, b: Dec) -> nat {
    if a.s >= b.s {
        a.s
    } else {
        b.s
    }
}

pub open spec fn sum_of(a: Dec, b: Dec) -> Dec {
    Dec { m: units(a, finer(a, b)) + units(b, finer(a, b)), s: finer(a, b) }
}

pub open spec fn negated(a: Dec) -> Dec {
    Dec { m: -a.m, s: a.s }
}

pub open spec fn not_above(a: Dec, b: Dec) -> bool {
    units(a, finer(a, b)) <= units(b, finer(a, b))
}

/// Five to the power `n`.
pub open spec fn five(n: nat) -> nat
    decreases n,
{
    if n == 0 {
        1
    } else {
        five((n - 1) as nat) * 5
    }
}

/// A whole number of units of a tenth to the power `d`, with its point.
pub open spec fn plain_v(neg: bool, q: nat, d: nat) -> Seq<char> {
    let sign = if neg && q > 0 {
        seq!['-']
    } else {
        Seq::empty()
    };
    let whole = sign + decimal(q / ten(d));
    if d > 0 {
        whole + seq!['.'] + padded(q % ten(d), d)
    } else {
        whole
    }
}

/// `n` units of a tenth to the power `s` in units of a tenth to the power `d`,
/// cut where they are coarser.
pub open spec fn cut_v(n: nat, s: nat, d: nat) -> nat {
    if d >= s {
        n * ten((d - s) as nat)
    } else {
        n / ten((s - d) as nat)
    }
}

/// The same, rounded, a half away from zero.
pub open spec fn rounded_v(n: nat, s: nat, d: nat) -> nat {
    if d < s && (n / ten((s - d - 1) as nat)) % 10 >= 5 {
        cut_v(n, s, d) + 1
    } else {
        cut_v(n, s, d)
    }
}

/// The exponent of the highest digit.
pub open spec fn exponent_of(a: Dec) -> int {
    width(size_of(a)) - 1 - a.s
}

/// The digits of a literal, those after its point being `part`, times a power of
/// ten.
pub open spec fn literal_v(neg: bool, n: nat, part: nat, power: int) -> Dec {
    let s = part - power;
    let m = if s >= 0 {
        n as int
    } else {
        (n * ten((-s) as nat)) as int
    };
    Dec {
        m: if neg {
            -m
        } else {
            m
        },
        s: if s >= 0 {
            s as nat
        } else {
            0
        },
    }
}

/// The power of ten a literal carries after its mark, `i` being the place of the
/// mark or the end; it lies within nine thousand nine hundred and ninety-nine.
pub open spec fn power_at(s: Seq<char>, i: int) -> Option<int> {
    if i >= s.len() {
        Some(0)
    } else {
        integer_v(s.skip(i + 1), 9999)
    }
}

/// The place of the mark of an exponent, or the end.
pub open spec fn mark_of(s: Seq<char>) -> int {
    let (a, b) = (find_v(s, 'e', 0), find_v(s, 'E', 0));
    if a <= b {
        a
    } else {
        b
    }
}

/// A literal without its sign: digits with a point among them or none, one at
/// least, and an exponent where there is one.
pub open spec fn unsigned_v(neg: bool, s: Seq<char>) -> Option<Dec> {
    let e = mark_of(s);
    let body = s.take(e);
    let p = find_v(body, '.', 0);
    let part = if p < body.len() {
        body.skip(p + 1)
    } else {
        Seq::empty()
    };
    let all = body.take(p) + part;
    match digits_v(all) {
        None => None,
        Some(n) => if all.len() == 0 {
            None
        } else {
            match power_at(s, e) {
                None => None,
                Some(power) => Some(literal_v(neg, n, part.len(), power)),
            }
        },
    }
}

impl Decimal {
    #[verifier::type_invariant]
    spec fn inv(self) -> bool {
        digital(self.digits@) && self.frac <= self.digits@.len()
    }

    pub closed spec fn dec(self) -> Dec {
        Dec {
            m: if self.neg {
                -(val(self.digits@) as int)
            } else {
                val(self.digits@) as int
            },
            s: self.frac as nat,
        }
    }
}

proof fn negative_times(m: int, t: int)
    ensures
        (-m) * t == -(m * t),
{
    assert((-m) * t == -(m * t)) by (nonlinear_arith);
}

/// The digits of a number in finer units.
fn in_units(a: &Decimal, s: usize) -> (r: Vec<u8>)
    requires
        s >= a.frac,
    ensures
        digital(r@),
        (if a.neg {
            -(val(r@) as int)
        } else {
            val(r@) as int
        }) == units(a.dec(), s as nat),
        r@.len() >= s,
{
    proof {
        use_type_invariant(a);
        negative_times(val(a.digits@) as int, ten((s - a.frac) as nat) as int);
    }
    raise(a.digits.as_slice(), s - a.frac)
}

/// The sum of two numbers with their signs.
fn signed_sum(na: bool, a: &Vec<u8>, nb: bool, b: &Vec<u8>) -> (r: (bool, Vec<u8>))
    requires
        digital(a@),
        digital(b@),
    ensures
        digital(r.1@),
        r.1@.len() >= a@.len(),
        (if r.0 {
            -(val(r.1@) as int)
        } else {
            val(r.1@) as int
        }) == (if na {
            -(val(a@) as int)
        } else {
            val(a@) as int
        }) + (if nb {
            -(val(b@) as int)
        } else {
            val(b@) as int
        }),
{
    if na == nb {
        (na, add_digits(a.as_slice(), b.as_slice()))
    } else if le_digits(b.as_slice(), a.as_slice()) {
        (na, sub_digits(a.as_slice(), b.as_slice()))
    } else {
        (nb, sub_digits(b.as_slice(), a.as_slice()))
    }
}

fn copy_digits(s: &[u8]) -> (r: Vec<u8>)
    ensures
        r@ == s@,
{
    let mut r: Vec<u8> = Vec::new();
    for i in 0..s.len()
        invariant
            r@ =~= s@.take(i as int),
    {
        r.push(s[i]);
    }
    assert(s@.take(s@.len() as int) =~= s@);
    r
}

/// A whole number of units with its point.
fn plain(neg: bool, q: &Vec<u8>, d: usize) -> (r: Vec<char>)
    requires
        digital(q@),
    ensures
        r@ == plain_v(neg, val(q@), d as nat),
{
    let mut q = copy_digits(q.as_slice());
    pad(&mut q, d);
    proof {
        val_cut(q@, d as nat);
    }
    let zero: Vec<u8> = Vec::new();
    let above = slice_subrange(q.as_slice(), d, q.len());
    let below = slice_subrange(q.as_slice(), 0, d);
    assert(above@ =~= q@.skip(d as int));
    assert(below@ =~= q@.take(d as int));
    let mut r: Vec<char> = Vec::new();
    if neg && !le_digits(q.as_slice(), zero.as_slice()) {
        r.push('-');
    }
    let ghost sign = r@;
    let mut whole = decimal_text(above);
    r.append(&mut whole);
    if d > 0 {
        r.push('.');
        let mut part = padded_text(below);
        r.append(&mut part);
    }
    assert(r@ =~= plain_v(neg, val(q@), d as nat));
    r
}

/// The digits in units of a tenth to the power `d`, cut where they are coarser.
fn cut(n: &Vec<u8>, s: usize, d: usize) -> (r: Vec<u8>)
    requires
        digital(n@),
    ensures
        digital(r@),
        val(r@) == cut_v(val(n@), s as nat, d as nat),
{
    if d >= s {
        raise(n.as_slice(), d - s)
    } else {
        let c = s - d;
        let mut m = copy_digits(n.as_slice());
        pad(&mut m, c);
        proof {
            val_cut(m@, c as nat);
        }
        let rest = slice_subrange(m.as_slice(), c, m.len());
        assert(rest@ =~= m@.skip(c as int));
        copy_digits(rest)
    }
}

/// The same, rounded.
fn rounded(n: &Vec<u8>, s: usize, d: usize) -> (r: Vec<u8>)
    requires
        digital(n@),
    ensures
        digital(r@),
        val(r@) == rounded_v(val(n@), s as nat, d as nat),
{
    let q = cut(n, s, d);
    if d >= s {
        return q;
    }
    let c = s - d - 1;
    let mut m = copy_digits(n.as_slice());
    pad(&mut m, s - d);
    proof {
        val_cut(m@, c as nat);
        val_skip(m@, c as int);
    }
    if m[c] >= 5 {
        let mut one: Vec<u8> = Vec::new();
        one.push(1);
        proof {
            assert(one@ =~= seq![1u8] + Seq::<u8>::empty());
            val_cons(1, Seq::empty());
        }
        add_digits(q.as_slice(), one.as_slice())
    } else {
        q
    }
}

/// The mark of an exponent and the exponent.
fn write_exponent(r: &mut Vec<char>, width: usize, frac: usize)
    requires
        width >= 1,
    ensures
        final(r)@ == old(r)@ + seq!['e'] + signed(width - 1 - frac),
{
    r.push('e');
    let ghost before = r@;
    if width - 1 >= frac {
        let mut t = chars_of(decimal_of((width - 1 - frac) as u128).as_str());
        r.append(&mut t);
    } else {
        r.push('-');
        let mut t = chars_of(decimal_of(frac as u128 - (width - 1) as u128).as_str());
        r.append(&mut t);
    }
    assert(r@ =~= before + signed(width - 1 - frac));
}

/// Reads decimal digits.
fn read_digits(s: &[char], acc: Vec<u8>, Ghost(head): Ghost<Seq<char>>) -> (r: Option<Vec<u8>>)
    requires
        digital(acc@),
        digits_v(head) == Some(val(acc@)),
        acc@.len() == head.len(),
    ensures
        match r {
            Some(v) => digital(v@) && digits_v(head + s@) == Some(val(v@)) && v@.len() == head.len()
                + s@.len(),
            None => digits_v(head + s@) is None,
        },
{
    let mut acc = acc;
    assert(head + s@.take(0) =~= head);
    for i in 0..s.len()
        invariant
            digital(acc@),
            digits_v(head + s@.take(i as int)) == Some(val(acc@)),
            acc@.len() == head.len() + i,
    {
        let c = s[i];
        let ghost longer = head + s@.take(i + 1);
        proof {
            assert(longer.drop_last() =~= head + s@.take(i as int));
            assert(longer.last() == c);
        }
        if !('0' <= c && c <= '9') {
            proof {
                no_digit_after(longer, s@.skip(i + 1));
                assert(longer + s@.skip(i + 1) =~= head + s@);
            }
            return None;
        }
        let d = (c as u32 - '0' as u32) as u8;
        let ghost before = acc@;
        acc.insert(0, d);
        proof {
            assert(acc@ =~= seq![d] + before);
            val_cons(d, before);
        }
    }
    assert(head + s@.take(s@.len() as int) =~= head + s@);
    Some(acc)
}

proof fn no_digit_after(a: Seq<char>, b: Seq<char>)
    requires
        digits_v(a) is None,
    ensures
        digits_v(a + b) is None,
    decreases b.len(),
{
    if b.len() == 0 {
        assert(a + b =~= a);
    } else {
        no_digit_after(a, b.drop_last());
        assert((a + b).drop_last() =~= a + b.drop_last());
    }
}

/// The digits of a literal times a power of ten.
fn with_power(neg: bool, digits: Vec<u8>, frac: usize, power: i64) -> (r: Decimal)
    requires
        digital(digits@),
        frac <= digits@.len(),
        -10000 <= power <= 10000,
    ensures
        r.dec() == literal_v(neg, val(digits@), frac as nat, power as int),
{
    let ghost n = val(digits@);
    let mut digits = digits;
    if power <= 0 {
        let more = (-power) as usize;
        for i in 0..more
            invariant
                digital(digits@),
                val(digits@) == n,
                digits@.len() >= frac + i,
        {
            let ghost before = digits@;
            digits.push(0);
            proof {
                val_padded(before, digits@);
            }
        }
        assert(digits.len() == digits@.len());
        Decimal { neg, digits, frac: frac + more }
    } else {
        let up = power as usize;
        if up <= frac {
            Decimal { neg, digits, frac: frac - up }
        } else {
            let raised = raise(digits.as_slice(), up - frac);
            Decimal { neg, digits: raised, frac: 0 }
        }
    }
}

/// A literal without its sign.
#[verifier::rlimit(40)]
fn read_unsigned(neg: bool, s: &[char]) -> (r: Option<Decimal>)
    ensures
        match r {
            Some(d) => unsigned_v(neg, s@) == Some(d.dec()),
            None => unsigned_v(neg, s@) is None,
        },
{
    let a = find(s, 'e', 0);
    let b = find(s, 'E', 0);
    let e = if a <= b {
        a
    } else {
        b
    };
    let body = slice_subrange(s, 0, e);
    assert(body@ =~= s@.take(e as int));
    let p = find(body, '.', 0);
    let whole = slice_subrange(body, 0, p);
    assert(whole@ =~= body@.take(p as int));
    let part = if p < body.len() {
        slice_subrange(body, p + 1, body.len())
    } else {
        slice_subrange(body, p, p)
    };
    let ghost wanted = if p < body@.len() {
        body@.skip(p + 1)
    } else {
        Seq::empty()
    };
    assert(part@ =~= wanted);
    let none: Vec<u8> = Vec::new();
    let first = match read_digits(whole, none, Ghost(Seq::empty())) {
        Some(v) => v,
        None => {
            proof {
                assert(Seq::<char>::empty() + whole@ =~= whole@);
                no_digit_after(whole@, part@);
            }
            return None;
        },
    };
    assert(Seq::<char>::empty() + whole@ =~= whole@);
    let mut digits = match read_digits(part, first, Ghost(whole@)) {
        Some(v) => v,
        None => {
            return None;
        },
    };
    if digits.len() == 0 {
        return None;
    }
    let power = if e < s.len() {
        let tail = slice_subrange(s, e + 1, s.len());
        assert(tail@ =~= s@.skip(e + 1));
        match integer(tail, 9999) {
            Some(n) => n,
            None => {
                return None;
            },
        }
    } else {
        0
    };
    Some(with_power(neg, digits, part.len(), power))
}

impl Number for Decimal {
    type Value = Dec;

    closed spec fn value(&self) -> Dec {
        self.dec()
    }

    closed spec fn real_of(v: Dec) -> real {
        (v.m as real) * tenth(v.s)
    }

    open spec fn zero_v() -> Dec {
        Dec { m: 0, s: 0 }
    }

    open spec fn one_v() -> Dec {
        Dec { m: 1, s: 0 }
    }

    open spec fn plus_v(a: Dec, b: Dec) -> Dec {
        sum_of(a, b)
    }

    open spec fn minus_v(a: Dec, b: Dec) -> Dec {
        sum_of(a, negated(b))
    }

    open spec fn times_v(a: Dec, b: Dec) -> Dec {
        Dec { m: a.m * b.m, s: a.s + b.s }
    }

    open spec fn max_v(a: Dec, b: Dec) -> Dec {
        if not_above(b, a) {
            a
        } else {
            b
        }
    }

    open spec fn min_v(a: Dec, b: Dec) -> Dec {
        if not_above(a, b) {
            a
        } else {
            b
        }
    }

    open spec fn abs_v(a: Dec) -> Dec {
        Dec { m: size_of(a) as int, s: a.s }
    }

    open spec fn le_v(a: Dec, b: Dec) -> bool {
        not_above(a, b)
    }

    open spec fn lt_v(a: Dec, b: Dec) -> bool {
        !not_above(b, a)
    }

    open spec fn unit_v(n: u64) -> Dec {
        Dec { m: (n * five(53)) as int, s: 53 }
    }

    open spec fn integral_v(a: Dec) -> Option<i64> {
        let n = size_of(a);
        let q = n / ten(a.s);
        if n % ten(a.s) != 0 {
            None
        } else if a.m < 0 {
            Some(
                if q > 0x8000_0000_0000_0000 {
                    i64::MIN
                } else {
                    (-(q as int)) as i64
                },
            )
        } else {
            Some(
                if q > i64::MAX {
                    i64::MAX
                } else {
                    q as i64
                },
            )
        }
    }

    open spec fn read_v(text: Seq<char>) -> Option<Dec> {
        if text.len() > 0 && text[0] == '-' {
            unsigned_v(true, text.skip(1))
        } else if text.len() > 0 && text[0] == '+' {
            unsigned_v(false, text.skip(1))
        } else {
            unsigned_v(false, text)
        }
    }

    open spec fn show_v(a: Dec) -> Seq<char> {
        trimmed_v(plain_v(a.m < 0, size_of(a), a.s))
    }

    open spec fn fixed_v(a: Dec, digits: usize) -> Seq<char> {
        plain_v(a.m < 0, rounded_v(size_of(a), a.s, digits as nat), digits as nat)
    }

    open spec fn scientific_v(a: Dec, digits: usize) -> Seq<char> {
        let n = size_of(a);
        if n == 0 {
            plain_v(false, 0, digits as nat) + seq!['e', '0']
        } else {
            plain_v(a.m < 0, cut_v(n, (width(n) - 1) as nat, digits as nat), digits as nat) + seq!['e']
                + signed(exponent_of(a))
        }
    }

    open spec fn power_v(a: Dec) -> Seq<char> {
        let n = size_of(a);
        if n == 0 {
            seq!['0', 'e', '0']
        } else {
            trimmed_v(plain_v(a.m < 0, n, (width(n) - 1) as nat)) + seq!['e'] + signed(exponent_of(a))
        }
    }

    fn zero() -> (r: Decimal) {
        Decimal { neg: false, digits: Vec::new(), frac: 0 }
    }

    fn one() -> (r: Decimal) {
        let mut digits: Vec<u8> = Vec::new();
        digits.push(1);
        proof {
            assert(digits@ =~= seq![1u8] + Seq::<u8>::empty());
            val_cons(1, Seq::empty());
        }
        Decimal { neg: false, digits, frac: 0 }
    }

    fn dup(&self) -> (r: Decimal) {
        proof {
            use_type_invariant(self);
        }
        Decimal { neg: self.neg, digits: copy_digits(self.digits.as_slice()), frac: self.frac }
    }

    fn plus(&self, other: &Decimal) -> (r: Decimal) {
        let s = if self.frac >= other.frac {
            self.frac
        } else {
            other.frac
        };
        let a = in_units(self, s);
        let b = in_units(other, s);
        let (neg, mut digits) = signed_sum(self.neg, &a, other.neg, &b);
        strip(&mut digits, s);
        Decimal { neg, digits, frac: s }
    }

    fn minus(&self, other: &Decimal) -> (r: Decimal) {
        let s = if self.frac >= other.frac {
            self.frac
        } else {
            other.frac
        };
        let a = in_units(self, s);
        let b = in_units(other, s);
        proof {
            negative_times(other.dec().m, ten((s - other.frac) as nat) as int);
        }
        let (neg, mut digits) = signed_sum(self.neg, &a, !other.neg, &b);
        strip(&mut digits, s);
        Decimal { neg, digits, frac: s }
    }

    fn times(&self, other: &Decimal) -> (r: Decimal) {
        proof {
            use_type_invariant(self);
            use_type_invariant(other);
            let (a, b) = (val(self.digits@) as int, val(other.digits@) as int);
            negative_times(a, b);
            negative_times(b, a);
            negative_times(a, -b);
            assert(a * (-b) == -(a * b)) by (nonlinear_arith);
        }
        let mut digits = mul_digits(self.digits.as_slice(), other.digits.as_slice());
        assert(digits.len() == digits@.len());
        let frac = self.frac + other.frac;
        strip(&mut digits, frac);
        Decimal { neg: self.neg != other.neg, digits, frac }
    }

    fn max(&self, other: &Decimal) -> (r: Decimal) {
        if other.le(self) {
            self.dup()
        } else {
            other.dup()
        }
    }

    fn min(&self, other: &Decimal) -> (r: Decimal) {
        if self.le(other) {
            self.dup()
        } else {
            other.dup()
        }
    }

    fn abs(&self) -> (r: Decimal) {
        proof {
            use_type_invariant(self);
        }
        Decimal { neg: false, digits: copy_digits(self.digits.as_slice()), frac: self.frac }
    }

    fn le(&self, other: &Decimal) -> (r: bool) {
        let s = if self.frac >= other.frac {
            self.frac
        } else {
            other.frac
        };
        let a = in_units(self, s);
        let b = in_units(other, s);
        if self.neg == other.neg {
            if self.neg {
                le_digits(b.as_slice(), a.as_slice())
            } else {
                le_digits(a.as_slice(), b.as_slice())
            }
        } else if self.neg {
            true
        } else {
            let zero: Vec<u8> = Vec::new();
            le_digits(a.as_slice(), zero.as_slice()) && le_digits(b.as_slice(), zero.as_slice())
        }
    }

    fn lt(&self, other: &Decimal) -> (r: bool) {
        !other.le(self)
    }

    fn unit(n: u64) -> (r: Decimal) {
        let mut digits: Vec<u8> = Vec::new();
        let mut rest = n;
        let ghost mut power: nat = 1;
        while rest > 0
            invariant
                digital(digits@),
                val(digits@) + rest * power == n,
                power == ten(digits@.len()),
            decreases rest,
        {
            let ghost before = digits@;
            let d = (rest % 10) as u8;
            digits.push(d);
            proof {
                low_kept(digits@, before, before.len());
                assert(at(digits@, before.len() as int) == d);
                let (q, t) = ((rest / 10) as nat, power);
                assert(rest == 10 * q + d);
                assert((10 * q + d) * t == q * (10 * t) + d * t) by (nonlinear_arith);
                power = 10 * power;
            }
            rest = rest / 10;
        }
        let mut fives: Vec<u8> = Vec::new();
        fives.push(5);
        proof {
            assert(0 * power == 0);
            assert(fives@ =~= seq![5u8] + Seq::<u8>::empty());
            val_cons(5, Seq::empty());
            assert(n * 1 == n);
        }
        for i in 0..53
            invariant
                digital(digits@),
                digital(fives@),
                val(fives@) == 5,
                val(digits@) == n * five(i as nat),
        {
            digits = mul_digits(digits.as_slice(), fives.as_slice());
            strip(&mut digits, 0);
            proof {
                let (x, y) = (n as nat, five(i as nat));
                assert((x * y) * 5 == x * (y * 5)) by (nonlinear_arith);
            }
        }
        pad(&mut digits, 53);
        Decimal { neg: false, digits, frac: 53 }
    }

    fn integral(&self) -> (r: Option<i64>) {
        proof {
            use_type_invariant(self);
            val_cut(self.digits@, self.frac as nat);
        }
        let zero: Vec<u8> = Vec::new();
        let below = slice_subrange(self.digits.as_slice(), 0, self.frac);
        assert(below@ =~= self.digits@.take(self.frac as int));
        if !le_digits(below, zero.as_slice()) {
            return None;
        }
        let above = slice_subrange(self.digits.as_slice(), self.frac, self.digits.len());
        assert(above@ =~= self.digits@.skip(self.frac as int));
        let q = capped(above, 0x8000_0000_0000_0001);
        if self.neg && !le_digits(self.digits.as_slice(), zero.as_slice()) {
            Some(
                if q > 0x8000_0000_0000_0000 {
                    i64::MIN
                } else {
                    (-(q as i128)) as i64
                },
            )
        } else {
            Some(
                if q > i64::MAX as u128 {
                    i64::MAX
                } else {
                    q as i64
                },
            )
        }
    }

    fn read(text: &str) -> (r: Option<Decimal>) {
        let s = chars_of(text);
        if s.len() > 0 && s[0] == '-' {
            let rest = slice_subrange(s.as_slice(), 1, s.len());
            assert(rest@ =~= s@.skip(1));
            read_unsigned(true, rest)
        } else if s.len() > 0 && s[0] == '+' {
            let rest = slice_subrange(s.as_slice(), 1, s.len());
            assert(rest@ =~= s@.skip(1));
            read_unsigned(false, rest)
        } else {
            read_unsigned(false, s.as_slice())
        }
    }

    fn show(&self) -> (r: String) {
        proof {
            use_type_invariant(self);
            sign_of_zero(self.dec(), self.neg, val(self.digits@), self.frac as nat);
        }
        text_of(trimmed(plain(self.neg, &self.digits, self.frac)).as_slice())
    }

    fn fixed(&self, digits: usize) -> (r: String) {
        proof {
            use_type_invariant(self);
        }
        let q = rounded(&self.digits, self.frac, digits);
        proof {
            if val(self.digits@) == 0 {
                rounded_zero(self.frac as nat, digits as nat);
            }
            sign_of_zero(self.dec(), self.neg, val(q@), digits as nat);
        }
        text_of(plain(self.neg, &q, digits).as_slice())
    }

    fn scientific(&self, digits: usize) -> (r: String) {
        proof {
            use_type_invariant(self);
        }
        let w = width_of(self.digits.as_slice());
        if w == 0 {
            let none: Vec<u8> = Vec::new();
            let mut t = plain(false, &none, digits);
            let ghost before = t@;
            t.push('e');
            t.push('0');
            assert(t@ =~= before + seq!['e', '0']);
            proof {
                no_width(val(self.digits@));
            }
            return text_of(t.as_slice());
        }
        let q = cut(&self.digits, w - 1, digits);
        proof {
            some_width(val(self.digits@));
        }
        let mut t = plain(self.neg, &q, digits);
        write_exponent(&mut t, w, self.frac);
        text_of(t.as_slice())
    }

    fn power(&self) -> (r: String) {
        proof {
            use_type_invariant(self);
        }
        let w = width_of(self.digits.as_slice());
        if w == 0 {
            let mut t: Vec<char> = Vec::new();
            t.push('0');
            t.push('e');
            t.push('0');
            assert(t@ =~= seq!['0', 'e', '0']);
            proof {
                no_width(val(self.digits@));
            }
            return text_of(t.as_slice());
        }
        proof {
            some_width(val(self.digits@));
        }
        let mut t = trimmed(plain(self.neg, &self.digits, w - 1));
        write_exponent(&mut t, w, self.frac);
        text_of(t.as_slice())
    }
}

proof fn no_width(n: nat)
    ensures
        width(n) == 0 ==> n == 0,
{
}

proof fn some_width(n: nat)
    ensures
        width(n) > 0 ==> n > 0,
{
}

/// A zero carries no sign, so it does not matter which one it was given.
proof fn sign_of_zero(a: Dec, neg: bool, q: nat, d: nat)
    requires
        a.m != 0 ==> neg == (a.m < 0),
        a.m == 0 ==> q == 0,
    ensures
        plain_v(neg, q, d) == plain_v(a.m < 0, q, d),
{
}

proof fn rounded_zero(s: nat, d: nat)
    ensures
        rounded_v(0, s, d) == 0,
{
    if d >= s {
        let t = ten((d - s) as nat);
        assert(0 * t == 0) by (nonlinear_arith);
    } else {
        ten_positive((s - d) as nat);
        ten_positive((s - d - 1) as nat);
        let (t, u) = (ten((s - d) as nat) as int, ten((s - d - 1) as nat) as int);
        vstd::arithmetic::div_mod::lemma_div_basics(t);
        vstd::arithmetic::div_mod::lemma_div_basics(u);
    }
}

// ---------------------------------------------------------------------------
// exactness
// ---------------------------------------------------------------------------

/// A tenth to the power `n`.
pub open spec fn tenth(n: nat) -> real
    decreases n,
{
    if n == 0 {
        1 as real
    } else {
        tenth((n - 1) as nat) / (10 as real)
    }
}

pub proof fn tenth_step(n: nat)
    ensures
        tenth(n) > 0 as real,
        tenth(n) == (10 as real) * tenth(n + 1),
    decreases n,
{
    let t = tenth(n);
    assert(t == (10 as real) * (t / (10 as real))) by (nonlinear_arith);
    if n > 0 {
        tenth_step((n - 1) as nat);
    }
}

pub proof fn tenth_adds(a: nat, b: nat)
    ensures
        tenth(a + b) == tenth(a) * tenth(b),
    decreases a,
{
    if a == 0 {
        times_unit(tenth(b));
    } else {
        let c = (a - 1) as nat;
        tenth_adds(c, b);
        tenth_step(c);
        tenth_step(c + b);
        assert(c + 1 == a);
        assert(c + b + 1 == a + b);
        times_both(10 as real, tenth(a), tenth(b));
    }
}

proof fn product_as_real(a: nat, b: int)
    ensures
        (a * b) as real == (a as real) * (b as real),
    decreases a,
{
    if a == 0 {
        assert(0 * b == 0);
        times_unit(b as real);
    } else {
        let c = (a - 1) as nat;
        product_as_real(c, b);
        assert(a * b == c * b + b) by (nonlinear_arith)
            requires
                a == c + 1,
        ;
        times_swap(a as real, b as real);
        times_swap(c as real, b as real);
        times_sum(b as real, c as real, 1 as real);
        times_unit(b as real);
        assert(a as real == (c as real) + (1 as real));
    }
}

pub proof fn products_as_real(a: int, b: int)
    ensures
        (a * b) as real == (a as real) * (b as real),
{
    if a >= 0 {
        product_as_real(a as nat, b);
    } else {
        product_as_real((-a) as nat, b);
        negative_times(a, b);
        let (x, y) = (a as real, b as real);
        assert((-a) as real == (0 as real) - x);
        assert(((0 as real) - x) * y == (0 as real) - x * y) by (nonlinear_arith);
    }
}

/// The real number `m` units of a tenth to the power `s` are.
pub open spec fn real_v(m: int, s: nat) -> real {
    (m as real) * tenth(s)
}

/// Finer units change nothing.
pub proof fn same_real(m: int, s: nat, k: nat)
    ensures
        real_v(m * ten(k), s + k) == real_v(m, s),
    decreases k,
{
    if k == 0 {
        assert(m * 1 == m);
    } else {
        let j = (k - 1) as nat;
        same_real(m, s, j);
        let n = m * ten(j);
        assert(m * (10 * ten(j)) == 10 * (m * ten(j))) by (nonlinear_arith);
        tenth_step(s + j);
        assert(s + j + 1 == s + k);
        let (x, t) = (n as real, tenth(s + k));
        assert((10 * n) as real == (10 as real) * x);
        times_swap(10 as real, x);
        times_both(x, 10 as real, t);
    }
}

proof fn units_real(a: Dec, s: nat)
    requires
        s >= a.s,
    ensures
        real_v(units(a, s), s) == real_v(a.m, a.s),
{
    same_real(a.m, a.s, (s - a.s) as nat);
}

proof fn sum_real(a: Dec, b: Dec)
    ensures
        real_v(sum_of(a, b).m, sum_of(a, b).s) == real_v(a.m, a.s) + real_v(b.m, b.s),
{
    let s = finer(a, b);
    units_real(a, s);
    units_real(b, s);
    let (x, y, t) = (units(a, s) as real, units(b, s) as real, tenth(s));
    assert((units(a, s) + units(b, s)) as real == x + y);
    times_swap(x + y, t);
    times_swap(x, t);
    times_swap(y, t);
    times_sum(t, x, y);
}

proof fn negated_real(a: Dec)
    ensures
        real_v(-a.m, a.s) == (0 as real) - real_v(a.m, a.s),
{
    let (x, t) = (a.m as real, tenth(a.s));
    assert((-a.m) as real == (0 as real) - x);
    assert(((0 as real) - x) * t == (0 as real) - x * t) by (nonlinear_arith);
}

proof fn product_real(a: Dec, b: Dec)
    ensures
        real_v(a.m * b.m, a.s + b.s) == real_v(a.m, a.s) * real_v(b.m, b.s),
{
    products_as_real(a.m, b.m);
    tenth_adds(a.s, b.s);
    let (x, y, p, q) = (a.m as real, b.m as real, tenth(a.s), tenth(b.s));
    times_both(x, y, p * q);
    times_both(y, p, q);
    times_swap(y, p);
    times_both(p, y, q);
    times_both(x, p, y * q);
}

proof fn order_real(a: Dec, b: Dec)
    ensures
        not_above(a, b) <==> real_v(a.m, a.s) <= real_v(b.m, b.s),
{
    let s = finer(a, b);
    units_real(a, s);
    units_real(b, s);
    tenth_step(s);
    let (m, n) = (units(a, s), units(b, s));
    let (x, y, t) = (m as real, n as real, tenth(s));
    times_swap(x, t);
    times_swap(y, t);
    if m <= n {
        times_grows(t, x, y);
    } else {
        assert(y + (1 as real) <= x);
        times_grows(t, y + (1 as real), x);
        times_sum(t, y, 1 as real);
        times_unit(t);
    }
}

/// Decimals are exact: their operations are those of the real numbers.
pub proof fn decimals_are_exact()
    ensures
        exact::<Decimal>(),
{
    times_unit(tenth(0));
    assert forall|a: Dec, b: Dec|
        Decimal::real_of(#[trigger] Decimal::plus_v(a, b)) == Decimal::real_of(a) + Decimal::real_of(b) by {
        sum_real(a, b);
    }
    assert forall|a: Dec, b: Dec|
        Decimal::real_of(#[trigger] Decimal::minus_v(a, b)) == Decimal::real_of(a) - Decimal::real_of(b) by {
        sum_real(a, negated(b));
        negated_real(b);
    }
    assert forall|a: Dec, b: Dec|
        Decimal::real_of(#[trigger] Decimal::times_v(a, b)) == Decimal::real_of(a) * Decimal::real_of(b) by {
        product_real(a, b);
    }
    assert forall|a: Dec, b: Dec|
        Decimal::real_of(#[trigger] Decimal::max_v(a, b)) == (if Decimal::real_of(a)
            >= Decimal::real_of(b) {
            Decimal::real_of(a)
        } else {
            Decimal::real_of(b)
        }) by {
        order_real(b, a);
    }
    assert forall|a: Dec, b: Dec|
        Decimal::real_of(#[trigger] Decimal::min_v(a, b)) == (if Decimal::real_of(a)
            <= Decimal::real_of(b) {
            Decimal::real_of(a)
        } else {
            Decimal::real_of(b)
        }) by {
        order_real(a, b);
    }
    assert forall|a: Dec|
        Decimal::real_of(#[trigger] Decimal::abs_v(a)) == (if Decimal::real_of(a) >= 0 as real {
            Decimal::real_of(a)
        } else {
            0 as real - Decimal::real_of(a)
        }) by {
        negated_real(a);
        tenth_step(a.s);
        let (x, t) = (a.m as real, tenth(a.s));
        if a.m >= 0 {
            times_positive(x, t);
        } else {
            assert(x + (1 as real) <= 0 as real);
            times_grows(t, x, 0 as real - (1 as real));
            times_swap(t, x);
            times_unit(t);
            assert(t * (0 as real - (1 as real)) == 0 as real - t) by (nonlinear_arith);
        }
    }
    assert forall|a: Dec, b: Dec|
        #[trigger] Decimal::le_v(a, b) <==> Decimal::real_of(a) <= Decimal::real_of(b) by {
        order_real(a, b);
    }
    assert forall|a: Dec, b: Dec|
        #[trigger] Decimal::lt_v(a, b) <==> Decimal::real_of(a) < Decimal::real_of(b) by {
        order_real(b, a);
    }
}

// ---------------------------------------------------------------------------
// literals
// ---------------------------------------------------------------------------

/// Every character is a digit.
pub open spec fn all_digits(s: Seq<char>) -> bool {
    forall|i: int| 0 <= i < s.len() ==> is_digit(#[trigger] s[i])
}

pub open spec fn sign_text(neg: bool) -> Seq<char> {
    if neg {
        seq!['-']
    } else {
        Seq::empty()
    }
}

pub open spec fn with_sign(neg: bool, n: nat) -> int {
    if neg {
        -(n as int)
    } else {
        n as int
    }
}

pub proof fn digits_read(s: Seq<char>)
    requires
        all_digits(s),
    ensures
        digits_v(s) is Some,
    decreases s.len(),
{
    if s.len() > 0 {
        assert forall|i: int| 0 <= i < s.drop_last().len() implies is_digit(
            #[trigger] s.drop_last()[i],
        ) by {
            assert(is_digit(s[i]));
        }
        digits_read(s.drop_last());
        assert(is_digit(s[s.len() - 1]));
    }
}

/// Digits behind others.
pub proof fn digits_joined(w: Seq<char>, p: Seq<char>)
    requires
        all_digits(w),
        all_digits(p),
    ensures
        all_digits(w + p),
        digits_v(w) is Some,
        digits_v(p) is Some,
        digits_v(w + p) == Some(digits_v(w)->0 * ten(p.len()) + digits_v(p)->0),
    decreases p.len(),
{
    digits_read(w);
    digits_read(p);
    let a = w + p;
    assert forall|i: int| 0 <= i < a.len() implies is_digit(#[trigger] a[i]) by {
        if i < w.len() {
            assert(is_digit(w[i]));
        } else {
            assert(is_digit(p[i - w.len()]));
        }
    }
    if p.len() == 0 {
        assert(a =~= w);
        assert(ten(0) == 1);
        assert(digits_v(w)->0 * 1 == digits_v(w)->0) by (nonlinear_arith);
    } else {
        let o = p.drop_last();
        assert forall|i: int| 0 <= i < o.len() implies is_digit(#[trigger] o[i]) by {
            assert(is_digit(p[i]));
        }
        digits_joined(w, o);
        assert(a.drop_last() =~= w + o);
        assert(a.last() == p.last());
        assert(is_digit(p[p.len() - 1]));
        let (x, t) = (digits_v(w)->0, ten(o.len()));
        assert(10 * (x * t) == x * (10 * t)) by (nonlinear_arith);
        assert(ten(p.len()) == 10 * t);
    }
}

/// Digits with zeros in front read back.
pub proof fn padded_back(n: nat, k: nat)
    requires
        n < ten(k),
    ensures
        padded(n, k).len() == k,
        all_digits(padded(n, k)),
        digits_v(padded(n, k)) == Some(n),
    decreases k,
{
    if k > 0 {
        let j = (k - 1) as nat;
        assert(n / 10 < ten(j));
        padded_back(n / 10, j);
        let s = padded(n, k);
        assert(s.drop_last() =~= padded(n / 10, j));
        assert(s.last() == digit((n % 10) as int));
        assert forall|i: int| 0 <= i < s.len() implies is_digit(#[trigger] s[i]) by {
            if i < j {
                assert(is_digit(padded(n / 10, j)[i]));
            }
        }
    }
}

/// A literal with nothing but a sign and digits.
pub proof fn whole_reads(neg: bool, w: Seq<char>)
    requires
        w.len() > 0,
        all_digits(w),
    ensures
        Decimal::read_v(sign_text(neg) + w) == Some(Dec { m: with_sign(neg, digits_v(w)->0), s: 0 }),
        solid(sign_text(neg) + w),
        without(sign_text(neg) + w, ','),
{
    let text = sign_text(neg) + w;
    digits_read(w);
    assert(is_digit(w[0]));
    assert forall|i: int| 0 <= i < w.len() implies #[trigger] w[i] != 'e' && w[i] != 'E' && w[i] != '.' by {
        assert(is_digit(w[i]));
    }
    find_none(w, 'e', 0);
    find_none(w, 'E', 0);
    assert(w.take(w.len() as int) =~= w);
    find_none(w, '.', 0);
    assert(w + Seq::<char>::empty() =~= w);
    assert(neg ==> text.skip(1) =~= w);
    assert(!neg ==> text =~= w);
    assert forall|i: int| 0 <= i < text.len() implies !is_white(#[trigger] text[i]) && text[i] != ',' by {
        if !neg {
            assert(is_digit(w[i]));
        } else if i > 0 {
            assert(is_digit(w[i - 1]));
        }
    }
}

/// A literal with a point among its digits.
pub proof fn pointed_reads(neg: bool, w: Seq<char>, p: Seq<char>)
    requires
        w.len() > 0,
        all_digits(w),
        all_digits(p),
    ensures
        Decimal::read_v(sign_text(neg) + w + seq!['.'] + p) == Some(
            Dec { m: with_sign(neg, digits_v(w + p)->0), s: p.len() },
        ),
        solid(sign_text(neg) + w + seq!['.'] + p),
        without(sign_text(neg) + w + seq!['.'] + p, ','),
{
    let body = w + seq!['.'] + p;
    let text = sign_text(neg) + w + seq!['.'] + p;
    digits_joined(w, p);
    assert(is_digit(w[0]));
    assert forall|i: int| 0 <= i < body.len() implies #[trigger] body[i] == '.' && i == w.len()
        || is_digit(body[i]) && i != w.len() by {
        if i < w.len() {
            assert(is_digit(w[i]));
        } else if i > w.len() {
            assert(is_digit(p[i - w.len() - 1]));
        }
    }
    find_none(body, 'e', 0);
    find_none(body, 'E', 0);
    assert(body.take(body.len() as int) =~= body);
    assert(body[w.len() as int] == '.');
    find_at(body, '.', 0, w.len() as int);
    assert(body.skip(w.len() as int + 1) =~= p);
    assert(body.take(w.len() as int) =~= w);
    assert(neg ==> text.skip(1) =~= body);
    assert(!neg ==> text =~= body);
    assert(text[0] == (if neg {
        '-'
    } else {
        w[0]
    }));
    assert forall|i: int| 0 <= i < text.len() implies !is_white(#[trigger] text[i]) && text[i] != ',' by {
        if !neg {
            assert(text[i] == body[i]);
        } else if i > 0 {
            assert(text[i] == body[i - 1]);
        }
    }
}

/// The text reads as a number, and the number is the real `x`.
spec fn reads_as(text: Seq<char>, x: real) -> bool {
    &&& Decimal::read_v(text) matches Some(b) && Decimal::real_of(b) == x
    &&& solid(text)
    &&& without(text, ',')
}

/// Dropping the zeros a fraction ends with changes nothing.
proof fn trimmed_reads(neg: bool, w: Seq<char>, p: Seq<char>)
    requires
        w.len() > 0,
        all_digits(w),
        all_digits(p),
    ensures
        reads_as(
            trimmed_v(sign_text(neg) + w + seq!['.'] + p),
            real_v(with_sign(neg, digits_v(w + p)->0), p.len()),
        ),
    decreases p.len(),
{
    let text = sign_text(neg) + w + seq!['.'] + p;
    let at = sign_text(neg).len() + w.len();
    digits_joined(w, p);
    assert forall|i: int| 0 <= i < at implies #[trigger] text[i] != '.' by {
        if i >= sign_text(neg).len() {
            assert(is_digit(w[i - sign_text(neg).len()]));
        }
    }
    assert(text[at as int] == '.');
    find_at(text, '.', 0, at as int);
    if p.len() == 0 {
        assert(text.last() == '.');
        assert(text.drop_last() =~= sign_text(neg) + w);
        assert(w + p =~= w);
        whole_reads(neg, w);
    } else if p.last() == '0' {
        let o = p.drop_last();
        let less = sign_text(neg) + w + seq!['.'] + o;
        assert(text.last() == p.last());
        assert(text.drop_last() =~= less);
        assert forall|i: int| 0 <= i < o.len() implies is_digit(#[trigger] o[i]) by {
            assert(is_digit(p[i]));
        }
        trimmed_reads(neg, w, o);
        assert forall|i: int| 0 <= i < at implies #[trigger] less[i] != '.' by {
            assert(less[i] == text[i]);
        }
        assert(less[at as int] == '.');
        find_at(less, '.', 0, at as int);
        assert(trimmed_v(text) == trimmed_v(less));
        digits_joined(w, o);
        assert((w + p).drop_last() =~= w + o);
        assert((w + p).last() == '0');
        let n = digits_v(w + o)->0;
        assert(digits_v(w + p) == Some(10 * n));
        same_real(with_sign(neg, n), o.len(), 1);
        assert(ten(1) == 10) by {
            assert(ten(0) == 1);
        }
        assert(with_sign(neg, 10 * n) == with_sign(neg, n) * 10);
        assert(o.len() + 1 == p.len());
    } else {
        assert(is_digit(p[p.len() - 1]));
        assert(text.last() == p.last());
        assert(shed_end(text, '0') == text);
        pointed_reads(neg, w, p);
    }
}

/// What is written for a decimal reads back as the same number: the literal of
/// a probability.
pub proof fn shown_reads_back(a: Dec)
    ensures
        Decimal::read_v(Decimal::show_v(a)) matches Some(b) && Decimal::real_of(b) == Decimal::real_of(
            a,
        ),
        solid(Decimal::show_v(a)),
        without(Decimal::show_v(a), ','),
{
    let (neg, q, d) = (a.m < 0, size_of(a), a.s);
    let t = ten(d);
    ten_positive(d);
    let w = decimal(q / t);
    digits_back(q / t);
    assert(with_sign(neg, q) == a.m);
    if d == 0 {
        assert(q / 1 == q);
        let text = sign_text(neg) + w;
        assert(plain_v(neg, q, d) =~= text);
        assert forall|i: int| 0 <= i < text.len() implies #[trigger] text[i] != '.' by {
            if i >= sign_text(neg).len() {
                assert(is_digit(w[i - sign_text(neg).len()]));
            }
        }
        find_none(text, '.', 0);
        whole_reads(neg, w);
    } else {
        let p = padded(q % t, d);
        vstd::arithmetic::div_mod::lemma_fundamental_div_mod(q as int, t as int);
        vstd::arithmetic::mul::lemma_mul_is_commutative(t as int, (q / t) as int);
        padded_back(q % t, d);
        digits_joined(w, p);
        assert(plain_v(neg, q, d) =~= sign_text(neg) + w + seq!['.'] + p);
        trimmed_reads(neg, w, p);
    }
}

/// What is written for a decimal reads back as the same number: the literal of
/// an impact.
pub proof fn number_reads_back(a: Dec)
    ensures
        Decimal::read_v(number_text::<Decimal>(a)) matches Some(b) && Decimal::real_of(b)
            == Decimal::real_of(a),
        solid(number_text::<Decimal>(a)),
        without(number_text::<Decimal>(a), ','),
{
    shown_reads_back(a);
    if let Some(i) = Decimal::integral_v(a) {
        if -1_000_000_000_000_000 < i < 1_000_000_000_000_000 {
            let (neg, n) = (a.m < 0, size_of(a));
            let t = ten(a.s);
            ten_positive(a.s);
            let q = n / t;
            vstd::arithmetic::div_mod::lemma_fundamental_div_mod(n as int, t as int);
            vstd::arithmetic::mul::lemma_mul_is_commutative(t as int, q as int);
            assert(n == q * t);
            if neg {
                assert(q > 0) by (nonlinear_arith)
                    requires
                        q * t > 0,
                ;
            }
            assert(with_sign(neg, q) == i);
            let w = decimal(q);
            digits_back(q);
            assert(signed(i as int) =~= sign_text(neg) + w);
            whole_reads(neg, w);
            same_real(with_sign(neg, q), 0, a.s);
            assert((-(q as int)) * (t as int) == -(q * t)) by (nonlinear_arith);
            assert(with_sign(neg, q) * t == a.m);
            assert(0 + a.s == a.s);
        }
    }
}

/// The real number a decimal stands for, by its sign.
pub proof fn real_by_sign(a: Dec)
    ensures
        Decimal::real_of(a) == real_v(a.m, a.s),
        a.m >= 0 ==> Decimal::real_of(a) == real_v(size_of(a) as int, a.s),
        a.m < 0 ==> Decimal::real_of(a) == 0 as real - real_v(size_of(a) as int, a.s),
        a.m == 0 ==> Decimal::real_of(a) == 0 as real,
{
    let t = tenth(a.s);
    if a.m < 0 {
        let (x, y) = (a.m as real, (-a.m) as real);
        assert(y == 0 as real - x);
        assert((0 as real - x) * t == 0 as real - x * t) by (nonlinear_arith);
    }
    if a.m == 0 {
        assert((0 as real) * t == 0 as real) by (nonlinear_arith);
    }
}

/// A positive whole number is one at least.
pub proof fn positive_integral(a: Dec)
    requires
        !Decimal::le_v(a, Decimal::zero_v()),
    ensures
        Decimal::integral_v(a) matches Some(i) ==> i >= 1,
{
    let zero = Dec { m: 0, s: 0 };
    let z = ten(finer(a, zero));
    ten_positive((finer(a, zero) - a.s) as nat);
    let w = ten((finer(a, zero) - a.s) as nat);
    assert(0 * z == 0) by (nonlinear_arith);
    assert(a.m <= 0 ==> a.m * w <= 0) by (nonlinear_arith)
        requires
            w > 0,
    ;
    let (n, t) = (size_of(a), ten(a.s));
    ten_positive(a.s);
    if n % t == 0 {
        vstd::arithmetic::div_mod::lemma_fundamental_div_mod(n as int, t as int);
        let q = n / t;
        assert(q > 0) by (nonlinear_arith)
            requires
                n == t * q,
                n > 0,
        ;
    }
}

} // verus!
