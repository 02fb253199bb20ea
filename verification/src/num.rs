//! The numbers a process is weighed with: probabilities, impacts, budgets.
//!
//! The library is generic over them. What an operation returns is a function
//! of the values it is handed, named in the trait; nothing else is asked of an
//! implementation, so rounded arithmetic is as welcome as exact arithmetic,
//! and every contract below is stated over the names. The laws that need the
//! names to be the operations of the real numbers say so with [`exact`].

use vstd::prelude::*;

verus! {

/// A number, seen through its mathematical value.
///
/// The functions named `*_v` say what each operation does to the values, and the
/// contracts of the operations are true of an implementation only with its own
/// definitions of them. Code that is not verified cannot write the definitions
/// down and keeps the defaults, which say nothing true of it: such an
/// implementation is understood to define each `*_v` as what its operation
/// computes, a function of the values it is handed, and whoever writes it
/// answers for that.
pub trait Number: Sized {
    /// The mathematical value of a number.
    type Value;

    closed spec fn value(&self) -> Self::Value {
        arbitrary()
    }

    /// The real number a value stands for.
    closed spec fn real_of(v: Self::Value) -> real {
        arbitrary()
    }

    closed spec fn zero_v() -> Self::Value {
        arbitrary()
    }

    closed spec fn one_v() -> Self::Value {
        arbitrary()
    }

    closed spec fn plus_v(a: Self::Value, b: Self::Value) -> Self::Value {
        arbitrary()
    }

    closed spec fn minus_v(a: Self::Value, b: Self::Value) -> Self::Value {
        arbitrary()
    }

    closed spec fn times_v(a: Self::Value, b: Self::Value) -> Self::Value {
        arbitrary()
    }

    closed spec fn max_v(a: Self::Value, b: Self::Value) -> Self::Value {
        arbitrary()
    }

    closed spec fn min_v(a: Self::Value, b: Self::Value) -> Self::Value {
        arbitrary()
    }

    closed spec fn abs_v(a: Self::Value) -> Self::Value {
        arbitrary()
    }

    closed spec fn le_v(a: Self::Value, b: Self::Value) -> bool {
        arbitrary()
    }

    closed spec fn lt_v(a: Self::Value, b: Self::Value) -> bool {
        arbitrary()
    }

    closed spec fn unit_v(n: u64) -> Self::Value {
        arbitrary()
    }

    closed spec fn integral_v(a: Self::Value) -> Option<i64> {
        arbitrary()
    }

    closed spec fn read_v(text: Seq<char>) -> Option<Self::Value> {
        arbitrary()
    }

    closed spec fn show_v(a: Self::Value) -> Seq<char> {
        arbitrary()
    }

    closed spec fn fixed_v(a: Self::Value, digits: usize) -> Seq<char> {
        arbitrary()
    }

    closed spec fn scientific_v(a: Self::Value, digits: usize) -> Seq<char> {
        arbitrary()
    }

    closed spec fn power_v(a: Self::Value) -> Seq<char> {
        arbitrary()
    }

    fn zero() -> (r: Self)
        ensures
            r.value() == Self::zero_v(),
    ;

    fn one() -> (r: Self)
        ensures
            r.value() == Self::one_v(),
    ;

    /// The same number once more.
    fn dup(&self) -> (r: Self)
        ensures
            r.value() == self.value(),
    ;

    fn plus(&self, other: &Self) -> (r: Self)
        ensures
            r.value() == Self::plus_v(self.value(), other.value()),
    ;

    fn minus(&self, other: &Self) -> (r: Self)
        ensures
            r.value() == Self::minus_v(self.value(), other.value()),
    ;

    fn times(&self, other: &Self) -> (r: Self)
        ensures
            r.value() == Self::times_v(self.value(), other.value()),
    ;

    /// The larger of the two.
    fn max(&self, other: &Self) -> (r: Self)
        ensures
            r.value() == Self::max_v(self.value(), other.value()),
    ;

    /// The smaller of the two.
    fn min(&self, other: &Self) -> (r: Self)
        ensures
            r.value() == Self::min_v(self.value(), other.value()),
    ;

    fn abs(&self) -> (r: Self)
        ensures
            r.value() == Self::abs_v(self.value()),
    ;

    /// `self <= other`.
    fn le(&self, other: &Self) -> (r: bool)
        ensures
            r == Self::le_v(self.value(), other.value()),
    ;

    /// `self < other`.
    fn lt(&self, other: &Self) -> (r: bool)
        ensures
            r == Self::lt_v(self.value(), other.value()),
    ;

    /// `n` parts of two to the fifty-three, for a draw in `[0, 1)`.
    fn unit(n: u64) -> (r: Self)
        ensures
            r.value() == Self::unit_v(n),
    ;

    /// The number as an integer, clamped to the range of `i64`, when it has no
    /// fractional part.
    fn integral(&self) -> (r: Option<i64>)
        ensures
            r == Self::integral_v(self.value()),
    ;

    /// The number a literal denotes, when it denotes one.
    fn read(text: &str) -> (r: Option<Self>)
        ensures
            r is Some == Self::read_v(text@) is Some,
            r is Some ==> r->0.value() == Self::read_v(text@)->0,
    ;

    /// A literal that denotes the number.
    fn show(&self) -> (r: String)
        ensures
            r@ == Self::show_v(self.value()),
    ;

    /// The number with `digits` digits after the point.
    fn fixed(&self, digits: usize) -> (r: String)
        ensures
            r@ == Self::fixed_v(self.value(), digits),
    ;

    /// One digit, `digits` more after the point, and an exponent of ten.
    fn scientific(&self, digits: usize) -> (r: String)
        ensures
            r@ == Self::scientific_v(self.value(), digits),
    ;

    /// The shortest literal with an exponent of ten that denotes the number.
    fn power(&self) -> (r: String)
        ensures
            r@ == Self::power_v(self.value()),
    ;
}

/// The operations on values are those of the real numbers.
pub open spec fn exact<N: Number>() -> bool {
    &&& N::real_of(N::zero_v()) == 0 as real
    &&& N::real_of(N::one_v()) == 1 as real
    &&& forall|a: N::Value, b: N::Value|
        N::real_of(#[trigger] N::plus_v(a, b)) == N::real_of(a) + N::real_of(b)
    &&& forall|a: N::Value, b: N::Value|
        N::real_of(#[trigger] N::minus_v(a, b)) == N::real_of(a) - N::real_of(b)
    &&& forall|a: N::Value, b: N::Value|
        N::real_of(#[trigger] N::times_v(a, b)) == N::real_of(a) * N::real_of(b)
    &&& forall|a: N::Value, b: N::Value|
        N::real_of(#[trigger] N::max_v(a, b)) == (if N::real_of(a) >= N::real_of(b) {
            N::real_of(a)
        } else {
            N::real_of(b)
        })
    &&& forall|a: N::Value, b: N::Value|
        N::real_of(#[trigger] N::min_v(a, b)) == (if N::real_of(a) <= N::real_of(b) {
            N::real_of(a)
        } else {
            N::real_of(b)
        })
    &&& forall|a: N::Value| N::real_of(#[trigger] N::abs_v(a)) == (if N::real_of(a) >= 0 as real {
            N::real_of(a)
        } else {
            0 as real - N::real_of(a)
        })
    &&& forall|a: N::Value, b: N::Value|
        #[trigger] N::le_v(a, b) <==> N::real_of(a) <= N::real_of(b)
    &&& forall|a: N::Value, b: N::Value|
        #[trigger] N::lt_v(a, b) <==> N::real_of(a) < N::real_of(b)
}

/// The values of a sequence of numbers.
pub open spec fn vals<N: Number>(s: Seq<N>) -> Seq<N::Value> {
    Seq::new(s.len(), |i: int| s[i].value())
}

/// The vector of `k` zeros.
pub open spec fn zeros_v<N: Number>(k: nat) -> Seq<N::Value> {
    Seq::new(k, |i: int| N::zero_v())
}

/// `a + b`, entry by entry.
pub open spec fn sum_v<N: Number>(a: Seq<N::Value>, b: Seq<N::Value>) -> Seq<N::Value> {
    Seq::new(a.len(), |i: int| N::plus_v(a[i], b[i]))
}

/// The number a nonempty vector's entry stands for.
pub open spec fn re<N: Number>(a: Seq<N::Value>, c: int) -> real {
    N::real_of(a[c])
}

/// A vector of `k` zeros.
pub fn zeros<N: Number>(k: usize) -> (r: Vec<N>)
    ensures
        r@.len() == k,
        vals(r@) =~= zeros_v::<N>(k as nat),
{
    let mut r: Vec<N> = Vec::new();
    for i in 0..k
        invariant
            r@.len() == i,
            forall|j: int| 0 <= j < i ==> (#[trigger] r@[j]).value() == N::zero_v(),
    {
        r.push(N::zero());
    }
    r
}

/// The same vector once more.
pub fn dup_vec<N: Number>(v: &Vec<N>) -> (r: Vec<N>)
    ensures
        r@.len() == v@.len(),
        vals(r@) =~= vals(v@),
{
    let mut r: Vec<N> = Vec::new();
    for i in 0..v.len()
        invariant
            r@.len() == i,
            forall|j: int| 0 <= j < i ==> (#[trigger] r@[j]).value() == v@[j].value(),
    {
        r.push(v[i].dup());
    }
    r
}

/// `a + b`, entry by entry.
pub fn sum<N: Number>(a: &Vec<N>, b: &[N]) -> (r: Vec<N>)
    requires
        a@.len() == b@.len(),
    ensures
        r@.len() == a@.len(),
        vals(r@) =~= sum_v::<N>(vals(a@), vals(b@)),
{
    let mut r: Vec<N> = Vec::new();
    for i in 0..a.len()
        invariant
            a@.len() == b@.len(),
            r@.len() == i,
            forall|j: int|
                0 <= j < i ==> (#[trigger] r@[j]).value() == N::plus_v(a@[j].value(), b@[j].value()),
    {
        r.push(a[i].plus(&b[i]));
    }
    r
}

} // verus!
