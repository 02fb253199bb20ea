//! Products of real numbers.

use vstd::prelude::*;

verus! {

pub proof fn times_sum(a: real, b: real, c: real)
    ensures
        a * (b + c) == a * b + a * c,
{
    assert(a * (b + c) == a * b + a * c) by (nonlinear_arith);
}

pub proof fn times_less(a: real, b: real, c: real)
    ensures
        a * (b - c) == a * b - a * c,
{
    assert(a * (b - c) == a * b - a * c) by (nonlinear_arith);
}

pub proof fn times_swap(a: real, b: real)
    ensures
        a * b == b * a,
{
    assert(a * b == b * a) by (nonlinear_arith);
}

pub proof fn times_both(a: real, b: real, c: real)
    ensures
        (a * b) * c == a * (b * c),
{
    assert((a * b) * c == a * (b * c)) by (nonlinear_arith);
}

pub proof fn times_unit(a: real)
    ensures
        a * (1 as real) == a,
        (1 as real) * a == a,
        a * (0 as real) == 0 as real,
        (0 as real) * a == 0 as real,
{
    assert(a * (1 as real) == a) by (nonlinear_arith);
    assert(a * (0 as real) == 0 as real) by (nonlinear_arith);
    times_swap(a, 1 as real);
    times_swap(a, 0 as real);
}

pub proof fn times_positive(a: real, b: real)
    requires
        a >= 0 as real,
        b >= 0 as real,
    ensures
        a * b >= 0 as real,
{
    assert(a * b >= 0 as real) by (nonlinear_arith)
        requires
            a >= 0 as real,
            b >= 0 as real,
    ;
}

pub proof fn times_grows(a: real, b: real, c: real)
    requires
        a >= 0 as real,
        b <= c,
    ensures
        a * b <= a * c,
{
    times_positive(a, c - b);
    times_less(a, c, b);
}

} // verus!
