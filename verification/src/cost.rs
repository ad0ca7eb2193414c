//! Fixed-point amounts.
//!
//! Every size, depth, weight and solver value of the library is a whole number
//! of millionths. Sums saturate, and [`INFINITY`] absorbs what is added to it.
use vstd::prelude::*;

verus! {

/// A fixed-point amount with six decimals.
pub type Cost = i64;

/// A fixed-point amount with twelve decimals, which holds the product of any two
/// amounts exactly.
pub type Wide = i128;

/// The amount `1.0`.
pub const ONE: Cost = 1_000_000;

/// The amount `-1.0`.
pub const MINUS_ONE: Cost = -1_000_000;

/// Above every finite amount.
pub const INFINITY: Cost = i64::MAX;

/// Below every finite amount.
pub const NEG_INFINITY: Cost = i64::MIN;

/// Allowance for amounts to be considered equal: `0.00001`.
pub const EPSILON_ALLOWANCE: Cost = 10;

/// The amount nearest to `x`.
pub open spec fn saturate(x: int) -> Cost {
    if x > i64::MAX {
        i64::MAX
    } else if x < i64::MIN {
        i64::MIN
    } else {
        x as i64
    }
}

/// The sum of two amounts.
pub open spec fn plus(a: Cost, b: Cost) -> Cost {
    if a == INFINITY || b == INFINITY {
        INFINITY
    } else {
        saturate(a + b)
    }
}

/// The difference of two amounts; nothing finite lowers [`INFINITY`].
pub open spec fn minus(a: Cost, b: Cost) -> Cost {
    if a == INFINITY {
        INFINITY
    } else {
        saturate(a - b)
    }
}

/// The product of two amounts, rounded down to a millionth.
pub open spec fn times(a: Cost, b: Cost) -> Cost {
    saturate((a * b) / 1_000_000)
}

/// The product of two amounts.
pub open spec fn product(a: Cost, b: Cost) -> Wide {
    (a * b) as i128
}

/// It is exact.
pub proof fn product_is_exact(a: Cost, b: Cost)
    ensures
        product(a, b) as int == a * b,
{
    assert(-0x4000_0000_0000_0000_0000_0000_0000_0000 <= (a as int) * (b as int)
        <= 0x4000_0000_0000_0000_0000_0000_0000_0000) by (nonlinear_arith)
        requires
            -0x8000_0000_0000_0000 <= a <= 0x7fff_ffff_ffff_ffff,
            -0x8000_0000_0000_0000 <= b <= 0x7fff_ffff_ffff_ffff,
    ;
}

/// The larger of two amounts.
pub open spec fn larger(a: Cost, b: Cost) -> Cost {
    if a < b {
        b
    } else {
        a
    }
}

/// The smaller of two amounts.
pub open spec fn smaller(a: Cost, b: Cost) -> Cost {
    if b < a {
        b
    } else {
        a
    }
}

/// A sum of which `sum` is the total of the finite terms.
pub open spec fn settle(any_infinite: bool, sum: int) -> Cost {
    if any_infinite {
        INFINITY
    } else {
        saturate(sum)
    }
}

/// Whether an amount is finite and not negative.
pub open spec fn is_weight(v: Cost) -> bool {
    0 <= v < INFINITY
}

pub(crate) fn saturate_wide(x: i128) -> (r: Cost)
    ensures
        r == saturate(x as int),
{
    if x > 9_223_372_036_854_775_807i128 {
        INFINITY
    } else if x < -9_223_372_036_854_775_808i128 {
        NEG_INFINITY
    } else {
        x as i64
    }
}

/// [`plus`].
pub fn add_costs(a: Cost, b: Cost) -> (r: Cost)
    ensures
        r == plus(a, b),
{
    if a == INFINITY || b == INFINITY {
        INFINITY
    } else {
        saturate_wide(a as i128 + b as i128)
    }
}

/// [`minus`].
pub fn sub_costs(a: Cost, b: Cost) -> (r: Cost)
    ensures
        r == minus(a, b),
{
    if a == INFINITY {
        INFINITY
    } else {
        saturate_wide(a as i128 - b as i128)
    }
}

/// [`product`].
pub fn wide_product(a: Cost, b: Cost) -> (r: Wide)
    ensures
        r == product(a, b),
        r == a * b,
{
    proof {
        product_is_exact(a, b);
    }
    a as i128 * b as i128
}

/// [`times`].
pub fn mul_costs(a: Cost, b: Cost) -> (r: Cost)
    ensures
        r == times(a, b),
{
    let exact: Wide = wide_product(a, b);
    let truncated: i128 = exact / 1_000_000;
    let floored: i128 = if exact % 1_000_000 < 0 {
        truncated - 1
    } else {
        truncated
    };
    saturate_wide(floored)
}

/// [`larger`].
pub fn max_cost(a: Cost, b: Cost) -> (r: Cost)
    ensures
        r == larger(a, b),
{
    if a < b {
        b
    } else {
        a
    }
}

/// [`smaller`].
pub fn min_cost(a: Cost, b: Cost) -> (r: Cost)
    ensures
        r == smaller(a, b),
{
    if b < a {
        b
    } else {
        a
    }
}

/// A larger term never makes a sum smaller.
pub proof fn plus_is_monotone(a: Cost, b: Cost, c: Cost)
    requires
        b <= c,
    ensures
        plus(a, b) <= plus(a, c),
{
}

/// Adding an amount that is not negative never makes a sum smaller.
pub proof fn plus_is_inflationary(a: Cost, b: Cost)
    requires
        0 <= a,
    ensures
        b <= plus(a, b),
{
}

} // verus!
