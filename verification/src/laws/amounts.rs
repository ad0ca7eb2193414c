//! How amounts are counted, and how they add up and multiply.
use crate::cost::{
    add_costs, max_cost, min_cost, mul_costs, sub_costs, wide_product, Cost, Wide,
    EPSILON_ALLOWANCE, INFINITY, MINUS_ONE, NEG_INFINITY, ONE,
};
use vstd::prelude::*;

verus! {

/// A unit is a million millionths, and the allowance ten of them; the infinities are
/// the largest and the smallest amount.
pub proof fn amounts_are_millionths(v: Cost)
    ensures
        ONE == 1_000_000,
        MINUS_ONE == -1_000_000,
        EPSILON_ALLOWANCE == 10,
        NEG_INFINITY <= v <= INFINITY,
        INFINITY == i64::MAX,
        NEG_INFINITY == i64::MIN,
{
}

/// A sum is that of the numbers where it fits, infinite where one of them is, and else
/// the nearest amount.
pub proof fn sums_of_amounts(a: Cost, b: Cost, r: Cost)
    requires
        call_ensures(add_costs, (a, b), r),
    ensures
        a < INFINITY && b < INFINITY && NEG_INFINITY <= a + b <= INFINITY ==> r == a + b,
        a == INFINITY || b == INFINITY || a + b > INFINITY ==> r == INFINITY,
        a < INFINITY && b < INFINITY && a + b < NEG_INFINITY ==> r == NEG_INFINITY,
{
}

/// A difference is that of the numbers where it fits, and nothing lowers infinity.
pub proof fn differences_of_amounts(a: Cost, b: Cost, r: Cost)
    requires
        call_ensures(sub_costs, (a, b), r),
    ensures
        a < INFINITY && NEG_INFINITY <= a - b <= INFINITY ==> r == a - b,
        a == INFINITY || a - b > INFINITY ==> r == INFINITY,
        a < INFINITY && a - b < NEG_INFINITY ==> r == NEG_INFINITY,
{
}

/// A product is that of the numbers, rounded down to a millionth; the wide one is
/// exact.
pub proof fn products_of_amounts(a: Cost, b: Cost, r: Cost, wide: Wide)
    requires
        call_ensures(mul_costs, (a, b), r),
        call_ensures(wide_product, (a, b), wide),
    ensures
        wide == a * b,
        NEG_INFINITY < r < INFINITY ==> r * 1_000_000 <= a * b < (r + 1) * 1_000_000,
        r == INFINITY ==> a * b >= INFINITY * 1_000_000,
        r == NEG_INFINITY ==> a * b < (NEG_INFINITY + 1) * 1_000_000,
{
}

/// The larger of two amounts is one of them and no less than either, and so for the
/// smaller.
pub proof fn larger_and_smaller(a: Cost, b: Cost, most: Cost, least: Cost)
    requires
        call_ensures(max_cost, (a, b), most),
        call_ensures(min_cost, (a, b), least),
    ensures
        most == a || most == b,
        least == a || least == b,
        least <= a <= most,
        least <= b <= most,
{
}

} // verus!
