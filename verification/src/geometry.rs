//! Distances between points given by their north and east offsets from the
//! depot, in whole metres.

use vstd::prelude::*;

verus! {

/// `r` is the square root of `n`, rounded down.
pub open spec fn is_floor_sqrt(n: nat, r: nat) -> bool {
    r * r <= n < (r + 1) * (r + 1)
}

/// The square root of `n`, rounded down to a whole number.
pub open spec fn floor_sqrt(n: nat) -> nat {
    choose|r: nat| #[trigger] is_floor_sqrt(n, r)
}

/// The absolute value of an offset.
pub open spec fn magnitude(x: int) -> nat {
    if x < 0 {
        (-x) as nat
    } else {
        x as nat
    }
}

/// The square of the separation of two points, after each coordinate has been
/// folded onto its absolute value.
pub open spec fn squared_separation(a_north: int, a_east: int, b_north: int, b_east: int) -> nat {
    let dn = magnitude(a_north) - magnitude(b_north);
    let de = magnitude(a_east) - magnitude(b_east);
    (dn * dn + de * de) as nat
}

/// The separation of two points in whole metres: the root of the squared
/// differences of the absolute offsets, rounded down.
pub open spec fn separation(a_north: int, a_east: int, b_north: int, b_east: int) -> nat {
    floor_sqrt(squared_separation(a_north, a_east, b_north, b_east))
}

proof fn lemma_square_monotonic(a: nat, b: nat)
    requires
        a <= b,
    ensures
        a * a <= b * b,
{
    assert(a * a <= b * b) by (nonlinear_arith)
        requires
            a <= b,
    ;
}

/// Every natural number has a rounded-down square root.
pub proof fn lemma_floor_sqrt_exists(n: nat)
    ensures
        exists|r: nat| #[trigger] is_floor_sqrt(n, r),
    decreases n,
{
    if n == 0 {
        assert(0nat * 0nat <= 0 < (0nat + 1) * (0nat + 1)) by (nonlinear_arith);
        assert(is_floor_sqrt(0, 0));
    } else {
        lemma_floor_sqrt_exists((n - 1) as nat);
        let r = floor_sqrt((n - 1) as nat);
        if (r + 1) * (r + 1) <= n {
            assert((r + 2) * (r + 2) > (r + 1) * (r + 1)) by (nonlinear_arith);
            assert(is_floor_sqrt(n, r + 1));
        } else {
            assert(is_floor_sqrt(n, r));
        }
    }
}

/// At most one number is the rounded-down square root of `n`.
pub proof fn lemma_floor_sqrt_unique(n: nat, r1: nat, r2: nat)
    requires
        is_floor_sqrt(n, r1),
        is_floor_sqrt(n, r2),
    ensures
        r1 == r2,
{
    if r1 < r2 {
        lemma_square_monotonic(r1 + 1, r2);
    } else if r2 < r1 {
        lemma_square_monotonic(r2 + 1, r1);
    }
}

/// `floor_sqrt(n)` is the one number whose square is at most `n` while the
/// square of its successor is not.
pub proof fn lemma_floor_sqrt(n: nat)
    ensures
        is_floor_sqrt(n, floor_sqrt(n)),
        forall|r: nat| #[trigger] is_floor_sqrt(n, r) ==> r == floor_sqrt(n),
{
    lemma_floor_sqrt_exists(n);
    assert forall|r: nat| #[trigger] is_floor_sqrt(n, r) implies r == floor_sqrt(n) by {
        lemma_floor_sqrt_unique(n, r, floor_sqrt(n));
    }
}

/// The square root of `n`, rounded down.
pub fn integer_sqrt(n: u128) -> (root: u64)
    ensures
        root == floor_sqrt(n as nat),
        is_floor_sqrt(n as nat, root as nat),
{
    let mut low: u128 = 0;
    let mut high: u128 = 0x1_0000_0000_0000_0000u128;
    assert(high * high > n) by (nonlinear_arith)
        requires
            high == 0x1_0000_0000_0000_0000u128,
            n <= u128::MAX,
    ;
    while high - low > 1
        invariant
            low < high <= 0x1_0000_0000_0000_0000u128,
            low * low <= n < high * high,
        decreases high - low,
    {
        let middle: u128 = low + (high - low) / 2;
        assert(middle * middle <= u128::MAX) by (nonlinear_arith)
            requires
                middle < 0x1_0000_0000_0000_0000u128,
        ;
        if middle * middle <= n {
            low = middle;
        } else {
            high = middle;
        }
    }
    proof {
        lemma_floor_sqrt(n as nat);
        assert(is_floor_sqrt(n as nat, low as nat));
    }
    low as u64
}

/// The absolute value of an offset, which fits an unsigned integer of the
/// same width for every offset.
fn offset_magnitude(x: i64) -> (m: u64)
    ensures
        m == magnitude(x as int),
        m <= 0x8000_0000_0000_0000u64,
{
    if x >= 0 {
        x as u64
    } else if x == i64::MIN {
        0x8000_0000_0000_0000u64
    } else {
        (-x) as u64
    }
}

/// The separation in whole metres of the points `(a_north, a_east)` and
/// `(b_north, b_east)`.
pub fn distance_between(a_north: i64, a_east: i64, b_north: i64, b_east: i64) -> (metres: u64)
    ensures
        metres == separation(a_north as int, a_east as int, b_north as int, b_east as int),
{
    let an: u64 = offset_magnitude(a_north);
    let bn: u64 = offset_magnitude(b_north);
    let ae: u64 = offset_magnitude(a_east);
    let be: u64 = offset_magnitude(b_east);
    let dn: u128 = if an >= bn {
        (an - bn) as u128
    } else {
        (bn - an) as u128
    };
    let de: u128 = if ae >= be {
        (ae - be) as u128
    } else {
        (be - ae) as u128
    };
    assert(dn * dn <= 0x4000_0000_0000_0000_0000_0000_0000_0000u128) by (nonlinear_arith)
        requires
            dn <= 0x8000_0000_0000_0000u128,
    ;
    assert(de * de <= 0x4000_0000_0000_0000_0000_0000_0000_0000u128) by (nonlinear_arith)
        requires
            de <= 0x8000_0000_0000_0000u128,
    ;
    let ghost sn = magnitude(a_north as int) - magnitude(b_north as int);
    let ghost se = magnitude(a_east as int) - magnitude(b_east as int);
    assert(dn * dn == sn * sn) by (nonlinear_arith)
        requires
            dn == sn || dn == -sn,
    ;
    assert(de * de == se * se) by (nonlinear_arith)
        requires
            de == se || de == -se,
    ;
    integer_sqrt(dn * dn + de * de)
}

} // verus!
