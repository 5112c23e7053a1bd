//! Binary fixed-point numbers.
//!
//! The components of an amplitude count units of `2^-62`, so that `1` is the
//! integer `2^62`. A probability is the squared norm of an amplitude and counts
//! units of `2^-124`. A uniform draw from `[0, 1)` is a 64-bit integer that counts
//! units of `2^-64`.

use vstd::prelude::*;

verus! {

/// The amplitude component `1`.
pub const AMPLITUDE_ONE: i64 = 0x4000_0000_0000_0000;

/// The probability `1`, the square of [`AMPLITUDE_ONE`].
pub const PROBABILITY_ONE: u128 = 0x1000_0000_0000_0000_0000_0000_0000_0000;

/// How many probability units one unit of a draw is worth.
pub const DRAW_UNIT: u128 = 0x1000_0000_0000_0000;

/// The inverse of the tolerance within which probabilities must sum to one.
pub const TOLERANCE_INVERSE: u128 = 100_000_000;

/// The largest distance from [`PROBABILITY_ONE`] that is within the tolerance.
pub const TOLERANCE: u128 = 212_676_479_325_586_539_664_609_129_644;

/// A complex number in fixed point.
#[derive(Clone, Copy, Debug, PartialEq, Eq, Structural)]
pub struct Amplitude {
    /// The real part, in units of `2^-62`.
    pub re: i64,
    /// The imaginary part, in units of `2^-62`.
    pub im: i64,
}

impl Amplitude {
    /// The squared norm `re^2 + im^2`, in probability units.
    pub open spec fn squared_norm(self) -> nat {
        (self.re * self.re + self.im * self.im) as nat
    }

    /// The probability that belongs to this amplitude: its squared norm.
    pub fn norm_sqr(&self) -> (norm: u128)
        ensures
            norm == self.squared_norm(),
    {
        let re: i128 = self.re as i128;
        let im: i128 = self.im as i128;
        assert(0 <= re * re <= 0x4000_0000_0000_0000_0000_0000_0000_0000) by (nonlinear_arith)
            requires
                -0x8000_0000_0000_0000 <= re <= 0x8000_0000_0000_0000,
        ;
        assert(0 <= im * im <= 0x4000_0000_0000_0000_0000_0000_0000_0000) by (nonlinear_arith)
            requires
                -0x8000_0000_0000_0000 <= im <= 0x8000_0000_0000_0000,
        ;
        let re_sqr: u128 = (re * re) as u128;
        let im_sqr: u128 = (im * im) as u128;
        re_sqr + im_sqr
    }
}

/// The amplitude `0 + 0i`.
pub fn zero() -> (amplitude: Amplitude)
    ensures
        amplitude == (Amplitude { re: 0, im: 0 }),
        amplitude.squared_norm() == 0,
{
    Amplitude { re: 0, im: 0 }
}

/// The amplitude `1 + 0i`.
pub fn one() -> (amplitude: Amplitude)
    ensures
        amplitude == (Amplitude { re: AMPLITUDE_ONE, im: 0 }),
        amplitude.squared_norm() == PROBABILITY_ONE,
{
    assert(AMPLITUDE_ONE * AMPLITUDE_ONE == PROBABILITY_ONE) by (nonlinear_arith);
    Amplitude { re: AMPLITUDE_ONE, im: 0 }
}

/// Whether a total probability is one within the tolerance: whether it differs
/// from one by less than `10^-8`.
pub open spec fn within_tolerance(total: int) -> bool {
    let distance = if total >= PROBABILITY_ONE {
        total - PROBABILITY_ONE
    } else {
        PROBABILITY_ONE - total
    };
    distance * TOLERANCE_INVERSE < PROBABILITY_ONE
}

/// Whether a total probability is one within the tolerance.
pub fn sums_to_one(total: u128) -> (ok: bool)
    ensures
        ok == within_tolerance(total as int),
{
    let distance: u128 = if total >= PROBABILITY_ONE {
        total - PROBABILITY_ONE
    } else {
        PROBABILITY_ONE - total
    };
    distance <= TOLERANCE
}

/// Whether `root` is the integer square root of `n`: the largest integer whose
/// square does not exceed `n`.
pub open spec fn is_root(n: nat, root: nat) -> bool {
    root * root <= n < (root + 1) * (root + 1)
}

/// The integer square root of `n`.
pub open spec fn root_of(n: nat) -> nat {
    choose|root: nat| is_root(n, root)
}

/// Every number has an integer square root, and it is what [`root_of`] names.
pub proof fn lemma_root_exists(n: nat)
    ensures
        is_root(n, root_of(n)),
        n > 0 ==> root_of(n) > 0,
    decreases n,
{
    if n == 0 {
        assert(is_root(0, 0)) by (nonlinear_arith);
    } else {
        lemma_root_exists((n - 1) as nat);
        let below = root_of((n - 1) as nat);
        if (below + 1) * (below + 1) <= n {
            assert(is_root(n, below + 1)) by (nonlinear_arith)
                requires
                    below * below <= n - 1 < (below + 1) * (below + 1),
                    (below + 1) * (below + 1) <= n,
            ;
        } else {
            assert(is_root(n, below));
        }
    }
    assert(n > 0 ==> root_of(n) > 0) by (nonlinear_arith)
        requires
            is_root(n, root_of(n)),
    ;
}

/// A number has one integer square root.
pub proof fn lemma_root_is_unique(n: nat, a: nat, b: nat)
    requires
        is_root(n, a),
        is_root(n, b),
    ensures
        a == b,
{
    assert(a == b) by (nonlinear_arith)
        requires
            a * a <= n < (a + 1) * (a + 1),
            b * b <= n < (b + 1) * (b + 1),
    ;
}

/// The square root of the probability `1` is the amplitude component `1`.
pub proof fn lemma_root_of_one()
    ensures
        root_of(PROBABILITY_ONE as nat) == AMPLITUDE_ONE,
{
    let one = PROBABILITY_ONE as nat;
    lemma_root_exists(one);
    assert(is_root(one, AMPLITUDE_ONE as nat)) by (nonlinear_arith)
        requires
            one == 0x1000_0000_0000_0000_0000_0000_0000_0000,
            AMPLITUDE_ONE == 0x4000_0000_0000_0000,
    ;
    lemma_root_is_unique(one, AMPLITUDE_ONE as nat, root_of(one));
}

/// The integer square root of `n`.
pub fn isqrt(n: u128) -> (root: u64)
    ensures
        is_root(n as nat, root as nat),
        root == root_of(n as nat),
{
    let mut low: u128 = 0;
    let mut high: u128 = 0x1_0000_0000_0000_0000;
    assert(high * high > n) by (nonlinear_arith)
        requires
            high == 0x1_0000_0000_0000_0000,
            n <= 0xffff_ffff_ffff_ffff_ffff_ffff_ffff_ffff,
    ;
    while high - low > 1
        invariant
            low < high <= 0x1_0000_0000_0000_0000,
            low * low <= n < high * high,
        decreases high - low,
    {
        let middle: u128 = low + (high - low) / 2;
        assert(middle * middle <= 0xffff_ffff_ffff_ffff * 0xffff_ffff_ffff_ffff) by (
            nonlinear_arith)
            requires
                0 <= middle <= 0xffff_ffff_ffff_ffff,
        ;
        if middle * middle <= n {
            low = middle;
        } else {
            high = middle;
        }
    }
    proof {
        lemma_root_exists(n as nat);
        lemma_root_is_unique(n as nat, low as nat, root_of(n as nat));
    }
    low as u64
}

} // verus!
