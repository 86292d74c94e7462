//! Double-precision arithmetic (IEEE 754 binary64, no less than 0) on integers.
//!
//! Every operation gives the double nearest to its exact result, halves to the even mantissa.
use vstd::arithmetic::div_mod::{lemma_fundamental_div_mod, lemma_fundamental_div_mod_converse};
use vstd::arithmetic::power2::{
    lemma2_to64, lemma2_to64_rest, lemma_pow2_adds, lemma_pow2_pos, lemma_pow2_strictly_increases,
    lemma_pow2_unfold, pow2,
};
use vstd::prelude::*;

pub mod cut;
pub mod error;
pub mod exact;
pub mod order;
pub mod rest;

verus! {

/// A full mantissa has 53 bits: it is no less than `START` and less than `END`.
pub const START: u64 = 0x10_0000_0000_0000;

pub const END: u64 = 0x20_0000_0000_0000;

/// The exponent of the smallest doubles; with it, a mantissa may be less than `START`.
pub const LOWEST: i32 = -1074;

/// The exponent of what is too large for a double.
pub const BEYOND: i32 = 972;

/// The number `m` times 2 to the `e`th. Anything too large for a double is 2 to the 1024th, which
/// stands for infinity: what is added to it, or multiplies it by 1 or more, leaves it so. (Nothing
/// that is divided or subtracted here gets that large.)
#[derive(Clone, Copy, Debug, PartialEq, Eq, Structural)]
pub struct Double {
    pub m: u64,
    pub e: i32,
}

impl Double {
    pub open spec fn wf(self) -> bool {
        &&& self.m < END
        &&& self.m >= START || self.e == LOWEST
        &&& LOWEST <= self.e <= BEYOND
        &&& self.e == BEYOND ==> self.m == START
    }

    /// Less than `other`.
    pub open spec fn less(self, other: Double) -> bool {
        self.e < other.e || (self.e == other.e && self.m < other.m)
    }
}

pub open spec fn zero() -> Double {
    Double { m: 0, e: LOWEST }
}

/// `n / d` rounded to the nearest whole number, halves to the even one.
pub open spec fn rounded(n: nat, d: nat) -> nat {
    let q = n / d;
    let r = n % d;
    if 2 * r < d || (2 * r == d && q % 2 == 0) {
        q
    } else {
        q + 1
    }
}

/// The double `m` times 2 to the `e`th, `m` being no more than `END`.
pub open spec fn packed(m: nat, e: int) -> Double {
    let carried = m >= END;
    if e >= BEYOND || (carried && e + 1 >= BEYOND) {
        Double { m: START, e: BEYOND }
    } else if carried {
        Double { m: START, e: (e + 1) as i32 }
    } else {
        Double { m: m as u64, e: e as i32 }
    }
}

/// `n / d` has too many digits for a mantissa, or its last digit counts for too little.
pub open spec fn too_fine(n: nat, d: nat, e: int) -> bool {
    n >= END * d || e < LOWEST
}

/// `n / d` leaves digits of the mantissa unused.
pub open spec fn too_coarse(n: nat, d: nat, e: int) -> bool {
    n < START * d && e > LOWEST
}

/// A bound on the steps to the mantissa.
pub open spec fn steps(n: nat, d: nat, e: int) -> int {
    if too_fine(n, d, e) {
        (if n >= END * d {
            n - END * d + 1
        } else {
            0
        }) + (if e < LOWEST {
            LOWEST - e
        } else {
            0
        })
    } else if too_coarse(n, d, e) {
        e - LOWEST
    } else {
        0
    }
}

/// The double nearest to `n / d` times 2 to the `e`th.
pub open spec fn nearest(n: nat, d: nat, e: int) -> Double
    decreases steps(n, d, e),
{
    if d == 0 {
        zero()
    } else if too_fine(n, d, e) {
        nearest(n, 2 * d, e + 1)
    } else if too_coarse(n, d, e) {
        nearest(2 * n, d, e - 1)
    } else {
        packed(rounded(n, d), e)
    }
}

/// Computes `rounded`.
pub fn round_div(n: u128, d: u128) -> (q: u128)
    requires
        0 < d <= u128::MAX / 2,
    ensures
        q == rounded(n as nat, d as nat),
{
    let q: u128 = n / d;
    let r: u128 = n % d;
    assert(d >= 2 || q == n) by {
        if d == 1 {
            assert(n as int / 1 == n as int);
        }
    }
    if 2 * r < d || (2 * r == d && q % 2 == 0) {
        q
    } else {
        assert(q < u128::MAX) by {
            assert(r > 0);
            assert(q as int * d as int + r as int == n as int) by (nonlinear_arith)
                requires
                    q == n / d,
                    r == n % d,
                    d > 0,
            ;
            assert(q as int * d as int >= q as int) by (nonlinear_arith)
                requires
                    d >= 1,
                    q >= 0,
            ;
        }
        q + 1
    }
}

/// What a rounded quotient is between.
pub proof fn lemma_rounded(n: nat, d: nat)
    requires
        d > 0,
    ensures
        2 * (rounded(n, d) * d) <= 2 * n + d,
        2 * n <= 2 * (rounded(n, d) * d) + d,
{
    lemma_fundamental_div_mod(n as int, d as int);
    let (q, r, k) = (n as int / d as int, n as int % d as int, d as int);
    assert((q + 1) * k == q * k + k) by (nonlinear_arith);
    assert(k * q == q * k) by (nonlinear_arith);
}

/// A quotient between two whole numbers rounds to one between them.
pub proof fn lemma_rounded_bounds(n: nat, d: nat, lo: nat, hi: nat)
    requires
        d > 0,
        lo * d <= n <= hi * d,
    ensures
        lo <= rounded(n, d) <= hi,
{
    lemma_rounded(n, d);
    let (v, k) = (rounded(n, d) as int, d as int);
    assert(v >= lo) by (nonlinear_arith)
        requires
            2 * (lo * k) <= 2 * (v * k) + k,
            k > 0,
            lo >= 0,
    ;
    if n == hi * d {
        lemma_fundamental_div_mod_converse(n as int, k, hi as int, 0);
        assert(rounded(n, d) == hi);
    } else {
        assert(v <= hi) by {
            lemma_fundamental_div_mod(n as int, k);
            let q = n as int / k;
            let r = n as int % k;
            assert(q < hi) by (nonlinear_arith)
                requires
                    k * q + r < hi * k,
                    r >= 0,
                    k > 0,
            ;
        }
    }
}

proof fn lemma_rounded_doubled(n: nat, d: nat)
    requires
        d > 0,
    ensures
        rounded(2 * n, 2 * d) == rounded(n, d),
{
    lemma_fundamental_div_mod(n as int, d as int);
    let (q, r, k) = (n as int / d as int, n as int % d as int, d as int);
    assert(2 * n == q * (2 * k) + 2 * r) by (nonlinear_arith)
        requires
            n == k * q + r,
    ;
    lemma_fundamental_div_mod_converse(2 * n as int, 2 * k, q, 2 * r);
}

/// A common factor 2 changes nothing.
proof fn lemma_common_factor(n: nat, d: nat, e: int)
    requires
        d > 0,
    ensures
        nearest(2 * n, 2 * d, e) == nearest(n, d, e),
    decreases steps(n, d, e),
{
    if too_fine(n, d, e) {
        lemma_common_factor(n, 2 * d, e + 1);
    } else if too_coarse(n, d, e) {
        lemma_common_factor(2 * n, d, e - 1);
    } else {
        lemma_rounded_doubled(n, d);
    }
}

proof fn lemma_doubled(n: nat, d: nat, e: int)
    requires
        d > 0,
    ensures
        nearest(2 * n, d, e - 1) == nearest(n, d, e),
{
    lemma_common_factor(n, d, e);
}

/// Only the number counts, not how it is written: a power of 2 may move into the numerator.
pub proof fn lemma_shifted(n: nat, d: nat, e: int, k: nat)
    requires
        d > 0,
    ensures
        nearest(n * pow2(k), d, e - k) == nearest(n, d, e),
    decreases k,
{
    if k == 0 {
        lemma2_to64();
        assert(n * 1 == n) by (nonlinear_arith);
    } else {
        let p = pow2((k - 1) as nat);
        lemma_shifted(n, d, e, (k - 1) as nat);
        lemma_doubled(n * p, d, e - (k - 1));
        lemma_pow2_unfold(k);
        assert(2 * (n * p) == n * (2 * p)) by (nonlinear_arith);
    }
}

/// Nothing, or too little to count, is 0.
pub proof fn lemma_too_little(n: nat, d: nat, e: int)
    requires
        d > 0,
        n == 0 || (2 * n < d && e <= LOWEST),
    ensures
        nearest(n, d, e) == zero(),
    decreases steps(n, d, e),
{
    if too_fine(n, d, e) {
        lemma_too_little(n, 2 * d, e + 1);
    } else if too_coarse(n, d, e) {
        lemma_too_little(2 * n, d, e - 1);
    } else {
        lemma_fundamental_div_mod_converse(n as int, d as int, 0, n as int);
    }
}

/// The nearest double is one.
pub proof fn lemma_nearest_wf(n: nat, d: nat, e: int)
    requires
        d > 0,
    ensures
        nearest(n, d, e).wf(),
    decreases steps(n, d, e),
{
    if too_fine(n, d, e) {
        lemma_nearest_wf(n, 2 * d, e + 1);
    } else if too_coarse(n, d, e) {
        lemma_nearest_wf(2 * n, d, e - 1);
    } else {
        lemma_rounded_bounds(n, d, 0, END as nat);
        if n >= START * d {
            lemma_rounded_bounds(n, d, START as nat, END as nat);
        }
    }
}

/// Computes `packed`.
fn pack(m: u64, e: i32) -> (x: Double)
    requires
        m <= END,
        e < i32::MAX,
    ensures
        x == packed(m as nat, e as int),
{
    let carried = m >= END;
    if e >= BEYOND || (carried && e + 1 >= BEYOND) {
        Double { m: START, e: BEYOND }
    } else if carried {
        Double { m: START, e: e + 1 }
    } else {
        Double { m, e }
    }
}

proof fn lemma_too_large(n: nat, d: nat, e: int)
    requires
        d > 0,
        e >= BEYOND,
        n >= START * d,
    ensures
        nearest(n, d, e) == (Double { m: START, e: BEYOND }),
    decreases steps(n, d, e),
{
    if too_fine(n, d, e) {
        lemma_too_large(n, 2 * d, e + 1);
    }
}

/// Computes `nearest`.
pub(crate) fn round(num: u128, den: u128, exp: i32) -> (x: Double)
    requires
        0 < den <= 0x1_0000_0000_0000_0000,
        num <= 0x100_0000_0000_0000_0000_0000_0000_0000,
        -10_000 <= exp <= 10_000,
    ensures
        x == nearest(num as nat, den as nat, exp as int),
        x.wf(),
{
    let ghost goal = nearest(num as nat, den as nat, exp as int);
    proof {
        lemma_nearest_wf(num as nat, den as nat, exp as int);
    }
    if num == 0 {
        proof {
            lemma_too_little(num as nat, den as nat, exp as int);
        }
        return Double { m: 0, e: LOWEST };
    }
    let mut n: u128 = num;
    let mut d: u128 = den;
    let mut e: i32 = exp;
    if n / (END as u128) >= d || e < LOWEST {
        while n / (END as u128) >= d || e < LOWEST
            invariant
                0 < d <= 0x400_0000_0000_0000_0000_0000_0000_0000,
                0 < n <= 0x100_0000_0000_0000_0000_0000_0000_0000,
                -10_000 <= e <= 10_000,
                goal == nearest(n as nat, d as nat, e as int),
                goal == nearest(num as nat, den as nat, exp as int),
                goal.wf(),
                e <= LOWEST || n >= START * d,
            decreases steps(n as nat, d as nat, e as int),
        {
            if e >= BEYOND {
                proof {
                    lemma_too_large(n as nat, d as nat, e as int);
                }
                return Double { m: START, e: BEYOND };
            }
            if d > 2 * n {
                proof {
                    lemma_too_little(n as nat, d as nat, e as int);
                }
                return Double { m: 0, e: LOWEST };
            }
            d = 2 * d;
            e += 1;
        }
    } else {
        while n / (START as u128) < d && e > LOWEST
            invariant
                0 < d <= 0x1_0000_0000_0000_0000,
                LOWEST <= e <= 10_000,
                goal == nearest(n as nat, d as nat, e as int),
                !too_fine(n as nat, d as nat, e as int),
            decreases steps(n as nat, d as nat, e as int),
        {
            proof {
                lemma_fundamental_div_mod(n as int, START as int);
                assert(START * (n as int / START as int) <= START * (d - 1)) by (nonlinear_arith)
                    requires
                        n as int / START as int <= d - 1,
                ;
                assert(START * (d - 1) == START * d - START) by (nonlinear_arith);
            }
            assert(too_coarse(n as nat, d as nat, e as int));
            assert(nearest(n as nat, d as nat, e as int) == nearest(
                2 * (n as nat),
                d as nat,
                e - 1,
            ));
            n = 2 * n;
            e -= 1;
        }
    }
    proof {
        lemma_rounded_bounds(n as nat, d as nat, 0, END as nat);
    }
    pack(round_div(n, d) as u64, e)
}

/// 2 to the `k`th.
fn power(k: u32) -> (p: u128)
    requires
        k < 128,
    ensures
        p == pow2(k as nat),
{
    let mut p: u128 = 1;
    let mut i: u32 = 0;
    proof {
        lemma2_to64();
    }
    while i < k
        invariant
            i <= k < 128,
            p == pow2(i as nat),
        decreases k - i,
    {
        proof {
            lemma_pow2_unfold((i + 1) as nat);
            lemma_power_fits((i + 1) as nat);
        }
        p = 2 * p;
        i += 1;
    }
    p
}

proof fn lemma_power_fits(k: nat)
    requires
        k < 128,
    ensures
        0 < pow2(k) <= 0x8000_0000_0000_0000_0000_0000_0000_0000,
{
    lemma2_to64();
    lemma_pow2_pos(k);
    if k < 127 {
        lemma_pow2_strictly_increases(k, 127);
    }
    lemma_pow2_adds(63, 64);
    assert(pow2(63) == 0x8000_0000_0000_0000) by {
        lemma_pow2_unfold(64);
    }
    assert(pow2(127) == 0x8000_0000_0000_0000 * 0x1_0000_0000_0000_0000);
}

/// The powers of 2 that bound mantissas.
pub proof fn lemma_bounds()
    ensures
        pow2(0) == 1,
        pow2(1) == 2,
        pow2(52) == START,
        pow2(53) == END,
        pow2(54) == 2 * END,
        pow2(55) == 4 * END,
        pow2(64) == 0x1_0000_0000_0000_0000,
{
    lemma2_to64();
    lemma2_to64_rest();
}

/// A common power of 2 changes nothing.
pub proof fn lemma_common_power(n: nat, d: nat, e: int, k: nat)
    requires
        d > 0,
    ensures
        d * pow2(k) > 0,
        nearest(n * pow2(k), d * pow2(k), e) == nearest(n, d, e),
    decreases k,
{
    lemma_pow2_pos(k);
    assert(d * pow2(k) > 0) by (nonlinear_arith)
        requires
            d > 0,
            pow2(k) > 0,
    ;
    if k == 0 {
        lemma2_to64();
        assert(n * 1 == n && d * 1 == d) by (nonlinear_arith);
    } else {
        let p = pow2((k - 1) as nat);
        lemma_common_power(n, d, e, (k - 1) as nat);
        lemma_common_factor(n * p, d * p, e);
        lemma_pow2_unfold(k);
        assert(2 * (n * p) == n * (2 * p) && 2 * (d * p) == d * (2 * p)) by (nonlinear_arith);
    }
}

/// A power of 2 may move into the denominator.
pub proof fn lemma_divided(n: nat, d: nat, e: int, k: nat)
    requires
        d > 0,
    ensures
        d * pow2(k) > 0,
        nearest(n, d * pow2(k), e + k) == nearest(n, d, e),
{
    lemma_common_power(n, d, e, k);
    lemma_shifted(n, d * pow2(k), e + k, k);
}

/// The double nearest to a whole number.
pub open spec fn whole(n: nat) -> Double {
    nearest(n, 1, 0)
}

/// The double nearest to the product.
pub open spec fn product(a: Double, b: Double) -> Double {
    nearest(a.m as nat * b.m as nat, 1, a.e + b.e)
}

/// The double nearest to the quotient.
pub open spec fn quotient(a: Double, b: Double) -> Double {
    nearest(a.m as nat, b.m as nat, a.e - b.e)
}

/// The lower of two exponents.
pub open spec fn lower(a: int, b: int) -> int {
    if a < b {
        a
    } else {
        b
    }
}

/// `x` in units of 2 to the `e`th, `e` being no more than its exponent.
pub open spec fn units(x: Double, e: int) -> nat {
    x.m as nat * pow2((x.e - e) as nat)
}

/// The double nearest to the sum.
pub open spec fn sum(a: Double, b: Double) -> Double {
    let e = lower(a.e as int, b.e as int);
    nearest(units(a, e) + units(b, e), 1, e)
}

/// The double nearest to the difference; 0 if `b` is more than `a`.
pub open spec fn difference(a: Double, b: Double) -> Double {
    let e = lower(a.e as int, b.e as int);
    if units(a, e) >= units(b, e) {
        nearest((units(a, e) - units(b, e)) as nat, 1, e)
    } else {
        zero()
    }
}

/// Far less than the last digit is lost in a sum.
proof fn lemma_far_sum(a: Double, b: Double)
    requires
        a.wf(),
        b.wf(),
        a.e - b.e >= 56,
    ensures
        sum(a, b) == a,
        sum(b, a) == a,
{
    let k = (a.e - b.e) as nat;
    let p = pow2(k) as int;
    let e = b.e as int;
    lemma_bounds();
    lemma_pow2_strictly_increases(55, k);
    let n = units(a, e) + units(b, e);
    let (m, s) = (a.m as int, b.m as int);
    assert(s * 1 == s) by (nonlinear_arith);
    assert(n == m * p + s);
    lemma_divided(n, 1, e, k);
    assert(1 * pow2(k) == p);
    assert(START * p <= m * p && m * p + p <= END * p) by (nonlinear_arith)
        requires
            START <= m,
            m + 1 <= END,
            p > 0,
    ;
    lemma_fundamental_div_mod_converse(n as int, p, m, s);
}

proof fn lemma_far_difference(a: Double, b: Double)
    requires
        a.wf(),
        b.wf(),
        a.e - b.e >= 56,
    ensures
        difference(a, b) == a,
{
    let k = (a.e - b.e) as nat;
    let p = pow2(k) as int;
    let e = b.e as int;
    lemma_bounds();
    lemma_pow2_strictly_increases(55, k);
    let (m, s) = (a.m as int, b.m as int);
    assert(s * 1 == s) by (nonlinear_arith);
    assert(START * p <= m * p && m * p + p <= END * p) by (nonlinear_arith)
        requires
            START <= m,
            m + 1 <= END,
            p > 0,
    ;
    let n = (m * p - s) as nat;
    assert(n == (units(a, e) - units(b, e)) as nat);
    lemma_divided(n, 1, e, k);
    assert(1 * pow2(k) == p);
    if s == 0 {
        lemma_fundamental_div_mod_converse(n as int, p, m, 0);
    } else if m > START {
        assert((m - 1) * p == m * p - p && START * p <= (m - 1) * p) by (nonlinear_arith)
            requires
                START <= m - 1,
                p > 0,
        ;
        lemma_fundamental_div_mod_converse(n as int, p, m - 1, p - s);
    } else {
        assert(too_coarse(n, p as nat, a.e as int));
        let n2 = 2 * n;
        assert((END - 1) * p == END * p - p) by (nonlinear_arith);
        lemma_fundamental_div_mod_converse(n2 as int, p, END - 1, p - 2 * s);
        assert(nearest(n2, p as nat, a.e - 1) == packed(END as nat, a.e - 1));
    }
}

impl Double {
    /// 0.
    pub fn nothing() -> (x: Double)
        ensures
            x == zero(),
            x.wf(),
    {
        Double { m: 0, e: LOWEST }
    }

    /// The double nearest to `n`.
    pub fn of(n: u64) -> (x: Double)
        ensures
            x == whole(n as nat),
            x.wf(),
    {
        round(n as u128, 1, 0)
    }

    /// The product.
    pub fn times(self, other: Double) -> (x: Double)
        requires
            self.wf(),
            other.wf(),
        ensures
            x == product(self, other),
            x.wf(),
    {
        assert(self.m * other.m <= END * END) by (nonlinear_arith)
            requires
                self.m <= END,
                other.m <= END,
        ;
        round(self.m as u128 * other.m as u128, 1, self.e + other.e)
    }

    /// The quotient.
    pub fn over(self, other: Double) -> (x: Double)
        requires
            self.wf(),
            other.wf(),
            other.m > 0,
        ensures
            x == quotient(self, other),
            x.wf(),
    {
        round(self.m as u128, other.m as u128, self.e - other.e)
    }

    /// The sum.
    pub fn plus(self, other: Double) -> (x: Double)
        requires
            self.wf(),
            other.wf(),
        ensures
            x == sum(self, other),
            x.wf(),
    {
        let (a, b) = if self.e < other.e {
            (other, self)
        } else {
            (self, other)
        };
        assert(sum(self, other) == sum(a, b));
        if a.e - b.e > 64 {
            proof {
                lemma_far_sum(a, b);
            }
            return a;
        }
        let p: u128 = power((a.e - b.e) as u32);
        proof {
            lemma_aligned(a, b);
        }
        round(a.m as u128 * p + b.m as u128, 1, b.e)
    }

    /// The difference; 0 if `other` is more.
    pub fn minus(self, other: Double) -> (x: Double)
        requires
            self.wf(),
            other.wf(),
        ensures
            x == difference(self, other),
            x.wf(),
    {
        if self.e < other.e {
            proof {
                lemma_aligned(other, self);
                lemma_units_ordered(self, other);
            }
            return Double::nothing();
        }
        if self.e - other.e > 64 {
            proof {
                lemma_far_difference(self, other);
            }
            return self;
        }
        let p: u128 = power((self.e - other.e) as u32);
        proof {
            lemma_aligned(self, other);
        }
        let a: u128 = self.m as u128 * p;
        if a < other.m as u128 {
            return Double::nothing();
        }
        round(a - other.m as u128, 1, other.e)
    }

    /// Whether this is less than `other`.
    pub fn is_less(self, other: Double) -> (r: bool)
        ensures
            r == self.less(other),
    {
        self.e < other.e || (self.e == other.e && self.m < other.m)
    }
}

/// Two doubles in units of the lower exponent.
proof fn lemma_aligned(a: Double, b: Double)
    requires
        a.wf(),
        b.wf(),
        a.e >= b.e,
    ensures
        units(b, b.e as int) == b.m,
        units(a, b.e as int) == a.m * pow2((a.e - b.e) as nat),
        a.e - b.e <= 64 ==> a.m * pow2((a.e - b.e) as nat) <= END * 0x1_0000_0000_0000_0000,
        a.e - b.e <= 64 ==> pow2((a.e - b.e) as nat) <= 0x1_0000_0000_0000_0000,
{
    lemma_bounds();
    let k = (a.e - b.e) as nat;
    assert(b.m * 1 == b.m) by (nonlinear_arith);
    if k < 64 {
        lemma_pow2_strictly_increases(k, 64);
    }
    if k <= 64 {
        let (m, p) = (a.m as int, pow2(k) as int);
        assert(m * p <= END * 0x1_0000_0000_0000_0000) by (nonlinear_arith)
            requires
                0 <= m <= END,
                0 <= p <= 0x1_0000_0000_0000_0000,
        ;
    }
}

/// A lower exponent means less.
proof fn lemma_units_ordered(a: Double, b: Double)
    requires
        a.wf(),
        b.wf(),
        a.e < b.e,
    ensures
        units(a, a.e as int) < units(b, a.e as int),
{
    let k = (b.e - a.e) as nat;
    lemma_bounds();
    lemma_pow2_pos((k - 1) as nat);
    lemma_pow2_unfold(k);
    let (m, p) = (b.m as int, pow2(k) as int);
    assert(a.m * 1 == a.m) by (nonlinear_arith);
    assert(m * p >= START * 2) by (nonlinear_arith)
        requires
            m >= START,
            p >= 2,
    ;
}

/// The whole part.
pub open spec fn floor(x: Double) -> nat {
    if x.e >= 0 {
        x.m as nat * pow2(x.e as nat)
    } else {
        x.m as nat / pow2((-x.e) as nat)
    }
}

/// The nearest whole number, halves up.
pub open spec fn half_up(x: Double) -> nat {
    if x.e >= 0 {
        x.m as nat * pow2(x.e as nat)
    } else {
        let p = pow2((-x.e) as nat);
        (2 * x.m as nat + p) / (2 * p)
    }
}

/// `s` times the number, rounded to the nearest whole number, halves to the even one.
pub open spec fn scaled(x: Double, s: nat) -> nat {
    if x.e >= 0 {
        x.m as nat * s * pow2(x.e as nat)
    } else {
        rounded(x.m as nat * s, pow2((-x.e) as nat))
    }
}

/// From this exponent on, numbers are too large to be shown.
pub const SHOWN: i32 = 44;

impl Double {
    /// More than `n`.
    pub open spec fn exceeds(self, n: nat) -> bool {
        if self.e >= 0 {
            self.m * pow2(self.e as nat) > n
        } else {
            self.m > n * pow2((-self.e) as nat)
        }
    }

    /// `n` or more.
    pub open spec fn reaches(self, n: nat) -> bool {
        if self.e >= 0 {
            self.m * pow2(self.e as nat) >= n
        } else {
            self.m >= n * pow2((-self.e) as nat)
        }
    }

    /// Less than 2 to the 97th.
    pub open spec fn can_be_shown(self) -> bool {
        self.wf() && self.e < SHOWN
    }

    /// Whether this is more than `n`.
    pub fn is_above(&self, n: u32) -> (r: bool)
        requires
            self.wf(),
        ensures
            r == self.exceeds(n as nat),
    {
        proof {
            lemma_power_grows(self.e as int);
            lemma_multiple(n as int, self.e as int);
            lemma_large(self.m as int, self.e as int);
        }
        if self.e >= 64 {
            true
        } else if self.e >= 0 {
            self.m as u128 * power(self.e as u32) > n as u128
        } else if self.e > -64 {
            self.m as u128 > n as u128 * power((-self.e) as u32)
        } else {
            n == 0 && self.m > 0
        }
    }

    /// Whether this is `n` or more.
    pub fn is_at_least(&self, n: u32) -> (r: bool)
        requires
            self.wf(),
        ensures
            r == self.reaches(n as nat),
    {
        proof {
            lemma_power_grows(self.e as int);
            lemma_multiple(n as int, self.e as int);
            lemma_large(self.m as int, self.e as int);
        }
        if self.e >= 64 {
            true
        } else if self.e >= 0 {
            self.m as u128 * power(self.e as u32) >= n as u128
        } else if self.e > -64 {
            self.m as u128 >= n as u128 * power((-self.e) as u32)
        } else {
            n == 0
        }
    }

    /// The whole part, `usize::MAX` if it is more.
    pub fn to_size(self) -> (n: usize)
        requires
            self.wf(),
        ensures
            n == (if floor(self) > usize::MAX {
                usize::MAX as nat
            } else {
                floor(self)
            }),
    {
        proof {
            lemma_power_grows(self.e as int);
            lemma_large(self.m as int, self.e as int);
        }
        if self.e >= 64 {
            return usize::MAX;
        }
        let v: u128 = if self.e >= 0 {
            self.m as u128 * power(self.e as u32)
        } else if self.e > -64 {
            self.m as u128 / power((-self.e) as u32)
        } else {
            proof {
                lemma_fundamental_div_mod_converse(
                    self.m as int,
                    pow2((-self.e) as nat) as int,
                    0,
                    self.m as int,
                );
            }
            0
        };
        if v > usize::MAX as u128 {
            usize::MAX
        } else {
            v as usize
        }
    }

    /// The nearest whole number, halves up; `u64::MAX` if it is more.
    pub fn to_nearest(self) -> (n: u64)
        requires
            self.wf(),
        ensures
            n == (if half_up(self) > u64::MAX {
                u64::MAX as nat
            } else {
                half_up(self)
            }),
    {
        proof {
            lemma_power_grows(self.e as int);
            lemma_large(self.m as int, self.e as int);
        }
        if self.e >= 64 {
            return u64::MAX;
        }
        let v: u128 = if self.e >= 0 {
            self.m as u128 * power(self.e as u32)
        } else if self.e > -64 {
            let p: u128 = power((-self.e) as u32);
            (2 * (self.m as u128) + p) / (2 * p)
        } else {
            proof {
                let p = pow2((-self.e) as nat) as int;
                lemma_fundamental_div_mod_converse(2 * self.m + p, 2 * p, 0, 2 * self.m + p);
            }
            0
        };
        if v > u64::MAX as u128 {
            u64::MAX
        } else {
            v as u64
        }
    }

    /// `s` times this, rounded to the nearest whole number, halves to the even one.
    pub fn to_scaled(self, s: u64) -> (n: u128)
        requires
            self.can_be_shown(),
            s <= 1_000,
        ensures
            n == scaled(self, s as nat),
    {
        proof {
            lemma_power_grows(self.e as int);
            assert(self.m * s <= END * 1_000) by (nonlinear_arith)
                requires
                    self.m <= END,
                    s <= 1_000,
            ;
        }
        let v: u128 = self.m as u128 * s as u128;
        if self.e >= 0 {
            let p: u128 = power(self.e as u32);
            assert(0 <= v * p <= END * 1_000 * 0x1_0000_0000_0000) by (nonlinear_arith)
                requires
                    0 <= v <= END * 1_000,
                    0 <= p <= 0x1_0000_0000_0000,
            ;
            v * p
        } else if self.e > -64 {
            round_div(v, power((-self.e) as u32))
        } else {
            proof {
                lemma_fundamental_div_mod_converse(
                    v as int,
                    pow2((-self.e) as nat) as int,
                    0,
                    v as int,
                );
            }
            0
        }
    }
}

/// How large the power of 2 is that an exponent stands for.
proof fn lemma_power_grows(e: int)
    ensures
        0 <= e < 64 ==> 0 < pow2(e as nat) <= 0x8000_0000_0000_0000,
        0 <= e < SHOWN ==> pow2(e as nat) <= 0x1_0000_0000_0000,
        -64 < e < 0 ==> 2 <= pow2((-e) as nat) <= 0x8000_0000_0000_0000,
        e <= -64 ==> pow2((-e) as nat) >= 0x1_0000_0000_0000_0000,
        e >= 64 ==> pow2(e as nat) >= 0x1_0000_0000_0000_0000,
{
    lemma_bounds();
    lemma_pow2_unfold(64);
    let k = (if e >= 0 {
        e
    } else {
        -e
    }) as nat;
    lemma_pow2_pos(k);
    if k < 63 {
        lemma_pow2_strictly_increases(k, 63);
    }
    if k > 64 {
        lemma_pow2_strictly_increases(64, k);
    }
    if k < 48 {
        lemma_pow2_strictly_increases(k, 48);
        lemma2_to64();
        lemma2_to64_rest();
    }
    if k > 1 {
        lemma_pow2_strictly_increases(1, k);
    }
}

/// A 32-bit number in units of 2 to the `e`th.
proof fn lemma_multiple(n: int, e: int)
    requires
        0 <= n <= u32::MAX,
    ensures
        -64 < e < 0 ==> 0 <= n * pow2((-e) as nat) <= u32::MAX * 0x8000_0000_0000_0000,
        e <= -64 ==> n * pow2((-e) as nat) >= n * 0x1_0000_0000_0000_0000,
        n == 0 ==> n * pow2((-e) as nat) == 0,
{
    lemma_power_grows(e);
    let p = pow2((-e) as nat) as int;
    assert(0 * p == 0) by (nonlinear_arith);
    if -64 < e < 0 {
        assert(0 <= n * p <= u32::MAX * 0x8000_0000_0000_0000) by (nonlinear_arith)
            requires
                0 <= n <= u32::MAX,
                0 <= p <= 0x8000_0000_0000_0000,
        ;
    } else if e <= -64 {
        assert(n * p >= n * 0x1_0000_0000_0000_0000) by (nonlinear_arith)
            requires
                0 <= n,
                p >= 0x1_0000_0000_0000_0000,
        ;
    }
}

/// A mantissa shifted up.
proof fn lemma_large(m: int, e: int)
    requires
        0 <= m <= END,
    ensures
        0 <= e < 64 ==> 0 <= m * pow2(e as nat) <= END * 0x8000_0000_0000_0000,
        e >= 64 && m >= START ==> m * pow2(e as nat) >= START * 0x1_0000_0000_0000_0000,
{
    lemma_power_grows(e);
    let p = pow2(e as nat) as int;
    if 0 <= e < 64 {
        assert(0 <= m * p <= END * 0x8000_0000_0000_0000) by (nonlinear_arith)
            requires
                0 <= m <= END,
                0 <= p <= 0x8000_0000_0000_0000,
        ;
    } else if e >= 64 && m >= START {
        assert(m * p >= START * 0x1_0000_0000_0000_0000) by (nonlinear_arith)
            requires
                m >= START,
                p >= 0x1_0000_0000_0000_0000,
        ;
    }
}

/// How large the exponent of the nearest double can be: `n / d` is less than 2 to the `53 + j - i`th.
pub proof fn lemma_exponent_below(n: nat, d: nat, e: int, i: nat, j: nat)
    requires
        d > 0,
        n * pow2(i) < END * (d * pow2(j)),
    ensures
        nearest(n, d, e).e <= (if e + j - i < LOWEST {
            LOWEST as int
        } else {
            e + j - i
        }) + 1,
{
    // Written with the same numerator and denominator as the bound.
    let a = n * pow2(i);
    let b = d * pow2(j);
    lemma_shifted(n, d, e, i);
    lemma_divided(a, d, e - i, j);
    lemma_nearest_below(a, b, e - i + j);
}

pub proof fn lemma_nearest_below(n: nat, d: nat, e: int)
    requires
        d > 0,
        n < END * d,
    ensures
        nearest(n, d, e).e <= (if e < LOWEST {
            LOWEST as int
        } else {
            e
        }) + 1,
    decreases steps(n, d, e),
{
    if too_fine(n, d, e) {
        lemma_nearest_below(n, 2 * d, e + 1);
    } else if too_coarse(n, d, e) {
        lemma_nearest_below(2 * n, d, e - 1);
    } else {
        lemma_rounded_bounds(n, d, 0, END as nat);
    }
}

/// How small it can be: `n / d` is no less than 2 to the `52 + j - i`th.
pub proof fn lemma_exponent_above(n: nat, d: nat, e: int, i: nat, j: nat)
    requires
        d > 0,
        n * pow2(i) >= START * (d * pow2(j)),
        e + j - i <= BEYOND,
    ensures
        nearest(n, d, e).e >= e + j - i,
{
    let a = n * pow2(i);
    let b = d * pow2(j);
    lemma_shifted(n, d, e, i);
    lemma_divided(a, d, e - i, j);
    lemma_nearest_above(a, b, e - i + j, e - i + j);
}

pub proof fn lemma_nearest_above(n: nat, d: nat, e: int, low: int)
    requires
        d > 0,
        n >= START * d,
        low <= e,
        low <= BEYOND,
    ensures
        nearest(n, d, e).e >= low,
    decreases steps(n, d, e),
{
    if too_fine(n, d, e) {
        if n >= END * d {
            lemma_nearest_above(n, 2 * d, e + 1, low);
        } else {
            lemma_nearest_wf(n, d, e);
        }
    } else {
        lemma_rounded_bounds(n, d, START as nat, END as nat);
    }
}

} // verus!
