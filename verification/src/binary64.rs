//! Double-precision arithmetic on integers.
//!
//! Scores, thresholds and scale factors are IEEE 754 doubles. [`Binary64`] carries one as its
//! bit pattern, which fixes its order. [`Magnitude`] computes with positive doubles: every
//! operation gives the double nearest to the exact result, ties to even. Its exponent is
//! unbounded, so a result outside the range of doubles is kept instead of becoming zero or
//! infinity; the users of this module round to bounded integers, where both give the same.

use vstd::prelude::*;

verus! {

/// 2 to the power `k`.
pub open spec fn exp2(k: nat) -> nat
    decreases k,
{
    if k == 0 {
        1
    } else {
        2 * exp2((k - 1) as nat)
    }
}

/// The number `m` times 2 to the power `e`.
pub struct Dyadic {
    pub m: nat,
    pub e: int,
}

/// `n / d` rounded to an integer, ties to even.
pub open spec fn round_half_even(n: nat, d: nat) -> nat {
    let q = n / d;
    let r = n % d;
    if 2 * r < d || (2 * r == d && q % 2 == 0) {
        q
    } else {
        q + 1
    }
}

/// The double nearest to `n / d`: scaled by two until the quotient has 53 bits before the
/// point, then rounded to an integer, ties to even.
pub open spec fn nearest(n: nat, d: nat) -> Dyadic
    decreases
            if n == 0 || d == 0 {
                0int
            } else if n < d * 0x10_0000_0000_0000 {
                d * 0x10_0000_0000_0000 - n
            } else if n >= d * 0x20_0000_0000_0000 {
                n - d
            } else {
                0
            },
{
    if n == 0 || d == 0 {
        Dyadic { m: 0, e: 0 }
    } else if n < d * 0x10_0000_0000_0000 {
        let half = nearest(2 * n, d);
        Dyadic { m: half.m, e: half.e - 1 }
    } else if n >= d * 0x20_0000_0000_0000 {
        let double = nearest(n, 2 * d);
        Dyadic { m: double.m, e: double.e + 1 }
    } else {
        Dyadic { m: round_half_even(n, d), e: 0 }
    }
}

/// Whether `r` is the largest integer whose square is at most `n`.
pub open spec fn is_floor_root(r: nat, n: nat) -> bool {
    r * r <= n < (r + 1) * (r + 1)
}

/// The largest integer whose square is at most `n`.
pub open spec fn floor_root(n: nat) -> nat {
    choose|r: nat| is_floor_root(r, n)
}

/// The double nearest to the square root of `n`, for `n` below 2 to the power 106.
pub open spec fn nearest_root(n: nat) -> Dyadic
    decreases
            if 0 < n < 0x1_0000_0000_0000_0000_0000_0000_00nat {
                0x1_0000_0000_0000_0000_0000_0000_00nat - n
            } else {
                0int
            },
{
    if n == 0 {
        Dyadic { m: 0, e: 0 }
    } else if n < 0x1_0000_0000_0000_0000_0000_0000_00nat {
        let half = nearest_root(4 * n);
        Dyadic { m: half.m, e: half.e - 1 }
    } else {
        let r = floor_root(n);
        Dyadic { m: if r * r + r < n { r + 1 } else { r }, e: 0 }
    }
}

impl Dyadic {
    /// The product with a whole number, as a double.
    pub open spec fn times(self, v: nat) -> Dyadic {
        let p = nearest(v * self.m, 1);
        Dyadic { m: p.m, e: p.e + self.e }
    }

    /// The product of two doubles, as a double.
    pub open spec fn mul(self, other: Dyadic) -> Dyadic {
        let p = nearest(self.m * other.m, 1);
        Dyadic { m: p.m, e: p.e + self.e + other.e }
    }

    /// The quotient of two doubles, as a double.
    pub open spec fn over(self, other: Dyadic) -> Dyadic {
        let q = nearest(self.m, other.m);
        Dyadic { m: q.m, e: q.e + self.e - other.e }
    }

    /// The square root, as a double.
    pub open spec fn root(self) -> Dyadic {
        if self.e % 2 == 0 {
            let r = nearest_root(self.m);
            Dyadic { m: r.m, e: r.e + self.e / 2 }
        } else {
            let r = nearest_root(2 * self.m);
            Dyadic { m: r.m, e: r.e + (self.e - 1) / 2 }
        }
    }

    /// Whether the number is less than another.
    pub open spec fn less(self, other: Dyadic) -> bool {
        if self.e >= other.e {
            self.m * exp2((self.e - other.e) as nat) < other.m
        } else {
            self.m < other.m * exp2((other.e - self.e) as nat)
        }
    }

    /// The nearest integer, halves away from zero.
    pub open spec fn rounded(self) -> nat {
        if self.e >= 0 {
            self.m * exp2(self.e as nat)
        } else {
            (self.m + exp2((-self.e - 1) as nat)) / exp2((-self.e) as nat)
        }
    }

    /// The nearest integer, ties to even.
    pub open spec fn rounded_even(self) -> nat {
        if self.e >= 0 {
            self.m * exp2(self.e as nat)
        } else {
            round_half_even(self.m, exp2((-self.e) as nat))
        }
    }
}

/// The number one.
pub open spec fn one() -> Dyadic {
    Dyadic { m: 1, e: 0 }
}

pub proof fn lemma_exp2_pos(k: nat)
    ensures
        exp2(k) > 0,
    decreases k,
{
    if k > 0 {
        lemma_exp2_pos((k - 1) as nat);
    }
}

pub proof fn lemma_exp2_adds(a: nat, b: nat)
    ensures
        exp2(a + b) == exp2(a) * exp2(b),
    decreases a,
{
    if a > 0 {
        lemma_exp2_adds((a - 1) as nat, b);
        assert(2 * (exp2((a - 1) as nat) * exp2(b)) == (2 * exp2((a - 1) as nat)) * exp2(b))
            by (nonlinear_arith);
        assert(exp2(a + b) == 2 * exp2((a + b - 1) as nat));
        assert((a - 1) as nat + b == (a + b - 1) as nat);
    } else {
        assert(1 * exp2(b) == exp2(b));
    }
}

pub proof fn lemma_exp2_grows(a: nat, b: nat)
    requires
        a <= b,
    ensures
        exp2(a) <= exp2(b),
    decreases b,
{
    if a < b {
        lemma_exp2_grows(a, (b - 1) as nat);
    }
}

pub proof fn lemma_exp2_constants()
    ensures
        exp2(0) == 1,
        exp2(1) == 2,
        exp2(2) == 4,
        exp2(52) == 0x10_0000_0000_0000,
        exp2(53) == 0x20_0000_0000_0000,
        exp2(54) == 0x40_0000_0000_0000,
        exp2(64) == 0x1_0000_0000_0000_0000,
        exp2(127) == 0x8000_0000_0000_0000_0000_0000_0000_0000,
{
    assert(exp2(10) == 1024) by {
        reveal_with_fuel(exp2, 11);
    }
    assert(exp2(1) == 2 && exp2(2) == 4) by {
        reveal_with_fuel(exp2, 3);
    }
    lemma_exp2_known(10, 10, 1024, 1024);
    lemma_exp2_known(20, 20, 0x10_0000, 0x10_0000);
    lemma_exp2_known(10, 2, 1024, 4);
    lemma_exp2_known(40, 12, 0x100_0000_0000, 0x1000);
    lemma_exp2_known(52, 1, 0x10_0000_0000_0000, 2);
    lemma_exp2_known(52, 2, 0x10_0000_0000_0000, 4);
    lemma_exp2_known(54, 10, 0x40_0000_0000_0000, 1024);
    lemma_exp2_known(64, 52, 0x1_0000_0000_0000_0000, 0x10_0000_0000_0000);
    lemma_exp2_known(116, 10, 0x10_0000_0000_0000_0000_0000_0000_0000, 1024);
    lemma_exp2_known(126, 1, 0x4000_0000_0000_0000_0000_0000_0000_0000, 2);
}

/// The product of two known powers.
proof fn lemma_exp2_known(a: nat, b: nat, x: nat, y: nat)
    requires
        exp2(a) == x,
        exp2(b) == y,
    ensures
        exp2(a + b) == x * y,
{
    lemma_exp2_adds(a, b);
}

/// `round_half_even` computed.
fn round_ratio(n: u128, d: u128) -> (r: u128)
    requires
        0 < d < 0x8000_0000_0000_0000_0000_0000_0000_0000,
        n < 0x8000_0000_0000_0000_0000_0000_0000_0000,
    ensures
        r == round_half_even(n as nat, d as nat),
{
    let q: u128 = n / d;
    let r: u128 = n % d;
    if 2 * r < d || (2 * r == d && q % 2 == 0) {
        q
    } else {
        proof {
            assert(q <= n) by (nonlinear_arith)
                requires
                    q == n / d,
                    d > 0,
            ;
        }
        q + 1
    }
}

/// A double that is zero or positive: `m` times 2 to the power `e`.
#[derive(Clone, Copy, Debug)]
pub struct Magnitude {
    pub m: u64,
    pub e: i64,
}

impl View for Magnitude {
    type V = Dyadic;

    open spec fn view(&self) -> Dyadic {
        Dyadic { m: self.m as nat, e: self.e as int }
    }
}

impl Magnitude {
    /// The double nearest to `n / d`.
    pub fn ratio(n: u128, d: u128) -> (r: Magnitude)
        requires
            0 < d < 0x400_0000_0000_0000_0000,
            n < 0x8000_0000_0000_0000_0000_0000_0000_0000,
        ensures
            r@ == nearest(n as nat, d as nat),
            r.m <= 0x20_0000_0000_0000,
            -128 <= r.e <= 128,
            n > 0 ==> r.m >= 0x10_0000_0000_0000,
    {
        if n == 0 {
            return Magnitude { m: 0, e: 0 };
        }
        let mut a: u128 = n;
        let mut b: u128 = d;
        let mut e: i64 = 0;
        proof {
            lemma_exp2_constants();
        }
        while a < b * 0x10_0000_0000_0000
            invariant
                0 < b < 0x400_0000_0000_0000_0000,
                b == d,
                0 < a < 0x8000_0000_0000_0000_0000_0000_0000_0000,
                -128 <= e <= 0,
                a >= exp2((-e) as nat),
                exp2(127) == 0x8000_0000_0000_0000_0000_0000_0000_0000,
                nearest(n as nat, d as nat) == (Dyadic {
                    m: nearest(a as nat, b as nat).m,
                    e: nearest(a as nat, b as nat).e + e,
                }),
            decreases
                    (if a < b * 0x10_0000_0000_0000 {
                        b * 0x10_0000_0000_0000 - a
                    } else {
                        0
                    }),
        {
            proof {
                if -e >= 127 {
                    lemma_exp2_grows(127, (-e) as nat);
                }
                assert(exp2((-(e - 1)) as nat) == 2 * exp2((-e) as nat));
            }
            a = a * 2;
            e = e - 1;
        }
        while a >= b * 0x20_0000_0000_0000
            invariant
                0 < b < 0x800_0000_0000_0000_0000,
                b * 0x10_0000_0000_0000 <= a < 0x8000_0000_0000_0000_0000_0000_0000_0000,
                -128 <= e <= 128,
                e > 0 ==> b >= exp2(e as nat),
                exp2(1) == 2,
                exp2(127) == 0x8000_0000_0000_0000_0000_0000_0000_0000,
                nearest(n as nat, d as nat) == (Dyadic {
                    m: nearest(a as nat, b as nat).m,
                    e: nearest(a as nat, b as nat).e + e,
                }),
            decreases a - b,
        {
            proof {
                if e >= 127 {
                    lemma_exp2_grows(127, e as nat);
                }
                if e >= 0 {
                    assert(exp2((e + 1) as nat) == 2 * exp2(e as nat));
                }
            }
            b = b * 2;
            e = e + 1;
        }
        let m: u128 = round_ratio(a, b);
        proof {
            assert(0x10_0000_0000_0000 <= a / b < 0x20_0000_0000_0000) by (nonlinear_arith)
                requires
                    b > 0,
                    b * 0x10_0000_0000_0000 <= a < b * 0x20_0000_0000_0000,
            ;
        }
        Magnitude { m: m as u64, e }
    }

    /// Whether the significand has at most 53 bits, or is the next power of two, and the
    /// exponent leaves room for arithmetic.
    pub open spec fn bounded(self) -> bool {
        self.m <= 0x20_0000_0000_0000 && -0x1000_0000_0000_0000 <= self.e <= 0x1000_0000_0000_0000
    }

    /// The product with a whole number.
    pub fn times(self, v: u64) -> (r: Magnitude)
        requires
            self.bounded(),
        ensures
            r@ == self@.times(v as nat),
            r.m <= 0x20_0000_0000_0000,
            self.e - 128 <= r.e <= self.e + 128,
    {
        proof {
            assert(v * self.m <= 0xffff_ffff_ffff_ffff * 0x20_0000_0000_0000) by (nonlinear_arith)
                requires
                    v <= 0xffff_ffff_ffff_ffff,
                    self.m <= 0x20_0000_0000_0000,
            ;
        }
        let p: Magnitude = Magnitude::ratio(v as u128 * self.m as u128, 1);
        Magnitude { m: p.m, e: p.e + self.e }
    }

    /// The product of two doubles.
    pub fn mul(self, other: Magnitude) -> (r: Magnitude)
        requires
            self.bounded(),
            other.bounded(),
        ensures
            r@ == self@.mul(other@),
            r.m <= 0x20_0000_0000_0000,
            self.e + other.e - 128 <= r.e <= self.e + other.e + 128,
    {
        proof {
            assert(self.m * other.m <= 0x20_0000_0000_0000 * 0x20_0000_0000_0000)
                by (nonlinear_arith)
                requires
                    self.m <= 0x20_0000_0000_0000,
                    other.m <= 0x20_0000_0000_0000,
            ;
        }
        let p: Magnitude = Magnitude::ratio(self.m as u128 * other.m as u128, 1);
        Magnitude { m: p.m, e: p.e + self.e + other.e }
    }

    /// The quotient of two doubles.
    pub fn over(self, other: Magnitude) -> (r: Magnitude)
        requires
            self.bounded(),
            other.bounded(),
            other.m > 0,
        ensures
            r@ == self@.over(other@),
            r.m <= 0x20_0000_0000_0000,
            self.e - other.e - 128 <= r.e <= self.e - other.e + 128,
    {
        let q: Magnitude = Magnitude::ratio(self.m as u128, other.m as u128);
        Magnitude { m: q.m, e: q.e + self.e - other.e }
    }

    /// The square root.
    pub fn root(self) -> (r: Magnitude)
        requires
            self.bounded(),
        ensures
            r@ == self@.root(),
            r.m <= 0x20_0000_0000_0000,
            self.e - 258 <= 2 * r.e <= self.e + 258,
    {
        if self.e % 2 == 0 {
            let r: Magnitude = integer_root(self.m as u128);
            Magnitude { m: r.m, e: r.e + self.e / 2 }
        } else {
            let r: Magnitude = integer_root(2 * self.m as u128);
            Magnitude { m: r.m, e: r.e + (self.e - 1) / 2 }
        }
    }

    /// Whether the number is less than another.
    pub fn less(self, other: Magnitude) -> (r: bool)
        requires
            self.bounded(),
            other.bounded(),
        ensures
            r == self@.less(other@),
    {
        if self.e >= other.e {
            let k: i64 = self.e - other.e;
            proof {
                lemma_scaled_comparison(self.m as nat, other.m as nat, k as nat);
            }
            if self.m == 0 {
                other.m > 0
            } else if k >= 54 {
                false
            } else {
                self.m as u128 * power(k as u64) < other.m as u128
            }
        } else {
            let k: i64 = other.e - self.e;
            proof {
                lemma_scaled_comparison(other.m as nat, self.m as nat, k as nat);
            }
            if other.m == 0 {
                false
            } else if k >= 54 {
                true
            } else {
                (self.m as u128) < other.m as u128 * power(k as u64)
            }
        }
    }

    /// The nearest integer, halves away from zero, at most `u64::MAX`.
    pub fn rounded(self) -> (r: u64)
        requires
            self.bounded(),
        ensures
            self@.rounded() <= u64::MAX ==> r == self@.rounded(),
            self@.rounded() > u64::MAX ==> r == u64::MAX,
    {
        if self.e >= 0 {
            proof {
                lemma_exp2_constants();
                lemma_exp2_pos(self.e as nat);
                lemma_mul_ordering(self.m as nat, exp2(self.e as nat));
                if self.e >= 64 {
                    lemma_exp2_grows(64, self.e as nat);
                } else {
                    lemma_exp2_grows(self.e as nat, 64);
                }
            }
            if self.m == 0 {
                0
            } else if self.e >= 64 {
                u64::MAX
            } else {
                let p: u128 = power(self.e as u64);
                proof {
                    assert(self.m * p <= 0x20_0000_0000_0000 * 0x1_0000_0000_0000_0000)
                        by (nonlinear_arith)
                        requires
                            self.m <= 0x20_0000_0000_0000,
                            p <= 0x1_0000_0000_0000_0000,
                    ;
                }
                let n: u128 = self.m as u128 * p;
                if n > u64::MAX as u128 {
                    u64::MAX
                } else {
                    n as u64
                }
            }
        } else {
            let k: i64 = -self.e;
            proof {
                lemma_exp2_constants();
                lemma_exp2_pos(k as nat);
                assert(exp2(k as nat) == 2 * exp2((k - 1) as nat));
                if k > 54 {
                    lemma_exp2_grows(54, (k - 1) as nat);
                    lemma_small_quotient(self.m as nat + exp2((k - 1) as nat), exp2(k as nat));
                } else {
                    lemma_exp2_grows(k as nat, 64);
                }
            }
            if k > 54 {
                0
            } else {
                let half: u128 = power((k - 1) as u64);
                let r: u128 = (self.m as u128 + half) / (2 * half);
                proof {
                    assert(r <= self.m + half) by (nonlinear_arith)
                        requires
                            r == (self.m + half) / (2 * half),
                            half > 0,
                    ;
                    lemma_exp2_grows((k - 1) as nat, 54);
                }
                r as u64
            }
        }
    }
}

impl Magnitude {
    /// The nearest integer, ties to even, of a number that is not too large.
    pub fn rounded_even(self) -> (r: u64)
        requires
            self.bounded(),
            self.e <= 8,
        ensures
            r == self@.rounded_even(),
    {
        if self.e >= 0 {
            proof {
                lemma_exp2_constants();
                lemma_exp2_grows(self.e as nat, 8);
                assert(exp2(8) == 256) by {
                    reveal_with_fuel(exp2, 9);
                }
            }
            let p: u128 = power(self.e as u64);
            proof {
                assert(self.m * p <= 0x20_0000_0000_0000 * 256) by (nonlinear_arith)
                    requires
                        self.m <= 0x20_0000_0000_0000,
                        p <= 256,
                ;
            }
            (self.m as u128 * p) as u64
        } else {
            let k: i64 = -self.e;
            proof {
                lemma_exp2_constants();
                lemma_exp2_pos(k as nat);
                if k > 54 {
                    lemma_exp2_grows(54, (k - 1) as nat);
                    assert(exp2(k as nat) == 2 * exp2((k - 1) as nat));
                    lemma_small_quotient(self.m as nat, exp2(k as nat));
                    vstd::arithmetic::div_mod::lemma_small_mod(self.m as nat, exp2(k as nat));
                } else {
                    lemma_exp2_grows(k as nat, 54);
                }
            }
            if k > 54 {
                return 0;
            }
            let d: u128 = power(k as u64);
            let q: u128 = self.m as u128 / d;
            let r: u128 = self.m as u128 % d;
            proof {
                assert(q <= self.m) by (nonlinear_arith)
                    requires
                        q == self.m as u128 / d,
                        d >= 1,
                ;
            }
            if 2 * r < d || (2 * r == d && q % 2 == 0) {
                q as u64
            } else {
                (q + 1) as u64
            }
        }
    }
}

proof fn lemma_mul_ordering(a: nat, b: nat)
    by (nonlinear_arith)
    ensures
        a == 0 ==> a * b == 0,
        a > 0 ==> a * b >= b,
{
}

proof fn lemma_small_quotient(a: nat, b: nat)
    by (nonlinear_arith)
    requires
        a < b,
    ensures
        a / b == 0,
{
}

/// `exp2` computed.
fn power(k: u64) -> (r: u128)
    requires
        k <= 64,
    ensures
        r == exp2(k as nat),
        0 < r <= 0x1_0000_0000_0000_0000,
{
    let mut r: u128 = 1;
    let mut i: u64 = 0;
    proof {
        lemma_exp2_constants();
    }
    while i < k
        invariant
            i <= k <= 64,
            r == exp2(i as nat),
            exp2(64) == 0x1_0000_0000_0000_0000,
        decreases k - i,
    {
        proof {
            lemma_exp2_grows((i + 1) as nat, 64);
            assert(exp2((i + 1) as nat) == 2 * exp2(i as nat));
        }
        r = r * 2;
        i = i + 1;
    }
    proof {
        lemma_exp2_grows(k as nat, 64);
        lemma_exp2_pos(k as nat);
    }
    r
}

proof fn lemma_scaled_comparison(a: nat, b: nat, k: nat)
    requires
        b <= 0x20_0000_0000_0000,
        a <= 0x20_0000_0000_0000,
    ensures
        a == 0 ==> a * exp2(k) == 0,
        a > 0 && k >= 54 ==> b < a * exp2(k),
        k < 54 ==> a * exp2(k) <= 0x20_0000_0000_0000 * 0x40_0000_0000_0000,
{
    lemma_exp2_constants();
    if k >= 54 {
        lemma_exp2_grows(54, k);
        assert(a > 0 ==> a * exp2(k) >= exp2(k)) by (nonlinear_arith)
            requires
                exp2(k) >= 0,
        ;
    } else {
        lemma_exp2_grows(k, 54);
        assert(a * exp2(k) <= 0x20_0000_0000_0000 * 0x40_0000_0000_0000) by (nonlinear_arith)
            requires
                a <= 0x20_0000_0000_0000,
                exp2(k) <= 0x40_0000_0000_0000,
        ;
    }
    assert(a == 0 ==> a * exp2(k) == 0) by (nonlinear_arith);
}

proof fn lemma_floor_root_unique(r: nat, s: nat, n: nat)
    requires
        is_floor_root(r, n),
        is_floor_root(s, n),
    ensures
        r == s,
{
    if r < s {
        assert((r + 1) * (r + 1) <= s * s) by (nonlinear_arith)
            requires
                r + 1 <= s,
        ;
    }
    if s < r {
        assert((s + 1) * (s + 1) <= r * r) by (nonlinear_arith)
            requires
                s + 1 <= r,
        ;
    }
}

/// `floor_root` computed by bisection.
fn root_floor(n: u128) -> (r: u128)
    requires
        n < 0x4_0000_0000_0000_0000_0000_0000_00,
    ensures
        r == floor_root(n as nat),
        is_floor_root(r as nat, n as nat),
        r < 0x20_0000_0000_0000,
{
    let mut lo: u128 = 0;
    let mut hi: u128 = 0x20_0000_0000_0000;
    proof {
        assert(0x20_0000_0000_0000nat * 0x20_0000_0000_0000nat
            == 0x4_0000_0000_0000_0000_0000_0000_00nat);
    }
    while hi - lo > 1
        invariant
            lo < hi <= 0x20_0000_0000_0000,
            lo * lo <= n < hi * hi,
        decreases hi - lo,
    {
        let mid: u128 = lo + (hi - lo) / 2;
        proof {
            assert(mid * mid <= 0x20_0000_0000_0000 * 0x20_0000_0000_0000) by (nonlinear_arith)
                requires
                    0 <= mid <= 0x20_0000_0000_0000,
            ;
        }
        if mid * mid <= n {
            lo = mid;
        } else {
            hi = mid;
        }
    }
    proof {
        assert(hi == lo + 1);
        assert(is_floor_root(lo as nat, n as nat));
        lemma_floor_root_unique(lo as nat, floor_root(n as nat), n as nat);
    }
    lo
}

/// `nearest_root` computed.
fn integer_root(n: u128) -> (r: Magnitude)
    requires
        n <= 0x40_0000_0000_0000,
    ensures
        r@ == nearest_root(n as nat),
        r.m <= 0x20_0000_0000_0000,
        -128 <= r.e <= 0,
{
    if n == 0 {
        return Magnitude { m: 0, e: 0 };
    }
    let mut a: u128 = n;
    let mut e: i64 = 0;
    proof {
        lemma_exp2_constants();
    }
    while a < 0x1_0000_0000_0000_0000_0000_0000_00
        invariant
            0 < a < 0x4_0000_0000_0000_0000_0000_0000_00,
            -127 <= e <= 0,
            a >= exp2((-e) as nat),
            exp2(127) == 0x8000_0000_0000_0000_0000_0000_0000_0000,
            nearest_root(n as nat) == (Dyadic {
                m: nearest_root(a as nat).m,
                e: nearest_root(a as nat).e + e,
            }),
        decreases 0x4_0000_0000_0000_0000_0000_0000_00 - a,
    {
        proof {
            if -e >= 127 {
                lemma_exp2_grows(127, (-e) as nat);
            }
            assert(exp2((-(e - 1)) as nat) == 2 * exp2((-e) as nat));
        }
        a = a * 4;
        e = e - 1;
    }
    let r: u128 = root_floor(a);
    proof {
        assert(r * r + r <= 0x20_0000_0000_0000 * 0x20_0000_0000_0000 + r) by (nonlinear_arith)
            requires
                0 <= r <= 0x20_0000_0000_0000,
        ;
    }
    let m: u128 = if r * r + r < a {
        r + 1
    } else {
        r
    };
    Magnitude { m: m as u64, e }
}

/// A double, as its bit pattern: the sign in the highest bit, then eleven bits of exponent,
/// then the fraction.
#[derive(Clone, Copy, Debug, PartialEq, Eq, Structural)]
pub struct Binary64 {
    pub bits: u64,
}

impl Binary64 {
    /// The bits below the sign.
    pub open spec fn unsigned_bits(self) -> nat {
        (self.bits % 0x8000_0000_0000_0000) as nat
    }

    /// Whether the sign bit is set.
    pub open spec fn negative(self) -> bool {
        self.bits >= 0x8000_0000_0000_0000
    }

    /// Whether this is not a number: all exponent bits set, and some fraction bit.
    pub open spec fn not_a_number(self) -> bool {
        self.unsigned_bits() > 0x7ff0_0000_0000_0000
    }

    /// Whether this is a number other than an infinity.
    pub open spec fn finite(self) -> bool {
        self.unsigned_bits() < 0x7ff0_0000_0000_0000
    }

    /// The position among all doubles that are numbers; both zeros share position 0.
    pub open spec fn position(self) -> int {
        if self.negative() {
            -self.unsigned_bits()
        } else {
            self.unsigned_bits() as int
        }
    }

    /// IEEE 754 `>=`: false when either side is not a number.
    pub open spec fn at_least_spec(self, other: Binary64) -> bool {
        !self.not_a_number() && !other.not_a_number() && self.position() >= other.position()
    }

    /// The smaller of two doubles; of one that is not a number, the other one.
    pub open spec fn smaller(self, other: Binary64) -> Binary64 {
        if self.not_a_number() || other.position() < self.position() && !other.not_a_number() {
            other
        } else {
            self
        }
    }

    /// The larger of two doubles; of one that is not a number, the other one.
    pub open spec fn larger(self, other: Binary64) -> Binary64 {
        if self.not_a_number() || other.position() > self.position() && !other.not_a_number() {
            other
        } else {
            self
        }
    }

    /// The absolute value of a finite double.
    pub open spec fn absolute(self) -> Dyadic {
        let exponent = self.unsigned_bits() / 0x10_0000_0000_0000;
        let fraction = self.unsigned_bits() % 0x10_0000_0000_0000;
        if exponent == 0 {
            Dyadic { m: fraction, e: -1074 }
        } else {
            Dyadic { m: fraction + 0x10_0000_0000_0000, e: exponent - 1075 }
        }
    }

    /// The double with these bits.
    pub fn from_bits(bits: u64) -> (r: Binary64)
        ensures
            r.bits == bits,
    {
        Binary64 { bits }
    }

    /// The bits of the double.
    pub fn to_bits(self) -> (r: u64)
        ensures
            r == self.bits,
    {
        self.bits
    }

    /// Whether this is not a number.
    pub fn is_nan(self) -> (r: bool)
        ensures
            r == self.not_a_number(),
    {
        self.bits % 0x8000_0000_0000_0000 > 0x7ff0_0000_0000_0000
    }

    /// IEEE 754 `>=`.
    pub fn at_least(self, other: Binary64) -> (r: bool)
        ensures
            r == self.at_least_spec(other),
    {
        if self.is_nan() || other.is_nan() {
            return false;
        }
        let a: u64 = self.bits % 0x8000_0000_0000_0000;
        let b: u64 = other.bits % 0x8000_0000_0000_0000;
        if self.bits >= 0x8000_0000_0000_0000 {
            if other.bits >= 0x8000_0000_0000_0000 {
                a <= b
            } else {
                a == 0 && b == 0
            }
        } else if other.bits >= 0x8000_0000_0000_0000 {
            true
        } else {
            a >= b
        }
    }

    /// The smaller of two doubles; of one that is not a number, the other one.
    pub fn min(self, other: Binary64) -> (r: Binary64)
        ensures
            r == self.smaller(other),
    {
        if self.is_nan() || (!other.is_nan() && !other.at_least(self)) {
            other
        } else {
            self
        }
    }

    /// The larger of two doubles; of one that is not a number, the other one.
    pub fn max(self, other: Binary64) -> (r: Binary64)
        ensures
            r == self.larger(other),
    {
        if self.is_nan() || (!other.is_nan() && !self.at_least(other)) {
            other
        } else {
            self
        }
    }

    /// The absolute value, ready for arithmetic.
    pub fn magnitude(self) -> (r: Magnitude)
        requires
            self.finite(),
        ensures
            r@ == self.absolute(),
            r.m < 0x20_0000_0000_0000,
            -1074 <= r.e <= 971,
    {
        let a: u64 = self.bits % 0x8000_0000_0000_0000;
        let exponent: u64 = a / 0x10_0000_0000_0000;
        let fraction: u64 = a % 0x10_0000_0000_0000;
        if exponent == 0 {
            Magnitude { m: fraction, e: -1074 }
        } else {
            Magnitude { m: fraction + 0x10_0000_0000_0000, e: exponent as i64 - 1075 }
        }
    }
}

/// The exponent of a quotient below 2 to the power 53 + k is at most k.
pub proof fn lemma_nearest_exponent_at_most(n: nat, d: nat, k: nat)
    requires
        n > 0,
        d > 0,
        n < (d * 0x20_0000_0000_0000) * exp2(k),
    ensures
        nearest(n, d).e <= k,
    decreases
            if n < d * 0x10_0000_0000_0000 {
                d * 0x10_0000_0000_0000 - n
            } else if n >= d * 0x20_0000_0000_0000 {
                n - d
            } else {
                0
            },
{
    if n < d * 0x10_0000_0000_0000 {
        assert(exp2(0) == 1);
        lemma_nearest_exponent_at_most(2 * n, d, 0);
    } else if n >= d * 0x20_0000_0000_0000 {
        if k == 0 {
            assert(exp2(0) == 1);
        } else {
            let h = exp2((k - 1) as nat);
            assert(exp2(k) == 2 * h);
            assert((d * 0x20_0000_0000_0000) * (2 * h) == ((2 * d) * 0x20_0000_0000_0000) * h)
                by (nonlinear_arith);
            lemma_nearest_exponent_at_most(n, 2 * d, (k - 1) as nat);
        }
    }
}

/// The exponent of a quotient below 2 to the power 53 - j is at most -j.
pub proof fn lemma_nearest_exponent_below(n: nat, d: nat, j: nat)
    requires
        n > 0,
        d > 0,
        n * exp2(j) < d * 0x20_0000_0000_0000,
    ensures
        nearest(n, d).e <= -j,
    decreases j,
{
    if j == 0 {
        assert(exp2(0) == 1);
        assert(n * 1 == n && (d * 0x20_0000_0000_0000) * 1 == d * 0x20_0000_0000_0000);
        lemma_nearest_exponent_at_most(n, d, 0);
    } else {
        let h = exp2((j - 1) as nat);
        assert(exp2(j) == 2 * h);
        lemma_exp2_pos((j - 1) as nat);
        assert(n * (2 * h) == (2 * n) * h) by (nonlinear_arith);
        assert(2 * n <= (2 * n) * h) by (nonlinear_arith)
            requires
                h >= 1,
        ;
        lemma_nearest_exponent_below(2 * n, d, (j - 1) as nat);
    }
}

/// The rounding error of a quotient with at least 52 bits: half of the last place, which is
/// at most the quotient over 2 to the power 52.
pub proof fn lemma_nearest_error(n: nat, d: nat)
    requires
        d > 0,
        n >= d * 0x10_0000_0000_0000,
    ensures
        nearest(n, d).e >= 0,
        2 * (nearest(n, d).m * exp2(nearest(n, d).e as nat)) * d <= 2 * n + exp2(
            nearest(n, d).e as nat,
        ) * d,
        2 * n <= 2 * (nearest(n, d).m * exp2(nearest(n, d).e as nat)) * d + exp2(
            nearest(n, d).e as nat,
        ) * d,
        exp2(nearest(n, d).e as nat) * d * 0x10_0000_0000_0000 <= n,
    decreases n - d,
{
    if n >= d * 0x20_0000_0000_0000 {
        lemma_nearest_error(n, 2 * d);
        let r = nearest(n, 2 * d);
        let x = exp2(r.e as nat);
        assert(exp2((r.e + 1) as nat) == 2 * x);
        assert(2 * (r.m * (2 * x)) * d == 2 * (r.m * x) * (2 * d)) by (nonlinear_arith);
        assert(x * (2 * d) == (2 * x) * d) by (nonlinear_arith);
        assert(x * (2 * d) * 0x10_0000_0000_0000 == (2 * x) * d * 0x10_0000_0000_0000)
            by (nonlinear_arith);
    } else {
        let q = n / d;
        let r = n % d;
        assert(n == d * q + r && r < d) by (nonlinear_arith)
            requires
                d > 0,
                q == n / d,
                r == n % d,
        ;
        let m = round_half_even(n, d);
        assert(exp2(0) == 1);
        assert(2 * (m * 1) * d <= 2 * n + 1 * d && 2 * n <= 2 * (m * 1) * d + 1 * d)
            by (nonlinear_arith)
            requires
                n == d * q + r,
                (m == q && 2 * r <= d) || (m == q + 1 && 2 * r >= d),
                d > 0,
                0 <= r < d,
        ;
    }
}

/// A double below `v + 1/2` rounds to at most `v`.
pub proof fn lemma_rounded_at_most(f: Dyadic, k: nat, v: nat)
    requires
        f.e >= 0,
        k >= 1,
        2 * (f.m * exp2(f.e as nat)) < (2 * v + 1) * exp2(k),
    ensures
        (Dyadic { m: f.m, e: f.e - k }).rounded() <= v,
{
    let g = Dyadic { m: f.m, e: f.e - k };
    let m = f.m;
    let x = exp2(f.e as nat);
    if f.e >= k {
        let y = exp2((f.e - k) as nat);
        let z = exp2(k);
        lemma_exp2_adds((f.e - k) as nat, k);
        assert(x == y * z);
        assert(m * y <= v) by (nonlinear_arith)
            requires
                2 * (m * (y * z)) < (2 * v + 1) * z,
                z >= 0,
        ;
    } else {
        let j = (k - f.e) as nat;
        let y = exp2(j);
        let h = exp2((j - 1) as nat);
        lemma_exp2_adds(f.e as nat, j);
        assert(exp2(k) == x * y);
        assert(y == 2 * h);
        lemma_exp2_pos((j - 1) as nat);
        assert(2 * m < (2 * v + 1) * y) by (nonlinear_arith)
            requires
                2 * (m * x) < (2 * v + 1) * (x * y),
                x >= 0,
        ;
        assert((m + h) / y <= v) by (nonlinear_arith)
            requires
                2 * m < (2 * v + 1) * y,
                y == 2 * h,
                h > 0,
        ;
    }
}

/// A double of at least `v - 1/2` rounds to at least `v`.
pub proof fn lemma_rounded_at_least(f: Dyadic, k: nat, v: nat)
    requires
        f.e >= 0,
        2 * (f.m * exp2(f.e as nat)) >= (2 * v - 1) * exp2(k),
    ensures
        (Dyadic { m: f.m, e: f.e - k }).rounded() >= v,
{
    let m = f.m;
    let x = exp2(f.e as nat);
    if f.e >= k {
        let y = exp2((f.e - k) as nat);
        let z = exp2(k);
        lemma_exp2_adds((f.e - k) as nat, k);
        lemma_exp2_pos(k);
        assert(x == y * z);
        assert(m * y >= v) by (nonlinear_arith)
            requires
                2 * (m * (y * z)) >= (2 * v - 1) * z,
                z > 0,
        {
            assert(2 * (m * (y * z)) == (2 * (m * y)) * z);
            assert((2 * (m * y) - (2 * v - 1)) * z >= 0);
        }
    } else {
        let j = (k - f.e) as nat;
        let y = exp2(j);
        let h = exp2((j - 1) as nat);
        lemma_exp2_adds(f.e as nat, j);
        assert(exp2(k) == x * y);
        assert(y == 2 * h);
        lemma_exp2_pos((j - 1) as nat);
        lemma_exp2_pos(f.e as nat);
        assert(2 * m >= (2 * v - 1) * y) by (nonlinear_arith)
            requires
                2 * (m * x) >= (2 * v - 1) * (x * y),
                x > 0,
        {
            assert(2 * (m * x) == (2 * m) * x);
            assert((2 * v - 1) * (x * y) == ((2 * v - 1) * y) * x);
        }
        assert(m + h >= v * y) by (nonlinear_arith)
            requires
                2 * m >= (2 * v - 1) * y,
                y == 2 * h,
        ;
        assert((m + h) / y >= v) by (nonlinear_arith)
            requires
                m + h >= v * y,
                y > 0,
        ;
    }
}

/// Two numbers with negative exponents compare as their significands do over a common power of
/// two.
pub proof fn lemma_less_cross(a: Dyadic, b: Dyadic)
    requires
        a.e <= 0,
        b.e <= 0,
    ensures
        a.less(b) <==> a.m * exp2((-b.e) as nat) < b.m * exp2((-a.e) as nat),
{
    let p = exp2((-a.e) as nat);
    let q = exp2((-b.e) as nat);
    lemma_exp2_pos((-a.e) as nat);
    lemma_exp2_pos((-b.e) as nat);
    if a.e >= b.e {
        let x = exp2((a.e - b.e) as nat);
        lemma_exp2_adds((a.e - b.e) as nat, (-a.e) as nat);
        assert((a.e - b.e) as nat + (-a.e) as nat == (-b.e) as nat);
        assert(a.m * x < b.m <==> a.m * (x * p) < b.m * p) by (nonlinear_arith)
            requires
                p > 0,
        {
            assert(a.m * (x * p) == (a.m * x) * p);
        }
    } else {
        let x = exp2((b.e - a.e) as nat);
        lemma_exp2_adds((b.e - a.e) as nat, (-b.e) as nat);
        assert((b.e - a.e) as nat + (-b.e) as nat == (-a.e) as nat);
        assert(a.m < b.m * x <==> a.m * q < b.m * (x * q)) by (nonlinear_arith)
            requires
                q > 0,
        {
            assert(b.m * (x * q) == (b.m * x) * q);
        }
    }
}

/// A nonzero double has a significand of 53 bits, or the next power of two.
pub proof fn lemma_nearest_significand(n: nat, d: nat)
    ensures
        n == 0 || d == 0 ==> nearest(n, d).m == 0,
        n > 0 && d > 0 ==> 0x10_0000_0000_0000 <= nearest(n, d).m <= 0x20_0000_0000_0000,
    decreases
            if n == 0 || d == 0 {
                0int
            } else if n < d * 0x10_0000_0000_0000 {
                d * 0x10_0000_0000_0000 - n
            } else if n >= d * 0x20_0000_0000_0000 {
                n - d
            } else {
                0
            },
{
    if n == 0 || d == 0 {
    } else if n < d * 0x10_0000_0000_0000 {
        lemma_nearest_significand(2 * n, d);
    } else if n >= d * 0x20_0000_0000_0000 {
        lemma_nearest_significand(n, 2 * d);
    } else {
        assert(0x10_0000_0000_0000 <= n / d < 0x20_0000_0000_0000) by (nonlinear_arith)
            requires
                d > 0,
                d * 0x10_0000_0000_0000 <= n < d * 0x20_0000_0000_0000,
        ;
    }
}

proof fn lemma_floor_root_exists(n: nat)
    ensures
        is_floor_root(floor_root(n), n),
    decreases n,
{
    if n == 0 {
        assert(0nat * 0nat <= 0nat < (0nat + 1) * (0nat + 1)) by (nonlinear_arith);
        assert(is_floor_root(0, 0));
    } else {
        lemma_floor_root_exists((n - 1) as nat);
        let r = floor_root((n - 1) as nat);
        if (r + 1) * (r + 1) <= n {
            assert((r + 1) * (r + 1) < (r + 2) * (r + 2)) by (nonlinear_arith);
            assert(is_floor_root(r + 1, n));
        } else {
            assert(is_floor_root(r, n));
        }
    }
}

/// The square root of a nonzero integer has a significand of 53 bits, or the next power of two.
pub proof fn lemma_root_significand(n: nat)
    requires
        n < 0x4_0000_0000_0000_0000_0000_0000_00,
    ensures
        n == 0 ==> nearest_root(n).m == 0,
        n > 0 ==> 0x10_0000_0000_0000 <= nearest_root(n).m <= 0x20_0000_0000_0000,
    decreases 0x4_0000_0000_0000_0000_0000_0000_00 - n,
{
    if n == 0 {
    } else if n < 0x1_0000_0000_0000_0000_0000_0000_00 {
        lemma_root_significand(4 * n);
    } else {
        lemma_floor_root_exists(n);
        let r = floor_root(n);
        assert(0x10_0000_0000_0000 <= r < 0x20_0000_0000_0000) by (nonlinear_arith)
            requires
                r * r <= n < (r + 1) * (r + 1),
                0x10_0000_0000_0000 * 0x10_0000_0000_0000 <= n,
                n < 0x20_0000_0000_0000 * 0x20_0000_0000_0000,
                r >= 0,
        ;
    }
}

/// Below one, the nearest double to a quotient is the quotient scaled by a power of two and
/// rounded.
pub proof fn lemma_nearest_quotient(n: nat, d: nat)
    requires
        0 < n < d,
    ensures
        nearest(n, d).e < -52,
        2 * (nearest(n, d).m * d) <= 2 * (n * exp2((-nearest(n, d).e) as nat)) + d,
{
    lemma_nearest_quotient_scaled(n, d);
    let k = (-nearest(n, d).e) as nat;
    if k <= 52 {
        lemma_exp2_constants();
        lemma_exp2_grows(k, 52);
        assert(n * exp2(k) < d * 0x10_0000_0000_0000) by (nonlinear_arith)
            requires
                n < d,
                exp2(k) <= 0x10_0000_0000_0000,
                n >= 0,
        ;
    }
}

/// The nearest double to a quotient below 2 to the power 53 is the quotient scaled by a power of
/// two, to at least 53 bits before the point, and rounded.
pub proof fn lemma_nearest_quotient_scaled(n: nat, d: nat)
    requires
        0 < n < d * 0x20_0000_0000_0000,
    ensures
        nearest(n, d).e <= 0,
        d * 0x10_0000_0000_0000 <= n * exp2((-nearest(n, d).e) as nat),
        2 * (nearest(n, d).m * d) <= 2 * (n * exp2((-nearest(n, d).e) as nat)) + d,
        2 * (n * exp2((-nearest(n, d).e) as nat)) <= 2 * (nearest(n, d).m * d) + d,
    decreases
            if n < d * 0x10_0000_0000_0000 {
                d * 0x10_0000_0000_0000 - n
            } else {
                0int
            },
{
    if n < d * 0x10_0000_0000_0000 {
        lemma_nearest_quotient_scaled(2 * n, d);
        let k = (-nearest(2 * n, d).e) as nat;
        assert(exp2(k + 1) == 2 * exp2(k));
        assert((2 * n) * exp2(k) == n * (2 * exp2(k))) by (nonlinear_arith);
    } else {
        assert(exp2(0) == 1);
        assert(n * 1 == n);
        let q = n / d;
        let r = n % d;
        let m = round_half_even(n, d);
        assert(n == d * q + r && r < d) by (nonlinear_arith)
            requires
                d > 0,
                q == n / d,
                r == n % d,
        ;
        assert(2 * (m * d) <= 2 * n + d && 2 * n <= 2 * (m * d) + d) by (nonlinear_arith)
            requires
                n == d * q + r,
                (m == q && 2 * r <= d) || (m == q + 1 && 2 * r >= d),
                d > 0,
                0 <= r < d,
        ;
    }
}

/// A double times 2 to the power `k`, where that is a whole number.
pub open spec fn at(v: Dyadic, k: nat) -> nat {
    v.m * exp2((v.e + k) as nat)
}

/// Whether two numbers differ by no more than `c` parts in 2 to the power 53 of the second.
pub open spec fn differ_by(x: nat, y: nat, c: nat) -> bool {
    &&& 0x20_0000_0000_0000 * (x - y) <= c * y
    &&& 0x20_0000_0000_0000 * (y - x) <= c * y
}

/// The double that stands for a quotient is off by no more than one part in 2 to the power 53.
pub proof fn lemma_nearest_is_near(n: nat, d: nat, k: nat)
    requires
        n > 0,
        d > 0,
        nearest(n, d).e + k >= 0,
    ensures
        differ_by(at(nearest(n, d), k) * d, n * exp2(k), 1),
    decreases
            if n < d * 0x10_0000_0000_0000 {
                d * 0x10_0000_0000_0000 - n
            } else if n >= d * 0x20_0000_0000_0000 {
                n - d
            } else {
                0
            },
{
    let p = nearest(n, d);
    lemma_exp2_pos(k);
    if n < d * 0x10_0000_0000_0000 {
        let q = nearest(2 * n, d);
        if k == 0 {
            assert(exp2(0) == 1);
            assert((d * 0x20_0000_0000_0000) * 1 == d * 0x20_0000_0000_0000);
            lemma_nearest_exponent_at_most(2 * n, d, 0);
        } else {
            lemma_nearest_is_near(2 * n, d, (k - 1) as nat);
            assert(exp2(k) == 2 * exp2((k - 1) as nat));
            assert((2 * n) * exp2((k - 1) as nat) == n * exp2(k)) by (nonlinear_arith)
                requires
                    exp2(k) == 2 * exp2((k - 1) as nat),
            ;
            assert(q.e + (k - 1) as nat == p.e + k);
        }
    } else if n >= d * 0x20_0000_0000_0000 {
        let q = nearest(n, 2 * d);
        lemma_nearest_is_near(n, 2 * d, k + 1);
        assert(q.e + (k + 1) == p.e + k);
        assert(exp2(k + 1) == 2 * exp2(k));
        let x = at(p, k);
        assert(x * (2 * d) == 2 * (x * d) && n * (2 * exp2(k)) == 2 * (n * exp2(k)))
            by (nonlinear_arith);
    } else {
        let r = round_half_even(n, d);
        let b = exp2(k);
        lemma_half_even(n, d);
        let (x, y) = ((r * b) * d, n * b);
        assert(0x20_0000_0000_0000 * (x - y) <= y && 0x20_0000_0000_0000 * (y - x) <= y)
            by (nonlinear_arith)
            requires
                x == (r * b) * d,
                y == n * b,
                2 * (r * d - n) <= d,
                2 * (n - r * d) <= d,
                d * 0x10_0000_0000_0000 <= n,
                b > 0,
        {
            assert(x == (r * d) * b);
            assert((0x20_0000_0000_0000 * (r * d - n)) * b <= n * b);
            assert((0x20_0000_0000_0000 * (n - r * d)) * b <= n * b);
        }
    }
}

/// Rounding half to even is off by no more than half.
pub proof fn lemma_half_even(n: nat, d: nat)
    requires
        d > 0,
    ensures
        2 * (round_half_even(n, d) * d - n) <= d,
        2 * (n - round_half_even(n, d) * d) <= d,
{
    let (q, r) = (n / d, n % d);
    vstd::arithmetic::div_mod::lemma_fundamental_div_mod(n as int, d as int);
    assert(q * d == d * q && (q + 1) * d == d * q + d) by (nonlinear_arith);
}

/// What differs little from what differs little, differs little.
pub proof fn lemma_differ_by_both(x: nat, y: nat, z: nat, a: nat, b: nat)
    requires
        differ_by(x, y, a),
        differ_by(y, z, b),
        a <= 0x100_0000,
        b <= 0x100_0000,
    ensures
        differ_by(x, z, a + b + 1),
{
    let t: int = 0x20_0000_0000_0000;
    let g = y - z;
    assert(t * (a * g) <= (a * b) * z && a * y == a * z + a * g) by (nonlinear_arith)
        requires
            t * g <= b * z,
            g == y - z,
            a >= 0,
    {
        assert(a * (t * g) <= a * (b * z));
    }
    assert((a * b) * z <= t * z) by (nonlinear_arith)
        requires
            0 <= a <= 0x100_0000,
            0 <= b <= 0x100_0000,
            z >= 0,
            t == 0x20_0000_0000_0000,
    ;
    assert((a + b + 1) * z == a * z + b * z + z) by (nonlinear_arith);
}

/// A common factor changes nothing.
pub proof fn lemma_differ_by_scaled(x: nat, y: nat, c: nat, f: nat)
    requires
        differ_by(x, y, c),
    ensures
        differ_by(x * f, y * f, c),
{
    let t: int = 0x20_0000_0000_0000;
    assert(t * (x * f - y * f) <= c * (y * f) && t * (y * f - x * f) <= c * (y * f))
        by (nonlinear_arith)
        requires
            t * (x - y) <= c * y,
            t * (y - x) <= c * y,
            f >= 0,
    {
        assert((t * (x - y)) * f <= (c * y) * f);
        assert((t * (y - x)) * f <= (c * y) * f);
    }
}

/// A product with a whole number is off by no more than one part in 2 to the power 53.
pub proof fn lemma_product_is_near(s: Dyadic, v: nat, k: nat)
    requires
        s.m > 0,
        v > 0,
        s.e + k >= 0,
        s.times(v).e + k >= 0,
    ensures
        differ_by(at(s.times(v), k), v * at(s, k), 1),
{
    let n = v * s.m;
    assert(n > 0) by (nonlinear_arith)
        requires
            n == v * s.m,
            v > 0,
            s.m > 0,
    ;
    let j = (s.e + k) as nat;
    lemma_nearest_is_near(n, 1, j);
    let p = nearest(n, 1);
    assert(p.e + j == s.times(v).e + k);
    assert(at(p, j) * 1 == at(p, j));
    assert(n * exp2(j) == v * at(s, k)) by (nonlinear_arith)
        requires
            n == v * s.m,
            at(s, k) == s.m * exp2(j),
    ;
}

/// Rounding to a whole number is off by no more than half.
pub proof fn lemma_rounding_is_near(v: Dyadic, k: nat)
    requires
        v.e + k >= 0,
    ensures
        2 * at(v, k) <= (2 * v.rounded() + 1) * exp2(k),
        (2 * v.rounded() - 1) * exp2(k) <= 2 * at(v, k),
{
    let r = v.rounded();
    lemma_exp2_pos(k);
    if v.e >= 0 {
        lemma_exp2_adds(v.e as nat, k);
        assert((v.e + k) as nat == v.e as nat + k);
        let (a, b) = (exp2(v.e as nat), exp2(k));
        assert(v.m * (a * b) == r * b) by (nonlinear_arith)
            requires
                r == v.m * a,
        ;
        assert((2 * r + 1) * b == 2 * (r * b) + b && (2 * r - 1) * b == 2 * (r * b) - b)
            by (nonlinear_arith);
    } else {
        let j = (-v.e) as nat;
        let h = exp2((j - 1) as nat);
        let d = exp2(j);
        assert(d == 2 * h);
        lemma_exp2_pos((j - 1) as nat);
        vstd::arithmetic::div_mod::lemma_fundamental_div_mod((v.m + h) as int, d as int);
        let l = (k - j) as nat;
        lemma_exp2_adds(l, j);
        let (x, b) = (exp2(l), exp2(k));
        assert(l + j == k && (v.e + k) as nat == l);
        lemma_exp2_pos(l);
        assert(d * r <= v.m + h < d * r + d);
        assert(2 * (v.m * x) <= (2 * r + 1) * b && (2 * r - 1) * b <= 2 * (v.m * x))
            by (nonlinear_arith)
            requires
                d * r <= v.m + h,
                v.m + h < d * r + d,
                d == 2 * h,
                b == x * d,
                x > 0,
        {
            assert(2 * v.m <= (2 * r + 1) * d);
            assert((2 * v.m) * x <= ((2 * r + 1) * d) * x);
            assert((2 * r - 1) * d <= 2 * v.m);
            assert(((2 * r - 1) * d) * x <= (2 * v.m) * x);
        }
    }
}

/// A number of times a fraction, computed in doubles and rounded to a whole number, is the nearest
/// whole number but for what doubles lose: it is off by no more than 5/8.
pub proof fn lemma_multiple_is_near(n: nat, d: nat, v: nat)
    requires
        n > 0,
        d > 0,
        v > 0,
        n * v <= d * 0x1_0000_0000_0000,
    ensures
        ({
            let r = nearest(n, d).times(v).rounded();
            &&& 8 * (r * d - n * v) <= 5 * d
            &&& 8 * (n * v - r * d) <= 5 * d
        }),
{
    let s = nearest(n, d);
    let p = s.times(v);
    let r = p.rounded();
    lemma_nearest_significand(n, d);
    let j: int = if s.e < p.e {
        -s.e
    } else {
        -p.e
    };
    let k = (if j < 0 {
        0
    } else {
        j
    }) as nat;
    let b = exp2(k);
    lemma_exp2_pos(k);
    lemma_nearest_is_near(n, d, k);
    lemma_product_is_near(s, v, k);
    lemma_rounding_is_near(p, k);
    let (x, y) = (at(p, k), at(s, k));
    lemma_differ_by_scaled(x, v * y, 1, d);
    lemma_differ_by_scaled(y * d, n * b, 1, v);
    assert((v * y) * d == (y * d) * v && (n * b) * v == (n * v) * b) by (nonlinear_arith);
    lemma_differ_by_both(x * d, (v * y) * d, (n * v) * b, 1, 1);
    let (nv, db) = (n * v, d * b);
    assert(nv * b <= 0x1_0000_0000_0000 * db) by (nonlinear_arith)
        requires
            nv <= d * 0x1_0000_0000_0000,
            db == d * b,
            b >= 0,
    ;
    assert(8 * (x * d - nv * b) <= db && 8 * (nv * b - x * d) <= db);
    assert(2 * (x * d) <= 2 * (r * db) + db && 2 * (r * db) - db <= 2 * (x * d)) by (nonlinear_arith)
        requires
            2 * x <= (2 * r + 1) * b,
            (2 * r - 1) * b <= 2 * x,
            db == d * b,
            d >= 0,
    {
        assert((2 * x) * d <= ((2 * r + 1) * b) * d);
        assert(((2 * r - 1) * b) * d <= (2 * x) * d);
    }
    let rd = r * d;
    assert(8 * (rd - nv) <= 5 * d && 8 * (nv - rd) <= 5 * d) by (nonlinear_arith)
        requires
            8 * (r * db - nv * b) <= 5 * db,
            8 * (nv * b - r * db) <= 5 * db,
            rd == r * d,
            db == d * b,
            b > 0,
    {
        assert(r * db == rd * b);
        assert(8 * (rd - nv) * b <= (5 * d) * b);
        assert(8 * (nv - rd) * b <= (5 * d) * b);
    }
}

/// A quotient is off by no more than one part in 2 to the power 53.
pub proof fn lemma_quotient_is_near(a: Dyadic, b: Dyadic, k: nat, j: nat)
    requires
        a.m > 0,
        b.m > 0,
        a.over(b).e + k >= 0,
        b.e + j >= 0,
        a.e + k + j >= 0,
    ensures
        differ_by(at(a.over(b), k) * at(b, j), at(a, k + j), 1),
{
    let q = nearest(a.m, b.m);
    let i = (a.e + k + j) as nat;
    lemma_nearest_is_near(a.m, b.m, i);
    let (x, y) = ((a.over(b).e + k) as nat, (b.e + j) as nat);
    lemma_exp2_adds(x, y);
    assert(x + y == (q.e + i) as nat);
    assert((a.e + (k + j)) as nat == i);
    assert((q.m * exp2(x)) * (b.m * exp2(y)) == (q.m * (exp2(x) * exp2(y))) * b.m)
        by (nonlinear_arith);
}

/// A square root is off by so little that its square is off by no more than three parts in 2 to
/// the power 53.
pub proof fn lemma_root_is_near(s: Dyadic, k: nat)
    requires
        0 < s.m <= 0x20_0000_0000_0000,
        s.root().e + k >= 0,
        s.e + 2 * k >= 0,
    ensures
        differ_by(at(s.root(), k) * at(s.root(), k), at(s, 2 * k), 3),
{
    let (n, h) = if s.e % 2 == 0 {
        (s.m, s.e / 2)
    } else {
        (2 * s.m, (s.e - 1) / 2)
    };
    let p = nearest_root(n);
    let i = (h + k) as nat;
    lemma_whole_root_is_near(n, i);
    assert(h + k >= 0);
    assert((s.root().e + k) as nat == (p.e + i) as nat);
    if s.e % 2 == 0 {
        assert((s.e + 2 * k) as nat == 2 * i);
    } else {
        assert((s.e + 2 * k) as nat == 2 * i + 1);
        assert(exp2(2 * i + 1) == 2 * exp2(2 * i));
        assert((2 * s.m) * exp2(2 * i) == s.m * (2 * exp2(2 * i))) by (nonlinear_arith);
    }
}

proof fn lemma_whole_root_is_near(n: nat, k: nat)
    requires
        0 < n < 0x4_0000_0000_0000_0000_0000_0000_00,
        nearest_root(n).e + k >= 0,
    ensures
        nearest_root(n).e <= 0,
        differ_by(at(nearest_root(n), k) * at(nearest_root(n), k), n * exp2(2 * k), 3),
    decreases 0x4_0000_0000_0000_0000_0000_0000_00 - n,
{
    let p = nearest_root(n);
    if n < 0x1_0000_0000_0000_0000_0000_0000_00 {
        let q = nearest_root(4 * n);
        lemma_root_exponent(4 * n);
        let i = (k - 1) as nat;
        lemma_whole_root_is_near(4 * n, i);
        assert((p.e + k) as nat == (q.e + i) as nat);
        assert(exp2(2 * k) == 4 * exp2(2 * i)) by {
            assert(exp2(2 * k) == 2 * exp2((2 * k - 1) as nat));
            assert((2 * k - 1) as nat == 2 * i + 1);
            assert(exp2(2 * i + 1) == 2 * exp2(2 * i));
        }
        assert((4 * n) * exp2(2 * i) == n * (4 * exp2(2 * i))) by (nonlinear_arith);
    } else {
        lemma_floor_root_exists(n);
        let r = floor_root(n);
        let m = p.m;
        let b = exp2(k);
        lemma_exp2_adds(k, k);
        assert(k + k == 2 * k);
        lemma_exp2_pos(k);
        let c = b * b;
        assert(c > 0) by (nonlinear_arith)
            requires
                c == b * b,
                b > 0,
        ;
        assert(r >= 0x10_0000_0000_0000) by (nonlinear_arith)
            requires
                n < (r + 1) * (r + 1),
                n >= 0x1_0000_0000_0000_0000_0000_0000_00,
        ;
        let mm = m * m;
        assert(mm - n <= m && n - mm <= m && m <= r + 1) by (nonlinear_arith)
            requires
                mm == m * m,
                r * r <= n,
                n < (r + 1) * (r + 1),
                m == (if r * r + r < n {
                    r + 1
                } else {
                    r
                }),
        ;
        assert(0x20_0000_0000_0000 * m <= 3 * n) by (nonlinear_arith)
            requires
                m <= r + 1,
                r * r <= n,
                r >= 0x10_0000_0000_0000,
        {
            assert(r * r >= 0x10_0000_0000_0000 * r);
        }
        let t: int = 0x20_0000_0000_0000;
        let x = m * b;
        assert(x * x == mm * c) by (nonlinear_arith)
            requires
                x == m * b,
                mm == m * m,
                c == b * b,
        ;
        assert(t * (mm * c - n * c) <= 3 * (n * c) && t * (n * c - mm * c) <= 3 * (n * c))
            by (nonlinear_arith)
            requires
                t * (mm - n) <= 3 * n,
                t * (n - mm) <= 3 * n,
                c > 0,
        {
            assert((t * (mm - n)) * c <= (3 * n) * c);
            assert((t * (n - mm)) * c <= (3 * n) * c);
        }
    }
}

proof fn lemma_root_exponent(n: nat)
    requires
        n > 0,
    ensures
        nearest_root(n).e <= 0,
    decreases
            if n < 0x1_0000_0000_0000_0000_0000_0000_00nat {
                0x1_0000_0000_0000_0000_0000_0000_00nat - n
            } else {
                0int
            },
{
    if n < 0x1_0000_0000_0000_0000_0000_0000_00 {
        lemma_root_exponent(4 * n);
    }
}

/// Rounding to a whole number with ties to even is off by no more than half.
pub proof fn lemma_rounding_even_is_near(v: Dyadic, k: nat)
    requires
        v.e + k >= 0,
    ensures
        2 * at(v, k) <= (2 * v.rounded_even() + 1) * exp2(k),
        (2 * v.rounded_even() - 1) * exp2(k) <= 2 * at(v, k),
{
    let r = v.rounded_even();
    if v.e >= 0 {
        lemma_rounding_is_near(v, k);
    } else {
        let j = (-v.e) as nat;
        let d = exp2(j);
        lemma_exp2_pos(j);
        lemma_half_even(v.m, d);
        let l = (k - j) as nat;
        lemma_exp2_adds(l, j);
        let (x, b) = (exp2(l), exp2(k));
        assert(l + j == k && (v.e + k) as nat == l);
        lemma_exp2_pos(l);
        assert(2 * (v.m * x) <= (2 * r + 1) * b && (2 * r - 1) * b <= 2 * (v.m * x))
            by (nonlinear_arith)
            requires
                2 * (r * d - v.m) <= d,
                2 * (v.m - r * d) <= d,
                b == x * d,
                x > 0,
        {
            assert(2 * v.m <= (2 * r + 1) * d);
            assert((2 * v.m) * x <= ((2 * r + 1) * d) * x);
            assert((2 * r - 1) * d <= 2 * v.m);
            assert(((2 * r - 1) * d) * x <= (2 * v.m) * x);
        }
    }
}

} // verus!
