//! Byte counts as people write them: `1MB`, `500KB`, `1.5M`.

use vstd::prelude::*;

use crate::binary64::{self, Dyadic, Magnitude};
use crate::scan;
use crate::text;
use crate::web::names;

verus! {

/// 10 to the power `k`.
pub open spec fn ten(k: nat) -> nat
    decreases k,
{
    if k == 0 {
        1
    } else {
        10 * ten((k - 1) as nat)
    }
}

/// The number with these decimal digits, the least significant one first.
pub open spec fn value(digits: Seq<u8>) -> nat
    decreases digits.len(),
{
    if digits.len() == 0 {
        0
    } else {
        value(digits.drop_last()) + digits.last() as nat * ten((digits.len() - 1) as nat)
    }
}

/// Whether every digit is one.
pub open spec fn are_digits(digits: Seq<u8>) -> bool {
    forall|i: int| 0 <= i < digits.len() ==> #[trigger] digits[i] <= 9
}

proof fn lemma_ten_pos(k: nat)
    ensures
        ten(k) > 0,
    decreases k,
{
    if k > 0 {
        lemma_ten_pos((k - 1) as nat);
    }
}

proof fn lemma_ten_below_power(k: nat)
    ensures
        ten(k) <= binary64::exp2(4 * k),
    decreases k,
{
    if k > 0 {
        lemma_ten_below_power((k - 1) as nat);
        let rest = (4 * k - 4) as nat;
        binary64::lemma_exp2_adds(4, rest);
        assert(binary64::exp2(4) == 16) by {
            reveal_with_fuel(binary64::exp2, 5);
        }
        assert(4 + rest == 4 * k);
    }
}

/// A number has no more than its digits can say.
proof fn lemma_value_bound(digits: Seq<u8>)
    requires
        are_digits(digits),
    ensures
        value(digits) < ten(digits.len()),
    decreases digits.len(),
{
    if digits.len() > 0 {
        let rest = digits.drop_last();
        lemma_value_bound(rest);
        let t = ten(rest.len());
        assert(digits.last() * t <= 9 * t) by (nonlinear_arith)
            requires
                digits.last() <= 9,
                t >= 0,
        ;
    }
}

/// Digits split into lower and higher ones.
proof fn lemma_value_split(digits: Seq<u8>, k: nat)
    requires
        k <= digits.len(),
    ensures
        value(digits) == value(digits.take(k as int)) + ten(k) * value(digits.skip(k as int)),
    decreases digits.len(),
{
    if digits.len() == k {
        assert(digits.take(k as int) =~= digits);
        assert(ten(k) * 0 == 0) by (nonlinear_arith);
        assert(value(digits.skip(k as int)) == 0);
    } else {
        let rest = digits.drop_last();
        lemma_value_split(rest, k);
        assert(rest.take(k as int) =~= digits.take(k as int));
        let high = digits.skip(k as int);
        assert(high.drop_last() =~= rest.skip(k as int));
        let j = (high.len() - 1) as nat;
        lemma_ten_adds(k, j);
        assert(k + j == digits.len() - 1);
        assert(ten(k) * (value(high.drop_last()) + high.last() * ten(j)) == ten(k) * value(
            high.drop_last(),
        ) + high.last() * (ten(k) * ten(j))) by (nonlinear_arith);
    }
}

proof fn lemma_ten_adds(a: nat, b: nat)
    ensures
        ten(a + b) == ten(a) * ten(b),
    decreases a,
{
    if a > 0 {
        lemma_ten_adds((a - 1) as nat, b);
        let t = ten((a - 1) as nat);
        assert(10 * (t * ten(b)) == (10 * t) * ten(b)) by (nonlinear_arith);
        assert((a - 1) as nat + b == (a + b - 1) as nat);
    } else {
        assert(1 * ten(b) == ten(b));
    }
}

/// The nearest double of a quotient does not depend on how the quotient is written.
proof fn lemma_nearest_cancels(n: nat, d: nat, c: nat)
    requires
        c > 0,
    ensures
        binary64::nearest(c * n, c * d) == binary64::nearest(n, d),
    decreases
            if n == 0 || d == 0 {
                0int
            } else if n < d * 0x10_0000_0000_0000 {
                d * 0x10_0000_0000_0000 - n
            } else if n >= d * 0x20_0000_0000_0000 {
                n - d
            } else {
                0
            },
{
    assert(n == 0 ==> c * n == 0) by (nonlinear_arith);
    assert(d == 0 ==> c * d == 0) by (nonlinear_arith);
    assert(n > 0 ==> c * n > 0) by (nonlinear_arith)
        requires
            c > 0,
    ;
    assert(d > 0 ==> c * d > 0) by (nonlinear_arith)
        requires
            c > 0,
    ;
    if n > 0 && d > 0 {
        assert((c * n < (c * d) * 0x10_0000_0000_0000) == (n < d * 0x10_0000_0000_0000))
            by (nonlinear_arith)
            requires
                c > 0,
        ;
        assert((c * n >= (c * d) * 0x20_0000_0000_0000) == (n >= d * 0x20_0000_0000_0000))
            by (nonlinear_arith)
            requires
                c > 0,
        ;
        if n < d * 0x10_0000_0000_0000 {
            lemma_nearest_cancels(2 * n, d, c);
            assert(c * (2 * n) == 2 * (c * n)) by (nonlinear_arith);
        } else if n >= d * 0x20_0000_0000_0000 {
            lemma_nearest_cancels(n, 2 * d, c);
            assert(c * (2 * d) == 2 * (c * d)) by (nonlinear_arith);
        } else {
            lemma_round_cancels(n, d, c);
        }
    }
}

proof fn lemma_round_cancels(n: nat, d: nat, c: nat)
    requires
        c > 0,
        d > 0,
    ensures
        binary64::round_half_even(c * n, c * d) == binary64::round_half_even(n, d),
{
    let q = n / d;
    let r = n % d;
    vstd::arithmetic::div_mod::lemma_fundamental_div_mod(n as int, d as int);
    assert(c * n == q * (c * d) + c * r) by (nonlinear_arith)
        requires
            n == d * q + r,
    ;
    assert(0 <= c * r < c * d) by (nonlinear_arith)
        requires
            0 <= r < d,
            c > 0,
    ;
    vstd::arithmetic::div_mod::lemma_fundamental_div_mod_converse(
        (c * n) as int,
        (c * d) as int,
        q as int,
        (c * r) as int,
    );
    assert((2 * (c * r) < c * d) == (2 * r < d)) by (nonlinear_arith)
        requires
            c > 0,
    ;
    assert((2 * (c * r) == c * d) == (2 * r == d)) by (nonlinear_arith)
        requires
            c > 0,
    ;
}

/// The digits of a number multiplied with a small factor.
fn multiply(digits: &Vec<u8>, factor: u8) -> (r: Vec<u8>)
    requires
        are_digits(digits@),
        1 <= factor <= 9,
    ensures
        are_digits(r@),
        value(r@) == factor * value(digits@),
        r@.len() >= digits@.len(),
{
    let mut out: Vec<u8> = Vec::new();
    let mut carry: u8 = 0;
    let mut i: usize = 0;
    proof {
        assert(value(digits@.take(0)) == 0);
        assert(factor * 0 == 0 && 0 * ten(0) == 0) by (nonlinear_arith);
    }
    while i < digits.len()
        invariant
            are_digits(digits@),
            1 <= factor <= 9,
            i <= digits@.len(),
            out@.len() == i,
            are_digits(out@),
            carry <= 9,
            value(out@) + carry * ten(i as nat) == factor * value(digits@.take(i as int)),
        decreases digits@.len() - i,
    {
        let d: u8 = digits[i];
        proof {
            assert(d * factor <= 81) by (nonlinear_arith)
                requires
                    d <= 9,
                    factor <= 9,
            ;
        }
        let t: u8 = d * factor + carry;
        let low: u8 = t % 10;
        let high: u8 = t / 10;
        let ghost before = out@;
        out.push(low);
        proof {
            assert(out@.drop_last() =~= before);
            assert(digits@.take(i + 1).drop_last() =~= digits@.take(i as int));
            let p = ten(i as nat);
            assert(ten((i + 1) as nat) == 10 * p);
            assert(low * p + high * (10 * p) == t * p) by (nonlinear_arith)
                requires
                    t == 10 * high + low,
            ;
            assert(t * p == factor * (d * p) + carry * p) by (nonlinear_arith)
                requires
                    t == d * factor + carry,
            ;
            let rest = value(digits@.take(i as int));
            assert(factor * (rest + d * p) == factor * rest + factor * (d * p)) by (nonlinear_arith);
        }
        carry = high;
        i = i + 1;
    }
    proof {
        assert(digits@.take(i as int) =~= digits@);
    }
    if carry > 0 {
        let ghost before = out@;
        out.push(carry);
        proof {
            assert(out@.drop_last() =~= before);
        }
    } else {
        proof {
            assert(0 * ten(i as nat) == 0) by (nonlinear_arith);
        }
    }
    out
}

/// The number that the digits from a position on make, or a number of 54 bits if it has more.
fn whole_part(digits: &Vec<u8>, from: usize) -> (r: u64)
    requires
        are_digits(digits@),
        from <= digits@.len(),
    ensures
        value(digits@.skip(from as int)) < 0x40_0000_0000_0000 ==> r == value(
            digits@.skip(from as int),
        ),
        value(digits@.skip(from as int)) >= 0x40_0000_0000_0000 ==> r == 0x40_0000_0000_0000,
{
    let mut v: u64 = 0;
    let mut i: usize = digits.len();
    proof {
        assert(value(digits@.skip(i as int)) == 0);
    }
    while i > from
        invariant
            are_digits(digits@),
            from <= i <= digits@.len(),
            v == value(digits@.skip(i as int)),
            v < 0x40_0000_0000_0000,
        decreases i,
    {
        let d: u8 = digits[i - 1];
        let next: u64 = v * 10 + d as u64;
        proof {
            lemma_value_step(digits@, (i - 1) as nat);
            lemma_value_grows(digits@, from as nat, (i - 1) as nat);
        }
        if next >= 0x40_0000_0000_0000 {
            return 0x40_0000_0000_0000;
        }
        v = next;
        i = i - 1;
    }
    v
}

/// One more lower digit.
proof fn lemma_value_step(digits: Seq<u8>, i: nat)
    requires
        i < digits.len(),
    ensures
        value(digits.skip(i as int)) == 10 * value(digits.skip(i as int + 1)) + digits[i as int],
{
    let high = digits.skip(i as int);
    lemma_value_split(high, 1);
    assert(high.skip(1) =~= digits.skip(i as int + 1));
    let low = high.take(1);
    assert(low.drop_last().len() == 0);
    assert(value(low.drop_last()) == 0);
    assert(ten(0) == 1);
    assert(ten(1) == 10 * ten(0));
    assert(value(low) == low.last() as nat * 1);
    assert(low.last() == digits[i as int]);
}

/// More digits never make less.
proof fn lemma_value_grows(digits: Seq<u8>, a: nat, b: nat)
    requires
        a <= b <= digits.len(),
    ensures
        value(digits.skip(a as int)) >= value(digits.skip(b as int)),
    decreases b - a,
{
    if a < b {
        lemma_value_grows(digits, (a + 1) as nat, b);
        lemma_value_step(digits, a);
    }
}

/// The quotient by a power of ten is what the higher digits make, the remainder what the lower
/// ones make.
proof fn lemma_value_quotient(digits: Seq<u8>, k: nat)
    requires
        are_digits(digits),
        k <= digits.len(),
    ensures
        value(digits) / ten(k) == value(digits.skip(k as int)),
        value(digits) % ten(k) == value(digits.take(k as int)),
{
    lemma_value_split(digits, k);
    let low = digits.take(k as int);
    lemma_value_bound(low);
    lemma_ten_pos(k);
    let q = value(digits.skip(k as int));
    assert(ten(k) * q == q * ten(k)) by (nonlinear_arith);
    vstd::arithmetic::div_mod::lemma_fundamental_div_mod_converse(
        value(digits) as int,
        ten(k) as int,
        q as int,
        value(low) as int,
    );
}

/// How the lower digits of a number compare with half of the next higher place: below, equal
/// or above.
#[derive(Clone, Copy, PartialEq, Eq, Structural)]
enum Half {
    Below,
    Equal,
    Above,
}

fn lower_half(digits: &Vec<u8>, k: usize) -> (r: Half)
    requires
        are_digits(digits@),
        k <= digits@.len(),
    ensures
        r == Half::Below <==> 2 * value(digits@.take(k as int)) < ten(k as nat),
        r == Half::Equal <==> 2 * value(digits@.take(k as int)) == ten(k as nat),
{
    if k == 0 {
        proof {
            assert(value(digits@.take(0)) == 0);
        }
        return Half::Below;
    }
    let top: u8 = digits[k - 1];
    let mut rest: bool = false;
    let mut i: usize = 0;
    proof {
        assert(value(digits@.take(0)) == 0);
    }
    while i < k - 1
        invariant
            are_digits(digits@),
            1 <= k <= digits@.len(),
            i <= k - 1,
            rest == (value(digits@.take(i as int)) > 0),
        decreases k - i,
    {
        proof {
            assert(digits@.take(i + 1).drop_last() =~= digits@.take(i as int));
            let p = ten(i as nat);
            lemma_ten_pos(i as nat);
            let d = digits@[i as int];
            assert(d > 0 ==> d as nat * p > 0) by (nonlinear_arith)
                requires
                    p > 0,
            ;
            assert(d == 0 ==> d as nat * p == 0) by (nonlinear_arith);
        }
        if digits[i] > 0 {
            rest = true;
        }
        i = i + 1;
    }
    proof {
        let low = digits@.take(k - 1);
        assert(digits@.take(k as int).drop_last() =~= low);
        lemma_value_bound(low);
        let p = ten((k - 1) as nat);
        assert(ten(k as nat) == 10 * p);
        lemma_ten_pos((k - 1) as nat);
        let t = top as nat;
        assert(value(digits@.take(k as int)) == value(low) + t * p);
        assert(t <= 4 ==> t * p <= 4 * p) by (nonlinear_arith);
        assert(t >= 6 ==> t * p >= 6 * p) by (nonlinear_arith);
        assert(t == 5 ==> t * p == 5 * p) by (nonlinear_arith);
    }
    if top < 5 {
        Half::Below
    } else if top == 5 && !rest {
        Half::Equal
    } else {
        Half::Above
    }
}

/// The double nearest to a number with decimal digits, of which some stand behind the point.
fn nearest_decimal(digits: Vec<u8>, places: usize) -> (r: Magnitude)
    requires
        are_digits(digits@),
        places <= digits@.len() <= 0x100_0000_0000_0000,
    ensures
        r@ == binary64::nearest(value(digits@), ten(places as nat)),
        r.m <= 0x20_0000_0000_0000,
        -0x800_0000_0000_0000 <= r.e <= 0x800_0000_0000_0000,
{
    let ghost n = value(digits@);
    let ghost d = ten(places as nat);
    let ghost len = digits@.len();
    let mut ds: Vec<u8> = digits;
    let mut f: usize = places;
    let mut e: i64 = 0;
    let mut whole: u64 = whole_part(&ds, f);
    let zero: bool = is_zero(&ds);
    proof {
        lemma_value_quotient(ds@, f as nat);
        lemma_ten_pos(places as nat);
        lemma_ten_below_power(places as nat);
        lemma_ten_below_power(len);
        lemma_value_bound(ds@);
        assert(n * 1 == n);
    }
    if zero {
        return Magnitude { m: 0, e: 0 };
    }
    let ghost mut k: nat = 0;
    while whole < 0x10_0000_0000_0000
        invariant
            are_digits(ds@),
            f == places,
            f <= ds@.len(),
            places <= len <= 0x100_0000_0000_0000,
            d == ten(places as nat),
            d > 0,
            d <= binary64::exp2(4 * places as nat),
            n > 0,
            value(ds@) == n * binary64::exp2(k),
            e == -k,
            k <= 4 * places + 53,
            binary64::nearest(n, d) == (Dyadic {
                m: binary64::nearest(value(ds@), d).m,
                e: binary64::nearest(value(ds@), d).e + e,
            }),
            whole < 0x40_0000_0000_0000 ==> whole == value(ds@) / d,
            whole == 0x40_0000_0000_0000 ==> value(ds@) / d >= whole,
            whole <= 0x40_0000_0000_0000,
            k > 0 ==> value(ds@) < d * 0x20_0000_0000_0000,
        decreases 4 * places + 54 - k,
    {
        let ghost v = value(ds@);
        proof {
            lemma_quotient_below(v, d, 0x10_0000_0000_0000);
            lemma_doublings_bounded(n, k, d, places as nat);
            assert(binary64::exp2(k + 1) == 2 * binary64::exp2(k));
            assert(n * (2 * binary64::exp2(k)) == 2 * (n * binary64::exp2(k)))
                by (nonlinear_arith);
            assert(n * binary64::exp2(k) > 0) by (nonlinear_arith)
                requires
                    n > 0,
                    binary64::exp2(k) > 0,
            ;
            k = k + 1;
        }
        ds = multiply(&ds, 2);
        e = e - 1;
        whole = whole_part(&ds, f);
        proof {
            lemma_value_quotient(ds@, f as nat);
        }
    }
    let ghost shift = e as int;
    let ghost at = value(ds@);
    let ghost mut h: nat = 0;
    proof {
        lemma_ten_pos(len);
        assert(e < 0 ==> at < d * 0x20_0000_0000_0000);
        if e < 0 {
            lemma_quotient_limited(at, d, 0x20_0000_0000_0000);
        }
        assert(d * (1nat * 1nat) == d && at * 1nat == at && n * 1nat == n) by (nonlinear_arith);
    }
    while whole >= 0x20_0000_0000_0000
        invariant
            are_digits(ds@),
            f == places + h,
            f <= ds@.len(),
            places <= len <= 0x100_0000_0000_0000,
            d == ten(places as nat),
            d > 0,
            n > 0,
            n < ten(len),
            ten(len) <= binary64::exp2(4 * len),
            h > 0 ==> shift == 0,
            whole >= 0x20_0000_0000_0000 ==> shift == 0 && at == n,
            e == shift + h,
            -(4 * places + 54) <= shift <= 0,
            h <= 4 * len,
            whole >= 0x10_0000_0000_0000,
            value(ds@) == at * five(h),
            ten(f as nat) == d * (five(h) * binary64::exp2(h)),
            binary64::nearest(n, d) == (Dyadic {
                m: binary64::nearest(value(ds@), ten(f as nat)).m,
                e: binary64::nearest(value(ds@), ten(f as nat)).e + e,
            }),
            whole < 0x40_0000_0000_0000 ==> whole == value(ds@) / ten(f as nat),
            whole == 0x40_0000_0000_0000 ==> value(ds@) / ten(f as nat) >= whole,
            whole <= 0x40_0000_0000_0000,
        decreases 4 * len + 1 - h,
    {
        let ghost v = value(ds@);
        let ghost t = ten(f as nat);
        proof {
            lemma_ten_pos(f as nat);
            lemma_quotient_reaches(v, t, 0x20_0000_0000_0000);
            lemma_halvings_bounded(n, h, d, v, t, len);
            lemma_value_quotient(ds@, f as nat);
            if f == ds@.len() {
                assert(value(ds@.skip(f as int)) == 0);
            }
            lemma_nearest_cancels(v, 2 * t, 5);
            assert(ten((f + 1) as nat) == 10 * t);
            assert(5 * (2 * t) == 10 * t);
            lemma_next_scale(d, at, h);
        }
        ds = multiply(&ds, 5);
        f = f + 1;
        e = e + 1;
        whole = whole_part(&ds, f);
        proof {
            h = h + 1;
            lemma_value_quotient(ds@, f as nat);
            assert((5 * v) / (10 * t) >= 0x10_0000_0000_0000) by {
                assert(5 * v >= (10 * t) * 0x10_0000_0000_0000);
                lemma_quotient_large((5 * v) as nat, 10 * t, 0x10_0000_0000_0000);
            }
        }
    }
    let half: Half = lower_half(&ds, f);
    let m: u64 = match half {
        Half::Below => whole,
        Half::Equal => if whole % 2 == 0 {
            whole
        } else {
            whole + 1
        },
        Half::Above => whole + 1,
    };
    proof {
        let v = value(ds@);
        let t = ten(f as nat);
        lemma_ten_pos(f as nat);
        lemma_value_quotient(ds@, f as nat);
        lemma_quotient_reaches(v, t, 0x10_0000_0000_0000);
        lemma_quotient_below(v, t, 0x20_0000_0000_0000);
        assert(m == binary64::round_half_even(v, t));
    }
    Magnitude { m, e }
}

proof fn lemma_quotient_reaches(v: nat, d: nat, limit: nat)
    requires
        d > 0,
        v / d >= limit,
    ensures
        v >= d * limit,
{
    vstd::arithmetic::div_mod::lemma_fundamental_div_mod(v as int, d as int);
    assert(v >= d * limit) by (nonlinear_arith)
        requires
            v == d * (v / d) + v % d,
            v % d >= 0,
            v / d >= limit,
            d > 0,
    ;
}

proof fn lemma_quotient_large(v: nat, d: nat, limit: nat)
    requires
        d > 0,
        v >= d * limit,
    ensures
        v / d >= limit,
{
    vstd::arithmetic::div_mod::lemma_fundamental_div_mod(v as int, d as int);
    assert(v / d >= limit) by (nonlinear_arith)
        requires
            v == d * (v / d) + v % d,
            v % d < d,
            v >= d * limit,
            d > 0,
    ;
}

proof fn lemma_five_pos(k: nat)
    ensures
        five(k) > 0,
    decreases k,
{
    if k > 0 {
        lemma_five_pos((k - 1) as nat);
    }
}

/// One more halving.
proof fn lemma_next_scale(d: nat, at: nat, h: nat)
    ensures
        10 * (d * (five(h) * binary64::exp2(h))) == d * (five(h + 1) * binary64::exp2(h + 1)),
        5 * (at * five(h)) == at * five(h + 1),
{
    let a = five(h);
    let b = binary64::exp2(h);
    assert(five(h + 1) == 5 * a);
    assert(binary64::exp2(h + 1) == 2 * b);
    assert(10 * (d * (a * b)) == d * ((5 * a) * (2 * b))) by (nonlinear_arith);
    assert(5 * (at * a) == at * (5 * a)) by (nonlinear_arith);
}

/// A number that can be halved often is large.
proof fn lemma_halvings_bounded(n: nat, h: nat, d: nat, v: nat, t: nat, len: nat)
    requires
        d > 0,
        v == n * five(h),
        t == d * (five(h) * binary64::exp2(h)),
        v >= t * 0x20_0000_0000_0000,
        n < binary64::exp2(4 * len),
    ensures
        h < 4 * len,
{
    let a = five(h);
    let b = binary64::exp2(h);
    lemma_five_pos(h);
    binary64::lemma_exp2_pos(h);
    assert(t >= a * b) by (nonlinear_arith)
        requires
            t == d * (a * b),
            d >= 1,
    ;
    assert(n >= b) by (nonlinear_arith)
        requires
            n * a >= a * b,
            a > 0,
    ;
    if h >= 4 * len {
        binary64::lemma_exp2_grows(4 * len, h);
    }
}

/// 5 to the power `k`.
spec fn five(k: nat) -> nat
    decreases k,
{
    if k == 0 {
        1
    } else {
        5 * five((k - 1) as nat)
    }
}

/// Whether all digits are zero.
fn is_zero(digits: &Vec<u8>) -> (r: bool)
    requires
        are_digits(digits@),
    ensures
        r == (value(digits@) == 0),
{
    let mut i: usize = 0;
    proof {
        assert(value(digits@.take(0)) == 0);
    }
    while i < digits.len()
        invariant
            i <= digits@.len(),
            value(digits@.take(i as int)) == 0,
        decreases digits@.len() - i,
    {
        if digits[i] > 0 {
            proof {
                let p = ten(i as nat);
                lemma_ten_pos(i as nat);
                assert(digits@.take(i + 1).drop_last() =~= digits@.take(i as int));
                assert(digits@[i as int] as nat * p > 0) by (nonlinear_arith)
                    requires
                        p > 0,
                        digits@[i as int] > 0,
                ;
                lemma_value_split(digits@, (i + 1) as nat);
                assert(ten((i + 1) as nat) * value(digits@.skip(i + 1)) >= 0) by (nonlinear_arith);
            }
            return false;
        }
        proof {
            assert(digits@.take(i + 1).drop_last() =~= digits@.take(i as int));
            assert(0 * ten(i as nat) == 0) by (nonlinear_arith);
        }
        i = i + 1;
    }
    proof {
        assert(digits@.take(i as int) =~= digits@);
    }
    true
}

proof fn lemma_quotient_below(v: nat, d: nat, limit: nat)
    requires
        d > 0,
        v / d < limit,
    ensures
        v < d * limit,
{
    vstd::arithmetic::div_mod::lemma_fundamental_div_mod(v as int, d as int);
    assert(v < d * limit) by (nonlinear_arith)
        requires
            v == d * (v / d) + v % d,
            v % d < d,
            v / d + 1 <= limit,
            d > 0,
    ;
}

proof fn lemma_quotient_limited(v: nat, d: nat, limit: nat)
    requires
        d > 0,
        v < d * limit,
    ensures
        v / d < limit,
{
    vstd::arithmetic::div_mod::lemma_fundamental_div_mod(v as int, d as int);
    assert(v / d < limit) by (nonlinear_arith)
        requires
            v == d * (v / d) + v % d,
            v % d >= 0,
            v < d * limit,
            d > 0,
    ;
}

/// A number that was doubled often is large.
proof fn lemma_doublings_bounded(n: nat, k: nat, d: nat, places: nat)
    requires
        n > 0,
        n * binary64::exp2(k) < d * 0x10_0000_0000_0000,
        d <= binary64::exp2(4 * places),
    ensures
        k <= 4 * places + 52,
        binary64::exp2(k) > 0,
{
    binary64::lemma_exp2_pos(k);
    binary64::lemma_exp2_constants();
    if k > 4 * places + 52 {
        binary64::lemma_exp2_grows(4 * places + 52, k);
        binary64::lemma_exp2_adds(4 * places, 52);
        assert(d * 0x10_0000_0000_0000 <= binary64::exp2(4 * places) * 0x10_0000_0000_0000)
            by (nonlinear_arith)
            requires
                d <= binary64::exp2(4 * places),
        ;
        assert(n * binary64::exp2(k) >= binary64::exp2(k)) by (nonlinear_arith)
            requires
                n >= 1,
        ;
    }
}

/// The digits of a plain decimal number, the least significant one first, and how many of them
/// stand behind the point, where there is one.
pub struct Written {
    pub digits: Seq<u8>,
    pub places: Option<nat>,
}

/// How a plain decimal number is written: digits with at most one point among them.
pub open spec fn written(s: Seq<char>) -> Option<Written>
    decreases s.len(),
{
    if s.len() == 0 {
        Some(Written { digits: Seq::empty(), places: None })
    } else {
        match written(s.skip(1)) {
            None => None,
            Some(w) => if scan::is_digit(s[0]) {
                Some(Written { digits: w.digits.push(scan::digit_value(s[0]) as u8), ..w })
            } else if s[0] == '.' && w.places is None {
                Some(Written { digits: w.digits, places: Some(w.digits.len()) })
            } else {
                None
            },
        }
    }
}

/// A plain decimal number without its sign.
pub open spec fn unsigned(s: Seq<char>) -> Seq<char> {
    if s.len() > 0 && (s[0] == '+' || s[0] == '-') {
        s.skip(1)
    } else {
        s
    }
}

/// The double nearest to a plain decimal number without a sign, if it has any digit.
pub open spec fn decimal_double(s: Seq<char>) -> Option<Dyadic> {
    match written(s) {
        Some(w) => if w.digits.len() > 0 {
            Some(
                binary64::nearest(
                    value(w.digits),
                    ten(
                        match w.places {
                            Some(p) => p,
                            None => 0,
                        },
                    ),
                ),
            )
        } else {
            None
        },
        None => None,
    }
}

proof fn lemma_written(s: Seq<char>)
    ensures
        (match written(s) {
            Some(w) => are_digits(w.digits) && w.digits.len() <= s.len() && (match w.places {
                Some(p) => p <= w.digits.len(),
                None => true,
            }),
            None => true,
        }),
    decreases s.len(),
{
    if s.len() > 0 {
        lemma_written(s.skip(1));
    }
}

/// Nothing that goes wrong further right is mended by more on the left.
proof fn lemma_unwritten(s: Seq<char>, i: nat)
    requires
        i <= s.len(),
        written(s.skip(i as int)) is None,
    ensures
        written(s) is None,
    decreases i,
{
    if i > 0 {
        assert(s.skip(i - 1).skip(1) =~= s.skip(i as int));
        lemma_unwritten(s, (i - 1) as nat);
    } else {
        assert(s.skip(0) =~= s);
    }
}

/// The double nearest to a plain decimal number without a sign.
fn parse_decimal(s: &[char]) -> (r: Option<Magnitude>)
    requires
        s@.len() <= 0x100_0000_0000_0000,
    ensures
        (match r {
            Some(m) => decimal_double(s@) == Some(m@) && m.m <= 0x20_0000_0000_0000
                && -0x800_0000_0000_0000 <= m.e <= 0x800_0000_0000_0000,
            None => decimal_double(s@) is None,
        }),
{
    let mut digits: Vec<u8> = Vec::new();
    let mut places: Option<usize> = None;
    let mut i: usize = s.len();
    proof {
        assert(s@.skip(i as int).len() == 0);
    }
    while i > 0
        invariant
            i <= s@.len() <= 0x100_0000_0000_0000,
            written(s@.skip(i as int)) == Some(
                Written {
                    digits: digits@,
                    places: (match places {
                        Some(p) => Some(p as nat),
                        None => None,
                    }),
                },
            ),
        decreases i,
    {
        let c: char = s[i - 1];
        proof {
            assert(s@.skip(i - 1).skip(1) =~= s@.skip(i as int));
        }
        if '0' <= c && c <= '9' {
            digits.push(c as u8 - 48);
        } else if c == '.' && places.is_none() {
            places = Some(digits.len());
        } else {
            proof {
                lemma_unwritten(s@, (i - 1) as nat);
            }
            return None;
        }
        i = i - 1;
    }
    proof {
        assert(s@.skip(0) =~= s@);
        lemma_written(s@);
    }
    if digits.len() == 0 {
        return None;
    }
    let behind: usize = match places {
        Some(p) => p,
        None => 0,
    };
    Some(nearest_decimal(digits, behind))
}

/// Whether a character is an ASCII letter.
pub open spec fn is_letter(c: char) -> bool {
    'a' <= c <= 'z' || 'A' <= c <= 'Z'
}

/// The position of the first ASCII letter, or the length where there is none.
pub open spec fn first_letter(s: Seq<char>) -> int
    decreases s.len(),
{
    if s.len() == 0 || is_letter(s[0]) {
        0
    } else {
        1 + first_letter(s.skip(1))
    }
}

proof fn lemma_first_letter(s: Seq<char>, i: int)
    requires
        0 <= i <= s.len(),
        forall|j: int| 0 <= j < i ==> !is_letter(#[trigger] s[j]),
        i == s.len() || is_letter(s[i]),
    ensures
        first_letter(s) == i,
    decreases s.len(),
{
    if i > 0 {
        assert(!is_letter(s[0]));
        assert forall|j: int| 0 <= j < i - 1 implies !is_letter(#[trigger] s.skip(1)[j]) by {
            assert(s.skip(1)[j] == s[j + 1]);
        }
        lemma_first_letter(s.skip(1), i - 1);
    }
}

/// How many bytes a unit stands for.
pub open spec fn unit_size(unit: Seq<char>) -> Option<nat> {
    if unit == ""@ || unit == "B"@ {
        Some(1)
    } else if unit == "KB"@ || unit == "K"@ {
        Some(1_000)
    } else if unit == "MB"@ || unit == "M"@ {
        Some(1_000_000)
    } else if unit == "KIB"@ {
        Some(1_024)
    } else if unit == "MIB"@ {
        Some(1_048_576)
    } else {
        None
    }
}

fn size_of_unit(unit: &str) -> (r: Option<u64>)
    ensures
        (match r {
            Some(n) => unit_size(unit@) == Some(n as nat),
            None => unit_size(unit@) is None,
        }),
{
    if text::same_text(unit, "") || text::same_text(unit, "B") {
        Some(1)
    } else if text::same_text(unit, "KB") || text::same_text(unit, "K") {
        Some(1_000)
    } else if text::same_text(unit, "MB") || text::same_text(unit, "M") {
        Some(1_000_000)
    } else if text::same_text(unit, "KIB") {
        Some(1_024)
    } else if text::same_text(unit, "MIB") {
        Some(1_048_576)
    } else {
        None
    }
}

/// What a size is read from: the text without the white space around it, in uppercase.
pub open spec fn normalized(s: Seq<char>) -> Seq<char> {
    scan::uppered(scan::trimmed(s))
}

/// The number in front of the unit.
pub open spec fn number_part(s: Seq<char>) -> Seq<char> {
    let t = normalized(s);
    scan::trimmed(t.take(first_letter(t)))
}

/// The unit, which begins with the first letter.
pub open spec fn unit_part(s: Seq<char>) -> Seq<char> {
    let t = normalized(s);
    scan::trimmed(t.skip(first_letter(t)))
}

/// A number of units as a number of bytes: the product as a double, rounded, but not above what
/// fits.
pub open spec fn bytes_in(number: Dyadic, unit: nat) -> u64 {
    let n = number.times(unit).rounded();
    if n > u64::MAX {
        u64::MAX
    } else {
        n as u64
    }
}

/// What a text says about a size.
pub open spec fn size_spec(s: Seq<char>) -> Result<u64, Seq<char>> {
    let number = number_part(s);
    match decimal_double(unsigned(number)) {
        None => Err("invalid size `"@ + s + "`"@),
        Some(v) => match unit_size(unit_part(s)) {
            None => Err("unknown unit `"@ + unit_part(s) + "`"@),
            Some(unit) => Ok(
                if number[0] == '-' {
                    0
                } else {
                    bytes_in(v, unit)
                },
            ),
        },
    }
}

/// Reads a size such as `1MB`, `500KB` or `0`. A negative one counts as nothing.
pub fn parse_bytes(s: &str) -> (r: Result<u64, String>)
    requires
        s@.len() <= 0x100_0000_0000_0000,
    ensures
        (match r {
            Ok(n) => size_spec(s@) == Ok::<u64, Seq<char>>(n),
            Err(message) => size_spec(s@) == Err::<u64, Seq<char>>(message@),
        }),
{
    let all: Vec<char> = text::chars_of(s);
    let bare: Vec<char> = scan::trim(all.as_slice());
    let t: Vec<char> = scan::uppercase(bare.as_slice());
    let mut i: usize = 0;
    while i < t.len() && !letter(t[i])
        invariant
            i <= t@.len(),
            forall|j: int| 0 <= j < i ==> !is_letter(#[trigger] t@[j]),
        decreases t@.len() - i,
    {
        i = i + 1;
    }
    proof {
        lemma_first_letter(t@, i as int);
        assert(t@.subrange(0, i as int) =~= t@.take(i as int));
        assert(t@.subrange(i as int, t@.len() as int) =~= t@.skip(i as int));
        lemma_trim_shortens(s@);
        lemma_trim_shortens(t@.take(i as int));
    }
    let number: Vec<char> = scan::trim(scan::part(t.as_slice(), 0, i).as_slice());
    let unit: Vec<char> = scan::trim(scan::part(t.as_slice(), i, t.len()).as_slice());
    let signed: bool = number.len() > 0 && (number[0] == '+' || number[0] == '-');
    let from: usize = if signed {
        1
    } else {
        0
    };
    let plain: Vec<char> = scan::part(number.as_slice(), from, number.len());
    proof {
        assert(plain@ =~= unsigned(number@));
    }
    let value: Magnitude = match parse_decimal(plain.as_slice()) {
        Some(v) => v,
        None => {
            let mut message: String = "invalid size `".to_string();
            message.append(s);
            message.append("`");
            return Err(message);
        },
    };
    let name: String = text::string_of(unit.as_slice());
    let size: u64 = match size_of_unit(name.as_str()) {
        Some(size) => size,
        None => {
            let mut message: String = "unknown unit `".to_string();
            message.append(name.as_str());
            message.append("`");
            return Err(message);
        },
    };
    proof {
        lemma_written(plain@);
        assert(number@.len() > 0);
    }
    if number[0] == '-' {
        return Ok(0);
    }
    Ok(value.times(size).rounded())
}

fn letter(c: char) -> (r: bool)
    ensures
        r == is_letter(c),
{
    ('a' <= c && c <= 'z') || ('A' <= c && c <= 'Z')
}

proof fn lemma_trim_shortens(s: Seq<char>)
    ensures
        scan::trimmed(s).len() <= s.len(),
{
    lemma_trim_start_shortens(s);
    lemma_trim_end_shortens(scan::trimmed_start(s));
}

proof fn lemma_trim_start_shortens(s: Seq<char>)
    ensures
        scan::trimmed_start(s).len() <= s.len(),
    decreases s.len(),
{
    if s.len() > 0 && scan::is_space(s[0]) {
        lemma_trim_start_shortens(s.skip(1));
    }
}

proof fn lemma_trim_end_shortens(s: Seq<char>)
    ensures
        scan::trimmed_end(s).len() <= s.len(),
    decreases s.len(),
{
    if s.len() > 0 && scan::is_space(s.last()) {
        lemma_trim_end_shortens(s.drop_last());
    }
}

/// Whether a unit, in whatever case, stands for a number of bytes.
pub open spec fn stands_for(unit: Seq<char>, size: nat) -> bool {
    ||| size == 1 && (unit.len() == 0 || names::same_but_for_case(unit, seq!['B']))
    ||| size == 1000 && (names::same_but_for_case(unit, seq!['K']) || names::same_but_for_case(
        unit,
        seq!['K', 'B'],
    ))
    ||| size == 1000 * 1000 && (names::same_but_for_case(unit, seq!['M'])
        || names::same_but_for_case(unit, seq!['M', 'B']))
    ||| size == 1024 && names::same_but_for_case(unit, seq!['K', 'I', 'B'])
    ||| size == 1024 * 1024 && names::same_but_for_case(unit, seq!['M', 'I', 'B'])
}

/// Whether a text is made of the digits 0 to 9.
pub open spec fn all_digits(s: Seq<char>) -> bool {
    forall|i: int| 0 <= i < s.len() ==> '0' <= #[trigger] s[i] <= '9'
}

/// Whether a text is made of white space.
pub open spec fn all_spaces(s: Seq<char>) -> bool {
    forall|i: int| 0 <= i < s.len() ==> scan::is_space(#[trigger] s[i])
}

/// Whether a text is made of letters.
pub open spec fn all_letters(s: Seq<char>) -> bool {
    forall|i: int|
        0 <= i < s.len() ==> 'a' <= #[trigger] s[i] <= 'z' || 'A' <= s[i] <= 'Z'
}

/// A decimal number: digits with or without a point and more digits.
pub open spec fn numeral(a: Seq<char>, point: bool, b: Seq<char>) -> Seq<char> {
    if point {
        a + seq!['.'] + b
    } else {
        a
    }
}

/// A size is the number of units that is written, whether with decimals or not, a plus sign or not,
/// in whatever case the unit is and wherever there is white space around the number and the unit. It
/// is rounded to whole bytes, but for what doubles lose: it is off by no more than 5/8, so that a
/// number without decimals is exact. A negative number counts as nothing.
pub proof fn lemma_sizes_are_read(
    spaces: (Seq<char>, Seq<char>, Seq<char>),
    sign: Option<char>,
    a: Seq<char>,
    point: bool,
    b: Seq<char>,
    unit: Seq<char>,
    size: nat,
)
    requires
        all_spaces(spaces.0) && all_spaces(spaces.1) && all_spaces(spaces.2),
        unit.len() == 0 ==> spaces.1.len() == 0,
        sign matches Some(c) ==> c == '+' || c == '-',
        all_digits(a) && all_digits(b),
        a.len() + b.len() > 0,
        !point ==> b.len() == 0,
        stands_for(unit, size),
        text::numeral_value(a + b) * size <= 0x1_0000_0000_0000 * vstd::arithmetic::power::pow(
            10,
            b.len(),
        ),
    ensures
        ({
            let signs = match sign {
                Some(c) => seq![c],
                None => Seq::empty(),
            };
            let s = spaces.0 + (signs + numeral(a, point, b)) + spaces.1 + unit + spaces.2;
            let exact = text::numeral_value(a + b) * size;
            let scale = vstd::arithmetic::power::pow(10, b.len());
            match size_spec(s) {
                Ok(n) => if sign == Some('-') {
                    n == 0
                } else {
                    &&& 8 * (n * scale - exact) <= 5 * scale
                    &&& 8 * (exact - n * scale) <= 5 * scale
                    &&& b.len() == 0 ==> n == exact
                },
                Err(_) => false,
            }
        }),
{
    let signs = match sign {
        Some(c) => seq![c],
        None => Seq::empty(),
    };
    let plain = numeral(a, point, b);
    let n = signs + plain;
    let s = spaces.0 + n + spaces.1 + unit + spaces.2;
    lemma_unit(unit, size);
    lemma_parts(spaces, n, unit);
    assert(number_part(s) == n);
    assert(unsigned(n) =~= plain) by {
        if sign is None {
            assert(plain[0] == (if a.len() > 0 {
                a[0]
            } else {
                '.'
            }));
            if a.len() > 0 {
                assert('0' <= a[0] <= '9');
            }
            assert(n =~= plain);
        } else {
            assert(n.skip(1) =~= plain);
        }
    }
    lemma_written_numeral(a, point, b);
    lemma_ten_is_the_power(b.len());
    let d = text::numeral_value(a + b) as nat;
    let p = ten(b.len());
    lemma_ten_pos(b.len());
    let v = binary64::nearest(d, p);
    assert(decimal_double(plain) == Some(v));
    assert(n[0] == (match sign {
        Some(c) => c,
        None => plain[0],
    }));
    let r = v.times(size).rounded();
    if d == 0 {
        binary64::lemma_nearest_significand(d, p);
        assert(size * 0 == 0);
        binary64::lemma_nearest_significand(0, 1);
        lemma_nothing_is_rounded(v.times(size));
        assert(r == 0);
        assert(d * size == 0) by (nonlinear_arith)
            requires
                d == 0,
        ;
        assert(0 * p == 0);
    } else {
        assert(d * size <= p * 0x1_0000_0000_0000) by (nonlinear_arith)
            requires
                d * size <= 0x1_0000_0000_0000 * p,
        ;
        binary64::lemma_multiple_is_near(d, p, size);
        assert(r <= 0x2_0000_0000_0000) by (nonlinear_arith)
            requires
                8 * (r * p - d * size) <= 5 * p,
                d * size <= p * 0x1_0000_0000_0000,
                p > 0,
        {
            assert(8 * (r * p) <= (0x8_0000_0000_0000 + 5) * p);
        }
        if b.len() == 0 {
            assert(p == 1);
            assert(r * 1 == r);
        }
    }
}

proof fn lemma_nothing_is_rounded(v: Dyadic)
    requires
        v.m == 0,
    ensures
        v.rounded() == 0,
{
    if v.e >= 0 {
        assert(0 * binary64::exp2(v.e as nat) == 0);
    } else {
        let h = binary64::exp2((-v.e - 1) as nat);
        binary64::lemma_exp2_pos((-v.e - 1) as nat);
        assert(binary64::exp2((-v.e) as nat) == 2 * h);
        vstd::arithmetic::div_mod::lemma_basic_div(h as int, (2 * h) as int);
    }
}

proof fn lemma_ten_is_the_power(k: nat)
    ensures
        ten(k) == vstd::arithmetic::power::pow(10, k),
    decreases k,
{
    vstd::arithmetic::power::lemma_pow0(10);
    if k > 0 {
        lemma_ten_is_the_power((k - 1) as nat);
        reveal(vstd::arithmetic::power::pow);
    }
}

/// Sizes with a unit that is none are refused, and so are those without a digit.
pub proof fn lemma_other_sizes_are_refused(
    a: Seq<char>,
    point: bool,
    b: Seq<char>,
    unit: Seq<char>,
)
    requires
        all_digits(a) && all_digits(b),
        !point ==> b.len() == 0,
        a.len() + b.len() == 0 || forall|size: nat| !#[trigger] stands_for(unit, size),
        all_letters(unit),
        point || a.len() > 0,
    ensures
        size_spec(numeral(a, point, b) + unit) is Err,
{
    let none = Seq::<char>::empty();
    let plain = numeral(a, point, b);
    let s = plain + unit;
    assert(none + plain + none + unit + none =~= s);
    assert(none + (none + plain) + none + unit + none =~= s);
    lemma_parts((none, none, none), plain, unit);
    assert(unsigned(plain) == plain) by {
        assert(plain[0] == (if a.len() > 0 {
            a[0]
        } else {
            '.'
        }));
        if a.len() > 0 {
            assert('0' <= a[0] <= '9');
        }
    }
    lemma_written_numeral(a, point, b);
    if a.len() + b.len() > 0 {
        lemma_unit_is_one(unit);
    }
}

proof fn lemma_upper(c: char)
    ensures
        !('a' <= c <= 'z') ==> scan::upper(c) == c,
        'a' <= c <= 'z' ==> scan::upper(c) as u32 == c as u32 - 32,
{
}

proof fn lemma_uppered_same(u: Seq<char>, v: Seq<char>)
    requires
        forall|i: int| 0 <= i < v.len() ==> 'A' <= #[trigger] v[i] <= 'Z',
    ensures
        scan::uppered(u) == v <==> names::same_but_for_case(u, v),
        names::same_but_for_case(u, v) ==> all_letters(u),
{
    let x = scan::uppered(u);
    if x == v {
        assert(u.len() == v.len());
        assert forall|i: int| 0 <= i < u.len() implies #[trigger] u[i] == v[i] || ('A' <= u[i]
            <= 'Z' && v[i] as u32 == u[i] as u32 + 32) || ('A' <= v[i] <= 'Z' && u[i] as u32
            == v[i] as u32 + 32) by {
            assert(x[i] == v[i]);
            lemma_upper(u[i]);
        }
    }
    if names::same_but_for_case(u, v) {
        assert forall|i: int| 0 <= i < u.len() implies x[i] == v[i] by {
            assert(u[i] == v[i] || ('A' <= u[i] <= 'Z' && v[i] as u32 == u[i] as u32 + 32) || ('A'
                <= v[i] <= 'Z' && u[i] as u32 == v[i] as u32 + 32));
            assert('A' <= v[i] <= 'Z');
            lemma_upper(u[i]);
        }
        assert(x =~= v);
        assert forall|i: int| 0 <= i < u.len() implies 'a' <= #[trigger] u[i] <= 'z' || 'A' <= u[i]
            <= 'Z' by {
            assert('A' <= v[i] <= 'Z');
        }
    }
}

proof fn lemma_units(unit: Seq<char>)
    ensures
        scan::uppered(unit) == "B"@ <==> names::same_but_for_case(unit, seq!['B']),
        scan::uppered(unit) == "K"@ <==> names::same_but_for_case(unit, seq!['K']),
        scan::uppered(unit) == "KB"@ <==> names::same_but_for_case(unit, seq!['K', 'B']),
        scan::uppered(unit) == "M"@ <==> names::same_but_for_case(unit, seq!['M']),
        scan::uppered(unit) == "MB"@ <==> names::same_but_for_case(unit, seq!['M', 'B']),
        scan::uppered(unit) == "KIB"@ <==> names::same_but_for_case(unit, seq!['K', 'I', 'B']),
        scan::uppered(unit) == "MIB"@ <==> names::same_but_for_case(unit, seq!['M', 'I', 'B']),
        scan::uppered(unit) == ""@ <==> unit.len() == 0,
        forall|size: nat| #[trigger] stands_for(unit, size) ==> all_letters(unit),
{
    reveal_strlit("");
    reveal_strlit("B");
    reveal_strlit("K");
    reveal_strlit("KB");
    reveal_strlit("M");
    reveal_strlit("MB");
    reveal_strlit("KIB");
    reveal_strlit("MIB");
    assert("B"@ =~= seq!['B'] && "K"@ =~= seq!['K'] && "KB"@ =~= seq!['K', 'B']);
    assert("M"@ =~= seq!['M'] && "MB"@ =~= seq!['M', 'B']);
    assert("KIB"@ =~= seq!['K', 'I', 'B'] && "MIB"@ =~= seq!['M', 'I', 'B']);
    lemma_uppered_same(unit, seq!['B']);
    lemma_uppered_same(unit, seq!['K']);
    lemma_uppered_same(unit, seq!['K', 'B']);
    lemma_uppered_same(unit, seq!['M']);
    lemma_uppered_same(unit, seq!['M', 'B']);
    lemma_uppered_same(unit, seq!['K', 'I', 'B']);
    lemma_uppered_same(unit, seq!['M', 'I', 'B']);
    if unit.len() == 0 {
        assert(scan::uppered(unit) =~= ""@);
    } else {
        assert(scan::uppered(unit).len() == unit.len());
    }
}

proof fn lemma_unit(unit: Seq<char>, size: nat)
    requires
        stands_for(unit, size),
    ensures
        unit_size(scan::uppered(unit)) == Some(size),
        all_letters(unit),
{
    lemma_units(unit);
    reveal_strlit("");
    reveal_strlit("B");
    reveal_strlit("K");
    reveal_strlit("KB");
    reveal_strlit("M");
    reveal_strlit("MB");
    reveal_strlit("KIB");
    reveal_strlit("MIB");
    let u = scan::uppered(unit);
    assert(u.len() == unit.len());
    if u.len() > 0 {
        assert(u == "M"@ || u == "MB"@ ==> u[0] == 'M');
        assert(u == "K"@ || u == "KB"@ ==> u[0] == 'K');
        assert(u == "MIB"@ ==> u[0] == 'M');
        assert(u == "KIB"@ ==> u[0] == 'K');
        assert(u == "B"@ ==> u[0] == 'B');
    }
}

proof fn lemma_unit_is_one(unit: Seq<char>)
    requires
        forall|size: nat| !#[trigger] stands_for(unit, size),
    ensures
        unit_size(scan::uppered(unit)) is None,
{
    lemma_units(unit);
    assert(!stands_for(unit, 1));
    assert(!stands_for(unit, 1000));
    assert(!stands_for(unit, 1000 * 1000));
    assert(!stands_for(unit, 1024));
    assert(!stands_for(unit, 1024 * 1024));
}

/// How a size falls into its parts.
proof fn lemma_parts(
    spaces: (Seq<char>, Seq<char>, Seq<char>),
    n: Seq<char>,
    unit: Seq<char>,
)
    requires
        all_spaces(spaces.0) && all_spaces(spaces.1) && all_spaces(spaces.2),
        unit.len() == 0 ==> spaces.1.len() == 0,
        n.len() > 0,
        forall|i: int|
            0 <= i < n.len() ==> '0' <= #[trigger] n[i] <= '9' || n[i] == '.' || n[i] == '+' || n[i]
                == '-',
        all_letters(unit),
    ensures
        ({
            let s = spaces.0 + n + spaces.1 + unit + spaces.2;
            number_part(s) == n && unit_part(s) == scan::uppered(unit)
        }),
{
    let s = spaces.0 + n + spaces.1 + unit + spaces.2;
    let m = n + spaces.1 + unit;
    assert(s =~= spaces.0 + m + spaces.2);
    assert(m[0] == n[0]);
    assert(m.last() == (if unit.len() > 0 {
        unit[unit.len() - 1]
    } else {
        n[n.len() - 1]
    }));
    assert('0' <= n[0] <= '9' || n[0] == '.' || n[0] == '+' || n[0] == '-');
    assert('0' <= n[n.len() - 1] <= '9' || n[n.len() - 1] == '.' || n[n.len() - 1] == '+' || n[n.len()
        - 1] == '-');
    if unit.len() > 0 {
        assert('a' <= unit[unit.len() - 1] <= 'z' || 'A' <= unit[unit.len() - 1] <= 'Z');
    }
    lemma_trim_around(spaces.0, m, spaces.2);
    let t = scan::uppered(m);
    let u = scan::uppered(unit);
    assert(normalized(s) == t);
    let k = n.len() + spaces.1.len();
    assert forall|i: int| 0 <= i < k implies #[trigger] t[i] == m[i] && !is_letter(t[i]) by {
        if i < n.len() {
            assert(m[i] == n[i]);
            assert('0' <= n[i] <= '9' || n[i] == '.' || n[i] == '+' || n[i] == '-');
        } else {
            assert(m[i] == spaces.1[i - n.len()]);
            assert(scan::is_space(spaces.1[i - n.len()]));
        }
        lemma_upper(m[i]);
    }
    assert forall|i: int| 0 <= i < u.len() implies is_letter(#[trigger] u[i]) by {
        assert('a' <= unit[i] <= 'z' || 'A' <= unit[i] <= 'Z');
        lemma_upper(unit[i]);
    }
    if unit.len() > 0 {
        assert(t[k as int] == u[0]);
        assert(is_letter(u[0]));
    }
    lemma_first_letter(t, k as int);
    let none = Seq::<char>::empty();
    assert(t.take(k as int) =~= none + n + spaces.1);
    lemma_trim_around(none, n, spaces.1);
    assert(t.skip(k as int) =~= u);
    if u.len() > 0 {
        assert(is_letter(u[0]) && is_letter(u[u.len() - 1]));
        assert(none + u + none =~= u);
        lemma_trim_around(none, u, none);
    } else {
        assert(scan::trimmed(u) =~= u);
    }
}

proof fn lemma_trim_around(before: Seq<char>, m: Seq<char>, after: Seq<char>)
    requires
        all_spaces(before) && all_spaces(after),
        m.len() > 0,
        !scan::is_space(m[0]),
        !scan::is_space(m.last()),
    ensures
        scan::trimmed(before + m + after) == m,
{
    lemma_trim_front(before, m + after);
    assert(before + m + after =~= before + (m + after));
    lemma_trim_back(m, after);
}

proof fn lemma_trim_front(before: Seq<char>, m: Seq<char>)
    requires
        all_spaces(before),
        m.len() > 0,
        !scan::is_space(m[0]),
    ensures
        scan::trimmed_start(before + m) == m,
    decreases before.len(),
{
    let s = before + m;
    if before.len() == 0 {
        assert(s =~= m);
    } else {
        assert(s[0] == before[0]);
        let rest = before.skip(1);
        assert forall|i: int| 0 <= i < rest.len() implies scan::is_space(#[trigger] rest[i]) by {
            assert(rest[i] == before[i + 1]);
        }
        assert(s.skip(1) =~= rest + m);
        lemma_trim_front(rest, m);
    }
}

proof fn lemma_trim_back(m: Seq<char>, after: Seq<char>)
    requires
        all_spaces(after),
        m.len() > 0,
        !scan::is_space(m.last()),
    ensures
        scan::trimmed_end(m + after) == m,
    decreases after.len(),
{
    let s = m + after;
    if after.len() == 0 {
        assert(s =~= m);
    } else {
        assert(scan::is_space(after[after.len() - 1]));
        assert(s.last() == after[after.len() - 1]);
        let rest = after.drop_last();
        assert forall|i: int| 0 <= i < rest.len() implies scan::is_space(#[trigger] rest[i]) by {
            assert(rest[i] == after[i]);
        }
        assert(s.drop_last() =~= m + rest);
        lemma_trim_back(m, rest);
    }
}

/// What a decimal number is written with.
proof fn lemma_written_numeral(a: Seq<char>, point: bool, b: Seq<char>)
    requires
        all_digits(a) && all_digits(b),
        !point ==> b.len() == 0,
    ensures
        (match written(numeral(a, point, b)) {
            Some(w) => {
                &&& w.digits.len() == a.len() + b.len()
                &&& value(w.digits) == text::numeral_value(a + b)
                &&& w.places == (if point {
                    Some(b.len())
                } else {
                    None
                })
            },
            None => false,
        }),
    decreases a.len() + b.len(), b.len(),
{
    let s = numeral(a, point, b);
    if a.len() > 0 {
        let rest = a.skip(1);
        assert forall|i: int| 0 <= i < rest.len() implies '0' <= #[trigger] rest[i] <= '9' by {
            assert(rest[i] == a[i + 1]);
        }
        lemma_written_numeral(rest, point, b);
        assert(s.skip(1) =~= numeral(rest, point, b));
        assert(s[0] == a[0]);
        assert('0' <= a[0] <= '9');
        assert((a + b).skip(1) =~= rest + b);
        assert((a + b)[0] == a[0]);
        let w = written(s.skip(1))->0;
        let digit = scan::digit_value(a[0]) as u8;
        assert(w.digits.push(digit).drop_last() =~= w.digits);
        assert forall|i: int| 0 <= i < (a + b).len() implies '0' <= #[trigger] (a + b)[i] <= '9' by {
            if i < a.len() {
                assert('0' <= a[i] <= '9');
            } else {
                assert('0' <= b[i - a.len()] <= '9');
            }
        }
        lemma_numeral_front(a + b);
    } else if point {
        assert(s.skip(1) =~= b);
        assert(s[0] == '.');
        if b.len() > 0 {
            let none = Seq::<char>::empty();
            lemma_written_numeral(b, false, none);
            assert(b + none =~= b);
            assert(numeral(b, false, none) =~= b);
        }
        assert(a + b =~= b);
    } else {
        assert(a + b =~= Seq::empty());
    }
}

proof fn lemma_numeral_front(s: Seq<char>)
    requires
        s.len() > 0,
        all_digits(s),
    ensures
        text::numeral_value(s) == (s[0] as u32 - 48) * ten((s.len() - 1) as nat)
            + text::numeral_value(s.skip(1)),
    decreases s.len(),
{
    let d = s[0] as u32 - 48;
    if s.len() == 1 {
        assert(s.skip(1) =~= Seq::empty());
        assert(s.drop_last() =~= Seq::empty());
        assert(text::numeral_value(s.drop_last()) == 0);
        assert(text::numeral_value(s.skip(1)) == 0);
        assert(ten(0) == 1);
        assert(d * 1 == d);
    } else {
        let front = s.drop_last();
        assert(front[0] == s[0]);
        lemma_numeral_front(front);
        assert(s.skip(1).drop_last() =~= front.skip(1));
        assert(s.skip(1).last() == s.last());
        let t = ten((front.len() - 1) as nat);
        assert(ten((s.len() - 1) as nat) == 10 * t);
        assert(10 * (d * t) == d * (10 * t)) by (nonlinear_arith);
    }
}

/// What is read of a text is the size that it states.
pub proof fn lemma_calls_read_sizes(s: &str, r: Result<u64, String>)
    requires
        call_ensures(parse_bytes, (s,), r),
    ensures
        r is Ok <==> size_spec(s@) is Ok,
        r matches Ok(n) ==> size_spec(s@)->Ok_0 == n,
{
}

} // verus!
