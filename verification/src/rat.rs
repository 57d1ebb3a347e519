//! Exact rational numbers used for heights, rates and times.
//!
//! An executable [`Rat`] stores a reduced fraction `num / den` with a
//! strictly positive denominator in `i64` fields; every operation works on
//! `i128` cross products (which cannot overflow for `i64` operands), reduces
//! by the greatest common divisor, and fails with `None` exactly when the
//! result value has no `i64` representation at all (the reduced quotients
//! are provably minimal among all pairs with the same ratio).
//! Specifications speak about the mathematical fraction [`Frac`], an
//! unreduced pair of unbounded integers, compared by cross multiplication.

use vstd::arithmetic::div_mod::{
    lemma_fundamental_div_mod, lemma_mod_bound, lemma_mod_self_0, lemma_small_mod,
};
use vstd::prelude::*;

verus! {

/// Mathematical fraction `n / d`, used only in specifications.
pub struct Frac {
    pub n: int,
    pub d: int,
}

/// A fraction is well formed when its denominator is strictly positive.
pub open spec fn frac_wf(a: Frac) -> bool {
    a.d > 0
}

/// `a == b` as rational numbers (valid for positive denominators).
pub open spec fn frac_eq(a: Frac, b: Frac) -> bool {
    a.n * b.d == b.n * a.d
}

/// `a <= b` as rational numbers (valid for positive denominators).
pub open spec fn frac_le(a: Frac, b: Frac) -> bool {
    a.n * b.d <= b.n * a.d
}

/// `a < b` as rational numbers (valid for positive denominators).
pub open spec fn frac_lt(a: Frac, b: Frac) -> bool {
    a.n * b.d < b.n * a.d
}

pub open spec fn frac_add(a: Frac, b: Frac) -> Frac {
    Frac { n: a.n * b.d + b.n * a.d, d: a.d * b.d }
}

pub open spec fn frac_sub(a: Frac, b: Frac) -> Frac {
    Frac { n: a.n * b.d - b.n * a.d, d: a.d * b.d }
}

pub open spec fn frac_mul(a: Frac, b: Frac) -> Frac {
    Frac { n: a.n * b.n, d: a.d * b.d }
}

/// `a / b`; the denominator sign is fixed up so that the result is well
/// formed whenever `a` is well formed and `b.n != 0`.
pub open spec fn frac_div(a: Frac, b: Frac) -> Frac {
    if b.n >= 0 {
        Frac { n: a.n * b.d, d: a.d * b.n }
    } else {
        Frac { n: -(a.n * b.d), d: -(a.d * b.n) }
    }
}

pub open spec fn frac_int(i: int) -> Frac {
    Frac { n: i, d: 1 }
}

/// Executable reduced fraction with a strictly positive denominator.
#[derive(Clone, Copy, Debug, PartialEq, Eq, Structural)]
pub struct Rat {
    num: i64,
    den: i64,
}

impl View for Rat {
    type V = Frac;

    closed spec fn view(&self) -> Frac {
        Frac { n: self.num as int, d: self.den as int }
    }
}

/// Greatest common divisor by Euclid's algorithm: the result divides
/// both inputs and is divided by every common divisor of them.
fn gcd_u128(a: u128, b: u128) -> (g: u128)
    requires
        b > 0,
    ensures
        g >= 1,
        a as int % g as int == 0,
        b as int % g as int == 0,
        forall|m: int|
            1 <= m && #[trigger] (a as int % m) == 0 && b as int % m == 0 ==> g as int % m == 0,
{
    let mut x: u128 = a;
    let mut y: u128 = b;
    while y != 0
        invariant
            x > 0 || y > 0,
            forall|m: int|
                1 <= m && #[trigger] (x as int % m) == 0 && y as int % m == 0 ==> a as int % m == 0
                    && b as int % m == 0,
            forall|m: int|
                1 <= m && #[trigger] (a as int % m) == 0 && b as int % m == 0 ==> x as int % m == 0
                    && y as int % m == 0,
        decreases y,
    {
        let r: u128 = x % y;
        proof {
            lemma_mod_bound(x as int, y as int);
            assert forall|m: int|
                1 <= m && #[trigger] (y as int % m) == 0 && r as int % m == 0 implies x as int % m
                == 0 && y as int % m == 0 by {
                lemma_divides_step(x as int, y as int, m);
            }
            assert forall|m: int|
                1 <= m && #[trigger] (a as int % m) == 0 && b as int % m == 0 implies y as int % m
                == 0 && r as int % m == 0 by {
                lemma_divides_rem(x as int, y as int, m);
            }
        }
        x = y;
        y = r;
    }
    proof {
        lemma_mod_self_0(x as int);
        lemma_small_mod(0, x as nat);
    }
    x
}

/// If `m` divides `x` and `y`, it divides the remainder `x % y`.
proof fn lemma_divides_rem(x: int, y: int, m: int)
    requires
        m >= 1,
        y >= 1,
        x >= 0,
        x % m == 0,
        y % m == 0,
    ensures
        (x % y) % m == 0,
{
    lemma_fundamental_div_mod(x, y);
    let q = x / y;
    let r = x % y;
    lemma_fundamental_div_mod(x, m);
    lemma_fundamental_div_mod(y, m);
    let kx = x / m;
    let ky = y / m;
    assert(x == m * kx);
    assert(y == m * ky);
    assert(r == m * (kx - ky * q)) by (nonlinear_arith)
        requires
            x == y * q + r,
            x == m * kx,
            y == m * ky,
    ;
    lemma_mod_bound(x, y);
    lemma_mul_mod_zero_any(r, m, kx - ky * q);
}

/// A multiple of `m` (of any sign) leaves remainder zero.
proof fn lemma_mul_mod_zero_any(x: int, m: int, k: int)
    requires
        m >= 1,
        x == m * k,
    ensures
        x % m == 0,
{
    vstd::arithmetic::div_mod::lemma_mod_multiples_basic(k, m);
    assert(k * m == m * k) by (nonlinear_arith);
}

/// If `m` divides `y` and `m` divides `x % y`, then `m` divides `x`.
proof fn lemma_divides_step(x: int, y: int, m: int)
    requires
        m >= 1,
        y >= 1,
        x >= 0,
        y % m == 0,
        (x % y) % m == 0,
    ensures
        x % m == 0,
{
    lemma_fundamental_div_mod(x, y);
    let q = x / y;
    let r = x % y;
    assert(x == y * q + r);
    let ky = y / m;
    let kr = r / m;
    lemma_fundamental_div_mod(y, m);
    lemma_fundamental_div_mod(r, m);
    assert(y == m * ky);
    assert(r == m * kr);
    assert(x == m * (ky * q + kr)) by (nonlinear_arith)
        requires
            x == y * q + r,
            y == m * ky,
            r == m * kr,
    ;
    lemma_mul_mod_zero_any(x, m, ky * q + kr);
}

/// Mathematical greatest common divisor, used only to state coprimality.
pub open spec fn gcd_s(a: int, b: int) -> int
    recommends
        a >= 0,
        b >= 0,
    decreases b,
    when b >= 0
{
    if b <= 0 {
        a
    } else {
        gcd_s(b, a % b)
    }
}

/// `gcd_s` divides both of its arguments.
proof fn lemma_gcd_s_divides(a: int, b: int)
    requires
        a >= 0,
        b >= 0,
    ensures
        b > 0 ==> gcd_s(a, b) >= 1,
        gcd_s(a, b) >= 1 ==> a % gcd_s(a, b) == 0 && b % gcd_s(a, b) == 0,
    decreases b,
{
    if b > 0 {
        lemma_mod_bound(a, b);
        lemma_gcd_s_divides(b, a % b);
        let g = gcd_s(a, b);
        if a % b == 0 {
            assert(g == b);
            lemma_mod_self_0(b);
        } else {
            lemma_divides_step(a, b, g);
        }
    }
}

/// Bezout coefficients: `a * x + b * y == gcd_s(a, b)`.
proof fn lemma_bezout(a: int, b: int) -> (r: (int, int))
    requires
        a >= 0,
        b >= 0,
    ensures
        a * r.0 + b * r.1 == gcd_s(a, b),
    decreases b,
{
    if b <= 0 {
        assert(a * 1 + b * 0 == a) by (nonlinear_arith);
        (1, 0)
    } else {
        lemma_mod_bound(a, b);
        let (x, y) = lemma_bezout(b, a % b);
        lemma_fundamental_div_mod(a, b);
        let q = a / b;
        assert(a * y + b * (x - q * y) == b * x + (a - b * q) * y) by (nonlinear_arith);
        assert(b * x + (a % b) * y == gcd_s(a, b));
        assert((a - b * q) * y == (a % b) * y) by (nonlinear_arith)
            requires
                a % b == a - b * q,
        ;
        (y, x - q * y)
    }
}

/// Euclid's lemma: a divisor of a product that is coprime to one factor
/// divides the other.
proof fn lemma_coprime_divides(d: int, a: int, b: int)
    requires
        d >= 1,
        a >= 0,
        b >= 0,
        (a * b) % d == 0,
        gcd_s(d, a) == 1,
    ensures
        b % d == 0,
{
    let (x, y) = lemma_bezout(d, a);
    assert(d * x + a * y == 1);
    lemma_fundamental_div_mod(a * b, d);
    let k = (a * b) / d;
    assert(a * b == d * k);
    assert(b == d * (b * x + k * y)) by (nonlinear_arith)
        requires
            d * x + a * y == 1,
            a * b == d * k,
    ;
    lemma_mul_mod_zero_any(b, d, b * x + k * y);
}

/// Representability transfers along rational equality.
proof fn lemma_representable_transfer(f: Frac, g: Frac)
    requires
        frac_wf(f),
        frac_wf(g),
        frac_eq(f, g),
        representable(f),
    ensures
        representable(g),
{
    let (n, d) = choose|n: int, d: int|
        -(i64::MAX as int) <= n <= i64::MAX as int && 1 <= d <= i64::MAX as int && #[trigger] (n
            * f.d) == #[trigger] (f.n * d);
    assert(n * g.d == g.n * d) by (nonlinear_arith)
        requires
            n * f.d == f.n * d,
            f.n * g.d == g.n * f.d,
            f.d >= 1,
    ;
}

/// Whether a fraction is representable depends only on its value.
pub proof fn lemma_representable_congr(f: Frac, g: Frac)
    requires
        frac_wf(f),
        frac_wf(g),
        frac_eq(f, g),
    ensures
        representable(f) <==> representable(g),
{
    if representable(f) {
        lemma_representable_transfer(f, g);
    }
    if representable(g) {
        lemma_representable_transfer(g, f);
    }
}

/// A positive divisor of a positive number is at most that number.
proof fn lemma_divisor_le(m: int, x: int)
    requires
        m >= 1,
        x >= 1,
        x % m == 0,
    ensures
        m <= x,
{
    lemma_fundamental_div_mod(x, m);
    let k = x / m;
    assert(x == m * k);
    assert(k >= 1) by (nonlinear_arith)
        requires
            x == m * k,
            x >= 1,
            m >= 1,
    ;
    assert(m <= m * k) by (nonlinear_arith)
        requires
            k >= 1,
            m >= 1,
    ;
}

/// The quotients by the greatest common divisor are minimal among all
/// pairs with the same ratio: any representation `nm / dp` of the value
/// `mag / wd` has `d2 <= dp` and `n2 <= nm`.
proof fn lemma_reduced_minimal(mag: int, wd: int, g: int, n2: int, d2: int, nm: int, dp: int)
    requires
        mag >= 0,
        wd >= 1,
        g >= 1,
        n2 >= 0,
        d2 >= 1,
        mag == g * n2,
        wd == g * d2,
        forall|m: int| 1 <= m && #[trigger] (mag % m) == 0 && wd % m == 0 ==> g % m == 0,
        nm >= 0,
        dp >= 1,
        nm * d2 == n2 * dp,
    ensures
        d2 <= dp,
        n2 <= nm,
{
    let e = gcd_s(d2, n2);
    lemma_gcd_s_divides(d2, n2);
    if n2 == 0 {
        assert(e == d2);
        lemma_mod_self_0(d2);
        lemma_small_mod(0, d2 as nat);
    }
    assert(e >= 1);
    assert(d2 % e == 0 && n2 % e == 0);
    lemma_fundamental_div_mod(n2, e);
    lemma_fundamental_div_mod(d2, e);
    let kn = n2 / e;
    let kd = d2 / e;
    assert(mag == (e * g) * kn) by (nonlinear_arith)
        requires
            mag == g * n2,
            n2 == e * kn,
    ;
    assert(wd == (e * g) * kd) by (nonlinear_arith)
        requires
            wd == g * d2,
            d2 == e * kd,
    ;
    assert(e * g >= 1) by (nonlinear_arith)
        requires
            e >= 1,
            g >= 1,
    ;
    lemma_mul_mod_zero_any(mag, e * g, kn);
    lemma_mul_mod_zero_any(wd, e * g, kd);
    assert(g % (e * g) == 0);
    lemma_divisor_le(e * g, g);
    assert(e == 1) by (nonlinear_arith)
        requires
            e * g <= g,
            g >= 1,
            e >= 1,
    ;
    assert(n2 * dp == d2 * nm) by (nonlinear_arith)
        requires
            nm * d2 == n2 * dp,
    ;
    lemma_mul_mod_zero_any(n2 * dp, d2, nm);
    lemma_coprime_divides(d2, n2, dp);
    lemma_divisor_le(d2, dp);
    assert(n2 * dp <= nm * dp) by (nonlinear_arith)
        requires
            n2 * dp == nm * d2,
            d2 <= dp,
            nm >= 0,
    ;
    assert(n2 <= nm) by (nonlinear_arith)
        requires
            n2 * dp <= nm * dp,
            dp >= 1,
    ;
}

/// Some fraction with an `i64`-range numerator and a positive
/// `i64`-range denominator has exactly the value of `f`.
pub open spec fn representable(f: Frac) -> bool {
    exists|n: int, d: int|
        -(i64::MAX as int) <= n <= i64::MAX as int && 1 <= d <= i64::MAX as int && #[trigger] (n
            * f.d) == #[trigger] (f.n * d)
}

/// Reduce the wide fraction `wn / wd` and narrow it into a [`Rat`].
/// Returns `Some` exactly when the value of `wn / wd` has an `i64`
/// representation at all: the quotients by the greatest common divisor
/// are minimal among all pairs with the same ratio.
fn rat_norm(wn: i128, wd: i128) -> (r: Option<Rat>)
    requires
        wd > 0,
        wn > i128::MIN,
    ensures
        r matches Some(c) ==> c@.d > 0 && frac_eq(c@, Frac { n: wn as int, d: wd as int }),
        -(i64::MAX as int) <= wn as int <= i64::MAX as int && wd as int <= i64::MAX as int ==> r
            is Some,
        r is Some <==> representable(Frac { n: wn as int, d: wd as int }),
{
    let neg: bool = wn < 0;
    let mag: u128 = if wn < 0 {
        (-wn) as u128
    } else {
        wn as u128
    };
    let dd: u128 = wd as u128;
    let g: u128 = gcd_u128(mag, dd);
    let n2: u128 = mag / g;
    let d2: u128 = dd / g;
    proof {
        lemma_fundamental_div_mod(mag as int, g as int);
        lemma_fundamental_div_mod(dd as int, g as int);
        assert(mag as int == g as int * n2 as int);
        assert(dd as int == g as int * d2 as int);
        assert(d2 as int >= 1) by (nonlinear_arith)
            requires
                dd as int == g as int * d2 as int,
                dd as int >= 1,
                g as int >= 1,
                d2 as int >= 0,
        ;
        vstd::arithmetic::div_mod::lemma_div_nonincreasing(mag as int, g as int);
        vstd::arithmetic::div_mod::lemma_div_nonincreasing(dd as int, g as int);
    }
    if n2 <= 0x7fff_ffff_ffff_ffff && d2 <= 0x7fff_ffff_ffff_ffff {
        let num: i64 = if neg {
            -(n2 as i64)
        } else {
            n2 as i64
        };
        let den: i64 = d2 as i64;
        proof {
            assert(n2 as int * dd as int == mag as int * d2 as int) by (nonlinear_arith)
                requires
                    mag as int == g as int * n2 as int,
                    dd as int == g as int * d2 as int,
            ;
            if neg {
                assert(num as int * wd as int == wn as int * den as int) by (nonlinear_arith)
                    requires
                        num as int == -(n2 as int),
                        wn as int == -(mag as int),
                        wd as int == dd as int,
                        den as int == d2 as int,
                        n2 as int * dd as int == mag as int * d2 as int,
                ;
            } else {
                assert(num as int * wd as int == wn as int * den as int);
            }
            let f = Frac { n: wn as int, d: wd as int };
            assert(num as int * f.d == f.n * (den as int));
            assert(representable(f));
        }
        Some(Rat { num, den })
    } else {
        proof {
            let f = Frac { n: wn as int, d: wd as int };
            assert(!representable(f)) by {
                if representable(f) {
                    let (np, dp) = choose|np: int, dp: int|
                        -(i64::MAX as int) <= np <= i64::MAX as int && 1 <= dp <= i64::MAX as int
                            && #[trigger] (np * f.d) == #[trigger] (f.n * dp);
                    let nm: int = if wn >= 0 {
                        np
                    } else {
                        -np
                    };
                    if wn >= 0 {
                        assert(np >= 0) by (nonlinear_arith)
                            requires
                                np * (wd as int) == (wn as int) * dp,
                                wd as int >= 1,
                                dp >= 1,
                                wn as int >= 0,
                        ;
                        assert(nm * (d2 as int) == (n2 as int) * dp) by (nonlinear_arith)
                            requires
                                np * (wd as int) == (wn as int) * dp,
                                wd as int == g as int * d2 as int,
                                wn as int == g as int * n2 as int,
                                g as int >= 1,
                                nm == np,
                        ;
                    } else {
                        assert(np <= 0) by (nonlinear_arith)
                            requires
                                np * (wd as int) == (wn as int) * dp,
                                wd as int >= 1,
                                dp >= 1,
                                (wn as int) < 0,
                        ;
                        assert(nm * (d2 as int) == (n2 as int) * dp) by (nonlinear_arith)
                            requires
                                np * (wd as int) == (wn as int) * dp,
                                wd as int == g as int * d2 as int,
                                wn as int == -(g as int * n2 as int),
                                g as int >= 1,
                                nm == -np,
                        ;
                    }
                    lemma_reduced_minimal(
                        mag as int,
                        wd as int,
                        g as int,
                        n2 as int,
                        d2 as int,
                        nm,
                        dp,
                    );
                    assert(false);
                }
            }
        }
        None
    }
}

/// `|a * b| <= m * m` for factors bounded by `m` in magnitude.
proof fn lemma_prod_bound(a: int, b: int, m: int)
    by (nonlinear_arith)
    requires
        0 <= m,
        -m <= a <= m,
        -m <= b <= m,
    ensures
        -(m * m) <= a * b <= m * m,
{
}

/// Bound on the product of an `i64` numerator and an `i64` denominator.
proof fn lemma_num_den_bound(a: int, b: int)
    by (nonlinear_arith)
    requires
        -0x8000_0000_0000_0000 <= a <= 0x7fff_ffff_ffff_ffff,
        1 <= b <= 0x7fff_ffff_ffff_ffff,
    ensures
        -0x3fff_ffff_ffff_ffff_8000_0000_0000_0000 <= a * b
            <= 0x3fff_ffff_ffff_ffff_8000_0000_0000_0000,
{
}

/// The product of two positive numbers is positive.
proof fn lemma_pos_prod(a: int, b: int)
    by (nonlinear_arith)
    requires
        a > 0,
        b > 0,
    ensures
        a * b > 0,
{
}

impl Rat {
    /// Denominators are strictly positive on every executable value.
    #[verifier::type_invariant]
    pub open spec fn inv(self) -> bool {
        frac_wf(self@)
    }

    /// Build the rational `num / den`.  Fails only for a zero denominator
    /// or when the sign-normalised reduced fraction does not fit in `i64`.
    pub fn new(num: i64, den: i64) -> (r: Option<Rat>)
        ensures
            den == 0 ==> r is None,
            r matches Some(c) ==> c@.d > 0 && frac_eq(c@, Frac { n: num as int, d: den as int }),
            den > 0 && num > i64::MIN ==> r is Some,
    {
        if den == 0 {
            return None;
        }
        let mut wn: i128 = num as i128;
        let mut wd: i128 = den as i128;
        if wd < 0 {
            wn = -wn;
            wd = -wd;
        }
        let r = rat_norm(wn, wd);
        proof {
            if r is Some {
                let c = r->Some_0;
                lemma_frac_eq_neg(c@, num as int, den as int, wn as int, wd as int);
            }
        }
        r
    }

    /// The integer `v` as a rational.
    pub fn from_int(v: i64) -> (r: Rat)
        ensures
            r@ == (Frac { n: v as int, d: 1 }),
    {
        Rat { num: v, den: 1 }
    }

    /// Reduced numerator.
    pub fn num(self) -> (r: i64)
        ensures
            r as int == self@.n,
    {
        self.num
    }

    /// Reduced (strictly positive) denominator.
    pub fn den(self) -> (r: i64)
        ensures
            r as int == self@.d,
            r > 0,
    {
        proof {
            use_type_invariant(self);
        }
        self.den
    }

    /// Exact rational sum; `None` only when the reduced result overflows
    /// `i64`, and never when the unreduced cross products already fit.
    pub fn add(self, other: Rat) -> (r: Option<Rat>)
        ensures
            r matches Some(c) ==> c@.d > 0 && frac_eq(c@, frac_add(self@, other@)),
            ({
                let f = frac_add(self@, other@);
                -(i64::MAX as int) <= f.n <= i64::MAX as int && f.d <= i64::MAX as int
            }) ==> r is Some,
            r is Some <==> representable(frac_add(self@, other@)),
    {
        proof {
            use_type_invariant(self);
            use_type_invariant(other);
            lemma_num_den_bound(self.num as int, other.den as int);
            lemma_num_den_bound(other.num as int, self.den as int);
            lemma_pos_prod(self.den as int, other.den as int);
            lemma_num_den_bound(self.den as int, other.den as int);
        }
        let wn: i128 = self.num as i128 * other.den as i128 + other.num as i128 * self.den as i128;
        let wd: i128 = self.den as i128 * other.den as i128;
        rat_norm(wn, wd)
    }

    /// Exact rational difference; `None` only on `i64` overflow of the
    /// reduced result, and never when the unreduced cross products fit.
    pub fn sub(self, other: Rat) -> (r: Option<Rat>)
        ensures
            r matches Some(c) ==> c@.d > 0 && frac_eq(c@, frac_sub(self@, other@)),
            ({
                let f = frac_sub(self@, other@);
                -(i64::MAX as int) <= f.n <= i64::MAX as int && f.d <= i64::MAX as int
            }) ==> r is Some,
            r is Some <==> representable(frac_sub(self@, other@)),
    {
        proof {
            use_type_invariant(self);
            use_type_invariant(other);
            lemma_num_den_bound(self.num as int, other.den as int);
            lemma_num_den_bound(other.num as int, self.den as int);
            lemma_pos_prod(self.den as int, other.den as int);
            lemma_num_den_bound(self.den as int, other.den as int);
        }
        let wn: i128 = self.num as i128 * other.den as i128 - other.num as i128 * self.den as i128;
        let wd: i128 = self.den as i128 * other.den as i128;
        rat_norm(wn, wd)
    }

    /// Exact rational product; `None` only on `i64` overflow of the
    /// reduced result, and never when the unreduced cross products fit.
    pub fn mul(self, other: Rat) -> (r: Option<Rat>)
        ensures
            r matches Some(c) ==> c@.d > 0 && frac_eq(c@, frac_mul(self@, other@)),
            ({
                let f = frac_mul(self@, other@);
                -(i64::MAX as int) <= f.n <= i64::MAX as int && f.d <= i64::MAX as int
            }) ==> r is Some,
            r is Some <==> representable(frac_mul(self@, other@)),
    {
        proof {
            use_type_invariant(self);
            use_type_invariant(other);
            lemma_prod_bound(self.num as int, other.num as int, i64::MAX as int + 1);
            lemma_pos_prod(self.den as int, other.den as int);
            lemma_num_den_bound(self.den as int, other.den as int);
        }
        let wn: i128 = self.num as i128 * other.num as i128;
        let wd: i128 = self.den as i128 * other.den as i128;
        rat_norm(wn, wd)
    }

    /// Exact rational quotient; `None` exactly when `other` is zero or the
    /// reduced result overflows `i64`, and never on a nonzero divisor when
    /// the unreduced cross products already fit.
    pub fn div(self, other: Rat) -> (r: Option<Rat>)
        ensures
            r matches Some(c) ==> c@.d > 0 && frac_eq(c@, frac_div(self@, other@)),
            other@.n == 0 ==> r is None,
            r is Some ==> other@.n != 0,
            ({
                let f = frac_div(self@, other@);
                other@.n != 0 && -(i64::MAX as int) <= f.n <= i64::MAX as int && f.d <= i64::MAX
                    as int
            }) ==> r is Some,
            r is Some <==> other@.n != 0 && representable(frac_div(self@, other@)),
    {
        proof {
            use_type_invariant(self);
            use_type_invariant(other);
            lemma_num_den_bound(self.num as int, other.den as int);
            lemma_prod_bound(self.den as int, other.num as int, i64::MAX as int + 1);
        }
        if other.num == 0 {
            return None;
        }
        let mut wn: i128 = self.num as i128 * other.den as i128;
        let mut wd: i128 = self.den as i128 * other.num as i128;
        if wd < 0 {
            proof {
                lemma_prod_sign(self.den as int, other.num as int, wd as int);
                assert(other@.n < 0);
            }
            wn = -wn;
            wd = -wd;
            rat_norm(wn, wd)
        } else {
            proof {
                lemma_prod_sign(self.den as int, other.num as int, wd as int);
                assert(other@.n > 0);
            }
            rat_norm(wn, wd)
        }
    }

    /// `self <= other` as rationals.
    pub fn le(self, other: Rat) -> (r: bool)
        ensures
            r == frac_le(self@, other@),
    {
        proof {
            use_type_invariant(self);
            use_type_invariant(other);
            lemma_num_den_bound(self.num as int, other.den as int);
            lemma_num_den_bound(other.num as int, self.den as int);
        }
        (self.num as i128 * other.den as i128) <= (other.num as i128 * self.den as i128)
    }

    /// `self < other` as rationals.
    pub fn lt(self, other: Rat) -> (r: bool)
        ensures
            r == frac_lt(self@, other@),
    {
        proof {
            use_type_invariant(self);
            use_type_invariant(other);
            lemma_num_den_bound(self.num as int, other.den as int);
            lemma_num_den_bound(other.num as int, self.den as int);
        }
        (self.num as i128 * other.den as i128) < (other.num as i128 * self.den as i128)
    }

    /// Equality as rationals (also reflected by `==`, since values are reduced).
    pub fn eq_rat(self, other: Rat) -> (r: bool)
        ensures
            r == frac_eq(self@, other@),
    {
        proof {
            use_type_invariant(self);
            use_type_invariant(other);
            lemma_num_den_bound(self.num as int, other.den as int);
            lemma_num_den_bound(other.num as int, self.den as int);
        }
        (self.num as i128 * other.den as i128) == (other.num as i128 * self.den as i128)
    }

    /// Strictly negative test.
    pub fn is_neg(self) -> (r: bool)
        ensures
            r == frac_lt(self@, frac_int(0)),
    {
        proof {
            use_type_invariant(self);
        }
        self.num < 0
    }
}

/// Rational equality is transitive (over positive denominators).
pub proof fn lemma_frac_eq_trans(a: Frac, b: Frac, c: Frac)
    by (nonlinear_arith)
    requires
        frac_wf(a),
        frac_wf(b),
        frac_wf(c),
        frac_eq(a, b),
        frac_eq(b, c),
    ensures
        frac_eq(a, c),
{
}

/// Rational order is transitive (over positive denominators).
pub proof fn lemma_frac_le_trans(a: Frac, b: Frac, c: Frac)
    by (nonlinear_arith)
    requires
        frac_wf(a),
        frac_wf(b),
        frac_wf(c),
        frac_le(a, b),
        frac_le(b, c),
    ensures
        frac_le(a, c),
{
}

/// Equal fractions compare equally against equal fractions.
pub proof fn lemma_frac_cmp_congr(a: Frac, a2: Frac, b: Frac, b2: Frac)
    by (nonlinear_arith)
    requires
        frac_wf(a),
        frac_wf(a2),
        frac_wf(b),
        frac_wf(b2),
        frac_eq(a, a2),
        frac_eq(b, b2),
    ensures
        frac_le(a, b) == frac_le(a2, b2),
        frac_lt(a, b) == frac_lt(a2, b2),
        frac_eq(a, b) == frac_eq(a2, b2),
{
}

/// Addition respects rational equality.
#[verifier::rlimit(100)]
pub proof fn lemma_frac_add_congr(a: Frac, a2: Frac, b: Frac, b2: Frac)
    requires
        frac_wf(a),
        frac_wf(a2),
        frac_wf(b),
        frac_wf(b2),
        frac_eq(a, a2),
        frac_eq(b, b2),
    ensures
        frac_eq(frac_add(a, b), frac_add(a2, b2)),
{
    let an = a.n;
    let ad = a.d;
    let bn = b.n;
    let bd = b.d;
    let cn = a2.n;
    let cd = a2.d;
    let en = b2.n;
    let ed = b2.d;
    assert((an * bd + bn * ad) * (cd * ed) == (an * bd) * (cd * ed) + (bn * ad) * (cd * ed))
        by (nonlinear_arith);
    assert((an * bd) * (cd * ed) == (an * cd) * (bd * ed)) by (nonlinear_arith);
    assert((bn * ad) * (cd * ed) == (bn * ed) * (ad * cd)) by (nonlinear_arith);
    assert((cn * ed + en * cd) * (ad * bd) == (cn * ed) * (ad * bd) + (en * cd) * (ad * bd))
        by (nonlinear_arith);
    assert((cn * ed) * (ad * bd) == (cn * ad) * (bd * ed)) by (nonlinear_arith);
    assert((en * cd) * (ad * bd) == (en * bd) * (ad * cd)) by (nonlinear_arith);
}

/// Subtraction respects rational equality.
#[verifier::rlimit(100)]
pub proof fn lemma_frac_sub_congr(a: Frac, a2: Frac, b: Frac, b2: Frac)
    requires
        frac_wf(a),
        frac_wf(a2),
        frac_wf(b),
        frac_wf(b2),
        frac_eq(a, a2),
        frac_eq(b, b2),
    ensures
        frac_eq(frac_sub(a, b), frac_sub(a2, b2)),
{
    let an = a.n;
    let ad = a.d;
    let bn = b.n;
    let bd = b.d;
    let cn = a2.n;
    let cd = a2.d;
    let en = b2.n;
    let ed = b2.d;
    assert((an * bd - bn * ad) * (cd * ed) == (an * bd) * (cd * ed) - (bn * ad) * (cd * ed))
        by (nonlinear_arith);
    assert((an * bd) * (cd * ed) == (an * cd) * (bd * ed)) by (nonlinear_arith);
    assert((bn * ad) * (cd * ed) == (bn * ed) * (ad * cd)) by (nonlinear_arith);
    assert((cn * ed - en * cd) * (ad * bd) == (cn * ed) * (ad * bd) - (en * cd) * (ad * bd))
        by (nonlinear_arith);
    assert((cn * ed) * (ad * bd) == (cn * ad) * (bd * ed)) by (nonlinear_arith);
    assert((en * cd) * (ad * bd) == (en * bd) * (ad * cd)) by (nonlinear_arith);
}

/// Multiplication respects rational equality.
#[verifier::rlimit(100)]
pub proof fn lemma_frac_mul_congr(a: Frac, a2: Frac, b: Frac, b2: Frac)
    requires
        frac_wf(a),
        frac_wf(a2),
        frac_wf(b),
        frac_wf(b2),
        frac_eq(a, a2),
        frac_eq(b, b2),
    ensures
        frac_eq(frac_mul(a, b), frac_mul(a2, b2)),
{
    let l = frac_mul(a, b);
    let r = frac_mul(a2, b2);
    assert(l.n * r.d == (a.n * a2.d) * (b.n * b2.d)) by (nonlinear_arith)
        requires
            l.n == a.n * b.n,
            r.d == a2.d * b2.d,
    ;
    assert(r.n * l.d == (a2.n * a.d) * (b2.n * b.d)) by (nonlinear_arith)
        requires
            r.n == a2.n * b2.n,
            l.d == a.d * b.d,
    ;
}

/// Division by a positive fraction respects rational equality.
pub proof fn lemma_frac_div_congr(a: Frac, a2: Frac, b: Frac, b2: Frac)
    by (nonlinear_arith)
    requires
        frac_wf(a),
        frac_wf(a2),
        frac_wf(b),
        frac_wf(b2),
        b.n > 0,
        b2.n > 0,
        frac_eq(a, a2),
        frac_eq(b, b2),
    ensures
        frac_eq(frac_div(a, b), frac_div(a2, b2)),
{
}

/// Adding zero changes nothing.
pub proof fn lemma_frac_add_zero(a: Frac)
    by (nonlinear_arith)
    requires
        frac_wf(a),
    ensures
        frac_eq(frac_add(a, frac_int(0)), a),
        frac_eq(frac_add(frac_int(0), a), a),
{
}

/// `(a - b) + b == a`.
pub proof fn lemma_frac_sub_add(a: Frac, b: Frac)
    by (nonlinear_arith)
    requires
        frac_wf(a),
        frac_wf(b),
    ensures
        frac_eq(frac_add(frac_sub(a, b), b), a),
        frac_eq(frac_add(b, frac_sub(a, b)), a),
{
}

/// Addition is commutative and associative up to rational equality.
#[verifier::rlimit(100)]
pub proof fn lemma_frac_add_comm_assoc(a: Frac, b: Frac, c: Frac)
    requires
        frac_wf(a),
        frac_wf(b),
        frac_wf(c),
    ensures
        frac_eq(frac_add(a, b), frac_add(b, a)),
        frac_eq(frac_add(frac_add(a, b), c), frac_add(a, frac_add(b, c))),
{
    let l = frac_add(frac_add(a, b), c);
    let r = frac_add(a, frac_add(b, c));
    assert(l.n == r.n && l.d == r.d) by (nonlinear_arith)
        requires
            l.n == (a.n * b.d + b.n * a.d) * c.d + c.n * (a.d * b.d),
            l.d == (a.d * b.d) * c.d,
            r.n == a.n * (b.d * c.d) + (b.n * c.d + c.n * b.d) * a.d,
            r.d == a.d * (b.d * c.d),
    ;
}

/// Addition is monotone in each argument.
pub proof fn lemma_frac_add_le_mono(a: Frac, b: Frac, c: Frac)
    by (nonlinear_arith)
    requires
        frac_wf(a),
        frac_wf(b),
        frac_wf(c),
        frac_le(b, c),
    ensures
        frac_le(frac_add(a, b), frac_add(a, c)),
        frac_le(frac_add(b, a), frac_add(c, a)),
{
}

/// Subtracting a fixed fraction is monotone.
pub proof fn lemma_frac_sub_le_mono(a: Frac, b: Frac, c: Frac)
    requires
        frac_wf(a),
        frac_wf(b),
        frac_wf(c),
        frac_le(a, b),
    ensures
        frac_le(frac_sub(a, c), frac_sub(b, c)),
{
    let an = a.n;
    let ad = a.d;
    let bn = b.n;
    let bd = b.d;
    let cn = c.n;
    let cd = c.d;
    assert((an * cd - cn * ad) * (bd * cd) == (an * cd) * (bd * cd) - (cn * ad) * (bd * cd))
        by (nonlinear_arith);
    assert((an * cd) * (bd * cd) == (an * bd) * (cd * cd)) by (nonlinear_arith);
    assert((cn * ad) * (bd * cd) == (cn * cd) * (ad * bd)) by (nonlinear_arith);
    assert((bn * cd - cn * bd) * (ad * cd) == (bn * cd) * (ad * cd) - (cn * bd) * (ad * cd))
        by (nonlinear_arith);
    assert((bn * cd) * (ad * cd) == (bn * ad) * (cd * cd)) by (nonlinear_arith);
    assert((cn * bd) * (ad * cd) == (cn * cd) * (ad * bd)) by (nonlinear_arith);
    assert((an * bd) * (cd * cd) <= (bn * ad) * (cd * cd)) by (nonlinear_arith)
        requires
            an * bd <= bn * ad,
            cd >= 1,
    ;
}

/// `(a + b) - a == b` up to rational equality.
pub proof fn lemma_frac_add_sub_cancel(a: Frac, b: Frac)
    requires
        frac_wf(a),
        frac_wf(b),
    ensures
        frac_eq(frac_sub(frac_add(a, b), a), b),
{
    let an = a.n;
    let ad = a.d;
    let bn = b.n;
    let bd = b.d;
    let s = frac_sub(frac_add(a, b), a);
    assert(s.n == (an * bd + bn * ad) * ad - an * (ad * bd));
    assert(s.d == (ad * bd) * ad);
    assert(((an * bd + bn * ad) * ad - an * (ad * bd)) * bd == bn * ((ad * bd) * ad))
        by (nonlinear_arith);
}

/// A product of nonnegative fractions is nonnegative.
pub proof fn lemma_frac_mul_nonneg(a: Frac, b: Frac)
    by (nonlinear_arith)
    requires
        frac_wf(a),
        frac_wf(b),
        frac_le(frac_int(0), a),
        frac_le(frac_int(0), b),
    ensures
        frac_le(frac_int(0), frac_mul(a, b)),
{
}

/// Scaling by a nonnegative fraction is monotone.
pub proof fn lemma_frac_mul_le_mono(r: Frac, b: Frac, c: Frac)
    by (nonlinear_arith)
    requires
        frac_wf(r),
        frac_wf(b),
        frac_wf(c),
        frac_le(frac_int(0), r),
        frac_le(b, c),
    ensures
        frac_le(frac_mul(r, b), frac_mul(r, c)),
{
}

/// Dividing and multiplying back by a positive fraction restores the value.
pub proof fn lemma_frac_div_mul(a: Frac, b: Frac)
    by (nonlinear_arith)
    requires
        frac_wf(a),
        frac_wf(b),
        b.n > 0,
    ensures
        frac_wf(frac_div(a, b)),
        frac_eq(frac_mul(frac_div(a, b), b), a),
{
}

/// A fraction is strictly positive exactly when its numerator is.
pub proof fn lemma_frac_pos_num(a: Frac)
    by (nonlinear_arith)
    requires
        frac_wf(a),
    ensures
        frac_lt(frac_int(0), a) <==> a.n > 0,
{
}

/// Sums, differences and products of well-formed fractions are well formed.
pub proof fn lemma_frac_ops_wf(a: Frac, b: Frac)
    by (nonlinear_arith)
    requires
        frac_wf(a),
        frac_wf(b),
    ensures
        frac_wf(frac_add(a, b)),
        frac_wf(frac_sub(a, b)),
        frac_wf(frac_mul(a, b)),
{
}

/// Adding a strictly positive fraction strictly increases a value.
pub proof fn lemma_frac_add_pos_gt(a: Frac, b: Frac)
    by (nonlinear_arith)
    requires
        frac_wf(a),
        frac_wf(b),
        frac_lt(frac_int(0), b),
    ensures
        frac_lt(a, frac_add(a, b)),
{
}

/// Multiplication is commutative up to rational equality.
pub proof fn lemma_frac_mul_comm(a: Frac, b: Frac)
    by (nonlinear_arith)
    requires
        frac_wf(a),
        frac_wf(b),
    ensures
        frac_eq(frac_mul(a, b), frac_mul(b, a)),
{
}

/// Adding a fraction with zero numerator changes nothing.
pub proof fn lemma_frac_add_zero_num(a: Frac, z: Frac)
    by (nonlinear_arith)
    requires
        frac_wf(a),
        frac_wf(z),
        z.n == 0,
    ensures
        frac_eq(frac_add(a, z), a),
{
}

/// A quotient by a positive fraction is well formed.
pub proof fn lemma_frac_div_wf(a: Frac, b: Frac)
    by (nonlinear_arith)
    requires
        frac_wf(a),
        frac_wf(b),
        b.n > 0,
    ensures
        frac_wf(frac_div(a, b)),
{
}

/// A quotient of strictly positive fractions is strictly positive.
pub proof fn lemma_frac_div_pos(a: Frac, b: Frac)
    by (nonlinear_arith)
    requires
        frac_wf(a),
        frac_wf(b),
        a.n > 0,
        b.n > 0,
    ensures
        frac_wf(frac_div(a, b)),
        frac_lt(frac_int(0), frac_div(a, b)),
{
}

/// Multiplication distributes over addition up to rational equality.
#[verifier::rlimit(100)]
pub proof fn lemma_frac_mul_distrib(r: Frac, a: Frac, b: Frac)
    requires
        frac_wf(r),
        frac_wf(a),
        frac_wf(b),
    ensures
        frac_eq(frac_mul(r, frac_add(a, b)), frac_add(frac_mul(r, a), frac_mul(r, b))),
{
    let rn = r.n;
    let rd = r.d;
    let an = a.n;
    let ad = a.d;
    let bn = b.n;
    let bd = b.d;
    let l = frac_mul(r, frac_add(a, b));
    let s = frac_add(frac_mul(r, a), frac_mul(r, b));
    assert((rn * an) * (rd * bd) == rd * (rn * (an * bd))) by (nonlinear_arith);
    assert((rn * bn) * (rd * ad) == rd * (rn * (bn * ad))) by (nonlinear_arith);
    vstd::arithmetic::mul::lemma_mul_is_distributive_add(rn, an * bd, bn * ad);
    vstd::arithmetic::mul::lemma_mul_is_distributive_add(rd, rn * (an * bd), rn * (bn * ad));
    assert((rd * ad) * (rd * bd) == rd * (rd * (ad * bd))) by (nonlinear_arith);
    assert(s.n == rd * l.n);
    assert(s.d == rd * l.d);
    assert(l.n * s.d == s.n * l.d) by (nonlinear_arith)
        requires
            s.n == rd * l.n,
            s.d == rd * l.d,
    ;
}

/// A fraction equal to `(-n) / (-d)` is also equal to `n / d`.
proof fn lemma_frac_eq_neg(c: Frac, n: int, d: int, wn: int, wd: int)
    by (nonlinear_arith)
    requires
        (wn == n && wd == d) || (wn == -n && wd == -d),
        frac_eq(c, Frac { n: wn, d: wd }),
    ensures
        frac_eq(c, Frac { n: n, d: d }),
{
}

/// Sign of a product with a strictly positive left factor.
proof fn lemma_prod_sign(a: int, b: int, p: int)
    by (nonlinear_arith)
    requires
        a > 0,
        p == a * b,
    ensures
        p < 0 ==> b < 0,
        p >= 0 && b != 0 ==> b > 0 && p > 0,
{
}

} // verus!
