//! The mathematical model of a rational number: a numerator/denominator pair
//! of unbounded integers, together with the canonicalization function that the
//! executable code implements and the number theory needed to reason about it.

use vstd::prelude::*;

verus! {

use vstd::math::abs;
use vstd::arithmetic::power::pow;
use vstd::arithmetic::div_mod::{
    lemma_fundamental_div_mod,
    lemma_fundamental_div_mod_converse,
    lemma_mod_self_0,
    lemma_small_mod,
};

/// A rational value, seen abstractly: `n` over `d`.
pub ghost struct Rat {
    pub n: int,
    pub d: int,
}

/// The sign of an integer: -1, 0 or 1.
pub open spec fn sgn(x: int) -> int {
    if x > 0 {
        1
    } else if x < 0 {
        -1
    } else {
        0
    }
}

/// Division truncated toward zero, the convention of the arbitrary-precision
/// integers the executable code computes with.  (`/` on `int` is Euclidean.)
pub open spec fn tdiv(a: int, b: int) -> int
    recommends
        b != 0,
{
    if (a >= 0) == (b >= 0) {
        abs(a) as int / abs(b) as int
    } else {
        -(abs(a) as int / abs(b) as int)
    }
}

/// Euclid's greatest common divisor.
pub open spec fn gcd(a: nat, b: nat) -> nat
    decreases b,
{
    if b == 0 {
        a
    } else {
        gcd(b, a % b)
    }
}

/// Canonical form: positive denominator, lowest terms.  Since `gcd(0, d) == d`,
/// this also forces the denominator of zero to be exactly 1.
pub open spec fn rat_wf(r: Rat) -> bool {
    r.d > 0 && gcd(abs(r.n), r.d as nat) == 1
}

/// The canonicalization of an arbitrary pair with a nonzero denominator:
/// fold the denominator's sign into the numerator, map zero to 0/1, and
/// divide both components by their greatest common divisor.
pub open spec fn norm(n: int, d: int) -> Rat
    recommends
        d != 0,
{
    if n == 0 {
        Rat { n: 0, d: 1 }
    } else {
        let n1 = if d < 0 {
            -n
        } else {
            n
        };
        let d1 = if d < 0 {
            -d
        } else {
            d
        };
        let g = gcd(abs(n1), d1 as nat) as int;
        Rat { n: n1 / g, d: d1 / g }
    }
}

/// The rational zero.
pub open spec fn rat_zero() -> Rat {
    Rat { n: 0, d: 1 }
}

/// The rational one.
pub open spec fn rat_one() -> Rat {
    Rat { n: 1, d: 1 }
}

/// a + b: (a·d2 + b·d1) over d1·d2, canonicalized.
pub open spec fn rat_add(a: Rat, b: Rat) -> Rat
    recommends
        a.d != 0,
        b.d != 0,
{
    norm(a.n * b.d + b.n * a.d, a.d * b.d)
}

/// a - b: (a·d2 - b·d1) over d1·d2, canonicalized.
pub open spec fn rat_sub(a: Rat, b: Rat) -> Rat
    recommends
        a.d != 0,
        b.d != 0,
{
    norm(a.n * b.d - b.n * a.d, a.d * b.d)
}

/// a · b, canonicalized.
pub open spec fn rat_mul(a: Rat, b: Rat) -> Rat
    recommends
        a.d != 0,
        b.d != 0,
{
    norm(a.n * b.n, a.d * b.d)
}

/// a / b, canonicalized; meaningful only when b is not zero.
pub open spec fn rat_div(a: Rat, b: Rat) -> Rat
    recommends
        a.d != 0,
        b.n != 0,
{
    norm(a.n * b.d, a.d * b.n)
}

/// a + m for an integer m, canonicalized.
pub open spec fn rat_add_int(a: Rat, m: int) -> Rat
    recommends
        a.d != 0,
{
    norm(a.n + m * a.d, a.d)
}

/// a - m for an integer m, canonicalized.
pub open spec fn rat_sub_int(a: Rat, m: int) -> Rat
    recommends
        a.d != 0,
{
    norm(a.n - m * a.d, a.d)
}

/// a · m for an integer m, canonicalized.
pub open spec fn rat_mul_int(a: Rat, m: int) -> Rat
    recommends
        a.d != 0,
{
    norm(a.n * m, a.d)
}

/// a / m for an integer m, canonicalized; meaningful only when m is not zero.
pub open spec fn rat_div_int(a: Rat, m: int) -> Rat
    recommends
        a.d != 0,
        m != 0,
{
    norm(a.n, a.d * m)
}

/// -a.  On canonical values no renormalization is needed.
pub open spec fn rat_neg(a: Rat) -> Rat {
    Rat { n: -a.n, d: a.d }
}

/// |a|.  On canonical values no renormalization is needed.
pub open spec fn rat_abs(a: Rat) -> Rat {
    Rat { n: abs(a.n) as int, d: a.d }
}

/// 1/a for nonzero a: the components swapped, the sign kept on the numerator.
pub open spec fn rat_recip(a: Rat) -> Rat
    recommends
        a.n != 0,
{
    if a.n < 0 {
        Rat { n: -a.d, d: -a.n }
    } else {
        Rat { n: a.d, d: a.n }
    }
}

/// The floor of a rational with a positive denominator.  Euclidean division
/// by a positive divisor rounds toward negative infinity, so this is simply
/// the quotient.
pub open spec fn rat_floor(a: Rat) -> int
    recommends
        a.d > 0,
{
    a.n / a.d
}

/// The ceiling of a rational with a positive denominator.
pub open spec fn rat_ceil(a: Rat) -> int
    recommends
        a.d > 0,
{
    -((-a.n) / a.d)
}

/// Rounding to the nearest whole number, ties toward positive infinity:
/// the floor of a + 1/2.
pub open spec fn rat_round(a: Rat) -> int
    recommends
        a.d > 0,
{
    (2 * a.n + a.d) / (2 * a.d)
}

/// k factorial.
pub open spec fn fact(k: nat) -> nat
    decreases k,
{
    if k == 0 {
        1
    } else {
        k * fact((k - 1) as nat)
    }
}

/// x to the k-th power under canonical rational multiplication, accumulated
/// exactly as the series loops keep their running power: the base itself for
/// k = 1, one more multiplication for each further power.
pub open spec fn pow_rat(x: Rat, k: nat) -> Rat
    recommends
        k >= 1,
    decreases k,
{
    if k <= 1 {
        x
    } else {
        rat_mul(pow_rat(x, (k - 1) as nat), x)
    }
}

/// The Taylor partial sum 1 + x/1! + ... + x^k/k!, accumulated term by term
/// through canonical rational arithmetic, as the exponential loop does.
pub open spec fn exp_partial(x: Rat, k: nat) -> Rat
    decreases k,
{
    if k == 0 {
        rat_one()
    } else {
        rat_add(exp_partial(x, (k - 1) as nat), rat_div_int(pow_rat(x, k), fact(k) as int))
    }
}

/// The sign of the k-th term of the alternating logarithm series: positive
/// for odd k.
pub open spec fn alt_sign(k: nat) -> int {
    if k % 2 == 1 {
        1
    } else {
        -1
    }
}

/// The k-th term of the series for ln(1 + w): (-1)^(k+1) w^k / k, computed
/// exactly as the loop does.
pub open spec fn ln_term(w: Rat, k: nat) -> Rat
    recommends
        k >= 1,
{
    rat_mul_int(rat_div_int(pow_rat(w, k), k as int), alt_sign(k))
}

/// The partial sum w - w^2/2 + w^3/3 - ... through the k-th term,
/// accumulated term by term through canonical rational arithmetic.
pub open spec fn ln_partial(w: Rat, k: nat) -> Rat
    decreases k,
{
    if k == 0 {
        rat_zero()
    } else {
        rat_add(ln_partial(w, (k - 1) as nat), ln_term(w, k))
    }
}

/// The number of decimal digits of a magnitude (1 for zero).
pub open spec fn digits10(v: nat) -> nat
    decreases v,
{
    if v < 10 {
        1
    } else {
        1 + digits10(v / 10)
    }
}

/// The length of the decimal text of an integer, counting a sign.
pub open spec fn dec_len(v: int) -> nat {
    if v < 0 {
        1 + digits10((-v) as nat)
    } else {
        digits10(v as nat)
    }
}

/// The leading decimal digit of a positive magnitude.
pub open spec fn lead_digit(v: nat) -> nat
    recommends
        v > 0,
{
    (v as int / pow(10, (digits10(v) - 1) as nat)) as nat
}

/// The power-of-ten scale the logarithm normalizes by: the decimal length of
/// the truncated integer quotient, less one when that text begins with '0'
/// (the quotient is zero) or '1' (its leading digit is one; for a negative
/// quotient the text begins with '-', so its full length counts).
pub open spec fn log_scale(q: int) -> nat {
    if q == 0 {
        0
    } else if q > 0 {
        if lead_digit(q as nat) == 1 {
            (digits10(q as nat) - 1) as nat
        } else {
            digits10(q as nat)
        }
    } else {
        1 + digits10((-q) as nat)
    }
}

/// Factorials are positive.
pub proof fn lemma_fact_pos(k: nat)
    ensures
        fact(k) >= 1,
    decreases k,
{
    if k > 0 {
        lemma_fact_pos((k - 1) as nat);
        assert(fact(k) == k * fact((k - 1) as nat));
        assert(k * fact((k - 1) as nat) >= 1) by (nonlinear_arith)
            requires
                k >= 1,
                fact((k - 1) as nat) >= 1,
        ;
    }
}

/// A gcd of two numbers, not both zero, is positive.
pub proof fn lemma_gcd_pos(a: nat, b: nat)
    requires
        a > 0 || b > 0,
    ensures
        gcd(a, b) > 0,
    decreases b,
{
    if b > 0 {
        lemma_gcd_pos(b, a % b);
    }
}

/// The gcd divides both of its arguments.
pub proof fn lemma_gcd_divides(a: nat, b: nat)
    requires
        a > 0 || b > 0,
    ensures
        gcd(a, b) > 0,
        a % gcd(a, b) == 0,
        b % gcd(a, b) == 0,
    decreases b,
{
    lemma_gcd_pos(a, b);
    let g = gcd(a, b) as int;
    if b == 0 {
        lemma_mod_self_0(a as int);
        assert(0int % g == 0) by {
            lemma_small_mod(0, g as nat);
        }
    } else {
        lemma_gcd_divides(b, a % b);
        let q = a as int / b as int;
        let r = (a % b) as int;
        lemma_fundamental_div_mod(a as int, b as int);
        lemma_fundamental_div_mod(b as int, g);
        lemma_fundamental_div_mod(r, g);
        let kb = b as int / g;
        let kr = r / g;
        assert(a as int == (q * kb + kr) * g) by (nonlinear_arith)
            requires
                a as int == q * (b as int) + r,
                b as int == g * kb,
                r == g * kr,
        ;
        lemma_fundamental_div_mod_converse(a as int, g, q * kb + kr, 0);
    }
}

/// The gcd scales: gcd(k*a, k*b) == k * gcd(a, b).
pub proof fn lemma_gcd_scale(k: nat, a: nat, b: nat)
    requires
        k > 0,
    ensures
        gcd(k * a, k * b) == k * gcd(a, b),
    decreases b,
{
    if b == 0 {
        assert(k * b == 0);
    } else {
        let q = a as int / b as int;
        let r = a % b;
        lemma_fundamental_div_mod(a as int, b as int);
        assert(k * a == q * (k * b) + k * r && 0 <= k * r < k * b) by (nonlinear_arith)
            requires
                a == q * b + r,
                0 <= r < b,
                k > 0,
        ;
        lemma_fundamental_div_mod_converse((k * a) as int, (k * b) as int, q, (k * r) as int);
        assert((k * a) % (k * b) == k * r);
        assert(k * b > 0) by (nonlinear_arith)
            requires
                k > 0,
                b > 0,
        ;
        lemma_gcd_scale(k, b, r);
        assert(gcd(k * a, k * b) == gcd(k * b, (k * a) % (k * b)));
        assert(gcd(a, b) == gcd(b, r));
    }
}

/// Dividing two numbers by their gcd leaves a coprime pair.
pub proof fn lemma_gcd_divide_out(a: nat, b: nat)
    requires
        a > 0 || b > 0,
    ensures
        gcd(a, b) > 0,
        a % gcd(a, b) == 0,
        b % gcd(a, b) == 0,
        gcd((a as int / gcd(a, b) as int) as nat, (b as int / gcd(a, b) as int) as nat) == 1,
{
    lemma_gcd_divides(a, b);
    let g = gcd(a, b);
    let a1 = a as int / g as int;
    let b1 = b as int / g as int;
    lemma_fundamental_div_mod(a as int, g as int);
    lemma_fundamental_div_mod(b as int, g as int);
    assert(a1 >= 0 && b1 >= 0) by (nonlinear_arith)
        requires
            a as int == g as int * a1,
            b as int == g as int * b1,
            a >= 0,
            b >= 0,
            g > 0,
    ;
    lemma_gcd_scale(g, a1 as nat, b1 as nat);
    assert(g * a1 as nat == a && g * b1 as nat == b) by (nonlinear_arith)
        requires
            a as int == g as int * a1,
            b as int == g as int * b1,
            a1 >= 0,
            b1 >= 0,
    ;
    assert(g * gcd(a1 as nat, b1 as nat) == g);
    assert(gcd(a1 as nat, b1 as nat) == 1) by (nonlinear_arith)
        requires
            g as int * gcd(a1 as nat, b1 as nat) as int == g as int,
            g > 0,
    ;
}

/// gcd is symmetric.
pub proof fn lemma_gcd_comm(a: nat, b: nat)
    ensures
        gcd(a, b) == gcd(b, a),
{
    if a < b {
        lemma_small_mod(a, b);
        assert(gcd(a, b) == gcd(b, a % b));
    } else if b < a {
        lemma_small_mod(b, a);
        assert(gcd(b, a) == gcd(a, b % a));
    }
}

/// Everything is coprime to 1.
pub proof fn lemma_gcd_one(a: nat)
    ensures
        gcd(a, 1) == 1,
{
    assert(a % 1 == 0);
    assert(gcd(a, 1) == gcd(1, a % 1));
    assert(gcd(1, 0) == 1);
}

/// An exact Euclidean division can be undone by multiplication.
pub proof fn lemma_exact_div(a: int, g: int)
    requires
        g > 0,
        a % g == 0,
    ensures
        a == (a / g) * g,
{
    lemma_fundamental_div_mod(a, g);
    assert(g * (a / g) == (a / g) * g) by (nonlinear_arith);
}

/// On exact divisions, truncating and Euclidean division agree.
pub proof fn lemma_tdiv_exact(a: int, g: int)
    requires
        g > 0,
        a % g == 0,
    ensures
        tdiv(a, g) == a / g,
{
    lemma_exact_div(a, g);
    if a >= 0 {
        assert(abs(a) as int == a && abs(g) as int == g);
    } else {
        let q = a / g;
        assert(-a == (-q) * g) by (nonlinear_arith)
            requires
                a == q * g,
        ;
        assert(q < 0) by (nonlinear_arith)
            requires
                a == q * g,
                a < 0,
                g > 0,
        ;
        lemma_fundamental_div_mod_converse(-a, g, -q, 0);
        assert(abs(a) as int == -a && abs(g) as int == g);
        assert(tdiv(a, g) == -((-a) / g));
    }
}

/// A positive multiple divided by the divisor is at least 1.
pub proof fn lemma_exact_div_pos(a: int, g: int)
    requires
        g > 0,
        a > 0,
        a % g == 0,
    ensures
        a / g >= 1,
        g <= a,
{
    lemma_exact_div(a, g);
    assert(a / g >= 1 && g <= a) by (nonlinear_arith)
        requires
            a == (a / g) * g,
            a > 0,
            g > 0,
    ;
}

/// Euclidean division of a negative, non-exact numerator by a positive
/// denominator is one below the negated quotient of the magnitudes.
pub proof fn lemma_div_neg_not_exact(x: int, m: int)
    requires
        m > 0,
        x > 0,
        x % m != 0,
    ensures
        (-x) / m == -(x / m) - 1,
        (-x) % m == m - x % m,
{
    lemma_fundamental_div_mod(x, m);
    let q = x / m;
    let r = x % m;
    assert(-x == (-q - 1) * m + (m - r)) by (nonlinear_arith)
        requires
            x == m * q + r,
    ;
    lemma_fundamental_div_mod_converse(-x, m, -q - 1, m - r);
}

/// Scaling numerator and denominator by a common divisor does not change the
/// Euclidean quotient.
pub proof fn lemma_div_by_common(a: int, b: int, g: int)
    requires
        b > 0,
        g > 0,
        a % g == 0,
        b % g == 0,
    ensures
        b / g > 0,
        (a / g) / (b / g) == a / b,
{
    lemma_exact_div(a, g);
    lemma_exact_div(b, g);
    lemma_exact_div_pos(b, g);
    let aa = a / g;
    let bb = b / g;
    let q = aa / bb;
    let r = aa % bb;
    lemma_fundamental_div_mod(aa, bb);
    assert(a == q * b + r * g && 0 <= r * g < b) by (nonlinear_arith)
        requires
            aa == q * bb + r,
            0 <= r < bb,
            a == aa * g,
            b == bb * g,
            g > 0,
    ;
    lemma_fundamental_div_mod_converse(a, b, q, r * g);
}

/// A pair in lowest terms with a denominator above 1 is not an integer.
pub proof fn lemma_coprime_not_divisible(n: int, d: int)
    requires
        d > 1,
        gcd(abs(n), d as nat) == 1,
    ensures
        n != 0,
        n % d != 0,
        abs(n) % (d as nat) != 0,
{
    if n == 0 {
        assert(gcd(0, d as nat) == gcd(d as nat, 0nat % d as nat));
        lemma_small_mod(0, d as nat);
        assert(gcd(d as nat, 0) == d as nat);
    }
    let a = abs(n);
    if a % (d as nat) == 0 {
        assert(gcd(a, d as nat) == gcd(d as nat, a % d as nat));
        assert(gcd(d as nat, 0) == d as nat);
    }
    assert(n % d != 0) by {
        if n % d == 0 {
            lemma_exact_div(n, d);
            if n >= 0 {
                assert(a as int == (n / d) * d);
                lemma_fundamental_div_mod_converse(a as int, d, n / d, 0);
            } else {
                assert(a as int == (-(n / d)) * d) by (nonlinear_arith)
                    requires
                        n == (n / d) * d,
                        a == -n,
                ;
                lemma_fundamental_div_mod_converse(a as int, d, -(n / d), 0);
            }
        }
    }
}

/// The canonicalization of a nonzero-denominator pair is in canonical form and
/// names the same rational value (checked by cross multiplication).
pub proof fn lemma_norm_canonical(n: int, d: int)
    requires
        d != 0,
    ensures
        rat_wf(norm(n, d)),
        norm(n, d).n * d == n * norm(n, d).d,
{
    if n == 0 {
        lemma_gcd_one(0);
        assert(gcd(abs(0), 1) == 1);
        assert(norm(n, d) == Rat { n: 0int, d: 1int });
        assert(norm(n, d).n * d == n * norm(n, d).d) by (nonlinear_arith)
            requires
                norm(n, d) == (Rat { n: 0int, d: 1int }),
                n == 0,
        ;
    } else {
        let n1: int = if d < 0 { -n } else { n };
        let d1: int = if d < 0 { -d } else { d };
        let g = gcd(abs(n1), d1 as nat) as int;
        lemma_gcd_divide_out(abs(n1), d1 as nat);
        lemma_mod_of_abs(n1, g);
        let p = n1 / g;
        let q = d1 / g;
        lemma_exact_div(n1, g);
        lemma_exact_div(d1, g);
        lemma_exact_div_pos(d1, g);
        // lowest terms: gcd(|p|, q) == 1, where |p| == |n1| / g.
        assert(abs(p) as int == abs(n1) as int / g) by {
            if n1 >= 0 {
                assert(p >= 0) by (nonlinear_arith)
                    requires
                        n1 == p * g,
                        n1 > 0,
                        g > 0,
                ;
            } else {
                assert(p < 0) by (nonlinear_arith)
                    requires
                        n1 == p * g,
                        n1 < 0,
                        g > 0,
                ;
                assert(-n1 == (-p) * g) by (nonlinear_arith)
                    requires
                        n1 == p * g,
                ;
                lemma_fundamental_div_mod_converse(-n1, g, -p, 0);
            }
        }
        // the value is unchanged: (n1/g) * d == n * (d1/g).
        assert(p * d == n * q) by (nonlinear_arith)
            requires
                n1 == p * g,
                d1 == q * g,
                (d < 0 ==> n1 == -n && d1 == -d),
                (d >= 0 ==> n1 == n && d1 == d),
        ;
        assert(norm(n, d) == Rat { n: p, d: q });
    }
}

/// Exact divisibility of an integer and of its magnitude coincide.
pub proof fn lemma_mod_of_abs(a: int, g: int)
    requires
        g > 0,
    ensures
        a % g == 0 <==> abs(a) % (g as nat) == 0,
{
    if a >= 0 {
    } else {
        if a % g == 0 {
            lemma_exact_div(a, g);
            let q = a / g;
            assert(-a == (-q) * g) by (nonlinear_arith)
                requires
                    a == q * g,
            ;
            lemma_fundamental_div_mod_converse(-a, g, -q, 0);
        }
        if abs(a) % (g as nat) == 0 {
            lemma_exact_div(-a, g);
            let q = (-a) / g;
            assert(a == (-q) * g) by (nonlinear_arith)
                requires
                    -a == q * g,
            ;
            lemma_fundamental_div_mod_converse(a, g, -q, 0);
        }
    }
}

/// Comparison by cross multiplication is antisymmetric: when a compares
/// below b, b compares above a, and the other way round.
pub proof fn lemma_compare_antisymmetric(a: Rat, b: Rat)
    requires
        rat_wf(a),
        rat_wf(b),
    ensures
        sgn(a.n * b.d - b.n * a.d) == -sgn(b.n * a.d - a.n * b.d),
{
}

/// Comparison by cross multiplication is transitive over canonical values:
/// at-most chains compose, and strictly where either link is strict.
pub proof fn lemma_compare_transitive(a: Rat, b: Rat, c: Rat)
    requires
        rat_wf(a),
        rat_wf(b),
        rat_wf(c),
        sgn(a.n * b.d - b.n * a.d) <= 0,
        sgn(b.n * c.d - c.n * b.d) <= 0,
    ensures
        sgn(a.n * c.d - c.n * a.d) <= 0,
        sgn(a.n * b.d - b.n * a.d) < 0 && sgn(b.n * c.d - c.n * b.d) < 0 ==> sgn(
            a.n * c.d - c.n * a.d,
        ) < 0,
{
    assert(a.n * c.d <= c.n * a.d && ((a.n * b.d < b.n * a.d && b.n * c.d < c.n * b.d) ==> a.n
        * c.d < c.n * a.d)) by (nonlinear_arith)
        requires
            a.d > 0,
            b.d > 0,
            c.d > 0,
            a.n * b.d <= b.n * a.d,
            b.n * c.d <= c.n * b.d,
    ;
}

/// Negation is an involution, and keeps values canonical.
pub proof fn lemma_negate_involution(x: Rat)
    requires
        rat_wf(x),
    ensures
        rat_wf(rat_neg(x)),
        rat_neg(rat_neg(x)) == x,
{
    assert(abs(-x.n) == abs(x.n));
}

/// Taking the reciprocal twice gives a nonzero value back, and each
/// reciprocal is canonical.
pub proof fn lemma_reciprocal_involution(x: Rat)
    requires
        rat_wf(x),
        x.n != 0,
    ensures
        rat_wf(rat_recip(x)),
        rat_recip(x).n != 0,
        rat_recip(rat_recip(x)) == x,
{
    lemma_norm_recip(x);
}

/// A whole number's canonical form is itself over 1.
pub proof fn lemma_norm_int(v: int)
    ensures
        norm(v, 1) == (Rat { n: v, d: 1 }),
{
    if v != 0 {
        lemma_gcd_one(abs(v));
        vstd::arithmetic::div_mod::lemma_div_basics(v);
        assert(norm(v, 1).n == v / 1 && norm(v, 1).d == 1int / 1int);
    }
}

/// Negating a canonical value needs no renormalization.
pub proof fn lemma_norm_neg(a: Rat)
    requires
        rat_wf(a),
    ensures
        rat_wf(rat_neg(a)),
        norm(-a.n, a.d) == rat_neg(a),
{
    assert(abs(-a.n) == abs(a.n));
    lemma_norm_of_canonical(rat_neg(a));
}

/// Swapping the components of a canonical nonzero value needs no
/// renormalization beyond moving the sign to the numerator.
pub proof fn lemma_norm_recip(a: Rat)
    requires
        rat_wf(a),
        a.n != 0,
    ensures
        rat_wf(rat_recip(a)),
        norm(a.d, a.n) == rat_recip(a),
{
    lemma_gcd_comm(abs(a.n), a.d as nat);
    vstd::arithmetic::div_mod::lemma_div_basics(a.d);
    if a.n < 0 {
        assert(abs(-a.d) == a.d as nat && (-a.n) as nat == abs(a.n));
        assert(norm(a.d, a.n).n == -a.d / 1 && norm(a.d, a.n).d == (-a.n) / 1);
        vstd::arithmetic::div_mod::lemma_div_basics(-a.d);
        vstd::arithmetic::div_mod::lemma_div_basics(-a.n);
    } else {
        assert(abs(a.d) == a.d as nat && a.n as nat == abs(a.n));
        assert(norm(a.d, a.n).n == a.d / 1 && norm(a.d, a.n).d == a.n / 1);
        vstd::arithmetic::div_mod::lemma_div_basics(a.n);
    }
}

/// On a canonical value the executable floor — truncating division with a
/// correction for negative non-integers — computes the Euclidean floor.
pub proof fn lemma_floor_trunc(x: Rat)
    requires
        rat_wf(x),
    ensures
        x.d == 1 ==> rat_floor(x) == x.n,
        x.d > 1 && x.n < 0 ==> rat_floor(x) == tdiv(x.n, x.d) - 1,
        x.d > 1 && x.n >= 0 ==> rat_floor(x) == tdiv(x.n, x.d),
{
    vstd::arithmetic::div_mod::lemma_div_basics(x.n);
    if x.d > 1 {
        lemma_coprime_not_divisible(x.n, x.d);
        if x.n < 0 {
            lemma_div_neg_not_exact(abs(x.n) as int, x.d);
            assert(x.n == -(abs(x.n) as int));
        }
    }
}

/// On a canonical value the executable ceiling — truncating division with a
/// correction for positive non-integers — computes the true ceiling.
pub proof fn lemma_ceil_trunc(x: Rat)
    requires
        rat_wf(x),
    ensures
        x.d == 1 ==> rat_ceil(x) == x.n,
        x.d > 1 && x.n > 0 ==> rat_ceil(x) == tdiv(x.n, x.d) + 1,
        x.d > 1 && x.n <= 0 ==> rat_ceil(x) == tdiv(x.n, x.d),
{
    vstd::arithmetic::div_mod::lemma_div_basics(-x.n);
    if x.d > 1 {
        lemma_coprime_not_divisible(x.n, x.d);
        if x.n > 0 {
            lemma_div_neg_not_exact(x.n, x.d);
        } else {
            assert(-x.n == abs(x.n) as int);
        }
    }
}

/// Canonicalization does not change the floor.
pub proof fn lemma_norm_floor(a: int, b: int)
    requires
        b > 0,
    ensures
        norm(a, b).d > 0,
        norm(a, b).n / norm(a, b).d == a / b,
{
    lemma_norm_canonical(a, b);
    if a == 0 {
        vstd::arithmetic::div_mod::lemma_div_basics(b);
        assert(0int / 1int == 0);
        assert(0int / b == 0) by {
            vstd::arithmetic::div_mod::lemma_div_basics(b);
        }
    } else {
        let g = gcd(abs(a), b as nat) as int;
        lemma_gcd_divide_out(abs(a), b as nat);
        lemma_mod_of_abs(a, g);
        lemma_div_by_common(a, b, g);
    }
}

/// Canonicalizing a pair that is already canonical gives it back unchanged.
pub proof fn lemma_norm_of_canonical(r: Rat)
    requires
        rat_wf(r),
    ensures
        norm(r.n, r.d) == r,
{
    if r.n == 0 {
        assert(gcd(0, r.d as nat) == gcd(r.d as nat, 0nat % r.d as nat));
        lemma_small_mod(0, r.d as nat);
        assert(gcd(r.d as nat, 0) == r.d as nat);
    } else {
        assert(norm(r.n, r.d).n == r.n / 1 && norm(r.n, r.d).d == r.d / 1);
    }
}

} // verus!
