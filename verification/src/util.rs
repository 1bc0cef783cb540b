//! Whole-number helpers.

use vstd::arithmetic::div_mod::{lemma_fundamental_div_mod, lemma_truncate_middle};
use vstd::arithmetic::power2::{lemma_pow2_pos, lemma_pow2_unfold, pow2};
use vstd::bits::{lemma_u32_shl_is_mul, lemma_u32_shr_is_div};
use vstd::prelude::*;
use vstd::std_specs::bits::{axiom_u32_trailing_zeros, u32_trailing_zeros};

verus! {

/// `d` divides `n`: `n` is a whole multiple of `d`.
pub open spec fn divides(d: int, n: int) -> bool {
    exists|k: int| n == #[trigger] multiple(d, k)
}

/// The `k`-fold of `d`.
pub open spec fn multiple(d: int, k: int) -> int {
    d * k
}

/// `g` is the greatest common divisor of `a` and `b`: it divides both, and
/// whatever divides both divides it. Of nought and nought it is nought.
pub open spec fn is_gcd(g: int, a: int, b: int) -> bool {
    &&& 0 <= g
    &&& divides(g, a)
    &&& divides(g, b)
    &&& forall|d: int| divides(d, a) && divides(d, b) ==> divides(d, g)
}

/// The size of a number without its sign.
pub open spec fn magnitude(x: i32) -> int {
    if x < 0 {
        -x
    } else {
        x as int
    }
}

/// The greatest common divisor as Euclid computes it.
pub open spec fn euclid(a: nat, b: nat) -> nat
    decreases b,
{
    if b == 0 {
        a
    } else {
        euclid(b, a % b)
    }
}

/// A number that is `k` times `d` is divided by `d`.
proof fn lemma_divided(d: int, k: int, n: int)
    requires
        n == d * k,
    ensures
        divides(d, n),
{
    assert(n == multiple(d, k));
}

/// How often `d` goes into a number that it divides.
proof fn quotient(d: int, n: int) -> (k: int)
    requires
        divides(d, n),
    ensures
        n == d * k,
{
    choose|k: int| n == #[trigger] multiple(d, k)
}

proof fn lemma_euclid_common(a: nat, b: nat)
    ensures
        divides(euclid(a, b) as int, a as int),
        divides(euclid(a, b) as int, b as int),
    decreases b,
{
    let g = euclid(a, b) as int;
    if b == 0 {
        lemma_divided(g, 1, a as int);
        lemma_divided(g, 0, 0);
    } else {
        lemma_euclid_common(b, a % b);
        let kb = quotient(g, b as int);
        let kr = quotient(g, (a % b) as int);
        lemma_fundamental_div_mod(a as int, b as int);
        let q = a as int / b as int;
        assert(a as int == g * (kb * q + kr)) by (nonlinear_arith)
            requires
                a as int == b as int * q + (a % b) as int,
                b as int == g * kb,
                (a % b) as int == g * kr,
        ;
        lemma_divided(g, kb * q + kr, a as int);
    }
}

proof fn lemma_euclid_greatest(a: nat, b: nat, d: int)
    requires
        divides(d, a as int),
        divides(d, b as int),
    ensures
        divides(d, euclid(a, b) as int),
    decreases b,
{
    if b != 0 {
        let ka = quotient(d, a as int);
        let kb = quotient(d, b as int);
        lemma_fundamental_div_mod(a as int, b as int);
        let q = a as int / b as int;
        assert((a % b) as int == d * (ka - kb * q)) by (nonlinear_arith)
            requires
                a as int == b as int * q + (a % b) as int,
                a as int == d * ka,
                b as int == d * kb,
        ;
        lemma_divided(d, ka - kb * q, (a % b) as int);
        lemma_euclid_greatest(b, a % b, d);
    }
}

/// What Euclid computes is the greatest common divisor.
pub proof fn lemma_euclid_is_gcd(a: nat, b: nat)
    ensures
        is_gcd(euclid(a, b) as int, a as int, b as int),
{
    lemma_euclid_common(a, b);
    assert forall|d: int| divides(d, a as int) && divides(d, b as int) implies divides(
        d,
        euclid(a, b) as int,
    ) by {
        lemma_euclid_greatest(a, b, d);
    }
}

proof fn lemma_antisymmetric(a: nat, b: nat)
    requires
        divides(a as int, b as int),
        divides(b as int, a as int),
    ensures
        a == b,
{
    let k1 = quotient(a as int, b as int);
    let k2 = quotient(b as int, a as int);
    if a == 0 {
        assert(b == 0) by (nonlinear_arith)
            requires
                b as int == a as int * k1,
                a == 0,
        ;
    } else if b == 0 {
        assert(a == 0) by (nonlinear_arith)
            requires
                a as int == b as int * k2,
                b == 0,
        ;
    } else {
        assert(b >= a) by (nonlinear_arith)
            requires
                b as int == a as int * k1,
                a > 0,
                b > 0,
        ;
        assert(a >= b) by (nonlinear_arith)
            requires
                a as int == b as int * k2,
                a > 0,
                b > 0,
        ;
    }
}

/// A greatest common divisor is unique.
pub proof fn lemma_gcd_unique(g: int, h: int, a: int, b: int)
    requires
        is_gcd(g, a, b),
        is_gcd(h, a, b),
    ensures
        g == h,
{
    lemma_antisymmetric(g as nat, h as nat);
}

proof fn lemma_same_divisors(a: nat, b: nat, c: nat, e: nat)
    requires
        forall|d: int|
            (divides(d, a as int) && divides(d, b as int)) <==> (divides(d, c as int) && divides(
                d,
                e as int,
            )),
    ensures
        euclid(a, b) == euclid(c, e),
{
    lemma_euclid_common(a, b);
    lemma_euclid_common(c, e);
    lemma_euclid_greatest(c, e, euclid(a, b) as int);
    lemma_euclid_greatest(a, b, euclid(c, e) as int);
    lemma_antisymmetric(euclid(a, b), euclid(c, e));
}

proof fn lemma_swap(a: nat, b: nat)
    ensures
        euclid(a, b) == euclid(b, a),
{
    lemma_same_divisors(a, b, b, a);
}

proof fn lemma_subtract(a: nat, b: nat)
    requires
        a >= b,
    ensures
        euclid((a - b) as nat, b) == euclid(a, b),
{
    assert forall|d: int|
        (divides(d, (a - b) as int) && divides(d, b as int)) <==> (divides(d, a as int) && divides(
            d,
            b as int,
        )) by {
        if divides(d, b as int) {
            let kb = quotient(d, b as int);
            if divides(d, (a - b) as int) {
                let k = quotient(d, (a - b) as int);
                assert(a as int == d * (k + kb)) by (nonlinear_arith)
                    requires
                        a - b == d * k,
                        b as int == d * kb,
                ;
                lemma_divided(d, k + kb, a as int);
            }
            if divides(d, a as int) {
                let k = quotient(d, a as int);
                assert((a - b) as int == d * (k - kb)) by (nonlinear_arith)
                    requires
                        a as int == d * k,
                        b as int == d * kb,
                ;
                lemma_divided(d, k - kb, (a - b) as int);
            }
        }
    }
    lemma_same_divisors((a - b) as nat, b, a, b);
}

proof fn lemma_halve(d: int, a: int, b: int)
    requires
        divides(d, 2 * a),
        divides(d, b),
        b % 2 == 1,
    ensures
        divides(d, a),
{
    let k = quotient(d, 2 * a);
    let kb = quotient(d, b);
    let p = d / 2;
    let q = k / 2;
    if d % 2 == 0 {
        assert(b == 2 * (p * kb)) by (nonlinear_arith)
            requires
                b == d * kb,
                d == 2 * p,
        ;
    }
    if k % 2 == 1 {
        assert(d * k == 2 * (2 * p * q + p + q) + 1) by (nonlinear_arith)
            requires
                d == 2 * p + 1,
                k == 2 * q + 1,
        ;
    }
    assert(a == d * q) by (nonlinear_arith)
        requires
            2 * a == d * k,
            k == 2 * q,
    ;
    lemma_divided(d, q, a);
}

proof fn lemma_strip(a: nat, b: nat)
    requires
        b % 2 == 1,
    ensures
        euclid(2 * a, b) == euclid(a, b),
{
    assert forall|d: int|
        (divides(d, (2 * a) as int) && divides(d, b as int)) <==> (divides(d, a as int) && divides(
            d,
            b as int,
        )) by {
        if divides(d, b as int) {
            if divides(d, (2 * a) as int) {
                lemma_halve(d, a as int, b as int);
            }
            if divides(d, a as int) {
                let k = quotient(d, a as int);
                assert((2 * a) as int == d * (2 * k)) by (nonlinear_arith)
                    requires
                        a as int == d * k,
                ;
                lemma_divided(d, 2 * k, (2 * a) as int);
            }
        }
    }
    lemma_same_divisors(2 * a, b, a, b);
}

proof fn lemma_strip_power(a: nat, t: nat, b: nat)
    requires
        b % 2 == 1,
    ensures
        euclid(a * pow2(t), b) == euclid(a, b),
    decreases t,
{
    if t == 0 {
        assert(pow2(0) == 1) by {
            vstd::arithmetic::power2::lemma2_to64();
        }
        assert(a * pow2(0) == a);
    } else {
        lemma_pow2_unfold(t);
        let half = a * pow2((t - 1) as nat);
        assert(a * pow2(t) == 2 * half) by (nonlinear_arith)
            requires
                pow2(t) == 2 * pow2((t - 1) as nat),
                half == a * pow2((t - 1) as nat),
        ;
        lemma_strip(half, b);
        lemma_strip_power(a, (t - 1) as nat, b);
    }
}

proof fn lemma_double(a: nat, b: nat)
    ensures
        euclid(2 * a, 2 * b) == 2 * euclid(a, b),
    decreases b,
{
    if b != 0 {
        lemma_truncate_middle(a as int, 2, b as int);
        assert((2 * a) % (2 * b) == 2 * (a % b));
        lemma_double(b, a % b);
    }
}

proof fn lemma_double_power(a: nat, b: nat, k: nat)
    ensures
        euclid(a * pow2(k), b * pow2(k)) == pow2(k) * euclid(a, b),
    decreases k,
{
    if k == 0 {
        assert(pow2(0) == 1) by {
            vstd::arithmetic::power2::lemma2_to64();
        }
        assert(a * pow2(0) == a);
        assert(b * pow2(0) == b);
        assert(pow2(0) * euclid(a, b) == euclid(a, b));
    } else {
        lemma_pow2_unfold(k);
        let p = pow2((k - 1) as nat);
        lemma_double_power(a, b, (k - 1) as nat);
        lemma_double(a * p, b * p);
        assert(a * pow2(k) == 2 * (a * p)) by (nonlinear_arith)
            requires
                pow2(k) == 2 * p,
        ;
        assert(b * pow2(k) == 2 * (b * p)) by (nonlinear_arith)
            requires
                pow2(k) == 2 * p,
        ;
        assert(pow2(k) * euclid(a, b) == 2 * (p * euclid(a, b))) by (nonlinear_arith)
            requires
                pow2(k) == 2 * p,
        ;
    }
}

proof fn lemma_euclid_bound(a: nat, b: nat)
    requires
        a > 0,
    ensures
        0 < euclid(a, b) <= a,
{
    lemma_euclid_common(a, b);
    let g = euclid(a, b) as int;
    let k = quotient(g, a as int);
    assert(0 < g <= a) by (nonlinear_arith)
        requires
            a as int == g * k,
            a > 0,
            g >= 0,
    ;
}

/// Shifting out the trailing zeros of a number leaves its odd part, and
/// the number is that part times a power of two.
proof fn lemma_odd_part(x: u32)
    requires
        x != 0,
    ensures
        u32_trailing_zeros(x) < 32,
        (x >> u32_trailing_zeros(x)) % 2 == 1,
        x == (x >> u32_trailing_zeros(x)) * pow2(u32_trailing_zeros(x) as nat),
{
    axiom_u32_trailing_zeros(x);
    let t = u32_trailing_zeros(x);
    let y = x >> t;
    let rest = (32 - t) as u32;
    assert(y & 1 == 1 ==> y % 2 == 1) by (bit_vector);
    assert(((x >> t) << t) == x) by (bit_vector)
        requires
            (x << rest) == 0,
            rest + t == 32,
            t < 32,
    ;
    lemma_u32_shr_is_div(x, t);
    lemma_pow2_pos(t as nat);
    let p = pow2(t as nat) as int;
    lemma_fundamental_div_mod(x as int, p);
    assert(y * p <= x) by (nonlinear_arith)
        requires
            x as int == p * (x as int / p) + x as int % p,
            y as int == x as int / p,
            0 <= x as int % p,
    ;
    lemma_u32_shl_is_mul(y, t);
}

/// The trailing zeros of `u | v` are the fewer of those of `u` and `v`.
proof fn lemma_shared_zeros(u: u32, v: u32)
    requires
        u != 0,
        v != 0,
    ensures
        u32_trailing_zeros(u | v) <= u32_trailing_zeros(u),
        u32_trailing_zeros(u | v) <= u32_trailing_zeros(v),
        u32_trailing_zeros(u | v) == u32_trailing_zeros(u) || u32_trailing_zeros(u | v)
            == u32_trailing_zeros(v),
{
    let w = u | v;
    assert(u != 0 ==> (u | v) != 0) by (bit_vector);
    axiom_u32_trailing_zeros(u);
    axiom_u32_trailing_zeros(v);
    axiom_u32_trailing_zeros(w);
    let a = u32_trailing_zeros(u);
    let b = u32_trailing_zeros(v);
    let k = u32_trailing_zeros(w);
    let above_a = (32 - a) as u32;
    let above_b = (32 - b) as u32;
    let above_k = (32 - k) as u32;
    assert(a >= k) by (bit_vector)
        requires
            (u >> a) & 1 == 1,
            ((u | v) << above_k) == 0,
            above_k + k == 32,
            a < 32,
            k < 32,
    ;
    assert(b >= k) by (bit_vector)
        requires
            (v >> b) & 1 == 1,
            ((u | v) << above_k) == 0,
            above_k + k == 32,
            b < 32,
            k < 32,
    ;
    assert((u >> k) & 1 == 1 || (v >> k) & 1 == 1) by (bit_vector)
        requires
            ((u | v) >> k) & 1 == 1,
            k < 32,
    ;
    assert((u >> k) & 1 == 1 ==> k >= a) by (bit_vector)
        requires
            (u << above_a) == 0,
            above_a + a == 32,
            a < 32,
            k < 32,
    ;
    assert((v >> k) & 1 == 1 ==> k >= b) by (bit_vector)
        requires
            (v << above_b) == 0,
            above_b + b == 32,
            b < 32,
            k < 32,
    ;
}

/// The greatest common divisor of two numbers from that of their odd
/// parts: the shared power of two times the latter.
proof fn lemma_from_odd_parts(x: nat, a: nat, y: nat, b: nat, k: nat)
    requires
        x % 2 == 1,
        y % 2 == 1,
        k <= a,
        k <= b,
        k == a || k == b,
    ensures
        euclid(x * pow2(a), y * pow2(b)) == pow2(k) * euclid(x, y),
{
    let ra = (a - k) as nat;
    let rb = (b - k) as nat;
    vstd::arithmetic::power2::lemma_pow2_adds(ra, k);
    vstd::arithmetic::power2::lemma_pow2_adds(rb, k);
    let xs = x * pow2(ra);
    let ys = y * pow2(rb);
    assert(x * pow2(a) == xs * pow2(k)) by (nonlinear_arith)
        requires
            pow2(a) == pow2(ra) * pow2(k),
            xs == x * pow2(ra),
    ;
    assert(y * pow2(b) == ys * pow2(k)) by (nonlinear_arith)
        requires
            pow2(b) == pow2(rb) * pow2(k),
            ys == y * pow2(rb),
    ;
    lemma_double_power(xs, ys, k);
    assert(pow2(0) == 1) by {
        vstd::arithmetic::power2::lemma2_to64();
    }
    if k == a {
        assert(xs == x);
        lemma_swap(x, ys);
        lemma_strip_power(y, rb, x);
        lemma_swap(y, x);
    } else {
        assert(ys == y);
        lemma_strip_power(x, ra, y);
    }
}

/// The size of a number without its sign, as an unsigned number.
fn unsigned(x: i32) -> (m: u32)
    ensures
        m == magnitude(x),
{
    if x == i32::MIN {
        0x8000_0000
    } else if x < 0 {
        (-x) as u32
    } else {
        x as u32
    }
}

/// The greatest common divisor of two numbers, by halving and subtracting.
/// The signs of the arguments do not count. The answer is never negative,
/// with one exception: where the divisor is 2^31, which an `i32` cannot
/// hold, the answer is `i32::MIN`.
pub fn gcd(u: i32, v: i32) -> (g: i32)
    ensures
        is_gcd(magnitude(g), magnitude(u), magnitude(v)),
        magnitude(g) == euclid(magnitude(u) as nat, magnitude(v) as nat),
        g < 0 ==> g == i32::MIN,
{
    let ghost u0 = u;
    let ghost v0 = v;
    let ghost a0 = magnitude(u) as nat;
    let ghost b0 = magnitude(v) as nat;
    let mut v: u32 = unsigned(v);
    proof {
        lemma_euclid_is_gcd(a0, b0);
        lemma_swap(a0, b0);
    }
    if u == 0 {
        assert(euclid(b0, 0) == b0);
        return signed(v);
    }
    let mut u: u32 = unsigned(u);
    if v == 0 {
        assert(euclid(a0, 0) == a0);
        return signed(u);
    }
    proof {
        lemma_shared_zeros(u, v);
        lemma_odd_part(u);
        lemma_odd_part(v);
        assert(u != 0 ==> (u | v) != 0) by (bit_vector);
        axiom_u32_trailing_zeros(u | v);
    }
    let gcd_exponent_on_two: u32 = (u | v).trailing_zeros();
    let ghost ta = u32_trailing_zeros(u) as nat;
    let ghost tb = u32_trailing_zeros(v) as nat;
    u = u >> u.trailing_zeros();
    v = v >> v.trailing_zeros();
    let ghost odd = euclid(u as nat, v as nat);
    proof {
        lemma_from_odd_parts(u as nat, ta, v as nat, tb, gcd_exponent_on_two as nat);
        assert(euclid(a0, b0) == pow2(gcd_exponent_on_two as nat) * odd);
    }
    while u != v
        invariant
            u % 2 == 1,
            v % 2 == 1,
            euclid(u as nat, v as nat) == odd,
            euclid(a0, b0) == pow2(gcd_exponent_on_two as nat) * odd,
            0 < a0 <= 0x8000_0000,
            gcd_exponent_on_two < 32,
            is_gcd(euclid(a0, b0) as int, a0 as int, b0 as int),
            a0 == magnitude(u0),
            b0 == magnitude(v0),
        decreases u + v,
    {
        if u < v {
            proof {
                lemma_swap(u as nat, v as nat);
            }
            std::mem::swap(&mut u, &mut v);
        }
        proof {
            lemma_subtract(u as nat, v as nat);
        }
        u = u - v;
        proof {
            lemma_odd_part(u);
            lemma_strip_power(
                (u >> u32_trailing_zeros(u)) as nat,
                u32_trailing_zeros(u) as nat,
                v as nat,
            );
            lemma_pow2_pos(u32_trailing_zeros(u) as nat);
            assert((u >> u32_trailing_zeros(u)) <= u) by (nonlinear_arith)
                requires
                    u == (u >> u32_trailing_zeros(u)) * pow2(u32_trailing_zeros(u) as nat),
                    pow2(u32_trailing_zeros(u) as nat) > 0,
            ;
        }
        u = u >> u.trailing_zeros();
    }
    proof {
        assert(euclid(u as nat, u as nat) == u) by {
            assert(euclid(u as nat, 0) == u);
            assert(u as nat % u as nat == 0);
        }
        lemma_euclid_bound(a0, b0);
        assert(u * pow2(gcd_exponent_on_two as nat) == pow2(gcd_exponent_on_two as nat) * u)
            by (nonlinear_arith);
        lemma_u32_shl_is_mul(u, gcd_exponent_on_two);
    }
    signed(u << gcd_exponent_on_two)
}

/// An unsigned number as a signed one with the same bits.
fn signed(m: u32) -> (g: i32)
    requires
        m <= 0x8000_0000,
    ensures
        magnitude(g) == m,
        g < 0 ==> g == i32::MIN,
{
    assert(m < 0x8000_0000u32 ==> (m as i32) as int == m as int) by (bit_vector);
    assert(m == 0x8000_0000u32 ==> (m as i32) == -2147483648i32) by (bit_vector);
    m as i32
}

} // verus!
