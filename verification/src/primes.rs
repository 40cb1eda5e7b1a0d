//! Primality, divisibility and Bezout facts for the field modulus: what is
//! needed to cancel nonzero factors modulo a prime.

use vstd::prelude::*;

use vstd::arithmetic::div_mod::{
    lemma_add_mod_noop, lemma_fundamental_div_mod, lemma_mod_bound, lemma_mod_self_0,
    lemma_mul_mod_noop_left, lemma_mul_mod_noop_right, lemma_small_mod,
};

use crate::field::gcd;

verus! {

/// A prime: at least 2, and no divisor strictly between 1 and itself.
pub open spec fn is_prime(p: nat) -> bool {
    p >= 2 && forall|d: nat| 2 <= d < p ==> #[trigger] (p % d) != 0
}

/// The gcd of `x` and `y` is positive and divides both, provided the pair
/// is not (0, 0).
pub proof fn lemma_gcd_divides(x: nat, y: nat)
    requires
        x + y >= 1,
    ensures
        gcd(x, y) >= 1,
        (x as int) % (gcd(x, y) as int) == 0,
        (y as int) % (gcd(x, y) as int) == 0,
    decreases y,
{
    if y == 0 {
        assert(gcd(x, 0) == x);
        lemma_mod_self_0(x as int);
        lemma_small_mod(0nat, x);
    } else {
        let r = x % y;
        lemma_mod_bound(x as int, y as int);
        lemma_gcd_divides(y, r);
        let g = gcd(y, r);
        assert(gcd(x, y) == g);
        // x == (x / y) * y + r, and both y and r vanish modulo g.
        lemma_fundamental_div_mod(x as int, y as int);
        let q = x as int / y as int;
        assert(x as int == q * (y as int) + r);
        assert((q * (y as int)) % (g as int) == 0) by {
            lemma_mul_mod_noop_right(q, y as int, g as int);
            assert((q * ((y as int) % (g as int))) % (g as int) == (q * (y as int)) % (
            g as int));
            assert(q * 0 == 0) by (nonlinear_arith);
            lemma_small_mod(0nat, g);
        }
        assert((q * (y as int) + r) % (g as int) == 0) by {
            lemma_add_mod_noop(q * (y as int), r as int, g as int);
            lemma_small_mod(0nat, g);
        }
    }
}

/// Bezout's identity: some integer combination of `x` and `y` equals their
/// gcd.
pub proof fn lemma_bezout(x: nat, y: nat)
    ensures
        exists|u: int, v: int| #[trigger] (u * x) + #[trigger] (v * y) == gcd(x, y),
    decreases y,
{
    if y == 0 {
        assert(1int * x + 0int * y == gcd(x, 0)) by (nonlinear_arith)
            requires
                gcd(x, 0) == x,
        ;
    } else {
        let r = x % y;
        lemma_bezout(y, r);
        let (u2, v2) = choose|u2: int, v2: int| #[trigger] (u2 * y) + #[trigger] (v2 * r) == gcd(y, r);
        lemma_fundamental_div_mod(x as int, y as int);
        let q = x as int / y as int;
        assert(r == x as int - q * (y as int));
        let u = v2;
        let v = u2 - v2 * q;
        assert(u * x + v * y == gcd(x, y)) by (nonlinear_arith)
            requires
                u2 * y + v2 * r == gcd(x, y),
                r == x as int - q * (y as int),
                u == v2,
                v == u2 - v2 * q,
        ;
    }
}

/// A positive number with a positive remainder below a prime is coprime to it.
pub proof fn lemma_prime_gcd_small(p: nat, r: nat)
    requires
        is_prime(p),
        1 <= r < p,
    ensures
        gcd(p, r) == 1,
{
    lemma_gcd_divides(p, r);
    let g = gcd(p, r);
    // g divides r and r >= 1, so g <= r < p.
    if g > r {
        lemma_small_mod(r, g);
        assert(false);
    }
    // g divides p and p is prime, so g is 1 or p; g < p rules out p.
    if g >= 2 {
        assert(p % g != 0);
        assert(false);
    }
}

/// Euclid's lemma in cancellation form: modulo a prime, a product is zero
/// only if one factor is.
pub proof fn lemma_euclid(p: nat, a: int, b: int)
    requires
        is_prime(p),
        (a * b) % (p as int) == 0,
        a % (p as int) != 0,
    ensures
        b % (p as int) == 0,
{
    let pi = p as int;
    let r = a % pi;
    lemma_mod_bound(a, pi);
    lemma_prime_gcd_small(p, r as nat);
    lemma_bezout(p, r as nat);
    let (u, v) = choose|u: int, v: int| #[trigger] (u * p) + #[trigger] (v * (r as nat)) == gcd(p, r as nat);
    assert(u * pi + v * r == 1);
    // b == u*b*p + v*(r*b), and both summands vanish modulo p.
    assert(b == (u * b) * pi + v * (r * b)) by (nonlinear_arith)
        requires
            u * pi + v * r == 1,
    ;
    assert(((u * b) * pi) % pi == 0) by {
        lemma_mul_mod_noop_right(u * b, pi, pi);
        lemma_mod_self_0(pi);
        assert((u * b) * 0 == 0) by (nonlinear_arith);
        lemma_small_mod(0nat, p);
    }
    assert((v * (r * b)) % pi == 0) by {
        assert((r * b) % pi == 0) by {
            lemma_mul_mod_noop_left(a, b, pi);
        }
        lemma_mul_mod_noop_right(v, r * b, pi);
        assert(v * 0 == 0) by (nonlinear_arith);
        lemma_small_mod(0nat, p);
    }
    assert(((u * b) * pi + v * (r * b)) % pi == 0) by {
        lemma_add_mod_noop((u * b) * pi, v * (r * b), pi);
        lemma_small_mod(0nat, p);
    }
}

/// Modulo a prime, a product of values that are nonzero mod `p` is nonzero.
pub proof fn lemma_prime_product_nonzero(p: nat, a: int, b: int)
    requires
        is_prime(p),
        a % (p as int) != 0,
        b % (p as int) != 0,
    ensures
        (a * b) % (p as int) != 0,
{
    if (a * b) % (p as int) == 0 {
        lemma_euclid(p, a, b);
    }
}

} // verus!
