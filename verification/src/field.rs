//! Arithmetic in the prime field: reduction, addition, subtraction,
//! multiplication, negation, and the extended-Euclidean modular inverse.

use vstd::prelude::*;

verus! {

/// Reduces a signed 128-bit value into `[0, n)` modulo `n`.
///
/// Spec-level `%` on `int` is Euclidean, so the contract is simply the
/// mathematical remainder.
pub fn modulo(a: i128, n: u64) -> (r: u64)
    requires
        n >= 1,
    ensures
        r as int == (a as int) % (n as int),
{
    let n_as_i128: i128 = n as i128;
    if a > 0 {
        if a < n_as_i128 {
            proof {
                vstd::arithmetic::div_mod::lemma_small_mod(a as nat, n as nat);
            }
            return a as u64;
        }
        return (a % n_as_i128) as u64;
    }
    if a == 0 {
        proof {
            vstd::arithmetic::div_mod::lemma_mod_self_0(n as int);
            assert(0int % (n as int) == 0) by {
                vstd::arithmetic::div_mod::lemma_small_mod(0nat, n as nat);
            }
        }
        return 0;
    }
    // a < 0: reduce |a| with unsigned arithmetic, then flip the remainder.
    let neg: u128 = ((-(a + 1)) as u128) + 1;
    proof {
        assert(neg as int == -(a as int));
    }
    let m: u64 = (neg % (n as u128)) as u64;
    proof {
        let aa = a as int;
        let nn = n as int;
        let q = (neg as int) / nn;
        vstd::arithmetic::div_mod::lemma_fundamental_div_mod(neg as int, nn);
        assert(neg as int == q * nn + (m as int));
        if m == 0 {
            assert(aa == (-q) * nn + 0) by (nonlinear_arith)
                requires
                    aa == -(neg as int),
                    neg as int == q * nn + 0,
            ;
            vstd::arithmetic::div_mod::lemma_fundamental_div_mod_converse_mod(aa, nn, -q, 0);
        } else {
            assert(aa == (-q - 1) * nn + (nn - (m as int))) by (nonlinear_arith)
                requires
                    aa == -(neg as int),
                    neg as int == q * nn + (m as int),
            ;
            vstd::arithmetic::div_mod::lemma_fundamental_div_mod_converse_mod(
                aa,
                nn,
                -q - 1,
                nn - (m as int),
            );
        }
    }
    if m == 0 {
        0
    } else {
        n - m
    }
}

/// Adds two field values, reducing modulo `n` with a 128-bit intermediate.
pub fn mod_add(a: u64, b: u64, n: u64) -> (r: u64)
    requires
        n >= 1,
    ensures
        r as int == (a + b) % (n as int),
{
    ((a as u128 + b as u128) % (n as u128)) as u64
}

/// Multiplies two field values, reducing modulo `n` with a 128-bit
/// intermediate so the product cannot overflow.
pub fn mod_mul(a: u64, b: u64, n: u64) -> (r: u64)
    requires
        n >= 1,
    ensures
        r as int == (a as int * b as int) % (n as int),
{
    proof {
        assert(a as int * b as int <= u64::MAX as int * u64::MAX as int) by (nonlinear_arith)
            requires
                a as int <= u64::MAX as int,
                b as int <= u64::MAX as int,
        ;
    }
    ((a as u128 * b as u128) % (n as u128)) as u64
}

/// Subtracts `b` from `a` in the field: `(a + n - b mod n) mod n`.
pub fn mod_sub(a: u64, b: u64, n: u64) -> (r: u64)
    requires
        n >= 1,
    ensures
        r as int == (a - b) % (n as int),
{
    let bm: u128 = (b as u128) % (n as u128);
    let r = ((a as u128 + n as u128 - bm) % (n as u128)) as u64;
    proof {
        let aa = a as int;
        let bb = b as int;
        let nn = n as int;
        assert((aa + nn - bm) % nn == (aa - bm) % nn) by {
            vstd::arithmetic::div_mod::lemma_mod_add_multiples_vanish(aa - bm, nn);
        }
        assert((aa - bb % nn) % nn == (aa - bb) % nn) by {
            vstd::arithmetic::div_mod::lemma_sub_mod_noop_right(aa, bb, nn);
        }
    }
    r
}

/// Negates a nonzero field value: `n - (a mod n)`.
pub fn mod_neg(a: u64, n: u64) -> (r: u64)
    requires
        n >= 1,
        a % n != 0,
    ensures
        r as int == (-(a as int)) % (n as int),
{
    let m = a % n;
    proof {
        let aa = a as int;
        let nn = n as int;
        let q = aa / nn;
        vstd::arithmetic::div_mod::lemma_fundamental_div_mod(aa, nn);
        assert(-aa == (-q - 1) * nn + (nn - (m as int))) by (nonlinear_arith)
            requires
                aa == q * nn + (m as int),
        ;
        vstd::arithmetic::div_mod::lemma_fundamental_div_mod_converse_mod(
            -aa,
            nn,
            -q - 1,
            nn - (m as int),
        );
    }
    n - m
}

/// The greatest common divisor, by Euclid's recursion.
pub open spec fn gcd(x: nat, y: nat) -> nat
    decreases y,
{
    if y == 0 {
        x
    } else {
        gcd(y, x % y)
    }
}

/// Reasons the inverse computation can fail: zero has no inverse, and a
/// value sharing a factor with the modulus has none.
#[derive(Clone, Copy, PartialEq, Eq, Structural, Debug)]
pub enum FieldError {
    ZeroHasNoInverse,
    NotCoprime,
}

/// Computes `a^(-1) mod n` by the extended Euclidean algorithm.
///
/// Succeeds exactly when `a != 0` and `gcd(n, a) == 1`; the returned value
/// `v` satisfies `(a * v) % n == 1` and `v < n`.
pub fn modulo_inv(a: u64, n: u64) -> (res: Result<u64, FieldError>)
    requires
        n >= 2,
    ensures
        res is Ok <==> (a != 0 && gcd(n as nat, a as nat) == 1),
        a == 0 ==> res == Result::<u64, FieldError>::Err(FieldError::ZeroHasNoInverse),
        res matches Ok(v) ==> (a as int * v as int) % (n as int) == 1 && v < n,
{
    if a == 0 {
        return Err(FieldError::ZeroHasNoInverse);
    }
    if a == 1 {
        proof {
            lemma_gcd_one_right(n as nat);
            vstd::arithmetic::div_mod::lemma_small_mod(1nat, n as nat);
        }
        return Ok(1);
    }

    let mut new_r: u64 = a;
    let mut r: u64 = n;
    let mut new_t: u64 = 1;
    let mut t: u64 = 0;

    proof {
        vstd::arithmetic::div_mod::lemma_mod_self_0(n as int);
        vstd::arithmetic::div_mod::lemma_small_mod(0nat, n as nat);
    }

    while new_r != 0
        invariant
            n >= 2,
            a >= 1,
            t < n,
            new_t < n,
            (t as int * a as int) % (n as int) == (r as int) % (n as int),
            (new_t as int * a as int) % (n as int) == (new_r as int) % (n as int),
            gcd(r as nat, new_r as nat) == gcd(n as nat, a as nat),
        decreases new_r,
    {
        let q: u64 = r / new_r;
        let r_next: u64 = r % new_r;
        // t_next = (t - q * new_t) mod n, computed without overflow.
        proof {
            assert(q as int * new_t as int <= u64::MAX as int * u64::MAX as int)
                by (nonlinear_arith)
                requires
                    q as int <= u64::MAX as int,
                    new_t as int <= u64::MAX as int,
            ;
        }
        let prod: u64 = ((q as u128 * new_t as u128) % (n as u128)) as u64;
        let t_next: u64 = ((t as u128 + n as u128 - prod as u128) % (n as u128)) as u64;
        proof {
            let aa = a as int;
            let nn = n as int;
            let qq = q as int;
            let ti = t as int;
            let nti = new_t as int;
            vstd::arithmetic::div_mod::lemma_fundamental_div_mod(r as int, new_r as int);
            // t_next == (t - q * new_t) % n
            assert((ti + nn - prod) % nn == (ti - prod) % nn) by {
                vstd::arithmetic::div_mod::lemma_mod_add_multiples_vanish(ti - prod, nn);
            }
            assert((ti - (qq * nti) % nn) % nn == (ti - qq * nti) % nn) by {
                vstd::arithmetic::div_mod::lemma_sub_mod_noop_right(ti, qq * nti, nn);
            }
            assert(t_next as int == (ti - qq * nti) % nn);
            // (t_next * a) % n == (r_next) % n
            assert((t_next as int * aa) % nn == ((ti - qq * nti) * aa) % nn) by {
                vstd::arithmetic::div_mod::lemma_mul_mod_noop_left(ti - qq * nti, aa, nn);
            }
            assert((ti - qq * nti) * aa == ti * aa - qq * (nti * aa)) by (nonlinear_arith);
            assert((ti * aa - qq * (nti * aa)) % nn == (ti * aa - qq * (new_r as int)) % nn) by {
                lemma_mod_sub_mul_congruent(ti * aa, nti * aa, new_r as int, qq, nn);
            }
            assert((ti * aa - qq * (new_r as int)) % nn == ((r as int) - qq * (new_r as int))
                % nn) by {
                vstd::arithmetic::div_mod::lemma_sub_mod_noop(ti * aa, qq * (new_r as int), nn);
                vstd::arithmetic::div_mod::lemma_sub_mod_noop(r as int, qq * (new_r as int), nn);
            }
            assert((r as int) - qq * (new_r as int) == r_next as int);
            // gcd is preserved: gcd(r, new_r) == gcd(new_r, r % new_r) by definition.
            assert(gcd(new_r as nat, r_next as nat) == gcd(r as nat, new_r as nat));
        }
        r = new_r;
        new_r = r_next;
        t = new_t;
        new_t = t_next;
    }

    if r != 1 {
        return Err(FieldError::NotCoprime);
    }
    proof {
        vstd::arithmetic::div_mod::lemma_small_mod(1nat, n as nat);
        assert(a as int * t as int == t as int * a as int) by (nonlinear_arith);
    }
    Ok(t)
}

/// `gcd(x, 1) == 1` for any `x`.
pub proof fn lemma_gcd_one_right(x: nat)
    ensures
        gcd(x, 1) == 1,
{
    assert(x % 1 == 0) by {
        vstd::arithmetic::div_mod::lemma_mod_division_less_than_divisor(x as int, 1int);
    }
    assert(gcd(x, 1) == gcd(1, 0));
    assert(gcd(1, 0) == 1);
}

/// If `y % n == z % n` then `(x - q * y) % n == (x - q * z) % n`.
proof fn lemma_mod_sub_mul_congruent(x: int, y: int, z: int, q: int, n: int)
    requires
        n >= 1,
        y % n == z % n,
    ensures
        (x - q * y) % n == (x - q * z) % n,
{
    vstd::arithmetic::div_mod::lemma_mul_mod_noop_right(q, y, n);
    vstd::arithmetic::div_mod::lemma_mul_mod_noop_right(q, z, n);
    assert((q * y) % n == (q * z) % n);
    vstd::arithmetic::div_mod::lemma_sub_mod_noop_right(x, q * y, n);
    vstd::arithmetic::div_mod::lemma_sub_mod_noop_right(x, q * z, n);
    assert((x - (q * y) % n) % n == (x - q * y) % n);
    assert((x - (q * z) % n) % n == (x - q * z) % n);
}

} // verus!
