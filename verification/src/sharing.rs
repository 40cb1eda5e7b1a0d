//! Secret sharing over the prime field: a secret is split into one share
//! per participant by evaluating a random polynomial whose constant term is
//! the secret, and recovered from all shares by Lagrange interpolation at
//! zero.

use vstd::prelude::*;

use crate::idmap::IdMap;
use crate::poly::{all_distinct, poly_eval, PolyError, Polynomial};
use crate::primes::is_prime;

verus! {

/// One evaluation of a sharing polynomial at `x = point`.
#[derive(Clone, Copy, Debug)]
pub struct Share {
    pub point: u8,
    pub value: u64,
}

/// The points of a share list, widened to field values.
pub open spec fn share_points(shares: Seq<Share>) -> Seq<u64> {
    shares.map_values(|s: Share| s.point as u64)
}

/// Relies on rand::random: a uniformly random value of the type. Nothing
/// can be promised of the result.
pub assume_specification<T>[ rand::random::<T> ]() -> (r: T)
    where
        rand::distr::StandardUniform: rand::distr::Distribution<T>,
;

/// The split result `m` holds, for each requested point, the value of the
/// polynomial `coeffs` there; `coeffs` starts with the secret.
pub open spec fn split_consistent(
    m: Map<u8, u64>,
    coeffs: Seq<u64>,
    secret: u64,
    points: Seq<u8>,
    n: u64,
) -> bool {
    &&& coeffs.len() == (if points.len() == 0 {
        1int
    } else {
        points.len() as int
    })
    &&& coeffs[0] == secret
    &&& (forall|k: u8| m.contains_key(k) <==> points.contains(k))
    &&& (forall|i: int|
        0 <= i < points.len() ==> m[#[trigger] points[i]] as int == poly_eval(
            coeffs,
            points[i] as int,
            n as int,
        ))
}

/// Splits `secret` into one share per point: evaluations of a polynomial
/// with `points.len() - 1` random coefficients above the secret.
pub fn split_secret(secret: u64, points: &[u8], n: u64) -> (res: IdMap)
    requires
        n >= 1,
        points@.len() < usize::MAX,
    ensures
        res.wf(),
        exists|coeffs: Seq<u64>| #[trigger] split_consistent(
            res.as_map(),
            coeffs,
            secret,
            points@,
            n,
        ),
{
    let mut coefficients: Vec<u64> = Vec::new();
    coefficients.push(secret);
    let mut i: usize = 1;
    while i < points.len()
        invariant
            n >= 1,
            coefficients@.len() == i,
            1 <= i,
            i <= points@.len() || i == 1,
            coefficients@[0] == secret,
        decreases points@.len() - i,
    {
        let coeff = rand::random::<u64>() % n;
        coefficients.push(coeff);
        i = i + 1;
    }
    let ghost coeffs = coefficients@;
    proof {
        assert(coeffs.len() == (if points@.len() == 0 {
            1int
        } else {
            points@.len() as int
        }));
    }
    let poly = Polynomial::new(coefficients);
    let mut shares = IdMap::new();
    let mut j: usize = 0;
    while j < points.len()
        invariant
            n >= 1,
            j <= points@.len(),
            shares.wf(),
            forall|x: int, p: int|
                p >= 1 ==> poly_eval(poly@, x, p) == #[trigger] poly_eval(coeffs, x, p),
            forall|k: u8| shares.as_map().contains_key(k) <==> points@.take(j as int).contains(k),
            forall|i2: int|
                0 <= i2 < j ==> shares.as_map()[#[trigger] points@[i2]] as int == poly_eval(
                    coeffs,
                    points@[i2] as int,
                    n as int,
                ),
        decreases points@.len() - j,
    {
        let pt = points[j];
        let value = poly.evaluate(pt as u64, n);
        let ghost before = shares.as_map();
        shares.insert(pt, value);
        proof {
            assert forall|k: u8| shares.as_map().contains_key(k) <==> points@.take(
                j + 1,
            ).contains(k) by {
                if k == pt {
                    assert(points@.take(j + 1)[j as int] == pt);
                } else {
                    if points@.take(j as int).contains(k) {
                        let w = choose|w: int|
                            0 <= w < j && #[trigger] points@.take(j as int)[w] == k;
                        assert(points@.take(j + 1)[w] == k);
                    }
                    if points@.take(j + 1).contains(k) {
                        let w = choose|w: int|
                            0 <= w < j + 1 && #[trigger] points@.take(j + 1)[w] == k;
                        assert(w < j);
                        assert(points@.take(j as int)[w] == k);
                    }
                }
            }
        }
        j = j + 1;
    }
    proof {
        assert(points@.take(points@.len() as int) =~= points@);
        assert forall|k: u8| shares.as_map().contains_key(k) <==> points@.contains(k) by {}
        assert(split_consistent(shares.as_map(), coeffs, secret, points@, n));
    }
    shares
}

/// Recovers the shared value: interpolates through the shares and takes the
/// value at zero.
///
/// Under a prime modulus and distinct share points, the result equals
/// `f(0)` for every polynomial `f` of degree below the share count that
/// passes through the shares — in particular the original sharing
/// polynomial, so the secret comes back.
pub fn recover_secret(shares: &[Share], n: u64) -> (res: Result<u64, PolyError>)
    requires
        n >= 2,
        shares@.len() + 1 < usize::MAX,
        forall|k: int| 0 <= k < shares@.len() ==> (#[trigger] shares@[k]).point < n,
    ensures
        (is_prime(n as nat) && shares@.len() < n) ==> (res is Ok <==> all_distinct(
            share_points(shares@),
        )),
        res matches Ok(v) ==> v < n,
        res matches Ok(v) ==> ((is_prime(n as nat) && all_distinct(share_points(shares@)))
            ==> (forall|coeffs: Seq<u64>|
            (coeffs.len() <= shares@.len() && (forall|i: int|
                0 <= i < shares@.len() ==> poly_eval(
                    coeffs,
                    (#[trigger] shares@[i]).point as int,
                    n as int,
                ) == (shares@[i].value as int) % (n as int))) ==> v as int == #[trigger] poly_eval(
                coeffs,
                0,
                n as int,
            ))),
{
    let ghost pi = n as int;
    let mut points: Vec<u64> = Vec::new();
    let mut values: Vec<u64> = Vec::new();
    let mut i: usize = 0;
    while i < shares.len()
        invariant
            i <= shares@.len(),
            points@.len() == i,
            values@.len() == i,
            forall|k: int| 0 <= k < i ==> points@[k] == (#[trigger] shares@[k]).point as u64,
            forall|k: int| 0 <= k < i ==> values@[k] == (#[trigger] shares@[k]).value,
        decreases shares@.len() - i,
    {
        let s = shares[i];
        points.push(s.point as u64);
        values.push(s.value);
        i = i + 1;
    }
    proof {
        assert(points@ =~= share_points(shares@));
        assert forall|k: int| 0 <= k < points@.len() implies points@[k] < n by {
            assert(shares@[k].point < n);
        }
    }
    let poly = match Polynomial::interpolate(&points, &values, n) {
        Ok(p) => p,
        Err(e) => {
            return Err(e);
        },
    };
    let r = poly.evaluate_at_zero();
    proof {
        if poly@.len() == 0 {
            assert(r == 0);
        } else {
            assert(r == poly@[0]);
            assert(r < n);
        }
        if is_prime(n as nat) && all_distinct(share_points(shares@)) {
            assert forall|coeffs: Seq<u64>|
                (coeffs.len() <= shares@.len() && (forall|i2: int|
                    0 <= i2 < shares@.len() ==> poly_eval(
                        coeffs,
                        (#[trigger] shares@[i2]).point as int,
                        pi,
                    ) == (shares@[i2].value as int) % pi)) implies r as int
                == #[trigger] poly_eval(coeffs, 0, pi) by {
                assert forall|k: int| 0 <= k < points@.len() implies poly_eval(
                    poly@,
                    #[trigger] points@[k] as int,
                    pi,
                ) == poly_eval(coeffs, points@[k] as int, pi) by {
                    assert(poly_eval(poly@, points@[k] as int, pi) == (values@[k] as int) % pi);
                    assert(points@[k] as int == shares@[k].point as int);
                    assert(poly_eval(coeffs, shares@[k].point as int, pi) == (
                    shares@[k].value as int) % pi);
                }
                crate::poly_theory::lemma_agree_on_points(poly@, coeffs, points@, n);
                // value at zero is the constant coefficient for reduced polys
                assert(poly_eval(poly@, 0, pi) == r as int) by {
                    if poly@.len() == 0 {
                    } else {
                        let rest = poly@.subrange(1, poly@.len() as int);
                        assert(poly_eval(poly@, 0, pi) == (poly@[0] + 0 * poly_eval(
                            rest,
                            0,
                            pi,
                        )) % pi);
                        assert(0 * poly_eval(rest, 0, pi) == 0) by (nonlinear_arith);
                        vstd::arithmetic::div_mod::lemma_small_mod(poly@[0] as nat, n as nat);
                    }
                }
            }
        }
    }
    Ok(r)
}

/// Secret-sharing round trip: when the shares are the values of a sharing
/// polynomial whose constant term is the secret, any recovery procedure
/// that returns `f(0)` of every low-degree polynomial through the shares
/// returns the secret itself.
pub proof fn lemma_secret_sharing_round_trip(
    secret: u64,
    coeffs: Seq<u64>,
    shares: Seq<Share>,
    recovered: u64,
    n: u64,
)
    requires
        is_prime(n as nat),
        secret < n,
        1 <= coeffs.len() <= shares.len(),
        coeffs[0] == secret,
        all_distinct(share_points(shares)),
        forall|i: int|
            0 <= i < shares.len() ==> (#[trigger] shares[i]).value as int == poly_eval(
                coeffs,
                shares[i].point as int,
                n as int,
            ),
        forall|c: Seq<u64>|
            (c.len() <= shares.len() && (forall|i: int|
                0 <= i < shares.len() ==> poly_eval(
                    c,
                    (#[trigger] shares[i]).point as int,
                    n as int,
                ) == (shares[i].value as int) % (n as int))) ==> recovered as int
                == #[trigger] poly_eval(c, 0, n as int),
    ensures
        recovered == secret,
{
    let pi = n as int;
    assert forall|i: int| 0 <= i < shares.len() implies poly_eval(
        coeffs,
        (#[trigger] shares[i]).point as int,
        pi,
    ) == (shares[i].value as int) % pi by {
        crate::poly_facts::lemma_eval_bound(coeffs, shares[i].point as int, pi);
        vstd::arithmetic::div_mod::lemma_small_mod(
            poly_eval(coeffs, shares[i].point as int, pi) as nat,
            n as nat,
        );
    }
    assert(recovered as int == poly_eval(coeffs, 0, pi));
    let rest = coeffs.subrange(1, coeffs.len() as int);
    assert(poly_eval(coeffs, 0, pi) == (coeffs[0] + 0 * poly_eval(rest, 0, pi)) % pi);
    assert(0 * poly_eval(rest, 0, pi) == 0) by (nonlinear_arith);
    vstd::arithmetic::div_mod::lemma_small_mod(secret as nat, n as nat);
}

/// A coefficient, with zero beyond the length.
pub open spec fn coeff_at(c: Seq<u64>, k: int) -> u64 {
    if 0 <= k < c.len() {
        c[k]
    } else {
        0
    }
}

/// Pointwise modular sum of two coefficient sequences.
pub open spec fn add_polys_mod(u: Seq<u64>, v: Seq<u64>, p: int) -> Seq<u64> {
    Seq::new(
        if u.len() >= v.len() {
            u.len()
        } else {
            v.len()
        },
        |k: int| ((coeff_at(u, k) + coeff_at(v, k)) % p) as u64,
    )
}

/// The modular sum of a family of polynomials, coefficient-wise.
pub open spec fn polys_sum(polys: Seq<Seq<u64>>, p: int) -> Seq<u64>
    decreases polys.len(),
{
    if polys.len() == 0 {
        Seq::empty()
    } else {
        add_polys_mod(polys_sum(polys.drop_last(), p), polys.last(), p)
    }
}

/// The modular sum of the values of a family of polynomials at `x`.
pub open spec fn sum_evals(polys: Seq<Seq<u64>>, x: int, p: int) -> int
    decreases polys.len(),
{
    if polys.len() == 0 {
        0
    } else {
        (sum_evals(polys.drop_last(), x, p) + poly_eval(polys.last(), x, p)) % p
    }
}

/// The modular sum of the constant terms: the nodes' inputs.
pub open spec fn inputs_sum(polys: Seq<Seq<u64>>, p: int) -> int
    decreases polys.len(),
{
    if polys.len() == 0 {
        0
    } else {
        (inputs_sum(polys.drop_last(), p) + coeff_at(polys.last(), 0)) % p
    }
}

/// Pointwise modular addition of coefficients adds the values.
proof fn lemma_eval_add_polys(u: Seq<u64>, v: Seq<u64>, x: int, p: int)
    requires
        1 <= p <= u64::MAX,
    ensures
        poly_eval(add_polys_mod(u, v, p), x, p) == (poly_eval(u, x, p) + poly_eval(v, x, p)) % p,
{
    let m = if u.len() >= v.len() {
        u.len() as int
    } else {
        v.len() as int
    };
    let up = crate::poly_theory::pad_zeros(u, m);
    let vp = crate::poly_theory::pad_zeros(v, m);
    let out = add_polys_mod(u, v, p);
    crate::poly_theory::lemma_eval_pad_zeros(u, m, x, p);
    crate::poly_theory::lemma_eval_pad_zeros(v, m, x, p);
    assert forall|k: int| 0 <= k < out.len() implies out[k] as int == (up[k] - (-1) * vp[k])
        % p by {
        assert(up[k] == coeff_at(u, k));
        assert(vp[k] == coeff_at(v, k));
        assert((coeff_at(u, k) + coeff_at(v, k)) == (up[k] - (-1) * vp[k])) by (nonlinear_arith)
            requires
                up[k] == coeff_at(u, k),
                vp[k] == coeff_at(v, k),
        ;
        vstd::arithmetic::div_mod::lemma_mod_bound(coeff_at(u, k) + coeff_at(v, k), p);
    }
    crate::poly_facts::lemma_eval_lin_comb(up, vp, out, -1, x, p);
    assert(poly_eval(up, x, p) - (-1) * poly_eval(vp, x, p) == poly_eval(u, x, p) + poly_eval(
        v,
        x,
        p,
    )) by (nonlinear_arith)
        requires
            poly_eval(up, x, p) == poly_eval(u, x, p),
            poly_eval(vp, x, p) == poly_eval(v, x, p),
    ;
}

/// The coefficient-wise sum of the family evaluates to the modular sum of
/// the values.
proof fn lemma_eval_polys_sum(polys: Seq<Seq<u64>>, x: int, p: int)
    requires
        1 <= p <= u64::MAX,
    ensures
        poly_eval(polys_sum(polys, p), x, p) == sum_evals(polys, x, p),
    decreases polys.len(),
{
    if polys.len() == 0 {
    } else {
        lemma_eval_polys_sum(polys.drop_last(), x, p);
        lemma_eval_add_polys(polys_sum(polys.drop_last(), p), polys.last(), x, p);
        crate::poly_facts::lemma_eval_bound(polys_sum(polys.drop_last(), p), x, p);
        vstd::arithmetic::div_mod::lemma_add_mod_noop(
            poly_eval(polys_sum(polys.drop_last(), p), x, p),
            poly_eval(polys.last(), x, p),
            p,
        );
        vstd::arithmetic::div_mod::lemma_small_mod(
            poly_eval(polys_sum(polys.drop_last(), p), x, p) as nat,
            p as nat,
        );
        vstd::arithmetic::div_mod::lemma_small_mod(
            poly_eval(polys.last(), x, p) as nat,
            p as nat,
        );
        crate::poly_facts::lemma_eval_bound(polys.last(), x, p);
    }
}

/// The family's sum is no longer than its longest member.
proof fn lemma_polys_sum_len(polys: Seq<Seq<u64>>, p: int, bound: int)
    requires
        forall|i: int| 0 <= i < polys.len() ==> (#[trigger] polys[i]).len() <= bound,
        bound >= 0,
    ensures
        polys_sum(polys, p).len() <= bound,
    decreases polys.len(),
{
    if polys.len() == 0 {
    } else {
        assert(polys.last() == polys[polys.len() - 1]);
        assert forall|i: int| 0 <= i < polys.drop_last().len() implies (
        #[trigger] polys.drop_last()[i]).len() <= bound by {
            assert(polys.drop_last()[i] == polys[i]);
        }
        lemma_polys_sum_len(polys.drop_last(), p, bound);
    }
}

/// At zero the sum of values is the modular sum of the constant terms.
proof fn lemma_sum_evals_at_zero(polys: Seq<Seq<u64>>, p: int)
    requires
        p >= 1,
    ensures
        sum_evals(polys, 0, p) == inputs_sum(polys, p),
    decreases polys.len(),
{
    if polys.len() == 0 {
    } else {
        lemma_sum_evals_at_zero(polys.drop_last(), p);
        let last = polys.last();
        assert(poly_eval(last, 0, p) == (coeff_at(last, 0) as int) % p) by {
            if last.len() == 0 {
                vstd::arithmetic::div_mod::lemma_small_mod(0nat, p as nat);
            } else {
                let rest = last.subrange(1, last.len() as int);
                assert(poly_eval(last, 0, p) == (last[0] + 0 * poly_eval(rest, 0, p)) % p);
                assert(0 * poly_eval(rest, 0, p) == 0) by (nonlinear_arith);
            }
        }
        vstd::arithmetic::div_mod::lemma_add_mod_noop_right(
            sum_evals(polys.drop_last(), 0, p),
            coeff_at(last, 0) as int,
            p,
        );
    }
}

/// Protocol correctness: when every node splits its input with a
/// polynomial of degree below the participant count, each participant's
/// shares-sum is the modular sum of the polynomial values at its id, and a
/// polynomial of degree below the participant count interpolates those
/// shares-sums, then its value at zero — what reconstruction returns — is
/// the modular sum of all the inputs.
pub proof fn lemma_protocol_sum(polys: Seq<Seq<u64>>, pts: Seq<u64>, g: Seq<u64>, p: u64)
    requires
        is_prime(p as nat),
        all_distinct(pts),
        forall|k: int| 0 <= k < pts.len() ==> pts[k] < p,
        forall|i: int| 0 <= i < polys.len() ==> (#[trigger] polys[i]).len() <= pts.len(),
        g.len() <= pts.len(),
        forall|j: int|
            0 <= j < pts.len() ==> poly_eval(g, #[trigger] pts[j] as int, p as int) == sum_evals(
                polys,
                pts[j] as int,
                p as int,
            ),
    ensures
        poly_eval(g, 0, p as int) == inputs_sum(polys, p as int),
{
    let pi = p as int;
    let s = polys_sum(polys, pi);
    lemma_polys_sum_len(polys, pi, pts.len() as int);
    assert forall|j: int| 0 <= j < pts.len() implies poly_eval(g, #[trigger] pts[j] as int, pi)
        == poly_eval(s, pts[j] as int, pi) by {
        lemma_eval_polys_sum(polys, pts[j] as int, pi);
    }
    crate::poly_theory::lemma_agree_on_points(g, s, pts, p);
    lemma_eval_polys_sum(polys, 0, pi);
    lemma_sum_evals_at_zero(polys, pi);
}

} // verus!
