//! Root-counting theory over a prime field: the factor theorem by synthetic
//! division, the bound on the number of roots, uniqueness of low-degree
//! polynomials through given points, and facts about the master root
//! product.

use vstd::prelude::*;

use vstd::arithmetic::div_mod::{lemma_mod_bound, lemma_small_mod};

use crate::poly::{all_distinct, poly_eval, root_prod};
use crate::poly_facts::{
    cong, lemma_cong_add, lemma_cong_mul, lemma_cong_sub, lemma_eval_bound,
    lemma_eval_drop_last_zero, lemma_eval_lin_comb,
};
use crate::primes::{is_prime, lemma_euclid, lemma_prime_product_nonzero};

verus! {

/// A nonzero value strictly between `-p` and `p` is nonzero modulo `p`.
pub proof fn lemma_small_nonzero_mod(d: int, p: int)
    requires
        p >= 1,
        -p < d < p,
        d != 0,
    ensures
        d % p != 0,
{
    if d > 0 {
        lemma_small_mod(d as nat, p as nat);
    } else {
        vstd::arithmetic::div_mod::lemma_fundamental_div_mod_converse_mod(d, p, -1, d + p);
    }
}

/// Two reduced values that agree modulo `p` are equal.
pub proof fn lemma_mod_eq_small(a: int, b: int, p: int)
    requires
        p >= 1,
        0 <= a < p,
        0 <= b < p,
        (a - b) % p == 0,
    ensures
        a == b,
{
    if a != b {
        lemma_small_nonzero_mod(a - b, p);
    }
}

/// Quotient of synthetic division of `f` by the linear factor `(x - a)`:
/// little-endian coefficients, each reduced modulo `p`.
pub open spec fn synth_quot(f: Seq<u64>, a: u64, p: u64) -> Seq<u64>
    decreases f.len(),
{
    if f.len() == 0 {
        Seq::empty()
    } else {
        seq![poly_eval(f.subrange(1, f.len() as int), a as int, p as int) as u64] + synth_quot(
            f.subrange(1, f.len() as int),
            a,
            p,
        )
    }
}

/// The factor identity of synthetic division:
/// `f(x) = (x - a) * q(x) + f(a)` modulo `p`, with `q` one shorter than `f`.
pub proof fn lemma_synth_div(f: Seq<u64>, a: u64, p: u64, x: int)
    requires
        p >= 1,
    ensures
        synth_quot(f, a, p).len() == f.len(),
        poly_eval(f, x, p as int) == ((x - a) * poly_eval(synth_quot(f, a, p), x, p as int)
            + poly_eval(f, a as int, p as int)) % (p as int),
    decreases f.len(),
{
    let pi = p as int;
    if f.len() == 0 {
        assert(synth_quot(f, a, p) =~= Seq::<u64>::empty());
        assert(poly_eval(f, x, pi) == 0);
        assert(((x - a) * 0 + 0) % pi == 0) by {
            assert((x - a) * 0 == 0) by (nonlinear_arith);
            lemma_small_mod(0nat, p as nat);
        }
    } else {
        let g = f.subrange(1, f.len() as int);
        lemma_synth_div(g, a, p, x);
        let qg = synth_quot(g, a, p);
        let eq = poly_eval(qg, x, pi);
        let eg = poly_eval(g, x, pi);
        let rg = poly_eval(g, a as int, pi);
        let q = synth_quot(f, a, p);
        lemma_eval_bound(g, a as int, pi);
        assert(q == seq![rg as u64] + qg);
        assert(q.len() == 1 + qg.len());
        assert(q[0] as int == rg);
        assert(q.len() == f.len());
        assert(q.subrange(1, q.len() as int) =~= qg);
        let eqq = poly_eval(q, x, pi);
        assert(eqq == (rg + x * eq) % pi);
        let f0 = f[0] as int;
        let r = poly_eval(f, a as int, pi);
        assert(r == (f0 + a * rg) % pi);
        assert(poly_eval(f, x, pi) == (f0 + x * eg) % pi);
        // goal: (f0 + x * eg) % pi == ((x - a) * eqq + r) % pi
        assert(cong((x - a) * eqq + r, (x - a) * (rg + x * eq) + (f0 + a * rg), pi)) by {
            vstd::arithmetic::div_mod::lemma_mod_twice(rg + x * eq, pi);
            vstd::arithmetic::div_mod::lemma_mod_twice(f0 + a * rg, pi);
            lemma_cong_mul(x - a, eqq, x - a, rg + x * eq, pi);
            lemma_cong_add((x - a) * eqq, r, (x - a) * (rg + x * eq), f0 + a * rg, pi);
        }
        assert((x - a) * (rg + x * eq) + (f0 + a * rg) == f0 + x * rg + x * ((x - a) * eq))
            by (nonlinear_arith);
        // IH: eg == ((x - a) * eq + rg) % pi
        assert(cong(f0 + x * eg, f0 + x * ((x - a) * eq + rg), pi)) by {
            vstd::arithmetic::div_mod::lemma_mod_twice((x - a) * eq + rg, pi);
            lemma_cong_mul(x, eg, x, (x - a) * eq + rg, pi);
            lemma_cong_add(f0, x * eg, f0, x * ((x - a) * eq + rg), pi);
        }
        assert(f0 + x * ((x - a) * eq + rg) == f0 + x * rg + x * ((x - a) * eq))
            by (nonlinear_arith);
    }
}

/// The top coefficient of the synthetic quotient is always zero.
pub proof fn lemma_synth_last_zero(f: Seq<u64>, a: u64, p: u64)
    requires
        p >= 1,
        f.len() >= 1,
    ensures
        synth_quot(f, a, p).len() == f.len(),
        synth_quot(f, a, p).last() == 0,
    decreases f.len(),
{
    lemma_synth_div(f, a, p, 0);
    let g = f.subrange(1, f.len() as int);
    let qg = synth_quot(g, a, p);
    let q = synth_quot(f, a, p);
    let rg = poly_eval(g, a as int, p as int);
    assert(q == seq![rg as u64] + qg);
    if g.len() == 0 {
        assert(qg =~= Seq::<u64>::empty());
        assert(q.last() == rg as u64);
        assert(rg == 0);
    } else {
        lemma_synth_last_zero(g, a, p);
        assert(q.last() == qg.last());
    }
}

/// A polynomial of length at most the number of its distinct roots vanishes
/// everywhere modulo a prime.
pub proof fn lemma_roots_zero(f: Seq<u64>, pts: Seq<u64>, p: u64)
    requires
        is_prime(p as nat),
        forall|k: int| 0 <= k < pts.len() ==> pts[k] < p,
        all_distinct(pts),
        forall|k: int| 0 <= k < pts.len() ==> poly_eval(f, #[trigger] pts[k] as int, p as int)
            == 0,
        f.len() <= pts.len(),
    ensures
        forall|x: int| poly_eval(f, x, p as int) == 0,
    decreases f.len(),
{
    let pi = p as int;
    if f.len() == 0 {
        assert forall|x: int| poly_eval(f, x, pi) == 0 by {}
    } else {
        let a = pts[0];
        let q0 = synth_quot(f, a, p);
        lemma_synth_last_zero(f, a, p);
        let q = q0.drop_last();
        assert forall|y: int| #[trigger] poly_eval(q, y, pi) == poly_eval(q0, y, pi) by {
            lemma_eval_drop_last_zero(q0, y, pi);
        }
        let rest = pts.subrange(1, pts.len() as int);
        assert(poly_eval(f, a as int, pi) == 0);
        assert forall|k: int| 0 <= k < rest.len() implies poly_eval(
            q,
            #[trigger] rest[k] as int,
            pi,
        ) == 0 by {
            let y = rest[k] as int;
            lemma_synth_div(f, a, p, y);
            let eqy = poly_eval(q, y, pi);
            assert(eqy == poly_eval(q0, y, pi));
            assert(0 == ((y - a) * eqy + 0) % pi);
            assert(((y - a) * eqy) % pi == 0);
            assert((y - a) % pi != 0) by {
                assert(rest[k] == pts[k + 1]);
                assert(pts[k + 1] != pts[0]);
                lemma_small_nonzero_mod(y - a, pi);
            }
            lemma_euclid(p as nat, y - a, eqy);
            lemma_eval_bound(q, y, pi);
            lemma_small_mod(eqy as nat, p as nat);
        }
        assert(all_distinct(rest));
        assert(forall|k: int| 0 <= k < rest.len() ==> rest[k] < p);
        assert(q.len() == f.len() - 1);
        lemma_roots_zero(q, rest, p);
        assert forall|x: int| poly_eval(f, x, pi) == 0 by {
            lemma_synth_div(f, a, p, x);
            assert(poly_eval(q, x, pi) == 0);
            assert(poly_eval(q0, x, pi) == 0);
            assert(((x - a) * 0 + 0) % pi == 0) by {
                assert((x - a) * 0 == 0) by (nonlinear_arith);
                lemma_small_mod(0nat, p as nat);
            }
        }
    }
}

/// Appending zero coefficients up to length `m` leaves evaluation unchanged.
pub open spec fn pad_zeros(c: Seq<u64>, m: int) -> Seq<u64> {
    c + Seq::new((m - c.len()) as nat, |i: int| 0u64)
}

pub proof fn lemma_eval_pad_zeros(c: Seq<u64>, m: int, x: int, p: int)
    requires
        p >= 1,
        m >= c.len(),
    ensures
        pad_zeros(c, m).len() == m,
        poly_eval(pad_zeros(c, m), x, p) == poly_eval(c, x, p),
    decreases m - c.len(),
{
    if m == c.len() {
        assert(pad_zeros(c, m) =~= c);
    } else {
        lemma_eval_pad_zeros(c, m - 1, x, p);
        assert(pad_zeros(c, m).drop_last() =~= pad_zeros(c, m - 1));
        assert(pad_zeros(c, m).last() == 0);
        lemma_eval_drop_last_zero(pad_zeros(c, m), x, p);
    }
}

/// Uniqueness: two polynomials of length at most the number of distinct
/// points they agree on are equal as functions on the field.
pub proof fn lemma_agree_on_points(f: Seq<u64>, g: Seq<u64>, pts: Seq<u64>, p: u64)
    requires
        is_prime(p as nat),
        forall|k: int| 0 <= k < pts.len() ==> pts[k] < p,
        all_distinct(pts),
        f.len() <= pts.len(),
        g.len() <= pts.len(),
        forall|k: int| 0 <= k < pts.len() ==> poly_eval(f, #[trigger] pts[k] as int, p as int)
            == poly_eval(g, pts[k] as int, p as int),
    ensures
        forall|x: int| poly_eval(f, x, p as int) == poly_eval(g, x, p as int),
{
    let pi = p as int;
    let m = if f.len() >= g.len() {
        f.len() as int
    } else {
        g.len() as int
    };
    let fp = pad_zeros(f, m);
    let gp = pad_zeros(g, m);
    let d = Seq::new(m as nat, |k: int| ((fp[k] - gp[k]) % pi) as u64);
    assert forall|x: int| #[trigger] poly_eval(d, x, pi) == (poly_eval(f, x, pi) - poly_eval(
        g,
        x,
        pi,
    )) % pi by {
        lemma_eval_pad_zeros(f, m, x, pi);
        lemma_eval_pad_zeros(g, m, x, pi);
        assert forall|k: int| 0 <= k < d.len() implies #[trigger] d[k] as int == (fp[k] - 1
            * gp[k]) % pi by {
            lemma_mod_bound(fp[k] - gp[k], pi);
            assert(1 * gp[k] == gp[k]) by (nonlinear_arith);
        }
        lemma_eval_lin_comb(fp, gp, d, 1, x, pi);
        assert(1 * poly_eval(gp, x, pi) == poly_eval(gp, x, pi)) by (nonlinear_arith);
    }
    assert forall|k: int| 0 <= k < pts.len() implies poly_eval(d, #[trigger] pts[k] as int, pi)
        == 0 by {
        let y = pts[k] as int;
        lemma_eval_bound(f, y, pi);
        assert((poly_eval(f, y, pi) - poly_eval(g, y, pi)) % pi == 0) by {
            lemma_small_mod(0nat, p as nat);
        }
    }
    lemma_roots_zero(d, pts, p);
    assert forall|x: int| poly_eval(f, x, pi) == poly_eval(g, x, pi) by {
        lemma_eval_bound(f, x, pi);
        lemma_eval_bound(g, x, pi);
        assert(poly_eval(d, x, pi) == (poly_eval(f, x, pi) - poly_eval(g, x, pi)) % pi);
        assert(poly_eval(d, x, pi) == 0);
        lemma_mod_eq_small(poly_eval(f, x, pi), poly_eval(g, x, pi), pi);
    }
}

/// The master product vanishes at each of its roots.
pub proof fn lemma_root_prod_zero(roots: Seq<u64>, idx: int, p: int)
    requires
        p >= 1,
        0 <= idx < roots.len(),
    ensures
        root_prod(roots, roots[idx] as int, p) == 0,
    decreases roots.len(),
{
    let x = roots[idx] as int;
    if idx == roots.len() - 1 {
        assert(root_prod(roots, x, p) == (root_prod(roots.drop_last(), x, p) * (x
            - roots.last())) % p);
        assert(root_prod(roots.drop_last(), x, p) * 0 == 0) by (nonlinear_arith);
        lemma_small_mod(0nat, p as nat);
    } else {
        lemma_root_prod_zero(roots.drop_last(), idx, p);
        assert(roots.drop_last()[idx] == roots[idx]);
        assert(0int * (x - roots.last()) == 0) by (nonlinear_arith);
        lemma_small_mod(0nat, p as nat);
    }
}

/// The master product is reduced.
pub proof fn lemma_root_prod_bound(roots: Seq<u64>, x: int, p: int)
    requires
        p >= 1,
    ensures
        0 <= root_prod(roots, x, p) < p,
    decreases roots.len(),
{
    if roots.len() == 0 {
        lemma_mod_bound(1, p);
    } else {
        lemma_mod_bound(
            root_prod(roots.drop_last(), x, p) * (x - roots.last()),
            p,
        );
    }
}

/// Away from its roots the master product is nonzero, modulo a prime.
pub proof fn lemma_root_prod_nonzero(roots: Seq<u64>, x: int, p: u64)
    requires
        is_prime(p as nat),
        forall|k: int| 0 <= k < roots.len() ==> roots[k] < p,
        0 <= x < p,
        forall|k: int| 0 <= k < roots.len() ==> #[trigger] roots[k] as int != x,
    ensures
        root_prod(roots, x, p as int) != 0,
    decreases roots.len(),
{
    let pi = p as int;
    if roots.len() == 0 {
        lemma_small_mod(1nat, p as nat);
    } else {
        lemma_root_prod_nonzero(roots.drop_last(), x, p);
        let rp = root_prod(roots.drop_last(), x, pi);
        lemma_root_prod_bound(roots.drop_last(), x, pi);
        lemma_small_mod(rp as nat, p as nat);
        assert((x - roots.last()) % pi != 0) by {
            lemma_small_nonzero_mod(x - roots.last(), pi);
        }
        lemma_prime_product_nonzero(p as nat, rp, x - roots.last());
    }
}

/// No entry of `s` equals `y`.
pub open spec fn misses_value(s: Seq<u64>, y: int) -> bool {
    forall|k: int| 0 <= k < s.len() ==> #[trigger] s[k] as int != y
}

/// Coefficients of the product of `c` with the linear factor `(x - root)`,
/// each reduced modulo `p`.
pub open spec fn lin_mul_coeffs(c: Seq<u64>, root: u64, p: int) -> Seq<u64> {
    Seq::new(
        c.len() + 1,
        |k: int|
            (((if k > 0 {
                c[k - 1] as int
            } else {
                0int
            }) - (root as int) * (if k < c.len() {
                c[k] as int
            } else {
                0int
            })) % p) as u64,
    )
}

/// Coefficients of the monic product `(x - roots[0]) * ... * (x - roots[len-1])`.
pub open spec fn prod_coeffs(roots: Seq<u64>, p: int) -> Seq<u64>
    decreases roots.len(),
{
    if roots.len() == 0 {
        seq![1u64]
    } else {
        lin_mul_coeffs(prod_coeffs(roots.drop_last(), p), roots.last(), p)
    }
}

/// The product coefficients evaluate to the master root product.
pub proof fn lemma_eval_prod_coeffs(roots: Seq<u64>, x: int, p: int)
    requires
        2 <= p <= u64::MAX,
    ensures
        prod_coeffs(roots, p).len() == roots.len() + 1,
        poly_eval(prod_coeffs(roots, p), x, p) == root_prod(roots, x, p),
    decreases roots.len(),
{
    if roots.len() == 0 {
        let s = prod_coeffs(roots, p);
        assert(s =~= seq![1u64]);
        assert(s.subrange(1, 1) =~= Seq::<u64>::empty());
        assert(poly_eval(s.subrange(1, 1), x, p) == 0);
        assert(poly_eval(s, x, p) == (s[0] + x * poly_eval(s.subrange(1, 1), x, p)) % p);
        assert(poly_eval(s, x, p) == (1 + x * 0) % p);
        lemma_small_mod(1nat, p as nat);
    } else {
        let c = prod_coeffs(roots.drop_last(), p);
        let root = roots.last();
        let out = prod_coeffs(roots, p);
        lemma_eval_prod_coeffs(roots.drop_last(), x, p);
        // out is the pointwise combination of the shifted and the padded c
        let u = seq![0u64] + c;
        let v = c + seq![0u64];
        assert(out.len() == u.len());
        assert forall|k: int| 0 <= k < out.len() implies out[k] as int == (u[k] - (root as int)
            * v[k]) % p by {
            lemma_mod_bound(
                (if k > 0 {
                    c[k - 1] as int
                } else {
                    0int
                }) - (root as int) * (if k < c.len() {
                    c[k] as int
                } else {
                    0int
                }),
                p,
            );
        }
        crate::poly_facts::lemma_eval_lin_comb(u, v, out, root as int, x, p);
        // eval(u) == (x * eval(c)) % p and eval(v) == eval(c)
        assert(u.subrange(1, u.len() as int) =~= c);
        assert(u[0] == 0);
        assert(v.drop_last() =~= c);
        assert(v.last() == 0);
        lemma_eval_drop_last_zero(v, x, p);
        let ec = poly_eval(c, x, p);
        assert(((x * ec) % p - (root as int) * ec) % p == (x * ec - (root as int) * ec) % p) by {
            vstd::arithmetic::div_mod::lemma_mod_twice(x * ec, p);
            crate::poly_facts::lemma_cong_sub(
                (x * ec) % p,
                (root as int) * ec,
                x * ec,
                (root as int) * ec,
                p,
            );
        }
        assert(x * ec - (root as int) * ec == ec * (x - root)) by (nonlinear_arith);
        // fold into the root_prod recursion
        assert(root_prod(roots, x, p) == (root_prod(roots.drop_last(), x, p) * (x - root)) % p);
    }
}

/// Removing one root divides the product by its linear factor.
pub proof fn lemma_root_prod_remove(roots: Seq<u64>, i: int, y: int, p: int)
    requires
        p >= 1,
        0 <= i < roots.len(),
    ensures
        root_prod(roots, y, p) == (root_prod(roots.remove(i), y, p) * (y - roots[i])) % p,
    decreases roots.len(),
{
    if i == roots.len() - 1 {
        assert(roots.remove(i) =~= roots.drop_last());
    } else {
        let dl = roots.drop_last();
        lemma_root_prod_remove(dl, i, y, p);
        assert(roots.remove(i).drop_last() =~= dl.remove(i));
        assert(roots.remove(i).last() == roots.last());
        let a = root_prod(dl.remove(i), y, p);
        let fi = y - roots[i];
        let fl = y - roots.last();
        // rp(roots) == (rp(dl) * fl) % p and rp(dl) == (a * fi) % p
        assert(root_prod(roots, y, p) == ((a * fi) % p * fl) % p);
        assert(root_prod(roots.remove(i), y, p) == (a * fl) % p);
        assert(((a * fi) % p * fl) % p == (a * fi * fl) % p) by {
            vstd::arithmetic::div_mod::lemma_mul_mod_noop_left(a * fi, fl, p);
        }
        assert(((a * fl) % p * fi) % p == (a * fl * fi) % p) by {
            vstd::arithmetic::div_mod::lemma_mul_mod_noop_left(a * fl, fi, p);
        }
        assert(a * fi * fl == a * fl * fi) by (nonlinear_arith);
    }
}

/// `n` pairwise distinct values below `n + 1`, all different from `a`.
pub open spec fn points_avoiding(n: nat, a: u64) -> Seq<u64> {
    Seq::new(
        n,
        |k: int|
            if k < a {
                k as u64
            } else {
                (k + 1) as u64
            },
    )
}

pub proof fn lemma_points_avoiding(n: nat, a: u64)
    requires
        n + 1 <= u64::MAX,
    ensures
        points_avoiding(n, a).len() == n,
        forall|k: int| 0 <= k < n ==> (#[trigger] points_avoiding(n, a)[k]) <= n,
        forall|k: int| 0 <= k < n ==> (#[trigger] points_avoiding(n, a)[k]) != a,
        all_distinct(points_avoiding(n, a)),
{
    let s = points_avoiding(n, a);
    assert forall|k: int| 0 <= k < n implies (#[trigger] s[k]) <= n && s[k] != a by {}
    assert forall|i: int, j: int| 0 <= i < j < s.len() implies s[i] != s[j] by {
        assert(s[i] < s[j]);
    }
}

/// A Lagrange numerator taken at a duplicated point vanishes: when the
/// master product factors through `(x - points[i])` into `numer` and the
/// same point occurs at another index, `numer` still carries that factor.
pub proof fn lemma_duplicate_point_zero(numer: Seq<u64>, points: Seq<u64>, i: int, k: int, p: u64)
    requires
        is_prime(p as nat),
        0 <= i < points.len(),
        0 <= k < points.len(),
        k != i,
        points[k] == points[i],
        forall|w: int| 0 <= w < points.len() ==> points[w] < p,
        points.len() < p,
        numer.len() <= points.len(),
        forall|x: int| #[trigger] root_prod(points, x, p as int) == ((x - points[i]) * poly_eval(
            numer,
            x,
            p as int,
        )) % (p as int),
    ensures
        poly_eval(numer, points[i] as int, p as int) == 0,
{
    let pi = p as int;
    let pt = points[i];
    let n = points.len();
    let rest = points.remove(i);
    let prodpoly = prod_coeffs(rest, pi);
    let avoid = points_avoiding(n, pt);
    lemma_points_avoiding(n, pt);
    // numer agrees with the product over the remaining roots away from pt
    assert forall|w: int| 0 <= w < avoid.len() implies poly_eval(
        numer,
        #[trigger] avoid[w] as int,
        pi,
    ) == poly_eval(prodpoly, avoid[w] as int, pi) by {
        let y = avoid[w] as int;
        assert((y - pt) % pi != 0) by {
            lemma_small_nonzero_mod(y - pt, pi);
        }
        lemma_root_prod_remove(points, i, y, pi);
        lemma_eval_prod_coeffs(rest, y, pi);
        let e = poly_eval(numer, y, pi);
        let r = root_prod(rest, y, pi);
        // ((y - pt) * e) % p == (r * (y - pt)) % p, so (y - pt) * (e - r) vanishes
        assert(((y - pt) * e - r * (y - pt)) % pi == 0) by {
            vstd::arithmetic::div_mod::lemma_sub_mod_noop((y - pt) * e, r * (y - pt), pi);
            assert((((y - pt) * e) % pi - (r * (y - pt)) % pi) % pi == 0int % pi);
            lemma_small_mod(0nat, p as nat);
        }
        assert((y - pt) * e - r * (y - pt) == (y - pt) * (e - r)) by (nonlinear_arith);
        crate::primes::lemma_euclid(p as nat, y - pt, e - r);
        lemma_eval_bound(numer, y, pi);
        lemma_root_prod_bound(rest, y, pi);
        lemma_mod_eq_small(e, r, pi);
    }
    // hence they agree everywhere, in particular at the duplicated point
    lemma_eval_prod_coeffs(rest, 0, pi);
    assert(prodpoly.len() == n);
    crate::poly_theory::lemma_agree_on_points(numer, prodpoly, avoid, p);
    lemma_eval_prod_coeffs(rest, pt as int, pi);
    // the removed list still contains the duplicate, so the product is zero
    let kr = if k < i {
        k
    } else {
        k - 1
    };
    assert(rest[kr] == points[k]);
    lemma_root_prod_zero(rest, kr, pi);
    assert(poly_eval(numer, pt as int, pi) == poly_eval(prodpoly, pt as int, pi));
}

/// Pigeonhole: a sequence shorter than `bound` misses some value in
/// `[0, bound)`.
pub proof fn lemma_fresh_point(s: Seq<u64>, bound: int)
    requires
        s.len() < bound,
    ensures
        exists|y: int| 0 <= y < bound && #[trigger] misses_value(s, y),
{
    broadcast use vstd::seq_lib::seq_to_set_is_finite;
    broadcast use vstd::set::group_set_axioms;

    let t = s.map_values(|w: u64| w as int);
    if !(exists|y: int| 0 <= y < bound && #[trigger] misses_value(s, y)) {
        assert forall|y: int| 0 <= y < bound implies t.to_set().contains(y) by {
            assert(!misses_value(s, y));
            let k = choose|k: int| 0 <= k < s.len() && s[k] as int == y;
            assert(t[k] == y);
            assert(t.contains(y));
        }
        vstd::set_lib::lemma_int_range(0, bound);
        assert(vstd::set_lib::set_int_range(0, bound).subset_of(t.to_set()));
        t.lemma_cardinality_of_set();
        vstd::set_lib::lemma_len_subset(vstd::set_lib::set_int_range(0, bound), t.to_set());
        assert(false);
    }
}

} // verus!
