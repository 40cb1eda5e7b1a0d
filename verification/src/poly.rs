//! Polynomials over a prime field, little-endian by degree, with the
//! canonical-form invariant that the trailing coefficient is nonzero (the
//! zero polynomial is the empty vector).

use vstd::prelude::*;

use crate::field::{gcd, modulo_inv};
use crate::poly_facts::cong;

verus! {

/// Value of the polynomial with coefficients `c` at `x`, modulo `p`,
/// by Horner's recursion. Every intermediate is reduced, so for `p >= 1`
/// the result lies in `[0, p)`.
pub open spec fn poly_eval(c: Seq<u64>, x: int, p: int) -> int
    decreases c.len(),
{
    if c.len() == 0 {
        0
    } else {
        (c[0] + x * poly_eval(c.subrange(1, c.len() as int), x, p)) % p
    }
}

/// Canonical form: no trailing zero coefficient.
pub open spec fn is_canonical(c: Seq<u64>) -> bool {
    c.len() == 0 || c.last() != 0
}

/// All entries pairwise different.
pub open spec fn all_distinct(s: Seq<u64>) -> bool {
    forall|i: int, j: int| 0 <= i < j < s.len() ==> s[i] != s[j]
}

/// Value at `x` of the monic product `(x - roots[0]) * ... * (x - roots[len-1])`,
/// each factor reduced modulo `p`.
pub open spec fn root_prod(roots: Seq<u64>, x: int, p: int) -> int
    decreases roots.len(),
{
    if roots.len() == 0 {
        1int % p
    } else {
        (root_prod(roots.drop_last(), x, p) * (x - roots.last())) % p
    }
}

/// Errors of polynomial division and interpolation.
#[derive(Clone, Copy, PartialEq, Eq, Structural, Debug)]
pub enum PolyError {
    /// Division by the zero polynomial.
    ZeroDivisor,
    /// A leading coefficient or a Lagrange denominator had no inverse.
    NoInverse,
    /// Interpolation was given point and value arrays of different lengths.
    LengthMismatch,
}

#[derive(PartialEq, Eq, Debug)]
pub struct Polynomial {
    /// Coefficients in ascending order, i.e. [1, 2, 3] -> 1 + 2x + 3x^2
    coefficients: Vec<u64>,
}

impl Clone for Polynomial {
    /// An exact copy: the clone has the same coefficients.
    fn clone(&self) -> (res: Self)
        ensures
            res@ == self@,
    {
        let mut coefficients: Vec<u64> = Vec::new();
        let mut i: usize = 0;
        while i < self.coefficients.len()
            invariant
                i <= self.coefficients@.len(),
                coefficients@ == self.coefficients@.take(i as int),
            decreases self.coefficients@.len() - i,
        {
            coefficients.push(self.coefficients[i]);
            proof {
                assert(coefficients@ =~= self.coefficients@.take(i + 1));
            }
            i = i + 1;
        }
        proof {
            assert(coefficients@ =~= self.coefficients@);
        }
        Polynomial { coefficients }
    }
}

impl View for Polynomial {
    type V = Seq<u64>;

    closed spec fn view(&self) -> Seq<u64> {
        self.coefficients@
    }
}

impl Polynomial {
    /// Well-formed: stored in canonical form.
    pub open spec fn wf(&self) -> bool {
        is_canonical(self@)
    }

    /// Builds a polynomial, trimming trailing zero coefficients so the
    /// result is canonical. Evaluation at any point is unchanged.
    pub fn new(coefficients: Vec<u64>) -> (res: Polynomial)
        ensures
            res.wf(),
            res@ == coefficients@.take(res@.len() as int),
            res@.len() <= coefficients@.len(),
            forall|i: int|
                res@.len() <= i < coefficients@.len() ==> coefficients@[i] == 0,
            forall|x: int, p: int|
                p >= 1 ==> poly_eval(res@, x, p) == #[trigger] poly_eval(coefficients@, x, p),
    {
        let ghost orig = coefficients@;
        let mut coefficients = coefficients;
        while coefficients.len() > 0 && coefficients[coefficients.len() - 1] == 0
            invariant
                coefficients@ == orig.take(coefficients@.len() as int),
                coefficients@.len() <= orig.len(),
                forall|i: int| coefficients@.len() <= i < orig.len() ==> orig[i] == 0,
                forall|x: int, p: int|
                    p >= 1 ==> poly_eval(coefficients@, x, p) == #[trigger] poly_eval(
                        orig,
                        x,
                        p,
                    ),
            decreases coefficients@.len(),
        {
            let ghost before = coefficients@;
            coefficients.pop();
            proof {
                assert(coefficients@ =~= before.drop_last());
                assert(coefficients@ =~= orig.take(coefficients@.len() as int));
                assert forall|x: int, p: int| p >= 1 implies poly_eval(coefficients@, x, p)
                    == #[trigger] poly_eval(orig, x, p) by {
                    crate::poly_facts::lemma_eval_drop_last_zero(before, x, p);
                }
            }
        }
        Polynomial { coefficients }
    }

    /// Horner evaluation of the polynomial at `point` modulo `modulo`,
    /// with 128-bit intermediates.
    pub fn evaluate(&self, point: u64, modulo: u64) -> (r: u64)
        requires
            modulo >= 1,
        ensures
            r as int == poly_eval(self@, point as int, modulo as int),
            r < modulo,
    {
        let ghost c = self@;
        let ghost x = point as int;
        let ghost p = modulo as int;
        let n = self.coefficients.len();
        let mut acc: u64 = 0;
        let mut i: usize = n;
        proof {
            assert(c.subrange(n as int, n as int) =~= Seq::<u64>::empty());
        }
        while i > 0
            invariant
                i <= n,
                n == c.len(),
                c == self@,
                x == point as int,
                p == modulo as int,
                modulo >= 1,
                acc as int == poly_eval(c.subrange(i as int, n as int), x, p),
                acc < modulo || acc == 0,
            decreases i,
        {
            i = i - 1;
            proof {
                assert((point as u128 as int) * (acc as u128 as int) <= (u64::MAX as int) * (
                u64::MAX as int)) by (nonlinear_arith)
                    requires
                        point as u128 as int <= u64::MAX as int,
                        acc as u128 as int <= u64::MAX as int,
                ;
            }
            let next: u64 = (((self.coefficients[i] as u128) + (point as u128) * (acc as u128))
                % (modulo as u128)) as u64;
            proof {
                let tail = c.subrange(i + 1, n as int);
                let cur = c.subrange(i as int, n as int);
                assert(cur.subrange(1, cur.len() as int) =~= tail);
                assert(cur[0] == c[i as int]);
                assert(next as int == (c[i as int] + x * poly_eval(tail, x, p)) % p);
            }
            acc = next;
        }
        proof {
            assert(c.subrange(0, n as int) =~= c);
        }
        acc
    }

    /// Multiplies by the linear factor `(x - root)` over the field,
    /// returning the raw coefficient vector of the product.
    fn mul_by_linear(c: &Vec<u64>, root: u64, n: u64) -> (out: Vec<u64>)
        requires
            n >= 1,
            c@.len() < usize::MAX,
        ensures
            out@.len() == c@.len() + 1,
            forall|x: int|
                poly_eval(out@, x, n as int) == (poly_eval(c@, x, n as int) * (x - root)) % (
                n as int),
            c@.len() >= 1 && c@.last() == 1 && n >= 2 ==> out@.last() == 1,
    {
        let len = c.len();
        let ghost u = seq![0u64] + c@;
        let ghost v = c@ + seq![0u64];
        let mut out: Vec<u64> = Vec::new();
        let mut k: usize = 0;
        while k < len + 1
            invariant
                n >= 1,
                k <= len + 1,
                len == c@.len(),
                len < usize::MAX,
                u == seq![0u64] + c@,
                v == c@ + seq![0u64],
                out@.len() == k,
                forall|j: int|
                    0 <= j < k ==> out@[j] as int == (u[j] - (root as int) * v[j]) % (n as int),
            decreases len + 1 - k,
        {
            let uk: u64 = if k == 0 {
                0
            } else {
                c[k - 1]
            };
            let vk: u64 = if k < len {
                c[k]
            } else {
                0
            };
            let prod = crate::field::mod_mul(root, vk, n);
            let ok = crate::field::mod_sub(uk, prod, n);
            proof {
                vstd::arithmetic::div_mod::lemma_sub_mod_noop_right(
                    uk as int,
                    (root as int) * (vk as int),
                    n as int,
                );
                assert(u[k as int] == uk);
                assert(v[k as int] == vk);
            }
            out.push(ok);
            k = k + 1;
        }
        proof {
            assert forall|x: int| poly_eval(out@, x, n as int) == (poly_eval(c@, x, n as int) * (
            x - root)) % (n as int) by {
                let p = n as int;
                crate::poly_facts::lemma_eval_lin_comb(u, v, out@, root as int, x, p);
                // poly_eval(u) == (0 + x * poly_eval(c)) % p
                assert(u.subrange(1, u.len() as int) =~= c@);
                assert(u[0] == 0);
                // poly_eval(v) == poly_eval(c)
                assert(v.drop_last() =~= c@);
                assert(v.last() == 0);
                if c@.len() + 1 > 0 {
                    crate::poly_facts::lemma_eval_drop_last_zero(v, x, p);
                }
                let ec = poly_eval(c@, x, p);
                // out == ((x * ec) % p - root * ec) % p == (ec * (x - root)) % p
                assert(((x * ec) % p - (root as int) * ec) % p == (x * ec - (root as int) * ec)
                    % p) by {
                    vstd::arithmetic::div_mod::lemma_mod_twice(x * ec, p);
                    crate::poly_facts::lemma_cong_sub(
                        (x * ec) % p,
                        (root as int) * ec,
                        x * ec,
                        (root as int) * ec,
                        p,
                    );
                }
                assert(x * ec - (root as int) * ec == ec * (x - root)) by (nonlinear_arith);
            }
            if c@.len() >= 1 && c@.last() == 1 && n >= 2 {
                assert(out@.last() as int == (u[c@.len() as int] - (root as int) * v[c@.len()
                    as int]) % (n as int));
                assert(u[c@.len() as int] == c@.last());
                assert(v[c@.len() as int] == 0);
                assert((1int - (root as int) * 0) % (n as int) == 1) by {
                    vstd::arithmetic::div_mod::lemma_small_mod(1nat, n as nat);
                }
            }
        }
        out
    }

    /// Subtracts `qc * b_low(x) * x^s` from the remainder in place, where
    /// `b_low` is the divisor `b` without its leading coefficient.
    fn subtract_scaled(rem: &mut Vec<u64>, b: &Vec<u64>, qc: u64, s: usize, n: u64)
        requires
            n >= 1,
            b@.len() >= 1,
            old(rem)@.len() == s + b@.len() - 1,
        ensures
            final(rem)@.len() == old(rem)@.len(),
            forall|k: int| 0 <= k < s ==> final(rem)@[k] == old(rem)@[k],
            forall|x: int|
                poly_eval(final(rem)@, x, n as int) == (poly_eval(old(rem)@, x, n as int) - (qc as int)
                    * poly_eval(b@.drop_last(), x, n as int) * vstd::arithmetic::power::pow(
                    x,
                    s as nat,
                )) % (n as int),
    {
        let od = b.len() - 1;
        let total = rem.len();
        let ghost rem0 = rem@;
        let ghost p = n as int;
        let ghost blow = b@.drop_last();
        proof {
            assert(blow.take(0) =~= Seq::<u64>::empty());
            assert forall|x: int| poly_eval(rem@, x, p) == (poly_eval(rem0, x, p) - (qc as int)
                * poly_eval(blow.take(0), x, p) * vstd::arithmetic::power::pow(x, s as nat)) % p
                by {
                crate::poly_facts::lemma_eval_bound(rem0, x, p);
                vstd::arithmetic::div_mod::lemma_small_mod(poly_eval(rem0, x, p) as nat, n as nat);
                assert((qc as int) * 0 * vstd::arithmetic::power::pow(x, s as nat) == 0)
                    by (nonlinear_arith);
            }
        }
        let mut j: usize = 0;
        while j < od
            invariant
                n >= 1,
                p == n as int,
                j <= od,
                od == b@.len() - 1,
                blow == b@.drop_last(),
                rem@.len() == rem0.len(),
                rem0.len() == s + od,
                total == rem0.len(),
                forall|k: int| 0 <= k < s ==> rem@[k] == rem0[k],
                forall|k: int| s + j <= k < rem@.len() ==> rem@[k] == rem0[k],
                forall|x: int|
                    poly_eval(rem@, x, p) == (poly_eval(rem0, x, p) - (qc as int) * poly_eval(
                        blow.take(j as int),
                        x,
                        p,
                    ) * vstd::arithmetic::power::pow(x, s as nat)) % p,
            decreases od - j,
        {
            let bj = b[j];
            let prod = crate::field::mod_mul(bj, qc, n);
            let idx = s + j;
            let cur = rem[idx];
            let newv = crate::field::mod_sub(cur, prod, n);
            let ghost prev = rem@;
            rem.set(idx, newv);
            proof {
                let pw = |e: nat| vstd::arithmetic::power::pow(0, e);
                assert forall|x: int| poly_eval(rem@, x, p) == (poly_eval(rem0, x, p) - (
                qc as int) * poly_eval(blow.take(j + 1), x, p)
                    * vstd::arithmetic::power::pow(x, s as nat)) % p by {
                    let pow_s = vstd::arithmetic::power::pow(x, s as nat);
                    let pow_j = vstd::arithmetic::power::pow(x, j as nat);
                    let pow_sj = vstd::arithmetic::power::pow(x, (s + j) as nat);
                    let e_j = poly_eval(blow.take(j as int), x, p);
                    let e_j1 = poly_eval(blow.take(j + 1), x, p);
                    let bjqc = (bj as int) * (qc as int);
                    crate::poly_facts::lemma_eval_update(prev, idx as int, newv, x, p);
                    // newv == (cur - bj * qc) % p
                    assert(newv as int == (cur - bjqc) % p) by {
                        vstd::arithmetic::div_mod::lemma_sub_mod_noop_right(cur as int, bjqc, p);
                    }
                    // delta == newv - cur is congruent to -(bj * qc)
                    assert(cong((newv - cur) * pow_sj, (0 - bjqc) * pow_sj, p)) by {
                        assert(cong(newv - cur, 0 - bjqc, p)) by {
                            vstd::arithmetic::div_mod::lemma_mod_twice(cur - bjqc, p);
                            crate::poly_facts::lemma_cong_sub(
                                newv as int,
                                cur as int,
                                cur - bjqc,
                                cur as int,
                                p,
                            );
                        }
                        crate::poly_facts::lemma_cong_mul(
                            newv - cur,
                            pow_sj,
                            0 - bjqc,
                            pow_sj,
                            p,
                        );
                    }
                    // eval(rem@) == eval(prev) + (newv - cur) * x^(s+j)   (mod p)
                    // eval(prev) == eval(rem0) - qc * e_j * x^s          (mod p)
                    assert(cong(
                        poly_eval(prev, x, p) + (newv - cur) * pow_sj,
                        (poly_eval(rem0, x, p) - (qc as int) * e_j * pow_s) + (0 - bjqc) * pow_sj,
                        p,
                    )) by {
                        vstd::arithmetic::div_mod::lemma_mod_twice(
                            poly_eval(rem0, x, p) - (qc as int) * e_j * pow_s,
                            p,
                        );
                        crate::poly_facts::lemma_cong_add(
                            poly_eval(prev, x, p),
                            (newv - cur) * pow_sj,
                            poly_eval(rem0, x, p) - (qc as int) * e_j * pow_s,
                            (0 - bjqc) * pow_sj,
                            p,
                        );
                    }
                    // x^(s+j) == x^s * x^j
                    assert(pow_sj == pow_s * pow_j) by {
                        vstd::arithmetic::power::lemma_pow_adds(x, s as nat, j as nat);
                    }
                    // e_j1 is congruent to e_j + b[j] * x^j
                    assert(blow.take(j + 1) =~= blow.take(j as int).push(bj));
                    crate::poly_facts::lemma_eval_push(blow.take(j as int), bj, x, p);
                    assert(e_j1 == (e_j + bj * pow_j) % p);
                    // combine: rem0 - qc*e_j*x^s - bj*qc*x^(s+j) == rem0 - qc*(e_j + bj x^j)*x^s
                    assert((poly_eval(rem0, x, p) - (qc as int) * e_j * pow_s) + (0 - bjqc)
                        * pow_sj == poly_eval(rem0, x, p) - (qc as int) * (e_j + bj * pow_j)
                        * pow_s) by (nonlinear_arith)
                        requires
                            pow_sj == pow_s * pow_j,
                            bjqc == (bj as int) * (qc as int),
                    ;
                    assert(cong(
                        poly_eval(rem0, x, p) - (qc as int) * (e_j + bj * pow_j) * pow_s,
                        poly_eval(rem0, x, p) - (qc as int) * e_j1 * pow_s,
                        p,
                    )) by {
                        vstd::arithmetic::div_mod::lemma_mod_twice(e_j + bj * pow_j, p);
                        assert(cong((qc as int) * (e_j + bj * pow_j) * pow_s, (qc as int) * e_j1
                            * pow_s, p)) by {
                            assert((qc as int) * (e_j + bj * pow_j) * pow_s == (e_j + bj * pow_j)
                                * ((qc as int) * pow_s)) by (nonlinear_arith);
                            assert((qc as int) * e_j1 * pow_s == e_j1 * ((qc as int) * pow_s))
                                by (nonlinear_arith);
                            crate::poly_facts::lemma_cong_mul(
                                e_j + bj * pow_j,
                                (qc as int) * pow_s,
                                e_j1,
                                (qc as int) * pow_s,
                                p,
                            );
                        }
                        crate::poly_facts::lemma_cong_sub(
                            poly_eval(rem0, x, p),
                            (qc as int) * (e_j + bj * pow_j) * pow_s,
                            poly_eval(rem0, x, p),
                            (qc as int) * e_j1 * pow_s,
                            p,
                        );
                    }
                }
            }
            j = j + 1;
        }
        proof {
            assert(blow.take(od as int) =~= blow);
        }
    }

    /// One division step with a nonzero quotient coefficient `qc` placed at
    /// position `s`: the division invariant is preserved.
    proof fn lemma_div_step(
        a: Seq<u64>,
        b: Seq<u64>,
        rem_before: Seq<u64>,
        rem_after: Seq<u64>,
        quo_old: Seq<u64>,
        quo_new: Seq<u64>,
        lead: u64,
        inv: u64,
        qc: u64,
        s: int,
        x: int,
        p: int,
    )
        requires
            p >= 1,
            b.len() >= 1,
            rem_before.len() == s + b.len(),
            s >= 0,
            lead == rem_before.last(),
            (b.last() as int * inv as int) % p == 1,
            qc as int == (lead as int * inv as int) % p,
            0 <= s < quo_old.len(),
            quo_old[s] == 0,
            quo_new == quo_old.update(s, qc),
            (poly_eval(b, x, p) * poly_eval(quo_old, x, p) + poly_eval(rem_before, x, p)) % p
                == poly_eval(a, x, p),
            poly_eval(rem_after, x, p) == (poly_eval(rem_before.drop_last(), x, p) - (qc as int)
                * poly_eval(b.drop_last(), x, p) * vstd::arithmetic::power::pow(x, s as nat)) % p,
        ensures
            (poly_eval(b, x, p) * poly_eval(quo_new, x, p) + poly_eval(rem_after, x, p)) % p
                == poly_eval(a, x, p),
    {
        let e_b = poly_eval(b, x, p);
        let e_qo = poly_eval(quo_old, x, p);
        let e_qn = poly_eval(quo_new, x, p);
        let e_rb = poly_eval(rem_before, x, p);
        let e_ra = poly_eval(rem_after, x, p);
        let e_low = poly_eval(b.drop_last(), x, p);
        let od = (b.len() - 1) as nat;
        let pw_s = vstd::arithmetic::power::pow(x, s as nat);
        let pw_od = vstd::arithmetic::power::pow(x, od);
        let pw_last = vstd::arithmetic::power::pow(x, (s + od) as nat);
        assert(pw_last == pw_s * pw_od) by {
            vstd::arithmetic::power::lemma_pow_adds(x, s as nat, od);
        }
        // 1. e_qn == (e_qo + qc * x^s) % p
        crate::poly_facts::lemma_eval_update(quo_old, s, qc, x, p);
        assert(e_qn == (e_qo + (qc as int) * pw_s) % p);
        // 2. eval of the popped remainder
        crate::poly_facts::lemma_eval_drop_last(rem_before, x, p);
        let e_rp = poly_eval(rem_before.drop_last(), x, p);
        assert(e_rp == (e_rb - (lead as int) * pw_last) % p);
        // 3. e_b == (e_low + b.last() * x^od) % p
        assert(b =~= b.drop_last().push(b.last()));
        crate::poly_facts::lemma_eval_push(b.drop_last(), b.last(), x, p);
        assert(poly_eval(b.drop_last().push(b.last()), x, p) == (e_low + (b.last() as int)
            * pw_od) % p);
        assert(e_b == (e_low + (b.last() as int) * pw_od) % p);
        // 4. qc * b.last() is congruent to lead
        assert(cong((qc as int) * (b.last() as int), lead as int, p)) by {
            let bl = b.last() as int;
            let ld = lead as int;
            let iv = inv as int;
            vstd::arithmetic::div_mod::lemma_mul_mod_noop_left(ld * iv, bl, p);
            assert((ld * iv) * bl == ld * (iv * bl)) by (nonlinear_arith);
            vstd::arithmetic::div_mod::lemma_mul_mod_noop_right(ld, iv * bl, p);
            assert(iv * bl == bl * iv) by (nonlinear_arith);
            assert((ld * (iv * bl)) % p == (ld * 1) % p) by {
                vstd::arithmetic::div_mod::lemma_mul_mod_noop_right(ld, iv * bl, p);
                vstd::arithmetic::div_mod::lemma_mul_mod_noop_right(ld, 1, p);
            }
        }
        // 5/6/7: e_ra is congruent to e_rb - qc * e_b * x^s
        assert(cong(e_ra, e_rb - (qc as int) * e_b * pw_s, p)) by {
            // e_ra == (e_rp - qc * e_low * x^s) % p, e_rp == (e_rb - lead * x^(s+od)) % p
            assert(cong(e_ra, e_rb - (lead as int) * pw_last - (qc as int) * e_low * pw_s, p))
                by {
                vstd::arithmetic::div_mod::lemma_mod_twice(e_rb - (lead as int) * pw_last, p);
                vstd::arithmetic::div_mod::lemma_mod_twice(
                    e_rp - (qc as int) * e_low * pw_s,
                    p,
                );
                crate::poly_facts::lemma_cong_sub(
                    e_rp,
                    (qc as int) * e_low * pw_s,
                    e_rb - (lead as int) * pw_last,
                    (qc as int) * e_low * pw_s,
                    p,
                );
            }
            // qc * e_b * x^s is congruent to qc * e_low * x^s + lead * x^(s+od)
            assert(cong((qc as int) * e_b * pw_s, (qc as int) * e_low * pw_s + (lead as int)
                * pw_last, p)) by {
                let t = e_low + (b.last() as int) * pw_od;
                assert(cong((qc as int) * e_b * pw_s, (qc as int) * t * pw_s, p)) by {
                    vstd::arithmetic::div_mod::lemma_mod_twice(t, p);
                    assert((qc as int) * e_b * pw_s == e_b * ((qc as int) * pw_s))
                        by (nonlinear_arith);
                    assert((qc as int) * t * pw_s == t * ((qc as int) * pw_s))
                        by (nonlinear_arith);
                    crate::poly_facts::lemma_cong_mul(
                        e_b,
                        (qc as int) * pw_s,
                        t,
                        (qc as int) * pw_s,
                        p,
                    );
                }
                assert((qc as int) * t * pw_s == (qc as int) * e_low * pw_s + ((qc as int) * (
                b.last() as int)) * pw_last) by (nonlinear_arith)
                    requires
                        pw_last == pw_s * pw_od,
                        t == e_low + (b.last() as int) * pw_od,
                ;
                assert(cong(((qc as int) * (b.last() as int)) * pw_last, (lead as int) * pw_last,
                    p)) by {
                    crate::poly_facts::lemma_cong_mul(
                        (qc as int) * (b.last() as int),
                        pw_last,
                        lead as int,
                        pw_last,
                        p,
                    );
                }
                crate::poly_facts::lemma_cong_add(
                    (qc as int) * e_low * pw_s,
                    ((qc as int) * (b.last() as int)) * pw_last,
                    (qc as int) * e_low * pw_s,
                    (lead as int) * pw_last,
                    p,
                );
            }
            crate::poly_facts::lemma_cong_sub(
                e_rb,
                (qc as int) * e_b * pw_s,
                e_rb,
                (qc as int) * e_low * pw_s + (lead as int) * pw_last,
                p,
            );
            assert(e_rb - ((qc as int) * e_low * pw_s + (lead as int) * pw_last) == e_rb - (
            lead as int) * pw_last - (qc as int) * e_low * pw_s);
        }
        // 8. e_b * e_qn is congruent to e_b * e_qo + qc * e_b * x^s
        assert(cong(e_b * e_qn, e_b * e_qo + (qc as int) * e_b * pw_s, p)) by {
            vstd::arithmetic::div_mod::lemma_mod_twice(e_qo + (qc as int) * pw_s, p);
            crate::poly_facts::lemma_cong_mul(e_b, e_qn, e_b, e_qo + (qc as int) * pw_s, p);
            assert(e_b * (e_qo + (qc as int) * pw_s) == e_b * e_qo + (qc as int) * e_b * pw_s)
                by (nonlinear_arith);
        }
        // 9. combine
        assert(cong(e_b * e_qn + e_ra, e_b * e_qo + e_rb, p)) by {
            crate::poly_facts::lemma_cong_add(
                e_b * e_qn,
                e_ra,
                e_b * e_qo + (qc as int) * e_b * pw_s,
                e_rb - (qc as int) * e_b * pw_s,
                p,
            );
        }
    }

    /// One division step with a zero quotient coefficient: dropping the
    /// leading remainder coefficient preserves the division invariant.
    proof fn lemma_div_step_zero(
        a: Seq<u64>,
        b: Seq<u64>,
        rem_before: Seq<u64>,
        rem_after: Seq<u64>,
        quo: Seq<u64>,
        lead: u64,
        inv: u64,
        x: int,
        p: int,
    )
        requires
            p >= 1,
            b.len() >= 1,
            rem_before.len() >= 1,
            lead == rem_before.last(),
            (b.last() as int * inv as int) % p == 1,
            (lead as int * inv as int) % p == 0,
            rem_after == rem_before.drop_last(),
            (poly_eval(b, x, p) * poly_eval(quo, x, p) + poly_eval(rem_before, x, p)) % p
                == poly_eval(a, x, p),
        ensures
            (poly_eval(b, x, p) * poly_eval(quo, x, p) + poly_eval(rem_after, x, p)) % p
                == poly_eval(a, x, p),
    {
        let e_b = poly_eval(b, x, p);
        let e_q = poly_eval(quo, x, p);
        let e_rb = poly_eval(rem_before, x, p);
        let e_ra = poly_eval(rem_after, x, p);
        let pw_last = vstd::arithmetic::power::pow(x, (rem_before.len() - 1) as nat);
        // lead is congruent to 0 modulo p
        assert((lead as int) % p == 0) by {
            let bl = b.last() as int;
            let ld = lead as int;
            let iv = inv as int;
            vstd::arithmetic::div_mod::lemma_mul_mod_noop_left(ld * iv, bl, p);
            assert((ld * iv) * bl == ld * (iv * bl)) by (nonlinear_arith);
            assert(iv * bl == bl * iv) by (nonlinear_arith);
            vstd::arithmetic::div_mod::lemma_mul_mod_noop_right(ld, iv * bl, p);
            vstd::arithmetic::div_mod::lemma_mul_mod_noop_right(ld, 1, p);
            assert(((ld * iv) % p) * bl % p == 0 * bl % p) by {
                assert(0 * bl == 0) by (nonlinear_arith);
                vstd::arithmetic::div_mod::lemma_small_mod(0nat, p as nat);
            }
            assert((ld * 1) % p == 0);
        }
        // e_ra == (e_rb - lead * x^(len-1)) % p, and lead * x^(len-1) is congruent to 0
        crate::poly_facts::lemma_eval_drop_last(rem_before, x, p);
        assert(e_ra == (e_rb - (lead as int) * pw_last) % p);
        assert(cong(e_ra, e_rb, p)) by {
            assert(((lead as int) * pw_last) % p == 0) by {
                vstd::arithmetic::div_mod::lemma_mul_mod_noop_left(lead as int, pw_last, p);
                assert(0 * pw_last == 0) by (nonlinear_arith);
                vstd::arithmetic::div_mod::lemma_small_mod(0nat, p as nat);
            }
            vstd::arithmetic::div_mod::lemma_sub_mod_noop_right(
                e_rb,
                (lead as int) * pw_last,
                p,
            );
            vstd::arithmetic::div_mod::lemma_mod_twice(e_rb - (lead as int) * pw_last, p);
            assert((e_rb - 0) % p == e_rb % p);
        }
        assert(cong(e_b * e_q + e_ra, e_b * e_q + e_rb, p)) by {
            crate::poly_facts::lemma_cong_add(e_b * e_q, e_ra, e_b * e_q, e_rb, p);
        }
    }

    /// Schoolbook long division over the field: computes `(quotient,
    /// remainder)` with `self = other * quotient + remainder` as functions
    /// on the field and `remainder` of degree lower than `other`.
    ///
    /// Fails on the zero divisor, and when the leading coefficient of
    /// `other` has no inverse modulo `n`.
    pub fn div(&self, other: &Self, n: u64) -> (res: Result<(Polynomial, Polynomial), PolyError>)
        requires
            n >= 2,
            self.wf(),
            other.wf(),
        ensures
            res is Ok <==> (other@.len() > 0 && (other@.len() > self@.len() || (
            other@.last() != 0 && gcd(n as nat, other@.last() as nat) == 1))),
            other@.len() == 0 ==> res == Result::<(Polynomial, Polynomial), PolyError>::Err(
                PolyError::ZeroDivisor,
            ),
            res matches Ok(qr) ==> qr.0.wf() && qr.1.wf(),
            res matches Ok(qr) ==> qr.1@.len() < other@.len(),
            res matches Ok(qr) ==> qr.0@.len() <= (if self@.len() + 1 > other@.len() {
                self@.len() + 1 - other@.len()
            } else {
                0
            }),
            res matches Ok(qr) ==> forall|x: int|
                poly_eval(self@, x, n as int) == (poly_eval(other@, x, n as int) * poly_eval(
                    qr.0@,
                    x,
                    n as int,
                ) + poly_eval(qr.1@, x, n as int)) % (n as int),
    {
        let ghost p = n as int;
        if other.coefficients.is_empty() {
            return Err(PolyError::ZeroDivisor);
        }
        if other.coefficients.len() > self.coefficients.len() {
            let q = Polynomial { coefficients: Vec::new() };
            let r = self.clone();
            proof {
                assert forall|x: int| poly_eval(self@, x, p) == (poly_eval(other@, x, p)
                    * poly_eval(q@, x, p) + poly_eval(r@, x, p)) % p by {
                    assert(poly_eval(q@, x, p) == 0);
                    assert(poly_eval(other@, x, p) * 0 == 0) by (nonlinear_arith);
                    crate::poly_facts::lemma_eval_bound(self@, x, p);
                    vstd::arithmetic::div_mod::lemma_small_mod(
                        poly_eval(self@, x, p) as nat,
                        n as nat,
                    );
                }
            }
            return Ok((q, r));
        }

        let self_degree = self.coefficients.len() - 1;
        let other_degree = other.coefficients.len() - 1;
        let quotient_degree = self_degree - other_degree;

        let b_last = other.coefficients[other_degree];
        let inv = match modulo_inv(b_last, n) {
            Ok(v) => v,
            Err(_) => {
                return Err(PolyError::NoInverse);
            },
        };

        let mut rem = self.clone().coefficients;
        let mut quo: Vec<u64> = Vec::new();
        let mut z: usize = 0;
        while z < quotient_degree + 1
            invariant
                quotient_degree <= usize::MAX - 1,
                quo@.len() == z,
                z <= quotient_degree + 1,
                forall|k: int| 0 <= k < z ==> quo@[k] == 0,
            decreases quotient_degree + 1 - z,
        {
            quo.push(0);
            z = z + 1;
        }

        proof {
            assert forall|x: int| (poly_eval(other@, x, p) * poly_eval(quo@, x, p) + poly_eval(
                rem@,
                x,
                p,
            )) % p == poly_eval(self@, x, p) by {
                crate::poly_facts::lemma_eval_all_zero(quo@, x, p);
                assert(poly_eval(other@, x, p) * 0 == 0) by (nonlinear_arith);
                crate::poly_facts::lemma_eval_bound(self@, x, p);
                vstd::arithmetic::div_mod::lemma_small_mod(
                    poly_eval(self@, x, p) as nat,
                    n as nat,
                );
            }
        }

        let mut i: usize = 0;
        while i < quotient_degree + 1
            invariant
                n >= 2,
                p == n as int,
                quotient_degree <= usize::MAX - 1,
                i <= quotient_degree + 1,
                self_degree == self@.len() - 1,
                other_degree == other@.len() - 1,
                other@.len() >= 1,
                self@.len() >= other@.len(),
                quotient_degree == self_degree - other_degree,
                b_last == other@.last(),
                (b_last as int * inv as int) % p == 1,
                rem@.len() == self@.len() - i,
                quo@.len() == quotient_degree + 1,
                forall|k: int| 0 <= k < quotient_degree + 1 - i ==> quo@[k] == 0,
                forall|x: int|
                    (poly_eval(other@, x, p) * poly_eval(quo@, x, p) + poly_eval(rem@, x, p)) % p
                        == poly_eval(self@, x, p),
            decreases quotient_degree + 1 - i,
        {
            let s = quotient_degree - i;
            let lead = rem[rem.len() - 1];
            let qc = crate::field::mod_mul(lead, inv, n);
            let ghost rem_before = rem@;
            let ghost quo_before = quo@;
            rem.pop();
            let ghost rem_popped = rem@;
            proof {
                assert(rem_popped =~= rem_before.drop_last());
            }
            if qc != 0 {
                let ghost quo_old = quo@;
                quo.set(s, qc);
                Self::subtract_scaled(&mut rem, &other.coefficients, qc, s, n);
                proof {
                    assert forall|x: int| (poly_eval(other@, x, p) * poly_eval(quo@, x, p)
                        + poly_eval(rem@, x, p)) % p == poly_eval(self@, x, p) by {
                        Self::lemma_div_step(
                            self@,
                            other@,
                            rem_before,
                            rem@,
                            quo_old,
                            quo@,
                            lead,
                            inv,
                            qc,
                            s as int,
                            x,
                            p,
                        );
                    }
                }
            } else {
                proof {
                    assert forall|x: int| (poly_eval(other@, x, p) * poly_eval(quo@, x, p)
                        + poly_eval(rem@, x, p)) % p == poly_eval(self@, x, p) by {
                        Self::lemma_div_step_zero(
                            self@,
                            other@,
                            rem_before,
                            rem@,
                            quo@,
                            lead,
                            inv,
                            x,
                            p,
                        );
                    }
                }
            }
            i = i + 1;
        }

        let ghost quo_final = quo@;
        let ghost rem_final = rem@;
        let quotient = Polynomial::new(quo);
        let remainder = Polynomial::new(rem);
        proof {
            assert forall|x: int| poly_eval(self@, x, p) == (poly_eval(other@, x, p) * poly_eval(
                quotient@,
                x,
                p,
            ) + poly_eval(remainder@, x, p)) % p by {
                assert(poly_eval(quotient@, x, p) == poly_eval(quo_final, x, p));
                assert(poly_eval(remainder@, x, p) == poly_eval(rem_final, x, p));
            }
        }
        Ok((quotient, remainder))
    }

    /// Builds the monic polynomial whose roots are exactly the given points:
    /// the master numerator of Lagrange interpolation.
    pub fn interpolate_from_roots(roots: &[u64], n: u64) -> (res: Polynomial)
        requires
            n >= 2,
            roots@.len() < usize::MAX,
        ensures
            res.wf(),
            roots@.len() == 0 ==> res@.len() == 0,
            roots@.len() > 0 ==> res@.len() == roots@.len() + 1 && res@.last() == 1,
            roots@.len() > 0 ==> forall|x: int|
                poly_eval(res@, x, n as int) == #[trigger] root_prod(roots@, x, n as int),
    {
        if roots.is_empty() {
            return Polynomial { coefficients: Vec::new() };
        }

        let mut coefficients: Vec<u64> = Vec::new();
        coefficients.push(1);
        proof {
            assert(coefficients@ =~= seq![1u64]);
            assert forall|x: int| poly_eval(coefficients@, x, n as int) == #[trigger] root_prod(
                roots@.take(0),
                x,
                n as int,
            ) by {
                assert(roots@.take(0) =~= Seq::<u64>::empty());
                assert(coefficients@.subrange(1, 1) =~= Seq::<u64>::empty());
                assert(poly_eval(Seq::<u64>::empty(), x, n as int) == 0);
                assert(poly_eval(coefficients@, x, n as int) == (coefficients@[0] + x
                    * poly_eval(coefficients@.subrange(1, 1), x, n as int)) % (n as int));
                assert(poly_eval(coefficients@, x, n as int) == (1 + x * 0) % (n as int));
            }
        }
        let mut i: usize = 0;
        while i < roots.len()
            invariant
                n >= 2,
                i <= roots@.len(),
                roots@.len() < usize::MAX,
                coefficients@.len() == i + 1,
                coefficients@.last() == 1,
                forall|x: int|
                    poly_eval(coefficients@, x, n as int) == #[trigger] root_prod(
                        roots@.take(i as int),
                        x,
                        n as int,
                    ),
            decreases roots@.len() - i,
        {
            let ghost before = coefficients@;
            let root = roots[i];
            let next = Self::mul_by_linear(&coefficients, root, n);
            proof {
                assert forall|x: int| poly_eval(next@, x, n as int) == #[trigger] root_prod(
                    roots@.take(i + 1),
                    x,
                    n as int,
                ) by {
                    assert(roots@.take(i + 1).drop_last() =~= roots@.take(i as int));
                    assert(roots@.take(i + 1).last() == roots@[i as int]);
                    assert(root_prod(roots@.take(i + 1), x, n as int) == (root_prod(
                        roots@.take(i as int),
                        x,
                        n as int,
                    ) * (x - roots@[i as int])) % (n as int));
                    assert(poly_eval(next@, x, n as int) == (poly_eval(before, x, n as int) * (
                    x - root)) % (n as int));
                }
            }
            coefficients = next;
            i = i + 1;
        }
        proof {
            assert(roots@.take(roots@.len() as int) =~= roots@);
        }
        Polynomial { coefficients }
    }

    /// Adds `w * extra(x)` into the accumulator coefficients in place.
    fn add_scaled(coeffs: &mut Vec<u64>, extra: &Vec<u64>, w: u64, n: u64)
        requires
            n >= 1,
            extra@.len() <= old(coeffs)@.len(),
        ensures
            final(coeffs)@.len() == old(coeffs)@.len(),
            forall|k: int|
                0 <= k < final(coeffs)@.len() ==> (final(coeffs)@[k] == old(coeffs)@[k]
                    || final(coeffs)@[k] < n),
            forall|x: int|
                poly_eval(final(coeffs)@, x, n as int) == (poly_eval(old(coeffs)@, x, n as int)
                    + (w as int) * poly_eval(extra@, x, n as int)) % (n as int),
    {
        let ghost c0 = coeffs@;
        let ghost p = n as int;
        proof {
            assert(extra@.take(0) =~= Seq::<u64>::empty());
            assert forall|x: int| poly_eval(coeffs@, x, p) == (poly_eval(c0, x, p) + (w as int)
                * poly_eval(extra@.take(0), x, p)) % p by {
                crate::poly_facts::lemma_eval_bound(c0, x, p);
                vstd::arithmetic::div_mod::lemma_small_mod(poly_eval(c0, x, p) as nat, n as nat);
                assert((w as int) * 0 == 0) by (nonlinear_arith);
            }
        }
        let mut j: usize = 0;
        let elen = extra.len();
        while j < elen
            invariant
                n >= 1,
                p == n as int,
                j <= elen,
                elen == extra@.len(),
                extra@.len() <= c0.len(),
                coeffs@.len() == c0.len(),
                forall|k: int| j <= k < c0.len() ==> coeffs@[k] == c0[k],
                forall|k: int| 0 <= k < c0.len() ==> (coeffs@[k] == c0[k] || coeffs@[k] < n),
                forall|x: int|
                    poly_eval(coeffs@, x, p) == (poly_eval(c0, x, p) + (w as int) * poly_eval(
                        extra@.take(j as int),
                        x,
                        p,
                    )) % p,
            decreases elen - j,
        {
            let ej = extra[j];
            let prodv = crate::field::mod_mul(ej, w, n);
            let cur = coeffs[j];
            let newv = crate::field::mod_add(cur, prodv, n);
            let ghost prev = coeffs@;
            coeffs.set(j, newv);
            proof {
                assert forall|x: int| poly_eval(coeffs@, x, p) == (poly_eval(c0, x, p) + (
                w as int) * poly_eval(extra@.take(j + 1), x, p)) % p by {
                    let pow_j = vstd::arithmetic::power::pow(x, j as nat);
                    let e_j = poly_eval(extra@.take(j as int), x, p);
                    let e_j1 = poly_eval(extra@.take(j + 1), x, p);
                    let ejw = (ej as int) * (w as int);
                    crate::poly_facts::lemma_eval_update(prev, j as int, newv, x, p);
                    // newv == (cur + ej * w) % p
                    assert(newv as int == (cur + ejw) % p) by {
                        vstd::arithmetic::div_mod::lemma_add_mod_noop_right(cur as int, ejw, p);
                    }
                    // delta == newv - cur is congruent to ej * w
                    assert(cong((newv - cur) * pow_j, ejw * pow_j, p)) by {
                        assert(cong(newv - cur, ejw, p)) by {
                            vstd::arithmetic::div_mod::lemma_mod_twice(cur + ejw, p);
                            crate::poly_facts::lemma_cong_sub(
                                newv as int,
                                cur as int,
                                cur + ejw,
                                cur as int,
                                p,
                            );
                        }
                        crate::poly_facts::lemma_cong_mul(newv - cur, pow_j, ejw, pow_j, p);
                    }
                    // eval(coeffs@) == eval(prev) + delta * x^j   (mod p)
                    assert(cong(
                        poly_eval(prev, x, p) + (newv - cur) * pow_j,
                        (poly_eval(c0, x, p) + (w as int) * e_j) + ejw * pow_j,
                        p,
                    )) by {
                        vstd::arithmetic::div_mod::lemma_mod_twice(
                            poly_eval(c0, x, p) + (w as int) * e_j,
                            p,
                        );
                        crate::poly_facts::lemma_cong_add(
                            poly_eval(prev, x, p),
                            (newv - cur) * pow_j,
                            poly_eval(c0, x, p) + (w as int) * e_j,
                            ejw * pow_j,
                            p,
                        );
                    }
                    // e_j1 is congruent to e_j + extra[j] * x^j
                    assert(extra@.take(j + 1) =~= extra@.take(j as int).push(ej));
                    crate::poly_facts::lemma_eval_push(extra@.take(j as int), ej, x, p);
                    assert(e_j1 == (e_j + ej * pow_j) % p);
                    assert(cong(
                        poly_eval(c0, x, p) + (w as int) * (e_j + ej * pow_j),
                        poly_eval(c0, x, p) + (w as int) * e_j1,
                        p,
                    )) by {
                        vstd::arithmetic::div_mod::lemma_mod_twice(e_j + ej * pow_j, p);
                        crate::poly_facts::lemma_cong_mul(
                            w as int,
                            e_j + ej * pow_j,
                            w as int,
                            e_j1,
                            p,
                        );
                        crate::poly_facts::lemma_cong_add(
                            poly_eval(c0, x, p),
                            (w as int) * (e_j + ej * pow_j),
                            poly_eval(c0, x, p),
                            (w as int) * e_j1,
                            p,
                        );
                    }
                    assert((poly_eval(c0, x, p) + (w as int) * e_j) + ejw * pow_j == poly_eval(
                        c0,
                        x,
                        p,
                    ) + (w as int) * (e_j + ej * pow_j)) by (nonlinear_arith)
                        requires
                            ejw == (ej as int) * (w as int),
                    ;
                }
            }
            j = j + 1;
        }
        proof {
            assert(extra@.take(elen as int) =~= extra@);
        }
    }

    /// Lagrange interpolation through `(points[i], values[i])` over the
    /// field: the unique polynomial of degree below `points.len()` through
    /// the given points, built from the master numerator by exact division.
    ///
    /// Requires equal-length inputs; fails with `LengthMismatch` otherwise,
    /// and with `NoInverse` when a Lagrange denominator is not invertible
    /// (which cannot happen for distinct points under a prime modulus).
    pub fn interpolate(points: &[u64], values: &[u64], modulo: u64) -> (res: Result<
        Polynomial,
        PolyError,
    >)
        requires
            modulo >= 2,
            points@.len() + 1 < usize::MAX,
            forall|k: int| 0 <= k < points@.len() ==> points@[k] < modulo,
        ensures
            points@.len() != values@.len() <==> res == Result::<Polynomial, PolyError>::Err(
                PolyError::LengthMismatch,
            ),
            res matches Ok(f) ==> f.wf() && f@.len() <= points@.len(),
            res matches Ok(f) ==> forall|k: int| 0 <= k < f@.len() ==> f@[k] < modulo,
            res matches Ok(f) ==> ((crate::primes::is_prime(modulo as nat) && all_distinct(
                points@,
            )) ==> forall|i: int|
                0 <= i < points@.len() ==> poly_eval(f@, #[trigger] points@[i] as int,
                modulo as int) == (values@[i] as int) % (modulo as int)),
            (crate::primes::is_prime(modulo as nat) && points@.len() == values@.len()
                && points@.len() < modulo) ==> (res is Ok <==> all_distinct(points@)),
    {
        let ghost p = modulo as int;
        let ghost hyp = crate::primes::is_prime(modulo as nat) && all_distinct(points@);
        let ghost hyp2 = crate::primes::is_prime(modulo as nat) && points@.len() < modulo;
        if points.len() != values.len() {
            return Err(PolyError::LengthMismatch);
        }
        let len = points.len();
        let master = Polynomial::interpolate_from_roots(points, modulo);

        let mut coefficients: Vec<u64> = Vec::new();
        let mut z: usize = 0;
        while z < len
            invariant
                coefficients@.len() == z,
                z <= len,
                forall|k: int| 0 <= k < z ==> coefficients@[k] == 0,
            decreases len - z,
        {
            coefficients.push(0);
            z = z + 1;
        }
        proof {
            if hyp {
                assert forall|jj: int| 0 <= jj < len implies poly_eval(
                    coefficients@,
                    #[trigger] points@[jj] as int,
                    p,
                ) == 0 by {
                    crate::poly_facts::lemma_eval_all_zero(
                        coefficients@,
                        points@[jj] as int,
                        p,
                    );
                }
            }
        }

        let mut i: usize = 0;
        while i < len
            invariant
                modulo >= 2,
                p == modulo as int,
                hyp == (crate::primes::is_prime(modulo as nat) && all_distinct(points@)),
                i <= len,
                len == points@.len(),
                len == values@.len(),
                len + 1 < usize::MAX,
                forall|k: int| 0 <= k < len ==> points@[k] < modulo,
                master.wf(),
                len > 0 ==> master@.len() == len + 1 && master@.last() == 1,
                len > 0 ==> forall|x: int|
                    poly_eval(master@, x, p) == #[trigger] root_prod(points@, x, p),
                coefficients@.len() == len,
                forall|k: int| 0 <= k < len ==> coefficients@[k] < modulo,
                hyp ==> forall|jj: int|
                    0 <= jj < len ==> poly_eval(coefficients@, #[trigger] points@[jj] as int, p)
                        == (if jj < i {
                        (values@[jj] as int) % p
                    } else {
                        0int
                    }),
                hyp2 == (crate::primes::is_prime(modulo as nat) && points@.len() < modulo),
                hyp2 ==> forall|j: int, k: int|
                    0 <= j < i && 0 <= k < len && k != j ==> (#[trigger] points@[j]) != (
                    #[trigger] points@[k]),
            decreases len - i,
        {
            let pt = points[i];
            let mut dcoeffs: Vec<u64> = Vec::new();
            dcoeffs.push(modulo - pt);
            dcoeffs.push(1);
            proof {
                assert(dcoeffs@ =~= seq![(modulo - pt) as u64, 1u64]);
            }
            let divisor = Polynomial::new(dcoeffs);
            proof {
                // the trailing 1 is never trimmed
                if divisor@.len() < 2 {
                    assert(seq![(modulo - pt) as u64, 1u64][1] == 0);
                    assert(false);
                }
                assert(divisor@ =~= seq![(modulo - pt) as u64, 1u64]);
                assert(divisor@.last() == 1);
                crate::field::lemma_gcd_one_right(modulo as nat);
            }
            let pair = match master.div(&divisor, modulo) {
                Ok(v) => v,
                Err(_) => {
                    proof {
                        assert(false);
                    }
                    return Err(PolyError::NoInverse);
                },
            };
            let numer = pair.0;
            proof {
                assert(numer@.len() <= len);
                // divisor evaluates to (x - pt) mod p
                assert forall|x: int| #[trigger] poly_eval(divisor@, x, p) == (x - pt) % p by {
                    crate::poly_facts::lemma_eval_monic_linear((modulo - pt) as u64, x, p);
                    vstd::arithmetic::div_mod::lemma_mod_add_multiples_vanish(x - pt, p);
                }
                // the remainder vanishes everywhere: it is a constant that is
                // zero at pt because master(pt) == 0
                let remv = pair.1@;
                assert(remv.len() < 2);
                crate::poly_theory::lemma_root_prod_zero(points@, i as int, p);
                assert(poly_eval(master@, pt as int, p) == 0);
                assert((poly_eval(divisor@, pt as int, p) * poly_eval(numer@, pt as int, p)
                    + poly_eval(remv, pt as int, p)) % p == 0);
                assert((pt - pt) % p == 0) by {
                    vstd::arithmetic::div_mod::lemma_small_mod(0nat, modulo as nat);
                }
                assert(poly_eval(remv, pt as int, p) == 0) by {
                    assert(0int * poly_eval(numer@, pt as int, p) == 0) by (nonlinear_arith);
                    crate::poly_facts::lemma_eval_bound(remv, pt as int, p);
                    vstd::arithmetic::div_mod::lemma_small_mod(
                        poly_eval(remv, pt as int, p) as nat,
                        modulo as nat,
                    );
                }
                crate::poly_facts::lemma_eval_const(remv, pt as int, p);
                assert forall|x: int| #[trigger] poly_eval(remv, x, p) == 0 by {
                    crate::poly_facts::lemma_eval_const(remv, x, p);
                }
                // master(x) is congruent to (x - pt) * numer(x) for every x
                assert forall|x: int| #[trigger] poly_eval(master@, x, p) == ((x - pt)
                    * poly_eval(numer@, x, p)) % p by {
                    assert((poly_eval(divisor@, x, p) * poly_eval(numer@, x, p) + poly_eval(
                        remv,
                        x,
                        p,
                    )) % p == poly_eval(master@, x, p));
                    vstd::arithmetic::div_mod::lemma_mul_mod_noop_left(
                        x - pt,
                        poly_eval(numer@, x, p),
                        p,
                    );
                }
            }
            let eval_at = numer.evaluate(pt, modulo);
            proof {
                if hyp {
                    // at every other point the numerator vanishes
                    assert forall|jj: int| 0 <= jj < len && jj != i implies poly_eval(
                        numer@,
                        #[trigger] points@[jj] as int,
                        p,
                    ) == 0 by {
                        let y = points@[jj] as int;
                        crate::poly_theory::lemma_root_prod_zero(points@, jj, p);
                        assert(poly_eval(master@, y, p) == 0);
                        assert(((y - pt) * poly_eval(numer@, y, p)) % p == 0);
                        assert((y - pt) % p != 0) by {
                            crate::poly_theory::lemma_small_nonzero_mod(y - pt, p);
                        }
                        crate::primes::lemma_euclid(
                            modulo as nat,
                            y - pt,
                            poly_eval(numer@, y, p),
                        );
                        crate::poly_facts::lemma_eval_bound(numer@, y, p);
                        vstd::arithmetic::div_mod::lemma_small_mod(
                            poly_eval(numer@, y, p) as nat,
                            modulo as nat,
                        );
                    }
                    // under the hypotheses the denominator is invertible
                    if len < modulo {
                        if eval_at == 0 {
                            assert forall|kk: int| 0 <= kk < points@.len() implies poly_eval(
                                numer@,
                                #[trigger] points@[kk] as int,
                                p,
                            ) == 0 by {}
                            crate::poly_theory::lemma_roots_zero(numer@, points@, modulo);
                            crate::poly_theory::lemma_fresh_point(points@, modulo as int);
                            let y = choose|y: int|
                                0 <= y < modulo as int && #[trigger] crate::poly_theory::misses_value(
                                    points@,
                                    y,
                                );
                            crate::poly_theory::lemma_root_prod_nonzero(points@, y, modulo);
                            assert(poly_eval(master@, y, p) == ((y - pt) * poly_eval(
                                numer@,
                                y,
                                p,
                            )) % p);
                            assert(poly_eval(numer@, y, p) == 0);
                            assert(((y - pt) * 0) % p == 0) by {
                                assert((y - pt) * 0 == 0) by (nonlinear_arith);
                                vstd::arithmetic::div_mod::lemma_small_mod(
                                    0nat,
                                    modulo as nat,
                                );
                            }
                            assert(false);
                        }
                        crate::primes::lemma_prime_gcd_small(modulo as nat, eval_at as nat);
                    }
                }
            }
            let inv = match modulo_inv(eval_at, modulo) {
                Ok(v) => v,
                Err(_) => {
                    return Err(PolyError::NoInverse);
                },
            };
            proof {
                // the inverse exists, so this point occurs only once
                if hyp2 {
                    assert forall|j: int, k: int|
                        0 <= j < i + 1 && 0 <= k < len && k != j implies (
                    #[trigger] points@[j]) != (#[trigger] points@[k]) by {
                        if j == i as int && points@[j] == points@[k] {
                            assert forall|x: int| #[trigger] root_prod(points@, x, p) == ((x
                                - points@[i as int]) * poly_eval(numer@, x, p)) % p by {
                                assert(poly_eval(master@, x, p) == root_prod(points@, x, p));
                                assert(poly_eval(master@, x, p) == ((x - pt) * poly_eval(
                                    numer@,
                                    x,
                                    p,
                                )) % p);
                            }
                            crate::poly_theory::lemma_duplicate_point_zero(
                                numer@,
                                points@,
                                i as int,
                                k,
                                modulo,
                            );
                            assert(eval_at != 0);
                            assert(false);
                        }
                        if k == i as int && points@[j] == points@[k] {
                            assert(points@[k] != points@[j]);
                        }
                    }
                }
            }
            let weight = crate::field::mod_mul(values[i], inv, modulo);
            let ghost before = coefficients@;
            Self::add_scaled(&mut coefficients, &numer.coefficients, weight, modulo);
            proof {
                if hyp {
                    assert forall|jj: int| 0 <= jj < len implies poly_eval(
                        coefficients@,
                        #[trigger] points@[jj] as int,
                        p,
                    ) == (if jj < i + 1 {
                        (values@[jj] as int) % p
                    } else {
                        0int
                    }) by {
                        let y = points@[jj] as int;
                        let old_val = poly_eval(before, y, p);
                        assert(poly_eval(coefficients@, y, p) == (old_val + (weight as int)
                            * poly_eval(numer@, y, p)) % p);
                        if jj != i {
                            assert(poly_eval(numer@, y, p) == 0);
                            assert((weight as int) * 0 == 0) by (nonlinear_arith);
                            crate::poly_facts::lemma_eval_bound(before, y, p);
                            vstd::arithmetic::div_mod::lemma_small_mod(
                                old_val as nat,
                                modulo as nat,
                            );
                        } else {
                            // old value is 0; weight * eval_at is congruent to values[i]
                            assert(old_val == 0);
                            let vi = values@[i as int] as int;
                            let iv = inv as int;
                            let ev = eval_at as int;
                            assert(weight as int == (vi * iv) % p);
                            assert(cong((weight as int) * ev, vi, p)) by {
                                vstd::arithmetic::div_mod::lemma_mul_mod_noop_left(
                                    vi * iv,
                                    ev,
                                    p,
                                );
                                assert((vi * iv) * ev == vi * (iv * ev)) by (nonlinear_arith);
                                assert(iv * ev == ev * iv) by (nonlinear_arith);
                                vstd::arithmetic::div_mod::lemma_mul_mod_noop_right(
                                    vi,
                                    iv * ev,
                                    p,
                                );
                                vstd::arithmetic::div_mod::lemma_mul_mod_noop_right(vi, 1, p);
                                assert((ev * iv) % p == 1);
                            }
                            assert((0 + (weight as int) * ev) % p == vi % p);
                        }
                    }
                }
            }
            i = i + 1;
        }

        let ghost acc_final = coefficients@;
        let result = Polynomial::new(coefficients);
        proof {
            if hyp2 && !all_distinct(points@) {
                let (a, b) = choose|a: int, b: int|
                    0 <= a < b < points@.len() && points@[a] == points@[b];
                assert(points@[a] != points@[b]);
            }
            if hyp {
                assert forall|jj: int| 0 <= jj < points@.len() implies poly_eval(
                    result@,
                    #[trigger] points@[jj] as int,
                    p,
                ) == (values@[jj] as int) % p by {
                    assert(poly_eval(result@, points@[jj] as int, p) == poly_eval(
                        acc_final,
                        points@[jj] as int,
                        p,
                    ));
                }
            }
        }
        Ok(result)
    }

    /// The constant coefficient, or 0 for the zero polynomial.
    pub fn evaluate_at_zero(&self) -> (r: u64)
        ensures
            r == (if self@.len() == 0 {
                0u64
            } else {
                self@[0]
            }),
    {
        if self.coefficients.is_empty() {
            return 0;
        }
        self.coefficients[0]
    }
}

} // verus!
