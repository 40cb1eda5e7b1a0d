//! Facts about polynomial evaluation over the field: bounds, congruence
//! arithmetic, and how evaluation changes when a coefficient sequence is
//! extended or updated.

use vstd::prelude::*;

use vstd::arithmetic::div_mod::{
    lemma_add_mod_noop, lemma_mod_bound, lemma_mul_mod_noop_general, lemma_sub_mod_noop,
};
use vstd::arithmetic::power::pow;

use crate::poly::poly_eval;

verus! {

/// One unfolding of `pow`, which vstd keeps opaque.
pub proof fn lemma_pow_unfold(x: int, n: nat)
    requires
        n >= 1,
    ensures
        pow(x, n) == x * pow(x, (n - 1) as nat),
{
    reveal(pow);
}

/// Congruence modulo `p`.
pub open spec fn cong(a: int, b: int, p: int) -> bool {
    a % p == b % p
}

/// Congruence is compatible with addition.
pub proof fn lemma_cong_add(a: int, b: int, a2: int, b2: int, p: int)
    requires
        p >= 1,
        cong(a, a2, p),
        cong(b, b2, p),
    ensures
        cong(a + b, a2 + b2, p),
{
    lemma_add_mod_noop(a, b, p);
    lemma_add_mod_noop(a2, b2, p);
}

/// Congruence is compatible with subtraction.
pub proof fn lemma_cong_sub(a: int, b: int, a2: int, b2: int, p: int)
    requires
        p >= 1,
        cong(a, a2, p),
        cong(b, b2, p),
    ensures
        cong(a - b, a2 - b2, p),
{
    lemma_sub_mod_noop(a, b, p);
    lemma_sub_mod_noop(a2, b2, p);
}

/// Congruence is compatible with multiplication.
pub proof fn lemma_cong_mul(a: int, b: int, a2: int, b2: int, p: int)
    requires
        p >= 1,
        cong(a, a2, p),
        cong(b, b2, p),
    ensures
        cong(a * b, a2 * b2, p),
{
    lemma_mul_mod_noop_general(a, b, p);
    lemma_mul_mod_noop_general(a2, b2, p);
}

/// Evaluation lands in `[0, p)`.
pub proof fn lemma_eval_bound(c: Seq<u64>, x: int, p: int)
    requires
        p >= 1,
    ensures
        0 <= poly_eval(c, x, p) < p,
{
    if c.len() == 0 {
    } else {
        lemma_mod_bound(c[0] + x * poly_eval(c.subrange(1, c.len() as int), x, p), p);
    }
}

/// Appending a coefficient `v` adds `v * x^len` to the value.
pub proof fn lemma_eval_push(c: Seq<u64>, v: u64, x: int, p: int)
    requires
        p >= 1,
    ensures
        poly_eval(c.push(v), x, p) == (poly_eval(c, x, p) + v * pow(x, c.len())) % p,
    decreases c.len(),
{
    if c.len() == 0 {
        assert(c.push(v) =~= seq![v]);
        let s = seq![v];
        assert(s.subrange(1, 1) =~= Seq::<u64>::empty());
        assert(poly_eval(Seq::<u64>::empty(), x, p) == 0);
        assert(poly_eval(s, x, p) == (s[0] + x * poly_eval(s.subrange(1, 1), x, p)) % p);
        assert(poly_eval(s, x, p) == (v + x * 0) % p);
        vstd::arithmetic::power::lemma_pow0(x);
        assert((poly_eval(c, x, p) + v * pow(x, 0)) % p == (0 + v * 1) % p);
    } else {
        let rest = c.subrange(1, c.len() as int);
        let e_rest = poly_eval(rest, x, p);
        let n1 = (c.len() - 1) as nat;
        lemma_eval_push(rest, v, x, p);
        assert(c.push(v).subrange(1, c.push(v).len() as int) =~= rest.push(v));
        assert(c.push(v)[0] == c[0]);
        // poly_eval(c.push(v)) == (c0 + x * poly_eval(rest.push(v))) % p
        // and poly_eval(rest.push(v)) == (e_rest + v * pow(x, n1)) % p.
        let inner = (e_rest + v * pow(x, n1)) % p;
        assert(cong(x * inner, x * (e_rest + v * pow(x, n1)), p)) by {
            lemma_mod_bound(e_rest + v * pow(x, n1), p);
            vstd::arithmetic::div_mod::lemma_mod_twice(e_rest + v * pow(x, n1), p);
            lemma_cong_mul(x, inner, x, e_rest + v * pow(x, n1), p);
        }
        assert(cong(c[0] + x * inner, c[0] + x * (e_rest + v * pow(x, n1)), p)) by {
            lemma_cong_add(c[0] as int, x * inner, c[0] as int, x * (e_rest + v * pow(x, n1)), p);
        }
        assert(x * (e_rest + v * pow(x, n1)) == x * e_rest + v * (x * pow(x, n1)))
            by (nonlinear_arith);
        assert(pow(x, c.len()) == x * pow(x, n1)) by {
            lemma_pow_unfold(x, c.len());
        }
        // Right-hand side: strip the inner reduction of poly_eval(c).
        assert(cong(poly_eval(c, x, p) + v * pow(x, c.len()), c[0] + x * e_rest + v * pow(
            x,
            c.len(),
        ), p)) by {
            vstd::arithmetic::div_mod::lemma_mod_twice(c[0] + x * e_rest, p);
            lemma_cong_add(
                poly_eval(c, x, p),
                v * pow(x, c.len()),
                c[0] + x * e_rest,
                v * pow(x, c.len()),
                p,
            );
        }
        lemma_eval_bound(c.push(v), x, p);
        lemma_mod_bound(poly_eval(c, x, p) + v * pow(x, c.len()), p);
        vstd::arithmetic::div_mod::lemma_mod_twice(poly_eval(c, x, p) + v * pow(x, c.len()), p);
    }
}

/// Dropping a trailing zero coefficient leaves the value unchanged.
pub proof fn lemma_eval_drop_last_zero(c: Seq<u64>, x: int, p: int)
    requires
        p >= 1,
        c.len() > 0,
        c.last() == 0,
    ensures
        poly_eval(c.drop_last(), x, p) == poly_eval(c, x, p),
{
    assert(c =~= c.drop_last().push(c.last()));
    lemma_eval_push(c.drop_last(), c.last(), x, p);
    assert(poly_eval(c, x, p) == (poly_eval(c.drop_last(), x, p) + 0 * pow(x, c.drop_last().len()))
        % p);
    lemma_eval_bound(c.drop_last(), x, p);
    vstd::arithmetic::div_mod::lemma_small_mod(
        poly_eval(c.drop_last(), x, p) as nat,
        p as nat,
    );
}

/// Dropping the last coefficient subtracts `last * x^(len-1)` from the value.
pub proof fn lemma_eval_drop_last(c: Seq<u64>, x: int, p: int)
    requires
        p >= 1,
        c.len() > 0,
    ensures
        poly_eval(c.drop_last(), x, p) == (poly_eval(c, x, p) - c.last() * pow(
            x,
            (c.len() - 1) as nat,
        )) % p,
{
    assert(c =~= c.drop_last().push(c.last()));
    lemma_eval_push(c.drop_last(), c.last(), x, p);
    let b = poly_eval(c.drop_last(), x, p);
    let k = c.last() * pow(x, (c.len() - 1) as nat);
    // poly_eval(c) == (b + k) % p and 0 <= b < p, so b == (poly_eval(c) - k) % p.
    lemma_eval_bound(c.drop_last(), x, p);
    assert(((b + k) % p - k) % p == b % p) by {
        lemma_sub_mod_noop((b + k) % p, k, p);
        vstd::arithmetic::div_mod::lemma_mod_twice(b + k, p);
        lemma_sub_mod_noop(b + k, k, p);
    }
    vstd::arithmetic::div_mod::lemma_small_mod(b as nat, p as nat);
}

/// Changing the coefficient at `i` to `v` shifts the value by
/// `(v - c[i]) * x^i`.
pub proof fn lemma_eval_update(c: Seq<u64>, i: int, v: u64, x: int, p: int)
    requires
        p >= 1,
        0 <= i < c.len(),
    ensures
        poly_eval(c.update(i, v), x, p) == (poly_eval(c, x, p) + (v - c[i]) * pow(x, i as nat))
            % p,
    decreases i,
{
    let d = c.update(i, v);
    if i == 0 {
        let rest = c.subrange(1, c.len() as int);
        assert(d.subrange(1, d.len() as int) =~= rest);
        assert(d[0] == v);
        let e_rest = poly_eval(rest, x, p);
        vstd::arithmetic::power::lemma_pow0(x);
        assert(cong(poly_eval(c, x, p) + (v - c[0]), c[0] + x * e_rest + (v - c[0]), p)) by {
            vstd::arithmetic::div_mod::lemma_mod_twice(c[0] + x * e_rest, p);
            lemma_cong_add(
                poly_eval(c, x, p),
                v - c[0],
                c[0] + x * e_rest,
                v - c[0],
                p,
            );
        }
        assert(c[0] + x * e_rest + (v - c[0]) == v + x * e_rest);
        lemma_mod_bound(poly_eval(c, x, p) + (v - c[0]) * pow(x, 0), p);
        vstd::arithmetic::div_mod::lemma_mod_twice(
            poly_eval(c, x, p) + (v - c[0]) * pow(x, 0),
            p,
        );
        lemma_eval_bound(d, x, p);
    } else {
        let rest = c.subrange(1, c.len() as int);
        assert(d.subrange(1, d.len() as int) =~= rest.update(i - 1, v));
        assert(d[0] == c[0]);
        lemma_eval_update(rest, i - 1, v, x, p);
        let e_rest = poly_eval(rest, x, p);
        let delta = (v - rest[i - 1]) * pow(x, (i - 1) as nat);
        let inner = (e_rest + delta) % p;
        assert(rest[i - 1] == c[i]);
        assert(cong(c[0] + x * inner, c[0] + x * (e_rest + delta), p)) by {
            vstd::arithmetic::div_mod::lemma_mod_twice(e_rest + delta, p);
            lemma_cong_mul(x, inner, x, e_rest + delta, p);
            lemma_cong_add(c[0] as int, x * inner, c[0] as int, x * (e_rest + delta), p);
        }
        assert(x * (e_rest + delta) == x * e_rest + (v - c[i]) * (x * pow(x, (i - 1) as nat)))
            by (nonlinear_arith)
            requires
                delta == (v - c[i]) * pow(x, (i - 1) as nat),
        ;
        assert(pow(x, i as nat) == x * pow(x, (i - 1) as nat)) by {
            lemma_pow_unfold(x, i as nat);
        }
        assert(cong(poly_eval(c, x, p) + (v - c[i]) * pow(x, i as nat), c[0] + x * e_rest + (v
            - c[i]) * pow(x, i as nat), p)) by {
            vstd::arithmetic::div_mod::lemma_mod_twice(c[0] + x * e_rest, p);
            lemma_cong_add(
                poly_eval(c, x, p),
                (v - c[i]) * pow(x, i as nat),
                c[0] + x * e_rest,
                (v - c[i]) * pow(x, i as nat),
                p,
            );
        }
        lemma_eval_bound(d, x, p);
        lemma_mod_bound(poly_eval(c, x, p) + (v - c[i]) * pow(x, i as nat), p);
        vstd::arithmetic::div_mod::lemma_mod_twice(
            poly_eval(c, x, p) + (v - c[i]) * pow(x, i as nat),
            p,
        );
    }
}

/// A sequence of zero coefficients evaluates to zero.
pub proof fn lemma_eval_all_zero(c: Seq<u64>, x: int, p: int)
    requires
        p >= 1,
        forall|k: int| 0 <= k < c.len() ==> c[k] == 0,
    ensures
        poly_eval(c, x, p) == 0,
    decreases c.len(),
{
    if c.len() == 0 {
    } else {
        let rest = c.subrange(1, c.len() as int);
        lemma_eval_all_zero(rest, x, p);
        assert(poly_eval(c, x, p) == (0 + x * 0) % p);
        vstd::arithmetic::div_mod::lemma_small_mod(0nat, p as nat);
    }
}

/// Pointwise combination `out[k] = (u[k] - r * v[k]) mod p` evaluates to
/// `eval(u) - r * eval(v)` modulo `p`.
pub proof fn lemma_eval_lin_comb(u: Seq<u64>, v: Seq<u64>, out: Seq<u64>, r: int, x: int, p: int)
    requires
        p >= 1,
        u.len() == v.len(),
        out.len() == u.len(),
        forall|k: int| 0 <= k < out.len() ==> out[k] as int == (u[k] - r * v[k]) % p,
    ensures
        poly_eval(out, x, p) == (poly_eval(u, x, p) - r * poly_eval(v, x, p)) % p,
    decreases out.len(),
{
    if out.len() == 0 {
        assert(poly_eval(out, x, p) == 0);
        assert((0int - r * 0) % p == 0) by {
            vstd::arithmetic::div_mod::lemma_small_mod(0nat, p as nat);
        }
    } else {
        let urest = u.subrange(1, u.len() as int);
        let vrest = v.subrange(1, v.len() as int);
        let orest = out.subrange(1, out.len() as int);
        assert(forall|k: int|
            0 <= k < orest.len() ==> orest[k] as int == (urest[k] - r * vrest[k]) % p);
        lemma_eval_lin_comb(urest, vrest, orest, r, x, p);
        let eu = poly_eval(urest, x, p);
        let ev = poly_eval(vrest, x, p);
        // poly_eval(out) == (out[0] + x * ((eu - r * ev) % p)) % p
        assert(cong(out[0] + x * ((eu - r * ev) % p), out[0] + x * (eu - r * ev), p)) by {
            vstd::arithmetic::div_mod::lemma_mod_twice(eu - r * ev, p);
            lemma_cong_mul(x, (eu - r * ev) % p, x, eu - r * ev, p);
            lemma_cong_add(out[0] as int, x * ((eu - r * ev) % p), out[0] as int, x * (eu - r
                * ev), p);
        }
        assert(cong(out[0] + x * (eu - r * ev), (u[0] - r * v[0]) + x * (eu - r * ev), p)) by {
            vstd::arithmetic::div_mod::lemma_mod_twice(u[0] - r * v[0], p);
            lemma_cong_add(out[0] as int, x * (eu - r * ev), u[0] - r * v[0], x * (eu - r * ev), p);
        }
        assert((u[0] - r * v[0]) + x * (eu - r * ev) == (u[0] + x * eu) - r * (v[0] + x * ev))
            by (nonlinear_arith);
        assert(cong((u[0] + x * eu) - r * (v[0] + x * ev), poly_eval(u, x, p) - r * poly_eval(
            v,
            x,
            p,
        ), p)) by {
            vstd::arithmetic::div_mod::lemma_mod_twice(u[0] + x * eu, p);
            vstd::arithmetic::div_mod::lemma_mod_twice(v[0] + x * ev, p);
            lemma_cong_mul(r, v[0] + x * ev, r, poly_eval(v, x, p), p);
            lemma_cong_sub(u[0] + x * eu, r * (v[0] + x * ev), poly_eval(u, x, p), r * poly_eval(
                v,
                x,
                p,
            ), p);
        }
        lemma_eval_bound(out, x, p);
        vstd::arithmetic::div_mod::lemma_mod_twice(out[0] + x * ((eu - r * ev) % p), p);
        vstd::arithmetic::div_mod::lemma_mod_twice(poly_eval(u, x, p) - r * poly_eval(v, x, p), p);
    }
}

/// A polynomial of length at most one evaluates to its constant term.
pub proof fn lemma_eval_const(c: Seq<u64>, x: int, p: int)
    requires
        p >= 1,
        c.len() <= 1,
    ensures
        poly_eval(c, x, p) == (if c.len() == 0 {
            0int
        } else {
            (c[0] as int) % p
        }),
{
    if c.len() == 1 {
        assert(c.subrange(1, 1) =~= Seq::<u64>::empty());
        assert(poly_eval(c.subrange(1, 1), x, p) == 0);
        assert(poly_eval(c, x, p) == (c[0] + x * 0) % p);
    }
}

/// The monic linear polynomial `[c0, 1]` evaluates to `(c0 + y) mod p`.
pub proof fn lemma_eval_monic_linear(c0: u64, y: int, p: int)
    requires
        p >= 2,
    ensures
        poly_eval(seq![c0, 1u64], y, p) == (c0 + y) % p,
{
    let s = seq![c0, 1u64];
    let tail = s.subrange(1, 2);
    assert(tail =~= seq![1u64]);
    assert(tail.subrange(1, 1) =~= Seq::<u64>::empty());
    assert(poly_eval(tail.subrange(1, 1), y, p) == 0);
    assert(poly_eval(tail, y, p) == (1 + y * 0) % p);
    assert(poly_eval(tail, y, p) == 1int % p);
    vstd::arithmetic::div_mod::lemma_small_mod(1nat, p as nat);
    assert(poly_eval(s, y, p) == (c0 + y * 1) % p);
    assert(y * 1 == y) by (nonlinear_arith);
}

} // verus!
