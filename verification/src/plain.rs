use vstd::prelude::*;
use vstd::arithmetic::div_mod::{
    lemma_add_mod_noop,
    lemma_add_mod_noop_right,
    lemma_mul_mod_noop_left,
    lemma_mul_mod_noop_right,
    lemma_sub_mod_noop_right,
};
use vstd::arithmetic::div_mod::lemma_mul_mod_noop;
use crate::dlog::{lemma_add_negated, lemma_shift_residue};

verus! {

/// What the pair with logarithms `(s, t)` holds under the secret scalar `x`
/// in a group of order `q`: the logarithm of `T - x S`.
pub open spec fn opened(t: int, s: int, x: int, q: int) -> int {
    (t - x * s) % q
}

/// A reduced factor of a subtrahend may be replaced by the factor itself.
pub proof fn lemma_reduced_factor(a: int, x: int, b: int, q: int)
    requires
        q > 0,
    ensures
        (a - x * (b % q)) % q == (a - x * b) % q,
{
    lemma_sub_mod_noop_right(a, x * (b % q), q);
    lemma_mul_mod_noop_right(x, b, q);
    lemma_sub_mod_noop_right(a, x * b, q);
}

/// A pair built as `(r, m + r x)` holds `m`.
pub proof fn lemma_fresh_opens(m: int, r: int, x: int, q: int)
    requires
        q > 0,
    ensures
        opened((m + r * x) % q, r, x, q) == m % q,
{
    lemma_shift_residue(m + r * x, -(x * r), q);
    assert(r * x == x * r) by (nonlinear_arith);
}

/// The componentwise sum of two pairs holds the sum of what they hold.
pub proof fn lemma_sum_opens(t1: int, s1: int, t2: int, s2: int, x: int, q: int)
    requires
        q > 0,
    ensures
        opened((t1 + t2) % q, (s1 + s2) % q, x, q) == (opened(t1, s1, x, q) + opened(t2, s2, x, q))
            % q,
{
    lemma_reduced_factor((t1 + t2) % q, x, s1 + s2, q);
    lemma_shift_residue(t1 + t2, -(x * (s1 + s2)), q);
    lemma_add_mod_noop(t1 - x * s1, t2 - x * s2, q);
    assert(x * (s1 + s2) == x * s1 + x * s2) by (nonlinear_arith);
}

/// The componentwise negation of a pair holds the negation of what it holds.
pub proof fn lemma_negation_opens(t: int, s: int, x: int, q: int)
    requires
        q > 0,
    ensures
        opened((-t) % q, (-s) % q, x, q) == (-opened(t, s, x, q)) % q,
{
    lemma_reduced_factor((-t) % q, x, -s, q);
    lemma_shift_residue(-t, -(x * (-s)), q);
    lemma_sub_mod_noop_right(0, t - x * s, q);
    assert(x * (-s) == -(x * s)) by (nonlinear_arith);
}

/// The componentwise difference of two pairs holds the difference of what
/// they hold.
pub proof fn lemma_difference_opens(t1: int, s1: int, t2: int, s2: int, x: int, q: int)
    requires
        q > 0,
    ensures
        opened((t1 + (-t2) % q) % q, (s1 + (-s2) % q) % q, x, q) == (opened(t1, s1, x, q) - opened(
            t2,
            s2,
            x,
            q,
        )) % q,
{
    lemma_sum_opens(t1, s1, (-t2) % q, (-s2) % q, x, q);
    lemma_negation_opens(t2, s2, x, q);
    lemma_add_mod_noop_right(opened(t1, s1, x, q), -opened(t2, s2, x, q), q);
}

/// The componentwise multiple of a pair holds the multiple of what it holds.
pub proof fn lemma_multiple_opens(t: int, s: int, k: int, x: int, q: int)
    requires
        q > 0,
    ensures
        opened(((k % q) * t) % q, ((k % q) * s) % q, x, q) == (k * opened(t, s, x, q)) % q,
{
    lemma_mul_mod_noop_left(k, t, q);
    lemma_mul_mod_noop_left(k, s, q);
    lemma_reduced_factor((k * t) % q, x, k * s, q);
    lemma_shift_residue(k * t, -(x * (k * s)), q);
    lemma_mul_mod_noop_right(k, t - x * s, q);
    assert(k * (t - x * s) == k * t - x * (k * s)) by (nonlinear_arith);
}

/// What the quadruple with logarithms `(g0, g1, g2, g3)` holds under the
/// secret scalars `x` and `y` in a group of order `q`: the logarithm of
/// `g3 - x g1 - y g2 + x y g0`.
pub open spec fn lifted(g0: int, g1: int, g2: int, g3: int, x: int, y: int, q: int) -> int {
    (g3 + (-x) * g1 + (-y) * g2 + (x * y) * g0) % q
}

/// A reduced factor of a summand may be replaced by the factor itself.
pub proof fn lemma_reduced_term(acc: int, c: int, a: int, q: int)
    requires
        q > 0,
    ensures
        (acc + c * (a % q)) % q == (acc + c * a) % q,
{
    lemma_add_mod_noop_right(acc, c * (a % q), q);
    lemma_mul_mod_noop_right(c, a, q);
    lemma_add_mod_noop_right(acc, c * a, q);
}

/// Reducing the components of a quadruple does not change what it holds.
pub proof fn lemma_lifted_reduced(a0: int, a1: int, a2: int, a3: int, x: int, y: int, q: int)
    requires
        q > 0,
    ensures
        lifted(a0 % q, a1 % q, a2 % q, a3 % q, x, y, q) == lifted(a0, a1, a2, a3, x, y, q),
{
    let r0 = a0 % q;
    let r1 = a1 % q;
    let r2 = a2 % q;
    let r3 = a3 % q;
    lemma_reduced_term(r3 + (-x) * r1 + (-y) * r2, x * y, a0, q);
    lemma_reduced_term(r3 + (-x) * r1 + (x * y) * a0, -y, a2, q);
    lemma_reduced_term(r3 + (-y) * a2 + (x * y) * a0, -x, a1, q);
    lemma_reduced_term((-x) * a1 + (-y) * a2 + (x * y) * a0, 1, a3, q);
}

/// Removing the blinding of a quadruple term by term leaves what it holds.
pub proof fn lemma_unblinded(g0: int, g1: int, g2: int, g3: int, x: int, y: int, q: int)
    requires
        q > 0,
    ensures
        (((g3 + (-((x * g1) % q)) % q) % q + (-((y * g2) % q)) % q) % q + (y * ((x * g0) % q)) % q)
            % q == lifted(g0, g1, g2, g3, x, y, q),
{
    let v1 = (g3 + (-((x * g1) % q)) % q) % q;
    let v2 = (v1 + (-((y * g2) % q)) % q) % q;
    lemma_add_negated(g3, x * g1, q);
    lemma_add_negated(v1, y * g2, q);
    lemma_shift_residue(g3 - x * g1, -(y * g2), q);
    lemma_mul_mod_noop_right(y, x * g0, q);
    lemma_add_mod_noop(g3 - x * g1 - y * g2, y * (x * g0), q);
    assert((-x) * g1 == -(x * g1)) by (nonlinear_arith);
    assert((-y) * g2 == -(y * g2)) by (nonlinear_arith);
    assert((x * y) * g0 == y * (x * g0)) by (nonlinear_arith);
}

/// The four pairings of two pairs hold the product of what the pairs hold.
pub proof fn lemma_product_lifts(s1: int, t1: int, s2: int, t2: int, x: int, y: int, q: int)
    requires
        q > 0,
    ensures
        lifted((s1 * s2) % q, (s1 * t2) % q, (t1 * s2) % q, (t1 * t2) % q, x, y, q) == (opened(
            t1,
            s1,
            x,
            q,
        ) * opened(t2, s2, y, q)) % q,
{
    lemma_lifted_reduced(s1 * s2, s1 * t2, t1 * s2, t1 * t2, x, y, q);
    lemma_mul_mod_noop(t1 - x * s1, t2 - y * s2, q);
    let b = x * s1;
    let d = y * s2;
    assert((t1 - b) * (t2 - d) == t1 * t2 - t1 * d - b * t2 + b * d) by (nonlinear_arith);
    assert(t1 * d == y * (t1 * s2)) by (nonlinear_arith)
        requires
            d == y * s2,
    ;
    assert(b * t2 == x * (s1 * t2)) by (nonlinear_arith)
        requires
            b == x * s1,
    ;
    assert(b * d == (x * y) * (s1 * s2)) by (nonlinear_arith)
        requires
            b == x * s1,
            d == y * s2,
    ;
    assert((-x) * (s1 * t2) == -(x * (s1 * t2))) by (nonlinear_arith);
    assert((-y) * (t1 * s2) == -(y * (t1 * s2))) by (nonlinear_arith);
}

/// The componentwise sum of two quadruples holds the sum of what they hold.
pub proof fn lemma_sum_lifts(
    g0: int,
    g1: int,
    g2: int,
    g3: int,
    h0: int,
    h1: int,
    h2: int,
    h3: int,
    x: int,
    y: int,
    q: int,
)
    requires
        q > 0,
    ensures
        lifted((g0 + h0) % q, (g1 + h1) % q, (g2 + h2) % q, (g3 + h3) % q, x, y, q) == (lifted(
            g0,
            g1,
            g2,
            g3,
            x,
            y,
            q,
        ) + lifted(h0, h1, h2, h3, x, y, q)) % q,
{
    lemma_lifted_reduced(g0 + h0, g1 + h1, g2 + h2, g3 + h3, x, y, q);
    let a = g3 + (-x) * g1 + (-y) * g2 + (x * y) * g0;
    let b = h3 + (-x) * h1 + (-y) * h2 + (x * y) * h0;
    lemma_add_mod_noop(a, b, q);
    assert((-x) * (g1 + h1) == (-x) * g1 + (-x) * h1) by (nonlinear_arith);
    assert((-y) * (g2 + h2) == (-y) * g2 + (-y) * h2) by (nonlinear_arith);
    assert((x * y) * (g0 + h0) == (x * y) * g0 + (x * y) * h0) by (nonlinear_arith);
}

/// The componentwise negation of a quadruple holds the negation of what it
/// holds.
pub proof fn lemma_negation_lifts(g0: int, g1: int, g2: int, g3: int, x: int, y: int, q: int)
    requires
        q > 0,
    ensures
        lifted((-g0) % q, (-g1) % q, (-g2) % q, (-g3) % q, x, y, q) == (-lifted(
            g0,
            g1,
            g2,
            g3,
            x,
            y,
            q,
        )) % q,
{
    lemma_lifted_reduced(-g0, -g1, -g2, -g3, x, y, q);
    let a = g3 + (-x) * g1 + (-y) * g2 + (x * y) * g0;
    lemma_sub_mod_noop_right(0, a, q);
    assert((-x) * (-g1) == -((-x) * g1)) by (nonlinear_arith);
    assert((-y) * (-g2) == -((-y) * g2)) by (nonlinear_arith);
    assert((x * y) * (-g0) == -((x * y) * g0)) by (nonlinear_arith);
}

/// The componentwise difference of two quadruples holds the difference of
/// what they hold.
pub proof fn lemma_difference_lifts(
    g0: int,
    g1: int,
    g2: int,
    g3: int,
    h0: int,
    h1: int,
    h2: int,
    h3: int,
    x: int,
    y: int,
    q: int,
)
    requires
        q > 0,
    ensures
        lifted(
            (g0 + (-h0) % q) % q,
            (g1 + (-h1) % q) % q,
            (g2 + (-h2) % q) % q,
            (g3 + (-h3) % q) % q,
            x,
            y,
            q,
        ) == (lifted(g0, g1, g2, g3, x, y, q) - lifted(h0, h1, h2, h3, x, y, q)) % q,
{
    lemma_sum_lifts(g0, g1, g2, g3, (-h0) % q, (-h1) % q, (-h2) % q, (-h3) % q, x, y, q);
    lemma_negation_lifts(h0, h1, h2, h3, x, y, q);
    lemma_add_mod_noop_right(
        lifted(g0, g1, g2, g3, x, y, q),
        -lifted(h0, h1, h2, h3, x, y, q),
        q,
    );
}

/// The componentwise multiple of a quadruple holds the multiple of what it
/// holds.
pub proof fn lemma_multiple_lifts(
    g0: int,
    g1: int,
    g2: int,
    g3: int,
    k: int,
    x: int,
    y: int,
    q: int,
)
    requires
        q > 0,
    ensures
        lifted(
            ((k % q) * g0) % q,
            ((k % q) * g1) % q,
            ((k % q) * g2) % q,
            ((k % q) * g3) % q,
            x,
            y,
            q,
        ) == (k * lifted(g0, g1, g2, g3, x, y, q)) % q,
{
    lemma_mul_mod_noop_left(k, g0, q);
    lemma_mul_mod_noop_left(k, g1, q);
    lemma_mul_mod_noop_left(k, g2, q);
    lemma_mul_mod_noop_left(k, g3, q);
    lemma_lifted_reduced(k * g0, k * g1, k * g2, k * g3, x, y, q);
    let a = g3 + (-x) * g1 + (-y) * g2 + (x * y) * g0;
    lemma_mul_mod_noop_right(k, a, q);
    assert(k * a == k * g3 + (-x) * (k * g1) + (-y) * (k * g2) + (x * y) * (k * g0))
        by (nonlinear_arith)
        requires
            a == g3 + (-x) * g1 + (-y) * g2 + (x * y) * g0,
    ;
}

} // verus!
