use vstd::prelude::*;
use vstd::arithmetic::div_mod::{
    lemma_add_mod_noop,
    lemma_add_mod_noop_right,
    lemma_small_mod,
    lemma_mul_mod_noop,
    lemma_mul_mod_noop_right,
    lemma_sub_mod_noop,
};
use crate::dlog::{in_range, lemma_recovered_exact, lemma_shift_residue, recovered};
use crate::plain::{lemma_fresh_opens, lemma_product_lifts, lemma_sum_opens, lifted, opened};
use crate::types::SheError;

verus! {

/// Adding ciphertexts is commutative: the logarithms of `x + y` are those of
/// `y + x`.
pub proof fn lemma_sum_commutes(a: int, b: int, q: int)
    ensures
        (a + b) % q == (b + a) % q,
{
}

/// Adding ciphertexts is associative: the logarithms of `(x + y) + z` are
/// those of `x + (y + z)`.
pub proof fn lemma_sum_associates(a: int, b: int, c: int, q: int)
    requires
        q > 0,
    ensures
        ((a + b) % q + c) % q == (a + (b + c) % q) % q,
{
    lemma_shift_residue(a + b, c, q);
    lemma_add_mod_noop_right(a, b + c, q);
}

/// Decrypting the sum of two ciphertexts that hold `m1` and `m2` gives
/// `m1 + m2`, where the sum lies within the bound.
pub proof fn lemma_sum_decrypts(
    outcome: Result<i64, SheError>,
    m1: int,
    m2: int,
    held1: int,
    held2: int,
    held: int,
    bound: int,
    q: int,
)
    requires
        2 * bound < q,
        held1 == m1 % q,
        held2 == m2 % q,
        held == (held1 + held2) % q,
        in_range(m1 + m2, bound),
        recovered(outcome, held, bound, q),
    ensures
        outcome matches Ok(v) && v == m1 + m2,
{
    lemma_add_mod_noop(m1, m2, q);
    lemma_recovered_exact(outcome, m1 + m2, held, bound, q);
}

/// Decrypting the difference of two ciphertexts that hold `m1` and `m2`
/// gives `m1 - m2`, where the difference lies within the bound.
pub proof fn lemma_difference_decrypts(
    outcome: Result<i64, SheError>,
    m1: int,
    m2: int,
    held1: int,
    held2: int,
    held: int,
    bound: int,
    q: int,
)
    requires
        2 * bound < q,
        held1 == m1 % q,
        held2 == m2 % q,
        held == (held1 - held2) % q,
        in_range(m1 - m2, bound),
        recovered(outcome, held, bound, q),
    ensures
        outcome matches Ok(v) && v == m1 - m2,
{
    lemma_sub_mod_noop(m1, m2, q);
    lemma_recovered_exact(outcome, m1 - m2, held, bound, q);
}

/// Decrypting the multiple by `k` of a ciphertext that holds `m` gives
/// `k * m`, where the multiple lies within the bound.
pub proof fn lemma_multiple_decrypts(
    outcome: Result<i64, SheError>,
    k: int,
    m: int,
    held1: int,
    held: int,
    bound: int,
    q: int,
)
    requires
        2 * bound < q,
        held1 == m % q,
        held == (k * held1) % q,
        in_range(k * m, bound),
        recovered(outcome, held, bound, q),
    ensures
        outcome matches Ok(v) && v == k * m,
{
    lemma_mul_mod_noop_right(k, m, q);
    lemma_recovered_exact(outcome, k * m, held, bound, q);
}

/// Decrypting the product of a ciphertext of the first group that holds
/// `m1` and one of the second group that holds `m2` gives `m1 * m2`, where
/// the product lies within the bound.
pub proof fn lemma_product_decrypts(
    outcome: Result<i64, SheError>,
    m1: int,
    m2: int,
    held1: int,
    held2: int,
    held: int,
    bound: int,
    q: int,
)
    requires
        2 * bound < q,
        held1 == m1 % q,
        held2 == m2 % q,
        held == (held1 * held2) % q,
        in_range(m1 * m2, bound),
        recovered(outcome, held, bound, q),
    ensures
        outcome matches Ok(v) && v == m1 * m2,
{
    lemma_mul_mod_noop(m1, m2, q);
    lemma_recovered_exact(outcome, m1 * m2, held, bound, q);
}

/// Under a secret scalar `other` that is not the one it was encrypted to, a
/// fresh ciphertext of `m` with blinding `k` holds `m + k (x - other)`.
pub proof fn lemma_foreign_key_opens(m: int, k: int, x: int, other: int, q: int)
    requires
        q > 0,
    ensures
        opened((m + k * x) % q, k, other, q) == (m + k * (x - other)) % q,
{
    lemma_shift_residue(m + k * x, -(other * k), q);
    assert(m + k * x - other * k == m + k * (x - other)) by (nonlinear_arith);
}

/// Under the secret scalar `x1`, the sum of a fresh ciphertext of `m1`
/// encrypted to `x1` and one of `m2` encrypted to `x2` holds
/// `m1 + m2 + k2 (x2 - x1)`.
pub proof fn lemma_mixed_sum_opens(
    m1: int,
    k1: int,
    x1: int,
    m2: int,
    k2: int,
    x2: int,
    q: int,
)
    requires
        q > 0,
    ensures
        opened(((m1 + k1 * x1) % q + (m2 + k2 * x2) % q) % q, (k1 + k2) % q, x1, q) == (m1 + m2 + k2
            * (x2 - x1)) % q,
{
    lemma_sum_opens((m1 + k1 * x1) % q, k1, (m2 + k2 * x2) % q, k2, x1, q);
    lemma_fresh_opens(m1, k1, x1, q);
    lemma_foreign_key_opens(m2, k2, x2, x1, q);
    lemma_add_mod_noop(m1, m2 + k2 * (x2 - x1), q);
}

/// Under the secret scalars `x` and `y1`, the product of a fresh ciphertext
/// of `m1` encrypted to `x` and one of `m2` encrypted to `y2` holds
/// `m1 (m2 + k2 (y2 - y1))`.
pub proof fn lemma_mixed_product_lifts(
    m1: int,
    k1: int,
    x: int,
    m2: int,
    k2: int,
    y2: int,
    y1: int,
    q: int,
)
    requires
        q > 0,
    ensures
        lifted(
            (k1 * k2) % q,
            (k1 * ((m2 + k2 * y2) % q)) % q,
            (((m1 + k1 * x) % q) * k2) % q,
            (((m1 + k1 * x) % q) * ((m2 + k2 * y2) % q)) % q,
            x,
            y1,
            q,
        ) == (m1 * (m2 + k2 * (y2 - y1))) % q,
{
    lemma_product_lifts(k1, (m1 + k1 * x) % q, k2, (m2 + k2 * y2) % q, x, y1, q);
    lemma_fresh_opens(m1, k1, x, q);
    lemma_foreign_key_opens(m2, k2, y2, y1, q);
    lemma_mul_mod_noop(m1, m2 + k2 * (y2 - y1), q);
}

/// Decrypting a ciphertext of `m` under a foreign secret scalar never
/// returns `m`, unless the blinding times the difference of the scalars is a
/// multiple of the order.
pub proof fn lemma_foreign_key_fails(
    outcome: Result<i64, SheError>,
    m: int,
    k: int,
    x: int,
    other: int,
    held: int,
    bound: int,
    q: int,
)
    requires
        q > 0,
        held == (m + k * (x - other)) % q,
        (k * (x - other)) % q != 0,
        recovered(outcome, held, bound, q),
    ensures
        !(outcome matches Ok(v) && v == m),
{
    match outcome {
        Ok(v) => {
            if v == m {
                let d = k * (x - other);
                assert(m % q == held);
                lemma_sub_mod_noop(m + d, m, q);
                lemma_small_mod(0, q as nat);
                assert((m + d - m) % q == d % q);
            }
        },
        Err(_) => {},
    }
}

} // verus!
