//! Division facts about splitting a paged index into a chunk index and an offset.

use vstd::prelude::*;

verus! {

/// `p` split by `k` gives back `(q, r)` whenever `p == q * k + r` with `0 <= r < k`.
pub proof fn lemma_split_exact(p: int, k: int, q: int, r: int)
    requires
        k > 0,
        0 <= r < k,
        p == q * k + r,
    ensures
        p / k == q,
        p % k == r,
{
    vstd::arithmetic::div_mod::lemma_fundamental_div_mod_converse(p, k, q, r);
}

/// A paged index below the tail `q * k + r` lies in an earlier chunk, or in the
/// tail chunk before the tail offset.
pub proof fn lemma_locate(p: int, k: int, q: int, r: int)
    requires
        k > 0,
        0 <= r < k,
        0 <= q,
        0 <= p < q * k + r,
    ensures
        0 <= p / k,
        0 <= p % k < k,
        p / k < q || (p / k == q && p % k < r),
{
    vstd::arithmetic::div_mod::lemma_fundamental_div_mod(p, k);
    vstd::arithmetic::div_mod::lemma_mod_pos_bound(p, k);
    vstd::arithmetic::div_mod::lemma_div_pos_is_pos(p, k);
    let d: int = p / k;
    let m: int = p % k;
    assert(d < q || (d == q && m < r)) by (nonlinear_arith)
        requires
            p == k * d + m,
            0 <= m < k,
            0 <= d,
            k > 0,
            0 <= r < k,
            p < q * k + r,
    ;
}

/// Chunk index and offset of the paged index `c * k + o`.
pub proof fn lemma_chunk_slot(c: int, k: int, o: int)
    requires
        k > 0,
        0 <= o < k,
    ensures
        (c * k + o) / k == c,
        (c * k + o) % k == o,
{
    lemma_split_exact(c * k + o, k, c, o);
}

/// `(c + 1) * k == c * k + k`.
pub proof fn lemma_next_multiple(c: int, k: int)
    ensures
        (c + 1) * k == c * k + k,
{
    assert((c + 1) * k == c * k + k) by (nonlinear_arith);
}

/// Multiplying by a positive `k` keeps the order of chunk indices.
pub proof fn lemma_mul_le(a: int, b: int, k: int)
    requires
        0 <= k,
        a <= b,
    ensures
        a * k <= b * k,
{
    assert(a * k <= b * k) by (nonlinear_arith)
        requires
            0 <= k,
            a <= b,
    ;
}

} // verus!
