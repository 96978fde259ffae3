//! How a sequence of elements is cut into the pieces that chunk iteration
//! hands out: first the inline region, then one piece per chunk.

use vstd::prelude::*;

verus! {

/// Length of the inline piece of `n` elements.
pub open spec fn head_len(n: int, inline: int) -> int {
    if n < inline {
        n
    } else {
        inline
    }
}

/// Number of chunk pieces of `n` elements: the elements past the inline
/// region, `chunk` at a time, rounded up.
pub open spec fn page_count(n: int, inline: int, chunk: int) -> int {
    if chunk <= 0 {
        0
    } else {
        (n - head_len(n, inline) + chunk - 1) / chunk
    }
}

/// The `c`-th piece of at most `chunk` elements of `s`, counted from `start`.
pub open spec fn page<T>(s: Seq<T>, start: int, chunk: int, c: int) -> Seq<T> {
    let lo: int = start + c * chunk;
    let hi: int = if lo + chunk < s.len() {
        lo + chunk
    } else {
        s.len() as int
    };
    s.subrange(lo, hi)
}

/// The pieces of `s` in order: the inline piece when it is not empty, then
/// the chunk pieces.
pub open spec fn split_chunks<T>(s: Seq<T>, inline: int, chunk: int) -> Seq<Seq<T>> {
    let h: int = head_len(s.len() as int, inline);
    let pages = Seq::new(
        page_count(s.len() as int, inline, chunk) as nat,
        |c: int| page(s, h, chunk, c),
    );
    if h > 0 {
        seq![s.take(h)] + pages
    } else {
        pages
    }
}

/// `n` pieces of `chunk` elements cover `s` from `start` to its end exactly
/// when the last piece reaches the end.
pub proof fn lemma_pages_flatten<T>(s: Seq<T>, start: int, chunk: int, n: int)
    requires
        0 <= start <= s.len(),
        chunk > 0,
        0 <= n,
        n == 0 ==> start == s.len(),
        n > 0 ==> start + (n - 1) * chunk < s.len() <= start + n * chunk,
    ensures
        Seq::new(n as nat, |c: int| page(s, start, chunk, c)).flatten() == s.subrange(
            start,
            s.len() as int,
        ),
    decreases n,
{
    let pages = Seq::new(n as nat, |c: int| page(s, start, chunk, c));
    if n == 0 {
        assert(pages =~= Seq::<Seq<T>>::empty());
        assert(s.subrange(start, s.len() as int) =~= Seq::<T>::empty());
    } else {
        let rest = Seq::new((n - 1) as nat, |c: int| page(s, start + chunk, chunk, c));
        assert forall|c: int| 0 <= c < n - 1 implies #[trigger] pages.drop_first()[c]
            == rest[c] by {
            assert((c + 1) * chunk == c * chunk + chunk) by (nonlinear_arith);
        }
        assert(pages.drop_first() =~= rest);
        if n == 1 {
            assert(0 * chunk == 0) by (nonlinear_arith);
            assert(1 * chunk == chunk) by (nonlinear_arith);
            assert(rest =~= Seq::<Seq<T>>::empty());
            assert(pages.first() == s.subrange(start, s.len() as int));
            assert(pages.first() + rest.flatten() =~= s.subrange(start, s.len() as int));
        } else {
            assert((n - 1) * chunk == (n - 2) * chunk + chunk) by (nonlinear_arith);
            assert(n * chunk == (n - 1) * chunk + chunk) by (nonlinear_arith);
            assert(0 <= (n - 2) * chunk) by (nonlinear_arith)
                requires
                    n >= 2,
                    chunk > 0,
            ;
            lemma_pages_flatten(s, start + chunk, chunk, n - 1);
            assert(0 * chunk == 0) by (nonlinear_arith);
            assert(pages.first() == s.subrange(start, start + chunk));
            assert(pages.first() + rest.flatten() =~= s.subrange(start, s.len() as int));
        }
    }
}

/// The rounded-up count of pieces of `m > 0` elements leaves the last piece
/// non-empty and reaching the end.
pub proof fn lemma_page_count_bounds(m: int, chunk: int)
    requires
        m > 0,
        chunk > 0,
    ensures
        ((m + chunk - 1) / chunk - 1) * chunk < m <= ((m + chunk - 1) / chunk) * chunk,
        (m + chunk - 1) / chunk > 0,
{
    let x: int = m + chunk - 1;
    vstd::arithmetic::div_mod::lemma_fundamental_div_mod(x, chunk);
    vstd::arithmetic::div_mod::lemma_mod_pos_bound(x, chunk);
    let q: int = x / chunk;
    let r: int = x % chunk;
    assert((q - 1) * chunk < m <= q * chunk && q > 0) by (nonlinear_arith)
        requires
            x == chunk * q + r,
            0 <= r < chunk,
            x == m + chunk - 1,
            m > 0,
            chunk > 0,
    ;
}

/// The `d`-th piece stands in the concatenation right after the pieces
/// before it.
pub proof fn lemma_flatten_piece<T>(ps: Seq<Seq<T>>, d: int)
    requires
        0 <= d < ps.len(),
    ensures
        ps.take(d + 1).flatten() == ps.take(d).flatten() + ps[d],
        ps.take(d).flatten().len() + ps[d].len() <= ps.flatten().len(),
        ps.flatten().subrange(
            ps.take(d).flatten().len() as int,
            (ps.take(d).flatten().len() + ps[d].len()) as int,
        ) == ps[d],
{
    assert(ps.take(d + 1) =~= ps.take(d).push(ps[d]));
    ps.take(d).lemma_flatten_push(ps[d]);
    assert(ps =~= ps.take(d + 1) + ps.skip(d + 1));
    vstd::seq_lib::lemma_flatten_concat(ps.take(d + 1), ps.skip(d + 1));
    let pre = ps.take(d).flatten();
    assert(ps.flatten().subrange(pre.len() as int, (pre.len() + ps[d].len()) as int) =~= ps[d]);
}

/// Every piece is non-empty. The inline piece, when there is one, holds the
/// first `min(len, inline)` elements; every chunk piece holds at most `chunk`
/// elements, and every chunk piece but the last holds exactly `chunk`.
pub proof fn lemma_split_chunks_shape<T>(s: Seq<T>, inline: int, chunk: int)
    requires
        0 <= inline,
        chunk > 0 || s.len() <= inline,
    ensures
        ({
            let pieces = split_chunks(s, inline, chunk);
            let h: int = head_len(s.len() as int, inline);
            let first: int = if h > 0 {
                1int
            } else {
                0int
            };
            &&& pieces.len() == first + page_count(s.len() as int, inline, chunk)
            &&& forall|k: int| 0 <= k < pieces.len() ==> #[trigger] pieces[k].len() > 0
            &&& h > 0 ==> pieces[0] == s.take(h)
            &&& forall|k: int|
                first <= k < pieces.len() ==> #[trigger] pieces[k].len() <= chunk
            &&& forall|k: int|
                first <= k < pieces.len() - 1 ==> #[trigger] pieces[k].len() == chunk
        }),
{
    let n: int = s.len() as int;
    let h: int = head_len(n, inline);
    let pc: int = page_count(n, inline, chunk);
    let pieces = split_chunks(s, inline, chunk);
    let first: int = if h > 0 {
        1int
    } else {
        0int
    };
    if chunk > 0 && n - h > 0 {
        lemma_page_count_bounds(n - h, chunk);
        assert forall|c: int| #![trigger page(s, h, chunk, c)] 0 <= c < pc implies {
            &&& h + c * chunk < n
            &&& (c < pc - 1 ==> h + c * chunk + chunk < n)
        } by {
            assert(c * chunk <= (pc - 1) * chunk) by (nonlinear_arith)
                requires
                    c <= pc - 1,
                    chunk > 0,
            ;
            if c < pc - 1 {
                assert((c + 1) * chunk <= (pc - 1) * chunk) by (nonlinear_arith)
                    requires
                        c + 1 <= pc - 1,
                        chunk > 0,
                ;
                assert((c + 1) * chunk == c * chunk + chunk) by (nonlinear_arith);
            }
            assert(0 <= c * chunk) by (nonlinear_arith)
                requires
                    0 <= c,
                    chunk > 0,
            ;
        }
    } else if chunk > 0 {
        assert((chunk - 1) / chunk == 0) by (nonlinear_arith)
            requires
                chunk > 0,
        ;
    }
    assert forall|k: int| 0 <= k < pieces.len() implies {
        &&& #[trigger] pieces[k].len() > 0
        &&& first <= k ==> pieces[k].len() <= chunk
        &&& first <= k < pieces.len() - 1 ==> pieces[k].len() == chunk
    } by {
        if k >= first {
            let c: int = k - first;
            assert(pieces[k] == page(s, h, chunk, c));
        }
    }
}

/// Concatenating the pieces gives back `s`.
pub proof fn lemma_split_chunks_flatten<T>(s: Seq<T>, inline: int, chunk: int)
    requires
        0 <= inline,
        chunk > 0 || s.len() <= inline,
    ensures
        split_chunks(s, inline, chunk).flatten() == s,
{
    let n: int = s.len() as int;
    let h: int = head_len(n, inline);
    let pc: int = page_count(n, inline, chunk);
    let pages = Seq::new(pc as nat, |c: int| page(s, h, chunk, c));
    if chunk > 0 {
        if n - h > 0 {
            lemma_page_count_bounds(n - h, chunk);
        } else {
            assert((chunk - 1) / chunk == 0) by (nonlinear_arith)
                requires
                    chunk > 0,
            ;
        }
    }
    if chunk > 0 && n - h > 0 {
        lemma_pages_flatten(s, h, chunk, pc);
    } else {
        lemma_pages_flatten(s, h, 1, 0);
        assert(pages =~= Seq::new(0, |c: int| page(s, h, 1, c)));
    }
    if h > 0 {
        let parts = seq![s.take(h)] + pages;
        assert(parts.drop_first() =~= pages);
        assert(parts.flatten() == s.take(h) + pages.flatten());
        assert(s.take(h) + s.subrange(h, n) =~= s);
    } else {
        assert(s.subrange(0, n) =~= s);
    }
}

} // verus!
