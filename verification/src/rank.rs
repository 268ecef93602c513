//! Similarity ranking for the retrieval engine. Embeddings are fixed-point
//! vectors (scaled integers); the cosine similarity of two vectors is their
//! dot product scaled and divided by the integer square root of the product
//! of their squared norms, with a zero norm scoring zero. Hits are ranked by
//! descending score, stable on ties in original ingestion order.

use vstd::prelude::*;
use vstd::arithmetic::div_mod::lemma_fundamental_div_mod;
use vstd::multiset::Multiset;

verus! {

/// One retrieval hit: a chunk's text and its similarity score, in units of
/// one millionth.
pub struct RagHit {
    pub text: String,
    pub score: i128,
}

/// Fixed-point scale of similarity scores: a score of `SCALE` is a cosine of
/// one.
pub const SCALE: i64 = 1000000;

/// Largest magnitude an embedding component may have.
pub const MAX_COMPONENT: i64 = 1000000;

/// Largest embedding dimension.
pub const MAX_DIM: usize = 1000000;

/// An embedding vector the ranking accepts: bounded dimension and bounded
/// components, so that no intermediate product overflows.
pub open spec fn bounded_vec(v: Seq<i64>) -> bool {
    v.len() <= MAX_DIM && forall|i: int|
        0 <= i < v.len() ==> -MAX_COMPONENT <= #[trigger] v[i] <= MAX_COMPONENT
}

/// Dot product of the first `n` components.
pub open spec fn dot_spec(a: Seq<i64>, b: Seq<i64>, n: int) -> int
    decreases n,
{
    if n <= 0 {
        0
    } else {
        dot_spec(a, b, n - 1) + a[n - 1] * b[n - 1]
    }
}

/// The integer square root: the unique `r` with `r*r <= x < (r+1)*(r+1)`.
pub open spec fn spec_isqrt(x: int) -> int {
    choose|r: int| 0 <= r && #[trigger] (r * r) <= x && (r + 1) * (r + 1) > x
}

/// Any `r` with the square-root property is the integer square root.
pub proof fn lemma_isqrt_is(x: int, r: int)
    requires
        0 <= r,
        r * r <= x,
        (r + 1) * (r + 1) > x,
    ensures
        spec_isqrt(x) == r,
{
    assert(exists|c: int| 0 <= c && #[trigger] (c * c) <= x && (c + 1) * (c + 1) > x) by {
        assert(0 <= r && r * r <= x && (r + 1) * (r + 1) > x);
    }
    let c = spec_isqrt(x);
    assert(0 <= c && c * c <= x && (c + 1) * (c + 1) > x);
    if c < r {
        assert((c + 1) * (c + 1) <= r * r) by (nonlinear_arith)
            requires
                0 <= c,
                c < r,
        ;
        assert(false);
    }
    if r < c {
        assert((r + 1) * (r + 1) <= c * c) by (nonlinear_arith)
            requires
                0 <= r,
                r < c,
        ;
        assert(false);
    }
}

/// An integer square root exists for every non-negative value.
pub proof fn lemma_isqrt_exists(x: int)
    requires
        x >= 0,
    ensures
        exists|r: int| 0 <= r && #[trigger] (r * r) <= x && (r + 1) * (r + 1) > x,
        spec_isqrt(x) >= 0,
        spec_isqrt(x) * spec_isqrt(x) <= x,
        (spec_isqrt(x) + 1) * (spec_isqrt(x) + 1) > x,
    decreases x,
{
    if x == 0 {
        assert(0 <= 0 && #[trigger] (0 * 0) <= x && (0 + 1) * (0 + 1) > x) by (nonlinear_arith)
            requires
                x == 0,
        ;
    } else {
        lemma_isqrt_exists(x - 1);
        let r = spec_isqrt(x - 1);
        if (r + 1) * (r + 1) <= x {
            assert((r + 1) * (r + 1) > x - 1);
            assert(((r + 1) + 1) * ((r + 1) + 1) > x) by (nonlinear_arith)
                requires
                    r >= 0,
                    (r + 1) * (r + 1) > x - 1,
                    (r + 1) * (r + 1) <= x,
            ;
            assert(0 <= r + 1 && #[trigger] ((r + 1) * (r + 1)) <= x && ((r + 1) + 1) * ((r + 1)
                + 1) > x);
        } else {
            assert(0 <= r && #[trigger] (r * r) <= x && (r + 1) * (r + 1) > x);
        }
    }
}

/// Truncating division for a possibly negative numerator and a positive
/// denominator, as the executable code computes it.
pub open spec fn div_trunc(a: int, b: int) -> int {
    if a >= 0 {
        a / b
    } else {
        -((-a) / b)
    }
}

/// The similarity score of a query and a stored vector: the dot product over
/// the common prefix, scaled by `SCALE` and divided by the integer square
/// root of the product of the squared norms; zero where either norm is zero.
pub open spec fn spec_score(q: Seq<i64>, v: Seq<i64>) -> int {
    let n = if q.len() <= v.len() {
        q.len() as int
    } else {
        v.len() as int
    };
    let d = dot_spec(q, v, n);
    let nq = dot_spec(q, q, n);
    let nv = dot_spec(v, v, n);
    if nq == 0 || nv == 0 {
        0
    } else {
        div_trunc(d * (SCALE as int), spec_isqrt(nq * nv))
    }
}

/// Integer square root by binary search.
fn isqrt_u128(x: u128) -> (r: u128)
    requires
        x < 0x10000000000000000000000000000000,  // below 2^124
    ensures
        (r as int) * (r as int) <= x as int,
        ((r as int) + 1) * ((r as int) + 1) > x as int,
{
    if x == 0 {
        return 0;
    }
    let mut lo: u128 = 0;
    let mut hi: u128 = 0x4000000000000000;  // 2^62
    proof {
        assert((0x4000000000000000 as int) * (0x4000000000000000 as int) > x as int)
            by (nonlinear_arith)
            requires
                x < 0x10000000000000000000000000000000,
        ;
    }
    while lo + 1 < hi
        invariant
            lo < hi,
            hi <= 0x4000000000000000,
            (lo as int) * (lo as int) <= x as int,
            (hi as int) * (hi as int) > x as int,
        decreases hi - lo,
    {
        let mid = lo + (hi - lo) / 2;
        proof {
            assert((mid as int) * (mid as int) < 0x10000000000000000000000000000000)
                by (nonlinear_arith)
                requires
                    mid < 0x4000000000000000,
            ;
        }
        let sq = mid * mid;
        if sq <= x {
            lo = mid;
        } else {
            hi = mid;
        }
    }
    lo
}

/// The bound every partial dot product of bounded vectors satisfies.
proof fn lemma_dot_bound(a: Seq<i64>, b: Seq<i64>, n: int)
    requires
        bounded_vec(a),
        bounded_vec(b),
        0 <= n <= a.len(),
        n <= b.len(),
    ensures
        -(n * 1000000000000) <= dot_spec(a, b, n) <= n * 1000000000000,
    decreases n,
{
    if n > 0 {
        lemma_dot_bound(a, b, n - 1);
        assert(-1000000000000 <= a[n - 1] * b[n - 1] <= 1000000000000) by (nonlinear_arith)
            requires
                -1000000 <= a[n - 1] <= 1000000,
                -1000000 <= b[n - 1] <= 1000000,
        ;
        assert((n - 1) * 1000000000000 + 1000000000000 == n * 1000000000000) by (nonlinear_arith);
    }
}

/// A dot product of a bounded vector with itself is non-negative.
proof fn lemma_norm_nonneg(a: Seq<i64>, n: int)
    requires
        0 <= n <= a.len(),
    ensures
        dot_spec(a, a, n) >= 0,
    decreases n,
{
    if n > 0 {
        lemma_norm_nonneg(a, n - 1);
        assert(a[n - 1] * a[n - 1] >= 0) by (nonlinear_arith);
    }
}

/// The similarity score of two embedding vectors.
pub fn cosine_score(q: &Vec<i64>, v: &Vec<i64>) -> (r: i128)
    requires
        bounded_vec(q@),
        bounded_vec(v@),
    ensures
        r as int == spec_score(q@, v@),
{
    let n = if q.len() <= v.len() {
        q.len()
    } else {
        v.len()
    };
    let mut d: i64 = 0;
    let mut nq: i64 = 0;
    let mut nv: i64 = 0;
    let mut i: usize = 0;
    while i < n
        invariant
            i <= n,
            n <= q@.len(),
            n <= v@.len(),
            n == if q@.len() <= v@.len() {
                q@.len() as int
            } else {
                v@.len() as int
            },
            bounded_vec(q@),
            bounded_vec(v@),
            d == dot_spec(q@, v@, i as int),
            nq == dot_spec(q@, q@, i as int),
            nv == dot_spec(v@, v@, i as int),
        decreases n - i,
    {
        proof {
            lemma_dot_bound(q@, v@, i as int);
            lemma_dot_bound(q@, q@, i as int);
            lemma_dot_bound(v@, v@, i as int);
            assert(-1000000000000 <= q@[i as int] * v@[i as int] <= 1000000000000)
                by (nonlinear_arith)
                requires
                    -1000000 <= q@[i as int] <= 1000000,
                    -1000000 <= v@[i as int] <= 1000000,
            ;
            assert(-1000000000000 <= q@[i as int] * q@[i as int] <= 1000000000000)
                by (nonlinear_arith)
                requires
                    -1000000 <= q@[i as int] <= 1000000,
            ;
            assert(-1000000000000 <= v@[i as int] * v@[i as int] <= 1000000000000)
                by (nonlinear_arith)
                requires
                    -1000000 <= v@[i as int] <= 1000000,
            ;
            assert((i as int) * 1000000000000 + 1000000000000 <= 1000000 * 1000000000000)
                by (nonlinear_arith)
                requires
                    i < 1000000,
            ;
            assert(-((i as int) * 1000000000000) - 1000000000000 >= -(1000000 * 1000000000000))
                by (nonlinear_arith)
                requires
                    i < 1000000,
            ;
        }
        d = d + q[i] * v[i];
        nq = nq + q[i] * q[i];
        nv = nv + v[i] * v[i];
        i += 1;
    }
    proof {
        lemma_norm_nonneg(q@, n as int);
        lemma_norm_nonneg(v@, n as int);
        lemma_dot_bound(q@, q@, n as int);
        lemma_dot_bound(v@, v@, n as int);
        lemma_dot_bound(q@, v@, n as int);
        assert((n as int) * 1000000000000 <= 1000000000000000000) by (nonlinear_arith)
            requires
                n <= 1000000,
        ;
    }
    if nq == 0 || nv == 0 {
        return 0;
    }
    proof {
        assert((nq as int) * (nv as int) < 0x10000000000000000000000000000000)
            by (nonlinear_arith)
            requires
                0 <= nq as int <= 1000000000000000000,
                0 <= nv as int <= 1000000000000000000,
        ;
    }
    let prod: i128 = (nq as i128) * (nv as i128);
    proof {
        assert((nq as int) * (nv as int) >= 1) by (nonlinear_arith)
            requires
                nq as int >= 1,
                nv as int >= 1,
        ;
    }
    let s = isqrt_u128(prod as u128);
    proof {
        lemma_isqrt_is((nq as int) * (nv as int), s as int);
        assert(s as int >= 1) by (nonlinear_arith)
            requires
                (s as int) * (s as int) <= (nq as int) * (nv as int),
                ((s as int) + 1) * ((s as int) + 1) > (nq as int) * (nv as int),
                (nq as int) * (nv as int) >= 1,
        ;
    }
    let mag: u128 = if d >= 0 {
        (d as u128) * (SCALE as u128)
    } else {
        let dm: u128 = if d == i64::MIN {
            9223372036854775808u128
        } else {
            (-d) as u128
        };
        dm * (SCALE as u128)
    };
    proof {
        assert((1000000000000000000 as int) * (1000000 as int)
            < 0x80000000000000000000000000000000) by (nonlinear_arith);
        if d >= 0 {
            assert((d as int) * (1000000 as int) <= (1000000000000000000 as int) * (1000000 as int))
                by (nonlinear_arith)
                requires
                    0 <= d as int <= 1000000000000000000,
            ;
        } else {
            assert((-(d as int)) * (1000000 as int) <= (1000000000000000000 as int) * (
            1000000 as int)) by (nonlinear_arith)
                requires
                    0 <= -(d as int) <= 1000000000000000000,
            ;
        }
    }
    let quot: u128 = mag / (s as u128);
    proof {
        assert(quot as int <= mag as int) by {
            vstd::arithmetic::div_mod::lemma_div_nonincreasing(mag as int, s as int);
        }
    }
    if d >= 0 {
        quot as i128
    } else {
        -(quot as i128)
    }
}


/// The ranking order on (index, score) pairs: higher scores first, and
/// among equal scores the smaller original index first.
pub open spec fn pair_le(a: (usize, i128), b: (usize, i128)) -> bool {
    a.1 > b.1 || (a.1 == b.1 && a.0 <= b.0)
}

/// Sorted by descending score, stable on ties.
pub open spec fn sorted_desc(s: Seq<(usize, i128)>) -> bool {
    forall|i: int, j: int| 0 <= i < j < s.len() ==> pair_le(#[trigger] s[i], #[trigger] s[j])
}

fn pair_le_exec(a: (usize, i128), b: (usize, i128)) -> (r: bool)
    ensures
        r == pair_le(a, b),
{
    a.1 > b.1 || (a.1 == b.1 && a.0 <= b.0)
}

/// Sorts pairs by descending score, stable on ties: the result is the
/// ordered permutation of the input.
fn sort_pairs(v: Vec<(usize, i128)>) -> (r: Vec<(usize, i128)>)
    ensures
        sorted_desc(r@),
        r@.to_multiset() == v@.to_multiset(),
        r@.len() == v@.len(),
{
    let mut rest = v;
    let mut out: Vec<(usize, i128)> = Vec::new();
    let ghost whole = rest@.to_multiset();
    proof {
        assert forall|e: (usize, i128)| true implies out@.to_multiset().add(
            rest@.to_multiset(),
        ).count(e) == whole.count(e) by {
            vstd::seq_lib::to_multiset_contains(out@, e);
        }
        assert(out@.to_multiset().add(rest@.to_multiset()) =~= whole);
    }
    while rest.len() > 0
        invariant
            sorted_desc(out@),
            out@.to_multiset().add(rest@.to_multiset()) == whole,
            whole == v@.to_multiset(),
            out@.len() + rest@.len() == v@.len(),
            forall|a: int, b: int|
                0 <= a < out@.len() && 0 <= b < rest@.len() ==> pair_le(
                    #[trigger] out@[a],
                    #[trigger] rest@[b],
                ),
        decreases rest@.len(),
    {
        let mut m: usize = 0;
        let mut j: usize = 1;
        while j < rest.len()
            invariant
                m < j <= rest@.len() || (j <= rest@.len() && m == 0),
                m < rest@.len(),
                rest@.len() > 0,
                forall|jj: int| 0 <= jj < j ==> pair_le(rest@[m as int], #[trigger] rest@[jj]),
            decreases rest@.len() - j,
        {
            if !pair_le_exec(rest[m], rest[j]) {
                m = j;
            }
            j += 1;
        }
        let ghost rest_before = rest@;
        let x = rest.remove(m);
        proof {
            assert(rest_before[m as int] == x);
            assert(rest_before.contains(x));
            vstd::seq_lib::to_multiset_contains(rest_before, x);
            vstd::seq_lib::to_multiset_remove(rest_before, m as int);
            assert(rest@.to_multiset() == rest_before.to_multiset().remove(x));
        }
        let ghost out_before = out@;
        out.push(x);
        proof {
            vstd::seq_lib::to_multiset_build(out_before, x);
            assert(out@.to_multiset() =~= out_before.to_multiset().insert(x));
            assert(out@.to_multiset().add(rest@.to_multiset()) =~= whole) by {
                assert forall|e: (usize, i128)| true implies out@.to_multiset().add(
                    rest@.to_multiset(),
                ).count(e) == whole.count(e) by {
                    vstd::seq_lib::to_multiset_contains(rest_before, e);
                    assert(out_before.to_multiset().add(rest_before.to_multiset()).count(e)
                        == whole.count(e));
                }
            }
            assert forall|a: int, b: int|
                0 <= a < out@.len() && 0 <= b < rest@.len() implies pair_le(
                out@[a],
                rest@[b],
            ) by {
                assert(rest@[b] == if b < m as int {
                    rest_before[b]
                } else {
                    rest_before[b + 1]
                });
                if a < out_before.len() {
                    assert(pair_le(out_before[a], rest_before[if b < m as int {
                        b
                    } else {
                        b + 1
                    }]));
                } else {
                    assert(out@[a] == x);
                    assert(pair_le(rest_before[m as int], rest_before[if b < m as int {
                        b
                    } else {
                        b + 1
                    }]));
                }
            }
            assert(sorted_desc(out@)) by {
                assert forall|i: int, k: int| 0 <= i < k < out@.len() implies pair_le(
                    out@[i],
                    out@[k],
                ) by {
                    if k < out@.len() - 1 {
                        assert(pair_le(out_before[i], out_before[k]));
                    } else {
                        assert(out@[k] == x);
                        assert(pair_le(out_before[i], rest_before[m as int]));
                    }
                }
            }
        }
    }
    proof {
        vstd::seq_lib::to_multiset_len(rest@);
        assert(rest@.to_multiset() =~= Multiset::<(usize, i128)>::empty());
        assert(out@.to_multiset() =~= whole);
    }
    out
}

/// The (index, score) pairs of a query against a store of embeddings, in
/// ingestion order.
pub open spec fn pair_seq(q: Seq<i64>, es: Seq<Vec<i64>>) -> Seq<(usize, i128)> {
    Seq::new(es.len(), |i: int| (i as usize, spec_score(q, es[i]@) as i128))
}

/// All stored embeddings are acceptable vectors.
pub open spec fn bounded_store(es: Seq<Vec<i64>>) -> bool {
    forall|i: int| 0 <= i < es.len() ==> bounded_vec(#[trigger] es[i]@)
}

/// Ranks the stored chunks against a query embedding and returns the top `k`
/// hits: the chunks' texts with their scores, by descending score, stable on
/// ties in ingestion order. `k` of zero, or an empty store, yields an empty
/// result.
pub fn rank_hits(chunks: &Vec<String>, embeds: &Vec<Vec<i64>>, query: &Vec<i64>, k: usize) -> (r:
    Vec<RagHit>)
    requires
        embeds@.len() == chunks@.len(),
        bounded_store(embeds@),
        bounded_vec(query@),
    ensures
        r@.len() == if k <= embeds@.len() {
            k as int
        } else {
            embeds@.len() as int
        },
        exists|sorted: Seq<(usize, i128)>|
            {
                &&& sorted.len() == embeds@.len()
                &&& #[trigger] sorted.to_multiset() == pair_seq(query@, embeds@).to_multiset()
                &&& sorted_desc(sorted)
                &&& forall|a: int|
                    0 <= a < r@.len() ==> sorted[a].0 < chunks@.len() && (#[trigger] r@[a]).text@
                        == chunks@[sorted[a].0 as int]@ && r@[a].score == sorted[a].1
            },
{
    let n = embeds.len();
    let mut pairs: Vec<(usize, i128)> = Vec::new();
    let mut i: usize = 0;
    while i < n
        invariant
            i <= n,
            n == embeds@.len(),
            bounded_store(embeds@),
            bounded_vec(query@),
            pairs@ == pair_seq(query@, embeds@).take(i as int),
        decreases n - i,
    {
        let score = cosine_score(query, &embeds[i]);
        pairs.push((i, score));
        proof {
            assert(pairs@ =~= pair_seq(query@, embeds@).take(i as int + 1));
        }
        i += 1;
    }
    proof {
        assert(pair_seq(query@, embeds@).take(n as int) =~= pair_seq(query@, embeds@));
    }
    let sorted_vec = sort_pairs(pairs);
    let ghost sorted = sorted_vec@;
    let count = if k <= n {
        k
    } else {
        n
    };
    let mut r: Vec<RagHit> = Vec::new();
    let mut a: usize = 0;
    while a < count
        invariant
            a <= count,
            count <= n,
            n == embeds@.len() == chunks@.len(),
            sorted == sorted_vec@,
            sorted.len() == n,
            sorted.to_multiset() == pair_seq(query@, embeds@).to_multiset(),
            r@.len() == a,
            forall|b: int| 0 <= b < a ==> (#[trigger] sorted[b]).0 < chunks@.len(),
            forall|b: int|
                0 <= b < a ==> (#[trigger] r@[b]).text@ == chunks@[sorted[b].0 as int]@,
            forall|b: int| 0 <= b < a ==> (#[trigger] r@[b]).score == sorted[b].1,
        decreases count - a,
    {
        proof {
            lemma_pair_index_in_range(sorted, pair_seq(query@, embeds@), a as int);
        }
        let idx = sorted_vec[a].0;
        let ghost r_before = r@;
        let text = chunks[idx].clone();
        proof {
            assert(text@ == chunks@[idx as int]@);
        }
        r.push(RagHit { text, score: sorted_vec[a].1 });
        proof {
            assert forall|b: int|
                0 <= b < a as int + 1 implies sorted[b].0 < chunks@.len() && (#[trigger] r@[b]).text@
                == chunks@[sorted[b].0 as int]@ && r@[b].score == sorted[b].1 by {
                if b < a as int {
                    assert(r@[b] == r_before[b]);
                } else {
                    assert(r@[b] == r@[a as int]);
                }
            }
        }
        a += 1;
    }
    r
}

/// Every pair of the sorted permutation carries an index inside the store.
proof fn lemma_pair_index_in_range(sorted: Seq<(usize, i128)>, pairs: Seq<(usize, i128)>, a: int)
    requires
        sorted.to_multiset() == pairs.to_multiset(),
        forall|j: int| 0 <= j < pairs.len() ==> (#[trigger] pairs[j]).0 == j as usize,
        0 <= a < sorted.len(),
    ensures
        (sorted[a].0 as int) < pairs.len(),
{
    let x = sorted[a];
    assert(sorted.contains(x));
    vstd::seq_lib::to_multiset_contains(sorted, x);
    vstd::seq_lib::to_multiset_contains(pairs, x);
    assert(sorted.to_multiset().count(x) > 0);
    assert(pairs.to_multiset().count(x) > 0);
    assert(pairs.contains(x));
    let j = choose|j: int| 0 <= j < pairs.len() && pairs[j] == x;
    assert(x.0 == j as usize);
}

/// LAW. A vector identical to the query (with a nonzero norm) scores exactly
/// `SCALE`: the fixed-point cosine of one.
pub proof fn lemma_score_identical(v: Seq<i64>)
    requires
        bounded_vec(v),
        dot_spec(v, v, v.len() as int) > 0,
    ensures
        spec_score(v, v) == SCALE as int,
{
    let n = v.len() as int;
    let s = dot_spec(v, v, n);
    assert(s * s >= 0) by (nonlinear_arith);
    assert((s + 1) * (s + 1) > s * s) by (nonlinear_arith)
        requires
            s > 0,
    ;
    lemma_isqrt_is(s * s, s);
    assert(div_trunc(s * (SCALE as int), s) == SCALE as int) by {
        lemma_mul_div_self(s, SCALE as int);
        assert(s * (SCALE as int) >= 0) by (nonlinear_arith)
            requires
                s > 0,
        ;
    }
}

/// `(a*b)/a == b` for positive `a`.
proof fn lemma_mul_div_self(a: int, b: int)
    requires
        a > 0,
        b >= 0,
    ensures
        (a * b) / a == b,
{
    lemma_fundamental_div_mod(a * b, a);
    vstd::arithmetic::div_mod::lemma_mod_multiples_basic(b, a);
    assert(b * a == a * b) by (nonlinear_arith);
    assert(a * ((a * b) / a) == a * b);
    assert((a * b) / a == b) by (nonlinear_arith)
        requires
            a > 0,
            a * ((a * b) / a) == a * b,
    ;
}

/// LAW. A vector orthogonal to the query scores exactly zero, as does one
/// with a zero norm.
pub proof fn lemma_score_orthogonal(q: Seq<i64>, v: Seq<i64>)
    requires
        dot_spec(q, v, if q.len() <= v.len() {
            q.len() as int
        } else {
            v.len() as int
        }) == 0,
    ensures
        spec_score(q, v) == 0,
{
    let n = if q.len() <= v.len() {
        q.len() as int
    } else {
        v.len() as int
    };
    let nq = dot_spec(q, q, n);
    let nv = dot_spec(v, v, n);
    if nq != 0 && nv != 0 {
        lemma_norm_nonneg(q, n);
        lemma_norm_nonneg(v, n);
        assert(nq * nv >= 1) by (nonlinear_arith)
            requires
                nq >= 1,
                nv >= 1,
        ;
        lemma_isqrt_exists(nq * nv);
        let s = spec_isqrt(nq * nv);
        assert(s >= 1) by (nonlinear_arith)
            requires
                s >= 0,
                (s + 1) * (s + 1) > nq * nv,
                s * s <= nq * nv,
                nq * nv >= 1,
        ;
        assert(div_trunc(0 * (SCALE as int), s) == 0) by {
            assert(0 * (SCALE as int) == 0) by (nonlinear_arith);
            vstd::arithmetic::div_mod::lemma_div_of0(s);
        }
    }
}

} // verus!
