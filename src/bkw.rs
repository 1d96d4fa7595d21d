//! The partition reduction of Blum, Kalai and Wasserman, and the majority
//! solver that finishes it.
use vstd::prelude::*;
use rayon::iter::IntoParallelRefMutIterator;
use rayon::iter::ParallelIterator;
use rayon::slice::ParallelSliceMut;
use crate::bits::{low_mask, window, window_of};
use crate::oracle::{lemma_sample_xor_linear, noise, sample_fits, sample_xor, LpnOracle, Sample};
use crate::vector::BinVector;

verus! {

/// Why a BKW run stops without a secret.
#[derive(Clone, Copy, Debug, PartialEq, Eq, Structural)]
pub enum BkwError {
    /// The parameters do not fit the instance: no iteration, windows wider
    /// than the dimension, or more than 20 dimensions left for majority.
    Configuration,
    /// Some unit vector has no sample, so majority cannot decide its bit.
    InsufficientSamples,
}

/// The value of a sample's vector on the window of `b` bits at `lo`.
pub open spec fn key(q: Sample, lo: nat, b: nat) -> u64 {
    window(q.a, lo as u64, b as u64)
}

/// `2^b` as an integer.
pub open spec fn buckets(b: nat) -> nat {
    (1u64 << (b as u64)) as nat
}

/// The number of `true` entries.
pub open spec fn count_true(s: Seq<bool>) -> nat
    decreases s.len(),
{
    if s.len() == 0 {
        0
    } else {
        (if s[0] {
            1nat
        } else {
            0nat
        }) + count_true(s.drop_first())
    }
}

/// The number of `Some` entries.
pub open spec fn count_some(s: Seq<Option<usize>>) -> nat
    decreases s.len(),
{
    if s.len() == 0 {
        0
    } else {
        (if s[0] is Some {
            1nat
        } else {
            0nat
        }) + count_some(s.drop_first())
    }
}

pub proof fn lemma_count_true_update(s: Seq<bool>, i: int)
    requires
        0 <= i < s.len(),
        !s[i],
    ensures
        count_true(s.update(i, true)) == count_true(s) + 1,
        count_true(s) <= s.len(),
    decreases s.len(),
{
    lemma_count_true_bound(s);
    if i > 0 {
        lemma_count_true_update(s.drop_first(), i - 1);
        assert(s.update(i, true).drop_first() =~= s.drop_first().update(i - 1, true));
    } else {
        assert(s.update(i, true).drop_first() =~= s.drop_first());
    }
}

pub proof fn lemma_count_true_bound(s: Seq<bool>)
    ensures
        count_true(s) <= s.len(),
    decreases s.len(),
{
    if s.len() > 0 {
        lemma_count_true_bound(s.drop_first());
    }
}

/// A count equal to the length means every entry is `true`.
pub proof fn lemma_count_true_full(s: Seq<bool>)
    ensures
        count_true(s) == s.len() ==> forall|i: int| 0 <= i < s.len() ==> #[trigger] s[i],
    decreases s.len(),
{
    if s.len() > 0 {
        lemma_count_true_full(s.drop_first());
        lemma_count_true_bound(s.drop_first());
        if count_true(s) == s.len() {
            assert forall|i: int| 0 <= i < s.len() implies #[trigger] s[i] by {
                if i > 0 {
                    assert(s.drop_first()[i - 1] == s[i]);
                }
            }
        }
    }
}

/// With every entry `true`, the count is the length.
pub proof fn lemma_count_true_all_true(s: Seq<bool>)
    requires
        forall|i: int| 0 <= i < s.len() ==> #[trigger] s[i],
    ensures
        count_true(s) == s.len(),
    decreases s.len(),
{
    if s.len() > 0 {
        assert forall|i: int| 0 <= i < s.drop_first().len() implies #[trigger] s.drop_first()[i] by {
            assert(s.drop_first()[i] == s[i + 1]);
        }
        lemma_count_true_all_true(s.drop_first());
    }
}

pub proof fn lemma_count_true_all_false(s: Seq<bool>)
    requires
        forall|i: int| 0 <= i < s.len() ==> !s[i],
    ensures
        count_true(s) == 0,
    decreases s.len(),
{
    if s.len() > 0 {
        lemma_count_true_all_false(s.drop_first());
    }
}

proof fn lemma_count_some_update(s: Seq<Option<usize>>, i: int, v: usize)
    requires
        0 <= i < s.len(),
        s[i] is None,
    ensures
        count_some(s.update(i, Some(v))) == count_some(s) + 1,
    decreases s.len(),
{
    if i > 0 {
        lemma_count_some_update(s.drop_first(), i - 1, v);
        assert(s.update(i, Some(v)).drop_first() =~= s.drop_first().update(i - 1, Some(v)));
    } else {
        assert(s.update(i, Some(v)).drop_first() =~= s.drop_first());
    }
}

proof fn lemma_count_some_bounds(s: Seq<Option<usize>>)
    ensures
        count_some(s) <= s.len(),
        (forall|i: int| 0 <= i < s.len() ==> s[i] is Some) ==> count_some(s) == s.len(),
        (forall|i: int| 0 <= i < s.len() ==> s[i] is None) ==> count_some(s) == 0,
    decreases s.len(),
{
    if s.len() > 0 {
        lemma_count_some_bounds(s.drop_first());
        assert forall|i: int| 0 <= i < s.drop_first().len() implies s.drop_first()[i] == s[i + 1] by {
        }
    }
}

proof fn lemma_buckets_bound(b: u64)
    by (bit_vector)
    ensures
        b < 22 ==> (1u64 << b) <= 0x20_0000u64,
        b < 64 ==> 0u64 < (1u64 << b),
{
}

proof fn lemma_window_bound(x: u64, lo: u64, b: u64)
    by (bit_vector)
    requires
        b < 64,
    ensures
        window(x, lo, b) < (1u64 << b),
{
}

proof fn lemma_window_xor(x: u64, y: u64, lo: u64, b: u64)
    by (bit_vector)
    ensures
        window(x ^ y, lo, b) == window(x, lo, b) ^ window(y, lo, b),
        window(x, lo, b) ^ window(x, lo, b) == 0u64,
{
}

/// A sample after its partition's pivot, if there is one, is added into it.
pub open spec fn reduced_by(q: Sample, pivots: Seq<Option<Sample>>, lo: nat, b: nat) -> Sample {
    match pivots[key(q, lo, b) as int] {
        Some(p) => sample_xor(q, p),
        None => q,
    }
}

/// Adds into `q` the pivot of its partition, if there is one.
fn xor_with_pivot(q: &mut Sample, pivots: &Vec<Option<Sample>>, lo: usize, b: usize)
    requires
        lo + b <= 64,
        b < 64,
        pivots@.len() == buckets(b as nat),
    ensures
        *final(q) == reduced_by(*old(q), pivots@, lo as nat, b as nat),
{
    let w = window_of(q.a, lo as u64, b as u64);
    proof {
        lemma_window_bound(q.a, lo as u64, b as u64);
    }
    let len = pivots.len();
    assert(w < len);
    let idx = w as usize;
    assert(idx == w);
    if let Some(p) = pivots[idx] {
        q.xor_into(&p);
    }
}

/// Relies on rayon's `par_iter_mut().for_each`: the closure runs exactly once
/// on each element, in place, and the length is kept.
#[verifier::external_body]
fn par_reduce_by_pivots(samples: &mut Vec<Sample>, pivots: &Vec<Option<Sample>>, lo: usize, b: usize)
    requires
        lo + b <= 64,
        b < 64,
        pivots@.len() == buckets(b as nat),
    ensures
        final(samples)@.len() == old(samples)@.len(),
        forall|i: int|
            0 <= i < final(samples)@.len() ==> #[trigger] final(samples)@[i] == reduced_by(
                old(samples)@[i],
                pivots@,
                lo as nat,
                b as nat,
            ),
{
    samples.par_iter_mut().for_each(|q| xor_with_pivot(q, pivots, lo, b));
}

/// `perm` lists, for each position of a reordered sequence of length `n`, the
/// distinct position it held before the reordering.
pub open spec fn is_permutation(perm: Seq<int>, n: nat) -> bool {
    &&& perm.len() == n
    &&& forall|i: int| 0 <= i < n ==> 0 <= #[trigger] perm[i] < n
    &&& forall|i: int, j: int| 0 <= i < n && 0 <= j < n && i != j ==> perm[i] != perm[j]
    &&& forall|j: int| 0 <= j < n ==> #[trigger] hits(perm, j)
}

/// Some position of the reordered sequence came from position `j`.
pub open spec fn hits(perm: Seq<int>, j: int) -> bool {
    exists|i: int| 0 <= i < perm.len() && #[trigger] perm[i] == j
}

/// Relies on rayon's `par_sort_by_key`: a stable sort, so the result is the
/// input reordered with keys ascending, equal keys in their former order.
#[verifier::external_body]
fn par_sort_by_window(samples: &mut Vec<Sample>, lo: usize, b: usize)
    requires
        lo + b <= 64,
    ensures
        exists|perm: Seq<int>|
            #[trigger] is_permutation(perm, old(samples)@.len()) && final(samples)@.len() == old(
                samples,
            )@.len() && (forall|i: int|
                0 <= i < perm.len() ==> #[trigger] final(samples)@[i] == old(samples)@[perm[i]])
                && (forall|i: int, j: int|
                0 <= i < j < perm.len() && key(final(samples)@[i], lo as nat, b as nat) == key(
                    final(samples)@[j],
                    lo as nat,
                    b as nat,
                ) ==> perm[i] < perm[j]),
        forall|i: int, j: int|
            0 <= i <= j < final(samples)@.len() ==> key(
                #[trigger] final(samples)@[i],
                lo as nat,
                b as nat,
            ) <= key(#[trigger] final(samples)@[j], lo as nat, b as nat),
{
    samples.par_sort_by_key(|q| window_of(q.a, lo as u64, b as u64));
}

/// `x` is one of the unmarked entries of `orig` at a position `>= from`.
pub open spec fn kept_from(x: Sample, orig: Seq<Sample>, marked: Seq<bool>, from: int) -> bool {
    exists|u: int| from <= u < orig.len() && !marked[u] && #[trigger] orig[u] == x
}

/// `after` holds the unmarked entries of `before`, each once: entry `p` of
/// `after` is entry `src[p]` of `before`, at distinct unmarked positions.
pub open spec fn kept_map(after: Seq<Sample>, before: Seq<Sample>, marked: Seq<bool>, src: Seq<int>) -> bool {
    &&& src.len() == after.len()
    &&& forall|p: int|
        0 <= p < after.len() ==> 0 <= #[trigger] src[p] < before.len() && !marked[src[p]]
            && after[p] == before[src[p]]
    &&& forall|p: int, q: int|
        0 <= p < after.len() && 0 <= q < after.len() && p != q ==> #[trigger] src[p]
            != #[trigger] src[q]
}

/// Removes the samples at the marked positions, by swap-removal in
/// descending order of position.
pub(crate) fn remove_marked(samples: &mut Vec<Sample>, marked: &Vec<bool>)
    requires
        marked@.len() == old(samples)@.len(),
    ensures
        final(samples)@.len() + count_true(marked@) == old(samples)@.len(),
        forall|p: int|
            0 <= p < final(samples)@.len() ==> kept_from(
                #[trigger] final(samples)@[p],
                old(samples)@,
                marked@,
                0,
            ),
        exists|src: Seq<int>| #[trigger] kept_map(final(samples)@, old(samples)@, marked@, src),
{
    let n = samples.len();
    let ghost orig = samples@;
    let ghost mut src: Seq<int> = Seq::new(n as nat, |i: int| i);
    let mut t: usize = n;
    proof {
        assert(marked@.subrange(n as int, n as int) =~= Seq::<bool>::empty());
    }
    while t > 0
        invariant
            n == orig.len(),
            n == marked@.len(),
            t <= n,
            samples@.len() + count_true(marked@.subrange(t as int, n as int)) == n,
            samples@.len() >= t,
            forall|u: int| 0 <= u < t ==> #[trigger] samples@[u] == orig[u],
            forall|p: int|
                t <= p < samples@.len() ==> kept_from(#[trigger] samples@[p], orig, marked@, t as int),
            src.len() == samples@.len(),
            forall|p: int| 0 <= p < t ==> #[trigger] src[p] == p,
            forall|p: int|
                t <= p < samples@.len() ==> t <= #[trigger] src[p] < n && !marked@[src[p]],
            forall|p: int| 0 <= p < samples@.len() ==> samples@[p] == orig[#[trigger] src[p]],
            forall|p: int, q: int|
                0 <= p < samples@.len() && 0 <= q < samples@.len() && p != q ==> #[trigger] src[p]
                    != #[trigger] src[q],
        decreases t,
    {
        let ghost before = samples@;
        let ghost src0 = src;
        proof {
            assert(marked@.subrange(t - 1, n as int).drop_first() =~= marked@.subrange(
                t as int,
                n as int,
            ));
        }
        if marked[t - 1] {
            samples.swap_remove(t - 1);
            proof {
                src = src0.update(t - 1, src0[src0.len() - 1]).drop_last();
                assert forall|p: int| 0 <= p < samples@.len() implies samples@[p] == orig[
                    #[trigger] src[p]] by {
                    if p == t - 1 {
                        assert(samples@[p] == before[before.len() - 1]);
                    } else {
                        assert(samples@[p] == before[p]);
                    }
                }
                assert forall|p: int, q: int|
                    0 <= p < samples@.len() && 0 <= q < samples@.len() && p != q implies #[trigger] src[p]
                        != #[trigger] src[q] by {
                    let pp = if p == t - 1 { src0.len() - 1 } else { p };
                    let qq = if q == t - 1 { src0.len() - 1 } else { q };
                    assert(src[p] == src0[pp] && src[q] == src0[qq]);
                }
            }
            assert forall|p: int| t - 1 <= p < samples@.len() implies kept_from(
                #[trigger] samples@[p],
                orig,
                marked@,
                t - 1,
            ) by {
                if p == t - 1 {
                    let last = before.len() - 1;
                    assert(samples@[p] == before[last]);
                    assert(kept_from(before[last], orig, marked@, t as int));
                } else {
                    assert(samples@[p] == before[p]);
                    assert(kept_from(before[p], orig, marked@, t as int));
                }
            }
        } else {
            assert forall|p: int| t - 1 <= p < samples@.len() implies kept_from(
                #[trigger] samples@[p],
                orig,
                marked@,
                t - 1,
            ) by {
                if p == t - 1 {
                    assert(samples@[p] == orig[p]);
                } else {
                    assert(kept_from(samples@[p], orig, marked@, t as int));
                }
            }
        }
        t = t - 1;
    }
    proof {
        assert(marked@.subrange(0, n as int) =~= marked@);
        assert(kept_map(samples@, orig, marked@, src));
    }
}

/// `q` is the sum of two samples at distinct positions of `pool` that agree
/// on the window.
pub open spec fn sum_of_partners(q: Sample, pool: Seq<Sample>, lo: nat, b: nat) -> bool {
    exists|u: int, v: int|
        0 <= u < pool.len() && 0 <= v < pool.len() && u != v && key(pool[u], lo, b) == key(
            pool[v],
            lo,
            b,
        ) && q == #[trigger] sample_xor(pool[u], pool[v])
}

/// The value `x` of the window occurs among the samples.
pub open spec fn key_occurs(pool: Seq<Sample>, lo: nat, b: nat, x: u64) -> bool {
    exists|u: int| 0 <= u < pool.len() && #[trigger] key(pool[u], lo, b) == x
}

/// Every value of the window occurs among the samples.
pub open spec fn every_key_occurs(pool: Seq<Sample>, lo: nat, b: nat) -> bool {
    forall|x: u64| x < buckets(b) ==> #[trigger] key_occurs(pool, lo, b, x)
}

/// What one BKW iteration on the window of `b` bits at `lo` guarantees: the
/// pool shrinks by at most `2^b`, and by exactly `2^b` where every value of the
/// window occurs; every remaining sample is zero on the window and is the sum
/// of two partners from the pool before.
pub open spec fn window_reduced(before: Seq<Sample>, after: Seq<Sample>, lo: nat, b: nat) -> bool {
    &&& after.len() <= before.len()
    &&& before.len() <= after.len() + buckets(b)
    &&& every_key_occurs(before, lo, b) ==> after.len() + buckets(b) == before.len()
    &&& forall|p: int|
        0 <= p < after.len() ==> key(#[trigger] after[p], lo, b) == 0u64 && sum_of_partners(
            after[p],
            before,
            lo,
            b,
        )
}

/// A sample that is the sum of two partners is a sample of the same secret
/// whose noise bit is the sum of the partners' noise bits.
pub proof fn lemma_partner_noise(q: Sample, pool: Seq<Sample>, lo: nat, b: nat, secret: u64)
    requires
        sum_of_partners(q, pool, lo, b),
    ensures
        exists|u: int, v: int|
            0 <= u < pool.len() && 0 <= v < pool.len() && u != v && #[trigger] noise(q, secret)
                == (noise(pool[u], secret) != noise(pool[v], secret)),
{
    let (u, v) = choose|u: int, v: int|
        0 <= u < pool.len() && 0 <= v < pool.len() && u != v && key(pool[u], lo, b) == key(
            pool[v],
            lo,
            b,
        ) && q == #[trigger] sample_xor(pool[u], pool[v]);
    lemma_sample_xor_linear(pool[u], pool[v], secret);
}

/// Sample `u` is the first of its partition: no earlier sample has its
/// window value.
pub open spec fn first_in_partition(pool: Seq<Sample>, lo: nat, b: nat, u: int) -> bool {
    forall|t: int| 0 <= t < u ==> key(#[trigger] pool[t], lo, b) != key(pool[u], lo, b)
}

/// `x` is sample `u` plus the first sample of its partition.
pub open spec fn plus_first(x: Sample, pool: Seq<Sample>, lo: nat, b: nat, u: int) -> bool {
    exists|f: int|
        0 <= f < pool.len() && first_in_partition(pool, lo, b, f) && key(pool[f], lo, b) == key(
            pool[u],
            lo,
            b,
        ) && x == #[trigger] sample_xor(pool[u], pool[f])
}

/// `after` is exactly what one BKW iteration leaves when the first sample of
/// each partition is its pivot: one pivot leaves per partition, and every
/// other sample of `before` stays once, with its pivot added.
pub open spec fn pivots_first(before: Seq<Sample>, after: Seq<Sample>, lo: nat, b: nat) -> bool {
    &&& after.len() + count_true(
        Seq::new(before.len(), |u: int| first_in_partition(before, lo, b, u)),
    ) == before.len()
    &&& exists|src: Seq<int>|
        #[trigger] src.len() == after.len() && (forall|p: int|
            0 <= p < after.len() ==> 0 <= #[trigger] src[p] < before.len()
                && !first_in_partition(before, lo, b, src[p]) && plus_first(
                after[p],
                before,
                lo,
                b,
                src[p],
            )) && (forall|p: int, q: int|
            0 <= p < after.len() && 0 <= q < after.len() && p != q ==> #[trigger] src[p]
                != #[trigger] src[q])
}

/// Every entry is `Some`.
fn all_filled(firsts: &Vec<Option<usize>>) -> (r: bool)
    ensures
        r == (forall|x: int| 0 <= x < firsts@.len() ==> #[trigger] firsts@[x] is Some),
{
    let mut i: usize = 0;
    while i < firsts.len()
        invariant
            i <= firsts@.len(),
            forall|x: int| 0 <= x < i ==> #[trigger] firsts@[x] is Some,
        decreases firsts@.len() - i,
    {
        if firsts[i].is_none() {
            return false;
        }
        i = i + 1;
    }
    true
}

proof fn lemma_partner_sum(x: Sample, y: Sample, k: nat, lo: nat, b: nat)
    requires
        k <= 64,
        sample_fits(x, k),
        sample_fits(y, k),
        key(x, lo, b) == key(y, lo, b),
    ensures
        sample_fits(sample_xor(x, y), k),
        key(sample_xor(x, y), lo, b) == 0u64,
{
    crate::bits::lemma_xor_fits(x.a, y.a, k as u64);
    lemma_window_xor(x.a, y.a, lo as u64, b as u64);
}

/// One BKW iteration by indexing: the first sample seen with each value of
/// the window `[k − i·b, k − (i−1)·b)` becomes the pivot of its partition, the
/// pivots leave the pool, and each remaining sample has its pivot added in.
pub fn bkw_reduce_inplace(oracle: &mut LpnOracle, i: usize, b: usize)
    requires
        old(oracle).wf(),
        1 <= i,
        b < 22,
        i * b <= old(oracle).k,
    ensures
        final(oracle).wf(),
        final(oracle).k == old(oracle).k,
        final(oracle).secret == old(oracle).secret,
        window_reduced(
            old(oracle).samples@,
            final(oracle).samples@,
            (old(oracle).k - i * b) as nat,
            b as nat,
        ),
        every_key_occurs(old(oracle).samples@, (old(oracle).k - i * b) as nat, b as nat)
            ==> final(oracle).samples@.len() + buckets(b as nat) == old(oracle).samples@.len(),
        pivots_first(
            old(oracle).samples@,
            final(oracle).samples@,
            (old(oracle).k - i * b) as nat,
            b as nat,
        ),
{
    let n = oracle.samples.len();
    assert(b * i >= b) by (nonlinear_arith)
        requires
            i >= 1,
    ;
    let lo = oracle.k - b * i;
    let ghost pool = oracle.samples@;
    let ghost k = oracle.k as nat;
    proof {
        lemma_buckets_bound(b as u64);
    }
    let maxj = (1u64 << (b as u64)) as usize;
    assert(maxj == buckets(b as nat));
    let mut firsts: Vec<Option<usize>> = Vec::new();
    while firsts.len() < maxj
        invariant
            firsts@.len() <= maxj,
            forall|x: int| 0 <= x < firsts@.len() ==> #[trigger] firsts@[x] is None,
        decreases maxj - firsts@.len(),
    {
        firsts.push(None);
    }
    let mut is_pivot: Vec<bool> = Vec::new();
    while is_pivot.len() < n
        invariant
            is_pivot@.len() <= n,
            forall|x: int| 0 <= x < is_pivot@.len() ==> !#[trigger] is_pivot@[x],
        decreases n - is_pivot@.len(),
    {
        is_pivot.push(false);
    }
    proof {
        lemma_count_true_all_false(is_pivot@);
        lemma_count_some_bounds(firsts@);
        assert forall|t: int| 0 <= t < n implies #[trigger] key(pool[t], lo as nat, b as nat)
            < maxj by {
            lemma_window_bound(pool[t].a, lo as u64, b as u64);
        }
    }
    let mut filled: usize = 0;
    let mut j: usize = 0;
    let mut done = false;
    while j < n && !done
        invariant
            oracle.samples@ == pool,
            oracle.k == old(oracle).k,
            oracle.secret == old(oracle).secret,
            n == pool.len(),
            lo + b <= 64,
            lo == k - i * b,
            b < 22,
            maxj == buckets(b as nat),
            firsts@.len() == maxj,
            is_pivot@.len() == n,
            j <= n,
            forall|t: int| 0 <= t < n ==> #[trigger] key(pool[t], lo as nat, b as nat) < maxj,
            forall|x: int|
                0 <= x < maxj && #[trigger] firsts@[x] is Some ==> firsts@[x]->0 < j && key(
                    pool[firsts@[x]->0 as int],
                    lo as nat,
                    b as nat,
                ) == x && is_pivot@[firsts@[x]->0 as int],
            forall|t: int|
                0 <= t < n && #[trigger] is_pivot@[t] ==> firsts@[key(
                    pool[t],
                    lo as nat,
                    b as nat,
                ) as int] == Some(t as usize),
            forall|t: int|
                0 <= t < j ==> firsts@[key(#[trigger] pool[t], lo as nat, b as nat) as int] is Some,
            done ==> forall|x: int| 0 <= x < maxj ==> #[trigger] firsts@[x] is Some,
            forall|t: int|
                0 <= t < j ==> #[trigger] is_pivot@[t] == first_in_partition(
                    pool,
                    lo as nat,
                    b as nat,
                    t,
                ),
            filled == count_true(is_pivot@),
            filled == count_some(firsts@),
            filled <= maxj,
        decreases n - j,
    {
        let w = window_of(oracle.samples[j].a, lo as u64, b as u64);
        let idx = w as usize;
        assert(idx == w);
        proof {
            let kj = key(pool[j as int], lo as nat, b as nat);
            if firsts@[idx as int] is None {
                assert forall|t: int| 0 <= t < j implies key(#[trigger] pool[t], lo as nat, b as nat)
                    != kj by {
                    assert(firsts@[key(pool[t], lo as nat, b as nat) as int] is Some);
                }
            } else {
                let f = firsts@[idx as int]->0 as int;
                assert(key(pool[f], lo as nat, b as nat) == kj);
                assert(!first_in_partition(pool, lo as nat, b as nat, j as int));
                if is_pivot@[j as int] {
                    assert(firsts@[kj as int] == Some(j));
                }
            }
        }
        if firsts[idx].is_none() {
            proof {
                if is_pivot@[j as int] {
                    assert(firsts@[key(pool[j as int], lo as nat, b as nat) as int] == Some(j));
                }
                lemma_count_true_update(is_pivot@, j as int);
                lemma_count_some_update(firsts@, idx as int, j);
                lemma_count_some_bounds(firsts@.update(idx as int, Some(j)));
            }
            firsts.set(idx, Some(j));
            is_pivot.set(j, true);
            filled = filled + 1;
            if filled == maxj {
                done = all_filled(&firsts);
            }
        }
        j = j + 1;
    }
    proof {
        assert forall|t: int| 0 <= t < n implies firsts@[key(
            #[trigger] pool[t],
            lo as nat,
            b as nat,
        ) as int] is Some by {
            if done {
                assert(firsts@[key(pool[t], lo as nat, b as nat) as int] is Some);
            }
        }
        lemma_count_some_bounds(firsts@);
        assert forall|t: int| 0 <= t < n implies #[trigger] is_pivot@[t] == first_in_partition(
            pool,
            lo as nat,
            b as nat,
            t,
        ) by {
            if t >= j {
                let f = firsts@[key(pool[t], lo as nat, b as nat) as int]->0 as int;
                assert(key(pool[f], lo as nat, b as nat) == key(pool[t], lo as nat, b as nat));
                if is_pivot@[t] {
                    assert(firsts@[key(pool[t], lo as nat, b as nat) as int] == Some(t as usize));
                }
            }
        }
        assert(is_pivot@ =~= Seq::new(n as nat, |u: int| first_in_partition(pool, lo as nat, b as nat, u)));
    }
    let mut pivots: Vec<Option<Sample>> = Vec::new();
    let mut x: usize = 0;
    while x < maxj
        invariant
            oracle.samples@ == pool,
            n == pool.len(),
            firsts@.len() == maxj,
            x <= maxj,
            pivots@.len() == x,
            forall|y: int|
                0 <= y < maxj && #[trigger] firsts@[y] is Some ==> firsts@[y]->0 < n,
            forall|y: int|
                0 <= y < x ==> #[trigger] pivots@[y] == match firsts@[y] {
                    Some(f) => Some(pool[f as int]),
                    None => None,
                },
        decreases maxj - x,
    {
        let p = match firsts[x] {
            Some(f) => Some(oracle.samples[f]),
            None => None,
        };
        pivots.push(p);
        x = x + 1;
    }
    remove_marked(&mut oracle.samples, &is_pivot);
    let ghost kept = oracle.samples@;
    let ghost src = choose|src: Seq<int>| #[trigger] kept_map(kept, pool, is_pivot@, src);
    par_reduce_by_pivots(&mut oracle.samples, &pivots, lo, b);
    proof {
        let lo_n = lo as nat;
        let b_n = b as nat;
        assert forall|p: int| 0 <= p < oracle.samples@.len() implies 0 <= #[trigger] src[p]
            < pool.len() && !first_in_partition(pool, lo_n, b_n, src[p]) && plus_first(
            oracle.samples@[p],
            pool,
            lo_n,
            b_n,
            src[p],
        ) by {
            let u = src[p];
            assert(!is_pivot@[u] && pool[u] == kept[p]);
            let f = firsts@[key(pool[u], lo_n, b_n) as int]->0 as int;
            assert(is_pivot@[f]);
            assert(pivots@[key(pool[u], lo_n, b_n) as int] == Some(pool[f]));
            assert(oracle.samples@[p] == sample_xor(pool[u], pool[f]));
        }
        assert(src.len() == oracle.samples@.len());
        assert forall|p: int| 0 <= p < oracle.samples@.len() implies key(
            #[trigger] oracle.samples@[p],
            lo_n,
            b_n,
        ) == 0u64 && sum_of_partners(oracle.samples@[p], pool, lo_n, b_n) && sample_fits(
            oracle.samples@[p],
            k,
        ) by {
            assert(kept_from(kept[p], pool, is_pivot@, 0));
            let u = choose|u: int| 0 <= u < pool.len() && !is_pivot@[u] && #[trigger] pool[u] == kept[p];
            let f = firsts@[key(pool[u], lo_n, b_n) as int]->0 as int;
            assert(is_pivot@[f]);
            assert(pivots@[key(pool[u], lo_n, b_n) as int] == Some(pool[f]));
            assert(oracle.samples@[p] == sample_xor(pool[u], pool[f]));
            lemma_partner_sum(pool[u], pool[f], k, lo_n, b_n);
        }
        if every_key_occurs(pool, lo_n, b_n) {
            assert forall|y: int| 0 <= y < maxj implies #[trigger] firsts@[y] is Some by {
                let yy = y as u64;
                assert(key_occurs(pool, lo_n, b_n, yy));
            }
            lemma_count_some_bounds(firsts@);
        }
    }
}

/// Position `t` of `sorted`, once its run's pivot is added in: `x` is
/// `sorted[t]` plus a marked sample before it with the same window.
spec fn xored_with_earlier_pivot(
    x: Sample,
    t: int,
    sorted: Seq<Sample>,
    marked: Seq<bool>,
    lo: nat,
    b: nat,
) -> bool {
    exists|f: int|
        0 <= f < t && marked[f] && key(sorted[f], lo, b) == key(sorted[t], lo, b) && x
            == #[trigger] sample_xor(sorted[t], sorted[f])
}

/// One BKW iteration by sorting: the pool is sorted by the value of the
/// window `[k − i·b, k − (i−1)·b)`, the first sample of each run becomes the
/// pivot of its partition, is added into the rest of the run, and leaves the
/// pool.
pub fn bkw_reduce_sorted(oracle: &mut LpnOracle, i: usize, b: usize)
    requires
        old(oracle).wf(),
        1 <= i,
        b < 64,
        i * b <= old(oracle).k,
    ensures
        final(oracle).wf(),
        final(oracle).k == old(oracle).k,
        final(oracle).secret == old(oracle).secret,
        window_reduced(
            old(oracle).samples@,
            final(oracle).samples@,
            (old(oracle).k - i * b) as nat,
            b as nat,
        ),
{
    assert(b * i >= b) by (nonlinear_arith)
        requires
            i >= 1,
    ;
    let lo = oracle.k - b * i;
    let ghost pool = oracle.samples@;
    let ghost k = oracle.k as nat;
    let ghost lo_n = lo as nat;
    let ghost b_n = b as nat;
    par_sort_by_window(&mut oracle.samples, lo, b);
    let ghost sorted = oracle.samples@;
    let ghost perm = choose|perm: Seq<int>|
        #[trigger] is_permutation(perm, pool.len()) && sorted.len() == pool.len() && (forall|i: int|
            0 <= i < perm.len() ==> #[trigger] sorted[i] == pool[perm[i]]) && (forall|i: int, j: int|
            0 <= i < j < perm.len() && key(sorted[i], lo_n, b_n) == key(sorted[j], lo_n, b_n)
                ==> perm[i] < perm[j]);
    let n = oracle.samples.len();
    let mut is_pivot: Vec<bool> = Vec::new();
    while is_pivot.len() < n
        invariant
            is_pivot@.len() <= n,
            forall|x: int| 0 <= x < is_pivot@.len() ==> !#[trigger] is_pivot@[x],
        decreases n - is_pivot@.len(),
    {
        is_pivot.push(false);
    }
    proof {
        lemma_count_true_all_false(is_pivot@);
    }
    proof {
        lemma_buckets_bound(b as u64);
    }
    let ghost all = every_key_occurs(pool, lo_n, b_n);
    proof {
        if all {
            assert forall|x: u64| x < buckets(b_n) implies #[trigger] key_occurs(
                sorted,
                lo_n,
                b_n,
                x,
            ) by {
                assert(key_occurs(pool, lo_n, b_n, x));
                let u = choose|u: int| 0 <= u < pool.len() && #[trigger] key(pool[u], lo_n, b_n) == x;
                assert(hits(perm, u));
                let w = choose|w: int| 0 <= w < perm.len() && #[trigger] perm[w] == u;
                assert(sorted[w] == pool[u]);
            }
        }
    }
    let mut runs: usize = 0;
    let mut pivot = Sample { a: 0, product: false };
    let mut pkey: u64 = 0;
    let ghost mut ppos: int = 0;
    let mut p: usize = 0;
    while p < n
        invariant
            n == sorted.len(),
            oracle.samples@.len() == n,
            oracle.k == old(oracle).k,
            oracle.secret == old(oracle).secret,
            lo + b <= 64,
            b < 64,
            lo_n == lo,
            b_n == b,
            is_pivot@.len() == n,
            p <= n,
            forall|t: int| p <= t < n ==> #[trigger] oracle.samples@[t] == sorted[t],
            forall|t: int| p <= t < n ==> !#[trigger] is_pivot@[t],
            forall|t: int|
                0 <= t < p && #[trigger] is_pivot@[t] ==> oracle.samples@[t] == sorted[t],
            forall|t: int|
                0 <= t < p && !#[trigger] is_pivot@[t] ==> xored_with_earlier_pivot(
                    oracle.samples@[t],
                    t,
                    sorted,
                    is_pivot@,
                    lo_n,
                    b_n,
                ),
            forall|t: int, u: int|
                0 <= t <= u < n ==> key(#[trigger] sorted[t], lo_n, b_n) <= key(
                    #[trigger] sorted[u],
                    lo_n,
                    b_n,
                ),
            p > 0 ==> 0 <= ppos < p && is_pivot@[ppos] && pivot == sorted[ppos] && pkey == key(
                sorted[ppos],
                lo_n,
                b_n,
            ) && key(sorted[p - 1], lo_n, b_n) == pkey,
            runs == count_true(is_pivot@),
            p > 0 ==> runs <= pkey + 1,
            p == 0 ==> runs == 0,
            pkey < buckets(b_n),
            all ==> every_key_occurs(sorted, lo_n, b_n),
            all && p > 0 ==> runs == pkey + 1,
        decreases n - p,
    {
        let q = oracle.samples[p];
        let kq = window_of(q.a, lo as u64, b as u64);
        proof {
            lemma_window_bound(q.a, lo as u64, b as u64);
            lemma_count_true_update(is_pivot@, p as int);
            lemma_count_true_bound(is_pivot@.update(p as int, true));
        }
        proof {
            if all && p == 0 {
                assert(key_occurs(sorted, lo_n, b_n, 0u64));
                let w = choose|w: int| 0 <= w < sorted.len() && #[trigger] key(sorted[w], lo_n, b_n) == 0u64;
                assert(key(sorted[0], lo_n, b_n) <= key(sorted[w], lo_n, b_n));
            }
            if all && p > 0 && kq != pkey {
                assert(key(sorted[p - 1], lo_n, b_n) <= key(sorted[p as int], lo_n, b_n));
                let nk = (pkey + 1) as u64;
                if kq > nk {
                    assert(key_occurs(sorted, lo_n, b_n, nk));
                    let w = choose|w: int| 0 <= w < sorted.len() && #[trigger] key(sorted[w], lo_n, b_n) == nk;
                    if w < p {
                        assert(key(sorted[w], lo_n, b_n) <= key(sorted[p - 1], lo_n, b_n));
                    } else {
                        assert(key(sorted[p as int], lo_n, b_n) <= key(sorted[w], lo_n, b_n));
                    }
                }
            }
        }
        if p == 0 || kq != pkey {
            is_pivot.set(p, true);
            runs = runs + 1;
            pivot = q;
            pkey = kq;
            proof {
                ppos = p as int;
            }
        } else {
            let mut r = q;
            r.xor_into(&pivot);
            oracle.samples.set(p, r);
            assert(xored_with_earlier_pivot(r, p as int, sorted, is_pivot@, lo_n, b_n)) by {
                assert(r == sample_xor(sorted[p as int], sorted[ppos]));
            }
        }
        p = p + 1;
    }
    let ghost walked = oracle.samples@;
    proof {
        if all {
            let top = (buckets(b_n) - 1) as u64;
            assert(key_occurs(sorted, lo_n, b_n, top));
            let w = choose|w: int| 0 <= w < sorted.len() && #[trigger] key(sorted[w], lo_n, b_n) == top;
            assert(key(sorted[w], lo_n, b_n) <= key(sorted[n - 1], lo_n, b_n));
            assert(runs == buckets(b_n));
        }
    }
    remove_marked(&mut oracle.samples, &is_pivot);
    proof {
        assert forall|x: int| 0 <= x < oracle.samples@.len() implies key(
            #[trigger] oracle.samples@[x],
            lo_n,
            b_n,
        ) == 0u64 && sum_of_partners(oracle.samples@[x], pool, lo_n, b_n) && sample_fits(
            oracle.samples@[x],
            k,
        ) by {
            assert(kept_from(oracle.samples@[x], walked, is_pivot@, 0));
            let u = choose|u: int|
                0 <= u < walked.len() && !is_pivot@[u] && #[trigger] walked[u]
                    == oracle.samples@[x];
            assert(xored_with_earlier_pivot(walked[u], u, sorted, is_pivot@, lo_n, b_n));
            let f = choose|f: int|
                0 <= f < u && is_pivot@[f] && key(sorted[f], lo_n, b_n) == key(
                    sorted[u],
                    lo_n,
                    b_n,
                ) && walked[u] == #[trigger] sample_xor(sorted[u], sorted[f]);
            assert(sorted[u] == pool[perm[u]]);
            assert(sorted[f] == pool[perm[f]]);
            assert(perm[u] != perm[f]);
            assert(sample_fits(pool[perm[u]], k));
            assert(sample_fits(pool[perm[f]], k));
            lemma_partner_sum(sorted[u], sorted[f], k, lo_n, b_n);
            assert(sample_xor(pool[perm[u]], pool[perm[f]]) == oracle.samples@[x]);
        }
    }
}

proof fn lemma_truncate_keeps(x: u64, lo: u64, b: u64, k: u64)
    by (bit_vector)
    requires
        lo + b == k,
        k <= 64,
        x <= low_mask(k),
        window(x, lo, b) == 0u64,
    ensures
        x & low_mask(lo) == x,
{
}

/// `pools` is a run of BKW iterations on a pool of dimension `k`: iteration
/// `i` takes `pools[i − 1]` to `pools[i]` on the window
/// `[k − i·b, k − (i − 1)·b)`.
pub open spec fn bkw_chain(pools: Seq<Seq<Sample>>, k: nat, b: nat) -> bool {
    forall|i: int|
        1 <= i < pools.len() ==> window_reduced(
            pools[i - 1],
            #[trigger] pools[i],
            (k - i * b) as nat,
            b,
        )
}

/// `after` is `before` with every vector cut to its `k` low bits.
pub open spec fn truncated(before: Seq<Sample>, after: Seq<Sample>, k: nat) -> bool {
    &&& after.len() == before.len()
    &&& forall|p: int|
        0 <= p < after.len() ==> (#[trigger] after[p]).a == before[p].a & low_mask(k as u64)
            && after[p].product == before[p].product
}

/// `after` is what the BKW reduction with `a − 1` iterations of width `b`
/// leaves of `before`: a run of iterations from `before`, then truncation to
/// the `k − (a − 1)·b` bits left; and where every value of each window occurs
/// in the pool it reduces, exactly `(a − 1)·2^b` samples are gone.
pub open spec fn bkw_reduced(before: Seq<Sample>, after: Seq<Sample>, k: nat, a: nat, b: nat) -> bool {
    exists|pools: Seq<Seq<Sample>>|
        #[trigger] bkw_chain(pools, k, b) && pools.len() == a && pools[0] == before && truncated(
            pools[a - 1],
            after,
            (k - (a - 1) * b) as nat,
        ) && ((forall|i: int|
            1 <= i < a ==> every_key_occurs(#[trigger] pools[i - 1], (k - i * b) as nat, b))
            ==> after.len() + (a - 1) * buckets(b) == before.len())
}

/// The BKW reduction: `a − 1` iterations with windows of `b` bits, taken
/// from the top of the dimension down, then truncation to the
/// `k − (a − 1)·b` bits left.
fn bkw_reduce(oracle: &mut LpnOracle, a: usize, b: usize)
    requires
        old(oracle).wf(),
        1 <= a,
        a * b <= old(oracle).k,
    ensures
        final(oracle).wf(),
        final(oracle).k == old(oracle).k - (a - 1) * b,
        final(oracle).secret == old(oracle).secret,
        bkw_reduced(
            old(oracle).samples@,
            final(oracle).samples@,
            old(oracle).k as nat,
            a as nat,
            b as nat,
        ),
        final(oracle).samples@.len() <= old(oracle).samples@.len(),
        old(oracle).samples@.len() <= final(oracle).samples@.len() + (a - 1) * buckets(b as nat),
        a == 1 ==> final(oracle).samples@ == old(oracle).samples@,
        a == 2 ==> window_reduced(
            old(oracle).samples@,
            final(oracle).samples@,
            (old(oracle).k - b) as nat,
            b as nat,
        ),
{
    let k = oracle.k;
    let ghost pool = oracle.samples@;
    let ghost big = buckets(b as nat);
    let ghost mut pools: Seq<Seq<Sample>> = seq![pool];
    let mut it: usize = 1;
    while it < a
        invariant
            oracle.wf(),
            oracle.k == k,
            oracle.secret == old(oracle).secret,
            k == old(oracle).k,
            pool == old(oracle).samples@,
            1 <= it <= a,
            a * b <= k,
            oracle.samples@.len() <= pool.len(),
            pool.len() <= oracle.samples@.len() + (it - 1) * big,
            big == buckets(b as nat),
            pools.len() == it,
            pools[0] == pool,
            pools[it - 1] == oracle.samples@,
            bkw_chain(pools, k as nat, b as nat),
            (forall|i: int|
                1 <= i < it ==> every_key_occurs(#[trigger] pools[i - 1], (k - i * b) as nat, b as nat))
                ==> oracle.samples@.len() + (it - 1) * big == pool.len(),
        decreases a - it,
    {
        assert(it * b <= a * b) by (nonlinear_arith)
            requires
                it <= a,
        ;
        assert(2 * b <= a * b) by (nonlinear_arith)
            requires
                2 <= a,
        ;
        let ghost prev = pools;
        if b < 22 {
            bkw_reduce_inplace(oracle, it, b);
        } else {
            bkw_reduce_sorted(oracle, it, b);
        }
        proof {
            pools = prev.push(oracle.samples@);
            assert forall|i: int| 1 <= i < pools.len() implies window_reduced(
                pools[i - 1],
                #[trigger] pools[i],
                (k - i * b) as nat,
                b as nat,
            ) by {
                if i < it {
                    assert(pools[i] == prev[i] && pools[i - 1] == prev[i - 1]);
                } else {
                    assert(pools[i - 1] == prev[it - 1]);
                }
            }
            if forall|i: int|
                1 <= i < it + 1 ==> every_key_occurs(#[trigger] pools[i - 1], (k - i * b) as nat, b as nat) {
                assert forall|i: int|
                    1 <= i < it implies every_key_occurs(#[trigger] prev[i - 1], (k - i * b) as nat, b as nat) by {
                    assert(pools[i - 1] == prev[i - 1]);
                }
                assert(every_key_occurs(pools[it - 1], (k - it * b) as nat, b as nat));
            }
        }
        assert((it - 1) * big + big == it * big) by (nonlinear_arith);
        it = it + 1;
    }
    let ghost reduced = oracle.samples@;
    assert(forall|p: int|
        0 <= p < reduced.len() ==> sample_fits(#[trigger] reduced[p], k as nat));
    assert((a - 1) * b <= a * b) by (nonlinear_arith)
        requires
            1 <= a,
    ;
    oracle.truncate(k - (a - 1) * b);
    proof {
        assert(truncated(pools[a - 1], oracle.samples@, (k - (a - 1) * b) as nat));
        assert(bkw_chain(pools, k as nat, b as nat));
        if a == 1 {
            assert forall|p: int| 0 <= p < oracle.samples@.len() implies #[trigger] oracle.samples@[p]
                == reduced[p] by {
                crate::bits::lemma_mask(reduced[p].a, k as u64, 0);
            }
            assert(oracle.samples@ =~= reduced);
        }
        if a == 2 {
            assert forall|p: int| 0 <= p < oracle.samples@.len() implies #[trigger] oracle.samples@[p]
                == reduced[p] by {
                let x = reduced[p].a;
                assert(window_reduced(pools[0], pools[1], (k - 1 * b) as nat, b as nat));
                assert(key(reduced[p], (k - b) as nat, b as nat) == 0u64);
                assert(sample_fits(reduced[p], k as nat));
                assert((a - 1) * b == b) by (nonlinear_arith)
                    requires
                        a == 2,
                ;
                lemma_truncate_keeps(x, (k - b) as u64, b as u64, k as u64);
                assert(oracle.samples@[p].a == x);
                assert(oracle.samples@[p].product == reduced[p].product);
            }
            assert(oracle.samples@ =~= reduced);
            assert(window_reduced(pools[0], pools[1], (k - 1 * b) as nat, b as nat));
        }
    }
}

/// Reduces the dimension by `b` with one BKW iteration on the top `b` bits.
pub fn partition_reduce(oracle: &mut LpnOracle, b: u32)
    requires
        old(oracle).wf(),
        2 * b <= old(oracle).k,
    ensures
        final(oracle).wf(),
        final(oracle).k == old(oracle).k - b,
        final(oracle).secret == old(oracle).secret,
        window_reduced(
            old(oracle).samples@,
            final(oracle).samples@,
            (old(oracle).k - b) as nat,
            b as nat,
        ),
{
    bkw_reduce(oracle, 2, b as usize);
}

/// The number of samples whose vector is the unit vector `e_i`.
pub open spec fn unit_count(pool: Seq<Sample>, i: nat) -> nat
    decreases pool.len(),
{
    if pool.len() == 0 {
        0
    } else {
        unit_count(pool.drop_last(), i) + (if pool.last().a == 1u64 << (i as u64) {
            1nat
        } else {
            0nat
        })
    }
}

/// The number of samples whose vector is `e_i` and whose product is 1.
pub open spec fn unit_votes(pool: Seq<Sample>, i: nat) -> nat
    decreases pool.len(),
{
    if pool.len() == 0 {
        0
    } else {
        unit_votes(pool.drop_last(), i) + (if pool.last().a == 1u64 << (i as u64)
            && pool.last().product {
            1nat
        } else {
            0nat
        })
    }
}

/// Bit `i` of the secret by majority: set when more than half of the samples
/// on `e_i` have product 1.
pub open spec fn majority_bit(pool: Seq<Sample>, i: nat) -> bool {
    unit_count(pool, i) < 2 * unit_votes(pool, i)
}

/// What the majority solver gives on a pool of dimension `k`.
pub open spec fn majority_outcome(k: nat, pool: Seq<Sample>) -> Result<Seq<bool>, BkwError> {
    if k > 20 {
        Err(BkwError::Configuration)
    } else if exists|i: int| 0 <= i < k && #[trigger] unit_count(pool, i as nat) == 0 {
        Err(BkwError::InsufficientSamples)
    } else {
        Ok(Seq::new(k, |i: int| majority_bit(pool, i as nat)))
    }
}

/// A solver's result with the vector seen as its bits.
pub open spec fn outcome_of(r: Result<BinVector, BkwError>) -> Result<Seq<bool>, BkwError> {
    match r {
        Ok(v) => Ok(v@),
        Err(e) => Err(e),
    }
}

proof fn lemma_votes_bound(pool: Seq<Sample>, i: nat)
    ensures
        unit_votes(pool, i) <= unit_count(pool, i),
        unit_count(pool, i) <= pool.len(),
    decreases pool.len(),
{
    if pool.len() > 0 {
        lemma_votes_bound(pool.drop_last(), i);
    }
}

proof fn lemma_unit_tallies_multiset(pool: Seq<Sample>, i: nat)
    ensures
        unit_votes(pool, i) == pool.to_multiset().count(
            Sample { a: 1u64 << (i as u64), product: true },
        ),
        unit_count(pool, i) == unit_votes(pool, i) + pool.to_multiset().count(
            Sample { a: 1u64 << (i as u64), product: false },
        ),
    decreases pool.len(),
{
    broadcast use vstd::multiset::group_multiset_axioms;

    pool.to_multiset_ensures();
    if pool.len() > 0 {
        let rest = pool.drop_last();
        lemma_unit_tallies_multiset(rest, i);
        rest.to_multiset_ensures();
        assert(pool =~= rest.push(pool.last()));
    } else {
        assert(!pool.contains(Sample { a: 1u64 << (i as u64), product: true }));
        assert(!pool.contains(Sample { a: 1u64 << (i as u64), product: false }));
    }
}

/// Majority depends on the samples alone and not on their order: two runs on
/// pools that hold the same samples, in any order, give the same outcome.
pub proof fn lemma_majority_deterministic(k: nat, pool_a: Seq<Sample>, pool_b: Seq<Sample>)
    requires
        pool_a.to_multiset() == pool_b.to_multiset(),
    ensures
        majority_outcome(k, pool_a) == majority_outcome(k, pool_b),
{
    assert forall|i: nat|
        #[trigger] unit_count(pool_a, i) == unit_count(pool_b, i) && unit_votes(pool_a, i) == unit_votes(
            pool_b,
            i,
        ) by {
        lemma_unit_tallies_multiset(pool_a, i);
        lemma_unit_tallies_multiset(pool_b, i);
    }
    if exists|i: int| 0 <= i < k && #[trigger] unit_count(pool_a, i as nat) == 0 {
        let i = choose|i: int| 0 <= i < k && #[trigger] unit_count(pool_a, i as nat) == 0;
        assert(unit_count(pool_b, i as nat) == 0);
    }
    if exists|i: int| 0 <= i < k && #[trigger] unit_count(pool_b, i as nat) == 0 {
        let i = choose|i: int| 0 <= i < k && #[trigger] unit_count(pool_b, i as nat) == 0;
        assert(unit_count(pool_a, i as nat) == 0);
    }
    assert(Seq::new(k, |i: int| majority_bit(pool_a, i as nat)) =~= Seq::new(
        k,
        |i: int| majority_bit(pool_b, i as nat),
    ));
}

/// Adds one sample to the tallies: bucket `i` counts it if its vector is
/// `e_i`, and counts its vote if its product is also 1.
fn tally(counts: &mut Vec<usize>, votes: &mut Vec<usize>, q: Sample, k: usize)
    requires
        old(counts)@.len() == k,
        old(votes)@.len() == k,
        k <= 20,
        forall|j: int| 0 <= j < k ==> #[trigger] old(counts)@[j] < usize::MAX,
        forall|j: int| 0 <= j < k ==> #[trigger] old(votes)@[j] <= old(counts)@[j],
    ensures
        final(counts)@.len() == k,
        final(votes)@.len() == k,
        forall|j: int|
            0 <= j < k ==> #[trigger] final(counts)@[j] == old(counts)@[j] + (if q.a == 1u64 << (
            j as u64) {
                1int
            } else {
                0int
            }) && final(votes)@[j] == old(votes)@[j] + (if q.a == 1u64 << (j as u64) && q.product {
                1int
            } else {
                0int
            }),
{
    let mut i: usize = 0;
    while i < k
        invariant
            k <= 20,
            i <= k,
            counts@.len() == k,
            votes@.len() == k,
            forall|j: int|
                0 <= j < i ==> #[trigger] counts@[j] == old(counts)@[j] + (if q.a == 1u64 << (
                j as u64) {
                    1int
                } else {
                    0int
                }) && votes@[j] == old(votes)@[j] + (if q.a == 1u64 << (j as u64) && q.product {
                    1int
                } else {
                    0int
                }),
            forall|j: int|
                i <= j < k ==> #[trigger] counts@[j] == old(counts)@[j] && votes@[j] == old(
                    votes,
                )@[j],
            forall|j: int| 0 <= j < k ==> #[trigger] old(counts)@[j] < usize::MAX,
            forall|j: int| 0 <= j < k ==> #[trigger] old(votes)@[j] <= old(counts)@[j],
        decreases k - i,
    {
        let ghost before_c = counts@;
        let ghost before_v = votes@;
        assert(((i as int) as u64) == i as u64);
        if q.a == 1u64 << (i as u64) {
            counts.set(i, counts[i] + 1);
            if q.product {
                votes.set(i, votes[i] + 1);
            }
        }
        assert(forall|j: int| 0 <= j < k && j != i ==> counts@[j] == before_c[j] && votes@[j] == before_v[j]);
        i = i + 1;
    }
}

/// Recovers the secret of a pool of dimension at most 20 by majority over the
/// samples of weight one: bit `i` is the majority of the products of the
/// samples whose vector is `e_i`.
pub fn majority(oracle: LpnOracle) -> (r: Result<BinVector, BkwError>)
    requires
        oracle.wf(),
    ensures
        r matches Ok(v) ==> v.wf(),
        outcome_of(r) == majority_outcome(oracle.k as nat, oracle.samples@),
{
    let k = oracle.k;
    if k > 20 {
        return Err(BkwError::Configuration);
    }
    let samples = &oracle.samples;
    let ghost pool = samples@;
    let n = samples.len();
    let mut counts: Vec<usize> = Vec::new();
    let mut votes: Vec<usize> = Vec::new();
    while counts.len() < k
        invariant
            counts@.len() == votes@.len(),
            counts@.len() <= k,
            forall|i: int| 0 <= i < counts@.len() ==> #[trigger] counts@[i] == 0 && votes@[i] == 0,
        decreases k - counts@.len(),
    {
        counts.push(0);
        votes.push(0);
    }
    assert(pool.take(0) =~= Seq::<Sample>::empty());
    let mut t: usize = 0;
    while t < n
        invariant
            samples@ == pool,
            n == pool.len(),
            k <= 20,
            t <= n,
            counts@.len() == k,
            votes@.len() == k,
            forall|i: int|
                0 <= i < k ==> #[trigger] counts@[i] == unit_count(pool.take(t as int), i as nat)
                    && votes@[i] == unit_votes(pool.take(t as int), i as nat),
        decreases n - t,
    {
        let q = samples[t];
        let ghost prev = pool.take(t as int);
        let ghost next = pool.take(t + 1);
        proof {
            assert(next.drop_last() =~= prev);
            assert(next.last() == q);
            assert forall|j: int| 0 <= j < k implies #[trigger] counts@[j] < t + 1 && votes@[j]
                <= counts@[j] && counts@[j] == unit_count(prev, j as nat) && votes@[j] == unit_votes(
                prev,
                j as nat,
            ) by {
                lemma_votes_bound(prev, j as nat);
            }
        }
        let ghost c0 = counts@;
        let ghost v0 = votes@;
        tally(&mut counts, &mut votes, q, k);
        proof {
            assert forall|j: int| 0 <= j < k implies #[trigger] counts@[j] == unit_count(
                next,
                j as nat,
            ) && votes@[j] == unit_votes(next, j as nat) by {
                assert(c0[j] == unit_count(prev, j as nat));
                assert(v0[j] == unit_votes(prev, j as nat));
                assert(((j as nat) as u64) == j as u64);
                assert(next.len() == t + 1);
                let e = 1u64 << (j as u64);
                assert(unit_count(next, j as nat) == unit_count(prev, j as nat) + (if q.a == e {
                    1nat
                } else {
                    0nat
                }));
                assert(unit_votes(next, j as nat) == unit_votes(prev, j as nat) + (if q.a == e
                    && q.product {
                    1nat
                } else {
                    0nat
                }));
                assert(counts@[j] == c0[j] + (if q.a == e {
                    1int
                } else {
                    0int
                }));
                assert(votes@[j] == v0[j] + (if q.a == e && q.product {
                    1int
                } else {
                    0int
                }));
            }
        }
        t = t + 1;
    }
    assert(pool.take(n as int) =~= pool);
    let mut result = BinVector::with_capacity(k);
    let mut i: usize = 0;
    while i < k
        invariant
            pool == oracle.samples@,
            k == oracle.k,
            k <= 20,
            i <= k,
            counts@.len() == k,
            votes@.len() == k,
            forall|j: int|
                0 <= j < k ==> #[trigger] counts@[j] == unit_count(pool, j as nat) && votes@[j]
                    == unit_votes(pool, j as nat),
            result.wf(),
            result.len_spec() == i,
            result@ == Seq::new(i as nat, |j: int| majority_bit(pool, j as nat)),
            forall|j: int| 0 <= j < i ==> #[trigger] unit_count(pool, j as nat) > 0,
        decreases k - i,
    {
        if counts[i] == 0 {
            assert(exists|j: int| 0 <= j < k && #[trigger] unit_count(pool, j as nat) == 0) by {
                let j = i as int;
                assert(unit_count(pool, j as nat) == 0);
            }
            return Err(BkwError::InsufficientSamples);
        }
        proof {
            lemma_votes_bound(pool, i as nat);
        }
        let bit = counts[i] - votes[i] < votes[i];
        result.push(bit);
        assert(result@ =~= Seq::new((i + 1) as nat, |j: int| majority_bit(pool, j as nat)));
        i = i + 1;
    }
    Ok(result)
}

/// The parameters fit: at least one iteration, the windows within the
/// dimension, and at most 20 dimensions left for majority.
pub open spec fn bkw_config_ok(k: nat, a: nat, b: nat) -> bool {
    &&& 1 <= a
    &&& a * b <= k
    &&& k - (a - 1) * b <= 20
}

/// The full BKW algorithm: `a − 1` iterations of the partition reduction with
/// windows of `b` bits, then majority on the `k − (a − 1)·b` bits left.
pub fn bkw(oracle: LpnOracle, a: u32, b: u32) -> (r: Result<BinVector, BkwError>)
    requires
        oracle.wf(),
    ensures
        !bkw_config_ok(oracle.k as nat, a as nat, b as nat) <==> r == Err::<BinVector, BkwError>(
            BkwError::Configuration,
        ),
        r matches Ok(v) ==> v.wf(),
        bkw_config_ok(oracle.k as nat, a as nat, b as nat) ==> exists|pool: Seq<Sample>|
            #[trigger] bkw_reduced(oracle.samples@, pool, oracle.k as nat, a as nat, b as nat)
                && majority_outcome((oracle.k - (a - 1) * b) as nat, pool) == outcome_of(r),
{
    let mut oracle = oracle;
    let k = oracle.k as u64;
    let a64 = a as u64;
    let b64 = b as u64;
    if a64 == 0 {
        return Err(BkwError::Configuration);
    }
    assert(a64 * b64 <= 0xffff_ffffu64 * 0xffff_ffffu64) by (nonlinear_arith)
        requires
            a64 <= 0xffff_ffffu64,
            b64 <= 0xffff_ffffu64,
    ;
    if a64 * b64 > k {
        return Err(BkwError::Configuration);
    }
    assert((a64 - 1) * b64 <= a64 * b64) by (nonlinear_arith)
        requires
            a64 >= 1,
    ;
    if k - (a64 - 1) * b64 > 20 {
        return Err(BkwError::Configuration);
    }
    let ghost old_samples = oracle.samples@;
    bkw_reduce(&mut oracle, a as usize, b as usize);
    let ghost pool = oracle.samples@;
    let r = majority(oracle);
    assert(bkw_reduced(old_samples, pool, k as nat, a as nat, b as nat));
    assert(majority_outcome((k - (a - 1) * b) as nat, pool) == outcome_of(r));
    r
}

} // verus!
