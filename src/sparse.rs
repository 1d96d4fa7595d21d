//! Sparse-secret reduction: a change of basis after which the secret is the
//! noise of `k` basis samples, and so has low weight.
use vstd::prelude::*;
use crate::bits::{
    bit, encode, encode_upto, inner, lemma_parity_xor, lemma_xor_facts, lemma_xor_fits, low_mask, parity,
    parity_of,
};
use crate::bkw::{count_true, kept_map, lemma_count_true_all_false, lemma_count_true_update, remove_marked};
use crate::gauss::{dependent, drawn_rows, invert, lemma_apply_inverse, valid_draw};
use crate::oracle::{noise, sample_fits, LpnOracle, Sample};

verus! {

/// Why a sparse-secret reduction is refused.
#[derive(Clone, Copy, Debug, PartialEq, Eq, Structural)]
pub enum SparseError {
    /// More than 63 dimensions, or a basis that does not name `k` distinct
    /// samples of the pool.
    Configuration,
    /// The basis vectors are linearly dependent.
    Dependent,
}

/// The first `n` basis samples' products, packed into a word.
pub open spec fn product_word(pool: Seq<Sample>, basis: Seq<usize>, n: nat) -> u64
    decreases n,
{
    if n == 0 {
        0u64
    } else {
        product_word(pool, basis, (n - 1) as nat) | ((if pool[basis[n - 1] as int].product {
            1u64
        } else {
            0u64
        }) << ((n - 1) as u64))
    }
}

/// The first `n` basis samples' noise bits under secret `s`, packed into a
/// word.
pub open spec fn noise_word(pool: Seq<Sample>, basis: Seq<usize>, s: u64, n: nat) -> u64
    decreases n,
{
    if n == 0 {
        0u64
    } else {
        noise_word(pool, basis, s, (n - 1) as nat) | ((if noise(pool[basis[n - 1] as int], s) {
            1u64
        } else {
            0u64
        }) << ((n - 1) as u64))
    }
}

/// The basis names distinct samples.
pub open spec fn distinct(basis: Seq<usize>) -> bool {
    forall|i: int, j: int| 0 <= i < j < basis.len() ==> basis[i] != basis[j]
}

/// `q` in the new basis: its vector `a′` satisfies `Aᵀ · a′ = a`, and its
/// product is the old product plus `<a′, y>`, `y` the basis products.
pub open spec fn rebased(q: Sample, old: Sample, rows: Seq<u64>, y: u64) -> bool {
    &&& encode(rows, q.a) == old.a
    &&& q.product == (old.product != inner(q.a, y))
}

/// `after` holds the samples of `pool` that the basis does not name, each
/// once and rebased: entry `p` is sample `src[p]` of `pool`, at distinct
/// positions outside the basis.
pub open spec fn rebased_map(
    after: Seq<Sample>,
    pool: Seq<Sample>,
    basis: Seq<usize>,
    src: Seq<int>,
) -> bool {
    &&& src.len() == after.len()
    &&& forall|p: int|
        0 <= p < after.len() ==> 0 <= #[trigger] src[p] < pool.len() && !basis.contains(
            src[p] as usize,
        ) && rebased(
            after[p],
            pool[src[p]],
            drawn_rows(pool, basis),
            product_word(pool, basis, basis.len()),
        )
    &&& forall|p: int, q: int|
        0 <= p < after.len() && 0 <= q < after.len() && p != q ==> #[trigger] src[p]
            != #[trigger] src[q]
}

proof fn lemma_encode_fits(rows: Seq<u64>, c: u64, n: nat, k: u64)
    requires
        n <= rows.len(),
        k <= 64,
        forall|i: int| 0 <= i < rows.len() ==> #[trigger] rows[i] <= low_mask(k),
    ensures
        encode_upto(rows, c, n) <= low_mask(k),
    decreases n,
{
    if n > 0 {
        lemma_encode_fits(rows, c, (n - 1) as nat, k);
        let e = encode_upto(rows, c, (n - 1) as nat);
        if crate::bits::bit(c, (n - 1) as u64) {
            lemma_xor_fits(e, rows[n - 1], k);
        } else {
            lemma_xor_fits(e, 0, k);
        }
    }
}

/// The first `n` rows' inner products with `s`, packed into a word: `A · s`.
pub open spec fn image_word(rows: Seq<u64>, s: u64, n: nat) -> u64
    decreases n,
{
    if n == 0 {
        0u64
    } else {
        image_word(rows, s, (n - 1) as nat) | ((if inner(rows[n - 1], s) {
            1u64
        } else {
            0u64
        }) << ((n - 1) as u64))
    }
}

proof fn lemma_pack_step(x: u64, y: u64, bx: u64, by: u64, n: u64)
    by (bit_vector)
    requires
        n < 63,
        x <= low_mask(n),
        y <= low_mask(n),
        bx <= 1u64,
        by <= 1u64,
    ensures
        (x | (bx << n)) ^ (y | (by << n)) == (x ^ y) | ((bx ^ by) << n),
        x | (bx << n) <= low_mask((n + 1) as u64),
{
}

proof fn lemma_image_step(x: u64, img: u64, n: u64, b: u64)
    by (bit_vector)
    requires
        n < 63,
        img <= low_mask(n),
        b <= 1u64,
    ensures
        parity((x & low_mask((n + 1) as u64)) & (img | (b << n))) == parity((x & low_mask(n))
            & img) ^ (if bit(x, n) {
            b
        } else {
            0u64
        }),
{
}

proof fn lemma_and_xor_parity(e: u64, g: u64, s: u64)
    by (bit_vector)
    ensures
        parity((e ^ g) & s) == parity(e & s) ^ parity(g & s),
        parity(0u64 & s) == 0u64,
{
}

/// The noise word is `A · s ⊕ y`, and all three words have `n` bits.
proof fn lemma_noise_word(pool: Seq<Sample>, basis: Seq<usize>, s: u64, n: nat)
    requires
        n <= basis.len(),
        n < 64,
        forall|i: int| 0 <= i < basis.len() ==> #[trigger] basis[i] < pool.len(),
    ensures
        noise_word(pool, basis, s, n) == image_word(drawn_rows(pool, basis), s, n) ^ product_word(
            pool,
            basis,
            n,
        ),
        image_word(drawn_rows(pool, basis), s, n) <= low_mask(n as u64),
        product_word(pool, basis, n) <= low_mask(n as u64),
    decreases n,
{
    let rows = drawn_rows(pool, basis);
    if n == 0 {
        lemma_xor_facts();
        crate::bits::lemma_mask(0, 0, 0);
    } else {
        let m = (n - 1) as nat;
        lemma_noise_word(pool, basis, s, m);
        let q = pool[basis[m as int] as int];
        let bx: u64 = if inner(rows[m as int], s) {
            1
        } else {
            0
        };
        let by: u64 = if q.product {
            1
        } else {
            0
        };
        lemma_pack_step(image_word(rows, s, m), product_word(pool, basis, m), bx, by, m as u64);
        lemma_pack_step(product_word(pool, basis, m), 0, by, 0, m as u64);
        lemma_xor_facts();
        assert(bx ^ by == (if noise(q, s) {
            1u64
        } else {
            0u64
        }));
    }
}

/// Transposition: `<a′, A · s> = <Aᵀ · a′, s>`, on the first `n` rows.
proof fn lemma_transpose(rows: Seq<u64>, a: u64, s: u64, n: nat)
    requires
        n <= rows.len(),
        n < 64,
    ensures
        parity((a & low_mask(n as u64)) & image_word(rows, s, n)) == parity(
            encode_upto(rows, a, n) & s,
        ),
        image_word(rows, s, n) <= low_mask(n as u64),
    decreases n,
{
    lemma_xor_facts();
    if n == 0 {
        crate::bits::lemma_mask(a, 0, 0);
        lemma_and_xor_parity(0, 0, s);
    } else {
        let m = (n - 1) as nat;
        lemma_transpose(rows, a, s, m);
        let img = image_word(rows, s, m);
        let b: u64 = if inner(rows[m as int], s) {
            1
        } else {
            0
        };
        lemma_image_step(a, img, m as u64, b);
        lemma_pack_step(img, 0, b, 0, m as u64);
        let e = encode_upto(rows, a, m);
        let g = if bit(a, m as u64) {
            rows[m as int]
        } else {
            0u64
        };
        lemma_and_xor_parity(e, g, s);
        lemma_parity_xor(rows[m as int] & s, 0);
    }
}

/// Sparse-secret reduction keeps every noise bit: a rebased sample's noise
/// under the new secret, the basis samples' noise word, is its old noise
/// under the old secret.
pub proof fn lemma_rebased_noise(
    pool: Seq<Sample>,
    basis: Seq<usize>,
    s: u64,
    q: Sample,
    old_q: Sample,
)
    requires
        basis.len() <= 63,
        forall|i: int| 0 <= i < basis.len() ==> #[trigger] basis[i] < pool.len(),
        q.a <= low_mask(basis.len() as u64),
        rebased(q, old_q, drawn_rows(pool, basis), product_word(pool, basis, basis.len())),
    ensures
        noise(q, noise_word(pool, basis, s, basis.len())) == noise(old_q, s),
{
    let k = basis.len();
    let rows = drawn_rows(pool, basis);
    let y = product_word(pool, basis, k);
    let img = image_word(rows, s, k);
    lemma_noise_word(pool, basis, s, k);
    lemma_transpose(rows, q.a, s, k);
    crate::bits::lemma_mask(q.a, k as u64, 0);
    lemma_and_xor_parity(q.a & img, q.a & y, 1);
    let a = q.a;
    assert(a & (img ^ y) == (a & img) ^ (a & y)) by (bit_vector);
    lemma_parity_xor(q.a & img, q.a & y);
}

/// Sparse-secret reduction with the basis samples named by `basis`: they
/// leave the pool, every other sample `(a, p)` becomes `(a′, p ⊕ <a′, y>)`
/// with `Aᵀ · a′ = a`, `A` the basis vectors and `y` their products, and the
/// secret becomes the basis samples' noise. Refused, with the oracle
/// unchanged, where the basis is not `k` distinct samples or is dependent.
pub fn reduce_sparse_secret(oracle: &mut LpnOracle, basis: &Vec<usize>) -> (r: Result<
    (),
    SparseError,
>)
    requires
        old(oracle).wf(),
    ensures
        r == Err::<(), SparseError>(SparseError::Configuration) <==> (old(oracle).k > 63
            || !valid_draw(old(oracle).samples@, old(oracle).k as nat, basis@) || !distinct(
            basis@,
        )),
        r is Err ==> *final(oracle) == *old(oracle),
        r == Err::<(), SparseError>(SparseError::Dependent) ==> dependent(
            old(oracle).samples@,
            basis@,
        ),
        r is Ok ==> final(oracle).wf(),
        r is Ok ==> final(oracle).k == old(oracle).k,
        r is Ok ==> final(oracle).secret == noise_word(
            old(oracle).samples@,
            basis@,
            old(oracle).secret,
            basis@.len(),
        ),
        r is Ok ==> final(oracle).samples@.len() + old(oracle).k == old(oracle).samples@.len(),
        r is Ok ==> exists|src: Seq<int>|
            #[trigger] rebased_map(final(oracle).samples@, old(oracle).samples@, basis@, src),
{
    let k = oracle.k;
    if k > 63 {
        return Err(SparseError::Configuration);
    }
    let n = oracle.samples.len();
    let ghost pool = oracle.samples@;
    if basis.len() != k {
        return Err(SparseError::Configuration);
    }
    let mut i: usize = 0;
    while i < k
        invariant
            i <= k,
            basis@.len() == k,
            n == pool.len(),
            pool == old(oracle).samples@,
            k == old(oracle).k,
            *oracle == *old(oracle),
            forall|x: int| 0 <= x < i ==> #[trigger] basis@[x] < n,
            forall|x: int, z: int| 0 <= x < z < i ==> basis@[x] != basis@[z],
        decreases k - i,
    {
        if basis[i] >= n {
            assert(!valid_draw(pool, k as nat, basis@)) by {
                assert(basis@[i as int] >= pool.len());
            }
            return Err(SparseError::Configuration);
        }
        let mut j: usize = 0;
        while j < i
            invariant
                j <= i,
                i < k,
                basis@.len() == k,
                forall|x: int| 0 <= x < j ==> basis@[x] != basis@[i as int],
            decreases i - j,
        {
            if basis[j] == basis[i] {
                assert(!distinct(basis@)) by {
                    assert(basis@[j as int] == basis@[i as int]);
                }
                return Err(SparseError::Configuration);
            }
            j = j + 1;
        }
        i = i + 1;
    }
    let mut rows: Vec<u64> = Vec::new();
    let mut y: u64 = 0;
    let mut e: u64 = 0;
    let mut i: usize = 0;
    while i < k
        invariant
            k <= 63,
            i <= k,
            pool == oracle.samples@,
            oracle.wf(),
            k == oracle.k,
            valid_draw(pool, k as nat, basis@),
            rows@.len() == i,
            forall|x: int| 0 <= x < i ==> #[trigger] rows@[x] == pool[basis@[x] as int].a,
            y == product_word(pool, basis@, i as nat),
            e == noise_word(pool, basis@, oracle.secret, i as nat),
        decreases k - i,
    {
        let q = oracle.samples[basis[i]];
        let b: u64 = if q.product {
            1
        } else {
            0
        };
        let p = parity_of(q.a & oracle.secret);
        let nb: u64 = if q.product != (p == 1) {
            1
        } else {
            0
        };
        rows.push(q.a);
        y = y | (b << (i as u64));
        e = e | (nb << (i as u64));
        i = i + 1;
    }
    proof {
        assert(rows@ =~= drawn_rows(pool, basis@));
        assert forall|x: int| 0 <= x < k implies #[trigger] rows@[x] <= low_mask(k as u64) by {
            assert(sample_fits(pool[basis@[x] as int], k as nat));
        }
    }
    let inv = match invert(&rows) {
        Ok(inv) => inv,
        Err(c) => {
            assert(encode(drawn_rows(pool, basis@), c) == 0u64);
            return Err(SparseError::Dependent);
        },
    };
    let mut marked: Vec<bool> = Vec::new();
    while marked.len() < n
        invariant
            marked@.len() <= n,
            forall|u: int| 0 <= u < marked@.len() ==> !#[trigger] marked@[u],
        decreases n - marked@.len(),
    {
        marked.push(false);
    }
    proof {
        lemma_count_true_all_false(marked@);
    }
    let mut i: usize = 0;
    while i < k
        invariant
            i <= k,
            basis@.len() == k,
            marked@.len() == n,
            n == pool.len(),
            valid_draw(pool, k as nat, basis@),
            distinct(basis@),
            count_true(marked@) == i,
            forall|u: int|
                0 <= u < n ==> #[trigger] marked@[u] == exists|x: int|
                    0 <= x < i && basis@[x] == u as usize,
        decreases k - i,
    {
        proof {
            if marked@[basis@[i as int] as int] {
                let x = choose|x: int| 0 <= x < i && basis@[x] == basis@[i as int];
                assert(basis@[x] != basis@[i as int]);
            }
            lemma_count_true_update(marked@, basis@[i as int] as int);
        }
        marked.set(basis[i], true);
        i = i + 1;
    }
    remove_marked(&mut oracle.samples, &marked);
    let ghost kept = oracle.samples@;
    let ghost src = choose|src: Seq<int>| #[trigger] kept_map(kept, pool, marked@, src);
    let m = oracle.samples.len();
    let mut p: usize = 0;
    while p < m
        invariant
            k <= 63,
            k == oracle.k,
            p <= m,
            m == oracle.samples@.len(),
            m == kept.len(),
            inv@.len() == k,
            rows@ == drawn_rows(pool, basis@),
            rows@.len() == k,
            y == product_word(pool, basis@, k as nat),
            forall|j: int|
                0 <= j < k ==> encode(rows@, #[trigger] inv@[j]) == 1u64 << (j as u64) && inv@[j]
                    <= low_mask(k as u64),
            kept_map(kept, pool, marked@, src),
            forall|x: int| 0 <= x < pool.len() ==> sample_fits(#[trigger] pool[x], k as nat),
            forall|u: int|
                0 <= u < n ==> #[trigger] marked@[u] == exists|x: int|
                    0 <= x < k && basis@[x] == u as usize,
            marked@.len() == n,
            n == pool.len(),
            forall|x: int| p <= x < m ==> #[trigger] oracle.samples@[x] == kept[x],
            forall|x: int|
                0 <= x < p ==> rebased(
                    #[trigger] oracle.samples@[x],
                    pool[src[x]],
                    drawn_rows(pool, basis@),
                    y,
                ) && sample_fits(oracle.samples@[x], k as nat),
        decreases m - p,
    {
        let q = oracle.samples[p];
        let mut a2: u64 = 0;
        let mut j: usize = 0;
        while j < k
            invariant
                j <= k,
                k <= 63,
                inv@.len() == k,
                a2 == encode_upto(inv@, q.a, j as nat),
            decreases k - j,
        {
            if (q.a >> (j as u64)) & 1u64 == 1u64 {
                a2 = a2 ^ inv[j];
            } else {
                proof {
                    crate::bits::lemma_xor_facts();
                }
            }
            j = j + 1;
        }
        let par = parity_of(a2 & y);
        let q2 = Sample { a: a2, product: q.product != (par == 1) };
        proof {
            let u = src[p as int];
            assert(0 <= u < pool.len() && !marked@[u] && pool[u] == kept[p as int]);
            lemma_apply_inverse(rows@, inv@, q.a, k as nat);
            assert(sample_fits(pool[u], k as nat));
            crate::bits::lemma_mask(q.a, k as u64, 0);
            assert(!basis@.contains(u as usize)) by {
                if basis@.contains(u as usize) {
                    let x = choose|x: int| 0 <= x < k && basis@[x] == u as usize;
                }
            }
            assert(rebased(q2, pool[u], drawn_rows(pool, basis@), y));
            lemma_encode_fits(inv@, q.a, k as nat, k as u64);
        }
        oracle.samples.set(p, q2);
        p = p + 1;
    }
    proof {
        assert forall|x: int| 0 <= x < m implies 0 <= #[trigger] src[x] < pool.len()
            && !basis@.contains(src[x] as usize) by {
            let u = src[x];
            assert(!marked@[u]);
            if basis@.contains(u as usize) {
                let z = choose|z: int| 0 <= z < basis@.len() && basis@[z] == u as usize;
                assert(marked@[u]);
            }
        }
        assert(rebased_map(oracle.samples@, pool, basis@, src));
    }
    oracle.secret = e;
    assert(pool == old(oracle).samples@);
    assert(rebased_map(oracle.samples@, old(oracle).samples@, basis@, src));
    Ok(())
}

} // verus!
