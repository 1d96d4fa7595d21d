//! Words as vectors over GF(2): parity, masks, bit windows, and the
//! matrix-vector products that syndrome decoding and encoding rest on.
use vstd::prelude::*;

verus! {

/// Parity of the number of set bits of `x`, as 0 or 1 (the inner product
/// over GF(2) of `x` with the all-ones vector).
pub open spec fn parity(x: u64) -> u64 {
    let x1 = x ^ (x >> 32u64);
    let x2 = x1 ^ (x1 >> 16u64);
    let x3 = x2 ^ (x2 >> 8u64);
    let x4 = x3 ^ (x3 >> 4u64);
    let x5 = x4 ^ (x4 >> 2u64);
    let x6 = x5 ^ (x5 >> 1u64);
    x6 & 1u64
}

/// Inner product over GF(2) of two words.
pub open spec fn inner(a: u64, s: u64) -> bool {
    parity(a & s) == 1u64
}

/// The Hamming weight of `x`: its number of set bits.
pub open spec fn weight(x: u64) -> u64 {
    let x1 = (x - ((x >> 1u64) & 0x5555_5555_5555_5555u64)) as u64;
    let x2 = ((x1 & 0x3333_3333_3333_3333u64) + ((x1 >> 2u64) & 0x3333_3333_3333_3333u64)) as u64;
    let x3 = ((x2 + (x2 >> 4u64)) as u64) & 0x0f0f_0f0f_0f0f_0f0fu64;
    let x4 = (x3 + (x3 >> 8u64)) as u64;
    let x5 = (x4 + (x4 >> 16u64)) as u64;
    let x6 = (x5 + (x5 >> 32u64)) as u64;
    x6 & 0x7fu64
}

/// Bit `i` of `x`.
pub open spec fn bit(x: u64, i: u64) -> bool {
    (x >> i) & 1u64 == 1u64
}

/// The word whose `n` low bits are set and whose other bits are clear.
pub open spec fn low_mask(n: u64) -> u64 {
    if n >= 64 {
        0xffff_ffff_ffff_ffffu64
    } else {
        ((1u64 << n) - 1u64) as u64
    }
}

/// The `b` bits of `x` at positions `lo .. lo + b`, as an integer below `2^b`.
pub open spec fn window(x: u64, lo: u64, b: u64) -> u64 {
    (x >> lo) & low_mask(b)
}

/// The first `n` bits of `x`, lowest position first.
pub open spec fn bits_of(x: u64, n: nat) -> Seq<bool> {
    Seq::new(n, |i: int| bit(x, i as u64))
}

/// Syndrome of `c` against the first `j` rows of a parity-check matrix:
/// bit `t` of the result is the inner product of `c` with row `t`.
pub open spec fn syndrome_upto(rows: Seq<u64>, c: u64, j: nat) -> u64
    decreases j,
{
    if j == 0 {
        0u64
    } else {
        syndrome_upto(rows, c, (j - 1) as nat) ^ (parity(c & rows[j - 1]) << ((j - 1) as u64))
    }
}

/// Syndrome `H · c` of `c`, packed into a word, row `t` of `H` giving bit `t`.
pub open spec fn syndrome(rows: Seq<u64>, c: u64) -> u64 {
    syndrome_upto(rows, c, rows.len())
}

/// Sum over GF(2) of the first `i` generator rows selected by the bits of `m`.
pub open spec fn encode_upto(rows: Seq<u64>, m: u64, i: nat) -> u64
    decreases i,
{
    if i == 0 {
        0u64
    } else {
        encode_upto(rows, m, (i - 1) as nat) ^ (if bit(m, (i - 1) as u64) {
            rows[i - 1]
        } else {
            0u64
        })
    }
}

/// The codeword `m · G` of message `m` under generator rows `rows`.
pub open spec fn encode(rows: Seq<u64>, m: u64) -> u64 {
    encode_upto(rows, m, rows.len())
}

/// Parity is linear.
pub proof fn lemma_parity_xor(x: u64, y: u64)
    by (bit_vector)
    ensures
        parity(x ^ y) == parity(x) ^ parity(y),
        parity(x) <= 1u64,
        parity(0u64) == 0u64,
        (parity(x) ^ parity(y) == 1u64) == ((parity(x) == 1u64) != (parity(y) == 1u64)),
{
}

/// Sums over GF(2) of words.
pub proof fn lemma_xor_facts()
    by (bit_vector)
    ensures
        forall|x: u64| #[trigger] (x ^ x) == 0u64,
        forall|x: u64| #[trigger] (x ^ 0u64) == x,
        forall|x: u64| #[trigger] (0u64 ^ x) == x,
        forall|x: u64, y: u64| #[trigger] (x ^ y) == y ^ x,
        forall|x: u64, y: u64| #[trigger] ((x ^ y) ^ y) == x,
        forall|x: u64, y: u64| #[trigger] (x ^ (x ^ y)) == y,
        forall|m: u64| #[trigger] (0u64 & m) == 0u64,
        forall|c: u64| !#[trigger] bit(0u64, c),
{
}

/// Masking a word to its `n` low bits.
pub proof fn lemma_mask(w: u64, n: u64, i: u64)
    by (bit_vector)
    requires
        n <= 64,
    ensures
        w & low_mask(n) <= low_mask(n),
        w & low_mask(n) <= w,
        w <= low_mask(n) ==> w & low_mask(n) == w,
        i < 64 ==> bit(w & low_mask(n), i) == (i < n && bit(w, i)),
        low_mask(0u64) == 0u64,
        n < 64 ==> (1u64 << n) >= 1u64,
        n == 64 ==> w >> n == 0u64,
        1u64 << 0u64 == 1u64,
{
}

/// The parity of zero, and parity as a bit.
pub proof fn lemma_parity_facts()
    by (bit_vector)
    ensures
        forall|h: u64| #[trigger] parity(0u64 & h) == 0u64,
        forall|x: u64| #[trigger] parity(x) <= 1u64,
{
}

/// A sum of two words that fit in `n` bits fits in `n` bits.
pub proof fn lemma_xor_fits(x: u64, y: u64, n: u64)
    by (bit_vector)
    requires
        n <= 64,
        x <= low_mask(n),
        y <= low_mask(n),
    ensures
        x ^ y <= low_mask(n),
{
}

/// Shifting down by `n` a word of `k` bits leaves a word of `k − n` bits.
pub proof fn lemma_shift_down_fits(a: u64, n: u64, k: u64)
    by (bit_vector)
    requires
        n <= k,
        k <= 64,
        a <= low_mask(k),
    ensures
        a >> n <= low_mask((k - n) as u64),
{
}

/// Shifting up by `d` a word of `j` bits gives a word of `j + d` bits whose
/// low `d` bits are clear.
pub proof fn lemma_shift_up_fits(x: u64, j: u64, d: u64)
    by (bit_vector)
    requires
        j + d <= 64,
        x <= low_mask(j),
    ensures
        x << d <= low_mask((j + d) as u64),
        (x << d) & low_mask(d) == 0u64,
{
}

/// The union of a word of `d` bits and a word of `w >= d` bits has `w` bits.
pub proof fn lemma_or_fits(y: u64, z: u64, d: u64, w: u64)
    by (bit_vector)
    requires
        d <= w,
        w <= 64,
        y <= low_mask(d),
        z <= low_mask(w),
    ensures
        y | z <= low_mask(w),
{
}

proof fn lemma_syndrome_step_xor(a: u64, b: u64, c: u64, e: u64, h: u64, j: u64)
    by (bit_vector)
    requires
        j < 64,
    ensures
        (a ^ b) ^ (parity((c ^ e) & h) << j) == (a ^ (parity(c & h) << j)) ^ (b ^ (parity(e & h)
            << j)),
{
}

proof fn lemma_syndrome_step_bound(a: u64, x: u64, j: u64)
    by (bit_vector)
    requires
        j < 63,
        a < (1u64 << j),
    ensures
        a ^ (parity(x) << j) < (1u64 << (j + 1)),
{
}

proof fn lemma_syndrome_step_zero(a: u64, p: u64, j: u64)
    by (bit_vector)
    requires
        a == 0u64,
        p == 0u64,
    ensures
        a ^ (p << j) == 0u64,
{
}

/// The syndrome is linear: `H · (c ⊕ e) = H · c ⊕ H · e`.
pub proof fn lemma_syndrome_upto_xor(rows: Seq<u64>, c: u64, e: u64, j: nat)
    requires
        j <= rows.len(),
        j <= 64,
    ensures
        syndrome_upto(rows, c ^ e, j) == syndrome_upto(rows, c, j) ^ syndrome_upto(rows, e, j),
    decreases j,
{
    if j == 0 {
        lemma_xor_facts();
    } else {
        lemma_syndrome_upto_xor(rows, c, e, (j - 1) as nat);
        lemma_syndrome_step_xor(
            syndrome_upto(rows, c, (j - 1) as nat),
            syndrome_upto(rows, e, (j - 1) as nat),
            c,
            e,
            rows[j - 1],
            (j - 1) as u64,
        );
    }
}

pub proof fn lemma_syndrome_xor(rows: Seq<u64>, c: u64, e: u64)
    requires
        rows.len() <= 64,
    ensures
        syndrome(rows, c ^ e) == syndrome(rows, c) ^ syndrome(rows, e),
{
    lemma_syndrome_upto_xor(rows, c, e, rows.len());
}

/// A syndrome over `j` rows is below `2^j`.
pub proof fn lemma_syndrome_upto_bound(rows: Seq<u64>, c: u64, j: nat)
    requires
        j <= rows.len(),
        j < 64,
    ensures
        syndrome_upto(rows, c, j) < (1u64 << (j as u64)),
    decreases j,
{
    if j == 0 {
        lemma_mask(0, 0, 0);
    } else {
        lemma_syndrome_upto_bound(rows, c, (j - 1) as nat);
        lemma_syndrome_step_bound(
            syndrome_upto(rows, c, (j - 1) as nat),
            c & rows[j - 1],
            (j - 1) as u64,
        );
    }
}

/// A word orthogonal to every row has syndrome zero.
pub proof fn lemma_syndrome_upto_zero(rows: Seq<u64>, c: u64, j: nat)
    requires
        j <= rows.len(),
        forall|t: int| 0 <= t < j ==> parity(c & #[trigger] rows[t]) == 0u64,
    ensures
        syndrome_upto(rows, c, j) == 0u64,
    decreases j,
{
    if j > 0 {
        lemma_syndrome_upto_zero(rows, c, (j - 1) as nat);
        lemma_syndrome_step_zero(
            syndrome_upto(rows, c, (j - 1) as nat),
            parity(c & rows[j - 1]),
            (j - 1) as u64,
        );
    }
}

/// Exact parity of a word.
pub fn parity_of(x: u64) -> (r: u64)
    ensures
        r == parity(x),
        r <= 1,
{
    let x1 = x ^ (x >> 32u64);
    let x2 = x1 ^ (x1 >> 16u64);
    let x3 = x2 ^ (x2 >> 8u64);
    let x4 = x3 ^ (x3 >> 4u64);
    let x5 = x4 ^ (x4 >> 2u64);
    let x6 = x5 ^ (x5 >> 1u64);
    proof {
        lemma_parity_xor(x, 0u64);
    }
    x6 & 1u64
}

/// The mask with the `n` low bits set.
pub fn low_mask_of(n: u64) -> (r: u64)
    requires
        n <= 64,
    ensures
        r == low_mask(n),
{
    if n >= 64 {
        0xffff_ffff_ffff_ffffu64
    } else {
        proof {
            lemma_mask(0, n, 0);
        }
        (1u64 << n) - 1u64
    }
}

/// The window of `b` bits of `x` starting at position `lo`.
pub fn window_of(x: u64, lo: u64, b: u64) -> (r: u64)
    requires
        lo + b <= 64,
    ensures
        r == window(x, lo, b),
{
    if lo >= 64 {
        proof {
            lemma_mask(x, lo, 0);
            lemma_xor_facts();
        }
        0u64
    } else {
        (x >> lo) & low_mask_of(b)
    }
}

/// Syndrome `H · c` of `c` against the parity-check rows `rows`.
pub fn syndrome_of(rows: &Vec<u64>, c: u64) -> (r: u64)
    requires
        rows@.len() < 64,
    ensures
        r == syndrome(rows@, c),
        r < (1u64 << (rows@.len() as u64)),
{
    let mut s: u64 = 0;
    let mut j: usize = 0;
    while j < rows.len()
        invariant
            j <= rows@.len(),
            rows@.len() < 64,
            s == syndrome_upto(rows@, c, j as nat),
        decreases rows@.len() - j,
    {
        let p = parity_of(c & rows[j]);
        s = s ^ (p << (j as u64));
        j = j + 1;
    }
    proof {
        lemma_syndrome_upto_bound(rows@, c, rows@.len());
    }
    s
}

} // verus!
