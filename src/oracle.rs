//! Labelled samples `(a, <a, s> ⊕ e)` of an LPN instance, and the oracle that
//! holds the secret, the current dimension and the pool of samples.
use vstd::prelude::*;
use crate::bits::{bit, bits_of, inner, lemma_mask, lemma_parity_xor, low_mask, low_mask_of, parity};
use crate::vector::BinVector;

verus! {

/// One sample: the vector `a`, packed into a word, and the product bit
/// `<a, s> ⊕ e`.
#[derive(Clone, Copy, Debug, PartialEq, Eq, Structural)]
pub struct Sample {
    pub a: u64,
    pub product: bool,
}

/// The sum over GF(2) of two samples.
pub open spec fn sample_xor(x: Sample, y: Sample) -> Sample {
    Sample { a: x.a ^ y.a, product: x.product != y.product }
}

/// The noise bit of a sample under secret `s`: its product bit minus `<a, s>`.
pub open spec fn noise(q: Sample, s: u64) -> bool {
    q.product != inner(q.a, s)
}

/// The number of set bits among the first `n` bits of `x`.
pub open spec fn ones(x: u64, n: nat) -> nat
    decreases n,
{
    if n == 0 {
        0
    } else {
        ones(x, (n - 1) as nat) + if bit(x, (n - 1) as u64) {
            1nat
        } else {
            0nat
        }
    }
}

/// A sample's vector has no set bit at a position `>= k`.
pub open spec fn sample_fits(q: Sample, k: nat) -> bool {
    q.a <= low_mask(k as u64)
}

proof fn lemma_and_xor(x: u64, y: u64, s: u64)
    by (bit_vector)
    ensures
        (x ^ y) & s == (x & s) ^ (y & s),
{
}

/// Adding two samples adds their products, and their noise bits under every
/// secret.
pub proof fn lemma_sample_xor_linear(x: Sample, y: Sample, s: u64)
    ensures
        sample_xor(x, y).a == x.a ^ y.a,
        sample_xor(x, y).product == (x.product != y.product),
        noise(sample_xor(x, y), s) == (noise(x, s) != noise(y, s)),
{
    lemma_and_xor(x.a, y.a, s);
    lemma_parity_xor(x.a & s, y.a & s);
    lemma_parity_xor(y.a & s, 0u64);
    lemma_parity_xor(x.a & s, 0u64);
}

impl Sample {
    /// The sample with vector `v` and product bit `product`.
    pub fn from_binvector(v: &BinVector, product: bool) -> (r: Sample)
        ensures
            r.a == v.word(),
            r.product == product,
    {
        Sample { a: v.as_u64(), product }
    }

    /// Adds `other` into `self` over GF(2): vectors and products both.
    pub fn xor_into(&mut self, other: &Sample)
        ensures
            *final(self) == sample_xor(*old(self), *other),
    {
        self.a = self.a ^ other.a;
        self.product = self.product != other.product;
    }

    /// The Hamming weight of the vector.
    pub fn count_ones(&self) -> (r: u32)
        ensures
            r == ones(self.a, 64),
    {
        let mut r: u32 = 0;
        let mut i: u64 = 0;
        while i < 64
            invariant
                i <= 64,
                r == ones(self.a, i as nat),
                r <= i,
            decreases 64 - i,
        {
            if (self.a >> i) & 1u64 == 1u64 {
                r = r + 1;
            }
            i = i + 1;
        }
        r
    }

    /// The product bit.
    pub fn get_product(&self) -> (r: bool)
        ensures
            r == self.product,
    {
        self.product
    }

    /// Clears every bit of the vector at a position `>= k`.
    pub fn truncate(&mut self, k: usize)
        requires
            k <= 64,
        ensures
            final(self).a == old(self).a & low_mask(k as u64),
            final(self).product == old(self).product,
            sample_fits(*final(self), k as nat),
    {
        let a = self.a;
        proof {
            lemma_mask(a, k as u64, 0);
        }
        self.a = a & low_mask_of(k as u64);
    }
}

/// The oracle of an LPN instance of dimension `k`: the secret, and the pool
/// of samples under reduction.
#[derive(Clone, Debug)]
pub struct LpnOracle {
    pub k: usize,
    pub secret: u64,
    pub samples: Vec<Sample>,
}

impl LpnOracle {
    /// At most 64 dimensions, and every sample's vector lives in the low `k`
    /// bits.
    pub open spec fn wf(&self) -> bool {
        &&& self.k <= 64
        &&& forall|i: int|
            0 <= i < self.samples@.len() ==> sample_fits(#[trigger] self.samples@[i], self.k as nat)
    }

    /// An oracle of dimension `k` for secret `secret`, with no samples yet.
    pub fn new(k: usize, secret: u64) -> (r: LpnOracle)
        requires
            k <= 64,
        ensures
            r.wf(),
            r.k == k,
            r.secret == secret,
            r.samples@ == Seq::<Sample>::empty(),
    {
        LpnOracle { k, secret, samples: Vec::new() }
    }

    /// The current dimension.
    pub fn get_k(&self) -> (r: usize)
        ensures
            r == self.k,
    {
        self.k
    }

    /// Appends the sample with vector `a` and noise bit `e`: its product is
    /// `<a, s> ⊕ e`.
    pub fn add_sample(&mut self, a: u64, e: bool)
        requires
            old(self).wf(),
            a <= low_mask(old(self).k as u64),
        ensures
            final(self).wf(),
            final(self).k == old(self).k,
            final(self).secret == old(self).secret,
            final(self).samples@ == old(self).samples@.push(
                Sample { a, product: inner(a, old(self).secret) != e },
            ),
    {
        let p = crate::bits::parity_of(a & self.secret);
        let q = Sample { a, product: (p == 1) != e };
        self.samples.push(q);
    }

    /// The first `k` bits of the secret.
    pub fn secret_bits(&self) -> (r: BinVector)
        requires
            self.k <= 64,
        ensures
            r.wf(),
            r@ == bits_of(self.secret, self.k as nat),
    {
        let s = self.secret;
        let k = self.k as u64;
        let w = s & low_mask_of(k);
        proof {
            lemma_mask(s, k, 0);
        }
        let r = BinVector::from_word(w, self.k);
        assert forall|i: int| 0 <= i < k implies #[trigger] bits_of(w, k as nat)[i] == bits_of(
            s,
            k as nat,
        )[i] by {
            let j = i as u64;
            lemma_mask(s, k, j);
        }
        assert(bits_of(w, k as nat) =~= bits_of(s, k as nat));
        r
    }

    /// Sets the dimension to `k` and clears every bit at a position `>= k`
    /// of every sample's vector.
    pub fn truncate(&mut self, k: usize)
        requires
            old(self).wf(),
            k <= old(self).k,
        ensures
            final(self).wf(),
            final(self).k == k,
            final(self).secret == old(self).secret,
            final(self).samples@.len() == old(self).samples@.len(),
            forall|i: int|
                0 <= i < final(self).samples@.len() ==> (#[trigger] final(self).samples@[i]).a
                    == old(self).samples@[i].a & low_mask(k as u64) && final(self).samples@[i].product
                    == old(self).samples@[i].product,
            forall|i: int|
                0 <= i < final(self).samples@.len() ==> sample_fits(
                    #[trigger] final(self).samples@[i],
                    k as nat,
                ),
    {
        let n = self.samples.len();
        let mut i: usize = 0;
        while i < n
            invariant
                n == self.samples@.len(),
                n == old(self).samples@.len(),
                i <= n,
                k <= 64,
                self.k == old(self).k,
                self.secret == old(self).secret,
                forall|j: int|
                    0 <= j < i ==> (#[trigger] self.samples@[j]).a == old(self).samples@[j].a
                        & low_mask(k as u64) && self.samples@[j].product
                        == old(self).samples@[j].product && sample_fits(
                        self.samples@[j],
                        k as nat,
                    ),
                forall|j: int| i <= j < n ==> #[trigger] self.samples@[j] == old(self).samples@[j],
            decreases n - i,
        {
            let mut q = self.samples[i];
            q.truncate(k);
            self.samples.set(i, q);
            i = i + 1;
        }
        self.k = k;
    }
}

} // verus!
