//! Covering-code reduction: each sample's low bits are decoded to the nearest
//! codeword of a small code and replaced by that codeword's message.
use vstd::prelude::*;
use crate::bits::{lemma_or_fits, lemma_shift_down_fits, lemma_shift_up_fits, low_mask};
use crate::code::{code_wf, decode_word, message_of, reduced_vector, BinaryCode, CodeModel};
use crate::oracle::{sample_fits, LpnOracle};

verus! {

/// Why a covering-code reduction is refused.
#[derive(Clone, Copy, Debug, PartialEq, Eq, Structural)]
pub enum CoveringError {
    /// The code is longer than the current dimension.
    CodeTooLong,
}

proof fn lemma_reduced_fits(c: u64, a: u64, n: u64, d: u64, k: u64)
    requires
        d <= n,
        n <= k,
        k <= 64,
        a <= low_mask(k),
    ensures
        (c & low_mask(d)) | ((a >> n) << d) <= low_mask((k - n + d) as u64),
{
    lemma_shift_down_fits(a, n, k);
    lemma_shift_up_fits(a >> n, (k - n) as u64, d);
    let y = c & low_mask(d);
    crate::bits::lemma_mask(c, d, 0);
    lemma_or_fits(y, (a >> n) << d, d, (k - n + d) as u64);
}

proof fn lemma_reduced_vector_fits(m: CodeModel, a: u64, k: nat)
    requires
        code_wf(m),
        m.length <= k,
        k <= 64,
        a <= low_mask(k as u64),
    ensures
        reduced_vector(m, a) <= low_mask((k - m.length + m.dimension) as u64),
{
    let c = decode_word(m, a & low_mask(m.length as u64));
    assert(message_of(m, c) == c & low_mask(m.dimension as u64));
    lemma_reduced_fits(c, a, m.length as u64, m.dimension as u64, k as u64);
}

/// Reduces the dimension from `k` to `k − n + m` with an `[n, m]` code: the
/// low `n` bits of every sample's vector are decoded and replaced by the `m`
/// bits of the message, the bits above move down, and no sample is dropped.
/// Refused, with the oracle unchanged, where the code is longer than `k`.
pub fn reduce_covering_code<C: BinaryCode>(oracle: &mut LpnOracle, code: &C) -> (r: Result<
    (),
    CoveringError,
>)
    requires
        old(oracle).wf(),
    ensures
        code.model().length > old(oracle).k ==> r == Err::<(), CoveringError>(
            CoveringError::CodeTooLong,
        ) && *final(oracle) == *old(oracle),
        code.model().length <= old(oracle).k ==> r is Ok,
        r is Ok ==> final(oracle).wf(),
        r is Ok ==> final(oracle).k == old(oracle).k - code.model().length + code.model().dimension,
        r is Ok ==> final(oracle).secret == old(oracle).secret,
        r is Ok ==> final(oracle).samples@.len() == old(oracle).samples@.len(),
        r is Ok ==> forall|i: int|
            0 <= i < final(oracle).samples@.len() ==> (#[trigger] final(oracle).samples@[i]).a
                == reduced_vector(code.model(), old(oracle).samples@[i].a)
                && final(oracle).samples@[i].product == old(oracle).samples@[i].product,
{
    let tables = code.syndrome_code();
    let n = tables.length();
    let d = tables.dimension();
    if n > oracle.k {
        return Err(CoveringError::CodeTooLong);
    }
    proof {
        code.lemma_model_wf();
    }
    let k = oracle.k;
    let new_k = k - n + d;
    let ghost m = code.model();
    let count = oracle.samples.len();
    let mut i: usize = 0;
    while i < count
        invariant
            tables.wf(),
            tables@ == m,
            m.length == n,
            m.dimension == d,
            n <= k,
            d <= n,
            k <= 64,
            new_k == k - n + d,
            oracle.k == k,
            oracle.secret == old(oracle).secret,
            count == old(oracle).samples@.len(),
            oracle.samples@.len() == count,
            i <= count,
            forall|j: int|
                0 <= j < count ==> sample_fits(#[trigger] old(oracle).samples@[j], k as nat),
            forall|j: int|
                0 <= j < i ==> (#[trigger] oracle.samples@[j]).a == reduced_vector(
                    m,
                    old(oracle).samples@[j].a,
                ) && oracle.samples@[j].product == old(oracle).samples@[j].product
                    && sample_fits(oracle.samples@[j], new_k as nat),
            forall|j: int| i <= j < count ==> #[trigger] oracle.samples@[j] == old(oracle).samples@[j],
        decreases count - i,
    {
        let mut q = oracle.samples[i];
        proof {
            lemma_reduced_vector_fits(m, q.a, k as nat);
        }
        tables.decode_sample(&mut q);

        oracle.samples.set(i, q);
        i = i + 1;
    }
    oracle.k = new_k;
    Ok(())
}

} // verus!
