//! A short vector over GF(2), packed into one machine word.
use vstd::prelude::*;
use crate::bits::{bit, bits_of, lemma_mask, low_mask, low_mask_of};

verus! {

/// A vector of at most 64 bits over GF(2). Bit `i` of the vector is bit `i`
/// of `word`; the bits of `word` at positions `>= len` are clear, so two
/// vectors with the same bits are equal as values.
#[derive(Clone, Copy, Debug, PartialEq, Eq, Structural)]
pub struct BinVector {
    word: u64,
    len: usize,
}

pub proof fn lemma_push_bit(w: u64, n: u64, b: u64, i: u64)
    by (bit_vector)
    requires
        n < 64,
        w <= low_mask(n),
        b <= 1u64,
        i <= n,
    ensures
        w | (b << n) <= low_mask((n + 1) as u64),
        i < n ==> (bit(w | (b << n), i) == bit(w, i)),
        i == n ==> (bit(w | (b << n), i) == (b == 1u64)),
{
}

impl View for BinVector {
    type V = Seq<bool>;

    open spec fn view(&self) -> Seq<bool> {
        bits_of(self.word(), self.len_spec())
    }
}

impl BinVector {
    /// The packed bits.
    pub closed spec fn word(self) -> u64 {
        self.word
    }

    /// The number of bits.
    pub closed spec fn len_spec(self) -> nat {
        self.len as nat
    }

    /// At most 64 bits, and no set bit beyond the length.
    pub open spec fn wf(self) -> bool {
        self.len_spec() <= 64 && self.word() <= low_mask(self.len_spec() as u64)
    }

    /// The empty vector.
    pub fn new() -> (r: Self)
        ensures
            r.wf(),
            r.word() == 0,
            r.len_spec() == 0,
            r@ == Seq::<bool>::empty(),
    {
        let r = BinVector { word: 0, len: 0 };
        assert(r@ =~= Seq::<bool>::empty());
        r
    }

    /// The empty vector; the capacity is always 64 bits.
    pub fn with_capacity(n: usize) -> (r: Self)
        ensures
            r.wf(),
            r.word() == 0,
            r.len_spec() == 0,
            r@ == Seq::<bool>::empty(),
    {
        Self::new()
    }

    /// The vector of the `len` low bits of `word`.
    pub fn from_word(word: u64, len: usize) -> (r: Self)
        requires
            len <= 64,
            word <= low_mask(len as u64),
        ensures
            r.wf(),
            r.word() == word,
            r.len_spec() == len,
            r@ == bits_of(word, len as nat),
    {
        BinVector { word, len }
    }

    /// The vector whose bits are `bits`, the first one lowest.
    pub fn from_bools(bits: &[bool]) -> (r: Self)
        requires
            bits@.len() <= 64,
        ensures
            r.wf(),
            r@ == bits@,
    {
        let mut r = Self::new();
        let mut i: usize = 0;
        while i < bits.len()
            invariant
                i <= bits@.len(),
                bits@.len() <= 64,
                r.wf(),
                r.len_spec() == i,
                r@ == bits@.subrange(0, i as int),
            decreases bits@.len() - i,
        {
            r.push(bits[i]);
            assert(bits@.subrange(0, i as int).push(bits@[i as int]) =~= bits@.subrange(
                0,
                i + 1,
            ));
            i = i + 1;
        }
        assert(bits@.subrange(0, bits@.len() as int) =~= bits@);
        r
    }

    /// The number of bits.
    pub fn len(&self) -> (r: usize)
        ensures
            r == self.len_spec(),
            r == self@.len(),
    {
        self.len
    }

    /// The bits packed into a word, bit `i` of the vector at position `i`.
    pub fn as_u64(&self) -> (r: u64)
        ensures
            r == self.word(),
    {
        self.word
    }

    /// Bit `i`, or `None` past the end.
    pub fn get(&self, i: usize) -> (r: Option<bool>)
        requires
            self.wf(),
        ensures
            i < self@.len() ==> r == Some(self@[i as int]),
            i >= self@.len() ==> r is None,
    {
        if i < self.len {
            Some((self.word >> (i as u64)) & 1u64 == 1u64)
        } else {
            None
        }
    }

    /// Appends one bit.
    pub fn push(&mut self, b: bool)
        requires
            old(self).wf(),
            old(self).len_spec() < 64,
        ensures
            final(self).wf(),
            final(self).len_spec() == old(self).len_spec() + 1,
            final(self)@ == old(self)@.push(b),
    {
        let v: u64 = if b {
            1
        } else {
            0
        };
        let w = self.word;
        let n = self.len as u64;
        proof {
            lemma_push_bit(w, n, v, 0);
        }
        self.word = w | (v << n);
        self.len = self.len + 1;
        assert forall|i: int| 0 <= i < n + 1 implies #[trigger] self@[i] == old(self)@.push(b)[i] by {
            lemma_push_bit(w, n, v, i as u64);
        }
        assert(self@ =~= old(self)@.push(b));
    }

    /// Keeps the first `n` bits and drops the rest.
    pub fn truncate(&mut self, n: usize)
        requires
            old(self).wf(),
        ensures
            final(self).wf(),
            n < old(self).len_spec() ==> final(self)@ == old(self)@.subrange(0, n as int),
            n < old(self).len_spec() ==> final(self).word() == old(self).word() & low_mask(
                n as u64,
            ) && final(self).len_spec() == n,
            n >= old(self).len_spec() ==> *final(self) == *old(self),
    {
        if n < self.len {
            let w = self.word;
            let len = self.len as u64;
            proof {
                lemma_mask(w, n as u64, 0);
            }
            self.word = w & low_mask_of(n as u64);
            self.len = n;
            assert forall|i: int| 0 <= i < n implies #[trigger] self@[i] == old(self)@.subrange(
                0,
                n as int,
            )[i] by {
                lemma_mask(w, n as u64, i as u64);
            }
            assert(self@ =~= old(self)@.subrange(0, n as int));
        }
    }
}

/// A matrix over GF(2) of at most 64 columns, one word per row; bit `j` of
/// a row is its entry in column `j`.
pub struct BinMatrix {
    rows: Vec<u64>,
    ncols: usize,
}

impl BinMatrix {
    /// The rows.
    pub closed spec fn rows(&self) -> Seq<u64> {
        self.rows@
    }

    /// The number of columns.
    pub closed spec fn ncols_spec(&self) -> nat {
        self.ncols as nat
    }

    /// At most 64 columns, and no row with a set bit beyond them.
    pub open spec fn wf(&self) -> bool {
        &&& self.ncols_spec() <= 64
        &&& forall|i: int|
            0 <= i < self.rows().len() ==> #[trigger] self.rows()[i] <= low_mask(
                self.ncols_spec() as u64,
            )
    }

    /// The matrix with rows `rows` and `ncols` columns.
    pub fn from_rows(rows: Vec<u64>, ncols: usize) -> (r: Self)
        requires
            ncols <= 64,
            forall|i: int| 0 <= i < rows@.len() ==> #[trigger] rows@[i] <= low_mask(ncols as u64),
        ensures
            r.wf(),
            r.rows() == rows@,
            r.ncols_spec() == ncols,
    {
        BinMatrix { rows, ncols }
    }

    /// The number of rows.
    pub fn nrows(&self) -> (r: usize)
        ensures
            r == self.rows().len(),
    {
        self.rows.len()
    }

    /// The number of columns.
    pub fn ncols(&self) -> (r: usize)
        ensures
            r == self.ncols_spec(),
    {
        self.ncols
    }

    /// Row `i` as a vector of `ncols` bits.
    pub fn row(&self, i: usize) -> (r: BinVector)
        requires
            self.wf(),
            i < self.rows().len(),
        ensures
            r.wf(),
            r.word() == self.rows()[i as int],
            r@ == bits_of(self.rows()[i as int], self.ncols_spec()),
    {
        BinVector::from_word(self.rows[i], self.ncols)
    }
}

} // verus!
