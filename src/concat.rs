//! A code made of smaller codes side by side: a word is split across the
//! components in order, lowest bits first, and each block is decoded on its
//! own.
use vstd::prelude::*;
use crate::bits::{lemma_mask, lemma_or_fits, lemma_shift_down_fits, lemma_shift_up_fits, low_mask, low_mask_of};
use crate::code::{code_wf, decode_word, message_of, CodeError, CodeModel, SyndromeCode};
use crate::vector::BinVector;

verus! {

/// The sum of the components' lengths.
pub open spec fn total_length(parts: Seq<CodeModel>) -> nat
    decreases parts.len(),
{
    if parts.len() == 0 {
        0
    } else {
        parts[0].length + total_length(parts.drop_first())
    }
}

/// The sum of the components' dimensions.
pub open spec fn total_dimension(parts: Seq<CodeModel>) -> nat
    decreases parts.len(),
{
    if parts.len() == 0 {
        0
    } else {
        parts[0].dimension + total_dimension(parts.drop_first())
    }
}

/// The codeword that blockwise decoding gives for `c`: each component
/// decodes its block, and the codewords follow one another in order.
pub open spec fn concat_codeword(parts: Seq<CodeModel>, c: u64) -> u64
    decreases parts.len(),
{
    if parts.len() == 0 {
        0u64
    } else {
        let p = parts[0];
        decode_word(p, c & low_mask(p.length as u64)) | (concat_codeword(
            parts.drop_first(),
            c >> (p.length as u64),
        ) << (p.length as u64))
    }
}

/// The message that blockwise decoding gives for `c`: the components'
/// messages, one after another in order.
pub open spec fn concat_message(parts: Seq<CodeModel>, c: u64) -> u64
    decreases parts.len(),
{
    if parts.len() == 0 {
        0u64
    } else {
        let p = parts[0];
        message_of(p, decode_word(p, c & low_mask(p.length as u64))) | (concat_message(
            parts.drop_first(),
            c >> (p.length as u64),
        ) << (p.dimension as u64))
    }
}

proof fn lemma_dimension_le_length(parts: Seq<CodeModel>)
    requires
        forall|i: int| 0 <= i < parts.len() ==> code_wf(#[trigger] parts[i]),
    ensures
        total_dimension(parts) <= total_length(parts),
    decreases parts.len(),
{
    if parts.len() > 0 {
        assert forall|i: int| 0 <= i < parts.drop_first().len() implies code_wf(
            #[trigger] parts.drop_first()[i],
        ) by {
            assert(parts.drop_first()[i] == parts[i + 1]);
        }
        lemma_dimension_le_length(parts.drop_first());
    }
}

/// A concatenation of codes that fits in one word.
pub struct ConcatenatedCode {
    parts: Vec<SyndromeCode>,
    length: usize,
    dimension: usize,
}

impl View for ConcatenatedCode {
    type V = Seq<CodeModel>;

    closed spec fn view(&self) -> Seq<CodeModel> {
        self.parts@.map_values(|p: SyndromeCode| p@)
    }
}

impl ConcatenatedCode {
    /// Every component is well formed, and the lengths add up to at most 64.
    pub closed spec fn wf(&self) -> bool {
        &&& forall|i: int| 0 <= i < self.parts@.len() ==> (#[trigger] self.parts@[i]).wf()
        &&& self.length == total_length(self@)
        &&& self.dimension == total_dimension(self@)
        &&& self.length <= 64
    }

    /// The concatenation of `parts`, in order; an error where their lengths add
    /// up to more than 64.
    pub fn new(parts: Vec<SyndromeCode>) -> (r: Result<Self, CodeError>)
        requires
            forall|i: int| 0 <= i < parts@.len() ==> (#[trigger] parts@[i]).wf(),
        ensures
            total_length(parts@.map_values(|p: SyndromeCode| p@)) > 64 ==> r == Err::<
                Self,
                CodeError,
            >(CodeError::TooLong),
            total_length(parts@.map_values(|p: SyndromeCode| p@)) <= 64 ==> r is Ok,
            r matches Ok(c) ==> c.wf() && c@ == parts@.map_values(|p: SyndromeCode| p@),
    {
        let ghost models = parts@.map_values(|p: SyndromeCode| p@);
        let mut length: usize = 0;
        let mut dimension: usize = 0;
        let mut i: usize = parts.len();
        proof {
            assert(models.skip(i as int) =~= Seq::<CodeModel>::empty());
        }
        while i > 0
            invariant
                i <= parts@.len(),
                models == parts@.map_values(|p: SyndromeCode| p@),
                forall|j: int| 0 <= j < parts@.len() ==> (#[trigger] parts@[j]).wf(),
                length == total_length(models.skip(i as int)),
                dimension == total_dimension(models.skip(i as int)),
                dimension <= length,
                length <= 64,
            decreases i,
        {
            let n = parts[i - 1].length();
            let d = parts[i - 1].dimension();
            proof {
                assert(models.skip(i - 1).drop_first() =~= models.skip(i as int));
                assert(models.skip(i - 1)[0] == parts@[i - 1]@);
            }
            if length + n > 64 {
                proof {
                    lemma_total_length_suffix(models, i - 1);
                }
                return Err(CodeError::TooLong);
            }
            length = length + n;
            dimension = dimension + d;
            i = i - 1;
        }
        proof {
            assert(models.skip(0) =~= models);
        }
        Ok(ConcatenatedCode { parts, length, dimension })
    }

    /// The total length.
    pub fn length(&self) -> (r: usize)
        requires
            self.wf(),
        ensures
            r == total_length(self@),
    {
        self.length
    }

    /// The total dimension.
    pub fn dimension(&self) -> (r: usize)
        requires
            self.wf(),
        ensures
            r == total_dimension(self@),
    {
        self.dimension
    }

    fn codeword_from(&self, i: usize, c: u64) -> (r: u64)
        requires
            self.wf(),
            i <= self.parts@.len(),
            c <= low_mask(total_length(self@.skip(i as int)) as u64),
        ensures
            r == concat_codeword(self@.skip(i as int), c),
            r <= low_mask(total_length(self@.skip(i as int)) as u64),
        decreases self.parts@.len() - i,
    {
        proof {
            lemma_total_length_suffix(self@, i as int);
        }
        if i == self.parts.len() {
            assert(self@.skip(i as int) =~= Seq::<CodeModel>::empty());
            return 0;
        }
        let p = &self.parts[i];
        let ghost rest = self@.skip(i + 1);
        proof {
            assert(self@.skip(i as int).drop_first() =~= rest);
            assert(self@.skip(i as int)[0] == p@);
            lemma_total_length_suffix(self@, i + 1);
        }
        let n = p.length() as u64;
        let ghost total = total_length(self@.skip(i as int)) as u64;
        let low = c & low_mask_of(n);
        proof {
            lemma_mask(c, n, 0);
        }
        let w = p.decode_word(low);
        proof {
            lemma_shift_down_fits(c, n, total);
        }
        let upper = self.codeword_from(i + 1, c >> n);
        proof {
            lemma_shift_up_fits(upper, (total - n) as u64, n);
            lemma_or_fits(w, upper << n, n, total);
        }
        w | (upper << n)
    }

    fn message_from(&self, i: usize, c: u64) -> (r: u64)
        requires
            self.wf(),
            i <= self.parts@.len(),
            c <= low_mask(total_length(self@.skip(i as int)) as u64),
        ensures
            r == concat_message(self@.skip(i as int), c),
            r <= low_mask(total_dimension(self@.skip(i as int)) as u64),
        decreases self.parts@.len() - i,
    {
        proof {
            lemma_total_length_suffix(self@, i as int);
        }
        if i == self.parts.len() {
            assert(self@.skip(i as int) =~= Seq::<CodeModel>::empty());
            return 0;
        }
        let p = &self.parts[i];
        let ghost rest = self@.skip(i + 1);
        proof {
            assert(self@.skip(i as int).drop_first() =~= rest);
            assert(self@.skip(i as int)[0] == p@);
            lemma_total_length_suffix(self@, i + 1);
        }
        let n = p.length() as u64;
        let d = p.dimension() as u64;
        let ghost total = total_length(self@.skip(i as int)) as u64;
        let ghost dims = total_dimension(self@.skip(i as int)) as u64;
        let low = c & low_mask_of(n);
        proof {
            lemma_mask(c, n, 0);
        }
        let w = p.decode_word(low);
        let m = w & low_mask_of(d);
        proof {
            lemma_mask(w, d, 0);
        }
        proof {
            lemma_shift_down_fits(c, n, total);
        }
        let upper = self.message_from(i + 1, c >> n);
        proof {
            lemma_shift_up_fits(upper, (dims - d) as u64, d);
            lemma_or_fits(m, upper << d, d, dims);
        }
        m | (upper << d)
    }

    /// The codeword that blockwise decoding gives for `c`; an error where `c`
    /// does not have the total length.
    pub fn decode_to_code(&self, c: &BinVector) -> (r: Result<BinVector, CodeError>)
        requires
            self.wf(),
            c.wf(),
        ensures
            c.len_spec() != total_length(self@) ==> r == Err::<BinVector, CodeError>(
                CodeError::LengthMismatch,
            ),
            c.len_spec() == total_length(self@) ==> r is Ok,
            r matches Ok(v) ==> v.wf() && v.len_spec() == total_length(self@) && v.word()
                == concat_codeword(self@, c.word()),
    {
        if c.len() != self.length {
            return Err(CodeError::LengthMismatch);
        }
        proof {
            assert(self@.skip(0) =~= self@);
        }
        let w = self.codeword_from(0, c.as_u64());
        Ok(BinVector::from_word(w, self.length))
    }

    /// The message that blockwise decoding gives for `c`: the components'
    /// messages in order; an error where `c` does not have the total length.
    pub fn decode_to_message(&self, c: &BinVector) -> (r: Result<BinVector, CodeError>)
        requires
            self.wf(),
            c.wf(),
        ensures
            c.len_spec() != total_length(self@) ==> r == Err::<BinVector, CodeError>(
                CodeError::LengthMismatch,
            ),
            c.len_spec() == total_length(self@) ==> r is Ok,
            r matches Ok(v) ==> v.wf() && v.len_spec() == total_dimension(self@) && v.word()
                == concat_message(self@, c.word()),
    {
        if c.len() != self.length {
            return Err(CodeError::LengthMismatch);
        }
        proof {
            assert(self@.skip(0) =~= self@);
            lemma_total_length_suffix(self@, 0);
        }
        let w = self.message_from(0, c.as_u64());
        Ok(BinVector::from_word(w, self.dimension))
    }
}

/// The lengths of a suffix of the components add up to no more than all of
/// them, and so do its dimensions.
proof fn lemma_total_length_suffix(parts: Seq<CodeModel>, i: int)
    requires
        0 <= i <= parts.len(),
    ensures
        total_length(parts.skip(i)) <= total_length(parts),
        (forall|j: int| 0 <= j < parts.len() ==> code_wf(#[trigger] parts[j])) ==> total_dimension(
            parts.skip(i),
        ) <= total_length(parts.skip(i)),
    decreases i,
{
    if i > 0 {
        lemma_total_length_suffix(parts.drop_first(), i - 1);
        assert(parts.drop_first().skip(i - 1) =~= parts.skip(i));
    } else {
        assert(parts.skip(0) =~= parts);
    }
    if forall|j: int| 0 <= j < parts.len() ==> code_wf(#[trigger] parts[j]) {
        assert forall|j: int| 0 <= j < parts.skip(i).len() implies code_wf(
            #[trigger] parts.skip(i)[j],
        ) by {
            assert(parts.skip(i)[j] == parts[i + j]);
        }
        lemma_dimension_le_length(parts.skip(i));
    }
}

} // verus!
