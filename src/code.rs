//! Small binary linear codes in systematic form, decoded through a table of
//! coset leaders indexed by syndrome.
use vstd::prelude::*;
use crate::bits::{
    bit, encode, encode_upto, weight, lemma_parity_facts, lemma_syndrome_upto_zero, lemma_syndrome_xor,
    lemma_xor_facts, lemma_xor_fits, low_mask, low_mask_of, parity, syndrome, syndrome_of,
};
use crate::oracle::Sample;
use crate::vector::{BinMatrix, BinVector};

verus! {

/// What goes wrong when a code is handed a word of the wrong length.
#[derive(Clone, Copy, Debug, PartialEq, Eq, Structural)]
pub enum CodeError {
    /// The input's length differs from the code's.
    LengthMismatch,
    /// A concatenation of codes longer than 64 bits.
    TooLong,
}

/// The mathematical content of an `[n, k]` code: its generator rows, its
/// parity-check rows, and for each syndrome the error pattern that decoding
/// adds to a word with that syndrome.
pub struct CodeModel {
    pub length: nat,
    pub dimension: nat,
    pub generator: Seq<u64>,
    pub parity_rows: Seq<u64>,
    pub leaders: Seq<u64>,
}

/// A code of length below 64 in systematic form: `G` is `[I | P]`, every
/// generator row is orthogonal to every parity-check row, and the leader
/// stored for each syndrome has that syndrome, the leader of syndrome zero
/// being zero.
pub open spec fn code_wf(m: CodeModel) -> bool {
    &&& 0 < m.length < 64
    &&& m.dimension <= m.length
    &&& m.generator.len() == m.dimension
    &&& m.parity_rows.len() == m.length - m.dimension
    &&& m.leaders.len() == (1u64 << (m.parity_rows.len() as u64)) as nat
    &&& forall|i: int|
        0 <= i < m.dimension ==> #[trigger] m.generator[i] <= low_mask(m.length as u64)
            && m.generator[i] & low_mask(m.dimension as u64) == 1u64 << (i as u64)
    &&& forall|j: int|
        0 <= j < m.parity_rows.len() ==> #[trigger] m.parity_rows[j] <= low_mask(
            m.length as u64,
        )
    &&& forall|i: int, j: int|
        0 <= i < m.dimension && 0 <= j < m.parity_rows.len() ==> parity(
            #[trigger] m.generator[i] & #[trigger] m.parity_rows[j],
        ) == 0u64
    &&& forall|s: int|
        0 <= s < m.leaders.len() ==> #[trigger] m.leaders[s] <= low_mask(m.length as u64)
            && syndrome(m.parity_rows, m.leaders[s]) == s
    &&& m.leaders[0] == 0u64
}

/// The codeword that syndrome decoding gives for the word `c`: `c` plus the
/// leader of its syndrome.
pub open spec fn decode_word(m: CodeModel, c: u64) -> u64 {
    c ^ m.leaders[syndrome(m.parity_rows, c) as int]
}

/// The message of a codeword: its first `dimension` bits.
pub open spec fn message_of(m: CodeModel, c: u64) -> u64 {
    c & low_mask(m.dimension as u64)
}

/// A sample's vector after covering-code reduction: the message decoded from
/// its low `length` bits, followed by its bits from `length` on.
pub open spec fn reduced_vector(m: CodeModel, a: u64) -> u64 {
    message_of(m, decode_word(m, a & low_mask(m.length as u64))) | ((a >> (m.length as u64)) << (
    m.dimension as u64))
}

/// Decoding gives a word with syndrome zero, within the code's length.
pub proof fn lemma_decode_in_code(m: CodeModel, c: u64)
    requires
        code_wf(m),
        c <= low_mask(m.length as u64),
    ensures
        syndrome(m.parity_rows, decode_word(m, c)) == 0u64,
        decode_word(m, c) <= low_mask(m.length as u64),
{
    let s = syndrome(m.parity_rows, c);
    crate::bits::lemma_syndrome_upto_bound(m.parity_rows, c, m.parity_rows.len());
    let e = m.leaders[s as int];
    lemma_syndrome_xor(m.parity_rows, c, e);
    lemma_xor_facts();
    lemma_xor_fits(c, e, m.length as u64);
}

pub proof fn lemma_encode_step(e: u64, g: u64, msg: u64, i: u64, d: u64)
    by (bit_vector)
    requires
        i < d,
        d <= 64,
        e & low_mask(d) == msg & low_mask(i),
        g & low_mask(d) == 1u64 << i,
    ensures
        (e ^ (if bit(msg, i) {
            g
        } else {
            0u64
        })) & low_mask(d) == msg & low_mask((i + 1) as u64),
{
}

proof fn lemma_encode_upto(m: CodeModel, msg: u64, i: nat)
    requires
        code_wf(m),
        i <= m.dimension,
    ensures
        encode_upto(m.generator, msg, i) & low_mask(m.dimension as u64) == msg & low_mask(
            i as u64,
        ),
        syndrome(m.parity_rows, encode_upto(m.generator, msg, i)) == 0u64,
        encode_upto(m.generator, msg, i) <= low_mask(m.length as u64),
    decreases i,
{
    lemma_parity_facts();
    lemma_xor_facts();
    let n = m.length as u64;
    if i == 0 {
        let d = m.dimension as u64;
        crate::bits::lemma_mask(msg, d, 0);
        crate::bits::lemma_mask(msg, 0, 0);
        lemma_syndrome_upto_zero(m.parity_rows, 0u64, m.parity_rows.len());
    } else {
        let j = (i - 1) as nat;
        lemma_encode_upto(m, msg, j);
        let e = encode_upto(m.generator, msg, j);
        let g = m.generator[j as int];
        lemma_encode_step(e, g, msg, j as u64, m.dimension as u64);
        let x = if bit(msg, j as u64) {
            g
        } else {
            0u64
        };
        assert forall|t: int| 0 <= t < m.parity_rows.len() implies parity(
            x & #[trigger] m.parity_rows[t],
        ) == 0u64 by {
            assert(parity(g & m.parity_rows[t]) == 0u64);
        }
        lemma_syndrome_upto_zero(m.parity_rows, x, m.parity_rows.len());
        lemma_syndrome_xor(m.parity_rows, e, x);
        lemma_xor_fits(e, x, m.length as u64);
    }
}

/// Round trip: encoding a message and decoding the codeword gives back the
/// codeword, and its message is the message encoded. So every codeword
/// decodes to itself.
pub proof fn lemma_round_trip(m: CodeModel, msg: u64)
    requires
        code_wf(m),
        msg <= low_mask(m.dimension as u64),
    ensures
        decode_word(m, encode(m.generator, msg)) == encode(m.generator, msg),
        message_of(m, decode_word(m, encode(m.generator, msg))) == msg,
{
    lemma_encode_upto(m, msg, m.dimension);
    lemma_xor_facts();
    let d = m.dimension as u64;
    crate::bits::lemma_mask(msg, d, 0);
}

/// Every error of weight one is its own coset leader: the code corrects any
/// single flipped bit.
pub open spec fn corrects_single_errors(m: CodeModel) -> bool {
    forall|i: u64|
        i < m.length ==> #[trigger] m.leaders[syndrome(m.parity_rows, 1u64 << i) as int] == 1u64
            << i
}

/// Nearest-codeword decoding within distance one: a codeword, or a codeword
/// with one bit flipped, decodes to that codeword.
pub proof fn lemma_nearest_codeword(m: CodeModel, msg: u64, i: u64)
    requires
        code_wf(m),
        corrects_single_errors(m),
        msg <= low_mask(m.dimension as u64),
        i < m.length,
    ensures
        decode_word(m, encode(m.generator, msg)) == encode(m.generator, msg),
        decode_word(m, encode(m.generator, msg) ^ (1u64 << i)) == encode(m.generator, msg),
{
    lemma_round_trip(m, msg);
    lemma_encode_upto(m, msg, m.dimension);
    let c = encode(m.generator, msg);
    let e = 1u64 << i;
    lemma_syndrome_xor(m.parity_rows, c, e);
    lemma_xor_facts();
    assert((c ^ e) ^ e == c);
}

/// Every stored leader has the least weight in its coset: no word of the
/// code's length with the same syndrome is lighter.
pub open spec fn leaders_least_weight(m: CodeModel) -> bool {
    forall|x: u64|
        x <= low_mask(m.length as u64) ==> weight(
            #[trigger] m.leaders[syndrome(m.parity_rows, x) as int],
        ) <= weight(x)
}

/// Decoding moves a word to a nearest codeword: the weight of the change is
/// the least weight of any `x` that turns `c` into a codeword `c ⊕ x`.
pub proof fn lemma_decode_least_weight(m: CodeModel, c: u64, x: u64)
    requires
        code_wf(m),
        leaders_least_weight(m),
        c <= low_mask(m.length as u64),
        x <= low_mask(m.length as u64),
        syndrome(m.parity_rows, c ^ x) == 0u64,
    ensures
        weight(decode_word(m, c) ^ c) <= weight(x),
{
    lemma_syndrome_xor(m.parity_rows, c, x);
    lemma_xor_facts();
    let e = m.leaders[syndrome(m.parity_rows, c) as int];
    assert(syndrome(m.parity_rows, c) == syndrome(m.parity_rows, x)) by {
        let sc = syndrome(m.parity_rows, c);
        let sx = syndrome(m.parity_rows, x);
        assert(sc ^ sx == 0u64);
        assert(sc == sx) by (bit_vector)
            requires
                sc ^ sx == 0u64,
        ;
    }
    assert(decode_word(m, c) ^ c == e) by {
        assert((c ^ e) ^ c == e) by (bit_vector);
    }
    assert(weight(m.leaders[syndrome(m.parity_rows, x) as int]) <= weight(x));
}

/// An `[n, k]` code held as tables: generator rows, parity-check rows and the
/// coset leader of each syndrome.
pub struct SyndromeCode {
    length: usize,
    dimension: usize,
    generator: Vec<u64>,
    parity_rows: Vec<u64>,
    leaders: Vec<u64>,
}

impl View for SyndromeCode {
    type V = CodeModel;

    closed spec fn view(&self) -> CodeModel {
        CodeModel {
            length: self.length as nat,
            dimension: self.dimension as nat,
            generator: self.generator@,
            parity_rows: self.parity_rows@,
            leaders: self.leaders@,
        }
    }
}

impl SyndromeCode {
    /// The tables describe a well-formed code.
    pub open spec fn wf(&self) -> bool {
        code_wf(self@)
    }

    /// The code with the given tables.
    pub fn new(
        length: usize,
        dimension: usize,
        generator: Vec<u64>,
        parity_rows: Vec<u64>,
        leaders: Vec<u64>,
    ) -> (r: Self)
        requires
            code_wf(
                CodeModel {
                    length: length as nat,
                    dimension: dimension as nat,
                    generator: generator@,
                    parity_rows: parity_rows@,
                    leaders: leaders@,
                },
            ),
        ensures
            r.wf(),
            r@ == (CodeModel {
                length: length as nat,
                dimension: dimension as nat,
                generator: generator@,
                parity_rows: parity_rows@,
                leaders: leaders@,
            }),
    {
        SyndromeCode { length, dimension, generator, parity_rows, leaders }
    }

    /// The length `n`.
    pub fn length(&self) -> (r: usize)
        ensures
            r == self@.length,
    {
        self.length
    }

    /// The dimension `k`.
    pub fn dimension(&self) -> (r: usize)
        ensures
            r == self@.dimension,
    {
        self.dimension
    }

    /// The generator matrix `G`, `k × n`.
    pub fn generator_matrix(&self) -> (r: BinMatrix)
        requires
            self.wf(),
        ensures
            r.wf(),
            r.rows() == self@.generator,
            r.ncols_spec() == self@.length,
    {
        BinMatrix::from_rows(self.generator.clone(), self.length)
    }

    /// The parity-check matrix `H`, `(n − k) × n`.
    pub fn parity_check_matrix(&self) -> (r: BinMatrix)
        requires
            self.wf(),
        ensures
            r.wf(),
            r.rows() == self@.parity_rows,
            r.ncols_spec() == self@.length,
    {
        BinMatrix::from_rows(self.parity_rows.clone(), self.length)
    }

    /// Syndrome decoding of a word of `n` bits.
    pub fn decode_word(&self, c: u64) -> (r: u64)
        requires
            self.wf(),
            c <= low_mask(self@.length as u64),
        ensures
            r == decode_word(self@, c),
            r <= low_mask(self@.length as u64),
            syndrome(self@.parity_rows, r) == 0u64,
    {
        let s = syndrome_of(&self.parity_rows, c);
        proof {
            lemma_decode_in_code(self@, c);
        }
        let len = self.leaders.len();
        assert(s < len);
        let idx = s as usize;
        assert(idx == s);
        let e = self.leaders[idx];
        c ^ e
    }

    /// The codeword nearest `c` as the coset-leader table has it; an error
    /// where `c` does not have the code's length.
    pub fn decode_to_code(&self, c: &BinVector) -> (r: Result<BinVector, CodeError>)
        requires
            self.wf(),
            c.wf(),
        ensures
            c.len_spec() != self@.length ==> r == Err::<BinVector, CodeError>(
                CodeError::LengthMismatch,
            ),
            c.len_spec() == self@.length ==> r is Ok,
            r matches Ok(v) ==> v.wf() && v.len_spec() == self@.length && v.word() == decode_word(
                self@,
                c.word(),
            ) && syndrome(self@.parity_rows, v.word()) == 0u64,
    {
        if c.len() != self.length {
            return Err(CodeError::LengthMismatch);
        }
        let w = self.decode_word(c.as_u64());
        Ok(BinVector::from_word(w, self.length))
    }

    /// The message of the decoded codeword: its first `k` bits.
    pub fn decode_to_message(&self, c: &BinVector) -> (r: Result<BinVector, CodeError>)
        requires
            self.wf(),
            c.wf(),
        ensures
            c.len_spec() != self@.length ==> r == Err::<BinVector, CodeError>(
                CodeError::LengthMismatch,
            ),
            c.len_spec() == self@.length ==> r is Ok,
            r matches Ok(v) ==> v.wf() && v.len_spec() == self@.dimension && v.word()
                == message_of(self@, decode_word(self@, c.word())),
    {
        let mut codeword = self.decode_to_code(c)?;
        let ghost before = codeword;
        codeword.truncate(self.dimension);
        proof {
            let w = before.word();
            let n = self@.length as u64;
            let d = self@.dimension as u64;
            if d == n {
                crate::bits::lemma_mask(w, d, 0);
            }
        }
        Ok(codeword)
    }

    /// The codeword `m · G` of a message of `k` bits; an error where the
    /// message does not have the code's dimension.
    pub fn encode(&self, msg: &BinVector) -> (r: Result<BinVector, CodeError>)
        requires
            self.wf(),
            msg.wf(),
        ensures
            msg.len_spec() != self@.dimension ==> r == Err::<BinVector, CodeError>(
                CodeError::LengthMismatch,
            ),
            msg.len_spec() == self@.dimension ==> r is Ok,
            r matches Ok(v) ==> v.wf() && v.len_spec() == self@.length && v.word() == encode(
                self@.generator,
                msg.word(),
            ),
    {
        if msg.len() != self.dimension {
            return Err(CodeError::LengthMismatch);
        }
        let m = msg.as_u64();
        let mut c: u64 = 0;
        let mut i: usize = 0;
        while i < self.dimension
            invariant
                self.wf(),
                i <= self@.dimension,
                c == encode_upto(self@.generator, m, i as nat),
            decreases self@.dimension - i,
        {
            proof {
                lemma_encode_upto(self@, m, i as nat);
                lemma_xor_facts();
            }
            if (m >> (i as u64)) & 1u64 == 1u64 {
                c = c ^ self.generator[i];
            }
            i = i + 1;
        }
        proof {
            lemma_encode_upto(self@, m, self@.dimension);
        }
        Ok(BinVector::from_word(c, self.length))
    }

    /// Decodes in place the word held in the first element of `c`, by adding
    /// to it the leader of its syndrome.
    pub fn decode_slice(&self, c: &mut [u64])
        requires
            self.wf(),
            old(c)@.len() >= 1,
            old(c)@[0] <= low_mask(self@.length as u64),
        ensures
            final(c)@ == old(c)@.update(0, decode_word(self@, old(c)@[0])),
    {
        let w = self.decode_word(c[0]);
        c[0] = w;
    }

    /// Covering-code reduction of one sample: the low `n` bits of its vector
    /// are decoded and replaced by the `k` bits of the message, the bits above
    /// move down by `n − k`, and the product bit is kept.
    pub fn decode_sample(&self, q: &mut Sample)
        requires
            self.wf(),
        ensures
            final(q).a == reduced_vector(self@, old(q).a),
            final(q).product == old(q).product,
    {
        let n = self.length as u64;
        let d = self.dimension as u64;
        let a = q.a;
        let low = a & low_mask_of(n);
        proof {
            crate::bits::lemma_mask(a, n, 0);
        }
        let c = self.decode_word(low);
        q.a = (c & low_mask_of(d)) | ((a >> n) << d);
    }
}

/// A small binary code: its tables, and decoding through them.
pub trait BinaryCode {
    /// The code as mathematics.
    spec fn model(&self) -> CodeModel;

    /// The code is well formed.
    proof fn lemma_model_wf(&self)
        ensures
            code_wf(self.model()),
    ;

    /// The code's tables.
    fn syndrome_code(&self) -> (r: SyndromeCode)
        ensures
            r.wf(),
            r@ == self.model(),
    ;

    /// A human-readable name.
    fn name(&self) -> String;

    /// The length `n`.
    fn length(&self) -> (r: usize)
        ensures
            r == self.model().length,
    {
        self.syndrome_code().length()
    }

    /// The dimension `k`.
    fn dimension(&self) -> (r: usize)
        ensures
            r == self.model().dimension,
    {
        self.syndrome_code().dimension()
    }

    /// The generator matrix `G`, `k × n`, in systematic form.
    fn generator_matrix(&self) -> (r: BinMatrix)
        ensures
            r.wf(),
            r.rows() == self.model().generator,
            r.ncols_spec() == self.model().length,
    {
        self.syndrome_code().generator_matrix()
    }

    /// The parity-check matrix `H`, `(n − k) × n`.
    fn parity_check_matrix(&self) -> (r: BinMatrix)
        ensures
            r.wf(),
            r.rows() == self.model().parity_rows,
            r.ncols_spec() == self.model().length,
    {
        self.syndrome_code().parity_check_matrix()
    }

    /// The codeword that syndrome decoding gives for `c`; an error where `c`
    /// does not have length `n`.
    fn decode_to_code(&self, c: &BinVector) -> (r: Result<BinVector, CodeError>)
        requires
            c.wf(),
        ensures
            c.len_spec() != self.model().length ==> r == Err::<BinVector, CodeError>(
                CodeError::LengthMismatch,
            ),
            c.len_spec() == self.model().length ==> r is Ok,
            r matches Ok(v) ==> v.wf() && v.len_spec() == self.model().length && v.word()
                == decode_word(self.model(), c.word()) && syndrome(
                self.model().parity_rows,
                v.word(),
            ) == 0u64,
    {
        self.syndrome_code().decode_to_code(c)
    }

    /// The message of the codeword that decoding gives for `c`.
    fn decode_to_message(&self, c: &BinVector) -> (r: Result<BinVector, CodeError>)
        requires
            c.wf(),
        ensures
            c.len_spec() != self.model().length ==> r == Err::<BinVector, CodeError>(
                CodeError::LengthMismatch,
            ),
            c.len_spec() == self.model().length ==> r is Ok,
            r matches Ok(v) ==> v.wf() && v.len_spec() == self.model().dimension && v.word()
                == message_of(self.model(), decode_word(self.model(), c.word())),
    {
        self.syndrome_code().decode_to_message(c)
    }

    /// The codeword of a message of `k` bits.
    fn encode(&self, msg: &BinVector) -> (r: Result<BinVector, CodeError>)
        requires
            msg.wf(),
        ensures
            msg.len_spec() != self.model().dimension ==> r == Err::<BinVector, CodeError>(
                CodeError::LengthMismatch,
            ),
            msg.len_spec() == self.model().dimension ==> r is Ok,
            r matches Ok(v) ==> v.wf() && v.len_spec() == self.model().length && v.word()
                == encode(self.model().generator, msg.word()),
    {
        self.syndrome_code().encode(msg)
    }

    /// Decodes in place the word held in the first element of `c`.
    fn decode_slice(&self, c: &mut [u64])
        requires
            old(c)@.len() >= 1,
            old(c)@[0] <= low_mask(self.model().length as u64),
        ensures
            final(c)@ == old(c)@.update(0, decode_word(self.model(), old(c)@[0])),
    {
        self.syndrome_code().decode_slice(c)
    }

    /// Covering-code reduction of one sample.
    fn decode_sample(&self, q: &mut Sample)
        ensures
            final(q).a == reduced_vector(self.model(), old(q).a),
            final(q).product == old(q).product,
    {
        self.syndrome_code().decode_sample(q)
    }
}

} // verus!
