//! The `[9, 6]` code of the GUAVA database, decoded by syndrome.
use vstd::prelude::*;
use crate::bits::{low_mask, parity, syndrome, syndrome_upto, weight};
use crate::code::{code_wf, leaders_least_weight, BinaryCode, CodeModel, SyndromeCode};

verus! {

/// `[9, 6]` Guava code: the best code found in the GUAVA database version
/// 3.15, decoded through its syndrome table.
#[derive(Clone, Copy, Debug)]
pub struct GuavaCode9_6;

/// The rows of the generator matrix, in systematic form.
pub open spec fn generator_rows() -> Seq<u64> {
    seq![65u64, 66u64, 68u64, 72u64, 80u64, 96u64]
}

/// The rows of the parity-check matrix.
pub open spec fn parity_check_rows() -> Seq<u64> {
    seq![127u64, 128u64, 256u64]
}

/// The coset leader of syndrome `s`: an error pattern of least weight with
/// that syndrome.
pub open spec fn coset_leader(s: u64) -> u64 {
    if s == 0 {
        0u64
    } else if s == 1 {
        1u64
    } else if s == 2 {
        128u64
    } else if s == 3 {
        129u64
    } else if s == 4 {
        256u64
    } else if s == 5 {
        257u64
    } else if s == 6 {
        384u64
    } else {
        385u64
    }
}

/// The code as mathematics.
pub open spec fn code_model() -> CodeModel {
    CodeModel {
        length: 9,
        dimension: 6,
        generator: generator_rows(),
        parity_rows: parity_check_rows(),
        leaders: Seq::new(8, |s: int| coset_leader(s as u64)),
    }
}

/// The syndrome against the parity-check rows, written out row by row.
spec fn syndrome_unrolled(x: u64) -> u64 {
    (((0u64 ^ (parity(x & 127u64) << 0u64)) ^ (parity(x & 128u64) << 1u64)) ^ (parity(x & 256u64) << 2u64))
}

proof fn lemma_syndrome_unrolled(x: u64)
    ensures
        syndrome(parity_check_rows(), x) == syndrome_unrolled(x),
{
    reveal_with_fuel(syndrome_upto, 4);
}

proof fn lemma_tables()
    by (bit_vector)
    ensures
        forall|s: u64|
            s < 8u64 ==> syndrome_unrolled(#[trigger] coset_leader(s)) == s && coset_leader(s)
                <= low_mask(9u64),
        coset_leader(0u64) == 0u64,
        65u64 <= low_mask(9u64),
        65u64 & low_mask(6u64) == 1u64 << 0u64,
        parity(65u64 & 127u64) == 0u64,
        parity(65u64 & 128u64) == 0u64,
        parity(65u64 & 256u64) == 0u64,
        66u64 <= low_mask(9u64),
        66u64 & low_mask(6u64) == 1u64 << 1u64,
        parity(66u64 & 127u64) == 0u64,
        parity(66u64 & 128u64) == 0u64,
        parity(66u64 & 256u64) == 0u64,
        68u64 <= low_mask(9u64),
        68u64 & low_mask(6u64) == 1u64 << 2u64,
        parity(68u64 & 127u64) == 0u64,
        parity(68u64 & 128u64) == 0u64,
        parity(68u64 & 256u64) == 0u64,
        72u64 <= low_mask(9u64),
        72u64 & low_mask(6u64) == 1u64 << 3u64,
        parity(72u64 & 127u64) == 0u64,
        parity(72u64 & 128u64) == 0u64,
        parity(72u64 & 256u64) == 0u64,
        80u64 <= low_mask(9u64),
        80u64 & low_mask(6u64) == 1u64 << 4u64,
        parity(80u64 & 127u64) == 0u64,
        parity(80u64 & 128u64) == 0u64,
        parity(80u64 & 256u64) == 0u64,
        96u64 <= low_mask(9u64),
        96u64 & low_mask(6u64) == 1u64 << 5u64,
        parity(96u64 & 127u64) == 0u64,
        parity(96u64 & 128u64) == 0u64,
        parity(96u64 & 256u64) == 0u64,
        127u64 <= low_mask(9u64),
        128u64 <= low_mask(9u64),
        256u64 <= low_mask(9u64),
        1u64 << 3u64 == 8u64,
{
}

/// The tables describe a well-formed code.
pub proof fn lemma_code_model_wf()
    ensures
        code_wf(code_model()),
{
    lemma_tables();
    let m = code_model();
    assert forall|s: int| 0 <= s < m.leaders.len() implies #[trigger] m.leaders[s] <= low_mask(
        m.length as u64,
    ) && syndrome(m.parity_rows, m.leaders[s]) == s by {
        lemma_syndrome_unrolled(coset_leader(s as u64));
    }
}

proof fn lemma_least_weight_leaders()
    by (bit_vector)
    ensures
        forall|x: u64|
            x <= low_mask(9u64) ==> #[trigger] syndrome_unrolled(x) < 8u64 && weight(
                coset_leader(syndrome_unrolled(x)),
            ) <= weight(x),
{
}

/// Every coset leader has the least weight in its coset.
pub proof fn lemma_leaders_least_weight()
    ensures
        leaders_least_weight(code_model()),
{
    lemma_least_weight_leaders();
    assert forall|x: u64| x <= low_mask(9u64) implies weight(
        #[trigger] code_model().leaders[syndrome(parity_check_rows(), x) as int],
    ) <= weight(x) by {
        lemma_syndrome_unrolled(x);
    }
}

/// The code's tables.
fn tables() -> (r: SyndromeCode)
    ensures
        r.wf(),
        r@ == code_model(),
{
    let generator: Vec<u64> = vec![65, 66, 68, 72, 80, 96];
    let parity_rows: Vec<u64> = vec![127, 128, 256];
    let leaders: Vec<u64> = vec![0, 1, 128, 129, 256, 257, 384, 385];
    proof {
        lemma_code_model_wf();
        assert(generator@ =~= generator_rows());
        assert(parity_rows@ =~= parity_check_rows());
        assert(leaders@ =~= code_model().leaders);
    }
    SyndromeCode::new(9, 6, generator, parity_rows, leaders)
}

impl BinaryCode for GuavaCode9_6 {
    open spec fn model(&self) -> CodeModel {
        code_model()
    }

    proof fn lemma_model_wf(&self) {
        lemma_code_model_wf();
    }

    fn syndrome_code(&self) -> (r: SyndromeCode) {
        tables()
    }

    fn name(&self) -> String {
        "[9, 6] Guava code".to_string()
    }

    fn length(&self) -> (r: usize) {
        9
    }

    fn dimension(&self) -> (r: usize) {
        6
    }
}

} // verus!
