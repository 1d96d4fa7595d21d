//! The `[11, 7]` code of the GUAVA database, decoded by syndrome.
use vstd::prelude::*;
use crate::bits::{low_mask, parity, syndrome, syndrome_upto, weight};
use crate::code::{code_wf, leaders_least_weight, corrects_single_errors, BinaryCode, CodeModel, SyndromeCode};

verus! {

/// `[11, 7]` Guava code: the best code found in the GUAVA database version
/// 3.15, decoded through its syndrome table.
#[derive(Clone, Copy, Debug)]
pub struct GuavaCode11_7;

/// The rows of the generator matrix, in systematic form.
pub open spec fn generator_rows() -> Seq<u64> {
    seq![641u64, 386u64, 1924u64, 904u64, 1424u64, 1696u64, 1856u64]
}

/// The rows of the parity-check matrix.
pub open spec fn parity_check_rows() -> Seq<u64> {
    seq![481u64, 722u64, 1140u64, 2040u64]
}

/// The coset leader of syndrome `s`: an error pattern of least weight with
/// that syndrome.
pub open spec fn coset_leader(s: u64) -> u64 {
    if s == 0 {
        0u64
    } else if s == 1 {
        1u64
    } else if s == 2 {
        2u64
    } else if s == 3 {
        3u64
    } else if s == 4 {
        4u64
    } else if s == 5 {
        5u64
    } else if s == 6 {
        6u64
    } else if s == 7 {
        72u64
    } else if s == 8 {
        8u64
    } else if s == 9 {
        256u64
    } else if s == 10 {
        512u64
    } else if s == 11 {
        128u64
    } else if s == 12 {
        1024u64
    } else if s == 13 {
        32u64
    } else if s == 14 {
        16u64
    } else {
        64u64
    }
}

/// The code as mathematics.
pub open spec fn code_model() -> CodeModel {
    CodeModel {
        length: 11,
        dimension: 7,
        generator: generator_rows(),
        parity_rows: parity_check_rows(),
        leaders: Seq::new(16, |s: int| coset_leader(s as u64)),
    }
}

/// The syndrome against the parity-check rows, written out row by row.
spec fn syndrome_unrolled(x: u64) -> u64 {
    ((((0u64 ^ (parity(x & 481u64) << 0u64)) ^ (parity(x & 722u64) << 1u64)) ^ (parity(x & 1140u64) << 2u64)) ^ (parity(x & 2040u64) << 3u64))
}

proof fn lemma_syndrome_unrolled(x: u64)
    ensures
        syndrome(parity_check_rows(), x) == syndrome_unrolled(x),
{
    reveal_with_fuel(syndrome_upto, 5);
}

proof fn lemma_tables()
    by (bit_vector)
    ensures
        forall|s: u64|
            s < 16u64 ==> syndrome_unrolled(#[trigger] coset_leader(s)) == s && coset_leader(s)
                <= low_mask(11u64),
        coset_leader(0u64) == 0u64,
        641u64 <= low_mask(11u64),
        641u64 & low_mask(7u64) == 1u64 << 0u64,
        parity(641u64 & 481u64) == 0u64,
        parity(641u64 & 722u64) == 0u64,
        parity(641u64 & 1140u64) == 0u64,
        parity(641u64 & 2040u64) == 0u64,
        386u64 <= low_mask(11u64),
        386u64 & low_mask(7u64) == 1u64 << 1u64,
        parity(386u64 & 481u64) == 0u64,
        parity(386u64 & 722u64) == 0u64,
        parity(386u64 & 1140u64) == 0u64,
        parity(386u64 & 2040u64) == 0u64,
        1924u64 <= low_mask(11u64),
        1924u64 & low_mask(7u64) == 1u64 << 2u64,
        parity(1924u64 & 481u64) == 0u64,
        parity(1924u64 & 722u64) == 0u64,
        parity(1924u64 & 1140u64) == 0u64,
        parity(1924u64 & 2040u64) == 0u64,
        904u64 <= low_mask(11u64),
        904u64 & low_mask(7u64) == 1u64 << 3u64,
        parity(904u64 & 481u64) == 0u64,
        parity(904u64 & 722u64) == 0u64,
        parity(904u64 & 1140u64) == 0u64,
        parity(904u64 & 2040u64) == 0u64,
        1424u64 <= low_mask(11u64),
        1424u64 & low_mask(7u64) == 1u64 << 4u64,
        parity(1424u64 & 481u64) == 0u64,
        parity(1424u64 & 722u64) == 0u64,
        parity(1424u64 & 1140u64) == 0u64,
        parity(1424u64 & 2040u64) == 0u64,
        1696u64 <= low_mask(11u64),
        1696u64 & low_mask(7u64) == 1u64 << 5u64,
        parity(1696u64 & 481u64) == 0u64,
        parity(1696u64 & 722u64) == 0u64,
        parity(1696u64 & 1140u64) == 0u64,
        parity(1696u64 & 2040u64) == 0u64,
        1856u64 <= low_mask(11u64),
        1856u64 & low_mask(7u64) == 1u64 << 6u64,
        parity(1856u64 & 481u64) == 0u64,
        parity(1856u64 & 722u64) == 0u64,
        parity(1856u64 & 1140u64) == 0u64,
        parity(1856u64 & 2040u64) == 0u64,
        481u64 <= low_mask(11u64),
        722u64 <= low_mask(11u64),
        1140u64 <= low_mask(11u64),
        2040u64 <= low_mask(11u64),
        1u64 << 4u64 == 16u64,
{
}

/// The tables describe a well-formed code.
pub proof fn lemma_code_model_wf()
    ensures
        code_wf(code_model()),
{
    lemma_tables();
    let m = code_model();
    assert forall|s: int| 0 <= s < m.leaders.len() implies #[trigger] m.leaders[s] <= low_mask(
        m.length as u64,
    ) && syndrome(m.parity_rows, m.leaders[s]) == s by {
        lemma_syndrome_unrolled(coset_leader(s as u64));
    }
}

proof fn lemma_single_error_leaders()
    by (bit_vector)
    ensures
        forall|i: u64|
            i < 11u64 ==> #[trigger] syndrome_unrolled(1u64 << i) < 16u64 && coset_leader(
                syndrome_unrolled(1u64 << i),
            ) == 1u64 << i,
{
}

/// Every single flipped bit is corrected.
pub proof fn lemma_corrects_single_errors()
    ensures
        corrects_single_errors(code_model()),
{
    lemma_single_error_leaders();
    assert forall|i: u64| i < 11 implies #[trigger] code_model().leaders[syndrome(
        parity_check_rows(),
        1u64 << i,
    ) as int] == 1u64 << i by {
        lemma_syndrome_unrolled(1u64 << i);
    }
}

proof fn lemma_least_weight_leaders()
    by (bit_vector)
    ensures
        forall|x: u64|
            x <= low_mask(11u64) ==> #[trigger] syndrome_unrolled(x) < 16u64 && weight(
                coset_leader(syndrome_unrolled(x)),
            ) <= weight(x),
{
}

/// Every coset leader has the least weight in its coset.
pub proof fn lemma_leaders_least_weight()
    ensures
        leaders_least_weight(code_model()),
{
    lemma_least_weight_leaders();
    assert forall|x: u64| x <= low_mask(11u64) implies weight(
        #[trigger] code_model().leaders[syndrome(parity_check_rows(), x) as int],
    ) <= weight(x) by {
        lemma_syndrome_unrolled(x);
    }
}

/// The code's tables.
fn tables() -> (r: SyndromeCode)
    ensures
        r.wf(),
        r@ == code_model(),
{
    let generator: Vec<u64> = vec![641, 386, 1924, 904, 1424, 1696, 1856];
    let parity_rows: Vec<u64> = vec![481, 722, 1140, 2040];
    let leaders: Vec<u64> = vec![0, 1, 2, 3, 4, 5, 6, 72, 8, 256, 512, 128, 1024, 32, 16, 64];
    proof {
        lemma_code_model_wf();
        assert(generator@ =~= generator_rows());
        assert(parity_rows@ =~= parity_check_rows());
        assert(leaders@ =~= code_model().leaders);
    }
    SyndromeCode::new(11, 7, generator, parity_rows, leaders)
}

impl BinaryCode for GuavaCode11_7 {
    open spec fn model(&self) -> CodeModel {
        code_model()
    }

    proof fn lemma_model_wf(&self) {
        lemma_code_model_wf();
    }

    fn syndrome_code(&self) -> (r: SyndromeCode) {
        tables()
    }

    fn name(&self) -> String {
        "[11, 7] Guava code".to_string()
    }

    fn length(&self) -> (r: usize) {
        11
    }

    fn dimension(&self) -> (r: usize) {
        7
    }
}

} // verus!
