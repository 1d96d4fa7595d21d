//! The `[10, 5]` code of the GUAVA database, decoded by syndrome.
use vstd::prelude::*;
use crate::bits::{low_mask, parity, syndrome, syndrome_upto, weight};
use crate::code::{code_wf, leaders_least_weight, corrects_single_errors, BinaryCode, CodeModel, SyndromeCode};

verus! {

/// `[10, 5]` Guava code: the best code found in the GUAVA database version
/// 3.15, decoded through its syndrome table.
#[derive(Clone, Copy, Debug)]
pub struct GuavaCode10_5;

/// The rows of the generator matrix, in systematic form.
pub open spec fn generator_rows() -> Seq<u64> {
    seq![801u64, 450u64, 708u64, 840u64, 912u64]
}

/// The rows of the parity-check matrix.
pub open spec fn parity_check_rows() -> Seq<u64> {
    seq![33u64, 482u64, 740u64, 840u64, 912u64]
}

/// The coset leader of syndrome `s`: an error pattern of least weight with
/// that syndrome.
pub open spec fn coset_leader(s: u64) -> u64 {
    if s == 0 {
        0u64
    } else if s == 1 {
        1u64
    } else if s == 2 {
        2u64
    } else if s == 3 {
        3u64
    } else if s == 4 {
        4u64
    } else if s == 5 {
        5u64
    } else if s == 6 {
        33u64
    } else if s == 7 {
        32u64
    } else if s == 8 {
        8u64
    } else if s == 9 {
        9u64
    } else if s == 10 {
        10u64
    } else if s == 11 {
        11u64
    } else if s == 12 {
        66u64
    } else if s == 13 {
        67u64
    } else if s == 14 {
        64u64
    } else if s == 15 {
        65u64
    } else if s == 16 {
        16u64
    } else if s == 17 {
        17u64
    } else if s == 18 {
        18u64
    } else if s == 19 {
        19u64
    } else if s == 20 {
        130u64
    } else if s == 21 {
        131u64
    } else if s == 22 {
        128u64
    } else if s == 23 {
        129u64
    } else if s == 24 {
        258u64
    } else if s == 25 {
        259u64
    } else if s == 26 {
        256u64
    } else if s == 27 {
        257u64
    } else if s == 28 {
        512u64
    } else if s == 29 {
        513u64
    } else if s == 30 {
        514u64
    } else {
        515u64
    }
}

/// The code as mathematics.
pub open spec fn code_model() -> CodeModel {
    CodeModel {
        length: 10,
        dimension: 5,
        generator: generator_rows(),
        parity_rows: parity_check_rows(),
        leaders: Seq::new(32, |s: int| coset_leader(s as u64)),
    }
}

/// The syndrome against the parity-check rows, written out row by row.
spec fn syndrome_unrolled(x: u64) -> u64 {
    (((((0u64 ^ (parity(x & 33u64) << 0u64)) ^ (parity(x & 482u64) << 1u64)) ^ (parity(x & 740u64) << 2u64)) ^ (parity(x & 840u64) << 3u64)) ^ (parity(x & 912u64) << 4u64))
}

proof fn lemma_syndrome_unrolled(x: u64)
    ensures
        syndrome(parity_check_rows(), x) == syndrome_unrolled(x),
{
    reveal_with_fuel(syndrome_upto, 6);
}

proof fn lemma_tables()
    by (bit_vector)
    ensures
        forall|s: u64|
            s < 32u64 ==> syndrome_unrolled(#[trigger] coset_leader(s)) == s && coset_leader(s)
                <= low_mask(10u64),
        coset_leader(0u64) == 0u64,
        801u64 <= low_mask(10u64),
        801u64 & low_mask(5u64) == 1u64 << 0u64,
        parity(801u64 & 33u64) == 0u64,
        parity(801u64 & 482u64) == 0u64,
        parity(801u64 & 740u64) == 0u64,
        parity(801u64 & 840u64) == 0u64,
        parity(801u64 & 912u64) == 0u64,
        450u64 <= low_mask(10u64),
        450u64 & low_mask(5u64) == 1u64 << 1u64,
        parity(450u64 & 33u64) == 0u64,
        parity(450u64 & 482u64) == 0u64,
        parity(450u64 & 740u64) == 0u64,
        parity(450u64 & 840u64) == 0u64,
        parity(450u64 & 912u64) == 0u64,
        708u64 <= low_mask(10u64),
        708u64 & low_mask(5u64) == 1u64 << 2u64,
        parity(708u64 & 33u64) == 0u64,
        parity(708u64 & 482u64) == 0u64,
        parity(708u64 & 740u64) == 0u64,
        parity(708u64 & 840u64) == 0u64,
        parity(708u64 & 912u64) == 0u64,
        840u64 <= low_mask(10u64),
        840u64 & low_mask(5u64) == 1u64 << 3u64,
        parity(840u64 & 33u64) == 0u64,
        parity(840u64 & 482u64) == 0u64,
        parity(840u64 & 740u64) == 0u64,
        parity(840u64 & 840u64) == 0u64,
        parity(840u64 & 912u64) == 0u64,
        912u64 <= low_mask(10u64),
        912u64 & low_mask(5u64) == 1u64 << 4u64,
        parity(912u64 & 33u64) == 0u64,
        parity(912u64 & 482u64) == 0u64,
        parity(912u64 & 740u64) == 0u64,
        parity(912u64 & 840u64) == 0u64,
        parity(912u64 & 912u64) == 0u64,
        33u64 <= low_mask(10u64),
        482u64 <= low_mask(10u64),
        740u64 <= low_mask(10u64),
        840u64 <= low_mask(10u64),
        912u64 <= low_mask(10u64),
        1u64 << 5u64 == 32u64,
{
}

/// The tables describe a well-formed code.
pub proof fn lemma_code_model_wf()
    ensures
        code_wf(code_model()),
{
    lemma_tables();
    let m = code_model();
    assert forall|s: int| 0 <= s < m.leaders.len() implies #[trigger] m.leaders[s] <= low_mask(
        m.length as u64,
    ) && syndrome(m.parity_rows, m.leaders[s]) == s by {
        lemma_syndrome_unrolled(coset_leader(s as u64));
    }
}

proof fn lemma_single_error_leaders()
    by (bit_vector)
    ensures
        forall|i: u64|
            i < 10u64 ==> #[trigger] syndrome_unrolled(1u64 << i) < 32u64 && coset_leader(
                syndrome_unrolled(1u64 << i),
            ) == 1u64 << i,
{
}

/// Every single flipped bit is corrected.
pub proof fn lemma_corrects_single_errors()
    ensures
        corrects_single_errors(code_model()),
{
    lemma_single_error_leaders();
    assert forall|i: u64| i < 10 implies #[trigger] code_model().leaders[syndrome(
        parity_check_rows(),
        1u64 << i,
    ) as int] == 1u64 << i by {
        lemma_syndrome_unrolled(1u64 << i);
    }
}

#[verifier::rlimit(100)]
proof fn lemma_least_weight_leaders()
    by (bit_vector)
    ensures
        forall|x: u64| x <= low_mask(10u64) ==> #[trigger] syndrome_unrolled(x) < 32u64,
        forall|x: u64| x <= low_mask(10u64) && #[trigger] syndrome_unrolled(x) == 0u64 ==> weight(x) >= 0u64,
        forall|x: u64| x <= low_mask(10u64) && #[trigger] syndrome_unrolled(x) == 1u64 ==> weight(x) >= 1u64,
        forall|x: u64| x <= low_mask(10u64) && #[trigger] syndrome_unrolled(x) == 2u64 ==> weight(x) >= 1u64,
        forall|x: u64| x <= low_mask(10u64) && #[trigger] syndrome_unrolled(x) == 3u64 ==> weight(x) >= 2u64,
        forall|x: u64| x <= low_mask(10u64) && #[trigger] syndrome_unrolled(x) == 4u64 ==> weight(x) >= 1u64,
        forall|x: u64| x <= low_mask(10u64) && #[trigger] syndrome_unrolled(x) == 5u64 ==> weight(x) >= 2u64,
        forall|x: u64| x <= low_mask(10u64) && #[trigger] syndrome_unrolled(x) == 6u64 ==> weight(x) >= 2u64,
        forall|x: u64| x <= low_mask(10u64) && #[trigger] syndrome_unrolled(x) == 7u64 ==> weight(x) >= 1u64,
        forall|x: u64| x <= low_mask(10u64) && #[trigger] syndrome_unrolled(x) == 8u64 ==> weight(x) >= 1u64,
        forall|x: u64| x <= low_mask(10u64) && #[trigger] syndrome_unrolled(x) == 9u64 ==> weight(x) >= 2u64,
        forall|x: u64| x <= low_mask(10u64) && #[trigger] syndrome_unrolled(x) == 10u64 ==> weight(x) >= 2u64,
        forall|x: u64| x <= low_mask(10u64) && #[trigger] syndrome_unrolled(x) == 11u64 ==> weight(x) >= 3u64,
        forall|x: u64| x <= low_mask(10u64) && #[trigger] syndrome_unrolled(x) == 12u64 ==> weight(x) >= 2u64,
        forall|x: u64| x <= low_mask(10u64) && #[trigger] syndrome_unrolled(x) == 13u64 ==> weight(x) >= 3u64,
        forall|x: u64| x <= low_mask(10u64) && #[trigger] syndrome_unrolled(x) == 14u64 ==> weight(x) >= 1u64,
        forall|x: u64| x <= low_mask(10u64) && #[trigger] syndrome_unrolled(x) == 15u64 ==> weight(x) >= 2u64,
        forall|x: u64| x <= low_mask(10u64) && #[trigger] syndrome_unrolled(x) == 16u64 ==> weight(x) >= 1u64,
        forall|x: u64| x <= low_mask(10u64) && #[trigger] syndrome_unrolled(x) == 17u64 ==> weight(x) >= 2u64,
        forall|x: u64| x <= low_mask(10u64) && #[trigger] syndrome_unrolled(x) == 18u64 ==> weight(x) >= 2u64,
        forall|x: u64| x <= low_mask(10u64) && #[trigger] syndrome_unrolled(x) == 19u64 ==> weight(x) >= 3u64,
        forall|x: u64| x <= low_mask(10u64) && #[trigger] syndrome_unrolled(x) == 20u64 ==> weight(x) >= 2u64,
        forall|x: u64| x <= low_mask(10u64) && #[trigger] syndrome_unrolled(x) == 21u64 ==> weight(x) >= 3u64,
        forall|x: u64| x <= low_mask(10u64) && #[trigger] syndrome_unrolled(x) == 22u64 ==> weight(x) >= 1u64,
        forall|x: u64| x <= low_mask(10u64) && #[trigger] syndrome_unrolled(x) == 23u64 ==> weight(x) >= 2u64,
        forall|x: u64| x <= low_mask(10u64) && #[trigger] syndrome_unrolled(x) == 24u64 ==> weight(x) >= 2u64,
        forall|x: u64| x <= low_mask(10u64) && #[trigger] syndrome_unrolled(x) == 25u64 ==> weight(x) >= 3u64,
        forall|x: u64| x <= low_mask(10u64) && #[trigger] syndrome_unrolled(x) == 26u64 ==> weight(x) >= 1u64,
        forall|x: u64| x <= low_mask(10u64) && #[trigger] syndrome_unrolled(x) == 27u64 ==> weight(x) >= 2u64,
        forall|x: u64| x <= low_mask(10u64) && #[trigger] syndrome_unrolled(x) == 28u64 ==> weight(x) >= 1u64,
        forall|x: u64| x <= low_mask(10u64) && #[trigger] syndrome_unrolled(x) == 29u64 ==> weight(x) >= 2u64,
        forall|x: u64| x <= low_mask(10u64) && #[trigger] syndrome_unrolled(x) == 30u64 ==> weight(x) >= 2u64,
        forall|x: u64| x <= low_mask(10u64) && #[trigger] syndrome_unrolled(x) == 31u64 ==> weight(x) >= 3u64,
        weight(0u64) == 0u64,
        weight(1u64) == 1u64,
        weight(2u64) == 1u64,
        weight(3u64) == 2u64,
        weight(4u64) == 1u64,
        weight(5u64) == 2u64,
        weight(33u64) == 2u64,
        weight(32u64) == 1u64,
        weight(8u64) == 1u64,
        weight(9u64) == 2u64,
        weight(10u64) == 2u64,
        weight(11u64) == 3u64,
        weight(66u64) == 2u64,
        weight(67u64) == 3u64,
        weight(64u64) == 1u64,
        weight(65u64) == 2u64,
        weight(16u64) == 1u64,
        weight(17u64) == 2u64,
        weight(18u64) == 2u64,
        weight(19u64) == 3u64,
        weight(130u64) == 2u64,
        weight(131u64) == 3u64,
        weight(128u64) == 1u64,
        weight(129u64) == 2u64,
        weight(258u64) == 2u64,
        weight(259u64) == 3u64,
        weight(256u64) == 1u64,
        weight(257u64) == 2u64,
        weight(512u64) == 1u64,
        weight(513u64) == 2u64,
        weight(514u64) == 2u64,
        weight(515u64) == 3u64,
{
}

/// Every coset leader has the least weight in its coset.
pub proof fn lemma_leaders_least_weight()
    ensures
        leaders_least_weight(code_model()),
{
    lemma_least_weight_leaders();
    assert forall|x: u64| x <= low_mask(10u64) implies weight(
        #[trigger] code_model().leaders[syndrome(parity_check_rows(), x) as int],
    ) <= weight(x) by {
        lemma_syndrome_unrolled(x);
    }
}

/// The code's tables.
fn tables() -> (r: SyndromeCode)
    ensures
        r.wf(),
        r@ == code_model(),
{
    let generator: Vec<u64> = vec![801, 450, 708, 840, 912];
    let parity_rows: Vec<u64> = vec![33, 482, 740, 840, 912];
    let leaders: Vec<u64> = vec![0, 1, 2, 3, 4, 5, 33, 32, 8, 9, 10, 11, 66, 67, 64, 65, 16, 17, 18, 19, 130, 131, 128, 129, 258, 259, 256, 257, 512, 513, 514, 515];
    proof {
        lemma_code_model_wf();
        assert(generator@ =~= generator_rows());
        assert(parity_rows@ =~= parity_check_rows());
        assert(leaders@ =~= code_model().leaders);
    }
    SyndromeCode::new(10, 5, generator, parity_rows, leaders)
}

impl BinaryCode for GuavaCode10_5 {
    open spec fn model(&self) -> CodeModel {
        code_model()
    }

    proof fn lemma_model_wf(&self) {
        lemma_code_model_wf();
    }

    fn syndrome_code(&self) -> (r: SyndromeCode) {
        tables()
    }

    fn name(&self) -> String {
        "[10, 5] Guava code".to_string()
    }

    fn length(&self) -> (r: usize) {
        10
    }

    fn dimension(&self) -> (r: usize) {
        5
    }
}

} // verus!
