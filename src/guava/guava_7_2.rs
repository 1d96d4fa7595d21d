//! The `[7, 2]` code of the GUAVA database, decoded by syndrome.
use vstd::prelude::*;
use crate::bits::{low_mask, parity, syndrome, syndrome_upto, weight};
use crate::code::{code_wf, leaders_least_weight, corrects_single_errors, BinaryCode, CodeModel, SyndromeCode};

verus! {

/// `[7, 2]` Guava code: the best code found in the GUAVA database version
/// 3.15, decoded through its syndrome table.
#[derive(Clone, Copy, Debug)]
pub struct GuavaCode7_2;

/// The rows of the generator matrix, in systematic form.
pub open spec fn generator_rows() -> Seq<u64> {
    seq![101u64, 122u64]
}

/// The rows of the parity-check matrix.
pub open spec fn parity_check_rows() -> Seq<u64> {
    seq![81u64, 18u64, 84u64, 24u64, 96u64]
}

/// The coset leader of syndrome `s`: an error pattern of least weight with
/// that syndrome.
pub open spec fn coset_leader(s: u64) -> u64 {
    if s == 0 {
        0u64
    } else if s == 1 {
        1u64
    } else if s == 2 {
        2u64
    } else if s == 3 {
        3u64
    } else if s == 4 {
        4u64
    } else if s == 5 {
        5u64
    } else if s == 6 {
        6u64
    } else if s == 7 {
        24u64
    } else if s == 8 {
        8u64
    } else if s == 9 {
        9u64
    } else if s == 10 {
        10u64
    } else if s == 11 {
        20u64
    } else if s == 12 {
        12u64
    } else if s == 13 {
        18u64
    } else if s == 14 {
        17u64
    } else if s == 15 {
        16u64
    } else if s == 16 {
        32u64
    } else if s == 17 {
        33u64
    } else if s == 18 {
        34u64
    } else if s == 19 {
        35u64
    } else if s == 20 {
        65u64
    } else if s == 21 {
        64u64
    } else if s == 22 {
        67u64
    } else if s == 23 {
        66u64
    } else if s == 24 {
        40u64
    } else if s == 25 {
        41u64
    } else if s == 26 {
        80u64
    } else if s == 27 {
        81u64
    } else if s == 28 {
        73u64
    } else if s == 29 {
        72u64
    } else if s == 30 {
        49u64
    } else {
        48u64
    }
}

/// The code as mathematics.
pub open spec fn code_model() -> CodeModel {
    CodeModel {
        length: 7,
        dimension: 2,
        generator: generator_rows(),
        parity_rows: parity_check_rows(),
        leaders: Seq::new(32, |s: int| coset_leader(s as u64)),
    }
}

/// The syndrome against the parity-check rows, written out row by row.
spec fn syndrome_unrolled(x: u64) -> u64 {
    (((((0u64 ^ (parity(x & 81u64) << 0u64)) ^ (parity(x & 18u64) << 1u64)) ^ (parity(x & 84u64) << 2u64)) ^ (parity(x & 24u64) << 3u64)) ^ (parity(x & 96u64) << 4u64))
}

proof fn lemma_syndrome_unrolled(x: u64)
    ensures
        syndrome(parity_check_rows(), x) == syndrome_unrolled(x),
{
    reveal_with_fuel(syndrome_upto, 6);
}

proof fn lemma_tables()
    by (bit_vector)
    ensures
        forall|s: u64|
            s < 32u64 ==> syndrome_unrolled(#[trigger] coset_leader(s)) == s && coset_leader(s)
                <= low_mask(7u64),
        coset_leader(0u64) == 0u64,
        101u64 <= low_mask(7u64),
        101u64 & low_mask(2u64) == 1u64 << 0u64,
        parity(101u64 & 81u64) == 0u64,
        parity(101u64 & 18u64) == 0u64,
        parity(101u64 & 84u64) == 0u64,
        parity(101u64 & 24u64) == 0u64,
        parity(101u64 & 96u64) == 0u64,
        122u64 <= low_mask(7u64),
        122u64 & low_mask(2u64) == 1u64 << 1u64,
        parity(122u64 & 81u64) == 0u64,
        parity(122u64 & 18u64) == 0u64,
        parity(122u64 & 84u64) == 0u64,
        parity(122u64 & 24u64) == 0u64,
        parity(122u64 & 96u64) == 0u64,
        81u64 <= low_mask(7u64),
        18u64 <= low_mask(7u64),
        84u64 <= low_mask(7u64),
        24u64 <= low_mask(7u64),
        96u64 <= low_mask(7u64),
        1u64 << 5u64 == 32u64,
{
}

/// The tables describe a well-formed code.
pub proof fn lemma_code_model_wf()
    ensures
        code_wf(code_model()),
{
    lemma_tables();
    let m = code_model();
    assert forall|s: int| 0 <= s < m.leaders.len() implies #[trigger] m.leaders[s] <= low_mask(
        m.length as u64,
    ) && syndrome(m.parity_rows, m.leaders[s]) == s by {
        lemma_syndrome_unrolled(coset_leader(s as u64));
    }
}

proof fn lemma_single_error_leaders()
    by (bit_vector)
    ensures
        forall|i: u64|
            i < 7u64 ==> #[trigger] syndrome_unrolled(1u64 << i) < 32u64 && coset_leader(
                syndrome_unrolled(1u64 << i),
            ) == 1u64 << i,
{
}

/// Every single flipped bit is corrected.
pub proof fn lemma_corrects_single_errors()
    ensures
        corrects_single_errors(code_model()),
{
    lemma_single_error_leaders();
    assert forall|i: u64| i < 7 implies #[trigger] code_model().leaders[syndrome(
        parity_check_rows(),
        1u64 << i,
    ) as int] == 1u64 << i by {
        lemma_syndrome_unrolled(1u64 << i);
    }
}

proof fn lemma_least_weight_leaders()
    by (bit_vector)
    ensures
        forall|x: u64| x <= low_mask(7u64) ==> #[trigger] syndrome_unrolled(x) < 32u64,
        forall|x: u64| x <= low_mask(7u64) && #[trigger] syndrome_unrolled(x) == 0u64 ==> weight(x) >= 0u64,
        forall|x: u64| x <= low_mask(7u64) && #[trigger] syndrome_unrolled(x) == 1u64 ==> weight(x) >= 1u64,
        forall|x: u64| x <= low_mask(7u64) && #[trigger] syndrome_unrolled(x) == 2u64 ==> weight(x) >= 1u64,
        forall|x: u64| x <= low_mask(7u64) && #[trigger] syndrome_unrolled(x) == 3u64 ==> weight(x) >= 2u64,
        forall|x: u64| x <= low_mask(7u64) && #[trigger] syndrome_unrolled(x) == 4u64 ==> weight(x) >= 1u64,
        forall|x: u64| x <= low_mask(7u64) && #[trigger] syndrome_unrolled(x) == 5u64 ==> weight(x) >= 2u64,
        forall|x: u64| x <= low_mask(7u64) && #[trigger] syndrome_unrolled(x) == 6u64 ==> weight(x) >= 2u64,
        forall|x: u64| x <= low_mask(7u64) && #[trigger] syndrome_unrolled(x) == 7u64 ==> weight(x) >= 2u64,
        forall|x: u64| x <= low_mask(7u64) && #[trigger] syndrome_unrolled(x) == 8u64 ==> weight(x) >= 1u64,
        forall|x: u64| x <= low_mask(7u64) && #[trigger] syndrome_unrolled(x) == 9u64 ==> weight(x) >= 2u64,
        forall|x: u64| x <= low_mask(7u64) && #[trigger] syndrome_unrolled(x) == 10u64 ==> weight(x) >= 2u64,
        forall|x: u64| x <= low_mask(7u64) && #[trigger] syndrome_unrolled(x) == 11u64 ==> weight(x) >= 2u64,
        forall|x: u64| x <= low_mask(7u64) && #[trigger] syndrome_unrolled(x) == 12u64 ==> weight(x) >= 2u64,
        forall|x: u64| x <= low_mask(7u64) && #[trigger] syndrome_unrolled(x) == 13u64 ==> weight(x) >= 2u64,
        forall|x: u64| x <= low_mask(7u64) && #[trigger] syndrome_unrolled(x) == 14u64 ==> weight(x) >= 2u64,
        forall|x: u64| x <= low_mask(7u64) && #[trigger] syndrome_unrolled(x) == 15u64 ==> weight(x) >= 1u64,
        forall|x: u64| x <= low_mask(7u64) && #[trigger] syndrome_unrolled(x) == 16u64 ==> weight(x) >= 1u64,
        forall|x: u64| x <= low_mask(7u64) && #[trigger] syndrome_unrolled(x) == 17u64 ==> weight(x) >= 2u64,
        forall|x: u64| x <= low_mask(7u64) && #[trigger] syndrome_unrolled(x) == 18u64 ==> weight(x) >= 2u64,
        forall|x: u64| x <= low_mask(7u64) && #[trigger] syndrome_unrolled(x) == 19u64 ==> weight(x) >= 3u64,
        forall|x: u64| x <= low_mask(7u64) && #[trigger] syndrome_unrolled(x) == 20u64 ==> weight(x) >= 2u64,
        forall|x: u64| x <= low_mask(7u64) && #[trigger] syndrome_unrolled(x) == 21u64 ==> weight(x) >= 1u64,
        forall|x: u64| x <= low_mask(7u64) && #[trigger] syndrome_unrolled(x) == 22u64 ==> weight(x) >= 3u64,
        forall|x: u64| x <= low_mask(7u64) && #[trigger] syndrome_unrolled(x) == 23u64 ==> weight(x) >= 2u64,
        forall|x: u64| x <= low_mask(7u64) && #[trigger] syndrome_unrolled(x) == 24u64 ==> weight(x) >= 2u64,
        forall|x: u64| x <= low_mask(7u64) && #[trigger] syndrome_unrolled(x) == 25u64 ==> weight(x) >= 3u64,
        forall|x: u64| x <= low_mask(7u64) && #[trigger] syndrome_unrolled(x) == 26u64 ==> weight(x) >= 2u64,
        forall|x: u64| x <= low_mask(7u64) && #[trigger] syndrome_unrolled(x) == 27u64 ==> weight(x) >= 3u64,
        forall|x: u64| x <= low_mask(7u64) && #[trigger] syndrome_unrolled(x) == 28u64 ==> weight(x) >= 3u64,
        forall|x: u64| x <= low_mask(7u64) && #[trigger] syndrome_unrolled(x) == 29u64 ==> weight(x) >= 2u64,
        forall|x: u64| x <= low_mask(7u64) && #[trigger] syndrome_unrolled(x) == 30u64 ==> weight(x) >= 3u64,
        forall|x: u64| x <= low_mask(7u64) && #[trigger] syndrome_unrolled(x) == 31u64 ==> weight(x) >= 2u64,
        weight(0u64) == 0u64,
        weight(1u64) == 1u64,
        weight(2u64) == 1u64,
        weight(3u64) == 2u64,
        weight(4u64) == 1u64,
        weight(5u64) == 2u64,
        weight(6u64) == 2u64,
        weight(24u64) == 2u64,
        weight(8u64) == 1u64,
        weight(9u64) == 2u64,
        weight(10u64) == 2u64,
        weight(20u64) == 2u64,
        weight(12u64) == 2u64,
        weight(18u64) == 2u64,
        weight(17u64) == 2u64,
        weight(16u64) == 1u64,
        weight(32u64) == 1u64,
        weight(33u64) == 2u64,
        weight(34u64) == 2u64,
        weight(35u64) == 3u64,
        weight(65u64) == 2u64,
        weight(64u64) == 1u64,
        weight(67u64) == 3u64,
        weight(66u64) == 2u64,
        weight(40u64) == 2u64,
        weight(41u64) == 3u64,
        weight(80u64) == 2u64,
        weight(81u64) == 3u64,
        weight(73u64) == 3u64,
        weight(72u64) == 2u64,
        weight(49u64) == 3u64,
        weight(48u64) == 2u64,
{
}

/// Every coset leader has the least weight in its coset.
pub proof fn lemma_leaders_least_weight()
    ensures
        leaders_least_weight(code_model()),
{
    lemma_least_weight_leaders();
    assert forall|x: u64| x <= low_mask(7u64) implies weight(
        #[trigger] code_model().leaders[syndrome(parity_check_rows(), x) as int],
    ) <= weight(x) by {
        lemma_syndrome_unrolled(x);
    }
}

/// The code's tables.
fn tables() -> (r: SyndromeCode)
    ensures
        r.wf(),
        r@ == code_model(),
{
    let generator: Vec<u64> = vec![101, 122];
    let parity_rows: Vec<u64> = vec![81, 18, 84, 24, 96];
    let leaders: Vec<u64> = vec![0, 1, 2, 3, 4, 5, 6, 24, 8, 9, 10, 20, 12, 18, 17, 16, 32, 33, 34, 35, 65, 64, 67, 66, 40, 41, 80, 81, 73, 72, 49, 48];
    proof {
        lemma_code_model_wf();
        assert(generator@ =~= generator_rows());
        assert(parity_rows@ =~= parity_check_rows());
        assert(leaders@ =~= code_model().leaders);
    }
    SyndromeCode::new(7, 2, generator, parity_rows, leaders)
}

impl BinaryCode for GuavaCode7_2 {
    open spec fn model(&self) -> CodeModel {
        code_model()
    }

    proof fn lemma_model_wf(&self) {
        lemma_code_model_wf();
    }

    fn syndrome_code(&self) -> (r: SyndromeCode) {
        tables()
    }

    fn name(&self) -> String {
        "[7, 2] Guava code".to_string()
    }

    fn length(&self) -> (r: usize) {
        7
    }

    fn dimension(&self) -> (r: usize) {
        2
    }
}

} // verus!
