use lpn::covering::{reduce_covering_code, CoveringError};
use lpn::guava::guava_11_7::GuavaCode11_7;
use lpn::guava::guava_7_2::GuavaCode7_2;
use lpn::oracle::{LpnOracle, Sample};

fn inner(a: u64, s: u64) -> bool {
    (a & s).count_ones() % 2 == 1
}

#[test]
fn covering_reduction_exact_value() {
    let mut oracle = LpnOracle::new(9, 0);
    oracle.samples = vec![Sample { a: 0b10_0011111, product: true }];
    assert_eq!(reduce_covering_code(&mut oracle, &GuavaCode7_2), Ok(()));
    assert_eq!(oracle.get_k(), 4);
    assert_eq!(oracle.samples, vec![Sample { a: 0b1011, product: true }]);
}

#[test]
fn covering_reduction_code_too_long() {
    let mut oracle = LpnOracle::new(5, 0b10101);
    oracle.add_sample(0b11111, false);
    let before = oracle.samples.clone();
    assert_eq!(reduce_covering_code(&mut oracle, &GuavaCode7_2), Err(CoveringError::CodeTooLong));
    assert_eq!(oracle.get_k(), 5);
    assert_eq!(oracle.samples, before);
}

#[test]
fn covering_reduction_keeps_samples_when_low_secret_is_zero() {
    // The secret is zero on the 11 bits the code covers, so decoding errors
    // there cost nothing, and the secret's high bits move down by 4.
    let k = 20;
    let secret: u64 = 0b1_0110_1 << 11;
    let mut oracle = LpnOracle::new(k, secret);
    let mut x: u64 = 0x2545_f491_4f6c_dd1d;
    for _ in 0..2000 {
        x ^= x << 13;
        x ^= x >> 7;
        x ^= x << 17;
        oracle.add_sample(x & ((1 << k) - 1), false);
    }
    assert_eq!(reduce_covering_code(&mut oracle, &GuavaCode11_7), Ok(()));
    assert_eq!(oracle.get_k(), 16);
    assert_eq!(oracle.samples.len(), 2000);
    let moved = (secret >> 11) << 7;
    for q in &oracle.samples {
        assert!(q.a < (1 << 16));
        assert_eq!(q.product, inner(q.a, moved));
    }
}
