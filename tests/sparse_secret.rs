use lpn::code::BinaryCode;
use lpn::covering::reduce_covering_code;
use lpn::gauss::pooled_gauss_solve;
use lpn::guava::guava_11_7::GuavaCode11_7;
use lpn::oracle::{LpnOracle, Sample};
use lpn::sparse::{reduce_sparse_secret, SparseError};

fn inner(a: u64, s: u64) -> bool {
    (a & s).count_ones() % 2 == 1
}

struct Rng(u64);

impl Rng {
    fn next(&mut self) -> u64 {
        let mut x = self.0;
        x ^= x << 13;
        x ^= x >> 7;
        x ^= x << 17;
        self.0 = x;
        x
    }
}

fn noisy_oracle(k: usize, noise_one_in: u64, n: usize, seed: u64) -> LpnOracle {
    let mut rng = Rng(seed);
    let mask = (1u64 << k) - 1;
    let mut oracle = LpnOracle::new(k, rng.next() & mask);
    for _ in 0..n {
        let a = rng.next() & mask;
        let e = noise_one_in != 0 && rng.next() % noise_one_in == 0;
        oracle.add_sample(a, e);
    }
    oracle
}

/// Reduces with the first window of `k` consecutive samples that is
/// independent.
fn reduce_with_some_basis(oracle: &mut LpnOracle) -> Vec<usize> {
    let k = oracle.get_k();
    for start in 0..oracle.samples.len() - k {
        let basis: Vec<usize> = (start..start + k).collect();
        match reduce_sparse_secret(oracle, &basis) {
            Ok(()) => return basis,
            Err(SparseError::Dependent) => continue,
            Err(e) => panic!("unexpected {:?}", e),
        }
    }
    panic!("no independent basis");
}

#[test]
fn sparse_secret_exact_value() {
    let mut oracle = LpnOracle::new(2, 0b11);
    oracle.samples = vec![
        Sample { a: 0b01, product: false },
        Sample { a: 0b10, product: true },
        Sample { a: 0b11, product: true },
    ];
    // The basis is the identity; its noise bits are 1 (0 ≠ <01, 11>) and 0.
    assert_eq!(reduce_sparse_secret(&mut oracle, &vec![0, 1]), Ok(()));
    assert_eq!(oracle.secret, 0b01);
    // (11, 1) becomes (11, 1 ⊕ <11, y>) with y = 0b10: product 0.
    assert_eq!(oracle.samples, vec![Sample { a: 0b11, product: false }]);
    assert_eq!(oracle.get_k(), 2);
}

#[test]
fn sparse_secret_without_noise_gives_zero_secret() {
    let mut oracle = noisy_oracle(16, 0, 500, 8);
    reduce_with_some_basis(&mut oracle);
    assert_eq!(oracle.secret, 0);
    assert_eq!(oracle.samples.len(), 500 - 16);
    for q in &oracle.samples {
        assert!(!q.product);
        assert!(q.a < (1 << 16));
    }
}

#[test]
fn sparse_secret_weight_is_near_k_tau() {
    // k = 32, τ = 1/32: k·τ = 1 and 4·√(k·τ(1−τ)) < 4, so the weight is at
    // most 4.
    for seed in 1..20u64 {
        let mut oracle = noisy_oracle(32, 32, 400, seed);
        let before = oracle.clone();
        let basis = reduce_with_some_basis(&mut oracle);
        assert!(oracle.secret.count_ones() <= 4);
        // The new secret is the basis samples' noise.
        for (i, &b) in basis.iter().enumerate() {
            let q = before.samples[b];
            let e = q.product != inner(q.a, before.secret);
            assert_eq!((oracle.secret >> i) & 1 == 1, e);
        }
    }
}

#[test]
fn sparse_secret_errors() {
    let mut oracle = noisy_oracle(3, 0, 10, 4);
    let before = oracle.samples.clone();
    assert_eq!(reduce_sparse_secret(&mut oracle, &vec![0, 1]), Err(SparseError::Configuration));
    assert_eq!(reduce_sparse_secret(&mut oracle, &vec![0, 1, 1]), Err(SparseError::Configuration));
    assert_eq!(reduce_sparse_secret(&mut oracle, &vec![0, 1, 10]), Err(SparseError::Configuration));
    let mut dependent = LpnOracle::new(2, 0);
    dependent.samples = vec![Sample { a: 0b11, product: false }, Sample { a: 0b11, product: true }];
    assert_eq!(reduce_sparse_secret(&mut dependent, &vec![0, 1]), Err(SparseError::Dependent));
    assert_eq!(oracle.samples, before);
}

#[test]
fn sparse_then_covering_then_pooled_gauss() {
    // Sparse secret, then the [11, 7] code on the low 11 bits, then pooled
    // Gauss on the 14 dimensions left: the answer is the transformed secret
    // seen through the code, G·s on the low 7 bits and s above.
    let mut oracle = noisy_oracle(18, 32, 20_000, 2024);
    reduce_with_some_basis(&mut oracle);
    let s = oracle.secret;
    let g = GuavaCode11_7.generator_matrix();
    let mut expected = s >> 11 << 7;
    for i in 0..7 {
        if inner(g.row(i).as_u64(), s & 0x7ff) {
            expected |= 1 << i;
        }
    }
    assert_eq!(reduce_covering_code(&mut oracle, &GuavaCode11_7), Ok(()));
    assert_eq!(oracle.get_k(), 14);
    let n = oracle.samples.len() as u64;
    let mut rng = Rng(17);
    let draws: Vec<Vec<usize>> = (0..301)
        .map(|_| (0..14).map(|_| (rng.next() % n) as usize).collect())
        .collect();
    let found = pooled_gauss_solve(&oracle, &draws).unwrap();
    assert_eq!(found.as_u64(), expected);
}
