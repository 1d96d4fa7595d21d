use lpn::bkw::{bkw, bkw_reduce_inplace, bkw_reduce_sorted, majority, partition_reduce, BkwError};
use lpn::oracle::{LpnOracle, Sample};

/// A small xorshift generator, seeded, so that every run draws the same pool.
struct Rng(u64);

impl Rng {
    fn next(&mut self) -> u64 {
        let mut x = self.0;
        x ^= x << 13;
        x ^= x >> 7;
        x ^= x << 17;
        self.0 = x;
        x
    }
}

fn mask(k: usize) -> u64 {
    if k >= 64 {
        u64::MAX
    } else {
        (1u64 << k) - 1
    }
}

/// An oracle of dimension `k` with `n` samples whose noise bit is set with
/// probability `1 / noise_one_in` (never, when `noise_one_in` is 0).
fn random_oracle(k: usize, noise_one_in: u64, n: usize, seed: u64) -> LpnOracle {
    let mut rng = Rng(seed);
    let mut oracle = LpnOracle::new(k, rng.next() & mask(k));
    for _ in 0..n {
        let a = rng.next() & mask(k);
        let e = noise_one_in != 0 && rng.next() % noise_one_in == 0;
        oracle.add_sample(a, e);
    }
    oracle
}

fn inner(a: u64, s: u64) -> bool {
    (a & s).count_ones() % 2 == 1
}

fn window(a: u64, lo: usize, b: usize) -> u64 {
    (a >> lo) & mask(b)
}

fn sorted_pool(o: &LpnOracle) -> Vec<(u64, bool)> {
    let mut v: Vec<(u64, bool)> = o.samples.iter().map(|q| (q.a, q.product)).collect();
    v.sort();
    v
}

#[test]
fn test_bkw() {
    let a = 4;
    let b = 8;

    let oracle = random_oracle(32, 32, 200_000, 0x9e37_79b9_7f4a_7c15);

    // get secret for checking
    let secret = oracle.secret_bits();
    println!("{:x?}", secret);
    let mut secret = secret;

    // run bkw
    let solution = bkw(oracle, a, b).unwrap();
    secret.truncate(solution.len());
    assert_eq!(solution.len(), 8);
    assert_eq!(solution, secret);
}

#[test]
fn majority_empty_bucket_fails() {
    let oracle = random_oracle(8, 10, 5, 7);
    assert_eq!(majority(oracle), Err(BkwError::InsufficientSamples));
}

#[test]
fn majority_exact_votes() {
    let mut oracle = LpnOracle::new(2, 0b01);
    // e_0: products 1, 1, 0: majority 1. e_1: products 0, 1: a tie gives 0.
    oracle.samples = vec![
        Sample { a: 1, product: true },
        Sample { a: 1, product: true },
        Sample { a: 1, product: false },
        Sample { a: 2, product: false },
        Sample { a: 2, product: true },
        Sample { a: 3, product: true },
    ];
    let v = majority(oracle).unwrap();
    assert_eq!(v.len(), 2);
    assert_eq!(v.get(0), Some(true));
    assert_eq!(v.get(1), Some(false));
}

#[test]
fn majority_same_samples_same_answer() {
    let oracle = random_oracle(6, 8, 3000, 11);
    let copy = oracle.clone();
    let first = majority(oracle);
    let second = majority(copy);
    assert!(first.is_ok());
    assert_eq!(first, second);
}

#[test]
fn majority_too_many_dimensions() {
    let oracle = random_oracle(21, 8, 100, 3);
    assert_eq!(majority(oracle), Err(BkwError::Configuration));
}

#[test]
fn bkw_configuration_errors() {
    assert_eq!(bkw(random_oracle(16, 8, 100, 1), 0, 4), Err(BkwError::Configuration));
    assert_eq!(bkw(random_oracle(16, 8, 100, 1), 5, 4), Err(BkwError::Configuration));
    assert_eq!(bkw(random_oracle(32, 8, 100, 1), 2, 4), Err(BkwError::Configuration));
}

#[test]
fn partition_reduce_zeroes_window_and_drops_one_pivot_per_bucket() {
    let k = 12;
    let b = 4;
    let oracle = random_oracle(k, 0, 2000, 5);
    let n0 = oracle.samples.len();
    let mut seen = [false; 16];
    for q in &oracle.samples {
        seen[window(q.a, k - b, b) as usize] = true;
    }
    assert!(seen.iter().all(|s| *s));
    let mut oracle = oracle;
    partition_reduce(&mut oracle, b as u32);
    assert_eq!(oracle.get_k(), k - b);
    assert_eq!(oracle.samples.len(), n0 - 16);
    for q in &oracle.samples {
        assert_eq!(q.a >> (k - b), 0);
    }
}

#[test]
fn reduction_keeps_samples_consistent_with_the_secret() {
    // Without noise, every sum of samples is still a noise-free sample.
    let mut oracle = random_oracle(20, 0, 5000, 21);
    let s = oracle.secret;
    partition_reduce(&mut oracle, 6);
    assert!(oracle.samples.len() <= 5000 && oracle.samples.len() + 64 >= 5000);
    for q in &oracle.samples {
        assert_eq!(q.product, inner(q.a, s));
    }
}

#[test]
fn inplace_and_sorted_give_the_same_pool() {
    let oracle = random_oracle(16, 4, 3000, 99);
    let mut by_index = oracle.clone();
    let mut by_sort = oracle.clone();
    bkw_reduce_inplace(&mut by_index, 1, 5);
    bkw_reduce_sorted(&mut by_sort, 1, 5);
    assert!(by_index.samples.len() < oracle.samples.len());
    assert_eq!(sorted_pool(&by_index), sorted_pool(&by_sort));
    for q in &by_sort.samples {
        assert_eq!(window(q.a, 11, 5), 0);
    }
}

#[test]
fn second_iteration_uses_next_window_down() {
    let mut oracle = random_oracle(16, 0, 4000, 17);
    bkw_reduce_inplace(&mut oracle, 1, 4);
    bkw_reduce_inplace(&mut oracle, 2, 4);
    assert_eq!(oracle.get_k(), 16);
    for q in &oracle.samples {
        assert_eq!(window(q.a, 12, 4), 0);
        assert_eq!(window(q.a, 8, 4), 0);
    }
    assert_eq!(oracle.samples.len(), 4000 - 32);
}

#[test]
fn sorted_reduction_with_wide_window() {
    let k = 50;
    let b = 22;
    let oracle = random_oracle(k, 0, 3000, 31);
    let s = oracle.secret;
    let mut oracle = oracle;
    partition_reduce(&mut oracle, b as u32);
    assert_eq!(oracle.get_k(), k - b);
    // Nearly every window value is new, so nearly every sample is a pivot.
    assert!(oracle.samples.len() < 100);
    for q in &oracle.samples {
        assert_eq!(q.a >> (k - b), 0);
        assert_eq!(q.product, inner(q.a, s));
    }
}
