use lpn::gauss::{candidate, pooled_gauss_solve, solve, GaussError};
use lpn::oracle::LpnOracle;
use lpn::vector::BinVector;

fn inner(a: u64, s: u64) -> bool {
    (a & s).count_ones() % 2 == 1
}

struct Rng(u64);

impl Rng {
    fn next(&mut self) -> u64 {
        let mut x = self.0;
        x ^= x << 13;
        x ^= x >> 7;
        x ^= x << 17;
        self.0 = x;
        x
    }
}

#[test]
fn solve_exact_system() {
    // x0 ⊕ x1 = 1, x1 = 1, x0 ⊕ x2 = 0: so x1 = 1, x0 = 0, x2 = 0.
    let rows = vec![0b011, 0b010, 0b101];
    let y = 0b011;
    assert_eq!(solve(&rows, y), Ok(0b010));
}

#[test]
fn solve_singular_gives_dependency() {
    // Row 2 is the sum of rows 0 and 1.
    let rows = vec![0b0110, 0b0011, 0b0101, 0b1000];
    let c = solve(&rows, 0b1010).unwrap_err();
    assert_ne!(c, 0);
    let mut sum = 0u64;
    for (i, r) in rows.iter().enumerate() {
        if (c >> i) & 1 == 1 {
            sum ^= r;
        }
    }
    assert_eq!(sum, 0);
    assert_eq!(c, 0b0111);
}

#[test]
fn solve_random_full_rank_systems() {
    let mut rng = Rng(77);
    let k = 20;
    let mut solved = 0;
    for _ in 0..200 {
        let rows: Vec<u64> = (0..k).map(|_| rng.next() & ((1 << k) - 1)).collect();
        let s = rng.next() & ((1 << k) - 1);
        let mut y = 0u64;
        for (i, r) in rows.iter().enumerate() {
            if inner(*r, s) {
                y |= 1 << i;
            }
        }
        if let Ok(found) = solve(&rows, y) {
            assert_eq!(found, s);
            solved += 1;
        }
    }
    assert!(solved > 50);
}

#[test]
fn solve_empty_system() {
    assert_eq!(solve(&vec![], 0), Ok(0));
}

fn noisy_oracle(k: usize, noise_one_in: u64, n: usize, seed: u64) -> LpnOracle {
    let mut rng = Rng(seed);
    let mask = (1u64 << k) - 1;
    let mut oracle = LpnOracle::new(k, rng.next() & mask);
    for _ in 0..n {
        let a = rng.next() & mask;
        let e = noise_one_in != 0 && rng.next() % noise_one_in == 0;
        oracle.add_sample(a, e);
    }
    oracle
}

fn draws(n: usize, k: usize, count: usize, seed: u64) -> Vec<Vec<usize>> {
    let mut rng = Rng(seed);
    (0..count).map(|_| (0..k).map(|_| (rng.next() % n as u64) as usize).collect()).collect()
}

#[test]
fn candidate_solves_its_draw() {
    let oracle = noisy_oracle(10, 0, 500, 5);
    let mut found = 0;
    for draw in draws(500, 10, 20, 6) {
        if let Some(s) = candidate(&oracle, &draw) {
            assert_eq!(s, oracle.secret);
            found += 1;
        }
    }
    assert!(found > 0);
}

#[test]
fn pooled_gauss_recovers_noisy_secret() {
    let k = 12;
    let oracle = noisy_oracle(k, 32, 3000, 1234);
    let secret = oracle.secret_bits();
    let result = pooled_gauss_solve(&oracle, &draws(3000, k, 301, 99)).unwrap();
    assert_eq!(result, secret);
    assert_eq!(result.len(), k);
}

#[test]
fn pooled_gauss_errors() {
    let oracle = noisy_oracle(4, 0, 10, 3);
    // A draw of the wrong size, and one naming a sample that is not there.
    assert_eq!(pooled_gauss_solve(&oracle, &vec![vec![0, 1, 2]]), Err(GaussError::Configuration));
    assert_eq!(pooled_gauss_solve(&oracle, &vec![vec![0, 1, 2, 10]]), Err(GaussError::Configuration));
    // Four copies of one sample are dependent.
    assert_eq!(
        pooled_gauss_solve(&oracle, &vec![vec![0, 0, 0, 0]]),
        Err(GaussError::InsufficientSamples)
    );
    assert_eq!(pooled_gauss_solve(&oracle, &vec![]), Err(GaussError::InsufficientSamples));
}

#[test]
fn pooled_gauss_majority_exact() {
    // Dimension 1: samples (1, 1) and (1, 0) give candidates 1 and 0; two
    // draws of the first and one of the second: majority 1.
    let mut oracle = LpnOracle::new(1, 1);
    oracle.add_sample(1, false);
    oracle.add_sample(1, true);
    let r = pooled_gauss_solve(&oracle, &vec![vec![0], vec![0], vec![1]]).unwrap();
    assert_eq!(r, BinVector::from_bools(&[true]));
    let r = pooled_gauss_solve(&oracle, &vec![vec![0], vec![1]]).unwrap();
    assert_eq!(r, BinVector::from_bools(&[false]));
}
