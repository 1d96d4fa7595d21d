use lpn::oracle::{LpnOracle, Sample};
use lpn::vector::BinVector;

#[test]
fn add_sample_computes_product() {
    let mut oracle = LpnOracle::new(4, 0b1010);
    oracle.add_sample(0b0110, false);
    oracle.add_sample(0b0110, true);
    oracle.add_sample(0b1010, false);
    assert_eq!(oracle.samples[0], Sample { a: 0b0110, product: true });
    assert_eq!(oracle.samples[1], Sample { a: 0b0110, product: false });
    assert_eq!(oracle.samples[2], Sample { a: 0b1010, product: false });
}

#[test]
fn xor_of_samples_adds_products() {
    let mut x = Sample { a: 0b1100, product: true };
    let y = Sample { a: 0b1010, product: true };
    x.xor_into(&y);
    assert_eq!(x, Sample { a: 0b0110, product: false });
    let z = Sample { a: 0b0001, product: false };
    x.xor_into(&z);
    assert_eq!(x, Sample { a: 0b0111, product: false });
}

#[test]
fn truncate_clears_high_bits() {
    let mut oracle = LpnOracle::new(10, 0b11_1111_1111);
    oracle.add_sample(0b11_1111_1111, false);
    oracle.add_sample(0b10_0000_0101, true);
    oracle.truncate(4);
    assert_eq!(oracle.get_k(), 4);
    assert_eq!(oracle.samples[0].a, 0b1111);
    assert_eq!(oracle.samples[1].a, 0b0101);
    assert_eq!(oracle.samples[0].product, false);
    assert_eq!(oracle.samples[1].product, false);
    for q in &oracle.samples {
        assert!(q.a < 16);
    }
}

#[test]
fn secret_bits_are_the_low_bits() {
    let oracle = LpnOracle::new(5, 0b1110_1101);
    let s = oracle.secret_bits();
    assert_eq!(s, BinVector::from_bools(&[true, false, true, true, false]));
}

#[test]
fn sample_truncate_and_product() {
    let mut q = Sample { a: 0xff, product: true };
    q.truncate(3);
    assert_eq!(q.a, 0b111);
    assert!(q.get_product());
}

#[test]
fn binvector_push_get_truncate() {
    let mut v = BinVector::with_capacity(8);
    assert_eq!(v.len(), 0);
    v.push(true);
    v.push(false);
    v.push(true);
    assert_eq!(v.len(), 3);
    assert_eq!(v.as_u64(), 0b101);
    assert_eq!(v.get(2), Some(true));
    assert_eq!(v.get(1), Some(false));
    assert_eq!(v.get(3), None);
    v.truncate(2);
    assert_eq!(v, BinVector::from_bools(&[true, false]));
    v.truncate(5);
    assert_eq!(v.len(), 2);
    assert_eq!(BinVector::from_word(0b110, 3), BinVector::from_bools(&[false, true, true]));
    assert_eq!(BinVector::new(), BinVector::from_bools(&[]));
}

#[test]
fn sample_count_ones() {
    assert_eq!(Sample { a: 0b1011, product: false }.count_ones(), 3);
    assert_eq!(Sample { a: 0, product: true }.count_ones(), 0);
    assert_eq!(Sample { a: u64::MAX, product: true }.count_ones(), 64);
}
