use lpn::code::{BinaryCode, CodeError};
use lpn::guava::guava_10_5::GuavaCode10_5;
use lpn::guava::guava_11_7::GuavaCode11_7;
use lpn::guava::guava_7_2::GuavaCode7_2;
use lpn::guava::guava_9_6::GuavaCode9_6;
use lpn::oracle::Sample;
use lpn::vector::BinVector;


#[test]
fn guava_10_5_size() {
    let code = GuavaCode10_5.generator_matrix();
    assert_eq!(code.ncols(), 10);
    assert_eq!(code.nrows(), 5);
}

#[test]
fn guava_10_5_test_decode_sample() {
    let code = GuavaCode10_5;
    for word in 0..(1u64 << code.length()) {
        // setup
        let vec = BinVector::from_word(word, code.length());
        let mut sample_a = Sample::from_binvector(&vec, false);
        let mut sample_b = Sample::from_binvector(&vec, true);

        let decoded_vec = code.decode_to_message(&vec).unwrap();
        println!("decoded_vec: {:?}", decoded_vec);

        // test vectors
        let decoded_vec_sample_a = Sample::from_binvector(&decoded_vec, false);
        let decoded_vec_sample_b = Sample::from_binvector(&decoded_vec, true);

        code.decode_sample(&mut sample_a);
        code.decode_sample(&mut sample_b);
        assert_eq!(sample_a.get_product(), false);
        assert_eq!(sample_b.get_product(), true);
        assert_eq!(sample_a, decoded_vec_sample_a);
        assert_eq!(sample_b, decoded_vec_sample_b);
    }
}

#[test]
fn guava_10_5_random_decode_tests() {
    {
        let code = GuavaCode10_5;
        let randvec = BinVector::from_bools(&[false, true, false, false, false, false, false, true, false, true]);
        let codeword = BinVector::from_bools(&[false, true, false, true, false, false, false, true, false, true]);
        assert_eq!(code.decode_to_code(&randvec), Ok(codeword));
    }
    {
        let code = GuavaCode10_5;
        let randvec = BinVector::from_bools(&[true, false, false, true, false, true, true, true, true, true]);
        let codeword = BinVector::from_bools(&[true, false, false, true, true, true, true, true, true, true]);
        assert_eq!(code.decode_to_code(&randvec), Ok(codeword));
    }
    {
        let code = GuavaCode10_5;
        let randvec = BinVector::from_bools(&[false, true, false, true, false, true, false, false, true, false]);
        let codeword = BinVector::from_bools(&[true, true, false, true, false, true, false, true, true, false]);
        assert_eq!(code.decode_to_code(&randvec), Ok(codeword));
    }
    {
        let code = GuavaCode10_5;
        let randvec = BinVector::from_bools(&[true, false, false, false, true, false, true, true, true, false]);
        let codeword = BinVector::from_bools(&[false, true, false, false, false, false, true, true, true, false]);
        assert_eq!(code.decode_to_code(&randvec), Ok(codeword));
    }
    {
        let code = GuavaCode10_5;
        let randvec = BinVector::from_bools(&[false, true, false, false, true, true, false, false, false, false]);
        let codeword = BinVector::from_bools(&[true, false, false, false, true, true, false, true, false, false]);
        assert_eq!(code.decode_to_code(&randvec), Ok(codeword));
    }
    {
        let code = GuavaCode10_5;
        let randvec = BinVector::from_bools(&[false, false, true, false, false, false, true, true, true, false]);
        let codeword = BinVector::from_bools(&[true, false, true, false, false, true, true, true, true, false]);
        assert_eq!(code.decode_to_code(&randvec), Ok(codeword));
    }
    {
        let code = GuavaCode10_5;
        let randvec = BinVector::from_bools(&[false, false, false, false, true, false, true, false, false, false]);
        let codeword = BinVector::from_bools(&[false, true, false, false, true, false, true, false, false, true]);
        assert_eq!(code.decode_to_code(&randvec), Ok(codeword));
    }
    {
        let code = GuavaCode10_5;
        let randvec = BinVector::from_bools(&[false, true, true, true, true, false, false, false, true, true]);
        let codeword = BinVector::from_bools(&[false, false, true, true, true, false, false, false, false, true]);
        assert_eq!(code.decode_to_code(&randvec), Ok(codeword));
    }
    {
        let code = GuavaCode10_5;
        let randvec = BinVector::from_bools(&[false, false, true, true, true, false, true, false, false, false]);
        let codeword = BinVector::from_bools(&[false, true, true, true, false, false, true, false, false, false]);
        assert_eq!(code.decode_to_code(&randvec), Ok(codeword));
    }
    {
        let code = GuavaCode10_5;
        let randvec = BinVector::from_bools(&[false, false, true, false, true, true, true, true, true, true]);
        let codeword = BinVector::from_bools(&[true, true, true, false, true, true, false, true, true, true]);
        assert_eq!(code.decode_to_code(&randvec), Ok(codeword));
    }
    {
        let code = GuavaCode10_5;
        let randvec = BinVector::from_bools(&[false, false, false, false, true, false, true, false, false, false]);
        let codeword = BinVector::from_bools(&[false, true, false, false, true, false, true, false, false, true]);
        assert_eq!(code.decode_to_code(&randvec), Ok(codeword));
    }
    {
        let code = GuavaCode10_5;
        let randvec = BinVector::from_bools(&[false, false, true, false, true, false, false, true, true, false]);
        let codeword = BinVector::from_bools(&[false, true, true, false, true, false, false, true, false, false]);
        assert_eq!(code.decode_to_code(&randvec), Ok(codeword));
    }
    {
        let code = GuavaCode10_5;
        let randvec = BinVector::from_bools(&[true, false, false, true, false, true, false, false, false, true]);
        let codeword = BinVector::from_bools(&[true, true, false, true, true, true, false, false, false, true]);
        assert_eq!(code.decode_to_code(&randvec), Ok(codeword));
    }
    {
        let code = GuavaCode10_5;
        let randvec = BinVector::from_bools(&[false, false, false, true, true, true, false, true, true, false]);
        let codeword = BinVector::from_bools(&[true, true, false, true, false, true, false, true, true, false]);
        assert_eq!(code.decode_to_code(&randvec), Ok(codeword));
    }
    {
        let code = GuavaCode10_5;
        let randvec = BinVector::from_bools(&[true, false, false, true, true, false, false, false, false, true]);
        let codeword = BinVector::from_bools(&[false, false, true, true, true, false, false, false, false, true]);
        assert_eq!(code.decode_to_code(&randvec), Ok(codeword));
    }
    {
        let code = GuavaCode10_5;
        let randvec = BinVector::from_bools(&[true, false, false, true, true, false, false, false, true, false]);
        let codeword = BinVector::from_bools(&[false, true, false, true, true, false, false, false, true, false]);
        assert_eq!(code.decode_to_code(&randvec), Ok(codeword));
    }
    {
        let code = GuavaCode10_5;
        let randvec = BinVector::from_bools(&[false, false, true, false, false, true, false, false, true, true]);
        let codeword = BinVector::from_bools(&[true, false, false, false, false, true, false, false, true, true]);
        assert_eq!(code.decode_to_code(&randvec), Ok(codeword));
    }
    {
        let code = GuavaCode10_5;
        let randvec = BinVector::from_bools(&[true, false, false, false, true, false, false, true, false, true]);
        let codeword = BinVector::from_bools(&[false, false, false, false, true, false, false, true, true, true]);
        assert_eq!(code.decode_to_code(&randvec), Ok(codeword));
    }
    {
        let code = GuavaCode10_5;
        let randvec = BinVector::from_bools(&[false, false, true, false, true, true, true, false, true, false]);
        let codeword = BinVector::from_bools(&[false, false, true, false, true, false, true, false, true, false]);
        assert_eq!(code.decode_to_code(&randvec), Ok(codeword));
    }
    {
        let code = GuavaCode10_5;
        let randvec = BinVector::from_bools(&[false, false, true, true, false, false, true, true, true, false]);
        let codeword = BinVector::from_bools(&[false, false, true, true, false, false, false, true, true, false]);
        assert_eq!(code.decode_to_code(&randvec), Ok(codeword));
    }
}

#[test]
fn guava_10_5_test_generator_representation() {
    let generator_matrix = GuavaCode10_5.generator_matrix();
    let first_row = generator_matrix.row(0);
    let vector = BinVector::from_bools(&[true, false, false, false, false, true, false, false, true, true]);
    assert_eq!(vector, first_row);
}

#[test]
fn guava_11_7_size() {
    let code = GuavaCode11_7.generator_matrix();
    assert_eq!(code.ncols(), 11);
    assert_eq!(code.nrows(), 7);
}

#[test]
fn guava_11_7_test_decode_sample() {
    let code = GuavaCode11_7;
    for word in 0..(1u64 << code.length()) {
        // setup
        let vec = BinVector::from_word(word, code.length());
        let mut sample_a = Sample::from_binvector(&vec, false);
        let mut sample_b = Sample::from_binvector(&vec, true);

        let decoded_vec = code.decode_to_message(&vec).unwrap();
        println!("decoded_vec: {:?}", decoded_vec);

        // test vectors
        let decoded_vec_sample_a = Sample::from_binvector(&decoded_vec, false);
        let decoded_vec_sample_b = Sample::from_binvector(&decoded_vec, true);

        code.decode_sample(&mut sample_a);
        code.decode_sample(&mut sample_b);
        assert_eq!(sample_a.get_product(), false);
        assert_eq!(sample_b.get_product(), true);
        assert_eq!(sample_a, decoded_vec_sample_a);
        assert_eq!(sample_b, decoded_vec_sample_b);
    }
}

#[test]
fn guava_11_7_random_decode_tests() {
    {
        let code = GuavaCode11_7;
        let randvec = BinVector::from_bools(&[true, false, true, true, true, false, true, false, false, false, true]);
        let codeword = BinVector::from_bools(&[true, false, true, true, true, false, true, false, false, false, true]);
        assert_eq!(code.decode_to_code(&randvec), Ok(codeword));
    }
    {
        let code = GuavaCode11_7;
        let randvec = BinVector::from_bools(&[false, true, false, true, false, true, true, false, false, false, true]);
        let codeword = BinVector::from_bools(&[false, true, true, true, false, true, true, false, false, false, true]);
        assert_eq!(code.decode_to_code(&randvec), Ok(codeword));
    }
    {
        let code = GuavaCode11_7;
        let randvec = BinVector::from_bools(&[true, true, true, true, false, false, false, true, false, true, false]);
        let codeword = BinVector::from_bools(&[true, true, true, true, true, false, false, true, false, true, false]);
        assert_eq!(code.decode_to_code(&randvec), Ok(codeword));
    }
    {
        let code = GuavaCode11_7;
        let randvec = BinVector::from_bools(&[false, true, true, true, false, true, false, true, false, true, false]);
        let codeword = BinVector::from_bools(&[false, false, true, true, false, true, false, true, false, true, false]);
        assert_eq!(code.decode_to_code(&randvec), Ok(codeword));
    }
    {
        let code = GuavaCode11_7;
        let randvec = BinVector::from_bools(&[true, true, true, false, false, false, true, false, false, true, true]);
        let codeword = BinVector::from_bools(&[true, true, true, false, true, false, true, false, false, true, true]);
        assert_eq!(code.decode_to_code(&randvec), Ok(codeword));
    }
    {
        let code = GuavaCode11_7;
        let randvec = BinVector::from_bools(&[false, true, false, true, false, false, false, false, true, false, false]);
        let codeword = BinVector::from_bools(&[true, false, false, true, false, false, false, false, true, false, false]);
        assert_eq!(code.decode_to_code(&randvec), Ok(codeword));
    }
    {
        let code = GuavaCode11_7;
        let randvec = BinVector::from_bools(&[false, true, true, false, false, false, false, true, true, true, false]);
        let codeword = BinVector::from_bools(&[false, true, true, false, true, false, false, true, true, true, false]);
        assert_eq!(code.decode_to_code(&randvec), Ok(codeword));
    }
    {
        let code = GuavaCode11_7;
        let randvec = BinVector::from_bools(&[true, false, true, true, false, false, false, true, false, true, false]);
        let codeword = BinVector::from_bools(&[true, false, true, true, false, false, false, true, false, true, true]);
        assert_eq!(code.decode_to_code(&randvec), Ok(codeword));
    }
    {
        let code = GuavaCode11_7;
        let randvec = BinVector::from_bools(&[true, true, true, false, true, true, false, false, true, true, false]);
        let codeword = BinVector::from_bools(&[true, true, true, true, true, true, true, false, true, true, false]);
        assert_eq!(code.decode_to_code(&randvec), Ok(codeword));
    }
    {
        let code = GuavaCode11_7;
        let randvec = BinVector::from_bools(&[false, false, false, true, false, true, true, true, false, true, false]);
        let codeword = BinVector::from_bools(&[false, false, false, true, false, true, true, false, false, true, false]);
        assert_eq!(code.decode_to_code(&randvec), Ok(codeword));
    }
    {
        let code = GuavaCode11_7;
        let randvec = BinVector::from_bools(&[false, true, false, true, false, false, false, false, true, true, true]);
        let codeword = BinVector::from_bools(&[true, true, true, true, false, false, false, false, true, true, true]);
        assert_eq!(code.decode_to_code(&randvec), Ok(codeword));
    }
    {
        let code = GuavaCode11_7;
        let randvec = BinVector::from_bools(&[true, true, true, false, false, true, true, false, true, false, false]);
        let codeword = BinVector::from_bools(&[true, true, true, false, false, true, true, false, true, false, true]);
        assert_eq!(code.decode_to_code(&randvec), Ok(codeword));
    }
    {
        let code = GuavaCode11_7;
        let randvec = BinVector::from_bools(&[true, true, true, true, true, false, false, false, false, false, false]);
        let codeword = BinVector::from_bools(&[false, true, true, true, true, false, false, false, false, false, false]);
        assert_eq!(code.decode_to_code(&randvec), Ok(codeword));
    }
    {
        let code = GuavaCode11_7;
        let randvec = BinVector::from_bools(&[true, false, false, true, false, true, false, true, true, true, true]);
        let codeword = BinVector::from_bools(&[true, false, false, true, false, true, false, true, true, true, true]);
        assert_eq!(code.decode_to_code(&randvec), Ok(codeword));
    }
    {
        let code = GuavaCode11_7;
        let randvec = BinVector::from_bools(&[false, true, false, true, false, true, true, false, false, true, true]);
        let codeword = BinVector::from_bools(&[false, true, false, true, true, true, true, false, false, true, true]);
        assert_eq!(code.decode_to_code(&randvec), Ok(codeword));
    }
    {
        let code = GuavaCode11_7;
        let randvec = BinVector::from_bools(&[true, true, false, true, true, false, true, false, false, true, true]);
        let codeword = BinVector::from_bools(&[true, true, false, true, true, false, true, false, false, true, false]);
        assert_eq!(code.decode_to_code(&randvec), Ok(codeword));
    }
    {
        let code = GuavaCode11_7;
        let randvec = BinVector::from_bools(&[true, false, false, true, true, true, false, false, true, true, false]);
        let codeword = BinVector::from_bools(&[true, false, false, true, true, true, false, false, false, true, false]);
        assert_eq!(code.decode_to_code(&randvec), Ok(codeword));
    }
    {
        let code = GuavaCode11_7;
        let randvec = BinVector::from_bools(&[true, true, true, true, true, true, false, true, false, false, false]);
        let codeword = BinVector::from_bools(&[true, true, true, false, true, true, true, true, false, false, false]);
        assert_eq!(code.decode_to_code(&randvec), Ok(codeword));
    }
    {
        let code = GuavaCode11_7;
        let randvec = BinVector::from_bools(&[true, false, true, true, true, false, false, false, false, true, false]);
        let codeword = BinVector::from_bools(&[true, false, true, true, true, false, false, false, true, true, false]);
        assert_eq!(code.decode_to_code(&randvec), Ok(codeword));
    }
    {
        let code = GuavaCode11_7;
        let randvec = BinVector::from_bools(&[true, false, false, false, true, false, false, false, false, true, true]);
        let codeword = BinVector::from_bools(&[true, false, false, false, true, false, false, false, true, true, true]);
        assert_eq!(code.decode_to_code(&randvec), Ok(codeword));
    }
}

#[test]
fn guava_11_7_test_generator_representation() {
    let generator_matrix = GuavaCode11_7.generator_matrix();
    let first_row = generator_matrix.row(0);
    let vector = BinVector::from_bools(&[true, false, false, false, false, false, false, true, false, true, false]);
    assert_eq!(vector, first_row);
}

#[test]
fn guava_7_2_size() {
    let code = GuavaCode7_2.generator_matrix();
    assert_eq!(code.ncols(), 7);
    assert_eq!(code.nrows(), 2);
}

#[test]
fn guava_7_2_test_decode_sample() {
    let code = GuavaCode7_2;
    for word in 0..(1u64 << code.length()) {
        // setup
        let vec = BinVector::from_word(word, code.length());
        let mut sample_a = Sample::from_binvector(&vec, false);
        let mut sample_b = Sample::from_binvector(&vec, true);

        let decoded_vec = code.decode_to_message(&vec).unwrap();
        println!("decoded_vec: {:?}", decoded_vec);

        // test vectors
        let decoded_vec_sample_a = Sample::from_binvector(&decoded_vec, false);
        let decoded_vec_sample_b = Sample::from_binvector(&decoded_vec, true);

        code.decode_sample(&mut sample_a);
        code.decode_sample(&mut sample_b);
        assert_eq!(sample_a.get_product(), false);
        assert_eq!(sample_b.get_product(), true);
        assert_eq!(sample_a, decoded_vec_sample_a);
        assert_eq!(sample_b, decoded_vec_sample_b);
    }
}

#[test]
fn guava_7_2_random_decode_tests() {
    {
        let code = GuavaCode7_2;
        let randvec = BinVector::from_bools(&[false, false, true, false, false, false, false]);
        let codeword = BinVector::from_bools(&[false, false, false, false, false, false, false]);
        assert_eq!(code.decode_to_code(&randvec), Ok(codeword));
    }
    {
        let code = GuavaCode7_2;
        let randvec = BinVector::from_bools(&[true, true, true, true, true, false, true]);
        let codeword = BinVector::from_bools(&[true, true, true, true, true, false, false]);
        assert_eq!(code.decode_to_code(&randvec), Ok(codeword));
    }
    {
        let code = GuavaCode7_2;
        let randvec = BinVector::from_bools(&[true, false, true, false, true, true, true]);
        let codeword = BinVector::from_bools(&[true, false, true, false, false, true, true]);
        assert_eq!(code.decode_to_code(&randvec), Ok(codeword));
    }
    {
        let code = GuavaCode7_2;
        let randvec = BinVector::from_bools(&[true, false, true, false, false, true, true]);
        let codeword = BinVector::from_bools(&[true, false, true, false, false, true, true]);
        assert_eq!(code.decode_to_code(&randvec), Ok(codeword));
    }
    {
        let code = GuavaCode7_2;
        let randvec = BinVector::from_bools(&[true, true, true, false, true, false, true]);
        let codeword = BinVector::from_bools(&[true, true, true, true, true, false, false]);
        assert_eq!(code.decode_to_code(&randvec), Ok(codeword));
    }
    {
        let code = GuavaCode7_2;
        let randvec = BinVector::from_bools(&[true, false, true, true, false, false, false]);
        let codeword = BinVector::from_bools(&[true, true, true, true, true, false, false]);
        assert_eq!(code.decode_to_code(&randvec), Ok(codeword));
    }
    {
        let code = GuavaCode7_2;
        let randvec = BinVector::from_bools(&[false, false, true, true, true, true, true]);
        let codeword = BinVector::from_bools(&[false, true, false, true, true, true, true]);
        assert_eq!(code.decode_to_code(&randvec), Ok(codeword));
    }
    {
        let code = GuavaCode7_2;
        let randvec = BinVector::from_bools(&[false, false, true, false, true, false, false]);
        let codeword = BinVector::from_bools(&[false, false, false, false, false, false, false]);
        assert_eq!(code.decode_to_code(&randvec), Ok(codeword));
    }
    {
        let code = GuavaCode7_2;
        let randvec = BinVector::from_bools(&[false, true, true, true, false, true, true]);
        let codeword = BinVector::from_bools(&[false, true, false, true, true, true, true]);
        assert_eq!(code.decode_to_code(&randvec), Ok(codeword));
    }
    {
        let code = GuavaCode7_2;
        let randvec = BinVector::from_bools(&[false, false, false, false, false, false, true]);
        let codeword = BinVector::from_bools(&[false, false, false, false, false, false, false]);
        assert_eq!(code.decode_to_code(&randvec), Ok(codeword));
    }
    {
        let code = GuavaCode7_2;
        let randvec = BinVector::from_bools(&[true, false, false, false, false, false, true]);
        let codeword = BinVector::from_bools(&[false, false, false, false, false, false, false]);
        assert_eq!(code.decode_to_code(&randvec), Ok(codeword));
    }
    {
        let code = GuavaCode7_2;
        let randvec = BinVector::from_bools(&[false, true, false, true, true, true, true]);
        let codeword = BinVector::from_bools(&[false, true, false, true, true, true, true]);
        assert_eq!(code.decode_to_code(&randvec), Ok(codeword));
    }
    {
        let code = GuavaCode7_2;
        let randvec = BinVector::from_bools(&[false, false, true, true, true, false, true]);
        let codeword = BinVector::from_bools(&[true, true, true, true, true, false, false]);
        assert_eq!(code.decode_to_code(&randvec), Ok(codeword));
    }
    {
        let code = GuavaCode7_2;
        let randvec = BinVector::from_bools(&[true, true, false, true, false, false, true]);
        let codeword = BinVector::from_bools(&[false, true, false, true, true, true, true]);
        assert_eq!(code.decode_to_code(&randvec), Ok(codeword));
    }
    {
        let code = GuavaCode7_2;
        let randvec = BinVector::from_bools(&[true, false, true, false, true, true, true]);
        let codeword = BinVector::from_bools(&[true, false, true, false, false, true, true]);
        assert_eq!(code.decode_to_code(&randvec), Ok(codeword));
    }
    {
        let code = GuavaCode7_2;
        let randvec = BinVector::from_bools(&[true, false, true, true, true, false, true]);
        let codeword = BinVector::from_bools(&[true, true, true, true, true, false, false]);
        assert_eq!(code.decode_to_code(&randvec), Ok(codeword));
    }
    {
        let code = GuavaCode7_2;
        let randvec = BinVector::from_bools(&[true, false, false, true, false, true, false]);
        let codeword = BinVector::from_bools(&[false, false, false, false, false, false, false]);
        assert_eq!(code.decode_to_code(&randvec), Ok(codeword));
    }
    {
        let code = GuavaCode7_2;
        let randvec = BinVector::from_bools(&[true, true, false, false, true, true, true]);
        let codeword = BinVector::from_bools(&[false, true, false, true, true, true, true]);
        assert_eq!(code.decode_to_code(&randvec), Ok(codeword));
    }
    {
        let code = GuavaCode7_2;
        let randvec = BinVector::from_bools(&[false, false, false, false, true, true, false]);
        let codeword = BinVector::from_bools(&[false, false, false, false, false, false, false]);
        assert_eq!(code.decode_to_code(&randvec), Ok(codeword));
    }
    {
        let code = GuavaCode7_2;
        let randvec = BinVector::from_bools(&[true, false, false, true, false, false, false]);
        let codeword = BinVector::from_bools(&[false, false, false, false, false, false, false]);
        assert_eq!(code.decode_to_code(&randvec), Ok(codeword));
    }
}

#[test]
fn guava_7_2_test_generator_representation() {
    let generator_matrix = GuavaCode7_2.generator_matrix();
    let first_row = generator_matrix.row(0);
    let vector = BinVector::from_bools(&[true, false, true, false, false, true, true]);
    assert_eq!(vector, first_row);
}

#[test]
fn guava_9_6_size() {
    let code = GuavaCode9_6.generator_matrix();
    assert_eq!(code.ncols(), 9);
    assert_eq!(code.nrows(), 6);
}

#[test]
fn guava_9_6_test_decode_sample() {
    let code = GuavaCode9_6;
    for word in 0..(1u64 << code.length()) {
        // setup
        let vec = BinVector::from_word(word, code.length());
        let mut sample_a = Sample::from_binvector(&vec, false);
        let mut sample_b = Sample::from_binvector(&vec, true);

        let decoded_vec = code.decode_to_message(&vec).unwrap();
        println!("decoded_vec: {:?}", decoded_vec);

        // test vectors
        let decoded_vec_sample_a = Sample::from_binvector(&decoded_vec, false);
        let decoded_vec_sample_b = Sample::from_binvector(&decoded_vec, true);

        code.decode_sample(&mut sample_a);
        code.decode_sample(&mut sample_b);
        assert_eq!(sample_a.get_product(), false);
        assert_eq!(sample_b.get_product(), true);
        assert_eq!(sample_a, decoded_vec_sample_a);
        assert_eq!(sample_b, decoded_vec_sample_b);
    }
}

#[test]
fn guava_9_6_random_decode_tests() {
    {
        let code = GuavaCode9_6;
        let randvec = BinVector::from_bools(&[false, true, false, true, true, true, true, false, true]);
        let codeword = BinVector::from_bools(&[true, true, false, true, true, true, true, false, false]);
        assert_eq!(code.decode_to_code(&randvec), Ok(codeword));
    }
    {
        let code = GuavaCode9_6;
        let randvec = BinVector::from_bools(&[false, true, true, true, true, false, true, false, false]);
        let codeword = BinVector::from_bools(&[true, true, true, true, true, false, true, false, false]);
        assert_eq!(code.decode_to_code(&randvec), Ok(codeword));
    }
    {
        let code = GuavaCode9_6;
        let randvec = BinVector::from_bools(&[false, true, true, true, true, false, true, false, true]);
        let codeword = BinVector::from_bools(&[true, true, true, true, true, false, true, false, false]);
        assert_eq!(code.decode_to_code(&randvec), Ok(codeword));
    }
    {
        let code = GuavaCode9_6;
        let randvec = BinVector::from_bools(&[true, true, false, false, false, true, true, true, true]);
        let codeword = BinVector::from_bools(&[true, true, false, false, false, true, true, false, false]);
        assert_eq!(code.decode_to_code(&randvec), Ok(codeword));
    }
    {
        let code = GuavaCode9_6;
        let randvec = BinVector::from_bools(&[false, true, true, false, true, true, true, false, true]);
        let codeword = BinVector::from_bools(&[true, true, true, false, true, true, true, false, false]);
        assert_eq!(code.decode_to_code(&randvec), Ok(codeword));
    }
    {
        let code = GuavaCode9_6;
        let randvec = BinVector::from_bools(&[false, true, false, false, false, false, true, true, true]);
        let codeword = BinVector::from_bools(&[false, true, false, false, false, false, true, false, false]);
        assert_eq!(code.decode_to_code(&randvec), Ok(codeword));
    }
    {
        let code = GuavaCode9_6;
        let randvec = BinVector::from_bools(&[true, false, true, false, false, true, false, true, true]);
        let codeword = BinVector::from_bools(&[false, false, true, false, false, true, false, false, false]);
        assert_eq!(code.decode_to_code(&randvec), Ok(codeword));
    }
    {
        let code = GuavaCode9_6;
        let randvec = BinVector::from_bools(&[false, false, true, true, false, true, true, false, true]);
        let codeword = BinVector::from_bools(&[false, false, true, true, false, true, true, false, false]);
        assert_eq!(code.decode_to_code(&randvec), Ok(codeword));
    }
    {
        let code = GuavaCode9_6;
        let randvec = BinVector::from_bools(&[false, true, true, true, true, true, false, true, false]);
        let codeword = BinVector::from_bools(&[true, true, true, true, true, true, false, false, false]);
        assert_eq!(code.decode_to_code(&randvec), Ok(codeword));
    }
    {
        let code = GuavaCode9_6;
        let randvec = BinVector::from_bools(&[true, true, false, true, true, true, true, false, true]);
        let codeword = BinVector::from_bools(&[true, true, false, true, true, true, true, false, false]);
        assert_eq!(code.decode_to_code(&randvec), Ok(codeword));
    }
    {
        let code = GuavaCode9_6;
        let randvec = BinVector::from_bools(&[false, false, true, true, false, true, false, true, false]);
        let codeword = BinVector::from_bools(&[true, false, true, true, false, true, false, false, false]);
        assert_eq!(code.decode_to_code(&randvec), Ok(codeword));
    }
    {
        let code = GuavaCode9_6;
        let randvec = BinVector::from_bools(&[true, true, false, false, true, true, false, false, false]);
        let codeword = BinVector::from_bools(&[true, true, false, false, true, true, false, false, false]);
        assert_eq!(code.decode_to_code(&randvec), Ok(codeword));
    }
    {
        let code = GuavaCode9_6;
        let randvec = BinVector::from_bools(&[true, true, true, true, true, true, true, false, false]);
        let codeword = BinVector::from_bools(&[false, true, true, true, true, true, true, false, false]);
        assert_eq!(code.decode_to_code(&randvec), Ok(codeword));
    }
    {
        let code = GuavaCode9_6;
        let randvec = BinVector::from_bools(&[false, false, false, true, true, false, true, true, true]);
        let codeword = BinVector::from_bools(&[true, false, false, true, true, false, true, false, false]);
        assert_eq!(code.decode_to_code(&randvec), Ok(codeword));
    }
    {
        let code = GuavaCode9_6;
        let randvec = BinVector::from_bools(&[true, true, false, false, true, true, true, false, false]);
        let codeword = BinVector::from_bools(&[false, true, false, false, true, true, true, false, false]);
        assert_eq!(code.decode_to_code(&randvec), Ok(codeword));
    }
    {
        let code = GuavaCode9_6;
        let randvec = BinVector::from_bools(&[true, false, false, true, false, true, true, false, true]);
        let codeword = BinVector::from_bools(&[true, false, false, true, false, true, true, false, false]);
        assert_eq!(code.decode_to_code(&randvec), Ok(codeword));
    }
    {
        let code = GuavaCode9_6;
        let randvec = BinVector::from_bools(&[false, false, true, false, false, false, false, false, true]);
        let codeword = BinVector::from_bools(&[true, false, true, false, false, false, false, false, false]);
        assert_eq!(code.decode_to_code(&randvec), Ok(codeword));
    }
    {
        let code = GuavaCode9_6;
        let randvec = BinVector::from_bools(&[false, true, false, false, true, true, true, false, true]);
        let codeword = BinVector::from_bools(&[false, true, false, false, true, true, true, false, false]);
        assert_eq!(code.decode_to_code(&randvec), Ok(codeword));
    }
    {
        let code = GuavaCode9_6;
        let randvec = BinVector::from_bools(&[false, true, false, true, true, true, true, false, false]);
        let codeword = BinVector::from_bools(&[true, true, false, true, true, true, true, false, false]);
        assert_eq!(code.decode_to_code(&randvec), Ok(codeword));
    }
    {
        let code = GuavaCode9_6;
        let randvec = BinVector::from_bools(&[false, false, true, true, true, true, false, true, true]);
        let codeword = BinVector::from_bools(&[false, false, true, true, true, true, false, false, false]);
        assert_eq!(code.decode_to_code(&randvec), Ok(codeword));
    }
}

#[test]
fn guava_9_6_test_generator_representation() {
    let generator_matrix = GuavaCode9_6.generator_matrix();
    let first_row = generator_matrix.row(0);
    let vector = BinVector::from_bools(&[true, false, false, false, false, false, true, false, false]);
    assert_eq!(vector, first_row);
}

fn parity(x: u64) -> bool {
    x.count_ones() % 2 == 1
}

fn round_trip_all<C: BinaryCode>(code: &C) {
    let k = code.dimension();
    let n = code.length();
    for msg in 0..(1u64 << k) {
        let m = BinVector::from_word(msg, k);
        let c = code.encode(&m).unwrap();
        assert_eq!(c.len(), n);
        assert_eq!(code.decode_to_code(&c), Ok(c));
        assert_eq!(code.decode_to_message(&c), Ok(m));
    }
}

#[test]
fn code_round_trip_every_message() {
    round_trip_all(&GuavaCode7_2);
    round_trip_all(&GuavaCode9_6);
    round_trip_all(&GuavaCode10_5);
    round_trip_all(&GuavaCode11_7);
}

fn decode_all<C: BinaryCode>(code: &C, leader_weight: u32) {
    let n = code.length();
    let h = code.parity_check_matrix();
    for word in 0..(1u64 << n) {
        let r = BinVector::from_word(word, n);
        let c = code.decode_to_code(&r).unwrap();
        for j in 0..h.nrows() {
            assert!(!parity(c.as_u64() & h.row(j).as_u64()));
        }
        assert!((c.as_u64() ^ word).count_ones() <= leader_weight);
    }
}

#[test]
fn code_decoding_lands_in_code_within_leader_weight() {
    decode_all(&GuavaCode7_2, 3);
    decode_all(&GuavaCode9_6, 3);
    decode_all(&GuavaCode10_5, 3);
    decode_all(&GuavaCode11_7, 2);
}

#[test]
fn code_length_mismatch() {
    let short = BinVector::from_bools(&[true, false, true]);
    assert_eq!(GuavaCode7_2.decode_to_code(&short), Err(CodeError::LengthMismatch));
    assert_eq!(GuavaCode9_6.decode_to_message(&short), Err(CodeError::LengthMismatch));
    assert_eq!(GuavaCode10_5.encode(&short), Err(CodeError::LengthMismatch));
}

#[test]
fn code_encode_exact_value() {
    // 1·G₀ ⊕ 1·G₁ for the [7, 2] code: 101 ⊕ 122 = 31.
    let m = BinVector::from_bools(&[true, true]);
    let c = GuavaCode7_2.encode(&m).unwrap();
    assert_eq!(c.as_u64(), 31);
    assert_eq!(c, BinVector::from_bools(&[true, true, true, true, true, false, false]));
}

#[test]
fn code_decode_slice_in_place() {
    let code = GuavaCode7_2;
    // 0b1011111 has syndrome 21, whose leader is bit 6.
    let mut words = [0b101_1111u64];
    code.decode_slice(&mut words);
    assert_eq!(words[0], 0b001_1111);
}

#[test]
fn code_names_and_sizes() {
    assert_eq!(GuavaCode7_2.name(), "[7, 2] Guava code");
    assert_eq!(GuavaCode9_6.name(), "[9, 6] Guava code");
    assert_eq!(GuavaCode10_5.name(), "[10, 5] Guava code");
    assert_eq!(GuavaCode11_7.name(), "[11, 7] Guava code");
    assert_eq!((GuavaCode11_7.length(), GuavaCode11_7.dimension()), (11, 7));
    assert_eq!(GuavaCode10_5.parity_check_matrix().nrows(), 5);
}

#[test]
fn code_decode_sample_keeps_high_bits() {
    // A sample of 12 bits under the [7, 2] code: the low 7 bits decode to
    // the message, and the 5 bits above move down to start at bit 2.
    let mut q = Sample { a: 0b10110_0011111, product: true };
    GuavaCode7_2.decode_sample(&mut q);
    assert_eq!(q.a, 0b10110_11);
    assert!(q.product);
}
