use pq_das::dbp_ext::{check_vector, demo_data, encode, encode_and_commit, physical_codewords, physical_to_logical, ExtErasureDecoder, ExtProfile};
use pq_das::field::{ext_mul, ext_neg, ext_one_value, ext_sub, ext_zero_value, f_add, f_mul, f_sub, Ext, P};
use pq_das::poly::{fft, ifft, invert_series, multiply_polynomials_base, multiply_schoolbook, root_polynomial};

const OMEGA_8: u32 = 0x6832fe4a;

fn pow(a: u32, e: u64) -> u32 {
    let mut r: u32 = 1;
    for _ in 0..e {
        r = f_mul(r, a);
    }
    r
}

fn eval(coefficients: &[u32], x: u32) -> u32 {
    let mut acc: u32 = 0;
    for &c in coefficients.iter().rev() {
        acc = f_add(f_mul(acc, x), c);
    }
    acc
}

#[test]
fn transform_evaluates_at_powers_of_the_generator() {
    let input: Vec<u32> = vec![3, 1, 4, 1, 5, 9, 2, 6];
    let mut values = input.clone();
    fft(&mut values);
    for k in 0..8u64 {
        assert_eq!(values[k as usize], eval(&input, pow(OMEGA_8, k)));
    }
}

#[test]
fn transform_of_a_constant_spike_is_flat() {
    let mut values: Vec<u32> = vec![7, 0, 0, 0, 0, 0, 0, 0];
    fft(&mut values);
    assert_eq!(values, vec![7; 8]);
    let mut values: Vec<u32> = vec![0, 1, 0, 0, 0, 0, 0, 0];
    fft(&mut values);
    let powers: Vec<u32> = (0..8u64).map(|k| pow(OMEGA_8, k)).collect();
    assert_eq!(values, powers);
}

#[test]
fn inverse_transform_undoes_the_transform() {
    let input: Vec<u32> = (0..32u32).map(|i| (i * 7919 + 13) % P).collect();
    let mut values = input.clone();
    fft(&mut values);
    assert_ne!(values, input);
    ifft(&mut values);
    assert_eq!(values, input);
}

#[test]
fn transform_product_agrees_with_schoolbook() {
    let left: Vec<u32> = (0..40u32).map(|i| (i * 31 + 5) % P).collect();
    let right: Vec<u32> = (0..23u32).map(|i| P - 1 - i).collect();
    let fast = multiply_polynomials_base(&left, &right);
    let slow = multiply_schoolbook(&left, &right);
    assert_eq!(fast.len(), 62);
    assert_eq!(fast, slow);
    assert_eq!(multiply_polynomials_base(&left, &Vec::new()), Vec::<u32>::new());
}

#[test]
fn root_polynomial_is_monic_and_vanishes_at_its_roots() {
    let roots: Vec<u32> = (1..40u32).map(|i| i * 1000 + 1).collect();
    let polynomial = root_polynomial(&roots);
    assert_eq!(polynomial.len(), roots.len() + 1);
    assert_eq!(polynomial[roots.len()], 1);
    for &r in &roots {
        assert_eq!(eval(&polynomial, r), 0);
    }
    let x = 123_456;
    let mut expected: u32 = 1;
    for &r in &roots {
        expected = f_mul(expected, f_sub(x, r));
    }
    assert_eq!(eval(&polynomial, x), expected);
    assert_eq!(root_polynomial(&Vec::new()), vec![1]);
}

#[test]
fn series_inverse_multiplies_to_one() {
    let polynomial: Vec<u32> = vec![5, 3, 0, 11, 2, 7];
    let inverse = invert_series(&polynomial, 20);
    assert_eq!(inverse.len(), 20);
    let product = multiply_schoolbook(&polynomial, &inverse);
    assert_eq!(product[0], 1);
    for o in 1..20 {
        assert_eq!(product[o], 0);
    }
    assert_eq!(invert_series(&polynomial, 0).len(), 1);
}

#[test]
fn decoder_recovers_from_any_k_symbols() {
    let profile = ExtProfile { name: "test-ext", n: 2, m: 16, k: 8, c: 2, whir_log_inv_rate: 1 };
    let data = demo_data(profile);
    let codewords = physical_codewords(profile, &encode(profile, &data));
    let choices: Vec<Vec<usize>> = vec![
        (0..8).collect(),
        (8..16).collect(),
        vec![0, 3, 5, 6, 9, 10, 12, 15],
        vec![15, 1, 14, 2, 13, 3, 12, 4, 11],
    ];
    for physical in choices {
        let logical: Vec<usize> = physical.iter().map(|&i| physical_to_logical(profile, i)).collect();
        let decoder = ExtErasureDecoder::new(profile, &logical).unwrap();
        for row in 0..profile.n {
            let values: Vec<_> = physical.iter().map(|&i| codewords[row][i]).collect();
            assert_eq!(decoder.reconstruct_blob(&values).unwrap(), data[row]);
        }
        assert!(decoder.reconstruct_blob(&[]).is_none());
    }
}

#[test]
fn decoder_refuses_bad_index_sets() {
    let profile = ExtProfile { name: "test-ext", n: 1, m: 16, k: 8, c: 2, whir_log_inv_rate: 1 };
    assert!(ExtErasureDecoder::new(profile, &[0, 1, 2, 3, 4, 5, 6]).is_none());
    assert!(ExtErasureDecoder::new(profile, &[0, 1, 2, 3, 4, 5, 6, 6]).is_none());
    assert!(ExtErasureDecoder::new(profile, &[0, 1, 2, 3, 4, 5, 6, 16]).is_none());
    assert!(ExtErasureDecoder::new(profile, &[9, 1, 2, 3, 4, 5, 6, 7]).is_some());
}


fn ext_sum(a: Ext, b: Ext) -> Ext {
    ext_sub(a, ext_neg(b))
}

#[test]
fn codewords_lie_in_the_kernel_of_the_check_vector() {
    let profile = ExtProfile { name: "test-ext", n: 3, m: 32, k: 16, c: 8, whir_log_inv_rate: 1 };
    let data = demo_data(profile);
    let (commitment, aux) = encode_and_commit(profile, &data).unwrap();
    let vector = check_vector(&commitment).unwrap();
    for row in 0..profile.n {
        let mut dot = ext_zero_value();
        for i in 0..profile.m {
            let l = Ext { c0: vector[i][0], c1: vector[i][1], c2: vector[i][2], c3: vector[i][3], c4: vector[i][4] };
            dot = ext_sum(dot, ext_mul(l, aux.codewords[row][i]));
        }
        assert_eq!(dot, ext_zero_value());
    }
    let mut tampered = aux.codewords[0].clone();
    tampered[3] = ext_sum(tampered[3], ext_one_value());
    let mut dot = ext_zero_value();
    for i in 0..profile.m {
        let l = Ext { c0: vector[i][0], c1: vector[i][1], c2: vector[i][2], c3: vector[i][3], c4: vector[i][4] };
        dot = ext_sum(dot, ext_mul(l, tampered[i]));
    }
    assert_ne!(dot, ext_zero_value());
}

#[test]
fn decoder_output_on_inconsistent_values_is_deterministic() {
    let profile = ExtProfile { name: "test-ext", n: 1, m: 16, k: 8, c: 2, whir_log_inv_rate: 1 };
    let data = demo_data(profile);
    let codewords = physical_codewords(profile, &encode(profile, &data));
    let physical: Vec<usize> = (0..9).collect();
    let logical: Vec<usize> = physical.iter().map(|&i| physical_to_logical(profile, i)).collect();
    let decoder = ExtErasureDecoder::new(profile, &logical).unwrap();
    let mut values: Vec<Ext> = physical.iter().map(|&i| codewords[0][i]).collect();
    values[4] = ext_sum(values[4], ext_one_value());
    let first = decoder.reconstruct_blob(&values).unwrap();
    let second = decoder.reconstruct_blob(&values).unwrap();
    assert_eq!(first.len(), profile.k);
    assert_eq!(first, second);
}
