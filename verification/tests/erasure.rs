use pq_das::v3_ext;
use pq_das::dbp_ext::{demo_data, encode, physical_codewords, physical_to_logical, ExtErasureDecoder, ExtProfile};

#[test]
fn extension_erasure_reconstruction_recovers_coefficients() {
    let profile = ExtProfile { name: "test-ext", n: 1, m: 16, k: 8, c: 8, whir_log_inv_rate: 1 };
    let data = demo_data(profile);
    let codewords = physical_codewords(profile, &encode(profile, &data));
    let cell = 1;
    let physical_indices: Vec<usize> = (0..profile.c).map(|offset| cell * profile.c + offset).collect();
    let logical_indices: Vec<usize> = physical_indices.iter().map(|&index| physical_to_logical(profile, index)).collect();
    let values: Vec<_> = physical_indices.iter().map(|&index| codewords[0][index]).collect();
    let decoder = ExtErasureDecoder::new(profile, &logical_indices).unwrap();
    assert_eq!(decoder.reconstruct_blob(&values).unwrap(), data[0]);
}

#[test]
fn mod_extension_erasure_reconstruction_recovers_coefficients() {
    let profile = v3_ext::ExtProfile { name: "test-ext", n: 1, m: 16, k: 8, c: 8, whir_log_inv_rate: 1 };
    let data = v3_ext::demo_data(profile);
    let codewords = v3_ext::encode(profile, &data);
    let cell = 1;
    let physical_indices: Vec<usize> = (0..profile.c).map(|offset| cell * profile.c + offset).collect();
    let logical_indices: Vec<usize> = physical_indices
        .iter()
        .map(|&index| v3_ext::physical_to_logical(profile, index))
        .collect();
    let values: Vec<_> = physical_indices.iter().map(|&index| codewords[0][index]).collect();
    let decoder = v3_ext::ExtErasureDecoder::new(profile, &logical_indices).unwrap();
    assert_eq!(decoder.reconstruct_blob(&values).unwrap(), data[0]);
}
