use pq_das::dbp_ext::{self, demo_data, DbpCommitment, ExtProfile};
use pq_das::relay::{commitment_relay, RelayStep};
use pq_das::v3_ext;
use pq_das::vm_layout::CommitmentProfile;
use pq_das::DemoError;

fn small(n: usize, m: usize, k: usize, c: usize) -> ExtProfile {
    ExtProfile { name: "small", n, m, k, c, whir_log_inv_rate: 1 }
}

#[test]
fn full_guest_compilation_values() {
    let profile = small(3, 32, 16, 8);
    let (commitment, _) = dbp_ext::encode_and_commit(profile, &demo_data(profile)).unwrap();
    let (values, sizes, offsets) = dbp_ext::compilation_values(&commitment).unwrap();
    let expected: Vec<(&str, usize)> = vec![
        ("N_PLACEHOLDER", 3),
        ("N_PADDED_PLACEHOLDER", 4),
        ("LOG_N_PADDED_PLACEHOLDER", 2),
        ("M_EXT_PLACEHOLDER", 32),
        ("K_EXT_PLACEHOLDER", 16),
        ("C_EXT_PLACEHOLDER", 8),
        ("CELL_BASE_LEN_PLACEHOLDER", 40),
        ("N_CELLS_PLACEHOLDER", 4),
        ("SYSTEMATIC_CELLS_PLACEHOLDER", 2),
        ("CELL_CHUNKS_PLACEHOLDER", 5),
        ("OUTER_MERKLE_DEPTH_PLACEHOLDER", 2),
        ("OUTER_TREE_DIGESTS_PLACEHOLDER", 7),
        ("PUBLIC_ROW_HASHES_PTR_PLACEHOLDER", 8),
        ("PUBLIC_ROOT_COL_PTR_PLACEHOLDER", 32),
        ("CHECK_VECTOR_PTR_PLACEHOLDER", 40),
    ];
    assert_eq!(values, expected);
    assert_eq!(sizes, vec![4, 2, 1]);
    assert_eq!(offsets, vec![0, 4, 6]);

    let mut short = commitment.clone();
    short.row_hashes.pop();
    assert_eq!(dbp_ext::compilation_values(&short).err(), Some(DemoError::InvalidDataShape));
    let mut invalid = commitment.clone();
    invalid.profile.whir_log_inv_rate = 9;
    assert_eq!(dbp_ext::compilation_values(&invalid).err(), Some(DemoError::InvalidDataShape));

    let vector = dbp_ext::check_vector(&commitment).unwrap();
    let data = dbp_ext::read_only_data(&commitment, &vector);
    assert_eq!(data.len(), 3 * 8 + 8 + 32 * 5);
    assert_eq!(&data[..8], &commitment.row_hashes[0][..]);
    assert_eq!(&data[24..32], &commitment.root[..]);
    assert_eq!(&data[32..37], &vector[0][..]);
    assert_eq!(dbp_ext::leanvm_public_input(), [0u32; 8]);
}

#[test]
fn v3_guest_compilation_values() {
    let profile = small(3, 32, 16, 8);
    let (commitment, _) = v3_ext::encode_and_commit(profile, &demo_data(profile)).unwrap();
    let values = v3_ext::compilation_values(&commitment).unwrap();
    assert_eq!(values.len(), 13);
    assert_eq!(values[1], ("N_PADDED_PLACEHOLDER", 4));
    assert_eq!(values[9], ("CELL_CHUNKS_PLACEHOLDER", 5));
    assert_eq!(values[11], ("PUBLIC_ROOT_PTR_PLACEHOLDER", 8));
    assert_eq!(values[12], ("CHECK_VECTOR_PTR_PLACEHOLDER", 16));
    let vector = v3_ext::check_vector(&commitment).unwrap();
    let data = v3_ext::read_only_data(&commitment, &vector);
    assert_eq!(data.len(), 8 + 32 * 5);
    assert_eq!(&data[..8], &commitment.root[..]);
    assert_eq!(&data[8..13], &vector[0][..]);
}

#[test]
fn row_and_aggregate_guest_values() {
    let profile = small(2, 32, 16, 8);
    let data = demo_data(profile);
    let (row, _) = dbp_ext::dbp_encode_row(profile, &data[0]).unwrap();
    let values = dbp_ext::dbp_row_compilation_values(&row).unwrap();
    assert_eq!(
        values,
        vec![
            ("M_EXT_PLACEHOLDER", 32),
            ("C_EXT_PLACEHOLDER", 8),
            ("CELL_BASE_LEN_PLACEHOLDER", 40),
            ("N_CELLS_PLACEHOLDER", 4),
            ("PUBLIC_ROW_HASH_PTR_PLACEHOLDER", 8),
            ("CHECK_VECTOR_PTR_PLACEHOLDER", 16),
        ]
    );
    let vector = dbp_ext::dbp_row_check_vector(&row).unwrap();
    let bytes = dbp_ext::dbp_row_read_only_data(&row, &vector);
    assert_eq!(bytes.len(), 8 + 32 * 5);
    assert_eq!(&bytes[..8], &row.row_hash[..]);
    let aggregate = DbpCommitment { profile, root: [5; 8] };
    let values = dbp_ext::dbp_aggregate_compilation_values(&aggregate).unwrap();
    assert_eq!(
        values,
        vec![
            ("N_PLACEHOLDER", 2),
            ("N_PADDED_PLACEHOLDER", 2),
            ("LOG_N_PADDED_PLACEHOLDER", 1),
            ("N_CELLS_PLACEHOLDER", 4),
            ("OUTER_MERKLE_DEPTH_PLACEHOLDER", 2),
            ("PUBLIC_ROOT_PTR_PLACEHOLDER", 8),
        ]
    );
    assert_eq!(dbp_ext::dbp_aggregate_read_only_data(&aggregate), vec![5u32; 8]);
    let bad = DbpCommitment { profile: small(2, 32, 8, 8), root: [0; 8] };
    assert_eq!(dbp_ext::dbp_aggregate_compilation_values(&bad).err(), Some(DemoError::InvalidDataShape));
}

#[test]
fn commitment_relay_schedule_shape() {
    assert!(commitment_relay(16, 32_768, 32, 0, 0, 0).is_none());
    let layout = CommitmentProfile::supported(15, 32_768, 32).unwrap();
    let steps = commitment_relay(15, 32_768, 32, 500, 100, 1000).unwrap();
    // Cell chains, row chains, two zero writes, the row tree, the column
    // trees, the outer tree and the final compression.
    assert_eq!(steps.len(), 15 * 1024 * 19 + 15 * 511 + 2 + 15 + 1024 * 15 + 1023 + 1);
    assert_eq!(steps[0], RelayStep::ZeroDigest { at: 1000 + layout.zero_digest_offset });
    assert_eq!(steps[1], RelayStep::Compress { left: 500, right: 508, out: 1000 + layout.cell_temps_offset });
    assert_eq!(
        *steps.last().unwrap(),
        RelayStep::Compress {
            left: 1000 + layout.row_root_temps_offset + 14 * 8,
            right: 1000 + layout.outer_temps_offset + 1022 * 8,
            out: 100,
        }
    );
    let zeros = steps.iter().filter(|s| matches!(s, RelayStep::ZeroDigest { .. })).count();
    assert_eq!(zeros, 2);
}

#[test]
fn larger_samples_extend_smaller_ones() {
    let profile = small(2, 64, 32, 8);
    let (commitment, _) = dbp_ext::encode_and_commit(profile, &demo_data(profile)).unwrap();
    let randomness = [3u32, 1, 4, 1, 5, 9, 2, 6];
    let two = dbp_ext::sample_query_indices(&commitment, &randomness, 2).unwrap();
    let five = dbp_ext::sample_query_indices(&commitment, &randomness, 5).unwrap();
    assert_eq!(&five[..2], &two[..]);
    let aggregate = DbpCommitment { profile, root: commitment.root };
    assert_eq!(dbp_ext::dbp_sample_query_indices(&aggregate, &randomness, 5).unwrap(), five);
}

#[test]
fn openings_verify_and_reconstruct_whatever_the_proof_rate() {
    let profile = small(3, 32, 16, 8);
    let data = demo_data(profile);
    let (commitment, aux) = dbp_ext::encode_and_commit(profile, &data).unwrap();
    let t = dbp_ext::query(&aux, &[0, 2]).unwrap();
    let mut other = commitment.clone();
    other.profile.whir_log_inv_rate = 9;
    assert!(other.profile.validate().is_err());
    assert!(dbp_ext::verify_openings(&other, &t));
    assert_eq!(dbp_ext::reconstruct(&other, &[t]).unwrap(), data);
    assert_eq!(dbp_ext::sample_query_indices(&other, &[1; 8], 3).unwrap().len(), 3);
}
