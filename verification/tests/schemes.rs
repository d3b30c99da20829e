use pq_das::dbp_ext::{
    self, check_vector, commitment_size_bytes, dbp_aggregate_commit, dbp_commitment_size_bytes, dbp_encode_row, dbp_query,
    dbp_reconstruct, dbp_row_check_vector, dbp_sample_query_indices, dbp_verify_openings, demo_data, encode_and_commit,
    query, reconstruct, sample_query_indices, transcript_size_bytes, verify_openings, ExtProfile,
};
use pq_das::field::{ext_mul, ext_one_value, Ext};
use pq_das::rs_check::batch_invert;
use pq_das::v3_ext;
use pq_das::DemoError;

fn small(n: usize, m: usize, k: usize, c: usize) -> ExtProfile {
    ExtProfile { name: "small", n, m, k, c, whir_log_inv_rate: 1 }
}

#[test]
fn honest_openings_verify_and_reconstruct_the_data() {
    let profile = small(3, 32, 16, 8);
    let data = demo_data(profile);
    let (commitment, aux) = encode_and_commit(profile, &data).unwrap();
    assert_eq!(commitment.row_hashes.len(), 3);
    let t1 = query(&aux, &[3, 0]).unwrap();
    assert_eq!(t1.openings.len(), 2);
    assert_eq!(t1.openings[0].index, 3);
    assert_eq!(t1.openings[0].cells.len(), 3);
    assert_eq!(t1.openings[0].cells[0].len(), 40);
    assert_eq!(t1.openings[0].outer_authentication_path.len(), 2);
    assert!(verify_openings(&commitment, &t1));
    let t2 = query(&aux, &[1]).unwrap();
    assert!(verify_openings(&commitment, &t2));
    assert_eq!(reconstruct(&commitment, &[t1.clone(), t2]).unwrap(), data);
    assert_eq!(reconstruct(&commitment, &[t1]).unwrap(), data);
}

#[test]
fn encoding_is_systematic_on_the_even_half() {
    let profile = small(1, 16, 8, 8);
    let data = demo_data(profile);
    let (_, aux) = encode_and_commit(profile, &data).unwrap();
    // The even transform positions are the first half of the physical row;
    // decoding from them alone gives the data back.
    let t = query(&aux, &[0]).unwrap();
    let (commitment, _) = encode_and_commit(profile, &data).unwrap();
    assert_eq!(reconstruct(&commitment, &[t]).unwrap(), data);
}

#[test]
fn queries_with_bad_indices_are_refused() {
    let profile = small(2, 32, 16, 8);
    let (_, aux) = encode_and_commit(profile, &demo_data(profile)).unwrap();
    assert_eq!(query(&aux, &[4]), Err(DemoError::InvalidQuery));
    assert_eq!(query(&aux, &[1, 2, 1]), Err(DemoError::InvalidQuery));
    assert!(query(&aux, &[]).unwrap().openings.is_empty());
}

#[test]
fn encode_and_commit_checks_the_shape() {
    let profile = small(2, 32, 16, 8);
    let data = demo_data(profile);
    assert!(encode_and_commit(small(3, 32, 16, 8), &data).is_err());
    let mut short = data.clone();
    short[1].pop();
    assert_eq!(encode_and_commit(profile, &short).err(), Some(DemoError::InvalidDataShape));
    assert_eq!(encode_and_commit(small(2, 32, 16, 4), &data).err(), Some(DemoError::InvalidDataShape));
}

#[test]
fn tampered_openings_are_rejected() {
    let profile = small(2, 32, 16, 8);
    let data = demo_data(profile);
    let (commitment, aux) = encode_and_commit(profile, &data).unwrap();
    let good = query(&aux, &[0, 2]).unwrap();
    let mut bad = good.clone();
    bad.openings[1].cells[0][7] = (bad.openings[1].cells[0][7] + 1) % 2130706433;
    assert!(!verify_openings(&commitment, &bad));
    assert_eq!(reconstruct(&commitment, &[good.clone(), bad]), Err(DemoError::InvalidOpening));
    let mut moved = good.clone();
    moved.openings[0].index = 1;
    assert!(!verify_openings(&commitment, &moved));
    let mut twice = good.clone();
    twice.openings.push(good.openings[0].clone());
    assert!(!verify_openings(&commitment, &twice));
}

#[test]
fn too_few_cells_are_reported() {
    let profile = small(2, 32, 16, 8);
    let (commitment, aux) = encode_and_commit(profile, &demo_data(profile)).unwrap();
    let t = query(&aux, &[2]).unwrap();
    assert_eq!(reconstruct(&commitment, &[t.clone(), t]), Err(DemoError::InsufficientCells));
    assert_eq!(reconstruct(&commitment, &[]), Err(DemoError::InsufficientCells));
}

#[test]
fn check_vector_has_one_entry_per_symbol() {
    let profile = small(2, 32, 16, 8);
    let (commitment, _) = encode_and_commit(profile, &demo_data(profile)).unwrap();
    let v = check_vector(&commitment).unwrap();
    assert_eq!(v.len(), 32);
    assert!(v.iter().all(|e| e.iter().all(|&x| x < 2130706433)));
    assert!(v.iter().any(|e| e.iter().any(|&x| x != 0)));
    assert_eq!(check_vector(&commitment), Some(v));
}

#[test]
fn batch_inversion_inverts_every_element() {
    let mut values = vec![
        Ext { c0: 2, c1: 0, c2: 0, c3: 0, c4: 0 },
        Ext { c0: 3, c1: 5, c2: 7, c3: 11, c4: 13 },
        Ext { c0: 0, c1: 1, c2: 0, c3: 0, c4: 0 },
    ];
    let original = values.clone();
    assert!(batch_invert(&mut values));
    for (a, b) in original.iter().zip(values.iter()) {
        assert_eq!(ext_mul(*a, *b), ext_one_value());
    }
    assert_eq!(values[0], Ext { c0: 1065353217, c1: 0, c2: 0, c3: 0, c4: 0 });
    let mut with_zero = vec![Ext { c0: 2, c1: 0, c2: 0, c3: 0, c4: 0 }, Ext { c0: 0, c1: 0, c2: 0, c3: 0, c4: 0 }];
    let before = with_zero.clone();
    assert!(!batch_invert(&mut with_zero));
    assert_eq!(with_zero, before);
}

#[test]
fn sampled_indices_are_distinct_and_deterministic() {
    let profile = small(2, 64, 32, 8);
    let (commitment, _) = encode_and_commit(profile, &demo_data(profile)).unwrap();
    let randomness = [7u32, 1, 2, 3, 4, 5, 6, 8];
    assert_eq!(sample_query_indices(&commitment, &randomness, 0), Err(DemoError::InvalidQuery));
    assert_eq!(sample_query_indices(&commitment, &randomness, 9), Err(DemoError::InvalidQuery));
    let all = sample_query_indices(&commitment, &randomness, 8).unwrap();
    let mut sorted = all.clone();
    sorted.sort();
    assert_eq!(sorted, (0..8).collect::<Vec<_>>());
    let three = sample_query_indices(&commitment, &randomness, 3).unwrap();
    assert_eq!(&all[..3], &three[..]);
    let other = sample_query_indices(&commitment, &[9u32, 1, 2, 3, 4, 5, 6, 8], 8).unwrap();
    assert_eq!(other.len(), 8);
}

#[test]
fn sizes_count_words_of_four_bytes() {
    let profile = small(2, 32, 16, 8);
    let (commitment, aux) = encode_and_commit(profile, &demo_data(profile)).unwrap();
    let t = query(&aux, &[0, 1]).unwrap();
    // Per opening: index, 2 rows x 40 coordinates, 2 path digests.
    assert_eq!(transcript_size_bytes(&t), 2 * (4 + 80 * 4 + 2 * 32));
    assert_eq!(commitment_size_bytes(&commitment), 3 * 32);
}

#[test]
fn row_by_row_scheme_round_trips() {
    let profile = small(3, 32, 16, 8);
    let data = demo_data(profile);
    let mut commitments = Vec::new();
    let mut rows = Vec::new();
    for blob in &data {
        let (c, aux) = dbp_encode_row(profile, blob).unwrap();
        assert_eq!(c.profile.n, 1);
        assert_eq!(aux.cell_digests.len(), 4);
        assert_eq!(dbp_row_check_vector(&c).unwrap().len(), 32);
        commitments.push(c);
        rows.push(aux);
    }
    let (commitment, aux) = dbp_aggregate_commit(profile, commitments.clone(), profile.n, &rows).unwrap();
    assert_eq!(aux.cell_digests.len(), 4 * 4);
    let t = dbp_query(&aux, &[1, 3]).unwrap();
    assert!(dbp_verify_openings(&commitment, &t));
    assert_eq!(dbp_reconstruct(&commitment, &[t.clone()]).unwrap(), data);
    let mut bad = t.clone();
    bad.openings[0].row_root[0] ^= 1;
    assert!(!dbp_verify_openings(&commitment, &bad));
    assert_eq!(dbp_reconstruct(&commitment, &[bad]), Err(DemoError::InvalidOpening));
    let single = dbp_query(&aux, &[2]).unwrap();
    assert_eq!(dbp_reconstruct(&commitment, &[single]), Err(DemoError::InsufficientCells));
    assert_eq!(dbp_query(&aux, &[4]).err(), Some(DemoError::InvalidQuery));
    let idx = dbp_sample_query_indices(&commitment, &[1u32; 8], 4).unwrap();
    assert_eq!(idx.len(), 4);
    assert_eq!(dbp_commitment_size_bytes(&commitment), 32);
}

#[test]
fn aggregation_checks_rows() {
    let profile = small(2, 32, 16, 8);
    let data = demo_data(profile);
    let (c0, a0) = dbp_encode_row(profile, &data[0]).unwrap();
    let (c1, a1) = dbp_encode_row(profile, &data[1]).unwrap();
    assert_eq!(
        dbp_aggregate_commit(profile, vec![c0.clone()], 2, &vec![a0.clone(), a1.clone()]).err(),
        Some(DemoError::InvalidDataShape)
    );
    assert_eq!(
        dbp_aggregate_commit(profile, vec![c1.clone(), c0.clone()], 2, &vec![a0.clone(), a1.clone()]).err(),
        Some(DemoError::InvalidOpening)
    );
    assert_eq!(
        dbp_aggregate_commit(profile, vec![c0.clone(), c1.clone()], 1, &vec![a0.clone(), a1.clone()]).err(),
        Some(DemoError::InvalidDataShape)
    );
    let mut short = a1.clone();
    short.cell_digests.pop();
    assert_eq!(
        dbp_aggregate_commit(profile, vec![c0, c1], 2, &vec![a0, short]).err(),
        Some(DemoError::InvalidDataShape)
    );
    assert_eq!(dbp_encode_row(profile, &data[0][..8].to_vec()).err(), Some(DemoError::InvalidDataShape));
}

#[test]
fn multiproof_scheme_round_trips() {
    let profile = v3_ext::ExtProfile { name: "small", n: 3, m: 64, k: 32, c: 8, whir_log_inv_rate: 1 };
    let data = v3_ext::demo_data(profile);
    let (commitment, aux) = v3_ext::encode_and_commit(profile, &data).unwrap();
    let t = v3_ext::query(&aux, &[6, 1, 2, 5]).unwrap();
    assert_eq!(t.openings.len(), 4);
    assert!(v3_ext::verify_openings(&commitment, &t));
    assert_eq!(v3_ext::reconstruct(&commitment, &[t.clone()]).unwrap(), data);
    let mut bad = t.clone();
    bad.outer_multiproof[0][0] ^= 1;
    assert!(!v3_ext::verify_openings(&commitment, &bad));
    let mut short = t.clone();
    short.outer_multiproof.pop();
    assert!(!v3_ext::verify_openings(&commitment, &short));
    let mut wrong_root = commitment.clone();
    wrong_root.root[0] ^= 1;
    assert!(!v3_ext::verify_openings(&wrong_root, &t));
    assert_eq!(wrong_root.clone().normalize().unwrap(), commitment);
    assert_eq!(commitment.recompute_root(), Some(commitment.root));
    assert_eq!(v3_ext::query(&aux, &[8]).err(), Some(DemoError::InvalidQuery));
    assert_eq!(v3_ext::check_vector(&commitment).unwrap().len(), 64);
    let idx = v3_ext::sample_query_indices(&commitment, &[3u32; 8], 5).unwrap();
    assert_eq!(idx.len(), 5);
    let few = v3_ext::query(&aux, &[0, 7]).unwrap();
    assert!(v3_ext::verify_openings(&commitment, &few));
    assert_eq!(v3_ext::reconstruct(&commitment, &[few]), Err(DemoError::InsufficientCells));
    let all = v3_ext::query(&aux, &[0, 1, 2, 3, 4, 5, 6, 7]).unwrap();
    assert!(all.outer_multiproof.is_empty());
    assert!(v3_ext::verify_openings(&commitment, &all));
    assert_eq!(v3_ext::commitment_size_bytes(&commitment), 4 * 32);
    let _ = dbp_ext::ExtTranscript { openings: Vec::new() };
}

#[test]
fn aggregated_and_multiproof_sizes() {
    let profile = small(2, 32, 16, 8);
    let data = demo_data(profile);
    let mut commitments = Vec::new();
    let mut rows = Vec::new();
    for blob in &data {
        let (c, aux) = dbp_encode_row(profile, blob).unwrap();
        commitments.push(c);
        rows.push(aux);
    }
    let (_, aux) = dbp_aggregate_commit(profile, commitments, profile.n, &rows).unwrap();
    let t = dbp_query(&aux, &[0]).unwrap();
    assert_eq!(dbp_ext::dbp_transcript_size_bytes(&t), 4 + 80 * 4 + 2 * 32 + 32);
    let (_, v3aux) = v3_ext::encode_and_commit(profile, &data).unwrap();
    let t3 = v3_ext::query(&v3aux, &[0, 1]).unwrap();
    assert_eq!(t3.outer_multiproof.len(), 1);
    assert_eq!(v3_ext::transcript_size_bytes(&t3), 2 * (4 + 80 * 4) + 32);
}

#[test]
fn decoding_reads_the_first_opening_of_each_column() {
    let profile = small(1, 32, 16, 8);
    let data = demo_data(profile);
    let (_, aux) = encode_and_commit(profile, &data).unwrap();
    let t1 = query(&aux, &[3, 0]).unwrap();
    let mut later = query(&aux, &[0]).unwrap();
    later.openings[0].cells[0][0] = if later.openings[0].cells[0][0] == 5 { 6 } else { 5 };
    // A later opening of an already opened column is not read.
    assert_eq!(dbp_ext::decode_openings(profile, &[t1.clone(), later.clone()]).unwrap(), data);
    // With the altered opening first, the result is the erasure decoding of
    // the values it carries, columns in increasing order.
    let decoded = dbp_ext::decode_openings(profile, &[later.clone(), t1.clone()]).unwrap();
    assert_ne!(decoded, data);
    let mut symbols = Vec::new();
    let mut values = Vec::new();
    for (index, cells) in [(0usize, &later.openings[0].cells[0]), (3usize, &t1.openings[0].cells[0])] {
        let cell = pq_das::layout::ext_slice_from_base(cells).unwrap();
        for offset in 0..profile.c {
            symbols.push(dbp_ext::physical_to_logical(profile, index * profile.c + offset));
            values.push(cell[offset]);
        }
    }
    let decoder = dbp_ext::ExtErasureDecoder::new(profile, &symbols).unwrap();
    assert_eq!(decoded, vec![decoder.reconstruct_blob(&values).unwrap()]);
}

#[test]
fn extension_inverse_of_nonzero_elements() {
    let a = Ext { c0: 3, c1: 1, c2: 4, c3: 1, c4: 5 };
    let x = pq_das::field::ext_checked_inverse(a).unwrap();
    assert_eq!(ext_mul(a, x), ext_one_value());
    assert_eq!(ext_mul(x, a), ext_one_value());
    let two = Ext { c0: 2, c1: 0, c2: 0, c3: 0, c4: 0 };
    assert_eq!(pq_das::field::ext_checked_inverse(two), Some(Ext { c0: 1065353217, c1: 0, c2: 0, c3: 0, c4: 0 }));
    let zero = Ext { c0: 0, c1: 0, c2: 0, c3: 0, c4: 0 };
    assert_eq!(pq_das::field::ext_checked_inverse(zero), None);
}
