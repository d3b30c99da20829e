use pq_das::vm_layout::{CommitmentProfile, PQ_DAS_COMMITMENT_SCRATCH_LEN};
use pq_das::dbp_ext::{column_merkle_depth, padded_rows};
use pq_das::field::Ext;
use pq_das::layout::{ext_slice_from_base, ext_slice_to_base, logical_to_physical};
use pq_das::profile::{fs_block, ExtProfile};
use pq_das::v2_base::Relation;
use pq_das::DemoError;
use pq_das::dbp_ext::{demo_data, physical_to_logical};

fn small(n: usize, m: usize, k: usize, c: usize) -> ExtProfile {
    ExtProfile { name: "small", n, m, k, c, whir_log_inv_rate: 1 }
}

#[test]
fn preset_profiles_are_valid_with_expected_geometry() {
    for p in [ExtProfile::blob_ext_1(), ExtProfile::blob_ext_14(), ExtProfile::blob_ext_16(), ExtProfile::blob_ext_2x_c128_30(), ExtProfile::blob_ext_4x_c32_32()] {
        assert_eq!(p.validate(), Ok(()));
    }
    let p = ExtProfile::blob_ext_1();
    assert_eq!(p.n_cells(), 1024);
    assert_eq!(p.reconstruction_threshold_cells(), 512);
    assert_eq!(p.systematic_stride(), 2);
    assert_eq!(p.merkle_depth(), 10);
    assert_eq!(p.name, "blob-ext-1");
}

#[test]
fn invalid_profiles_are_rejected() {
    assert_eq!(small(0, 16, 8, 8).validate(), Err(DemoError::InvalidDataShape));
    assert_eq!(small(1, 16, 4, 8).validate(), Err(DemoError::InvalidDataShape));
    assert_eq!(small(1, 24, 12, 8).validate(), Err(DemoError::InvalidDataShape));
    assert_eq!(small(1, 16, 8, 4).validate(), Err(DemoError::InvalidDataShape));
    assert_eq!(small(1, 48, 24, 24).validate(), Err(DemoError::InvalidDataShape));
    let mut p = small(1, 16, 8, 8);
    p.whir_log_inv_rate = 5;
    assert_eq!(p.validate(), Err(DemoError::InvalidDataShape));
    p.whir_log_inv_rate = 0;
    assert_eq!(p.validate(), Err(DemoError::InvalidDataShape));
    assert_eq!(small(1, 1 << 25, 1 << 24, 1 << 15).validate(), Err(DemoError::InvalidDataShape));
    assert_eq!(small(3, 32, 16, 8).validate(), Ok(()));
}

#[test]
fn threshold_rounds_up() {
    assert_eq!(small(1, 32, 16, 24).reconstruction_threshold_cells(), 1);
    assert_eq!(small(1, 64, 32, 24).reconstruction_threshold_cells(), 2);
    assert_eq!(small(1, 64, 32, 8).reconstruction_threshold_cells(), 4);
}

#[test]
fn profile_block_encodes_the_parameters() {
    let p = ExtProfile::blob_ext_14();
    assert_eq!(p.profile_block(), [0x5051_4458, 2, 14, 16384, 8192, 16, 1024, 1]);
    assert_eq!(fs_block()[0], 0x5051_4441);
}

#[test]
fn padded_rows_round_up_to_powers_of_two() {
    assert_eq!(padded_rows(small(14, 16, 8, 8)), 16);
    assert_eq!(column_merkle_depth(small(14, 16, 8, 8)), 4);
    assert_eq!(padded_rows(small(1, 16, 8, 8)), 1);
    assert_eq!(column_merkle_depth(small(1, 16, 8, 8)), 0);
    assert_eq!(padded_rows(small(17, 16, 8, 8)), 32);
}

#[test]
fn layout_maps_are_inverse_bijections() {
    let p = small(1, 16, 8, 8);
    assert_eq!(physical_to_logical(p, 3), 6);
    assert_eq!(physical_to_logical(p, 9), 3);
    assert_eq!(logical_to_physical(p, 6), 3);
    assert_eq!(logical_to_physical(p, 3), 9);
    let mut seen = vec![false; 16];
    for i in 0..16 {
        let j = physical_to_logical(p, i);
        assert!(!seen[j]);
        seen[j] = true;
        assert_eq!(logical_to_physical(p, j), i);
    }
}

#[test]
fn extension_coordinates_round_trip() {
    let v = vec![Ext { c0: 1, c1: 2, c2: 3, c3: 4, c4: 5 }, Ext { c0: 6, c1: 7, c2: 8, c3: 9, c4: 10 }];
    let flat = ext_slice_to_base(&v);
    assert_eq!(flat, vec![1, 2, 3, 4, 5, 6, 7, 8, 9, 10]);
    assert_eq!(ext_slice_from_base(&flat), Some(v));
    assert_eq!(ext_slice_from_base(&[1, 2, 3]), None);
}

#[test]
fn demo_data_has_the_documented_values() {
    let p = small(2, 16, 8, 8);
    let data = demo_data(p);
    assert_eq!(data.len(), 2);
    assert_eq!(data[0].len(), 8);
    assert_eq!(data[0][0], Ext { c0: 1, c1: 18, c2: 32, c3: 48, c4: 62 });
    assert_eq!(data[1][3], Ext { c0: 12, c1: 29, c2: 43, c3: 59, c4: 73 });
}

#[test]
fn relation_blocks_and_inputs_agree() {
    assert_eq!(Relation::Full.enabled(), (true, true, true));
    assert_eq!(Relation::RowHashOnly.enabled(), (true, false, false));
    assert_eq!(Relation::CellCommitOnly.enabled(), (false, true, false));
    assert_eq!(Relation::MembershipOnly.enabled(), (false, false, true));
    for r in [Relation::Full, Relation::RowHashOnly, Relation::CellCommitOnly, Relation::MembershipOnly] {
        assert_eq!(r.enabled(), (r.needs_row_hashes(), r.needs_root(), r.needs_check_vector()));
    }
    assert_eq!(Relation::Full.label(), "full");
    assert_eq!(Relation::RowHashOnly.label(), "row-hash-only");
    assert_eq!(Relation::CellCommitOnly.label(), "cell-commit-only");
    assert_eq!(Relation::MembershipOnly.label(), "membership-only");
}

#[test]
fn error_messages_are_descriptive() {
    assert_eq!(DemoError::InsufficientCells.message(), "not enough distinct cells to reconstruct");
    assert_eq!(DemoError::ChallengeOnDomain.message(), "Fiat-Shamir challenge lies on the interpolation domain");
}

#[test]
fn precompile_layout_of_supported_profiles() {
    let p = CommitmentProfile::supported(30, 32_768, 32).unwrap();
    assert_eq!(p.rows_padded, 32);
    assert_eq!(p.n_cells, 1024);
    assert_eq!(p.row_hashes_offset, 262_144);
    assert_eq!(p.scratch_len, PQ_DAS_COMMITMENT_SCRATCH_LEN);
    let p = CommitmentProfile::supported(15, 32_768, 32).unwrap();
    assert_eq!(p.rows_padded, 16);
    assert_eq!(p.scratch_len, 2_543_624);
    assert_eq!(CommitmentProfile::supported(14, 32_768, 128).unwrap().scratch_len, 2_318_360);
    assert_eq!(CommitmentProfile::supported(14, 65_536, 128).unwrap().scratch_len, 4_636_696);
    assert_eq!(CommitmentProfile::supported(14, 65_536, 64).unwrap().scratch_len, 4_685_848);
    assert!(CommitmentProfile::supported(16, 32_768, 32).is_none());
    assert!(CommitmentProfile::supported(15, 32_768, 64).is_none());
}
