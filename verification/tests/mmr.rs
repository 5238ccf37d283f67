use midencrypto::felt::Felt;
use midencrypto::merkle::mmr::full::Mmr;
use midencrypto::merkle::mmr::in_order::InOrderIndex;
use midencrypto::merkle::mmr::opening::MmrProof;
use midencrypto::merkle::mmr::partial::{forest_to_rightmost_index, forest_to_root_index, PartialMmr};
use midencrypto::merkle::mmr::MmrError;
use midencrypto::merkle::path::MerklePath;
use midencrypto::rescue::digest::RpoDigest;
use midencrypto::rescue::rpo::Rpo256;

fn int_to_node(value: u64) -> RpoDigest {
    RpoDigest::new([Felt::new(value), Felt::zero(), Felt::zero(), Felt::zero()])
}

fn idx(pos: usize) -> InOrderIndex {
    InOrderIndex::new(pos)
}

fn make_dummy_proof(forest: usize, position: usize) -> MmrProof {
    MmrProof { forest, position, merkle_path: MerklePath::default() }
}

fn leaves7() -> Vec<RpoDigest> {
    (0..7).map(int_to_node).collect()
}

#[test]
fn peak_index() {
    let forest = 11;
    for position in 0..8 {
        let proof = make_dummy_proof(forest, position);
        assert_eq!(proof.peak_index(), 0);
    }
    for position in 8..10 {
        let proof = make_dummy_proof(forest, position);
        assert_eq!(proof.peak_index(), 1);
    }
    let proof = make_dummy_proof(forest, 10);
    assert_eq!(proof.peak_index(), 2);
    let forest = 7;
    for position in 0..4 {
        let proof = make_dummy_proof(forest, position);
        assert_eq!(proof.peak_index(), 0);
    }
    for position in 4..6 {
        let proof = make_dummy_proof(forest, position);
        assert_eq!(proof.peak_index(), 1);
    }
    let proof = make_dummy_proof(forest, 6);
    assert_eq!(proof.peak_index(), 2);
}

#[test]
fn forest_to_root_index_test() {
    assert_eq!(forest_to_root_index(0b0001), idx(1));
    assert_eq!(forest_to_root_index(0b0010), idx(2));
    assert_eq!(forest_to_root_index(0b0100), idx(4));
    assert_eq!(forest_to_root_index(0b1000), idx(8));
    assert_eq!(forest_to_root_index(0b0011), idx(5));
    assert_eq!(forest_to_root_index(0b0101), idx(9));
    assert_eq!(forest_to_root_index(0b1001), idx(17));
    assert_eq!(forest_to_root_index(0b0111), idx(13));
    assert_eq!(forest_to_root_index(0b1011), idx(21));
    assert_eq!(forest_to_root_index(0b1111), idx(29));
    assert_eq!(forest_to_root_index(0b0110), idx(10));
    assert_eq!(forest_to_root_index(0b1010), idx(18));
    assert_eq!(forest_to_root_index(0b1100), idx(20));
    assert_eq!(forest_to_root_index(0b1110), idx(26));
}

#[test]
fn forest_to_rightmost_index_test() {
    for forest in 1..256 {
        assert_eq!(forest_to_rightmost_index(forest).inner() % 2, 1, "leaves are always odd");
    }
    assert_eq!(forest_to_rightmost_index(0b0001), idx(1));
    assert_eq!(forest_to_rightmost_index(0b0010), idx(3));
    assert_eq!(forest_to_rightmost_index(0b0011), idx(5));
    assert_eq!(forest_to_rightmost_index(0b0100), idx(7));
    assert_eq!(forest_to_rightmost_index(0b0101), idx(9));
    assert_eq!(forest_to_rightmost_index(0b0110), idx(11));
    assert_eq!(forest_to_rightmost_index(0b0111), idx(13));
    assert_eq!(forest_to_rightmost_index(0b1000), idx(15));
    assert_eq!(forest_to_rightmost_index(0b1001), idx(17));
    assert_eq!(forest_to_rightmost_index(0b1010), idx(19));
    assert_eq!(forest_to_rightmost_index(0b1011), idx(21));
    assert_eq!(forest_to_rightmost_index(0b1100), idx(23));
    assert_eq!(forest_to_rightmost_index(0b1101), idx(25));
    assert_eq!(forest_to_rightmost_index(0b1110), idx(27));
    assert_eq!(forest_to_rightmost_index(0b1111), idx(29));
}

#[test]
fn partial_mmr_inner_nodes_iterator() -> Result<(), MmrError> {
    let mmr = Mmr::from_leaves(&leaves7());
    let _first_peak = mmr.peaks().peaks()[0];
    let node1 = mmr.get(1)?;
    let proof1 = mmr.open(1)?;
    let mut partial_mmr = PartialMmr::from_peaks(mmr.peaks());
    partial_mmr.track(1, node1, &proof1.merkle_path)?;
    assert_eq!(partial_mmr.inner_nodes(&[]).first(), None);
    Ok(())
}

#[test]
fn mmr_get_returns_each_leaf() {
    let leaves = leaves7();
    let mmr = Mmr::from_leaves(&leaves);
    assert_eq!(mmr.forest(), 7);
    for (i, leaf) in leaves.iter().enumerate() {
        assert_eq!(mmr.get(i).unwrap(), *leaf);
    }
    assert_eq!(mmr.get(7), Err(MmrError::PositionNotFound(7)));
}

#[test]
fn mmr_openings_verify_against_peaks() {
    let leaves = leaves7();
    let mmr = Mmr::from_leaves(&leaves);
    let peaks = mmr.peaks();
    assert_eq!(peaks.num_peaks(), 3);
    for (i, leaf) in leaves.iter().enumerate() {
        let opening = mmr.open(i).unwrap();
        assert_eq!(opening.position, i);
        assert!(peaks.verify(*leaf, opening).is_ok());
    }
    let opening = mmr.open(2).unwrap();
    assert!(peaks.verify(int_to_node(99), opening).is_err());
}

#[test]
fn mmr_peaks_are_tree_roots() {
    let leaves = leaves7();
    let mmr = Mmr::from_leaves(&leaves);
    let a = Rpo256::merge(&[leaves[0], leaves[1]]);
    let b = Rpo256::merge(&[leaves[2], leaves[3]]);
    let top = Rpo256::merge(&[a, b]);
    let c = Rpo256::merge(&[leaves[4], leaves[5]]);
    let peaks = mmr.peaks();
    assert_eq!(peaks.peaks(), &[top, c, leaves[6]]);
    let older = mmr.peaks_at(4).unwrap();
    assert_eq!(older.peaks(), &[top]);
    assert!(mmr.peaks_at(8).is_err());
}

#[test]
fn mmr_inner_nodes_merge_children() {
    let mmr = Mmr::from_leaves(&leaves7());
    let inner = mmr.inner_nodes();
    assert_eq!(inner.len(), 4);
    for info in inner {
        assert_eq!(info.value, Rpo256::merge(&[info.left, info.right]));
    }
}

#[test]
fn mmr_delta_bounds() {
    let mmr = Mmr::from_leaves(&leaves7());
    assert!(mmr.get_delta(3, 8).is_err());
    assert!(mmr.get_delta(5, 4).is_err());
    let d = mmr.get_delta(4, 4).unwrap();
    assert_eq!(d.forest, 4);
    assert!(d.data.is_empty());
    let d = mmr.get_delta(3, 7).unwrap();
    assert_eq!(d.forest, 7);
}

#[test]
fn partial_mmr_tracks_and_opens() {
    let leaves = leaves7();
    let mmr = Mmr::from_leaves(&leaves);
    let mut partial = PartialMmr::from_peaks(mmr.peaks());
    assert_eq!(partial.forest(), 7);
    assert!(!partial.is_tracked(1));
    let proof1 = mmr.open(1).unwrap();
    partial.track(1, leaves[1], &proof1.merkle_path).unwrap();
    assert!(partial.is_tracked(1));
    let opened = partial.open(1).unwrap().unwrap();
    assert_eq!(opened, proof1);
    assert_eq!(partial.open(7), Err(MmrError::PositionNotFound(7)));
    assert!(partial.open(5).unwrap().is_none());
    let bad = MerklePath::new(vec![int_to_node(1), int_to_node(2), int_to_node(3)]);
    assert_eq!(partial.track(4, leaves[4], &bad), Err(MmrError::UnknownPeak(3)));
    let wrong = MerklePath::new(vec![int_to_node(1)]);
    assert_eq!(partial.track(4, leaves[4], &wrong), Err(MmrError::PeakPathMismatch));
}

#[test]
fn partial_mmr_add_follows_full_range() {
    let leaves = leaves7();
    let mut mmr = Mmr::from_leaves(&leaves);
    let mut partial = PartialMmr::from_peaks(mmr.peaks());
    let new_leaf = int_to_node(7);
    mmr.add(new_leaf);
    partial.add(new_leaf, false);
    assert_eq!(partial.peaks(), mmr.peaks());
    assert_eq!(partial.forest(), 8);
}

fn validate_apply_delta(mmr: &Mmr, partial: &mut PartialMmr) -> Result<(), MmrError> {
    let tracked_leaves: Vec<InOrderIndex> = partial
        .nodes()
        .into_iter()
        .filter_map(|(index, _)| if index.is_leaf() { Some(index.sibling()) } else { None })
        .collect();
    let nodes_before = partial.nodes();

    let delta = mmr.get_delta(partial.forest(), mmr.forest())?;
    let nodes_delta = partial.apply(delta)?;

    assert_eq!(mmr.peaks(), partial.peaks());

    let mut expected_nodes: std::collections::BTreeMap<u64, RpoDigest> =
        nodes_before.into_iter().map(|(k, v)| (k.inner(), v)).collect();
    for (key, value) in nodes_delta {
        assert!(expected_nodes.insert(key.inner(), value).is_none());
    }
    let actual: std::collections::BTreeMap<u64, RpoDigest> =
        partial.nodes().into_iter().map(|(k, v)| (k.inner(), v)).collect();
    assert_eq!(expected_nodes, actual);

    for index in tracked_leaves {
        let pos = index.inner() / 2;
        let proof1 = partial.open(pos as usize)?.unwrap();
        let proof2 = mmr.open(pos as usize)?;
        assert_eq!(proof1, proof2);
    }
    Ok(())
}

#[test]
fn partial_mmr_apply_delta() -> Result<(), MmrError> {
    let mut mmr = Mmr::new();
    (0..10).for_each(|i| mmr.add(int_to_node(i)));
    let mut partial_mmr = PartialMmr::from_peaks(mmr.peaks());

    {
        let node = mmr.get(1)?;
        let proof = mmr.open(1)?;
        partial_mmr.track(1, node, &proof.merkle_path)?;
    }
    {
        let node = mmr.get(8)?;
        let proof = mmr.open(8)?;
        partial_mmr.track(8, node, &proof.merkle_path)?;
    }

    (10..12).for_each(|i| mmr.add(int_to_node(i)));
    validate_apply_delta(&mmr, &mut partial_mmr)?;

    mmr.add(int_to_node(12));
    validate_apply_delta(&mmr, &mut partial_mmr)?;
    {
        let node = mmr.get(12)?;
        let proof = mmr.open(12)?;
        partial_mmr.track(12, node, &proof.merkle_path)?;
        assert!(partial_mmr.track_latest());
    }

    (13..16).for_each(|i| mmr.add(int_to_node(i)));
    validate_apply_delta(&mmr, &mut partial_mmr)
}

#[test]
fn partial_mmr_apply_merges_two_leaves() {
    use_apply_two_leaves();
}

fn use_apply_two_leaves() {
    let a = int_to_node(0);
    let b = int_to_node(1);
    let peaks = midencrypto::merkle::mmr::peaks::MmrPeaks::new(1, vec![a]).unwrap();
    let mut p = PartialMmr::from_parts(peaks, Vec::new(), true);
    let delta = midencrypto::merkle::mmr::delta::MmrDelta { forest: 2, data: vec![b] };
    let added = p.apply(delta).unwrap();
    assert_eq!(added, vec![(InOrderIndex::from_leaf_pos(1), b)]);
    assert_eq!(p.forest(), 2);
    assert_eq!(p.peaks().peaks().to_vec(), vec![Rpo256::merge(&[a, b])]);
    assert!(p.is_tracked(0));
    let expected = MmrProof { forest: 2, position: 0, merkle_path: MerklePath::new(vec![b]) };
    assert_eq!(p.open(0).unwrap(), Some(expected));
}

#[test]
fn partial_mmr_apply_rejects_bad_deltas() {
    let a = int_to_node(0);
    let peaks = midencrypto::merkle::mmr::peaks::MmrPeaks::new(1, vec![a]).unwrap();
    let mut p = PartialMmr::from_parts(peaks, Vec::new(), false);
    let wrong_len = midencrypto::merkle::mmr::delta::MmrDelta { forest: 2, data: vec![] };
    assert_eq!(p.apply(wrong_len), Err(MmrError::InvalidUpdate));
    let same = midencrypto::merkle::mmr::delta::MmrDelta { forest: 1, data: vec![a] };
    assert_eq!(p.apply(same), Err(MmrError::InvalidUpdate));
    let smaller = midencrypto::merkle::mmr::delta::MmrDelta { forest: 0, data: vec![] };
    assert!(matches!(p.apply(smaller), Err(MmrError::InvalidPeaks(_))));
    assert_eq!(p.forest(), 1);
}

#[test]
fn mmr_get_delta_data() {
    let a = int_to_node(0);
    let b = int_to_node(1);
    let mut mmr = Mmr::new();
    mmr.add(a);
    mmr.add(b);
    let d = mmr.get_delta(1, 2).unwrap();
    assert_eq!(d.forest, 2);
    assert_eq!(d.data, vec![b]);
    let d = mmr.get_delta(0, 2).unwrap();
    assert_eq!(d.data, vec![Rpo256::merge(&[a, b])]);
    let d = mmr.get_delta(2, 2).unwrap();
    assert!(d.data.is_empty());
    assert!(matches!(mmr.get_delta(2, 3), Err(MmrError::InvalidPeaks(_))));
    assert!(matches!(mmr.get_delta(2, 1), Err(MmrError::InvalidPeaks(_))));
}

#[test]
fn partial_mmr_delta_round_trip_follows_full_range() {
    let leaves = leaves7();
    let mut mmr = Mmr::from_leaves(&leaves[..3]);
    let mut partial = PartialMmr::from_peaks(mmr.peaks());
    let proof = mmr.open(0).unwrap();
    partial.track(0, leaves[0], &proof.merkle_path).unwrap();
    for leaf in &leaves[3..] {
        mmr.add(*leaf);
    }
    let delta = mmr.get_delta(3, 7).unwrap();
    partial.apply(delta).unwrap();
    assert_eq!(partial.peaks(), mmr.peaks());
    assert_eq!(partial.open(0).unwrap(), Some(mmr.open(0).unwrap()));
}

#[test]
fn partial_mmr_add_records_pairs_of_tracked_leaf() {
    let a = int_to_node(0);
    let b = int_to_node(1);
    let mut p = PartialMmr::from_peaks(Mmr::new().peaks());
    assert!(p.add(a, true).is_empty());
    let added = p.add(b, false);
    assert_eq!(added, vec![(InOrderIndex::from_leaf_pos(1), b)]);
    let mut q = PartialMmr::from_peaks(Mmr::new().peaks());
    q.add(a, false);
    assert!(q.add(b, false).is_empty());
}

#[test]
fn partial_mmr_track_latest_leaf() {
    let leaves = leaves7();
    let mmr = Mmr::from_leaves(&leaves);
    let mut partial = PartialMmr::from_peaks(mmr.peaks());
    partial.track(6, leaves[6], &MerklePath::new(vec![])).unwrap();
    assert!(partial.is_tracked(6));
    assert!(partial.track_latest());
}

#[test]
fn partial_mmr_track_then_open_matches_full_range() {
    let leaves = leaves7();
    let mmr = Mmr::from_leaves(&leaves);
    for pos in 0..6 {
        let mut partial = PartialMmr::from_peaks(mmr.peaks());
        let expected = mmr.open(pos).unwrap();
        partial.track(pos, mmr.get(pos).unwrap(), &expected.merkle_path).unwrap();
        assert_eq!(partial.open(pos).unwrap(), Some(expected));
    }
}
