use midencrypto::felt::Felt;
use midencrypto::merkle::empty_roots::EmptySubtreeRoots;
use midencrypto::merkle::index::NodeIndex;
use midencrypto::merkle::partial_mt::PartialMerkleTree;
use midencrypto::merkle::path::MerklePath;
use midencrypto::merkle::mmr::in_order::InOrderIndex;
use midencrypto::merkle::simple_smt::SimpleSmt;
use midencrypto::merkle::smt::LeafIndex;
use midencrypto::merkle::store::MerkleStore;
use midencrypto::merkle::tree::MerkleTree;
use midencrypto::merkle::{InnerNodeInfo, MerkleError};
use midencrypto::rescue::digest::RpoDigest;
use midencrypto::rescue::rpo::Rpo256;

fn int_to_node(value: u64) -> RpoDigest {
    RpoDigest::new([Felt::new(value), Felt::zero(), Felt::zero(), Felt::zero()])
}

fn int_to_leaf(value: u64) -> [Felt; 4] {
    [Felt::new(value), Felt::zero(), Felt::zero(), Felt::zero()]
}

fn values(n: u64) -> Vec<RpoDigest> {
    (1..=n).map(int_to_node).collect()
}

fn words(values: &[RpoDigest]) -> Vec<[Felt; 4]> {
    values.iter().map(|d| d.to_felts()).collect()
}

fn compute_internal_nodes(v: &[RpoDigest]) -> (RpoDigest, RpoDigest, RpoDigest) {
    let node2 = Rpo256::merge(&[v[0], v[1]]);
    let node3 = Rpo256::merge(&[v[2], v[3]]);
    let root = Rpo256::merge(&[node2, node3]);
    (root, node2, node3)
}

#[test]
fn node_index_value_too_high() -> Result<(), MerkleError> {
    assert_eq!(NodeIndex::new(0, 0)?, NodeIndex::new_unchecked(0, 0));
    assert!(matches!(NodeIndex::new(0, 1).unwrap_err(), MerkleError::InvalidNodeIndex { depth: 0, value: 1 }));
    assert_eq!(NodeIndex::new(1, 1)?, NodeIndex::new_unchecked(1, 1));
    assert!(matches!(NodeIndex::new(1, 2).unwrap_err(), MerkleError::InvalidNodeIndex { depth: 1, value: 2 }));
    assert_eq!(NodeIndex::new(2, 3)?, NodeIndex::new_unchecked(2, 3));
    assert!(matches!(NodeIndex::new(2, 4).unwrap_err(), MerkleError::InvalidNodeIndex { depth: 2, value: 4 }));
    assert_eq!(NodeIndex::new(3, 7)?, NodeIndex::new_unchecked(3, 7));
    assert!(matches!(NodeIndex::new(3, 8).unwrap_err(), MerkleError::InvalidNodeIndex { depth: 3, value: 8 }));
    Ok(())
}

#[test]
fn node_index_can_represent_depth_64() {
    assert!(NodeIndex::new(64, u64::MAX).is_ok());
}

#[test]
fn in_order_index_basic() {
    let left = InOrderIndex::from_leaf_pos(0);
    let right = InOrderIndex::from_leaf_pos(1);
    assert!(left.is_leaf());
    assert!(right.is_leaf());
    assert_eq!(left.parent(), right.parent());
    assert_eq!(left.parent().right_child(), right);
    assert_eq!(left, right.parent().left_child());
    assert_eq!(left.sibling(), right);
    assert_eq!(left, right.sibling());
}

#[test]
fn build_merkle_tree() -> Result<(), MerkleError> {
    let leaves = values(4);
    let tree = MerkleTree::new(&words(&leaves))?;
    for (i, leaf) in leaves.iter().enumerate() {
        assert_eq!(tree.get_node(NodeIndex::new(2, i as u64)?)?, *leaf);
    }
    let (root, node2, node3) = compute_internal_nodes(&leaves);
    assert_eq!(root, tree.root());
    assert_eq!(node2, tree.get_node(NodeIndex::new(1, 0)?)?);
    assert_eq!(node3, tree.get_node(NodeIndex::new(1, 1)?)?);
    assert_eq!(tree.inner_nodes().len() + leaves.len(), 7);
    Ok(())
}

#[test]
fn get_leaf() -> Result<(), MerkleError> {
    let leaves = values(4);
    let tree = MerkleTree::new(&words(&leaves))?;
    let (_, node2, node3) = compute_internal_nodes(&leaves);
    assert_eq!(vec![leaves[1], node3], tree.get_path(NodeIndex::new(2, 0)?)?.to_vec());
    assert_eq!(vec![leaves[0], node3], tree.get_path(NodeIndex::new(2, 1)?)?.to_vec());
    assert_eq!(vec![leaves[3], node2], tree.get_path(NodeIndex::new(2, 2)?)?.to_vec());
    assert_eq!(vec![leaves[2], node2], tree.get_path(NodeIndex::new(2, 3)?)?.to_vec());
    assert_eq!(vec![node3], tree.get_path(NodeIndex::new(1, 0)?)?.to_vec());
    assert_eq!(vec![node2], tree.get_path(NodeIndex::new(1, 1)?)?.to_vec());
    Ok(())
}

#[test]
fn tree_update_leaf() -> Result<(), MerkleError> {
    let leaves = values(8);
    let mut tree = MerkleTree::new(&words(&leaves))?;

    let value = 3;
    let new_node = int_to_leaf(9);
    let mut expected_leaves = words(&leaves);
    expected_leaves[value as usize] = new_node;
    let expected_tree = MerkleTree::new(&expected_leaves)?;
    tree.update_leaf(value, new_node)?;
    assert_eq!(tree, expected_tree);

    let value = 6;
    let new_node = int_to_leaf(10);
    expected_leaves[value as usize] = new_node;
    let expected_tree = MerkleTree::new(&expected_leaves)?;
    tree.update_leaf(value, new_node)?;
    assert_eq!(tree, expected_tree);
    Ok(())
}

#[test]
fn nodes() -> Result<(), MerkleError> {
    let tree = MerkleTree::new(&words(&values(4)))?;
    let root = tree.root();
    let l1n0 = tree.get_node(NodeIndex::new(1, 0)?)?;
    let l1n1 = tree.get_node(NodeIndex::new(1, 1)?)?;
    let l2n0 = tree.get_node(NodeIndex::new(2, 0)?)?;
    let l2n1 = tree.get_node(NodeIndex::new(2, 1)?)?;
    let l2n2 = tree.get_node(NodeIndex::new(2, 2)?)?;
    let l2n3 = tree.get_node(NodeIndex::new(2, 3)?)?;
    let expected = vec![
        InnerNodeInfo { value: root, left: l1n0, right: l1n1 },
        InnerNodeInfo { value: l1n0, left: l2n0, right: l2n1 },
        InnerNodeInfo { value: l1n1, left: l2n2, right: l2n3 },
    ];
    assert_eq!(tree.inner_nodes(), expected);
    Ok(())
}

#[test]
fn root_not_in_store() -> Result<(), MerkleError> {
    let v = values(4);
    let mtree = MerkleTree::new(&words(&v))?;
    let store = MerkleStore::from_tree(&mtree);
    assert!(matches!(store.get_node(v[0], NodeIndex::new(mtree.depth(), 0)?), Err(MerkleError::RootNotInStore(root)) if root == v[0]));
    assert!(matches!(store.get_path(v[0], NodeIndex::new(mtree.depth(), 0)?), Err(MerkleError::RootNotInStore(root)) if root == v[0]));
    Ok(())
}

fn check_empty_leaf_path<const DEPTH: u8>(store: &MerkleStore) -> Result<(), MerkleError> {
    let smt = SimpleSmt::<DEPTH>::new()?;
    let index = NodeIndex::new(DEPTH, 0)?;
    let store_path = store.get_path(smt.root(), index)?;
    let smt_path = smt.open(&LeafIndex::new(0)?).path;
    assert_eq!(store_path.value, RpoDigest::default());
    assert_eq!(store_path.path, smt_path);
    assert_eq!(store_path.path.compute_root(DEPTH.into(), RpoDigest::default())?, smt.root());
    Ok(())
}

#[test]
fn leaf_paths_for_empty_trees() -> Result<(), MerkleError> {
    let store = MerkleStore::default();
    check_empty_leaf_path::<1>(&store)?;
    check_empty_leaf_path::<2>(&store)?;
    check_empty_leaf_path::<3>(&store)?;
    check_empty_leaf_path::<4>(&store)?;
    check_empty_leaf_path::<5>(&store)?;
    check_empty_leaf_path::<6>(&store)?;
    check_empty_leaf_path::<7>(&store)?;
    check_empty_leaf_path::<8>(&store)?;
    check_empty_leaf_path::<9>(&store)?;
    check_empty_leaf_path::<10>(&store)?;
    check_empty_leaf_path::<11>(&store)?;
    check_empty_leaf_path::<12>(&store)?;
    check_empty_leaf_path::<13>(&store)?;
    check_empty_leaf_path::<14>(&store)?;
    check_empty_leaf_path::<15>(&store)?;
    check_empty_leaf_path::<16>(&store)?;
    check_empty_leaf_path::<17>(&store)?;
    check_empty_leaf_path::<18>(&store)?;
    check_empty_leaf_path::<19>(&store)?;
    check_empty_leaf_path::<20>(&store)?;
    check_empty_leaf_path::<21>(&store)?;
    check_empty_leaf_path::<22>(&store)?;
    check_empty_leaf_path::<23>(&store)?;
    check_empty_leaf_path::<24>(&store)?;
    check_empty_leaf_path::<25>(&store)?;
    check_empty_leaf_path::<26>(&store)?;
    check_empty_leaf_path::<27>(&store)?;
    check_empty_leaf_path::<28>(&store)?;
    check_empty_leaf_path::<29>(&store)?;
    check_empty_leaf_path::<30>(&store)?;
    check_empty_leaf_path::<31>(&store)?;
    check_empty_leaf_path::<32>(&store)?;
    check_empty_leaf_path::<33>(&store)?;
    check_empty_leaf_path::<34>(&store)?;
    check_empty_leaf_path::<35>(&store)?;
    check_empty_leaf_path::<36>(&store)?;
    check_empty_leaf_path::<37>(&store)?;
    check_empty_leaf_path::<38>(&store)?;
    check_empty_leaf_path::<39>(&store)?;
    check_empty_leaf_path::<40>(&store)?;
    check_empty_leaf_path::<41>(&store)?;
    check_empty_leaf_path::<42>(&store)?;
    check_empty_leaf_path::<43>(&store)?;
    check_empty_leaf_path::<44>(&store)?;
    check_empty_leaf_path::<45>(&store)?;
    check_empty_leaf_path::<46>(&store)?;
    check_empty_leaf_path::<47>(&store)?;
    check_empty_leaf_path::<48>(&store)?;
    check_empty_leaf_path::<49>(&store)?;
    check_empty_leaf_path::<50>(&store)?;
    check_empty_leaf_path::<51>(&store)?;
    check_empty_leaf_path::<52>(&store)?;
    check_empty_leaf_path::<53>(&store)?;
    check_empty_leaf_path::<54>(&store)?;
    check_empty_leaf_path::<55>(&store)?;
    check_empty_leaf_path::<56>(&store)?;
    check_empty_leaf_path::<57>(&store)?;
    check_empty_leaf_path::<58>(&store)?;
    check_empty_leaf_path::<59>(&store)?;
    check_empty_leaf_path::<60>(&store)?;
    check_empty_leaf_path::<61>(&store)?;
    check_empty_leaf_path::<62>(&store)?;
    check_empty_leaf_path::<63>(&store)?;
    Ok(())
}

#[test]
fn add_sparse_merkle_tree_one_level() -> Result<(), MerkleError> {
    let leaves2 = [int_to_leaf(1), int_to_leaf(2)];
    let smt = SimpleSmt::<1>::with_leaves(&[(0, leaves2[0]), (1, leaves2[1])])?;
    let store = MerkleStore::from_smt(&smt);
    let idx = NodeIndex::new(1, 0)?;
    assert_eq!(smt.get_node(idx)?, RpoDigest::new(leaves2[0]));
    assert_eq!(store.get_node(smt.root(), idx)?, smt.get_node(idx)?);
    let idx = NodeIndex::new(1, 1)?;
    assert_eq!(smt.get_node(idx)?, RpoDigest::new(leaves2[1]));
    assert_eq!(store.get_node(smt.root(), idx)?, smt.get_node(idx)?);
    Ok(())
}

#[test]
fn sparse_merkle_tree() -> Result<(), MerkleError> {
    let v = values(4);
    let entries: Vec<(u64, [Felt; 4])> = (0..4u64).zip(words(&v)).collect();
    let smt = SimpleSmt::<64>::with_leaves(&entries)?;
    let store = MerkleStore::from_smt(&smt);
    for i in 0..4u64 {
        assert_eq!(store.get_node(smt.root(), NodeIndex::new(64, i)?)?, v[i as usize]);
    }
    assert_eq!(store.get_node(smt.root(), NodeIndex::new(64, 4)?)?, RpoDigest::default());
    for i in 0..5u64 {
        assert_eq!(smt.get_node(NodeIndex::new(64, i)?)?, store.get_node(smt.root(), NodeIndex::new(64, i)?)?);
    }
    for i in 0..4u64 {
        let result = store.get_path(smt.root(), NodeIndex::new(64, i)?)?;
        assert_eq!(result.value, v[i as usize]);
        assert_eq!(result.path, smt.open(&LeafIndex::new(i)?).path);
    }
    let result = store.get_path(smt.root(), NodeIndex::new(64, 4)?)?;
    assert_eq!(result.value, RpoDigest::default());
    assert_eq!(result.path, smt.open(&LeafIndex::new(4)?).path);
    Ok(())
}

#[test]
fn wont_open_to_different_depth_root() -> Result<(), MerkleError> {
    let empty = EmptySubtreeRoots::empty_hashes(64);
    let a = [Felt::one(); 4];
    let b = [Felt::new(2); 4];
    let mut root = Rpo256::merge(&[RpoDigest::new(a), RpoDigest::new(b)]);
    for depth in (1..=63).rev() {
        root = Rpo256::merge(&[root, empty[depth]]);
    }
    let mtree = MerkleTree::new(&[a, b])?;
    let store = MerkleStore::from_tree(&mtree);
    let index = NodeIndex::root();
    let err = store.get_node(root, index).err().unwrap();
    assert!(matches!(err, MerkleError::RootNotInStore(err_root) if err_root == root));
    Ok(())
}

fn tree_paths(mtree: &MerkleTree, v: &[RpoDigest]) -> Result<Vec<(u64, RpoDigest, MerklePath)>, MerkleError> {
    let mut paths = Vec::new();
    for i in 0..4u64 {
        paths.push((i, v[i as usize], mtree.get_path(NodeIndex::new(2, i)?)?));
    }
    Ok(paths)
}

#[test]
fn add_merkle_path() -> Result<(), MerkleError> {
    let v = values(4);
    let mtree = MerkleTree::new(&words(&v))?;
    let paths = tree_paths(&mtree, &v)?;
    let mut store = MerkleStore::default();
    store.add_merkle_paths(&paths)?;
    let pmt = PartialMerkleTree::with_paths(&paths)?;
    for i in 0..4u64 {
        assert_eq!(store.get_node(pmt.root(), NodeIndex::new(pmt.max_depth(), i)?)?, v[i as usize]);
    }
    for i in 0..4u64 {
        let index = NodeIndex::new(pmt.max_depth(), i)?;
        let result = store.get_path(pmt.root(), index)?;
        assert_eq!(result.value, v[i as usize]);
        assert_eq!(result.path, pmt.get_path(index)?);
    }
    Ok(())
}

#[test]
fn constructors() -> Result<(), MerkleError> {
    const DEPTH: u8 = 32;
    let v = values(4);
    let mtree = MerkleTree::new(&words(&v))?;
    let store = MerkleStore::from_tree(&mtree);
    let depth = mtree.depth();
    let leaves = 2u64.pow(depth.into());
    for index in 0..leaves {
        let index = NodeIndex::new(depth, index)?;
        let value_path = store.get_path(mtree.root(), index)?;
        assert_eq!(mtree.get_path(index)?, value_path.path);
    }

    let entries: Vec<(u64, [Felt; 4])> = (0..4u64).zip(words(&v)).collect();
    let smt = SimpleSmt::<DEPTH>::with_leaves(&entries)?;
    let store = MerkleStore::from_smt(&smt);
    for key in 0..4u64 {
        let index = NodeIndex::new(DEPTH, key)?;
        let value_path = store.get_path(smt.root(), index)?;
        assert_eq!(smt.open(&LeafIndex::new(key)?).path, value_path.path);
    }

    let paths = tree_paths(&mtree, &v)?;
    let mut store1 = MerkleStore::default();
    store1.add_merkle_paths(&paths)?;
    let mut store2 = MerkleStore::default();
    for (i, value, path) in paths.iter() {
        store2.add_merkle_path(*i, *value, path.clone())?;
    }
    let pmt = PartialMerkleTree::with_paths(&paths)?;
    for key in [0, 1, 2, 3] {
        let index = NodeIndex::new(2, key)?;
        let value_path1 = store1.get_path(pmt.root(), index)?;
        let value_path2 = store2.get_path(pmt.root(), index)?;
        assert_eq!(value_path1, value_path2);
        assert_eq!(pmt.get_path(index)?, value_path1.path);
    }
    Ok(())
}

#[test]
fn merkle_path_bytes_round_trip() {
    let path = MerklePath::new(vec![int_to_node(1), int_to_node(2), int_to_node(3)]);
    let mut bytes = vec![9u8];
    path.write_into(&mut bytes);
    assert_eq!(bytes.len(), 1 + 1 + 3 * 32);
    let mut reader = midencrypto::utils::bytes::SliceReader::new(&bytes);
    assert_eq!(reader.read_u8().unwrap(), 9);
    let back = MerklePath::read_from(&mut reader).unwrap();
    assert_eq!(back, path);
    assert!(!reader.has_more_bytes());
    let short = &bytes[1..40];
    let mut reader = midencrypto::utils::bytes::SliceReader::new(short);
    assert!(MerklePath::read_from(&mut reader).is_err());
}

#[test]
fn merkle_store_bytes_round_trip() {
    let leaves: Vec<RpoDigest> = (0..4).map(int_to_node).collect();
    let tree = MerkleTree::new(&words(&leaves)).unwrap();
    let store = MerkleStore::from_tree(&tree);
    let mut bytes = Vec::new();
    store.write_into(&mut bytes);
    let mut reader = midencrypto::utils::bytes::SliceReader::new(&bytes);
    let back = MerkleStore::read_from(&mut reader).unwrap();
    assert_eq!(back.num_internal_nodes(), store.num_internal_nodes());
    let root = tree.root();
    let index = NodeIndex::new(2, 1).unwrap();
    assert_eq!(back.get_node(root, index).unwrap(), leaves[1]);
    let mut reader = midencrypto::utils::bytes::SliceReader::new(&bytes[..20]);
    assert!(MerkleStore::read_from(&mut reader).is_err());
}

#[test]
fn store_from_tree_records_children() {
    let leaves: Vec<RpoDigest> = (0..4).map(int_to_node).collect();
    let tree = MerkleTree::new(&words(&leaves)).unwrap();
    let store = MerkleStore::from_tree(&tree);
    let index = NodeIndex::new(2, 2).unwrap();
    let p = store.get_path(tree.root(), index).unwrap();
    assert_eq!(p.value, leaves[2]);
    assert_eq!(p.path, tree.get_path(index).unwrap());
}

#[test]
fn in_order_index_serialization() {
    let index = InOrderIndex::from_leaf_pos(5);
    let bytes = index.to_bytes();
    let index2 = InOrderIndex::read_from_bytes(&bytes).unwrap();
    assert_eq!(index, index2);
}
