use midencrypto::felt::Felt;
use midencrypto::merkle::empty_roots::EmptySubtreeRoots;
use midencrypto::merkle::index::NodeIndex;
use midencrypto::merkle::path::MerklePath;
use midencrypto::merkle::store::MerkleStore;
use midencrypto::merkle::tree::MerkleTree;
use midencrypto::merkle::MerkleError;
use midencrypto::rescue::digest::RpoDigest;
use midencrypto::rescue::rpo::Rpo256;

fn int_to_node(value: u64) -> RpoDigest {
    RpoDigest::new([Felt::new(value), Felt::zero(), Felt::zero(), Felt::zero()])
}

fn values_4() -> Vec<RpoDigest> {
    (1..5).map(int_to_node).collect()
}

fn words(values: &[RpoDigest]) -> Vec<[Felt; 4]> {
    values.iter().map(|d| d.to_felts()).collect()
}

#[test]
fn merkle_tree() -> Result<(), MerkleError> {
    let values = values_4();
    let mtree = MerkleTree::new(&words(&values))?;
    let store = MerkleStore::from_tree(&mtree);
    for i in 0..4u64 {
        let index = NodeIndex::new(mtree.depth(), i)?;
        assert_eq!(store.get_node(mtree.root(), index)?, values[i as usize], "node must be in the tree");
        assert_eq!(mtree.get_node(index)?, store.get_node(mtree.root(), index)?, "node must be the same for both");
    }
    for i in 0..4u64 {
        let index = NodeIndex::new(mtree.depth(), i)?;
        let result = store.get_path(mtree.root(), index)?;
        assert_eq!(result.value, values[i as usize], "value for merkle path must match leaf value");
        assert_eq!(mtree.get_path(index)?, result.path, "merkle path must be the same for both");
    }
    Ok(())
}

#[test]
fn empty_roots() -> Result<(), MerkleError> {
    let store = MerkleStore::default();
    let mut root = RpoDigest::default();
    for _depth in 0..255 {
        root = Rpo256::merge(&[root; 2]);
        assert!(store.get_node(root, NodeIndex::new(0, 0)?).is_ok(), "the root of the empty tree must be registered");
    }
    Ok(())
}

#[test]
fn get_invalid_node() -> Result<(), MerkleError> {
    let mtree = MerkleTree::new(&words(&values_4()))?;
    let store = MerkleStore::from_tree(&mtree);
    let _ = store.get_node(mtree.root(), NodeIndex::new(mtree.depth(), 3)?);
    Ok(())
}

#[test]
fn store_path_opens_from_leaf() -> Result<(), MerkleError> {
    let a = [Felt::one(); 4];
    let b = [Felt::new(2); 4];
    let c = [Felt::new(3); 4];
    let d = [Felt::new(4); 4];
    let e = [Felt::new(5); 4];
    let f = [Felt::new(6); 4];
    let g = [Felt::new(7); 4];
    let h = [Felt::new(8); 4];
    let i = Rpo256::merge(&[RpoDigest::new(a), RpoDigest::new(b)]);
    let j = Rpo256::merge(&[RpoDigest::new(c), RpoDigest::new(d)]);
    let k = Rpo256::merge(&[RpoDigest::new(e), RpoDigest::new(f)]);
    let l = Rpo256::merge(&[RpoDigest::new(g), RpoDigest::new(h)]);
    let m = Rpo256::merge(&[i, j]);
    let n = Rpo256::merge(&[k, l]);
    let root = Rpo256::merge(&[m, n]);
    let mtree = MerkleTree::new(&[a, b, c, d, e, f, g, h])?;
    let store = MerkleStore::from_tree(&mtree);
    let path = store.get_path(root, NodeIndex::new(3, 1)?)?.path;
    let expected = MerklePath::new(vec![RpoDigest::new(a), j, n]);
    assert_eq!(path, expected);
    Ok(())
}

#[test]
fn set_node() -> Result<(), MerkleError> {
    let mtree = MerkleTree::new(&words(&values_4()))?;
    let mut store = MerkleStore::from_tree(&mtree);
    let value = int_to_node(42);
    let index = NodeIndex::new(mtree.depth(), 0)?;
    let new_root = store.set_node(mtree.root(), index, value)?.root;
    assert_eq!(store.get_node(new_root, index)?, value, "value must have changed");
    Ok(())
}

#[test]
fn node_path_should_be_truncated_by_midtier_insert() -> Result<(), MerkleError> {
    let key = 0b11010010_11001100_11001100_11001100_11001100_11001100_11001100_11001100_u64;
    let mut store = MerkleStore::new();
    let root = EmptySubtreeRoots::empty_hashes(64)[0];
    let depth = 64;
    let node = RpoDigest::new([Felt::new(key); 4]);
    let index = NodeIndex::new(depth, key)?;
    let root = store.set_node(root, index, node)?.root;
    let result = store.get_node(root, index)?;
    let path = store.get_path(root, index)?.path;
    assert_eq!(node, result);
    assert_eq!(path.depth(), depth);
    assert!(path.verify(index.value(), result, root).is_ok());

    let key = key ^ (1 << 63);
    let key = key >> 8;
    let depth = 56;
    let node = RpoDigest::new([Felt::new(key); 4]);
    let index = NodeIndex::new(depth, key)?;
    let root = store.set_node(root, index, node)?.root;
    let result = store.get_node(root, index)?;
    let path = store.get_path(root, index)?.path;
    assert_eq!(node, result);
    assert_eq!(path.depth(), depth);
    assert!(path.verify(index.value(), result, root).is_ok());

    let key = key << 8;
    let index = NodeIndex::new(64, key)?;
    assert!(store.get_node(root, index).is_err());
    Ok(())
}

#[test]
fn get_leaf_depth_works_depth_64() -> Result<(), MerkleError> {
    let mut store = MerkleStore::new();
    let mut root = EmptySubtreeRoots::empty_hashes(64)[0];
    let key = u64::MAX;
    for d in 0..64u8 {
        let k = key & (u64::MAX >> d);
        let node = RpoDigest::new([Felt::new(k); 4]);
        let index = NodeIndex::new(64, k)?;
        assert_eq!(d, store.get_leaf_depth(root, 64, k)?);
        root = store.set_node(root, index, node)?.root;
        assert_eq!(store.get_leaf_depth(root, 64, k)?, 64);
    }
    Ok(())
}

#[test]
fn inner_nodes() -> Result<(), MerkleError> {
    let nodes = vec![int_to_node(1), int_to_node(2), int_to_node(3), int_to_node(4)];
    let merkle_path = MerklePath::new(nodes);
    let index = 6;
    let node = int_to_node(5);
    let root = merkle_path.compute_root(index, node)?;
    let inner_root = merkle_path.inner_nodes(index, node)?.last().unwrap().value;
    assert_eq!(root, inner_root);
    Ok(())
}
