use midencrypto::felt::Felt;
use midencrypto::merkle::index::NodeIndex;
use midencrypto::merkle::partial_mt::PartialMerkleTree;
use midencrypto::merkle::path::{MerklePath, ValuePath};
use midencrypto::merkle::store::MerkleStore;
use midencrypto::merkle::tree::MerkleTree;
use midencrypto::merkle::{InnerNodeInfo, MerkleError};
use midencrypto::rescue::digest::RpoDigest;

fn int_to_node(value: u64) -> RpoDigest {
    RpoDigest::new([Felt::new(value), Felt::zero(), Felt::zero(), Felt::zero()])
}

fn node(depth: u8, value: u64) -> NodeIndex {
    NodeIndex::new_unchecked(depth, value)
}

fn values_8() -> Vec<RpoDigest> {
    (30..38).map(int_to_node).collect()
}

fn words(values: &[RpoDigest]) -> Vec<[Felt; 4]> {
    values.iter().map(|d| d.to_felts()).collect()
}

fn tree8() -> MerkleTree {
    MerkleTree::new(&words(&values_8())).unwrap()
}

#[test]
fn with_leaves() -> Result<(), MerkleError> {
    let mt = tree8();
    let expected_root = mt.root();
    let leaf_nodes = vec![
        (node(2, 0), mt.get_node(node(2, 0))?),
        (node(3, 2), mt.get_node(node(3, 2))?),
        (node(3, 3), mt.get_node(node(3, 3))?),
        (node(2, 2), mt.get_node(node(2, 2))?),
        (node(2, 3), mt.get_node(node(2, 3))?),
    ];
    let pmt = PartialMerkleTree::with_leaves(&leaf_nodes)?;
    assert_eq!(pmt.root(), expected_root);
    Ok(())
}

#[test]
fn err_with_leaves() {
    let leaf_nodes = vec![
        (node(2, 0), int_to_node(20)),
        (node(3, 2), int_to_node(32)),
        (node(3, 3), int_to_node(33)),
        (node(2, 3), int_to_node(23)),
    ];
    assert!(PartialMerkleTree::with_leaves(&leaf_nodes).is_err());
}

#[test]
fn get_root() -> Result<(), MerkleError> {
    let mt = tree8();
    let expected_root = mt.root();
    let ms = MerkleStore::from_tree(&mt);
    let path33 = ms.get_path(expected_root, node(3, 3))?;
    let pmt = PartialMerkleTree::with_paths(&vec![(3, path33.value, path33.path)])?;
    assert_eq!(pmt.root(), expected_root);
    Ok(())
}

#[test]
fn add_and_get_paths() -> Result<(), MerkleError> {
    let mt = tree8();
    let expected_root = mt.root();
    let ms = MerkleStore::from_tree(&mt);
    let expected_path33 = ms.get_path(expected_root, node(3, 3))?;
    let expected_path22 = ms.get_path(expected_root, node(2, 2))?;
    let mut pmt = PartialMerkleTree::new();
    pmt.add_path(3, expected_path33.value, expected_path33.path.clone())?;
    pmt.add_path(2, expected_path22.value, expected_path22.path.clone())?;
    let path33 = pmt.get_path(node(3, 3))?;
    let path22 = pmt.get_path(node(2, 2))?;
    let actual_root = pmt.root();
    assert_eq!(path33, expected_path33.path);
    assert_eq!(path22, expected_path22.path);
    assert_eq!(actual_root, expected_root);
    Ok(())
}

#[test]
fn get_node() -> Result<(), MerkleError> {
    let mt = tree8();
    let expected_root = mt.root();
    let ms = MerkleStore::from_tree(&mt);
    let path33 = ms.get_path(expected_root, node(3, 3))?;
    let pmt = PartialMerkleTree::with_paths(&vec![(3, path33.value, path33.path)])?;
    assert_eq!(ms.get_node(expected_root, node(3, 2))?, pmt.get_node(node(3, 2))?);
    assert_eq!(ms.get_node(expected_root, node(1, 0))?, pmt.get_node(node(1, 0))?);
    Ok(())
}

#[test]
fn get_paths() -> Result<(), MerkleError> {
    let mt = tree8();
    let expected_root = mt.root();
    let ms = MerkleStore::from_tree(&mt);
    let path33 = ms.get_path(expected_root, node(3, 3))?;
    let path22 = ms.get_path(expected_root, node(2, 2))?;
    let mut pmt = PartialMerkleTree::new();
    pmt.add_path(3, path33.value, path33.path)?;
    pmt.add_path(2, path22.value, path22.path)?;
    let leaves = [node(2, 0), node(2, 2), node(2, 3), node(3, 2), node(3, 3)];
    let mut expected_paths = Vec::new();
    for leaf in leaves {
        expected_paths.push((leaf, ValuePath { value: mt.get_node(leaf)?, path: mt.get_path(leaf)? }));
    }
    let actual_paths = pmt.to_paths();
    assert_eq!(actual_paths, expected_paths);
    Ok(())
}

#[test]
fn leaves() -> Result<(), MerkleError> {
    let mt = tree8();
    let expected_root = mt.root();
    let ms = MerkleStore::from_tree(&mt);
    let path33 = ms.get_path(expected_root, node(3, 3))?;
    let path22 = ms.get_path(expected_root, node(2, 2))?;
    let mut pmt = PartialMerkleTree::with_paths(&vec![(3, path33.value, path33.path)])?;
    let value11 = mt.get_node(node(1, 1))?;
    let value20 = mt.get_node(node(2, 0))?;
    let value32 = mt.get_node(node(3, 2))?;
    let value33 = mt.get_node(node(3, 3))?;
    let expected = vec![(node(1, 1), value11), (node(2, 0), value20), (node(3, 2), value32), (node(3, 3), value33)];
    assert_eq!(expected, pmt.leaves());
    pmt.add_path(2, path22.value, path22.path)?;
    let value22 = mt.get_node(node(2, 2))?;
    let value23 = mt.get_node(node(2, 3))?;
    let expected = vec![
        (node(2, 0), value20),
        (node(2, 2), value22),
        (node(2, 3), value23),
        (node(3, 2), value32),
        (node(3, 3), value33),
    ];
    assert_eq!(expected, pmt.leaves());
    Ok(())
}

#[test]
fn inner_node_iterator() -> Result<(), MerkleError> {
    let mt = tree8();
    let expected_root = mt.root();
    let ms = MerkleStore::from_tree(&mt);
    let path33 = ms.get_path(expected_root, node(3, 3))?;
    let path22 = ms.get_path(expected_root, node(2, 2))?;
    let mut pmt = PartialMerkleTree::with_paths(&vec![(3, path33.value, path33.path)])?;
    let actual = pmt.inner_nodes();
    let expected_n00 = mt.root();
    let expected_n10 = mt.get_node(node(1, 0))?;
    let expected_n11 = mt.get_node(node(1, 1))?;
    let expected_n20 = mt.get_node(node(2, 0))?;
    let expected_n21 = mt.get_node(node(2, 1))?;
    let expected_n32 = mt.get_node(node(3, 2))?;
    let expected_n33 = mt.get_node(node(3, 3))?;
    let mut expected = vec![
        InnerNodeInfo { value: expected_n00, left: expected_n10, right: expected_n11 },
        InnerNodeInfo { value: expected_n10, left: expected_n20, right: expected_n21 },
        InnerNodeInfo { value: expected_n21, left: expected_n32, right: expected_n33 },
    ];
    assert_eq!(actual, expected);
    pmt.add_path(2, path22.value, path22.path)?;
    let actual = pmt.inner_nodes();
    let expected_n22 = mt.get_node(node(2, 2))?;
    let expected_n23 = mt.get_node(node(2, 3))?;
    let info_11 = InnerNodeInfo { value: expected_n11, left: expected_n22, right: expected_n23 };
    expected.insert(2, info_11);
    assert_eq!(actual, expected);
    Ok(())
}

#[test]
fn serialization() {
    let mt = tree8();
    let expected_root = mt.root();
    let ms = MerkleStore::from_tree(&mt);
    let path33 = ms.get_path(expected_root, node(3, 3)).unwrap();
    let path22 = ms.get_path(expected_root, node(2, 2)).unwrap();
    let pmt = PartialMerkleTree::with_paths(&vec![(3, path33.value, path33.path), (2, path22.value, path22.path)]).unwrap();
    let serialized_pmt = pmt.to_bytes();
    let deserialized_pmt = PartialMerkleTree::read_from_bytes(&serialized_pmt).unwrap();
    assert_eq!(deserialized_pmt, pmt);
}

#[test]
fn err_deserialization() {
    let mut tree_bytes: Vec<u8> = vec![5];
    let mut b = Vec::new();
    node(2, 0).write_into(&mut b);
    tree_bytes.append(&mut b);
    let mut b = Vec::new();
    int_to_node(20).write_into(&mut b);
    tree_bytes.append(&mut b);
    let mut b = Vec::new();
    node(2, 1).write_into(&mut b);
    tree_bytes.append(&mut b);
    let mut b = Vec::new();
    int_to_node(21).write_into(&mut b);
    tree_bytes.append(&mut b);
    tree_bytes.append(&mut vec![1, 2]);
    let mut b = Vec::new();
    int_to_node(11).write_into(&mut b);
    tree_bytes.append(&mut b);
    assert!(PartialMerkleTree::read_from_bytes(&tree_bytes).is_err());
}

#[test]
fn err_add_path() -> Result<(), MerkleError> {
    let path33 = MerklePath::new(vec![int_to_node(1), int_to_node(2), int_to_node(3)]);
    let path22 = MerklePath::new(vec![int_to_node(4), int_to_node(5)]);
    let mut pmt = PartialMerkleTree::new();
    pmt.add_path(3, int_to_node(6), path33)?;
    assert!(pmt.add_path(2, int_to_node(7), path22).is_err());
    Ok(())
}

#[test]
fn err_get_node() -> Result<(), MerkleError> {
    let mt = tree8();
    let expected_root = mt.root();
    let ms = MerkleStore::from_tree(&mt);
    let path33 = ms.get_path(expected_root, node(3, 3))?;
    let pmt = PartialMerkleTree::with_paths(&vec![(3, path33.value, path33.path)])?;
    assert!(pmt.get_node(node(2, 2)).is_err());
    assert!(pmt.get_node(node(2, 3)).is_err());
    assert!(pmt.get_node(node(3, 0)).is_err());
    assert!(pmt.get_node(node(3, 1)).is_err());
    Ok(())
}

#[test]
fn err_get_path() -> Result<(), MerkleError> {
    let mt = tree8();
    let expected_root = mt.root();
    let ms = MerkleStore::from_tree(&mt);
    let path33 = ms.get_path(expected_root, node(3, 3))?;
    let pmt = PartialMerkleTree::with_paths(&vec![(3, path33.value, path33.path)])?;
    assert!(pmt.get_path(node(2, 2)).is_err());
    assert!(pmt.get_path(node(2, 3)).is_err());
    assert!(pmt.get_path(node(3, 0)).is_err());
    assert!(pmt.get_path(node(3, 1)).is_err());
    Ok(())
}

#[test]
fn mod_update_leaf() -> Result<(), MerkleError> {
    let values8: Vec<RpoDigest> = (1..=8).map(int_to_node).collect();
    let words8: Vec<[Felt; 4]> = values8.iter().map(|d| d.to_felts()).collect();
    let mt = MerkleTree::new(&words8)?;
    let root = mt.root();

    let mut ms = MerkleStore::from_tree(&mt);
    let path33 = ms.get_path(root, NodeIndex::new_unchecked(3, 3))?;

    let mut pmt = PartialMerkleTree::with_paths(&vec![(3, path33.value, path33.path)])?;

    let new_value32 = int_to_node(132);
    let expected_root = ms.set_node(root, NodeIndex::new_unchecked(3, 2), new_value32)?.root;
    pmt.update_leaf(2, new_value32.to_felts())?;
    assert_eq!(pmt.root(), expected_root);

    let new_value20 = int_to_node(120);
    let expected_root = ms.set_node(expected_root, NodeIndex::new_unchecked(2, 0), new_value20)?.root;
    pmt.update_leaf(0, new_value20.to_felts())?;
    assert_eq!(pmt.root(), expected_root);

    let new_value11 = int_to_node(111);
    let expected_root = ms.set_node(expected_root, NodeIndex::new_unchecked(1, 1), new_value11)?.root;
    pmt.update_leaf(6, new_value11.to_felts())?;
    assert_eq!(pmt.root(), expected_root);

    Ok(())
}

#[test]
fn err_update_leaf() -> Result<(), MerkleError> {
    let values8: Vec<RpoDigest> = (1..=8).map(int_to_node).collect();
    let words8: Vec<[Felt; 4]> = values8.iter().map(|d| d.to_felts()).collect();
    let mt = MerkleTree::new(&words8)?;
    let expected_root = mt.root();
    let ms = MerkleStore::from_tree(&mt);
    let path33 = ms.get_path(expected_root, NodeIndex::new_unchecked(3, 3))?;
    let mut pmt = PartialMerkleTree::with_paths(&vec![(3, path33.value, path33.path)])?;
    assert!(pmt.update_leaf(8, int_to_node(38).to_felts()).is_err());
    Ok(())
}
