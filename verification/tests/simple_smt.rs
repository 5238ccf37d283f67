use midencrypto::felt::Felt;
use midencrypto::merkle::empty_roots::EmptySubtreeRoots;
use midencrypto::merkle::index::NodeIndex;
use midencrypto::merkle::simple_smt::SimpleSmt;
use midencrypto::merkle::smt::{InnerNode, LeafIndex, NodeMutation};
use midencrypto::utils::bytes::{DeserializationError, SliceReader};
use midencrypto::merkle::store::MerkleStore;
use midencrypto::merkle::tree::MerkleTree;
use midencrypto::merkle::{InnerNodeInfo, MerkleError};
use midencrypto::rescue::digest::RpoDigest;
use midencrypto::rescue::rpo::Rpo256;

fn int_to_node(value: u64) -> RpoDigest {
    RpoDigest::new([Felt::new(value), Felt::zero(), Felt::zero(), Felt::zero()])
}

fn int_to_leaf(value: u64) -> [Felt; 4] {
    [Felt::new(value), Felt::zero(), Felt::zero(), Felt::zero()]
}

fn empty_word() -> [Felt; 4] {
    [Felt::zero(); 4]
}

fn values(n: u64) -> Vec<RpoDigest> {
    (1..=n).map(int_to_node).collect()
}

fn words(values: &[RpoDigest]) -> Vec<[Felt; 4]> {
    values.iter().map(|d| d.to_felts()).collect()
}

fn merge(a: RpoDigest, b: RpoDigest) -> RpoDigest {
    Rpo256::merge(&[a, b])
}

fn word(d: RpoDigest) -> [Felt; 4] {
    d.to_felts()
}

/// The words a, b, c, d of the small trees below.
fn abcd() -> ([Felt; 4], [Felt; 4], [Felt; 4], [Felt; 4]) {
    let z = RpoDigest::new(empty_word());
    let a = merge(z, z);
    let b = merge(a, a);
    let c = merge(b, b);
    let d = merge(c, c);
    (word(a), word(b), word(c), word(d))
}

fn pairs(keys: &[u64], vals: &[[Felt; 4]]) -> Vec<(u64, [Felt; 4])> {
    keys.iter().copied().zip(vals.iter().copied()).collect()
}

#[test]
fn build_empty_tree() -> Result<(), MerkleError> {
    let smt = SimpleSmt::<3>::new()?;
    let mt = MerkleTree::new(&vec![empty_word(); 8])?;
    assert_eq!(mt.root(), smt.root());
    Ok(())
}

#[test]
fn build_sparse_tree() -> Result<(), MerkleError> {
    const DEPTH: u8 = 3;
    let mut smt = SimpleSmt::<DEPTH>::new()?;
    let mut values = vec![empty_word(); 8];

    assert_eq!(smt.num_leaves(), 0);

    let key = 6;
    let new_node = int_to_leaf(7);
    values[key as usize] = new_node;
    let old_value = smt.insert(LeafIndex::<DEPTH>::new(key)?, new_node);
    let mt2 = MerkleTree::new(&values)?;
    assert_eq!(mt2.root(), smt.root());
    assert_eq!(
        mt2.get_path(NodeIndex::new(3, 6)?)?.to_vec(),
        smt.open(&LeafIndex::<3>::new(6)?).path.to_vec()
    );
    assert_eq!(old_value, empty_word());
    assert_eq!(smt.num_leaves(), 1);

    let key = 2;
    let new_node = int_to_leaf(3);
    values[key as usize] = new_node;
    let old_value = smt.insert(LeafIndex::new(key)?, new_node);
    let mt3 = MerkleTree::new(&values)?;
    assert_eq!(mt3.root(), smt.root());
    assert_eq!(
        mt3.get_path(NodeIndex::new(3, 2)?)?.to_vec(),
        smt.open(&LeafIndex::new(2)?).path.to_vec()
    );
    assert_eq!(old_value, empty_word());
    assert_eq!(smt.num_leaves(), 2);

    Ok(())
}

#[test]
fn build_contiguous_tree() -> Result<(), MerkleError> {
    let vals = words(&values(4));
    let tree_with_leaves = SimpleSmt::<2>::with_leaves(&pairs(&[0, 1, 2, 3], &vals))?;
    let tree_with_contiguous_leaves = SimpleSmt::<2>::with_contiguous_leaves(&vals)?;
    assert_eq!(tree_with_leaves.root(), tree_with_contiguous_leaves.root());
    assert_eq!(tree_with_leaves.leaves(), tree_with_contiguous_leaves.leaves());
    assert_eq!(tree_with_leaves.inner_nodes(), tree_with_contiguous_leaves.inner_nodes());
    Ok(())
}

#[test]
fn depth2_tree() -> Result<(), MerkleError> {
    let v = values(4);
    let tree = SimpleSmt::<2>::with_leaves(&pairs(&[0, 1, 2, 3], &words(&v)))?;

    let node2 = merge(v[0], v[1]);
    let node3 = merge(v[2], v[3]);
    let root = merge(node2, node3);
    assert_eq!(root, tree.root());
    assert_eq!(node2, tree.get_node(NodeIndex::new(1, 0)?)?);
    assert_eq!(node3, tree.get_node(NodeIndex::new(1, 1)?)?);

    assert_eq!(v[0], tree.get_node(NodeIndex::new(2, 0)?)?);
    assert_eq!(v[1], tree.get_node(NodeIndex::new(2, 1)?)?);
    assert_eq!(v[2], tree.get_node(NodeIndex::new(2, 2)?)?);
    assert_eq!(v[3], tree.get_node(NodeIndex::new(2, 3)?)?);

    assert_eq!(vec![v[1], node3], tree.open(&LeafIndex::new(0)?).path.to_vec());
    assert_eq!(vec![v[0], node3], tree.open(&LeafIndex::new(1)?).path.to_vec());
    assert_eq!(vec![v[3], node2], tree.open(&LeafIndex::new(2)?).path.to_vec());
    assert_eq!(vec![v[2], node2], tree.open(&LeafIndex::new(3)?).path.to_vec());

    Ok(())
}

#[test]
fn mod_inner_node_iterator() -> Result<(), MerkleError> {
    let v = values(4);
    let tree = SimpleSmt::<2>::with_leaves(&pairs(&[0, 1, 2, 3], &words(&v)))?;

    assert_eq!(v[0], tree.get_node(NodeIndex::new(2, 0)?)?);
    assert_eq!(v[1], tree.get_node(NodeIndex::new(2, 1)?)?);
    assert_eq!(v[2], tree.get_node(NodeIndex::new(2, 2)?)?);
    assert_eq!(v[3], tree.get_node(NodeIndex::new(2, 3)?)?);

    let root = tree.root();
    let l1n0 = tree.get_node(NodeIndex::new(1, 0)?)?;
    let l1n1 = tree.get_node(NodeIndex::new(1, 1)?)?;
    let l2n0 = tree.get_node(NodeIndex::new(2, 0)?)?;
    let l2n1 = tree.get_node(NodeIndex::new(2, 1)?)?;
    let l2n2 = tree.get_node(NodeIndex::new(2, 2)?)?;
    let l2n3 = tree.get_node(NodeIndex::new(2, 3)?)?;

    let nodes = tree.inner_nodes();
    let expected = vec![
        InnerNodeInfo { value: root, left: l1n0, right: l1n1 },
        InnerNodeInfo { value: l1n0, left: l2n0, right: l2n1 },
        InnerNodeInfo { value: l1n1, left: l2n2, right: l2n3 },
    ];
    assert_eq!(nodes, expected);

    Ok(())
}

#[test]
fn insert() -> Result<(), MerkleError> {
    const DEPTH: u8 = 3;
    let v = values(8);
    let mut tree = SimpleSmt::<DEPTH>::with_leaves(&pairs(&[0, 1, 2, 3, 4, 5, 6, 7], &words(&v)))?;
    assert_eq!(tree.num_leaves(), 8);

    let key = 3;
    let new_node = int_to_leaf(9);
    let mut expected_values = words(&v);
    expected_values[key] = new_node;
    let expected_tree = MerkleTree::new(&expected_values)?;

    let old_leaf = tree.insert(LeafIndex::new(key as u64)?, new_node);
    assert_eq!(tree.root(), expected_tree.root());
    assert_eq!(old_leaf, v[key].to_felts());
    assert_eq!(tree.num_leaves(), 8);

    let key = 6;
    let new_node = int_to_leaf(10);
    expected_values[key] = new_node;
    let expected_tree = MerkleTree::new(&expected_values)?;

    let old_leaf = tree.insert(LeafIndex::new(key as u64)?, new_node);
    assert_eq!(tree.root(), expected_tree.root());
    assert_eq!(old_leaf, v[key].to_felts());
    assert_eq!(tree.num_leaves(), 8);

    let key = 5;
    let new_node = empty_word();
    expected_values[key] = new_node;
    let expected_tree = MerkleTree::new(&expected_values)?;

    let old_leaf = tree.insert(LeafIndex::new(key as u64)?, new_node);
    assert_eq!(tree.root(), expected_tree.root());
    assert_eq!(old_leaf, v[key].to_felts());
    assert_eq!(tree.num_leaves(), 7);

    Ok(())
}

#[test]
fn small_tree_opening_is_consistent() -> Result<(), MerkleError> {
    let z = RpoDigest::new(empty_word());
    let (a, b, c, d) = abcd();
    let (ad, bd, cd, dd) = (RpoDigest::new(a), RpoDigest::new(b), RpoDigest::new(c), RpoDigest::new(d));

    let e = merge(ad, bd);
    let f = merge(z, z);
    let g = merge(cd, z);
    let h = merge(z, dd);

    let i = merge(e, f);
    let j = merge(g, h);

    let k = merge(i, j);

    let tree = SimpleSmt::<3>::with_leaves(&pairs(&[0, 1, 4, 7], &[a, b, c, d]))?;

    assert_eq!(tree.root(), k);

    let cases = [
        (0, vec![bd, f, j]),
        (1, vec![ad, f, j]),
        (4, vec![z, h, i]),
        (7, vec![z, g, i]),
    ];

    for (key, path) in cases {
        let opening = tree.open(&LeafIndex::new(key)?);
        assert_eq!(opening.path.to_vec(), path);
    }

    Ok(())
}

#[test]
fn simple_smt_fail_on_duplicates() {
    let values = [
        (int_to_leaf(1), int_to_leaf(1)),
        (int_to_leaf(1), int_to_leaf(2)),
        (empty_word(), int_to_leaf(1)),
        (int_to_leaf(1), empty_word()),
        (empty_word(), empty_word()),
    ];

    for (first, second) in values.iter().copied() {
        let entries = [(1, first), (1, second)];
        let smt = SimpleSmt::<64>::with_leaves(&entries);
        assert!(matches!(smt, Err(MerkleError::DuplicateValuesForIndex(1))));

        let entries = [(1, first), (5, int_to_leaf(5)), (1, second)];
        let smt = SimpleSmt::<64>::with_leaves(&entries);
        assert!(matches!(smt, Err(MerkleError::DuplicateValuesForIndex(1))));
    }
}

#[test]
fn with_no_duplicates_empty_node() {
    let entries = [(1, int_to_leaf(0)), (5, int_to_leaf(2))];
    let smt = SimpleSmt::<64>::with_leaves(&entries);
    assert!(smt.is_ok());
}

#[test]
fn simple_smt_with_leaves_nonexisting_leaf() {
    let leaves = [(2, empty_word())];
    let result = SimpleSmt::<1>::with_leaves(&leaves);
    assert!(result.is_err());

    let leaves = [(4, empty_word())];
    let result = SimpleSmt::<2>::with_leaves(&leaves);
    assert!(result.is_err());

    let leaves = [(8, empty_word())];
    let result = SimpleSmt::<3>::with_leaves(&leaves);
    assert!(result.is_err());

    let value = int_to_node(1).to_felts();

    let leaves = [(2, value)];
    let result = SimpleSmt::<1>::with_leaves(&leaves);
    assert!(result.is_err());

    let leaves = [(4, value)];
    let result = SimpleSmt::<2>::with_leaves(&leaves);
    assert!(result.is_err());

    let leaves = [(8, value)];
    let result = SimpleSmt::<3>::with_leaves(&leaves);
    assert!(result.is_err());
}

#[test]
fn simple_smt_set_subtree() -> Result<(), MerkleError> {
    const TREE_DEPTH: u8 = 3;
    let z = RpoDigest::new(empty_word());
    let (a, b, c, d) = abcd();
    let (ad, bd, cd, dd) = (RpoDigest::new(a), RpoDigest::new(b), RpoDigest::new(c), RpoDigest::new(d));

    let e = merge(ad, bd);
    let f = merge(z, z);
    let g = merge(cd, z);
    let h = merge(z, dd);

    let i = merge(e, f);
    let j = merge(g, h);

    let k = merge(i, j);

    let subtree = SimpleSmt::<1>::with_leaves(&[(0, c)])?;

    let tree = {
        let mut tree = SimpleSmt::<TREE_DEPTH>::with_leaves(&pairs(&[0, 1, 7], &[a, b, d]))?;
        tree.set_subtree(2, subtree)?;
        tree
    };

    assert_eq!(tree.root(), k);
    assert_eq!(tree.get_leaf(&LeafIndex::new(4)?), c);
    assert_eq!(tree.get_inner_node(NodeIndex::new_unchecked(2, 2)).hash(), g);

    Ok(())
}

#[test]
fn simple_smt_set_subtree_unchanged_for_wrong_index() -> Result<(), MerkleError> {
    let (a, b, c, d) = abcd();

    let subtree = SimpleSmt::<1>::with_leaves(&[(0, c)])?;

    let mut tree = SimpleSmt::<3>::with_leaves(&pairs(&[0, 1, 7], &[a, b, d]))?;

    let tree_root_before_insertion = tree.root();

    assert!(tree.set_subtree(500, subtree).is_err());

    assert_eq!(tree.root(), tree_root_before_insertion);

    Ok(())
}

#[test]
fn simple_smt_set_subtree_entire_tree() -> Result<(), MerkleError> {
    const DEPTH: u8 = 3;
    let (a, b, c, d) = abcd();

    let subtree = SimpleSmt::<DEPTH>::with_leaves(&[])?;
    assert_eq!(subtree.root(), EmptySubtreeRoots::entry(DEPTH, 0));

    let mut tree = SimpleSmt::<DEPTH>::with_leaves(&pairs(&[0, 1, 4, 7], &[a, b, c, d]))?;

    tree.set_subtree(0, subtree)?;

    assert_eq!(tree.root(), EmptySubtreeRoots::entry(DEPTH, 0));

    Ok(())
}

#[test]
fn simple_smt_check_empty_root_constant() {
    let empty_root_64_depth = EmptySubtreeRoots::empty_hashes(64)[0];
    assert_eq!(empty_root_64_depth, SimpleSmt::<64>::empty_root());

    let empty_root_32_depth = EmptySubtreeRoots::empty_hashes(32)[0];
    assert_eq!(empty_root_32_depth, SimpleSmt::<32>::empty_root());

    let empty_root_1_depth = EmptySubtreeRoots::empty_hashes(1)[0];
    assert_eq!(empty_root_1_depth, SimpleSmt::<1>::empty_root());
}

#[test]
fn depth_limits_are_checked() {
    assert!(matches!(SimpleSmt::<0>::new(), Err(MerkleError::DepthTooSmall(0))));
    assert!(matches!(SimpleSmt::<65>::new(), Err(MerkleError::DepthTooBig(65))));
    assert!(SimpleSmt::<64>::new().is_ok());
}

#[test]
fn too_many_entries_are_refused() {
    let entries = [(0, int_to_leaf(1)), (1, int_to_leaf(2)), (0, int_to_leaf(3))];
    assert!(matches!(SimpleSmt::<1>::with_leaves(&entries), Err(MerkleError::TooManyEntries(2))));
}

#[test]
fn get_node_errors() -> Result<(), MerkleError> {
    let tree = SimpleSmt::<2>::new()?;
    assert!(matches!(tree.get_node(NodeIndex::root()), Err(MerkleError::DepthTooSmall(0))));
    assert!(matches!(tree.get_node(NodeIndex::new(3, 0)?), Err(MerkleError::DepthTooBig(3))));
    assert!(matches!(
        tree.get_node(NodeIndex::new_unchecked(2, 4)),
        Err(MerkleError::InvalidNodeIndex { depth: 2, value: 4 })
    ));
    assert_eq!(tree.get_node(NodeIndex::new(1, 1)?)?, EmptySubtreeRoots::entry(2, 1));
    Ok(())
}

#[test]
fn opening_leads_to_root() -> Result<(), MerkleError> {
    let v = values(5);
    let tree = SimpleSmt::<4>::with_leaves(&pairs(&[0, 3, 7, 8, 15], &words(&v)))?;
    for key in [0u64, 3, 5, 8, 15] {
        let opening = tree.open(&LeafIndex::new(key)?);
        assert_eq!(opening.path.compute_root(key, opening.value)?, tree.root());
    }
    Ok(())
}

#[test]
fn computed_mutations_match_inserts() -> Result<(), MerkleError> {
    let v = values(4);
    let base = SimpleSmt::<3>::with_leaves(&pairs(&[0, 2, 5, 7], &words(&v)))?;
    let updates = vec![
        (LeafIndex::<3>::new(1)?, int_to_leaf(11)),
        (LeafIndex::<3>::new(5)?, empty_word()),
        (LeafIndex::<3>::new(2)?, v[1].to_felts()),
        (LeafIndex::<3>::new(1)?, int_to_leaf(12)),
    ];
    let mut by_insert = base.clone();
    for (k, w) in updates.iter() {
        by_insert.insert(*k, *w);
    }
    let mutations = base.compute_mutations(&updates);
    assert_eq!(mutations.old_root(), base.root());
    assert_eq!(mutations.root(), by_insert.root());
    assert_eq!(mutations.new_pairs().len(), 2);

    let mut applied = base.clone();
    let reversion = applied.apply_mutations_with_reversion(mutations)?;
    assert_eq!(applied.root(), by_insert.root());
    assert_eq!(applied.leaves(), by_insert.leaves());
    assert_eq!(reversion.root(), base.root());

    applied.apply_mutations(reversion)?;
    assert_eq!(applied.root(), base.root());
    assert_eq!(applied.leaves(), base.leaves());
    assert_eq!(applied.inner_nodes(), base.inner_nodes());
    Ok(())
}

#[test]
fn mutations_for_another_root_are_refused() -> Result<(), MerkleError> {
    let v = values(2);
    let base = SimpleSmt::<2>::with_leaves(&pairs(&[0, 3], &words(&v)))?;
    let mut other = SimpleSmt::<2>::new()?;
    let mutations = base.compute_mutations(&[(LeafIndex::<2>::new(1)?, int_to_leaf(5))]);
    let before = other.root();
    assert!(matches!(other.apply_mutations(mutations), Err(MerkleError::ConflictingRoots { .. })));
    assert_eq!(other.root(), before);
    Ok(())
}

#[test]
fn store_from_smt_opens_leaves() -> Result<(), MerkleError> {
    let v = values(3);
    let tree = SimpleSmt::<3>::with_leaves(&pairs(&[1, 4, 6], &words(&v)))?;
    let store = MerkleStore::from_smt(&tree);
    assert_eq!(store.get_node(tree.root(), NodeIndex::new(3, 4)?)?, v[1]);
    assert_eq!(store.get_node(tree.root(), NodeIndex::new(3, 0)?)?, RpoDigest::new(empty_word()));
    assert_eq!(store.get_node(tree.root(), NodeIndex::new(1, 1)?)?, tree.get_node(NodeIndex::new(1, 1)?)?);

    let mut grown = MerkleStore::new();
    grown.extend(&tree.inner_nodes());
    assert_eq!(grown.get_node(tree.root(), NodeIndex::new(3, 6)?)?, v[2]);
    let from_infos = MerkleStore::from_inner_nodes(&tree.inner_nodes());
    assert_eq!(from_infos.num_internal_nodes(), store.num_internal_nodes());
    Ok(())
}

#[test]
fn inner_node_and_mutation_encoding() {
    let node = InnerNode { left: int_to_node(3), right: int_to_node(4) };
    let mut bytes = Vec::new();
    node.write_into(&mut bytes);
    assert_eq!(bytes.len(), 64);
    let mut reader = SliceReader::new(&bytes);
    assert_eq!(InnerNode::read_from(&mut reader).unwrap(), node);

    let mut bytes = Vec::new();
    NodeMutation::Addition(node).write_into(&mut bytes);
    NodeMutation::Removal.write_into(&mut bytes);
    assert_eq!(bytes.len(), 66);
    let mut reader = SliceReader::new(&bytes);
    assert_eq!(NodeMutation::read_from(&mut reader).unwrap(), NodeMutation::Addition(node));
    assert_eq!(NodeMutation::read_from(&mut reader).unwrap(), NodeMutation::Removal);
    assert!(matches!(NodeMutation::read_from(&mut reader), Err(DeserializationError::UnexpectedEOF)));

    let bad = [2u8];
    let mut reader = SliceReader::new(&bad);
    assert!(matches!(NodeMutation::read_from(&mut reader), Err(DeserializationError::InvalidValue(_))));

    let short = [1u8, 0, 0];
    let mut reader = SliceReader::new(&short);
    assert!(matches!(NodeMutation::read_from(&mut reader), Err(DeserializationError::UnexpectedEOF)));
}

#[test]
fn leaf_index_from_node_index() -> Result<(), MerkleError> {
    assert_eq!(LeafIndex::<3>::try_from(NodeIndex::new(3, 5)?)?.value(), 5);
    assert!(matches!(
        LeafIndex::<3>::try_from(NodeIndex::new(2, 1)?),
        Err(MerkleError::InvalidNodeIndexDepth { expected: 3, provided: 2 })
    ));
    assert!(matches!(
        LeafIndex::<3>::try_from(NodeIndex::new_unchecked(3, 8)),
        Err(MerkleError::InvalidNodeIndex { depth: 3, value: 8 })
    ));
    Ok(())
}
