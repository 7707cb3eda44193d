use disarm64_gen::indexing::DecisionTreeIndexing;
use disarm64_gen::{build_decision_tree, DecisionTree, DecisionTreeNode, Encoding, LeafNode};

fn enc(opcode: u32, mask: u32) -> Encoding {
    Encoding { opcode, mask }
}

fn leaf_insns(t: &DecisionTree) -> Vec<LeafNode> {
    match t.as_deref() {
        Some(DecisionTreeNode::Leaf { insns, .. }) => insns.clone(),
        _ => panic!("expected a leaf"),
    }
}

fn index_of(t: &DecisionTree) -> Option<usize> {
    match t.as_deref() {
        Some(DecisionTreeNode::Leaf { index, .. }) => *index,
        Some(DecisionTreeNode::Branch { index, .. }) => *index,
        None => None,
    }
}

fn children(t: &DecisionTree) -> (&DecisionTree, &DecisionTree) {
    match t.as_deref() {
        Some(DecisionTreeNode::Branch { zero, one, .. }) => (zero, one),
        _ => panic!("expected a branch"),
    }
}

fn collect(t: &DecisionTree, indices: &mut Vec<Option<usize>>, insns: &mut Vec<usize>) {
    match t.as_deref() {
        None => {}
        Some(DecisionTreeNode::Leaf { index, insns: l }) => {
            indices.push(*index);
            insns.extend(l.iter().map(|n| n.insn));
        }
        Some(DecisionTreeNode::Branch { index, zero, one, .. }) => {
            indices.push(*index);
            assert!(zero.is_some() && one.is_some());
            collect(zero, indices, insns);
            collect(one, indices, insns);
        }
    }
}

fn scenario() -> Vec<Encoding> {
    vec![enc(0b1010, 0b1111), enc(0b1011, 0b1111), enc(0b0010, 0b0011)]
}

fn four_way() -> Vec<Encoding> {
    vec![enc(0b00, 0b11), enc(0b01, 0b11), enc(0b10, 0b11), enc(0b11, 0b11)]
}

#[test]
fn worked_scenario_shape() {
    let t = build_decision_tree(&scenario(), DecisionTreeIndexing::NoIndexing);
    match t.as_deref() {
        Some(DecisionTreeNode::Branch { decision_bit, .. }) => assert_eq!(*decision_bit, 0),
        _ => panic!("expected a branch at the root"),
    }
    let (zero, one) = children(&t);
    assert_eq!(
        leaf_insns(zero),
        vec![LeafNode { mask: 0b1100, insn: 0 }, LeafNode { mask: 0, insn: 2 }]
    );
    assert_eq!(leaf_insns(one), vec![LeafNode { mask: 0b1110, insn: 1 }]);
    assert_eq!(index_of(&t), None);
    assert_eq!(index_of(zero), None);
}

#[test]
fn empty_input_gives_empty_tree() {
    let t = build_decision_tree(&[], DecisionTreeIndexing::DFS);
    assert!(t.is_none());
}

#[test]
fn single_rule_gives_leaf() {
    let t = build_decision_tree(&[enc(0x8000_0001, 0xf000_000f)], DecisionTreeIndexing::NoIndexing);
    assert_eq!(leaf_insns(&t), vec![LeafNode { mask: 0xf000_000f, insn: 0 }]);
}

#[test]
fn identical_rules_share_a_leaf_in_input_order() {
    let rules = vec![enc(0b101, 0b111), enc(0b101, 0b111)];
    let t = build_decision_tree(&rules, DecisionTreeIndexing::NoIndexing);
    assert_eq!(
        leaf_insns(&t),
        vec![LeafNode { mask: 0, insn: 0 }, LeafNode { mask: 0, insn: 1 }]
    );
}

#[test]
fn narrow_pattern_comes_before_broad_one() {
    // The broad rule comes first in the input; the narrow one must be tried first.
    let rules = vec![enc(0b0001, 0b0001), enc(0b1001, 0b1001)];
    let t = build_decision_tree(&rules, DecisionTreeIndexing::NoIndexing);
    assert_eq!(
        leaf_insns(&t),
        vec![LeafNode { mask: 0b1000, insn: 1 }, LeafNode { mask: 0, insn: 0 }]
    );
}

#[test]
fn depth_first_indexing() {
    let t = build_decision_tree(&four_way(), DecisionTreeIndexing::DFS);
    let mut indices = Vec::new();
    let mut insns = Vec::new();
    collect(&t, &mut indices, &mut insns);
    let expected: Vec<Option<usize>> = (0..7).map(Some).collect();
    assert_eq!(indices, expected);
    assert_eq!(insns, vec![0, 2, 1, 3]);
}

#[test]
fn breadth_first_indexing() {
    let t = build_decision_tree(&four_way(), DecisionTreeIndexing::BFS);
    let mut indices = Vec::new();
    let mut insns = Vec::new();
    collect(&t, &mut indices, &mut insns);
    // Preorder listing of level-order numbers.
    let expected: Vec<Option<usize>> = vec![0, 1, 3, 4, 2, 5, 6].into_iter().map(Some).collect();
    assert_eq!(indices, expected);
}

#[test]
fn scenario_indexing_both_orders() {
    let dfs = build_decision_tree(&scenario(), DecisionTreeIndexing::DFS);
    let (z, o) = children(&dfs);
    assert_eq!((index_of(&dfs), index_of(z), index_of(o)), (Some(0), Some(1), Some(2)));
    let bfs = build_decision_tree(&scenario(), DecisionTreeIndexing::BFS);
    let (z, o) = children(&bfs);
    assert_eq!((index_of(&bfs), index_of(z), index_of(o)), (Some(0), Some(1), Some(2)));
}

#[test]
fn every_rule_in_exactly_one_leaf() {
    let rules = vec![
        enc(0xd503_201f, 0xffff_ffff),
        enc(0x1100_0000, 0x7f80_0000),
        enc(0x9100_0000, 0xff80_0000),
        enc(0x1400_0000, 0xfc00_0000),
        enc(0x9400_0000, 0xfc00_0000),
        enc(0xd65f_0000, 0xffff_fc1f),
        enc(0xd65f_03c0, 0xffff_ffff),
    ];
    for indexing in [DecisionTreeIndexing::NoIndexing, DecisionTreeIndexing::DFS, DecisionTreeIndexing::BFS] {
        let t = build_decision_tree(&rules, indexing);
        let mut indices = Vec::new();
        let mut insns = Vec::new();
        collect(&t, &mut indices, &mut insns);
        insns.sort();
        assert_eq!(insns, (0..rules.len()).collect::<Vec<_>>());
        if !matches!(indexing, DecisionTreeIndexing::NoIndexing) {
            let mut numbers: Vec<usize> = indices.iter().map(|i| i.unwrap()).collect();
            numbers.sort();
            assert_eq!(numbers, (0..indices.len()).collect::<Vec<_>>());
        }
    }
}

#[test]
fn same_input_same_tree() {
    let a = build_decision_tree(&scenario(), DecisionTreeIndexing::BFS);
    let b = build_decision_tree(&scenario(), DecisionTreeIndexing::BFS);
    assert_eq!(format!("{:?}", a), format!("{:?}", b));
}

fn check_masks(rules: &[Encoding], t: &DecisionTree, path: u32, exact: bool) {
    match t.as_deref() {
        None => {}
        Some(DecisionTreeNode::Leaf { insns, .. }) => {
            for n in insns {
                let original = rules[n.insn].mask;
                assert_eq!(n.mask & path, 0);
                assert_eq!((n.mask | path) & !original, 0);
                if exact {
                    assert_eq!(n.mask | path, original);
                }
            }
        }
        Some(DecisionTreeNode::Branch { decision_bit, zero, one, .. }) => {
            let path = path | (1u32 << decision_bit);
            check_masks(rules, zero, path, exact);
            check_masks(rules, one, path, exact);
        }
    }
}

fn depth(t: &DecisionTree) -> usize {
    match t.as_deref() {
        None => 0,
        Some(DecisionTreeNode::Leaf { .. }) => 1,
        Some(DecisionTreeNode::Branch { zero, one, .. }) => 1 + depth(zero).max(depth(one)),
    }
}

#[test]
fn masks_exact_when_every_bit_splits() {
    let rules = four_way();
    let t = build_decision_tree(&rules, DecisionTreeIndexing::NoIndexing);
    check_masks(&rules, &t, 0, true);
}

#[test]
fn masks_within_after_a_retry() {
    // Rule 0 loses bit 1 without a branch testing it.
    let rules = scenario();
    let t = build_decision_tree(&rules, DecisionTreeIndexing::NoIndexing);
    check_masks(&rules, &t, 0, false);
    let (zero, _) = children(&t);
    let first = leaf_insns(zero)[0];
    assert_ne!(first.mask | 1, rules[0].mask);
}

#[test]
fn every_bit_distinct_rules_bounded_size() {
    let rules: Vec<Encoding> = (0..32).map(|b| enc(1u32 << b, 0xffff_ffff)).collect();
    let t = build_decision_tree(&rules, DecisionTreeIndexing::BFS);
    let mut indices = Vec::new();
    let mut insns = Vec::new();
    collect(&t, &mut indices, &mut insns);
    assert_eq!(insns.len(), 32);
    assert!(indices.len() <= 2 * rules.len() - 1);
    assert!(depth(&t) <= 33);
    check_masks(&rules, &t, 0, false);
}
