//! Numbering the nodes of a finished tree, depth-first or level by level.

use vstd::prelude::*;
use crate::tree::{DecisionTree, DecisionTreeNode, SpecTree, node_count, view_tree};

verus! {

/// The traversal order used to number the nodes of a tree.
#[derive(Clone, Copy, Debug, PartialEq, Eq)]
pub enum DecisionTreeIndexing {
    /// No numbering.
    NoIndexing,
    /// Preorder, the zero subtree before the one subtree.
    DFS,
    /// Level order, each level from the zero side to the one side.
    BFS,
}

/// The tree with every index removed: its shape, decision bits and leaves.
pub open spec fn strip(t: SpecTree) -> SpecTree
    decreases t,
{
    match t {
        SpecTree::Empty => SpecTree::Empty,
        SpecTree::Leaf { insns, .. } => SpecTree::Leaf { index: None, insns },
        SpecTree::Branch { bit, zero, one, .. } => SpecTree::Branch {
            index: None,
            bit,
            zero: Box::new(strip(*zero)),
            one: Box::new(strip(*one)),
        },
    }
}

/// The index of a node, if it is one.
pub open spec fn root_index(t: SpecTree) -> Seq<Option<usize>> {
    match t {
        SpecTree::Empty => Seq::empty(),
        SpecTree::Leaf { index, .. } => seq![index],
        SpecTree::Branch { index, .. } => seq![index],
    }
}

/// The indices of all nodes in preorder, zero subtree first.
pub open spec fn preorder(t: SpecTree) -> Seq<Option<usize>>
    decreases t,
{
    match t {
        SpecTree::Branch { index, zero, one, .. } => seq![index] + preorder(*zero) + preorder(
            *one,
        ),
        _ => root_index(t),
    }
}

/// The number of levels.
pub open spec fn height(t: SpecTree) -> nat
    decreases t,
{
    match t {
        SpecTree::Empty => 0,
        SpecTree::Leaf { .. } => 1,
        SpecTree::Branch { zero, one, .. } => {
            let a = height(*zero);
            let b = height(*one);
            1 + if a >= b {
                a
            } else {
                b
            }
        },
    }
}

/// The indices of the nodes at depth `d`, from the zero side to the one side.
pub open spec fn level(t: SpecTree, d: nat) -> Seq<Option<usize>>
    decreases t,
{
    match t {
        SpecTree::Branch { zero, one, .. } => if d == 0 {
            root_index(t)
        } else {
            level(*zero, (d - 1) as nat) + level(*one, (d - 1) as nat)
        },
        _ => if d == 0 {
            root_index(t)
        } else {
            Seq::empty()
        },
    }
}

/// The indices of the nodes at depths below `k`, level by level.
pub open spec fn levels_upto(t: SpecTree, k: nat) -> Seq<Option<usize>>
    decreases k,
{
    if k == 0 {
        Seq::empty()
    } else {
        levels_upto(t, (k - 1) as nat) + level(t, (k - 1) as nat)
    }
}

/// The indices of all nodes in level order.
pub open spec fn level_order(t: SpecTree) -> Seq<Option<usize>> {
    levels_upto(t, height(t))
}

/// `s` lists the indices `start`, `start + 1`, ... in turn.
pub open spec fn numbered_from(s: Seq<Option<usize>>, start: int) -> bool {
    forall|k: int| 0 <= k < s.len() ==> #[trigger] s[k] == Some((start + k) as usize)
}

pub proof fn lemma_preorder_len(t: SpecTree)
    ensures
        preorder(t).len() == node_count(t),
    decreases t,
{
    if let SpecTree::Branch { zero, one, .. } = t {
        lemma_preorder_len(*zero);
        lemma_preorder_len(*one);
    }
}

pub proof fn lemma_strip_counts(a: SpecTree, b: SpecTree)
    requires
        strip(a) == strip(b),
    ensures
        node_count(a) == node_count(b),
        height(a) == height(b),
        forall|d: nat| #[trigger] level(a, d).len() == level(b, d).len(),
    decreases a,
{
    match a {
        SpecTree::Branch { zero, one, .. } => {
            if let SpecTree::Branch { zero: z2, one: o2, .. } = b {
                assert(strip(*zero) == strip(*z2));
                assert(strip(*one) == strip(*o2));
                lemma_strip_counts(*zero, *z2);
                lemma_strip_counts(*one, *o2);
                assert forall|d: nat| #[trigger] level(a, d).len() == level(b, d).len() by {
                    if d > 0 {
                        assert(level(*zero, (d - 1) as nat).len() == level(*z2, (d - 1) as nat).len());
                        assert(level(*one, (d - 1) as nat).len() == level(*o2, (d - 1) as nat).len());
                    }
                }
            }
        },
        _ => {},
    }
}

fn number_preorder(t: DecisionTree, next: usize) -> (r: (DecisionTree, usize))
    requires
        next + node_count(view_tree(t)) <= usize::MAX,
    ensures
        strip(view_tree(r.0)) == strip(view_tree(t)),
        r.1 == next + node_count(view_tree(t)),
        numbered_from(preorder(view_tree(r.0)), next as int),
    decreases t,
{
    match t {
        None => (None, next),
        Some(b) => match *b {
            DecisionTreeNode::Leaf { insns, .. } => {
                (Some(Box::new(DecisionTreeNode::Leaf { index: Some(next), insns })), next + 1)
            },
            DecisionTreeNode::Branch { decision_bit, zero, one, .. } => {
                let (z, after_zero) = number_preorder(zero, next + 1);
                let (o, after_one) = number_preorder(one, after_zero);
                let r = Some(
                    Box::new(
                        DecisionTreeNode::Branch { index: Some(next), decision_bit, zero: z, one: o },
                    ),
                );
                proof {
                    lemma_strip_counts(view_tree(z), view_tree(zero));
                    lemma_preorder_len(view_tree(z));
                    let p = preorder(view_tree(r));
                    assert(p == seq![Some(next)] + preorder(view_tree(z)) + preorder(view_tree(o)));
                    assert forall|k: int| 0 <= k < p.len() implies #[trigger] p[k] == Some(
                        (next + k) as usize,
                    ) by {
                        if k >= 1 && k < 1 + preorder(view_tree(z)).len() {
                            assert(p[k] == preorder(view_tree(z))[k - 1]);
                        } else if k >= 1 {
                            assert(p[k] == preorder(view_tree(o))[k - 1 - preorder(
                                view_tree(z),
                            ).len()]);
                        }
                    }
                }
                (r, after_one)
            },
        },
    }
}

pub proof fn lemma_level_bounds(t: SpecTree, d: nat)
    ensures
        level(t, d).len() <= node_count(t),
        d >= height(t) ==> level(t, d).len() == 0,
        height(t) <= node_count(t),
    decreases t,
{
    if let SpecTree::Branch { zero, one, .. } = t {
        if d > 0 {
            lemma_level_bounds(*zero, (d - 1) as nat);
            lemma_level_bounds(*one, (d - 1) as nat);
        } else {
            lemma_level_bounds(*zero, 0);
            lemma_level_bounds(*one, 0);
        }
    }
}

proof fn lemma_levels_upto_branch(t: SpecTree, k: nat)
    requires
        t is Branch,
    ensures
        levels_upto(t, k + 1).len() == 1 + levels_upto(*t->zero, k).len() + levels_upto(
            *t->one,
            k,
        ).len(),
    decreases k,
{
    let z = *t->zero;
    let o = *t->one;
    if k > 0 {
        lemma_levels_upto_branch(t, (k - 1) as nat);
        assert(level(t, k) == level(z, (k - 1) as nat) + level(o, (k - 1) as nat));
        assert(levels_upto(z, k) == levels_upto(z, (k - 1) as nat) + level(z, (k - 1) as nat));
        assert(levels_upto(o, k) == levels_upto(o, (k - 1) as nat) + level(o, (k - 1) as nat));
        assert(levels_upto(t, k + 1) == levels_upto(t, k) + level(t, k));
    } else {
        assert(levels_upto(t, 1) == levels_upto(t, 0) + level(t, 0));
    }
}

pub proof fn lemma_levels_upto_len(t: SpecTree, k: nat)
    ensures
        levels_upto(t, k).len() <= node_count(t),
        k >= height(t) ==> levels_upto(t, k).len() == node_count(t),
    decreases t, k,
{
    if k > 0 {
        lemma_levels_upto_len(t, (k - 1) as nat);
        lemma_level_bounds(t, (k - 1) as nat);
        if let SpecTree::Branch { zero, one, .. } = t {
            lemma_levels_upto_branch(t, (k - 1) as nat);
            lemma_levels_upto_len(*zero, (k - 1) as nat);
            lemma_levels_upto_len(*one, (k - 1) as nat);
        } else {
            if k > 1 {
                lemma_level_bounds(t, (k - 2) as nat);
                lemma_levels_upto_len(t, (k - 1) as nat);
            }
        }
    }
}

fn tree_height(t: &DecisionTree) -> (r: usize)
    requires
        node_count(view_tree(*t)) <= usize::MAX,
    ensures
        r == height(view_tree(*t)),
    decreases t,
{
    proof {
        lemma_level_bounds(view_tree(*t), 0);
    }
    match t {
        None => 0,
        Some(b) => match &**b {
            DecisionTreeNode::Leaf { .. } => 1,
            DecisionTreeNode::Branch { zero, one, .. } => {
                let a = tree_height(zero);
                let c = tree_height(one);
                if a >= c {
                    a + 1
                } else {
                    c + 1
                }
            },
        },
    }
}

fn count_levels(t: &DecisionTree, d: usize, counts: &mut Vec<usize>)
    requires
        d + height(view_tree(*t)) <= old(counts).len(),
        forall|e: int| d <= e < old(counts).len() ==> #[trigger] old(counts)[e] + node_count(view_tree(*t)) <= usize::MAX,
    ensures
        final(counts).len() == old(counts).len(),
        forall|e: int| 0 <= e < d ==> #[trigger] final(counts)[e] == old(counts)[e],
        forall|e: int|
            d <= e < old(counts).len() ==> #[trigger] final(counts)[e] == old(counts)[e] + level(
                view_tree(*t),
                (e - d) as nat,
            ).len(),
    decreases t,
{
    let ghost v = view_tree(*t);
    match t {
        None => {},
        Some(b) => match &**b {
            DecisionTreeNode::Leaf { .. } => {
                let c = counts[d];
                counts.set(d, c + 1);
            },
            DecisionTreeNode::Branch { zero, one, .. } => {
                let ghost c0 = counts@;
                let c = counts[d];
                counts.set(d, c + 1);
                proof {
                    lemma_level_bounds(view_tree(*zero), 0);
                    assert forall|e: int| d + 1 <= e < counts.len() implies #[trigger] counts[e]
                        + node_count(view_tree(*zero)) <= usize::MAX by {
                        assert(counts[e] == c0[e]);
                    }
                }
                count_levels(zero, d + 1, counts);
                let ghost c1 = counts@;
                proof {
                    assert forall|e: int| d + 1 <= e < counts.len() implies #[trigger] counts[e]
                        + node_count(view_tree(*one)) <= usize::MAX by {
                        lemma_level_bounds(view_tree(*zero), (e - d - 1) as nat);
                        assert(counts[e] == c0[e] + level(view_tree(*zero), (e - (d + 1)) as nat).len());
                    }
                }
                count_levels(one, d + 1, counts);
                proof {
                    assert forall|e: int| d <= e < counts.len() implies #[trigger] counts[e]
                        == c0[e] + level(v, (e - d) as nat).len() by {
                        if e > d {
                            assert(level(v, (e - d) as nat) == level(view_tree(*zero), (e - (d + 1)) as nat)
                                + level(view_tree(*one), (e - (d + 1)) as nat));
                            assert(counts[e] == c1[e] + level(view_tree(*one), (e - (d + 1)) as nat).len());
                        }
                    }
                }
            },
        },
    }
}

fn number_levels(t: DecisionTree, d: usize, next: &mut Vec<usize>) -> (r: DecisionTree)
    requires
        d + height(view_tree(t)) <= old(next).len(),
        forall|e: int|
            d <= e < old(next).len() ==> #[trigger] old(next)[e] + level(
                view_tree(t),
                (e - d) as nat,
            ).len() <= usize::MAX,
    ensures
        strip(view_tree(r)) == strip(view_tree(t)),
        final(next).len() == old(next).len(),
        forall|e: int| 0 <= e < d ==> #[trigger] final(next)[e] == old(next)[e],
        forall|e: int|
            d <= e < old(next).len() ==> #[trigger] final(next)[e] == old(next)[e] + level(
                view_tree(t),
                (e - d) as nat,
            ).len(),
        forall|e: int|
            d <= e < old(next).len() ==> numbered_from(
                #[trigger] level(view_tree(r), (e - d) as nat),
                old(next)[e] as int,
            ),
    decreases t,
{
    let ghost v = view_tree(t);
    let ghost n0 = next@;
    match t {
        None => {
            let r: DecisionTree = None;
            assert forall|e: int| d <= e < next.len() implies numbered_from(
                #[trigger] level(view_tree(r), (e - d) as nat),
                n0[e] as int,
            ) by {
                assert(level(view_tree(r), (e - d) as nat) =~= Seq::empty());
            }
            r
        },
        Some(b) => match *b {
            DecisionTreeNode::Leaf { insns, .. } => {
                assert(level(v, 0).len() == 1);
                let i = next[d];
                next.set(d, i + 1);
                let r = Some(Box::new(DecisionTreeNode::Leaf { index: Some(i), insns }));
                assert forall|e: int| d <= e < next.len() implies numbered_from(
                    #[trigger] level(view_tree(r), (e - d) as nat),
                    n0[e] as int,
                ) by {
                    if e == d {
                        assert(level(view_tree(r), 0) == seq![Some(i)]);
                    }
                }
                r
            },
            DecisionTreeNode::Branch { decision_bit, zero, one, .. } => {
                assert(level(v, 0).len() == 1);
                let i = next[d];
                next.set(d, i + 1);
                proof {
                    assert forall|e: int| d + 1 <= e < next.len() implies #[trigger] next[e]
                        + level(view_tree(zero), (e - (d + 1)) as nat).len() <= usize::MAX by {
                        let k = (e - (d + 1)) as nat;
                        assert(next[e] == n0[e]);
                        assert(level(v, (e - d) as nat) == level(view_tree(zero), k) + level(
                            view_tree(one),
                            k,
                        ));
                        assert(n0[e] + level(v, (e - d) as nat).len() <= usize::MAX);
                    }
                }
                let z = number_levels(zero, d + 1, next);
                let ghost n1 = next@;
                proof {
                    assert forall|e: int| d + 1 <= e < next.len() implies #[trigger] next[e]
                        + level(view_tree(one), (e - (d + 1)) as nat).len() <= usize::MAX by {
                        let k = (e - (d + 1)) as nat;
                        assert(next[e] == n0[e] + level(view_tree(zero), k).len());
                        assert(level(v, (e - d) as nat) == level(view_tree(zero), k) + level(
                            view_tree(one),
                            k,
                        ));
                        assert(n0[e] + level(v, (e - d) as nat).len() <= usize::MAX);
                    }
                }
                let o = number_levels(one, d + 1, next);
                let r = Some(
                    Box::new(
                        DecisionTreeNode::Branch { index: Some(i), decision_bit, zero: z, one: o },
                    ),
                );
                proof {
                    lemma_strip_counts(view_tree(z), view_tree(zero));
                    assert forall|e: int| d <= e < next.len() implies next[e] == n0[e] + level(
                        v,
                        (e - d) as nat,
                    ).len() && numbered_from(
                        #[trigger] level(view_tree(r), (e - d) as nat),
                        n0[e] as int,
                    ) by {
                        if e > d {
                            let k = (e - (d + 1)) as nat;
                            assert(level(v, (e - d) as nat) == level(view_tree(zero), k) + level(
                                view_tree(one),
                                k,
                            ));
                            assert(next[e] == n1[e] + level(view_tree(one), k).len());
                            let lz = level(view_tree(z), k);
                            let lo = level(view_tree(o), k);
                            let l = level(view_tree(r), (e - d) as nat);
                            assert(l == lz + lo);
                            assert(numbered_from(lz, n0[e] as int));
                            assert(numbered_from(lo, n1[e] as int));
                            assert forall|j: int| 0 <= j < l.len() implies #[trigger] l[j] == Some(
                                (n0[e] + j) as usize,
                            ) by {
                                if j < lz.len() {
                                    assert(l[j] == lz[j]);
                                } else {
                                    assert(l[j] == lo[j - lz.len()]);
                                }
                            }
                        } else {
                            assert(level(view_tree(r), 0) == seq![Some(i)]);
                        }
                    }
                    assert forall|e: int| d <= e < next.len() implies #[trigger] next[e] == n0[e]
                        + level(v, (e - d) as nat).len() by {
                        assert(numbered_from(level(view_tree(r), (e - d) as nat), n0[e] as int));
                    }
                }
                r
            },
        },
    }
}

proof fn lemma_levels_numbered(r: SpecTree, v: SpecTree, k: nat)
    requires
        strip(r) == strip(v),
        k <= height(v),
        forall|e: nat|
            e < height(v) ==> numbered_from(
                #[trigger] level(r, e),
                levels_upto(v, e).len() as int,
            ),
    ensures
        numbered_from(levels_upto(r, k), 0),
        levels_upto(r, k).len() == levels_upto(v, k).len(),
    decreases k,
{
    lemma_strip_counts(r, v);
    if k > 0 {
        let j = (k - 1) as nat;
        lemma_levels_numbered(r, v, j);
        let a = levels_upto(r, j);
        let b = level(r, j);
        assert(numbered_from(b, levels_upto(v, j).len() as int));
        assert(levels_upto(r, k) == a + b);
        assert forall|i: int| 0 <= i < a.len() + b.len() implies #[trigger] (a + b)[i] == Some(
            (0 + i) as usize,
        ) by {
            if i >= a.len() {
                assert((a + b)[i] == b[i - a.len()]);
            }
        }
    }
}

fn assign_indexes_bfs(t: DecisionTree) -> (r: DecisionTree)
    requires
        node_count(view_tree(t)) <= usize::MAX,
    ensures
        strip(view_tree(r)) == strip(view_tree(t)),
        numbered_from(level_order(view_tree(r)), 0),
        level_order(view_tree(r)).len() == node_count(view_tree(t)),
{
    let ghost v = view_tree(t);
    let h = tree_height(&t);
    let mut counts: Vec<usize> = Vec::new();
    let mut e: usize = 0;
    while e < h
        invariant
            e <= h,
            counts.len() == e,
            forall|x: int| 0 <= x < e ==> #[trigger] counts[x] == 0,
        decreases h - e,
    {
        counts.push(0);
        e += 1;
    }
    count_levels(&t, 0, &mut counts);
    let mut next: Vec<usize> = Vec::new();
    let mut total: usize = 0;
    e = 0;
    while e < h
        invariant
            e <= h,
            h == height(v),
            counts.len() == h,
            node_count(v) <= usize::MAX,
            forall|x: int| 0 <= x < h ==> #[trigger] counts[x] == level(v, x as nat).len(),
            next.len() == e,
            total == levels_upto(v, e as nat).len(),
            forall|x: int| 0 <= x < e ==> #[trigger] next[x] == levels_upto(v, x as nat).len(),
        decreases h - e,
    {
        proof {
            lemma_levels_upto_len(v, (e + 1) as nat);
            assert(levels_upto(v, (e + 1) as nat) == levels_upto(v, e as nat) + level(v, e as nat));
        }
        next.push(total);
        total = total + counts[e];
        e += 1;
    }
    proof {
        assert forall|x: int| 0 <= x < next.len() implies #[trigger] next[x] + level(
            v,
            (x - 0) as nat,
        ).len() <= usize::MAX by {
            lemma_levels_upto_len(v, (x + 1) as nat);
            assert(levels_upto(v, (x + 1) as nat) == levels_upto(v, x as nat) + level(v, x as nat));
        }
    }
    let ghost n0 = next@;
    let r = number_levels(t, 0, &mut next);
    proof {
        let rv = view_tree(r);
        assert forall|x: nat| x < height(v) implies numbered_from(
            #[trigger] level(rv, x),
            levels_upto(v, x).len() as int,
        ) by {
            assert(level(rv, (x as int - 0) as nat) == level(rv, x));
            assert(numbered_from(level(rv, (x as int - 0) as nat), n0[x as int] as int));
        }
        lemma_strip_counts(rv, v);
        lemma_levels_numbered(rv, v, height(v));
        lemma_levels_upto_len(v, height(v));
    }
    r
}

/// Numbers the nodes of a tree in the given order; the shape, the decision
/// bits and the leaves stay as they are.
pub fn assign_indexes(t: DecisionTree, indexing: DecisionTreeIndexing) -> (r: DecisionTree)
    requires
        node_count(view_tree(t)) <= usize::MAX,
    ensures
        strip(view_tree(r)) == strip(view_tree(t)),
        indexing == DecisionTreeIndexing::NoIndexing ==> r == t,
        indexing == DecisionTreeIndexing::DFS ==> numbered_from(preorder(view_tree(r)), 0)
            && preorder(view_tree(r)).len() == node_count(view_tree(t)),
        indexing == DecisionTreeIndexing::BFS ==> numbered_from(level_order(view_tree(r)), 0)
            && level_order(view_tree(r)).len() == node_count(view_tree(t)),
{
    match indexing {
        DecisionTreeIndexing::DFS => {
            let (r, _count) = number_preorder(t, 0);
            proof {
                lemma_strip_counts(view_tree(r), view_tree(t));
                lemma_preorder_len(view_tree(r));
            }
            r
        },
        DecisionTreeIndexing::BFS => assign_indexes_bfs(t),
        DecisionTreeIndexing::NoIndexing => t,
    }
}

} // verus!
