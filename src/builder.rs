//! The greedy bit-at-a-time builder.

use vstd::prelude::*;
use crate::indexing::{
    DecisionTreeIndexing, assign_indexes, level_order, numbered_from, preorder, strip,
};
use crate::tree::{DecisionTree, DecisionTreeNode, Encoding, LeafNode, SpecTree, node_count, view_tree};

verus! {

/// Every rule of the group refers to an instruction of `enc`.
pub open spec fn group_wf(enc: Seq<Encoding>, g: Seq<LeafNode>) -> bool {
    forall|i: int| 0 <= i < g.len() ==> #[trigger] g[i].insn < enc.len()
}

/// The bitwise AND of the remaining masks of a group (all ones when empty).
pub open spec fn common_mask(g: Seq<LeafNode>) -> u32
    decreases g.len(),
{
    if g.len() == 0 {
        0xffff_ffffu32
    } else {
        common_mask(g.drop_last()) & g.last().mask
    }
}

/// The sum of the remaining masks read as numbers; each decision lowers it.
pub open spec fn mask_sum(g: Seq<LeafNode>) -> int
    decreases g.len(),
{
    if g.len() == 0 {
        0
    } else {
        mask_sum(g.drop_last()) + g.last().mask
    }
}

/// The rules of `g` whose opcode has bit `dm` set (`one`) or clear (`!one`),
/// in their order, with `dm` removed from their remaining mask.
pub open spec fn split_group(enc: Seq<Encoding>, g: Seq<LeafNode>, dm: u32, one: bool) -> Seq<LeafNode>
    decreases g.len(),
{
    if g.len() == 0 {
        Seq::empty()
    } else {
        let rest = split_group(enc, g.drop_last(), dm, one);
        let n = g.last();
        if ((enc[n.insn as int].opcode & dm) != 0) == one {
            rest.push(LeafNode { mask: n.mask & !dm, insn: n.insn })
        } else {
            rest
        }
    }
}

proof fn lemma_common_mask_bit(g: Seq<LeafNode>, dm: u32)
    requires
        common_mask(g) & dm == dm,
    ensures
        forall|i: int| 0 <= i < g.len() ==> #[trigger] g[i].mask & dm == dm,
    decreases g.len(),
{
    if g.len() > 0 {
        let a = common_mask(g.drop_last());
        let b = g.last().mask;
        assert((a & b) & dm == dm ==> a & dm == dm && b & dm == dm) by (bit_vector);
        lemma_common_mask_bit(g.drop_last(), dm);
        assert forall|i: int| 0 <= i < g.len() implies #[trigger] g[i].mask & dm == dm by {
            if i < g.len() - 1 {
                assert(g[i] == g.drop_last()[i]);
            }
        }
    }
}

proof fn lemma_split(enc: Seq<Encoding>, g: Seq<LeafNode>, dm: u32)
    requires
        forall|i: int| 0 <= i < g.len() ==> #[trigger] g[i].mask & dm == dm,
    ensures
        split_group(enc, g, dm, false).len() + split_group(enc, g, dm, true).len() == g.len(),
        mask_sum(split_group(enc, g, dm, false)) + mask_sum(split_group(enc, g, dm, true))
            == mask_sum(g) - g.len() * dm,
    decreases g.len(),
{
    if g.len() > 0 {
        let m = g.last().mask;
        assert(g.last() == g[g.len() - 1]);
        assert(m & dm == dm);
        assert(forall|i: int| 0 <= i < g.len() - 1 ==> g.drop_last()[i] == g[i]);
        lemma_split(enc, g.drop_last(), dm);
        assert(m & dm == dm ==> m >= dm && m & !dm == (m - dm) as u32) by (bit_vector);
        let z = split_group(enc, g.drop_last(), dm, false);
        let o = split_group(enc, g.drop_last(), dm, true);
        let n = LeafNode { mask: m & !dm, insn: g.last().insn };
        assert(z.push(n).drop_last() == z);
        assert(o.push(n).drop_last() == o);
        assert(mask_sum(g) == mask_sum(g.drop_last()) + m);
        assert(g.len() * dm == (g.len() - 1) * dm + dm) by (nonlinear_arith);
    }
}

proof fn lemma_split_wf(enc: Seq<Encoding>, g: Seq<LeafNode>, dm: u32, one: bool)
    requires
        group_wf(enc, g),
    ensures
        group_wf(enc, split_group(enc, g, dm, one)),
    decreases g.len(),
{
    if g.len() > 0 {
        assert(g.last() == g[g.len() - 1]);
        assert(forall|i: int| 0 <= i < g.len() - 1 ==> g.drop_last()[i] == g[i]);
        lemma_split_wf(enc, g.drop_last(), dm, one);
    }
}

/// The bit mask of the lowest set bit of a non-zero mask.
pub open spec fn lowest_bit_mask(acc: u32) -> u32 {
    1u32 << acc.trailing_zeros()
}

pub(crate) proof fn lemma_lowest_bit(acc: u32)
    requires
        acc != 0,
    ensures
        acc.trailing_zeros() < 32,
        acc & lowest_bit_mask(acc) == lowest_bit_mask(acc),
        lowest_bit_mask(acc) != 0,
{
    broadcast use vstd::std_specs::bits::axiom_u32_trailing_zeros;
    let b = acc.trailing_zeros();
    assert(b < 32 && (acc >> b) & 1u32 == 1u32 ==> acc & (1u32 << b) == (1u32 << b) && (1u32 << b) != 0)
        by (bit_vector);
}

/// The number of zero bits of `m` among its `k` lowest bits.
pub open spec fn zeros_below(m: u32, k: nat) -> nat
    decreases k,
{
    if k == 0 {
        0
    } else {
        zeros_below(m, (k - 1) as nat) + if (m >> ((k - 1) as u32)) & 1u32 == 0u32 {
            1nat
        } else {
            0nat
        }
    }
}

/// The number of don't-care bits of a mask.
pub open spec fn zero_count(m: u32) -> nat {
    zeros_below(m, 32)
}

/// The rules of `g` whose remaining mask has exactly `z` zero bits, in order.
pub open spec fn with_zero_count(g: Seq<LeafNode>, z: nat) -> Seq<LeafNode>
    decreases g.len(),
{
    if g.len() == 0 {
        Seq::empty()
    } else if zero_count(g.last().mask) == z {
        with_zero_count(g.drop_last(), z).push(g.last())
    } else {
        with_zero_count(g.drop_last(), z)
    }
}

/// The rules of `g` with fewer than `k` zero bits, fewest first, ties in input order.
pub open spec fn priority_upto(g: Seq<LeafNode>, k: nat) -> Seq<LeafNode>
    decreases k,
{
    if k == 0 {
        Seq::empty()
    } else {
        priority_upto(g, (k - 1) as nat) + with_zero_count(g, (k - 1) as nat)
    }
}

/// Leaf priority order: most constrained remaining mask first, a stable
/// order that keeps input order among equally constrained rules.
pub open spec fn priority_order(g: Seq<LeafNode>) -> Seq<LeafNode> {
    priority_upto(g, 33)
}

/// The tree that the greedy builder makes of a working group.
pub open spec fn build_spec(enc: Seq<Encoding>, g: Seq<LeafNode>) -> SpecTree
    decreases mask_sum(g),
    via build_spec_decreases
{
    if g.len() == 0 {
        SpecTree::Empty
    } else if g.len() == 1 {
        SpecTree::Leaf { index: None, insns: g }
    } else {
        let acc = common_mask(g);
        if acc == 0 {
            SpecTree::Leaf { index: None, insns: priority_order(g) }
        } else {
            let dm = lowest_bit_mask(acc);
            let zero = split_group(enc, g, dm, false);
            let one = split_group(enc, g, dm, true);
            if zero.len() == 0 {
                build_spec(enc, one)
            } else if one.len() == 0 {
                build_spec(enc, zero)
            } else {
                SpecTree::Branch {
                    index: None,
                    bit: acc.trailing_zeros(),
                    zero: Box::new(build_spec(enc, zero)),
                    one: Box::new(build_spec(enc, one)),
                }
            }
        }
    }
}

proof fn lemma_mask_sum_nonneg(g: Seq<LeafNode>)
    ensures
        mask_sum(g) >= 0,
    decreases g.len(),
{
    if g.len() > 0 {
        lemma_mask_sum_nonneg(g.drop_last());
    }
}

/// A decision splits the group into two parts that together are shorter and
/// have a smaller mask sum than the group.
pub(crate) proof fn lemma_decision(enc: Seq<Encoding>, g: Seq<LeafNode>)
    requires
        g.len() > 0,
        common_mask(g) != 0,
    ensures
        ({
            let dm = lowest_bit_mask(common_mask(g));
            let zero = split_group(enc, g, dm, false);
            let one = split_group(enc, g, dm, true);
            &&& zero.len() + one.len() == g.len()
            &&& 0 <= mask_sum(zero) < mask_sum(g)
            &&& 0 <= mask_sum(one) < mask_sum(g)
            &&& forall|i: int| 0 <= i < g.len() ==> #[trigger] g[i].mask & dm == dm
        }),
{
    let acc = common_mask(g);
    let dm = lowest_bit_mask(acc);
    lemma_lowest_bit(acc);
    lemma_common_mask_bit(g, dm);
    lemma_split(enc, g, dm);
    lemma_mask_sum_nonneg(split_group(enc, g, dm, false));
    lemma_mask_sum_nonneg(split_group(enc, g, dm, true));
    assert(g.len() * dm >= 1) by (nonlinear_arith)
        requires
            g.len() > 0,
            dm != 0,
    ;
}

#[via_fn]
proof fn build_spec_decreases(enc: Seq<Encoding>, g: Seq<LeafNode>) {
    if g.len() > 1 && common_mask(g) != 0 {
        lemma_decision(enc, g);
    }
}

/// The working group of a rule sequence: each rule with its whole mask.
pub open spec fn initial_group(enc: Seq<Encoding>) -> Seq<LeafNode> {
    Seq::new(enc.len(), |i: int| LeafNode { mask: enc[i].mask, insn: i as usize })
}

fn group_common_mask(g: &Vec<LeafNode>) -> (r: u32)
    ensures
        r == common_mask(g@),
{
    let mut acc: u32 = 0xffff_ffffu32;
    let mut i: usize = 0;
    while i < g.len()
        invariant
            i <= g.len(),
            acc == common_mask(g@.subrange(0, i as int)),
        decreases g.len() - i,
    {
        assert(g@.subrange(0, i + 1).drop_last() == g@.subrange(0, i as int));
        acc = acc & g[i].mask;
        i += 1;
    }
    assert(g@.subrange(0, g.len() as int) == g@);
    acc
}

fn split_by_bit(enc: &[Encoding], g: &Vec<LeafNode>, dm: u32) -> (r: (Vec<LeafNode>, Vec<LeafNode>))
    requires
        group_wf(enc@, g@),
    ensures
        r.0@ == split_group(enc@, g@, dm, false),
        r.1@ == split_group(enc@, g@, dm, true),
{
    let mut zero: Vec<LeafNode> = Vec::new();
    let mut one: Vec<LeafNode> = Vec::new();
    let mut i: usize = 0;
    while i < g.len()
        invariant
            i <= g.len(),
            group_wf(enc@, g@),
            zero@ == split_group(enc@, g@.subrange(0, i as int), dm, false),
            one@ == split_group(enc@, g@.subrange(0, i as int), dm, true),
        decreases g.len() - i,
    {
        let ghost pre = g@.subrange(0, i + 1);
        assert(pre.drop_last() == g@.subrange(0, i as int));
        assert(pre.last() == g@[i as int]);
        let n = g[i];
        let node = LeafNode { mask: n.mask & !dm, insn: n.insn };
        if enc[n.insn].opcode & dm == 0 {
            zero.push(node);
        } else {
            one.push(node);
        }
        i += 1;
    }
    assert(g@.subrange(0, g.len() as int) == g@);
    (zero, one)
}

fn count_zero_bits(m: u32) -> (r: u32)
    ensures
        r == zero_count(m),
{
    let mut c: u32 = 0;
    let mut k: u32 = 0;
    while k < 32
        invariant
            k <= 32,
            c == zeros_below(m, k as nat),
            c <= k,
        decreases 32 - k,
    {
        if (m >> k) & 1u32 == 0u32 {
            c += 1;
        }
        k += 1;
    }
    c
}

fn order_by_priority(g: &Vec<LeafNode>) -> (r: Vec<LeafNode>)
    ensures
        r@ == priority_order(g@),
{
    let mut r: Vec<LeafNode> = Vec::new();
    let mut z: u32 = 0;
    while z < 33
        invariant
            z <= 33,
            r@ == priority_upto(g@, z as nat),
        decreases 33 - z,
    {
        let ghost before = r@;
        let mut i: usize = 0;
        while i < g.len()
            invariant
                z < 33,
                i <= g.len(),
                before == priority_upto(g@, z as nat),
                r@ == before + with_zero_count(g@.subrange(0, i as int), z as nat),
            decreases g.len() - i,
        {
            let ghost pre = g@.subrange(0, i + 1);
            assert(pre.drop_last() == g@.subrange(0, i as int));
            assert(pre.last() == g@[i as int]);
            if count_zero_bits(g[i].mask) == z {
                r.push(g[i]);
                assert(before + with_zero_count(pre, z as nat) == (before + with_zero_count(
                    g@.subrange(0, i as int),
                    z as nat,
                )).push(g@[i as int]));
            }
            i += 1;
        }
        assert(g@.subrange(0, g.len() as int) == g@);
        z += 1;
    }
    r
}

fn build_group(enc: &[Encoding], insns: Vec<LeafNode>) -> (r: DecisionTree)
    requires
        group_wf(enc@, insns@),
    ensures
        view_tree(r) == build_spec(enc@, insns@),
    decreases mask_sum(insns@),
{
    if insns.len() == 0 {
        return None;
    }
    if insns.len() == 1 {
        return Some(Box::new(DecisionTreeNode::Leaf { index: None, insns }));
    }
    let ghost g0 = insns@;
    let mut g = insns;
    loop
        invariant
            g0 == insns@,
            group_wf(enc@, g@),
            g.len() >= 2,
            build_spec(enc@, g@) == build_spec(enc@, g0),
            mask_sum(g@) <= mask_sum(g0),
        decreases mask_sum(g@),
    {
        let acc = group_common_mask(&g);
        if acc == 0 {
            let ordered = order_by_priority(&g);
            return Some(Box::new(DecisionTreeNode::Leaf { index: None, insns: ordered }));
        }
        let decision_bit = acc.trailing_zeros();
        let decision_mask = 1u32 << decision_bit;
        proof {
            lemma_decision(enc@, g@);
            lemma_split_wf(enc@, g@, decision_mask, false);
            lemma_split_wf(enc@, g@, decision_mask, true);
        }
        let (zero, one) = split_by_bit(enc, &g, decision_mask);
        if zero.len() == 0 {
            g = one;
        } else if one.len() == 0 {
            g = zero;
        } else {
            let zero_tree = build_group(enc, zero);
            let one_tree = build_group(enc, one);
            return Some(
                Box::new(
                    DecisionTreeNode::Branch {
                        index: None,
                        decision_bit,
                        zero: zero_tree,
                        one: one_tree,
                    },
                ),
            );
        }
    }
}

/// Builds the decision tree of a rule sequence, without node indices.
fn build_unindexed(enc: &[Encoding]) -> (r: DecisionTree)
    ensures
        view_tree(r) == build_spec(enc@, initial_group(enc@)),
{
    let mut g: Vec<LeafNode> = Vec::new();
    let mut i: usize = 0;
    while i < enc.len()
        invariant
            i <= enc.len(),
            g@ == initial_group(enc@).subrange(0, i as int),
        decreases enc.len() - i,
    {
        g.push(LeafNode { mask: enc[i].mask, insn: i });
        i += 1;
    }
    assert(initial_group(enc@).subrange(0, enc.len() as int) == initial_group(enc@));
    build_group(enc, g)
}

/// The rules are well formed: each mask is non-zero and each opcode has no
/// bit set outside its mask.
pub open spec fn rules_valid(enc: Seq<Encoding>) -> bool {
    forall|i: int|
        0 <= i < enc.len() ==> #[trigger] enc[i].mask != 0 && enc[i].opcode & !enc[i].mask == 0
}

/// Builds the decision tree of a rule sequence and numbers its nodes in the
/// given order. Leaf entries refer to rules by their position in `insns`.
pub fn build_decision_tree(insns: &[Encoding], indexing: DecisionTreeIndexing) -> (r: DecisionTree)
    requires
        rules_valid(insns@),
        insns.len() < usize::MAX / 2,
    ensures
        strip(view_tree(r)) == build_spec(insns@, initial_group(insns@)),
        indexing == DecisionTreeIndexing::NoIndexing ==> view_tree(r) == build_spec(
            insns@,
            initial_group(insns@),
        ),
        indexing == DecisionTreeIndexing::DFS ==> numbered_from(preorder(view_tree(r)), 0)
            && preorder(view_tree(r)).len() == node_count(view_tree(r)),
        indexing == DecisionTreeIndexing::BFS ==> numbered_from(level_order(view_tree(r)), 0)
            && level_order(view_tree(r)).len() == node_count(view_tree(r)),
{
    let t = build_unindexed(insns);
    proof {
        crate::guarantees::lemma_build_shape(insns@, initial_group(insns@));
    }
    let r = assign_indexes(t, indexing);
    proof {
        crate::indexing::lemma_strip_counts(view_tree(r), view_tree(t));
    }
    r
}

} // verus!
