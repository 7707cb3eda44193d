//! What every tree made by the builder satisfies.

use vstd::prelude::*;
use crate::builder::{
    build_spec, common_mask, group_wf, initial_group, lowest_bit_mask, mask_sum, priority_order,
    priority_upto, split_group, with_zero_count, zero_count, zeros_below,
};
use crate::indexing::strip;
use crate::tree::{Encoding, LeafNode, SpecTree, node_count};

verus! {

/// No branch of the tree has an empty child.
pub open spec fn no_empty_branch(t: SpecTree) -> bool
    decreases t,
{
    match t {
        SpecTree::Branch { zero, one, .. } => !(*zero is Empty) && !(*one is Empty)
            && no_empty_branch(*zero) && no_empty_branch(*one),
        _ => true,
    }
}

/// How many entries of `s` refer to instruction `id`.
pub open spec fn count_insn(s: Seq<LeafNode>, id: usize) -> nat
    decreases s.len(),
{
    if s.len() == 0 {
        0
    } else {
        count_insn(s.drop_last(), id) + if s.last().insn == id {
            1nat
        } else {
            0nat
        }
    }
}

/// How many leaf entries of the tree, over all leaves, refer to instruction `id`.
pub open spec fn leaf_count(t: SpecTree, id: usize) -> nat
    decreases t,
{
    match t {
        SpecTree::Empty => 0,
        SpecTree::Leaf { insns, .. } => count_insn(insns, id),
        SpecTree::Branch { zero, one, .. } => leaf_count(*zero, id) + leaf_count(*one, id),
    }
}

proof fn lemma_count_split(enc: Seq<Encoding>, g: Seq<LeafNode>, dm: u32, id: usize)
    ensures
        count_insn(split_group(enc, g, dm, false), id) + count_insn(split_group(enc, g, dm, true), id)
            == count_insn(g, id),
    decreases g.len(),
{
    if g.len() > 0 {
        lemma_count_split(enc, g.drop_last(), dm, id);
        let z = split_group(enc, g.drop_last(), dm, false);
        let o = split_group(enc, g.drop_last(), dm, true);
        let n = LeafNode { mask: g.last().mask & !dm, insn: g.last().insn };
        assert(z.push(n).drop_last() == z);
        assert(o.push(n).drop_last() == o);
    }
}

proof fn lemma_count_concat(a: Seq<LeafNode>, b: Seq<LeafNode>, id: usize)
    ensures
        count_insn(a + b, id) == count_insn(a, id) + count_insn(b, id),
    decreases b.len(),
{
    if b.len() > 0 {
        lemma_count_concat(a, b.drop_last(), id);
        assert((a + b).drop_last() == a + b.drop_last());
    }
}

/// How many entries of `g` refer to `id` and have fewer than `k` zero bits.
spec fn count_below(g: Seq<LeafNode>, id: usize, k: nat) -> nat
    decreases g.len(),
{
    if g.len() == 0 {
        0
    } else {
        count_below(g.drop_last(), id, k) + if g.last().insn == id && zero_count(g.last().mask)
            < k {
            1nat
        } else {
            0nat
        }
    }
}

proof fn lemma_count_below_step(g: Seq<LeafNode>, id: usize, k: nat)
    ensures
        count_below(g, id, k + 1) == count_below(g, id, k) + count_insn(with_zero_count(g, k), id),
    decreases g.len(),
{
    if g.len() > 0 {
        lemma_count_below_step(g.drop_last(), id, k);
        let w = with_zero_count(g.drop_last(), k);
        assert(w.push(g.last()).drop_last() == w);
    }
}

proof fn lemma_zeros_below_bound(m: u32, k: nat)
    ensures
        zeros_below(m, k) <= k,
    decreases k,
{
    if k > 0 {
        lemma_zeros_below_bound(m, (k - 1) as nat);
    }
}

proof fn lemma_count_below_all(g: Seq<LeafNode>, id: usize)
    ensures
        count_below(g, id, 33) == count_insn(g, id),
    decreases g.len(),
{
    if g.len() > 0 {
        lemma_count_below_all(g.drop_last(), id);
        lemma_zeros_below_bound(g.last().mask, 32);
    }
}

proof fn lemma_count_priority(g: Seq<LeafNode>, id: usize, k: nat)
    ensures
        count_insn(priority_upto(g, k), id) == count_below(g, id, k),
    decreases k,
{
    if k > 0 {
        let j = (k - 1) as nat;
        lemma_count_priority(g, id, j);
        lemma_count_concat(priority_upto(g, j), with_zero_count(g, j), id);
        lemma_count_below_step(g, id, j);
    } else {
        lemma_count_below_zero(g, id);
    }
}

proof fn lemma_count_below_zero(g: Seq<LeafNode>, id: usize)
    ensures
        count_below(g, id, 0) == 0,
    decreases g.len(),
{
    if g.len() > 0 {
        lemma_count_below_zero(g.drop_last(), id);
    }
}

/// The basic facts of a built tree, proved by one induction over the builder.
pub(crate) proof fn lemma_build_shape(enc: Seq<Encoding>, g: Seq<LeafNode>)
    ensures
        (g.len() == 0) == (build_spec(enc, g) is Empty),
        g.len() > 0 ==> node_count(build_spec(enc, g)) + 1 <= 2 * g.len(),
        strip(build_spec(enc, g)) == build_spec(enc, g),
        no_empty_branch(build_spec(enc, g)),
        forall|id: usize| #[trigger] leaf_count(build_spec(enc, g), id) == count_insn(g, id),
    decreases mask_sum(g),
{
    if g.len() > 1 {
        let acc = common_mask(g);
        if acc == 0 {
            assert forall|id: usize| #[trigger] leaf_count(build_spec(enc, g), id) == count_insn(
                g,
                id,
            ) by {
                lemma_count_priority(g, id, 33);
                lemma_count_below_all(g, id);
            }
        } else {
            let dm = lowest_bit_mask(acc);
            let zero = split_group(enc, g, dm, false);
            let one = split_group(enc, g, dm, true);
            crate::builder::lemma_decision(enc, g);
            lemma_build_shape(enc, zero);
            lemma_build_shape(enc, one);
            assert forall|id: usize| #[trigger] leaf_count(build_spec(enc, g), id) == count_insn(
                g,
                id,
            ) by {
                lemma_count_split(enc, g, dm, id);
                assert(leaf_count(build_spec(enc, zero), id) == count_insn(zero, id));
                assert(leaf_count(build_spec(enc, one), id) == count_insn(one, id));
                if zero.len() == 0 {
                    assert(count_insn(zero, id) == 0);
                } else if one.len() == 0 {
                    assert(count_insn(one, id) == 0);
                }
            }
        }
    } else if g.len() == 1 {
        assert forall|id: usize| #[trigger] leaf_count(build_spec(enc, g), id) == count_insn(
            g,
            id,
        ) by {}
    }
}

proof fn lemma_count_initial(enc: Seq<Encoding>, id: usize, k: int)
    requires
        0 <= k <= enc.len() <= usize::MAX,
    ensures
        count_insn(initial_group(enc).subrange(0, k), id) == if id < k {
            1nat
        } else {
            0nat
        },
    decreases k,
{
    if k > 0 {
        lemma_count_initial(enc, id, k - 1);
        assert(initial_group(enc).subrange(0, k).drop_last() == initial_group(enc).subrange(0, k - 1));
        assert(initial_group(enc).subrange(0, k).last().insn == (k - 1) as usize);
    } else {
        assert(initial_group(enc).subrange(0, k).len() == 0);
    }
}

/// Coverage: each rule of the input stands in exactly one leaf of the built
/// tree, once, and no leaf entry refers to anything else.
pub proof fn lemma_coverage(enc: Seq<Encoding>, id: usize)
    requires
        enc.len() <= usize::MAX,
    ensures
        leaf_count(build_spec(enc, initial_group(enc)), id) == if id < enc.len() {
            1nat
        } else {
            0nat
        },
{
    lemma_build_shape(enc, initial_group(enc));
    lemma_count_initial(enc, id, enc.len() as int);
    assert(initial_group(enc).subrange(0, enc.len() as int) == initial_group(enc));
}

/// No branch of a built tree has an empty child.
pub proof fn lemma_no_empty_branch(enc: Seq<Encoding>)
    ensures
        no_empty_branch(build_spec(enc, initial_group(enc))),
{
    lemma_build_shape(enc, initial_group(enc));
}

/// Determinism: the same ordered rule sequence always yields the same tree,
/// with the same shape, decision bits and leaf order.
pub proof fn lemma_deterministic(a: Seq<Encoding>, b: Seq<Encoding>)
    requires
        a == b,
    ensures
        build_spec(a, initial_group(a)) == build_spec(b, initial_group(b)),
{
}

/// A leaf entry refers to a rule of `enc`, and its remaining mask and the
/// bits `path` tested above it are disjoint and lie within the rule's mask.
pub open spec fn entry_within(enc: Seq<Encoding>, n: LeafNode, path: u32) -> bool {
    &&& n.insn < enc.len()
    &&& n.mask & path == 0
    &&& (n.mask | path) & !enc[n.insn as int].mask == 0
}

/// Every leaf entry of `t` is within its rule's mask, `path` being the
/// decision bits tested above `t`.
pub open spec fn masks_within(enc: Seq<Encoding>, t: SpecTree, path: u32) -> bool
    decreases t,
{
    match t {
        SpecTree::Empty => true,
        SpecTree::Leaf { insns, .. } => forall|j: int|
            0 <= j < insns.len() ==> entry_within(enc, #[trigger] insns[j], path),
        SpecTree::Branch { bit, zero, one, .. } => masks_within(enc, *zero, path | (1u32 << bit))
            && masks_within(enc, *one, path | (1u32 << bit)),
    }
}

proof fn lemma_filter_all(g: Seq<LeafNode>, z: nat, p: spec_fn(LeafNode) -> bool)
    requires
        forall|i: int| 0 <= i < g.len() ==> p(#[trigger] g[i]),
    ensures
        forall|j: int|
            0 <= j < with_zero_count(g, z).len() ==> p(#[trigger] with_zero_count(g, z)[j]),
    decreases g.len(),
{
    if g.len() > 0 {
        assert(forall|i: int| 0 <= i < g.len() - 1 ==> g.drop_last()[i] == g[i]);
        assert(g.last() == g[g.len() - 1]);
        lemma_filter_all(g.drop_last(), z, p);
        let w = with_zero_count(g.drop_last(), z);
        if zero_count(g.last().mask) == z {
            assert forall|j: int| 0 <= j < w.push(g.last()).len() implies p(
                #[trigger] w.push(g.last())[j],
            ) by {
                if j < w.len() {
                    assert(w.push(g.last())[j] == w[j]);
                }
            }
        }
    }
}

/// Whatever holds of every rule of a group holds of every entry of its
/// priority order.
proof fn lemma_priority_all(g: Seq<LeafNode>, k: nat, p: spec_fn(LeafNode) -> bool)
    requires
        forall|i: int| 0 <= i < g.len() ==> p(#[trigger] g[i]),
    ensures
        forall|j: int| 0 <= j < priority_upto(g, k).len() ==> p(#[trigger] priority_upto(g, k)[j]),
    decreases k,
{
    if k > 0 {
        let a = priority_upto(g, (k - 1) as nat);
        let b = with_zero_count(g, (k - 1) as nat);
        lemma_priority_all(g, (k - 1) as nat, p);
        lemma_filter_all(g, (k - 1) as nat, p);
        assert forall|j: int| 0 <= j < (a + b).len() implies p(#[trigger] (a + b)[j]) by {
            if j >= a.len() {
                assert((a + b)[j] == b[j - a.len()]);
            }
        }
    }
}

proof fn lemma_split_within(enc: Seq<Encoding>, g: Seq<LeafNode>, dm: u32, one: bool, path: u32)
    requires
        forall|i: int| 0 <= i < g.len() ==> entry_within(enc, #[trigger] g[i], path),
        forall|i: int| 0 <= i < g.len() ==> #[trigger] g[i].mask & dm == dm,
    ensures
        forall|j: int|
            0 <= j < split_group(enc, g, dm, one).len() ==> entry_within(
                enc,
                #[trigger] split_group(enc, g, dm, one)[j],
                path,
            ) && entry_within(enc, split_group(enc, g, dm, one)[j], path | dm),
    decreases g.len(),
{
    if g.len() > 0 {
        assert(forall|i: int| 0 <= i < g.len() - 1 ==> g.drop_last()[i] == g[i]);
        let n = g.last();
        assert(n == g[g.len() - 1]);
        lemma_split_within(enc, g.drop_last(), dm, one, path);
        let m = n.mask;
        let o = enc[n.insn as int].mask;
        assert(m & path == 0 && (m | path) & !o == 0 && m & dm == dm ==> (m & !dm) & path == 0
            && ((m & !dm) | path) & !o == 0 && (m & !dm) & (path | dm) == 0 && ((m & !dm) | (path
            | dm)) & !o == 0) by (bit_vector);
        let w = split_group(enc, g.drop_last(), dm, one);
        let x = LeafNode { mask: m & !dm, insn: n.insn };
        if ((enc[n.insn as int].opcode & dm) != 0) == one {
            assert forall|j: int| 0 <= j < w.push(x).len() implies entry_within(
                enc,
                #[trigger] w.push(x)[j],
                path,
            ) && entry_within(enc, w.push(x)[j], path | dm) by {
                if j < w.len() {
                    assert(w.push(x)[j] == w[j]);
                }
            }
        }
    }
}

proof fn lemma_within(enc: Seq<Encoding>, g: Seq<LeafNode>, path: u32)
    requires
        forall|i: int| 0 <= i < g.len() ==> entry_within(enc, #[trigger] g[i], path),
    ensures
        masks_within(enc, build_spec(enc, g), path),
    decreases mask_sum(g),
{
    if g.len() > 1 {
        let acc = common_mask(g);
        if acc == 0 {
            let p = |n: LeafNode| entry_within(enc, n, path);
            assert(forall|i: int| 0 <= i < g.len() ==> p(#[trigger] g[i]));
            lemma_priority_all(g, 33, p);
            assert(forall|j: int|
                0 <= j < priority_order(g).len() ==> p(#[trigger] priority_order(g)[j]));
        } else {
            let dm = lowest_bit_mask(acc);
            let zero = split_group(enc, g, dm, false);
            let one = split_group(enc, g, dm, true);
            crate::builder::lemma_decision(enc, g);
            lemma_split_within(enc, g, dm, false, path);
            lemma_split_within(enc, g, dm, true, path);
            if zero.len() == 0 {
                lemma_within(enc, one, path);
            } else if one.len() == 0 {
                lemma_within(enc, zero, path);
            } else {
                lemma_within(enc, zero, path | dm);
                lemma_within(enc, one, path | dm);
            }
        }
    }
}

/// Masks are conserved in one direction: at every leaf entry, the remaining
/// mask and the decision bits tested on the path to it are disjoint, and
/// both lie within the rule's original mask; no bit is gained.
pub proof fn lemma_masks_within(enc: Seq<Encoding>)
    requires
        enc.len() <= usize::MAX,
    ensures
        masks_within(enc, build_spec(enc, initial_group(enc)), 0),
{
    let g = initial_group(enc);
    assert forall|i: int| 0 <= i < g.len() implies entry_within(enc, #[trigger] g[i], 0) by {
        let m = enc[i].mask;
        assert(m & 0 == 0 && (m | 0) & !m == 0) by (bit_vector);
    }
    lemma_within(enc, g, 0);
}

/// The number of partitioning steps the builder takes on a group: each
/// computation of a decision bit and split of the group by it.
pub open spec fn partition_steps(enc: Seq<Encoding>, g: Seq<LeafNode>) -> nat
    decreases mask_sum(g),
    via partition_steps_decreases
{
    if g.len() <= 1 || common_mask(g) == 0 {
        0
    } else {
        let dm = lowest_bit_mask(common_mask(g));
        let zero = split_group(enc, g, dm, false);
        let one = split_group(enc, g, dm, true);
        1 + if zero.len() == 0 {
            partition_steps(enc, one)
        } else if one.len() == 0 {
            partition_steps(enc, zero)
        } else {
            partition_steps(enc, zero) + partition_steps(enc, one)
        }
    }
}

#[via_fn]
proof fn partition_steps_decreases(enc: Seq<Encoding>, g: Seq<LeafNode>) {
    if g.len() > 1 && common_mask(g) != 0 {
        crate::builder::lemma_decision(enc, g);
    }
}

/// The number of constrained bits left in the remaining masks of a group.
pub open spec fn ones_left(g: Seq<LeafNode>) -> int
    decreases g.len(),
{
    if g.len() == 0 {
        0
    } else {
        ones_left(g.drop_last()) + 32 - zero_count(g.last().mask)
    }
}

proof fn lemma_zeros_clear_bit(m: u32, b: u32, k: nat)
    requires
        b < 32,
        k <= 32,
        m & (1u32 << b) == (1u32 << b),
    ensures
        zeros_below(m & !(1u32 << b), k) == zeros_below(m, k) + if b < k {
            1nat
        } else {
            0nat
        },
    decreases k,
{
    if k > 0 {
        let j = (k - 1) as u32;
        lemma_zeros_clear_bit(m, b, (k - 1) as nat);
        assert(j < 32 && j != b ==> ((m & !(1u32 << b)) >> j) & 1u32 == (m >> j) & 1u32)
            by (bit_vector);
        assert(b < 32 && m & (1u32 << b) == (1u32 << b) ==> (m >> b) & 1u32 == 1u32 && ((m & !(1u32
            << b)) >> b) & 1u32 == 0u32) by (bit_vector);
    }
}

proof fn lemma_ones_split(enc: Seq<Encoding>, g: Seq<LeafNode>, b: u32)
    requires
        b < 32,
        forall|i: int| 0 <= i < g.len() ==> #[trigger] g[i].mask & (1u32 << b) == (1u32 << b),
    ensures
        ones_left(split_group(enc, g, 1u32 << b, false)) + ones_left(
            split_group(enc, g, 1u32 << b, true),
        ) == ones_left(g) - g.len(),
    decreases g.len(),
{
    if g.len() > 0 {
        let dm = 1u32 << b;
        let m = g.last().mask;
        assert(g.last() == g[g.len() - 1]);
        assert(forall|i: int| 0 <= i < g.len() - 1 ==> g.drop_last()[i] == g[i]);
        lemma_ones_split(enc, g.drop_last(), b);
        lemma_zeros_clear_bit(m, b, 32);
        let z = split_group(enc, g.drop_last(), dm, false);
        let o = split_group(enc, g.drop_last(), dm, true);
        let n = LeafNode { mask: m & !dm, insn: g.last().insn };
        assert(z.push(n).drop_last() == z);
        assert(o.push(n).drop_last() == o);
    }
}

proof fn lemma_ones_bound(g: Seq<LeafNode>)
    ensures
        0 <= ones_left(g) <= 32 * g.len(),
    decreases g.len(),
{
    if g.len() > 0 {
        lemma_ones_bound(g.drop_last());
        lemma_zeros_below_bound(g.last().mask, 32);
    }
}

proof fn lemma_steps_bound(enc: Seq<Encoding>, g: Seq<LeafNode>)
    ensures
        partition_steps(enc, g) <= ones_left(g),
    decreases mask_sum(g),
{
    lemma_ones_bound(g);
    if g.len() > 1 && common_mask(g) != 0 {
        let acc = common_mask(g);
        let b = acc.trailing_zeros();
        let dm = lowest_bit_mask(acc);
        let zero = split_group(enc, g, dm, false);
        let one = split_group(enc, g, dm, true);
        crate::builder::lemma_decision(enc, g);
        crate::builder::lemma_lowest_bit(acc);
        lemma_ones_split(enc, g, b);
        lemma_ones_bound(zero);
        lemma_ones_bound(one);
        lemma_steps_bound(enc, zero);
        lemma_steps_bound(enc, one);
    }
}

/// Termination bound: on `n` rules of 32-bit words the builder takes at most
/// `32 * n` partitioning steps.
pub proof fn lemma_steps_bounded(enc: Seq<Encoding>)
    ensures
        partition_steps(enc, initial_group(enc)) <= 32 * enc.len(),
{
    lemma_steps_bound(enc, initial_group(enc));
    lemma_ones_bound(initial_group(enc));
}

/// Every decision bit the builder picks on `g`, and below, splits its group
/// into two non-empty parts: no bit is cleared without a branch testing it.
pub open spec fn splits_cleanly(enc: Seq<Encoding>, g: Seq<LeafNode>) -> bool
    decreases mask_sum(g),
    via splits_cleanly_decreases
{
    if g.len() <= 1 || common_mask(g) == 0 {
        true
    } else {
        let dm = lowest_bit_mask(common_mask(g));
        let zero = split_group(enc, g, dm, false);
        let one = split_group(enc, g, dm, true);
        zero.len() > 0 && one.len() > 0 && splits_cleanly(enc, zero) && splits_cleanly(enc, one)
    }
}

#[via_fn]
proof fn splits_cleanly_decreases(enc: Seq<Encoding>, g: Seq<LeafNode>) {
    if g.len() > 1 && common_mask(g) != 0 {
        crate::builder::lemma_decision(enc, g);
    }
}

/// A leaf entry refers to a rule of `enc`, and its remaining mask together
/// with the bits `path` tested above it make up exactly the rule's mask.
pub open spec fn entry_exact(enc: Seq<Encoding>, n: LeafNode, path: u32) -> bool {
    &&& n.insn < enc.len()
    &&& n.mask & path == 0
    &&& n.mask | path == enc[n.insn as int].mask
}

/// Every leaf entry of `t` is exact, `path` being the decision bits tested
/// above `t`.
pub open spec fn masks_exact(enc: Seq<Encoding>, t: SpecTree, path: u32) -> bool
    decreases t,
{
    match t {
        SpecTree::Empty => true,
        SpecTree::Leaf { insns, .. } => forall|j: int|
            0 <= j < insns.len() ==> entry_exact(enc, #[trigger] insns[j], path),
        SpecTree::Branch { bit, zero, one, .. } => masks_exact(enc, *zero, path | (1u32 << bit))
            && masks_exact(enc, *one, path | (1u32 << bit)),
    }
}

proof fn lemma_split_exact(enc: Seq<Encoding>, g: Seq<LeafNode>, dm: u32, one: bool, path: u32)
    requires
        forall|i: int| 0 <= i < g.len() ==> entry_exact(enc, #[trigger] g[i], path),
        forall|i: int| 0 <= i < g.len() ==> #[trigger] g[i].mask & dm == dm,
    ensures
        forall|j: int|
            0 <= j < split_group(enc, g, dm, one).len() ==> entry_exact(
                enc,
                #[trigger] split_group(enc, g, dm, one)[j],
                path | dm,
            ),
    decreases g.len(),
{
    if g.len() > 0 {
        assert(forall|i: int| 0 <= i < g.len() - 1 ==> g.drop_last()[i] == g[i]);
        let n = g.last();
        assert(n == g[g.len() - 1]);
        lemma_split_exact(enc, g.drop_last(), dm, one, path);
        let m = n.mask;
        let o = enc[n.insn as int].mask;
        assert(m & path == 0 && m | path == o && m & dm == dm ==> (m & !dm) & (path | dm) == 0 && (m
            & !dm) | (path | dm) == o) by (bit_vector);
        let w = split_group(enc, g.drop_last(), dm, one);
        let x = LeafNode { mask: m & !dm, insn: n.insn };
        if ((enc[n.insn as int].opcode & dm) != 0) == one {
            assert forall|j: int| 0 <= j < w.push(x).len() implies entry_exact(
                enc,
                #[trigger] w.push(x)[j],
                path | dm,
            ) by {
                if j < w.len() {
                    assert(w.push(x)[j] == w[j]);
                }
            }
        }
    }
}

proof fn lemma_exact(enc: Seq<Encoding>, g: Seq<LeafNode>, path: u32)
    requires
        forall|i: int| 0 <= i < g.len() ==> entry_exact(enc, #[trigger] g[i], path),
        splits_cleanly(enc, g),
    ensures
        masks_exact(enc, build_spec(enc, g), path),
    decreases mask_sum(g),
{
    if g.len() > 1 {
        let acc = common_mask(g);
        if acc == 0 {
            let p = |n: LeafNode| entry_exact(enc, n, path);
            assert(forall|i: int| 0 <= i < g.len() ==> p(#[trigger] g[i]));
            lemma_priority_all(g, 33, p);
            assert(forall|j: int|
                0 <= j < priority_order(g).len() ==> p(#[trigger] priority_order(g)[j]));
        } else {
            let dm = lowest_bit_mask(acc);
            let zero = split_group(enc, g, dm, false);
            let one = split_group(enc, g, dm, true);
            crate::builder::lemma_decision(enc, g);
            lemma_split_exact(enc, g, dm, false, path);
            lemma_split_exact(enc, g, dm, true, path);
            lemma_exact(enc, zero, path | dm);
            lemma_exact(enc, one, path | dm);
        }
    }
}

/// Mask conservation: where the builder splits cleanly, the decision bits
/// tested on the path to each leaf entry and its remaining mask are disjoint
/// and together make up exactly the rule's original mask.
pub proof fn lemma_masks_conserved(enc: Seq<Encoding>)
    requires
        enc.len() <= usize::MAX,
        splits_cleanly(enc, initial_group(enc)),
    ensures
        masks_exact(enc, build_spec(enc, initial_group(enc)), 0),
{
    let g = initial_group(enc);
    assert forall|i: int| 0 <= i < g.len() implies entry_exact(enc, #[trigger] g[i], 0) by {
        let m = enc[i].mask;
        assert(m & 0 == 0 && m | 0 == m) by (bit_vector);
    }
    lemma_exact(enc, g, 0);
}

} // verus!
