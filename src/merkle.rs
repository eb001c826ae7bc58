//! The tree: padded leaves first, then each level of inner nodes, the root
//! last, all in one flat array.

use vstd::prelude::*;

use crate::hash::{lemma_distinct_inputs, node_hash, sha3_collision};
use crate::inclusion::{climb, steps_of, MerkleProof, ProofNode};
use crate::utils::{
    exp2, get_n_for_2n, hash_2_node, lemma_padded_len_bounds, lemma_padded_len_exp2, lemma_padded_len_fits,
    lemma_trailing_zeros_exp2, padded_len, shift_to_2n,
};

verus! {

/// The flat index of the other node of the pair that node `i` belongs to.
pub open spec fn sibling(i: nat) -> nat {
    if i % 2 == 0 {
        i + 1
    } else {
        (i - 1) as nat
    }
}

/// A Merkle tree kept as one array. With `w` padded leaves (a power of two),
/// entries `0..w` are the leaves, the parent of entries `2m` and `2m + 1` is
/// entry `w + m`, and the root is the last of the `2w - 1` entries.
#[derive(Debug, Clone)]
pub struct Merkle {
    pub nodes: Vec<Vec<u8>>,
    /// The number of levels above the leaves; one for a single leaf.
    pub depth: u32,
    /// The number of leaves before padding.
    pub leaf_count: usize,
}

impl Merkle {
    /// The digest at flat index `i`.
    pub open spec fn node(&self, i: int) -> Seq<u8> {
        self.nodes@[i]@
    }

    /// The number of levels above the leaves: zero for a single leaf.
    pub open spec fn levels(&self) -> nat {
        if self.nodes@.len() == 1 {
            0
        } else {
            self.depth as nat
        }
    }

    /// The number of leaves after padding.
    pub open spec fn width(&self) -> nat {
        exp2(self.levels())
    }

    /// The root: the last entry.
    pub open spec fn root_digest(&self) -> Seq<u8> {
        self.node(self.nodes@.len() - 1)
    }

    /// The layout invariant: the padded leaf count is the smallest power of
    /// two that holds the leaves, padding repeats the last leaf, and each
    /// inner node is the hash of its two children.
    pub open spec fn wf(&self) -> bool {
        &&& self.depth >= 1
        &&& self.nodes@.len() == 1 ==> self.depth == 1
        &&& self.nodes@.len() == 2 * self.width() - 1
        &&& 1 <= self.leaf_count <= self.width()
        &&& self.width() == padded_len(self.leaf_count as nat)
        &&& forall|i: int|
            self.leaf_count <= i < self.width() ==> #[trigger] self.node(i) == self.node(
                self.leaf_count - 1,
            )
        &&& forall|m: int|
            0 <= m < self.width() - 1 ==> #[trigger] self.node(self.width() + m) == node_hash(
                self.node(2 * m),
                self.node(2 * m + 1),
            )
        &&& forall|i: int| self.width() <= i < self.nodes@.len() ==> #[trigger] self.node(i).len() == 32
    }

    /// A well-formed tree whose leaves, before padding, are `leaves`.
    pub open spec fn built_from(&self, leaves: Seq<Seq<u8>>) -> bool {
        &&& self.wf()
        &&& self.leaf_count == leaves.len()
        &&& forall|i: int| 0 <= i < leaves.len() ==> #[trigger] self.node(i) == leaves[i]
    }

    /// The flat index of the node at level `k` on the way from leaf `idx`
    /// to the root.
    pub open spec fn path_index(&self, idx: nat, k: nat) -> nat
        decreases k,
    {
        if k == 0 {
            idx
        } else {
            self.width() + self.path_index(idx, (k - 1) as nat) / 2
        }
    }

    /// The siblings met on the way from leaf `idx` to the root, each with
    /// whether it is a left child.
    pub open spec fn path_steps(&self, idx: nat) -> Seq<(bool, Seq<u8>)> {
        Seq::new(
            self.levels(),
            |k: int|
                {
                    let s = sibling(self.path_index(idx, k as nat));
                    (s % 2 == 0, self.node(s as int))
                },
        )
    }

    /// Builds the tree over `leafs`; `None` when there are none. A single
    /// leaf is its own root. Otherwise the leaves are padded to a power of
    /// two with copies of the last one, and each level's pairs are hashed,
    /// left to right, into the next level, until one root is left.
    pub fn new(leafs: Vec<Vec<u8>>) -> (r: Option<Self>)
        requires
            leafs@.len() <= usize::MAX / 2 + 1,
        ensures
            r is Some <==> leafs@.len() > 0,
            r matches Some(t) ==> t.built_from(leafs@.map_values(|l: Vec<u8>| l@)),
    {
        let ghost input = leafs@.map_values(|l: Vec<u8>| l@);
        let n = leafs.len();
        if n == 0 {
            return None;
        }
        let mut nodes = leafs;
        if n == 1 {
            let t = Merkle { nodes, depth: 1, leaf_count: 1 };
            proof {
                lemma_padded_len_bounds(1);
            }
            return Some(t);
        }
        let width = shift_to_2n(n);
        let total_depth = get_n_for_2n(width);
        proof {
            lemma_padded_len_bounds(n as nat);
            lemma_padded_len_fits(n as nat);
            lemma_trailing_zeros_exp2(crate::utils::ceil_log2(n as nat));
        }
        while nodes.len() < width
            invariant
                2 <= n <= nodes@.len() <= width,
                input.len() == n,
                width <= usize::MAX / 2 + 1,
                width == padded_len(n as nat),
                forall|i: int| 0 <= i < n ==> #[trigger] nodes@[i]@ == input[i],
                forall|i: int| n <= i < nodes@.len() ==> #[trigger] nodes@[i]@ == input[n - 1],
            decreases width - nodes@.len(),
        {
            let last = nodes[n - 1].clone();
            nodes.push(last);
        }
        let mut pos: usize = 0;
        while nodes.len() < width - 1 + width
            invariant
                2 <= n <= width,
                input.len() == n,
                width <= usize::MAX / 2 + 1,
                width == padded_len(n as nat),
                width <= nodes@.len() <= 2 * width - 1,
                pos == 2 * (nodes@.len() - width),
                forall|i: int| 0 <= i < n ==> #[trigger] nodes@[i]@ == input[i],
                forall|i: int| n <= i < width ==> #[trigger] nodes@[i]@ == input[n - 1],
                forall|m: int|
                    0 <= m < nodes@.len() - width ==> #[trigger] nodes@[width + m]@ == node_hash(
                        nodes@[2 * m]@,
                        nodes@[2 * m + 1]@,
                    ),
                forall|i: int| width <= i < nodes@.len() ==> #[trigger] nodes@[i]@.len() == 32,
            decreases 2 * width - nodes@.len(),
        {
            let h = hash_2_node(nodes[pos].clone(), nodes[pos + 1].clone());
            nodes.push(h);
            pos = pos + 2;
        }
        let t = Merkle { nodes, depth: total_depth as u32, leaf_count: n };
        proof {
            assert(t.levels() == crate::utils::ceil_log2(n as nat));
            assert forall|m: int| 0 <= m < t.width() - 1 implies #[trigger] t.node(t.width() + m)
                == node_hash(t.node(2 * m), t.node(2 * m + 1)) by {
                assert(nodes@[width + m]@ == node_hash(nodes@[2 * m]@, nodes@[2 * m + 1]@));
            }
        }
        Some(t)
    }
}

impl Merkle {
    /// The root digest.
    pub fn root(&self) -> (r: &Vec<u8>)
        requires
            self.wf(),
        ensures
            r@ == self.root_digest(),
    {
        &self.nodes[self.nodes.len() - 1]
    }

    /// The inclusion proof of leaf `idx`: the leaf, the sibling of each
    /// node on its way up, and the root. Walks level by level, keeping the
    /// start of the current level in the array and the node's offset in it.
    pub fn build_proof(&self, idx: usize) -> (r: MerkleProof)
        requires
            self.wf(),
            idx < self.leaf_count,
        ensures
            r.leaf@ == self.node(idx as int),
            r.root@ == self.root_digest(),
            r.steps() == self.path_steps(idx as nat),
            r.accepted(),
    {
        let levels: u32 = if self.nodes.len() == 1 {
            0
        } else {
            self.depth
        };
        let mut begin: usize = 0;
        let mut rel_offset: usize = idx;
        let mut level_len: usize = self.nodes.len() / 2 + 1;
        let mut nodes: Vec<ProofNode> = Vec::new();
        let mut i: u32 = 0;
        let total = self.nodes.len();
        proof {
            lemma_exp2_split(levels as nat, 0);
        }
        while i < levels
            invariant
                self.wf(),
                idx < self.leaf_count,
                levels == self.levels(),
                total == self.nodes@.len(),
                i <= levels,
                level_len == exp2((levels - i) as nat),
                begin + 2 * level_len == 2 * self.width(),
                rel_offset < level_len,
                begin + rel_offset == self.path_index(idx as nat, i as nat),
                steps_of(nodes@) == self.path_steps(idx as nat).take(i as int),
            decreases levels - i,
        {
            proof {
                lemma_exp2_split(levels as nat, i as nat);
                lemma_exp2_split(levels as nat, i as nat + 1);
            }
            let offset = if rel_offset % 2 == 0 {
                rel_offset + 1
            } else {
                rel_offset - 1
            };
            let at = begin + offset;
            let step = ProofNode::new(at, self.nodes[at].clone());
            proof {
                assert(at as nat == sibling(self.path_index(idx as nat, i as nat)));
                let ps = self.path_steps(idx as nat);
                assert(ps[i as int] == (step.is_left(), step.digest()));
                assert(steps_of(nodes@.push(step)) =~= steps_of(nodes@).push(ps[i as int]));
                assert(ps.take(i + 1) =~= ps.take(i as int).push(ps[i as int]));
            }
            nodes.push(step);
            begin = begin + level_len;
            rel_offset = rel_offset / 2;
            level_len = level_len / 2;
            i = i + 1;
        }
        proof {
            lemma_round_trip(*self, idx as nat);
            assert(self.path_steps(idx as nat).take(i as int) == self.path_steps(idx as nat));
        }
        MerkleProof {
            leaf: self.nodes[idx].clone(),
            nodes,
            root: self.root().clone(),
        }
    }
}

/// Two to `l - k` is twice two to `l - k - 1`, and one at `k == l`.
proof fn lemma_exp2_split(l: nat, k: nat)
    requires
        k <= l,
    ensures
        k < l ==> exp2((l - k) as nat) == 2 * exp2((l - k - 1) as nat),
        k == l ==> exp2((l - k) as nat) == 1,
        exp2((l - k) as nat) >= 1,
{
    crate::utils::lemma_exp2_pos((l - k) as nat);
}

/// The node at level `k` on leaf `idx`'s way up lies inside level `k`, whose
/// `exp2(levels - k)` entries end `exp2(levels - k)` short of `2 * width`.
proof fn lemma_path_in_level(t: Merkle, idx: nat, k: nat)
    requires
        t.wf(),
        idx < t.width(),
        k <= t.levels(),
    ensures
        2 * t.width() - 2 * exp2((t.levels() - k) as nat) <= t.path_index(idx, k),
        t.path_index(idx, k) < 2 * t.width() - exp2((t.levels() - k) as nat),
    decreases k,
{
    lemma_exp2_split(t.levels(), k);
    if k == 0 {
        assert(t.width() == exp2(t.levels()));
    } else {
        lemma_path_in_level(t, idx, (k - 1) as nat);
        lemma_exp2_split(t.levels(), (k - 1) as nat);
    }
}

/// Climbing from leaf `idx` by the first `k` steps of its path reaches the
/// node at level `k` on its way up.
proof fn lemma_climb_path(t: Merkle, idx: nat, k: nat)
    requires
        t.wf(),
        idx < t.width(),
        k <= t.levels(),
    ensures
        climb(t.node(idx as int), t.path_steps(idx).take(k as int)) == t.node(
            t.path_index(idx, k) as int,
        ),
    decreases k,
{
    if k > 0 {
        let steps = t.path_steps(idx);
        lemma_climb_path(t, idx, (k - 1) as nat);
        assert(steps.take(k as int).drop_last() == steps.take(k - 1));
        lemma_path_in_level(t, idx, (k - 1) as nat);
        lemma_exp2_split(t.levels(), (k - 1) as nat);
        lemma_exp2_split(t.levels(), k);
        let a = t.path_index(idx, (k - 1) as nat);
        let m = (a / 2) as int;
        assert(t.node(t.width() + m) == node_hash(t.node(2 * m), t.node(2 * m + 1)));
    }
}

/// Round trip: the steps that `build_proof` collects for a leaf lead from
/// that leaf to the root, so its proof is accepted by `verify`.
pub proof fn lemma_round_trip(t: Merkle, idx: nat)
    requires
        t.wf(),
        idx < t.leaf_count,
    ensures
        climb(t.node(idx as int), t.path_steps(idx)) == t.root_digest(),
{
    lemma_climb_path(t, idx, t.levels());
    lemma_path_in_level(t, idx, t.levels());
    lemma_exp2_split(t.levels(), t.levels());
    assert(t.path_steps(idx).take(t.levels() as int) == t.path_steps(idx));
}

/// Powers of two grow strictly with the exponent.
proof fn lemma_exp2_strict(j: nat, k: nat)
    requires
        j < k,
    ensures
        exp2(j) < exp2(k),
    decreases k,
{
    crate::utils::lemma_exp2_pos(j);
    if j + 1 < k {
        lemma_exp2_strict(j, (k - 1) as nat);
    }
}

/// A tree of one leaf has depth one, that leaf as its root, and an empty
/// path, which leads from the leaf to the root.
pub proof fn lemma_single_leaf(t: Merkle, d: Seq<u8>)
    requires
        t.built_from(seq![d]),
    ensures
        t.depth == 1,
        t.nodes@.len() == 1,
        t.root_digest() == d,
        t.path_steps(0).len() == 0,
        climb(d, t.path_steps(0)) == t.root_digest(),
{
    lemma_padded_len_bounds(1);
    if t.levels() > 0 {
        lemma_exp2_strict(0, t.levels());
    }
}

/// A leaf count that is already a power of two is not padded.
pub proof fn lemma_pow2_leaf_count(t: Merkle, leaves: Seq<Seq<u8>>, k: nat)
    requires
        t.built_from(leaves),
        leaves.len() == exp2(k),
    ensures
        t.width() == leaves.len(),
        t.nodes@.len() == 2 * leaves.len() - 1,
        forall|i: int| 0 <= i < t.width() ==> #[trigger] t.node(i) == leaves[i],
{
    lemma_padded_len_exp2(k);
}

/// Two well-formed trees with the same padded leaves agree on every node
/// below index `i` and at it.
proof fn lemma_same_nodes(a: Merkle, b: Merkle, i: int)
    requires
        a.wf(),
        b.wf(),
        a.width() == b.width(),
        forall|j: int| 0 <= j < a.width() ==> #[trigger] a.node(j) == b.node(j),
        0 <= i < 2 * a.width() - 1,
    ensures
        a.node(i) == b.node(i),
    decreases i,
{
    if i >= a.width() {
        let m = i - a.width();
        lemma_same_nodes(a, b, 2 * m);
        lemma_same_nodes(a, b, 2 * m + 1);
        assert(a.node(a.width() + m) == node_hash(a.node(2 * m), a.node(2 * m + 1)));
        assert(b.node(b.width() + m) == node_hash(b.node(2 * m), b.node(2 * m + 1)));
    }
}

/// Building twice from the same leaves gives the same nodes, depth and
/// root.
pub proof fn lemma_deterministic(a: Merkle, b: Merkle, leaves: Seq<Seq<u8>>)
    requires
        a.built_from(leaves),
        b.built_from(leaves),
    ensures
        a.nodes@.len() == b.nodes@.len(),
        forall|i: int| 0 <= i < a.nodes@.len() ==> #[trigger] a.node(i) == b.node(i),
        a.depth == b.depth,
        a.root_digest() == b.root_digest(),
{
    if a.levels() < b.levels() {
        lemma_exp2_strict(a.levels(), b.levels());
    }
    if b.levels() < a.levels() {
        lemma_exp2_strict(b.levels(), a.levels());
    }
    assert forall|j: int| 0 <= j < a.width() implies #[trigger] a.node(j) == b.node(j) by {
        if j >= a.leaf_count {
            assert(a.node(j) == a.node(a.leaf_count - 1));
            assert(b.node(j) == b.node(b.leaf_count - 1));
        }
    }
    assert forall|i: int| 0 <= i < a.nodes@.len() implies #[trigger] a.node(i) == b.node(i) by {
        lemma_same_nodes(a, b, i);
    }
    if a.nodes@.len() != 1 {
        crate::utils::lemma_exp2_pos(a.levels());
    }
}

/// Two trees of the same width whose leaves pair up in length and whose
/// roots match agree on node `i`, unless SHA3-256 has a collision.
proof fn lemma_equal_roots_down(a: Merkle, b: Merkle, i: int)
    requires
        a.wf(),
        b.wf(),
        a.width() == b.width(),
        forall|j: int| 0 <= j < a.width() ==> #[trigger] a.node(j).len() == b.node(j).len(),
        a.root_digest() == b.root_digest(),
        !sha3_collision(),
        0 <= i < 2 * a.width() - 1,
    ensures
        a.node(i) == b.node(i),
    decreases 2 * a.width() - 1 - i,
{
    let w = a.width() as int;
    if i < 2 * w - 2 {
        let m = i / 2;
        lemma_equal_roots_down(a, b, w + m);
        let (l1, r1) = (a.node(2 * m), a.node(2 * m + 1));
        let (l2, r2) = (b.node(2 * m), b.node(2 * m + 1));
        assert(a.node(w + m) == node_hash(l1, r1));
        assert(b.node(w + m) == node_hash(l2, r2));
        if l1 + r1 != l2 + r2 {
            lemma_distinct_inputs(l1 + r1, l2 + r2);
        }
        if 2 * m >= w {
            assert(a.node(2 * m).len() == 32);
            assert(b.node(2 * m).len() == 32);
        } else {
            assert(a.node(2 * m).len() == b.node(2 * m).len());
        }
        assert(l1 =~= (l1 + r1).take(l1.len() as int));
        assert(l2 =~= (l2 + r2).take(l2.len() as int));
        assert(r1 =~= (l1 + r1).skip(l1.len() as int));
        assert(r2 =~= (l2 + r2).skip(l2.len() as int));
    }
}

/// Trees of the same width whose padded leaves differ somewhere, leaf for
/// leaf of the same length, have different roots, unless SHA3-256 has a
/// collision.
pub proof fn lemma_leaves_bind_root(a: Merkle, b: Merkle, j: int)
    requires
        a.wf(),
        b.wf(),
        a.width() == b.width(),
        forall|i: int| 0 <= i < a.width() ==> #[trigger] a.node(i).len() == b.node(i).len(),
        0 <= j < a.width(),
        a.node(j) != b.node(j),
    ensures
        sha3_collision() || a.root_digest() != b.root_digest(),
{
    if !sha3_collision() && a.root_digest() == b.root_digest() {
        lemma_equal_roots_down(a, b, j);
    }
}

} // verus!
