//! Inclusion proofs: a leaf digest, the sibling digests on its way up, and
//! the root they must lead to.

use vstd::prelude::*;

use crate::hash::{lemma_concat_cancel, lemma_distinct_inputs, node_hash, sha3_collision};
use crate::utils::hash_2_node;

verus! {

/// A sibling met on the way from a leaf to the root, with the side of its
/// pair that it stands on.
#[derive(Debug, Clone)]
pub enum ProofNode {
    /// The sibling is the left child: the parent is `hash(sibling ++ running)`.
    Left(Vec<u8>),
    /// The sibling is the right child: the parent is `hash(running ++ sibling)`.
    Right(Vec<u8>),
}

impl ProofNode {
    /// Whether the sibling is a left child.
    pub open spec fn is_left(&self) -> bool {
        self is Left
    }

    /// The sibling's digest.
    pub open spec fn digest(&self) -> Seq<u8> {
        match self {
            ProofNode::Left(d) => d@,
            ProofNode::Right(d) => d@,
        }
    }

    /// The step for the node at flat index `idx`: even indices hold left
    /// children, odd ones right children.
    pub fn new(idx: usize, node: Vec<u8>) -> (r: Self)
        ensures
            r.is_left() == (idx % 2 == 0),
            r.digest() == node@,
    {
        if idx % 2 == 0 {
            ProofNode::Left(node)
        } else {
            ProofNode::Right(node)
        }
    }
}

/// The digest of the parent of `running` and the sibling `step` describes.
pub open spec fn climb_step(step: (bool, Seq<u8>), running: Seq<u8>) -> Seq<u8> {
    if step.0 {
        node_hash(step.1, running)
    } else {
        node_hash(running, step.1)
    }
}

/// The digest reached from `leaf` by taking `steps` in order.
pub open spec fn climb(leaf: Seq<u8>, steps: Seq<(bool, Seq<u8>)>) -> Seq<u8>
    decreases steps.len(),
{
    if steps.len() == 0 {
        leaf
    } else {
        climb_step(steps.last(), climb(leaf, steps.drop_last()))
    }
}

/// Each proof node as its side and its digest.
pub open spec fn steps_of(nodes: Seq<ProofNode>) -> Seq<(bool, Seq<u8>)> {
    nodes.map_values(|n: ProofNode| (n.is_left(), n.digest()))
}

/// Taking `s1` and then `s2` is taking `s1 + s2`.
pub proof fn lemma_climb_append(
    leaf: Seq<u8>,
    s1: Seq<(bool, Seq<u8>)>,
    s2: Seq<(bool, Seq<u8>)>,
)
    ensures
        climb(leaf, s1 + s2) == climb(climb(leaf, s1), s2),
    decreases s2.len(),
{
    if s2.len() == 0 {
        assert(s1 + s2 =~= s1);
    } else {
        assert((s1 + s2).drop_last() =~= s1 + s2.drop_last());
        lemma_climb_append(leaf, s1, s2.drop_last());
    }
}

/// Two different running digests stay different at every step up, unless
/// SHA3-256 has a collision.
pub proof fn lemma_climb_separates(a: Seq<u8>, b: Seq<u8>, steps: Seq<(bool, Seq<u8>)>)
    requires
        a != b,
    ensures
        sha3_collision() || climb(a, steps) != climb(b, steps),
    decreases steps.len(),
{
    if steps.len() > 0 {
        let ra = climb(a, steps.drop_last());
        let rb = climb(b, steps.drop_last());
        lemma_climb_separates(a, b, steps.drop_last());
        if ra != rb {
            let d = steps.last().1;
            lemma_concat_cancel(ra, rb, d);
            lemma_concat_cancel(ra, rb, d);
            if steps.last().0 {
                lemma_distinct_inputs(d + ra, d + rb);
            } else {
                lemma_distinct_inputs(ra + d, rb + d);
            }
        }
    }
}

/// An inclusion proof: `leaf` is shown to be below `root` by the siblings in
/// `nodes`, ordered from the leaf's own sibling up to the level below the
/// root.
#[derive(Debug, Clone)]
pub struct MerkleProof {
    pub root: Vec<u8>,
    pub nodes: Vec<ProofNode>,
    pub leaf: Vec<u8>,
}

impl MerkleProof {
    /// The steps of the proof, each as its side and its digest.
    pub open spec fn steps(&self) -> Seq<(bool, Seq<u8>)> {
        steps_of(self.nodes@)
    }

    /// Whether climbing from the leaf by the steps reaches the root.
    pub open spec fn accepted(&self) -> bool {
        climb(self.leaf@, self.steps()) == self.root@
    }

    /// Recomputes the root from the leaf and the siblings and compares it,
    /// byte for byte, with the root that the proof claims.
    pub fn verify(&self) -> (r: bool)
        ensures
            r == self.accepted(),
    {
        let mut leaf = self.leaf.clone();
        let mut i: usize = 0;
        while i < self.nodes.len()
            invariant
                i <= self.nodes@.len(),
                leaf@ == climb(self.leaf@, self.steps().take(i as int)),
            decreases self.nodes@.len() - i,
        {
            proof {
                assert(self.steps().take(i + 1).drop_last() == self.steps().take(i as int));
            }
            leaf = match &self.nodes[i] {
                ProofNode::Left(n) => hash_2_node(n.clone(), leaf),
                ProofNode::Right(n) => hash_2_node(leaf, n.clone()),
            };
            i = i + 1;
        }
        proof {
            assert(self.steps().take(i as int) == self.steps());
        }
        same_bytes(&self.root, &leaf)
    }
}

/// Whether two byte strings are equal.
fn same_bytes(a: &Vec<u8>, b: &Vec<u8>) -> (r: bool)
    ensures
        r == (a@ == b@),
{
    if a.len() != b.len() {
        return false;
    }
    let mut i: usize = 0;
    while i < a.len()
        invariant
            a@.len() == b@.len(),
            i <= a@.len(),
            a@.take(i as int) == b@.take(i as int),
        decreases a@.len() - i,
    {
        if a[i] != b[i] {
            return false;
        }
        proof {
            assert(a@.take(i + 1) == a@.take(i as int).push(a@[i as int]));
            assert(b@.take(i + 1) == b@.take(i as int).push(b@[i as int]));
        }
        i = i + 1;
    }
    proof {
        assert(a@.take(i as int) == a@);
        assert(b@.take(i as int) == b@);
    }
    true
}

/// A proof whose leaf was changed (a byte flipped, say) is no longer
/// accepted, unless SHA3-256 has a collision.
pub proof fn lemma_tampered_leaf(p: MerkleProof, q: MerkleProof)
    requires
        p.accepted(),
        q.leaf@ != p.leaf@,
        q.steps() == p.steps(),
        q.root@ == p.root@,
    ensures
        q.accepted() ==> sha3_collision(),
{
    lemma_climb_separates(q.leaf@, p.leaf@, p.steps());
}

/// A proof in which the digest of step `j` was changed, its side kept, is
/// no longer accepted, unless SHA3-256 has a collision.
pub proof fn lemma_tampered_step(p: MerkleProof, q: MerkleProof, j: int)
    requires
        p.accepted(),
        0 <= j < p.steps().len(),
        q.steps() == p.steps().update(j, (p.steps()[j].0, q.steps()[j].1)),
        q.steps()[j].1 != p.steps()[j].1,
        q.leaf@ == p.leaf@,
        q.root@ == p.root@,
    ensures
        q.accepted() ==> sha3_collision(),
{
    let s = p.steps();
    let t = q.steps();
    assert(s =~= s.take(j) + s.skip(j));
    assert(t =~= t.take(j) + t.skip(j));
    assert(t.take(j) =~= s.take(j));
    let r = climb(p.leaf@, s.take(j));
    lemma_climb_append(p.leaf@, s.take(j), s.skip(j));
    lemma_climb_append(p.leaf@, t.take(j), t.skip(j));
    assert(s.skip(j) =~= seq![s[j]] + s.skip(j + 1));
    assert(t.skip(j) =~= seq![t[j]] + s.skip(j + 1));
    lemma_climb_append(r, seq![s[j]], s.skip(j + 1));
    lemma_climb_append(r, seq![t[j]], s.skip(j + 1));
    assert(seq![s[j]].drop_last() =~= Seq::<(bool, Seq<u8>)>::empty());
    assert(seq![t[j]].drop_last() =~= Seq::<(bool, Seq<u8>)>::empty());
    let ra = climb(r, seq![s[j]]);
    let rb = climb(r, seq![t[j]]);
    assert(climb(r, Seq::<(bool, Seq<u8>)>::empty()) == r);
    assert(ra == climb_step(s[j], r));
    assert(rb == climb_step(t[j], r));
    assert(t[j].0 == s[j].0);
    assert(climb(q.leaf@, t) == climb(rb, s.skip(j + 1)));
    assert(climb(p.leaf@, s) == climb(ra, s.skip(j + 1)));
    let d = s[j].1;
    let e = t[j].1;
    if d + r == e + r {
        assert(d =~= (d + r).take(d.len() as int));
        assert(e =~= (e + r).take(e.len() as int));
    }
    lemma_concat_cancel(d, e, r);
    if s[j].0 {
        lemma_distinct_inputs(d + r, e + r);
    } else {
        lemma_distinct_inputs(r + d, r + e);
    }
    if ra != rb {
        lemma_climb_separates(rb, ra, s.skip(j + 1));
    }
}

/// A proof whose claimed root was changed is no longer accepted.
pub proof fn lemma_tampered_root(p: MerkleProof, q: MerkleProof)
    requires
        p.accepted(),
        q.root@ != p.root@,
        q.steps() == p.steps(),
        q.leaf@ == p.leaf@,
    ensures
        !q.accepted(),
{
}

} // verus!
