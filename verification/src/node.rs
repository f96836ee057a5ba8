//! Tree nodes. A leaf holds the digest of one transaction; an internal node
//! holds the digest of its two children's digests and owns both children
//! exclusively, so the structure is a true tree.

use vstd::prelude::*;
use vstd::arithmetic::power2::{lemma2_to64, lemma_pow2_pos, lemma_pow2_unfold, pow2};
use vstd::arithmetic::div_mod::{lemma_basic_div, lemma_div_multiples_vanish_fancy};
use crate::hashing;
use crate::hashing::{leaf_digest, node_digest};
use crate::model::{
    lemma_index_of_first_is, lemma_occurrences_concat, lemma_occurrences_contains,
    lemma_recompute_root_low_bits, lemma_recompute_root_snoc, merkle_root, occurrences,
    recompute_root,
};

verus! {

/// One immutable element of the tree, either a leaf or an internal node with
/// exactly two children.
#[derive(Debug)]
pub struct Node {
    value: String,
    left: Option<Box<Node>>,
    right: Option<Box<Node>>,
}

impl Node {
    /// The digest this node commits to.
    pub closed spec fn digest(self) -> Seq<char> {
        self.value@
    }

    /// Whether this node is a leaf (no children).
    pub closed spec fn spec_is_leaf(self) -> bool {
        self.left is None && self.right is None
    }

    /// The number of levels strictly below this node; 0 for a leaf.
    pub closed spec fn depth(self) -> nat
        decreases self,
    {
        match self.left {
            Some(l) => 1 + l.depth(),
            None => 0,
        }
    }

    /// The leaf digests of this subtree, in left-to-right order.
    pub closed spec fn leaves(self) -> Seq<Seq<char>>
        decreases self,
    {
        match (self.left, self.right) {
            (Some(l), Some(r)) => l.leaves() + r.leaves(),
            _ => seq![self.value@],
        }
    }

    /// The number of nodes in this subtree, all layers counted.
    pub closed spec fn node_count(self) -> nat
        decreases self,
    {
        match (self.left, self.right) {
            (Some(l), Some(r)) => 1 + l.node_count() + r.node_count(),
            _ => 1,
        }
    }

    /// Well-formedness: every node has zero or two children, both subtrees
    /// of an internal node have the same depth (the tree is complete), and
    /// an internal node's digest is exactly the pair digest of its
    /// children's digests.
    pub closed spec fn well_formed(self) -> bool
        decreases self,
    {
        match (self.left, self.right) {
            (None, None) => true,
            (Some(l), Some(r)) => {
                &&& l.well_formed()
                &&& r.well_formed()
                &&& l.depth() == r.depth()
                &&& self.value@ == node_digest(l.digest(), r.digest())
            },
            _ => false,
        }
    }

    /// The sibling digests on the path from leaf number `i` of this subtree
    /// up to this node, ordered leaf first.
    pub closed spec fn sibling_path(self, i: int) -> Seq<Seq<char>>
        decreases self,
    {
        match (self.left, self.right) {
            (Some(l), Some(r)) => {
                if i < l.leaves().len() {
                    l.sibling_path(i).push(r.digest())
                } else {
                    r.sibling_path(i - l.leaves().len()).push(l.digest())
                }
            },
            _ => Seq::empty(),
        }
    }

    /// Create a leaf committing to one transaction.
    pub fn new_leaf(value: &str) -> (node: Node)
        ensures
            node.well_formed(),
            node.spec_is_leaf(),
            node.depth() == 0,
            node.digest() == leaf_digest(value@),
            node.leaves() == seq![leaf_digest(value@)],
    {
        let node = Node { value: hashing::hash_leaf(value), left: None, right: None };
        proof {
            assert(node.leaves() =~= seq![leaf_digest(value@)]);
        }
        node
    }

    /// Create an internal node over two subtrees of equal depth; its digest
    /// commits to the ordered pair of the children's digests.
    pub fn new(left: Node, right: Node) -> (node: Node)
        requires
            left.well_formed(),
            right.well_formed(),
            left.depth() == right.depth(),
        ensures
            node.well_formed(),
            !node.spec_is_leaf(),
            node.depth() == left.depth() + 1,
            node.digest() == node_digest(left.digest(), right.digest()),
            node.leaves() == left.leaves() + right.leaves(),
    {
        let value = hashing::concat_and_hash(left.get_value(), right.get_value());
        Node { value, left: Some(Box::new(left)), right: Some(Box::new(right)) }
    }

    /// The node's digest, as a printable string.
    pub fn get_value(&self) -> (value: &str)
        ensures
            value@ == self.digest(),
    {
        self.value.as_str()
    }

    /// Whether the node is a leaf.
    pub fn is_leaf(&self) -> (leaf: bool)
        ensures
            leaf == self.spec_is_leaf(),
    {
        self.left.is_none() && self.right.is_none()
    }

    /// The left child, if any: the subtree committing to the first half of
    /// the leaves.
    pub fn get_left(&self) -> (left: Option<&Box<Node>>)
        ensures
            self.well_formed() ==> ((left is Some) <==> !self.spec_is_leaf()),
            self.well_formed() && left is Some ==> ({
                let l = left->0;
                &&& l.well_formed()
                &&& self.depth() == 1 + l.depth()
                &&& l.leaves() == self.leaves().take(l.leaves().len() as int)
            }),
    {
        self.left.as_ref()
    }

    /// The right child, if any: the subtree committing to the second half of
    /// the leaves.
    pub fn get_right(&self) -> (right: Option<&Box<Node>>)
        ensures
            self.well_formed() ==> ((right is Some) <==> !self.spec_is_leaf()),
            self.well_formed() && right is Some ==> ({
                let r = right->0;
                &&& r.well_formed()
                &&& self.depth() == 1 + r.depth()
                &&& r.leaves() == self.leaves().skip(self.leaves().len() - r.leaves().len())
            }),
    {
        self.right.as_ref()
    }

    /// Whether this node's digest is the given one.
    pub(crate) fn value_matches(&self, other: &String) -> (matches: bool)
        ensures
            matches == (self.digest() == other@),
    {
        self.value == *other
    }

    /// Depth-first search for a leaf committing `hashed_query`; appends the
    /// sibling digests of the found leaf's root path to `path`, leaf first.
    /// When the digest occurs under both children of some node, entries for
    /// both subtrees are appended; the appended path is therefore only
    /// specified when the digest occurs in exactly one leaf.
    pub(crate) fn collect_path(&self, hashed_query: &String, path: &mut Vec<String>) -> (found:
        bool)
        requires
            self.well_formed(),
        ensures
            found == self.leaves().contains(hashed_query@),
            !found ==> final(path)@ == old(path)@,
            occurrences(self.leaves(), hashed_query@) == 1 ==> final(path).deep_view() == old(
                path,
            ).deep_view() + self.sibling_path(self.leaves().index_of_first(hashed_query@)->0),
        decreases *self,
    {
        let ghost q = hashed_query@;
        let ghost path0 = path.deep_view();
        match (&self.left, &self.right) {
            (Some(l), Some(r)) => {
                let ghost lls = l.leaves();
                let ghost rls = r.leaves();
                proof {
                    assert(self.leaves() == lls + rls);
                    lemma_occurrences_concat(lls, rls, q);
                    lemma_occurrences_contains(self.leaves(), q);
                    lemma_occurrences_contains(lls, q);
                    lemma_occurrences_contains(rls, q);
                }
                let found_left = l.collect_path(hashed_query, path);
                let ghost path1 = path.deep_view();
                let found_right = r.collect_path(hashed_query, path);
                let ghost path2 = path.deep_view();
                if found_left {
                    path.push(r.get_value().to_owned());
                    proof {
                        if occurrences(self.leaves(), q) == 1 {
                            lls.index_of_first_ensures(q);
                            let fi = lls.index_of_first(q)->0;
                            assert(occurrences(rls, q) == 0);
                            assert(path2 == path1);
                            assert(path1 == path0 + l.sibling_path(fi));
                            assert(self.leaves()[fi] == q);
                            assert(forall|j: int| 0 <= j < fi ==> self.leaves()[j] != q) by {
                                assert(forall|j: int|
                                    0 <= j < fi ==> #[trigger] self.leaves()[j] == lls[j]);
                            }
                            lemma_index_of_first_is(self.leaves(), q, fi);
                            assert(self.sibling_path(fi) == l.sibling_path(fi).push(r.digest()));
                            assert(path.deep_view() =~= path2.push(r.digest()));
                            assert(path.deep_view() =~= path0 + self.sibling_path(fi));
                        }
                    }
                    true
                } else if found_right {
                    path.push(l.get_value().to_owned());
                    proof {
                        if occurrences(self.leaves(), q) == 1 {
                            rls.index_of_first_ensures(q);
                            let fi = rls.index_of_first(q)->0;
                            let gi = lls.len() + fi;
                            assert(occurrences(lls, q) == 0);
                            assert(path1 == path0);
                            assert(path2 == path0 + r.sibling_path(fi));
                            assert(self.leaves()[gi] == q);
                            assert(forall|j: int| 0 <= j < gi ==> self.leaves()[j] != q) by {
                                assert(forall|j: int|
                                    0 <= j < lls.len() ==> #[trigger] self.leaves()[j] == lls[j]);
                                assert(forall|j: int|
                                    lls.len() <= j < gi ==> #[trigger] self.leaves()[j] == rls[j
                                        - lls.len()]);
                            }
                            lemma_index_of_first_is(self.leaves(), q, gi);
                            assert(self.sibling_path(gi) == r.sibling_path(fi).push(l.digest()));
                            assert(path.deep_view() =~= path2.push(l.digest()));
                            assert(path.deep_view() =~= path0 + self.sibling_path(gi));
                        }
                    }
                    true
                } else {
                    false
                }
            },
            _ => {
                proof {
                    assert(self.leaves() =~= seq![self.value@]);
                    if self.value@ == q {
                        assert(self.leaves()[0] == q);
                    }
                    if self.leaves().contains(q) {
                        let i = choose|i: int|
                            0 <= i < self.leaves().len() && self.leaves()[i] == q;
                        assert(self.leaves()[i] == self.value@);
                    }
                    if occurrences(self.leaves(), q) == 1 {
                        lemma_occurrences_contains(self.leaves(), q);
                        assert(self.leaves()[0] == q);
                        lemma_index_of_first_is(self.leaves(), q, 0);
                        assert(path0 + self.sibling_path(0) =~= path0);
                    }
                }
                self.value == *hashed_query
            },
        }
    }

    /// A well-formed subtree of depth `d` commits exactly `pow2(d)` leaves.
    pub proof fn lemma_leaves_len(self)
        requires
            self.well_formed(),
        ensures
            self.leaves().len() == pow2(self.depth()),
        decreases self,
    {
        match (self.left, self.right) {
            (Some(l), Some(r)) => {
                l.lemma_leaves_len();
                r.lemma_leaves_len();
                lemma_pow2_unfold(self.depth());
            },
            _ => {
                lemma2_to64();
            },
        }
    }

    /// A well-formed tree over `n` leaves has `2n - 1` nodes in all.
    pub proof fn lemma_node_count(self)
        requires
            self.well_formed(),
        ensures
            self.node_count() == 2 * self.leaves().len() - 1,
        decreases self,
    {
        match (self.left, self.right) {
            (Some(l), Some(r)) => {
                l.lemma_node_count();
                r.lemma_node_count();
            },
            _ => {},
        }
    }

    /// The sibling path of any leaf has one entry per level.
    pub proof fn lemma_sibling_path_len(self, i: int)
        requires
            self.well_formed(),
            0 <= i < self.leaves().len(),
        ensures
            self.sibling_path(i).len() == self.depth(),
        decreases self,
    {
        match (self.left, self.right) {
            (Some(l), Some(r)) => {
                if i < l.leaves().len() {
                    l.lemma_sibling_path_len(i);
                } else {
                    r.lemma_sibling_path_len(i - l.leaves().len());
                }
            },
            _ => {},
        }
    }

    /// A well-formed node's digest is the committed root of its leaves.
    pub proof fn lemma_digest_is_merkle_root(self)
        requires
            self.well_formed(),
        ensures
            self.digest() == merkle_root(self.leaves()),
        decreases self,
    {
        match (self.left, self.right) {
            (Some(l), Some(r)) => {
                l.lemma_leaves_len();
                r.lemma_leaves_len();
                lemma_pow2_pos(l.depth());
                l.lemma_digest_is_merkle_root();
                r.lemma_digest_is_merkle_root();
                let n = self.leaves().len() as int;
                assert(n == 2 * pow2(l.depth()));
                assert(n / 2 == l.leaves().len());
                assert(self.leaves().take(n / 2) =~= l.leaves());
                assert(self.leaves().skip(n / 2) =~= r.leaves());
                assert(merkle_root(self.leaves()) == node_digest(
                    merkle_root(l.leaves()),
                    merkle_root(r.leaves()),
                ));
            },
            _ => {
                assert(self.leaves() =~= seq![self.value@]);
            },
        }
    }

    /// Recomputing upwards from leaf `i` with its sibling path yields this
    /// node's digest: generated inclusion proofs verify.
    pub proof fn lemma_node_round_trip(self, i: int)
        requires
            self.well_formed(),
            0 <= i < self.leaves().len(),
        ensures
            recompute_root(self.leaves()[i], i as nat, self.sibling_path(i)) == self.digest(),
        decreases self,
    {
        match (self.left, self.right) {
            (Some(l), Some(r)) => {
                l.lemma_leaves_len();
                r.lemma_leaves_len();
                let llen = l.leaves().len() as int;
                let d = l.depth();
                lemma_pow2_pos(d);
                if i < llen {
                    l.lemma_node_round_trip(i);
                    l.lemma_sibling_path_len(i);
                    lemma_recompute_root_snoc(self.leaves()[i], i as nat, l.sibling_path(i),
                        r.digest());
                    lemma_basic_div(i, llen);
                    assert(self.leaves()[i] == l.leaves()[i]);
                } else {
                    let j = i - llen;
                    r.lemma_node_round_trip(j);
                    r.lemma_sibling_path_len(j);
                    assert(self.leaves()[i] == r.leaves()[j]);
                    lemma_recompute_root_low_bits(self.leaves()[i], j as nat, 1, d,
                        r.sibling_path(j));
                    assert(j + 1 * pow2(d) == i);
                    lemma_recompute_root_snoc(self.leaves()[i], i as nat, r.sibling_path(j),
                        l.digest());
                    lemma_div_multiples_vanish_fancy(1, j, llen);
                    assert((i / pow2(d) as int) == 1);
                }
            },
            _ => {},
        }
    }
}

} // verus!
