//! A fixed binary Merkle tree over an ordered list of transactions.
//!
//! The tree commits to the whole list through a single root digest, and
//! supports generating and verifying inclusion proofs: ordered lists of
//! sibling digests that let a verifier recompute the root digest from a
//! single leaf. Construction requires the number of transactions to be a
//! power of two; a list of any other non-zero length yields a tree with an
//! empty root. All operations are total and signal failure through sentinel
//! values (an empty root digest, an empty proof, `false`).

pub mod hashing;
pub mod model;
pub mod node;

use vstd::prelude::*;
use vstd::arithmetic::power2::{is_pow2, lemma2_to64, pow2};
use crate::hashing::leaf_digest;
use crate::model::{
    lemma_index_of_first_is, lemma_merkle_root_injective, lemma_occurrences_contains,
    lemma_pow2_injective, lemma_recompute_root_injective, merkle_root, occurrences,
    recompute_root,
};
use crate::node::Node;

verus! {

/// A Merkle tree: the committed ordered transaction list and, when the
/// list's length is a power of two, the root of the digest tree built over
/// it.
#[derive(Debug)]
pub struct MerkleTree {
    root: Option<Box<Node>>,
    transactions: Vec<String>,
}

impl MerkleTree {
    /// The committed, ordered transaction list.
    pub closed spec fn txs(self) -> Seq<Seq<char>> {
        self.transactions.deep_view()
    }

    /// Whether construction committed a root.
    pub closed spec fn has_root(self) -> bool {
        self.root is Some
    }

    /// The tree's commitment: the root node's digest, or the empty sentinel
    /// when there is no root.
    pub closed spec fn root_digest(self) -> Seq<char> {
        match self.root {
            Some(n) => n.digest(),
            None => Seq::empty(),
        }
    }

    /// The number of levels of the tree: `log2(n) + 1` for `n` committed
    /// leaves, 0 when there is no root.
    pub closed spec fn height(self) -> nat {
        match self.root {
            Some(n) => n.depth() + 1,
            None => 0,
        }
    }

    /// Well-formedness: a root exists exactly when the list's length is a
    /// non-zero power of two, and then the root is a well-formed digest tree
    /// whose leaves commit the transactions in order.
    pub closed spec fn well_formed(self) -> bool {
        match self.root {
            Some(n) => {
                &&& n.well_formed()
                &&& n.leaves() == self.txs()
                &&& self.txs().len() >= 1
                &&& is_pow2(self.txs().len() as int)
            },
            None => !(self.txs().len() >= 1 && is_pow2(self.txs().len() as int)),
        }
    }

    /// The inclusion proof belonging to the first occurrence of `q`: the
    /// sibling digests on its path, leaf first.
    pub closed spec fn proof_for(self, q: Seq<char>) -> Seq<Seq<char>> {
        match self.root {
            Some(n) => n.sibling_path(self.txs().index_of_first(q)->0),
            None => Seq::empty(),
        }
    }

    /// What it means for `siblings` to prove that `q` is committed: `q` is
    /// in the list, the tree has a root, the path is non-empty, and
    /// recomputing upwards from `q`'s leaf digest at `q`'s first list index
    /// reproduces the root digest.
    pub open spec fn verify_spec(self, q: Seq<char>, siblings: Seq<Seq<char>>) -> bool {
        &&& self.txs().contains(q)
        &&& self.has_root()
        &&& siblings.len() > 0
        &&& recompute_root(
            leaf_digest(q),
            self.txs().index_of_first(q)->0 as nat,
            siblings,
        ) == self.root_digest()
    }

    /// Build a tree committing to `data`. Never fails: when the list's
    /// length is neither zero nor a power of two (the non-power-of-two
    /// leaf-count condition) the tree keeps the list but has no root.
    pub fn new(data: Vec<String>) -> (tree: MerkleTree)
        ensures
            tree.well_formed(),
            tree.txs() == data.deep_view(),
            tree.has_root() <==> (data@.len() >= 1 && is_pow2(data@.len() as int)),
            tree.has_root() ==> tree.root_digest() == merkle_root(tree.txs()),
            !tree.has_root() ==> tree.root_digest() == Seq::<char>::empty(),
            tree.has_root() ==> tree.height() >= 1 && pow2((tree.height() - 1) as nat)
                == data@.len(),
    {
        let root = Self::build(&data);
        let tree = MerkleTree { root, transactions: data };
        proof {
            match &tree.root {
                Some(n) => {
                    n.lemma_digest_is_merkle_root();
                },
                None => {},
            }
        }
        tree
    }

    /// The digest tree over `data`, bottom layer to root; `None` when the
    /// length is zero or not a power of two.
    fn build(data: &Vec<String>) -> (root: Option<Box<Node>>)
        ensures
            match root {
                Some(n) => {
                    &&& data@.len() >= 1 && is_pow2(data@.len() as int)
                    &&& n.well_formed()
                    &&& n.leaves() == data.deep_view()
                    &&& pow2(n.depth()) == data@.len()
                },
                None => !(data@.len() >= 1 && is_pow2(data@.len() as int)),
            },
    {
        let n_leafs = data.len();
        if n_leafs == 0 {
            proof {
                reveal(is_pow2);
            }
            return None;
        }
        if !is_power_of_two(n_leafs) {
            return None;
        }
        let node = Self::build_range(data, 0, n_leafs);
        proof {
            assert(data.deep_view().subrange(0, n_leafs as int) =~= data.deep_view());
        }
        Some(Box::new(node))
    }

    /// The digest subtree over `data[lo..hi]`, for a range whose length is
    /// a power of two.
    fn build_range(data: &Vec<String>, lo: usize, hi: usize) -> (node: Node)
        requires
            lo < hi <= data@.len(),
            is_pow2((hi - lo) as int),
        ensures
            node.well_formed(),
            node.leaves() == data.deep_view().subrange(lo as int, hi as int),
            pow2(node.depth()) == hi - lo,
        decreases hi - lo,
    {
        proof {
            reveal(is_pow2);
        }
        if hi - lo == 1 {
            let node = Node::new_leaf(data[lo].as_str());
            proof {
                lemma2_to64();
                assert(node.leaves() =~= data.deep_view().subrange(lo as int, hi as int));
            }
            node
        } else {
            let mid = lo + (hi - lo) / 2;
            let left = Self::build_range(data, lo, mid);
            let right = Self::build_range(data, mid, hi);
            proof {
                lemma_pow2_injective(left.depth(), right.depth());
                vstd::arithmetic::power2::lemma_pow2_unfold((left.depth() + 1) as nat);
            }
            let node = Node::new(left, right);
            proof {
                assert(node.leaves() =~= data.deep_view().subrange(lo as int, hi as int));
            }
            node
        }
    }

    /// The committed root digest, printable; the empty string when the tree
    /// has no root.
    pub fn get_root_hash(&self) -> (digest: &str)
        ensures
            digest@ == self.root_digest(),
            self.well_formed() && self.has_root() ==> digest@ == merkle_root(self.txs()),
    {
        match &self.root {
            Some(n) => {
                proof {
                    if self.well_formed() {
                        n.lemma_digest_is_merkle_root();
                    }
                }
                n.get_value()
            },
            None => {
                proof {
                    reveal_strlit("");
                    assert(""@ =~= Seq::<char>::empty());
                }
                ""
            },
        }
    }

    /// An inclusion proof for `query`: the sibling digests from its leaf up
    /// to the root, leaf first. Empty when `query` is not a committed
    /// transaction or the tree has no root; only specified further when
    /// `query` occurs exactly once in the list.
    pub fn generate_proof(&self, query: &str) -> (proof_digests: Vec<String>)
        requires
            self.well_formed(),
        ensures
            !(self.txs().contains(query@) && self.has_root()) ==> proof_digests@.len() == 0,
            self.txs().contains(query@) && self.has_root() && occurrences(self.txs(), query@)
                == 1 ==> {
                &&& proof_digests.deep_view() == self.proof_for(query@)
                &&& proof_digests@.len() == self.height() - 1
            },
    {
        let query_string = query.to_owned();
        if Self::find_first(&self.transactions, &query_string).is_none() {
            return Vec::new();
        }
        if self.root.is_none() {
            return Vec::new();
        }
        let hashed_query = hashing::hash_leaf(query);
        let mut path: Vec<String> = Vec::new();
        self.get_proof(self.root.as_ref(), &hashed_query, &mut path);
        proof {
            if self.txs().contains(query@) && occurrences(self.txs(), query@) == 1 {
                let n = self.root->0;
                let fi = self.txs().index_of_first(query@)->0;
                self.txs().index_of_first_ensures(query@);
                n.lemma_sibling_path_len(fi);
                assert(path.deep_view() =~= Seq::<Seq<char>>::empty() + n.sibling_path(fi));
                assert(path@.len() == path.deep_view().len());
            }
        }
        path
    }

    /// Verify an inclusion proof for `query` against the committed root,
    /// recomputing the root digest level by level: at each level the
    /// running index's parity decides on which side the running digest
    /// stands, and the index halves.
    pub fn verify_proof(&self, query: &str, path: &Vec<String>) -> (valid: bool)
        requires
            self.well_formed(),
        ensures
            valid == self.verify_spec(query@, path.deep_view()),
            !self.txs().contains(query@) ==> !valid,
    {
        let query_string = query.to_owned();
        let found = Self::find_first(&self.transactions, &query_string);
        if found.is_none() {
            return false;
        }
        let root_node = match &self.root {
            Some(n) => n,
            None => {
                return false;
            },
        };
        if path.len() == 0 {
            return false;
        }
        proof {
            self.txs().index_of_first_ensures(query@);
        }
        let ghost fi = self.txs().index_of_first(query@)->0;
        let mut index = found.unwrap();
        let mut hash = hashing::hash_leaf(query);
        let n = path.len();
        let mut k: usize = 0;
        proof {
            assert(path.deep_view().skip(0) =~= path.deep_view());
        }
        while k < n
            invariant
                k <= n,
                n == path@.len(),
                recompute_root(leaf_digest(query@), fi as nat, path.deep_view())
                    == recompute_root(hash@, index as nat, path.deep_view().skip(k as int)),
            decreases n - k,
        {
            if index % 2 == 0 {
                hash = hashing::concat_and_hash(hash.as_str(), path[k].as_str());
            } else {
                hash = hashing::concat_and_hash(path[k].as_str(), hash.as_str());
            }
            index = index / 2;
            k += 1;
            proof {
                assert(path.deep_view().skip(k - 1 as int).drop_first() =~= path.deep_view().skip(
                    k as int,
                ));
                assert(path.deep_view().skip(k - 1 as int)[0] == path.deep_view()[k - 1 as int]);
            }
        }
        proof {
            assert(path.deep_view().skip(n as int) =~= Seq::<Seq<char>>::empty());
        }
        root_node.value_matches(&hash)
    }

    /// Recursive proof collection over an optional subtree, as used by the
    /// proof generator; hands the search to the node's own depth-first
    /// walk.
    fn get_proof(&self, root: Option<&Box<Node>>, hashed_query: &String, path: &mut Vec<String>)
        -> (found: bool)
        requires
            root matches Some(n) ==> n.well_formed(),
        ensures
            match root {
                None => !found && final(path)@ == old(path)@,
                Some(n) => {
                    &&& found == n.leaves().contains(hashed_query@)
                    &&& (!found ==> final(path)@ == old(path)@)
                    &&& (occurrences(n.leaves(), hashed_query@) == 1 ==> final(path).deep_view()
                        == old(path).deep_view() + n.sibling_path(
                        n.leaves().index_of_first(hashed_query@)->0,
                    ))
                },
            },
    {
        match root {
            None => false,
            Some(n) => n.collect_path(hashed_query, path),
        }
    }

    /// The index of the first list entry equal to `query`, if any.
    fn find_first(data: &Vec<String>, query: &String) -> (found: Option<usize>)
        ensures
            match found {
                Some(i) => i < data@.len() && data.deep_view().index_of_first(query@) == Some(
                    i as int,
                ),
                None => !data.deep_view().contains(query@),
            },
    {
        let n = data.len();
        let mut i: usize = 0;
        while i < n
            invariant
                i <= n,
                n == data@.len(),
                forall|j: int| 0 <= j < i ==> data.deep_view()[j] != query@,
            decreases n - i,
        {
            if data[i] == *query {
                proof {
                    lemma_index_of_first_is(data.deep_view(), query@, i as int);
                }
                return Some(i);
            }
            i += 1;
        }
        proof {
            if data.deep_view().contains(query@) {
                let j = choose|j: int|
                    0 <= j < data.deep_view().len() && data.deep_view()[j] == query@;
                assert(data.deep_view()[j] != query@);
            }
        }
        None
    }
}

/// Whether `n` is a power of two, by repeated halving.
fn is_power_of_two(n: usize) -> (b: bool)
    ensures
        b == is_pow2(n as int),
{
    if n == 0 {
        proof {
            reveal(is_pow2);
        }
        return false;
    }
    let mut m = n;
    while m % 2 == 0
        invariant
            1 <= m <= n,
            is_pow2(n as int) == is_pow2(m as int),
        decreases m,
    {
        proof {
            reveal(is_pow2);
        }
        m = m / 2;
    }
    proof {
        reveal(is_pow2);
    }
    m == 1
}

/// Root determinism: the root digest is a pure function of the transaction
/// list, so two trees over the same list commit the same digest.
pub proof fn lemma_root_deterministic(t1: MerkleTree, t2: MerkleTree)
    requires
        t1.well_formed(),
        t2.well_formed(),
        t1.txs() == t2.txs(),
    ensures
        t1.root_digest() == t2.root_digest(),
{
    match (t1.root, t2.root) {
        (Some(n1), Some(n2)) => {
            n1.lemma_digest_is_merkle_root();
            n2.lemma_digest_is_merkle_root();
        },
        (None, None) => {},
        _ => {
            assert(false);
        },
    }
}

/// Order sensitivity: two trees with roots over equally long but different
/// transaction lists commit different root digests. In particular any
/// permutation that changes the list changes the root digest.
pub proof fn lemma_order_sensitivity(t1: MerkleTree, t2: MerkleTree)
    requires
        t1.well_formed(),
        t2.well_formed(),
        t1.has_root(),
        t2.has_root(),
        t1.txs().len() == t2.txs().len(),
        t1.txs() != t2.txs(),
    ensures
        t1.root_digest() != t2.root_digest(),
{
    if t1.root_digest() == t2.root_digest() {
        match (t1.root, t2.root) {
            (Some(n1), Some(n2)) => {
                n1.lemma_digest_is_merkle_root();
                n2.lemma_digest_is_merkle_root();
                lemma_merkle_root_injective(t1.txs(), t2.txs());
            },
            _ => {},
        }
    }
}

/// Round trip: in a tree with a root and at least two leaves, the proof
/// generated for a transaction that occurs exactly once in the list
/// verifies against the root.
pub proof fn lemma_proof_round_trip(t: MerkleTree, q: Seq<char>)
    requires
        t.well_formed(),
        t.has_root(),
        t.txs().len() >= 2,
        occurrences(t.txs(), q) == 1,
    ensures
        t.verify_spec(q, t.proof_for(q)),
{
    lemma_occurrences_contains(t.txs(), q);
    t.txs().index_of_first_ensures(q);
    let fi = t.txs().index_of_first(q)->0;
    match t.root {
        Some(n) => {
            n.lemma_leaves_len();
            n.lemma_sibling_path_len(fi);
            n.lemma_node_round_trip(fi);
            lemma2_to64();
            assert(n.depth() >= 1);
        },
        None => {},
    }
}

/// Tamper detection: any proof of the same length as an accepted proof but
/// differing from it anywhere, by a flipped digest or a substituted valid
/// sibling digest, is rejected.
pub proof fn lemma_tamper_detection(
    t: MerkleTree,
    q: Seq<char>,
    accepted: Seq<Seq<char>>,
    tampered: Seq<Seq<char>>,
)
    requires
        t.verify_spec(q, accepted),
        tampered.len() == accepted.len(),
        tampered != accepted,
    ensures
        !t.verify_spec(q, tampered),
{
    if t.verify_spec(q, tampered) {
        lemma_recompute_root_injective(
            leaf_digest(q),
            leaf_digest(q),
            t.txs().index_of_first(q)->0 as nat,
            accepted,
            tampered,
        );
    }
}

} // verus!
