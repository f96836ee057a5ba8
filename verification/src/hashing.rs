//! The digest primitive: a deterministic, pure, collision-resistant pair of
//! functions mapping a transaction to a leaf digest and a pair of child
//! digests to a parent digest.
//!
//! The primitive used here is an injective encoding rather than a fixed-size
//! compression function. Injectivity is a strictly stronger form of collision
//! resistance, and it makes the tree's tamper-detection and order-sensitivity
//! properties provable theorems instead of probabilistic assumptions.

use vstd::prelude::*;
use vstd::string::StrSliceExecFns;
use vstd::string::StringExecFns;

verus! {

/// The digest committed by a leaf for a given transaction.
pub open spec fn leaf_digest(t: Seq<char>) -> Seq<char> {
    t
}

/// The digest committed by an internal node over the ordered pair of its
/// children's digests: the left digest's length in unary (a run of 'x'),
/// a marker 'g' that cannot occur inside the unary run, then the two
/// digests themselves. The marker makes the encoding of the pair injective,
/// and the order of the operands matters.
pub open spec fn node_digest(a: Seq<char>, b: Seq<char>) -> Seq<char> {
    Seq::new(a.len(), |i: int| 'x') + seq!['g'] + a + b
}

/// Collision freedom of the pair digest: equal parent digests can only come
/// from equal ordered pairs of child digests.
pub proof fn lemma_node_digest_injective(
    a1: Seq<char>,
    b1: Seq<char>,
    a2: Seq<char>,
    b2: Seq<char>,
)
    requires
        node_digest(a1, b1) == node_digest(a2, b2),
    ensures
        a1 == a2,
        b1 == b2,
{
    lemma_node_digest_char_at(a1, b1);
    lemma_node_digest_char_at(a2, b2);
    let d = node_digest(a1, b1);
    let n = a1.len() as int;
    assert(a1.len() == a2.len()) by {
        if a1.len() < a2.len() {
            assert(d[a1.len() as int] == 'g');
            assert(d[a1.len() as int] == 'x');
        }
        if a2.len() < a1.len() {
            assert(d[a2.len() as int] == 'g');
            assert(d[a2.len() as int] == 'x');
        }
    }
    assert(d.len() == 2 * n + 1 + b1.len());
    assert(d.len() == 2 * n + 1 + b2.len());
    assert(a1 =~= a2) by {
        assert(forall|i: int| 0 <= i < a1.len() ==> #[trigger] a1[i] == d[n + 1 + i]);
        assert(forall|i: int| 0 <= i < a2.len() ==> #[trigger] a2[i] == d[n + 1 + i]);
    }
    assert(b1 =~= b2) by {
        assert(forall|i: int| 0 <= i < b1.len() ==> #[trigger] b1[i] == d[2 * n + 1 + i]);
        assert(forall|i: int| 0 <= i < b2.len() ==> #[trigger] b2[i] == d[2 * n + 1 + i]);
    }
}

/// Where each character of a pair digest comes from.
proof fn lemma_node_digest_char_at(a: Seq<char>, b: Seq<char>)
    ensures
        node_digest(a, b).len() == 2 * a.len() + 1 + b.len(),
        forall|i: int| 0 <= i < a.len() ==> #[trigger] node_digest(a, b)[i] == 'x',
        node_digest(a, b)[a.len() as int] == 'g',
        forall|i: int|
            0 <= i < a.len() ==> #[trigger] node_digest(a, b)[a.len() + 1 + i] == a[i],
        forall|i: int|
            0 <= i < b.len() ==> #[trigger] node_digest(a, b)[2 * a.len() + 1 + i] == b[i],
{
    let d = node_digest(a, b);
    let pad = Seq::new(a.len(), |i: int| 'x');
    assert(d =~= (pad + seq!['g'] + a) + b);
    assert forall|i: int| 0 <= i < a.len() implies #[trigger] d[i] == 'x' by {
        assert(d[i] == pad[i]);
    }
    assert forall|i: int| 0 <= i < a.len() implies #[trigger] d[a.len() + 1 + i] == a[i] by {
        assert(d[a.len() + 1 + i] == a[i]);
    }
    assert forall|i: int| 0 <= i < b.len() implies #[trigger] d[2 * a.len() + 1 + i] == b[i] by {
        assert(d[2 * a.len() + 1 + i] == b[i]);
    }
}

/// Hash a transaction into its leaf digest.
pub fn hash_leaf(value: &str) -> (digest: String)
    ensures
        digest@ == leaf_digest(value@),
{
    value.to_owned()
}

/// Hash the ordered concatenation of two digests into a parent digest.
pub fn concat_and_hash(a: &str, b: &str) -> (digest: String)
    ensures
        digest@ == node_digest(a@, b@),
{
    let n = a.unicode_len();
    let mut digest = String::new();
    let mut i: usize = 0;
    while i < n
        invariant
            i <= n,
            n == a@.len(),
            digest@ == Seq::new(i as nat, |k: int| 'x'),
        decreases n - i,
    {
        digest.append("x");
        i += 1;
        proof {
            reveal_strlit("x");
            assert(digest@ =~= Seq::new(i as nat, |k: int| 'x'));
        }
    }
    digest.append("g");
    digest.append(a);
    digest.append(b);
    proof {
        reveal_strlit("g");
        assert(digest@ =~= node_digest(a@, b@));
    }
    digest
}

} // verus!
