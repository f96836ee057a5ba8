//! The mathematical model of the tree: the root digest a transaction list
//! commits to, the verifier's recomputation of that digest from a leaf and a
//! sibling path, occurrence counting, and the lemmas that make the tree's
//! determinism, order-sensitivity and tamper-detection properties provable.

use vstd::prelude::*;
use vstd::arithmetic::power2::{
    lemma2_to64, lemma_pow2_pos, lemma_pow2_strictly_increases, lemma_pow2_unfold, pow2,
};
use vstd::arithmetic::div_mod::lemma_div_denominator;
use crate::hashing::{leaf_digest, lemma_node_digest_injective, node_digest};

verus! {

/// The root digest that an ordered transaction list commits to, meaningful
/// for lists whose length is a power of two: a single transaction commits
/// its leaf digest, a longer list is split in half and the two halves' roots
/// are combined in order.
pub open spec fn merkle_root(l: Seq<Seq<char>>) -> Seq<char>
    decreases l.len(),
{
    if l.len() <= 1 {
        if l.len() == 1 {
            leaf_digest(l[0])
        } else {
            Seq::empty()
        }
    } else {
        node_digest(
            merkle_root(l.take(l.len() as int / 2)),
            merkle_root(l.skip(l.len() as int / 2)),
        )
    }
}

/// How a verifier recomputes the root from a leaf digest, the leaf's list
/// index and an ordered sibling path: at each level the running index's
/// parity decides whether the running digest is the left or the right
/// operand, and the index halves on the way up.
pub open spec fn recompute_root(h: Seq<char>, index: nat, siblings: Seq<Seq<char>>) -> Seq<char>
    decreases siblings.len(),
{
    if siblings.len() == 0 {
        h
    } else {
        let next = if index % 2 == 0 {
            node_digest(h, siblings[0])
        } else {
            node_digest(siblings[0], h)
        };
        recompute_root(next, index / 2, siblings.drop_first())
    }
}

/// How many positions of `l` hold the value `x`.
pub open spec fn occurrences(l: Seq<Seq<char>>, x: Seq<char>) -> nat
    decreases l.len(),
{
    if l.len() == 0 {
        0
    } else {
        occurrences(l.drop_first(), x) + (if l[0] == x {
            1nat
        } else {
            0nat
        })
    }
}

/// Occurrence counts add over concatenation.
pub proof fn lemma_occurrences_concat(l: Seq<Seq<char>>, r: Seq<Seq<char>>, x: Seq<char>)
    ensures
        occurrences(l + r, x) == occurrences(l, x) + occurrences(r, x),
    decreases l.len(),
{
    if l.len() == 0 {
        assert(l + r =~= r);
    } else {
        assert((l + r).drop_first() =~= l.drop_first() + r);
        assert((l + r)[0] == l[0]);
        lemma_occurrences_concat(l.drop_first(), r, x);
    }
}

/// A value occurs in a list exactly when its occurrence count is positive.
pub proof fn lemma_occurrences_contains(l: Seq<Seq<char>>, x: Seq<char>)
    ensures
        (occurrences(l, x) >= 1) <==> l.contains(x),
    decreases l.len(),
{
    if l.len() > 0 {
        lemma_occurrences_contains(l.drop_first(), x);
        if l[0] == x {
            assert(l.contains(x));
        } else {
            if l.drop_first().contains(x) {
                let i = choose|i: int|
                    0 <= i < l.drop_first().len() && l.drop_first()[i] == x;
                assert(l[i + 1] == x);
            }
            if l.contains(x) {
                let i = choose|i: int| 0 <= i < l.len() && l[i] == x;
                assert(i != 0);
                assert(l.drop_first()[i - 1] == x);
            }
        }
    }
}

/// An index that holds `x` and has no earlier occurrence of `x` is the first
/// occurrence.
pub proof fn lemma_index_of_first_is(l: Seq<Seq<char>>, x: Seq<char>, i: int)
    requires
        0 <= i < l.len(),
        l[i] == x,
        forall|j: int| 0 <= j < i ==> l[j] != x,
    ensures
        l.index_of_first(x) == Some(i),
{
    assert(l.contains(x));
    l.index_of_first_ensures(x);
    let k = l.index_of_first(x)->0;
    if k < i {
        assert(l[k] != x);
    }
    if i < k {
        assert(l[i] != x);
    }
}

/// Powers of two are distinct.
pub proof fn lemma_pow2_injective(e1: nat, e2: nat)
    requires
        pow2(e1) == pow2(e2),
    ensures
        e1 == e2,
{
    if e1 < e2 {
        lemma_pow2_strictly_increases(e1, e2);
    }
    if e2 < e1 {
        lemma_pow2_strictly_increases(e2, e1);
    }
}

/// Appending one sibling to the path combines the recomputed digest with it,
/// on the side chosen by the index's parity at that level.
pub proof fn lemma_recompute_root_snoc(
    h: Seq<char>,
    index: nat,
    siblings: Seq<Seq<char>>,
    last: Seq<char>,
)
    ensures
        recompute_root(h, index, siblings.push(last)) == (if (index / pow2(siblings.len()))
            % 2 == 0 {
            node_digest(recompute_root(h, index, siblings), last)
        } else {
            node_digest(last, recompute_root(h, index, siblings))
        }),
    decreases siblings.len(),
{
    if siblings.len() == 0 {
        lemma2_to64();
        let unit = siblings.push(last);
        let next = if index % 2 == 0 {
            node_digest(h, last)
        } else {
            node_digest(last, h)
        };
        assert(unit[0] == last);
        assert(unit.drop_first().len() == 0);
        assert(recompute_root(h, index, unit) == recompute_root(next, index / 2, unit.drop_first()));
        assert(recompute_root(next, index / 2, unit.drop_first()) == next);
        assert(index / pow2(0) == index);
    } else {
        let tail = siblings.drop_first();
        assert(siblings.push(last)[0] == siblings[0]);
        assert(siblings.push(last).drop_first() =~= tail.push(last));
        let next = if index % 2 == 0 {
            node_digest(h, siblings[0])
        } else {
            node_digest(siblings[0], h)
        };
        assert(recompute_root(h, index, siblings.push(last)) == recompute_root(
            next,
            index / 2,
            tail.push(last),
        ));
        assert(recompute_root(h, index, siblings) == recompute_root(next, index / 2, tail));
        lemma_recompute_root_snoc(next, index / 2, tail, last);
        lemma_pow2_pos(tail.len());
        lemma_pow2_unfold(siblings.len());
        lemma_div_denominator(index as int, 2, pow2(tail.len()) as int);
        assert((index / 2) / pow2(tail.len()) == index / pow2(siblings.len()));
    }
}

/// The recomputed root only depends on the index's low bits: bits above the
/// path's length do not matter.
pub proof fn lemma_recompute_root_low_bits(
    h: Seq<char>,
    i: nat,
    c: nat,
    m: nat,
    siblings: Seq<Seq<char>>,
)
    requires
        siblings.len() <= m,
    ensures
        recompute_root(h, (i + c * pow2(m)) as nat, siblings) == recompute_root(h, i, siblings),
    decreases siblings.len(),
{
    if siblings.len() > 0 {
        let p = pow2((m - 1) as nat) as int;
        let q = c as int * p;
        assert(c as int * pow2(m) == 2 * q) by {
            lemma_pow2_unfold(m);
            assert(c as int * (2 * p) == 2 * (c as int * p)) by (nonlinear_arith);
        }
        let big = i + c * pow2(m);
        assert(big == 2 * q + i);
        assert((2 * q + i) % 2 == i % 2);
        assert((2 * q + i) / 2 == q + i / 2);
        let next = if i % 2 == 0 {
            node_digest(h, siblings[0])
        } else {
            node_digest(siblings[0], h)
        };
        lemma_pow2_pos((m - 1) as nat);
        assert(q + i / 2 == i / 2 + c * pow2((m - 1) as nat));
        lemma_recompute_root_low_bits(next, i / 2, c, (m - 1) as nat, siblings.drop_first());
    }
}

/// Recomputation is injective: with the same starting index and path length,
/// equal recomputed roots force an equal leaf digest and equal paths.
pub proof fn lemma_recompute_root_injective(
    h1: Seq<char>,
    h2: Seq<char>,
    index: nat,
    s1: Seq<Seq<char>>,
    s2: Seq<Seq<char>>,
)
    requires
        s1.len() == s2.len(),
        recompute_root(h1, index, s1) == recompute_root(h2, index, s2),
    ensures
        h1 == h2,
        s1 == s2,
    decreases s1.len(),
{
    if s1.len() == 0 {
        assert(s1 =~= s2);
    } else {
        let n1 = if index % 2 == 0 {
            node_digest(h1, s1[0])
        } else {
            node_digest(s1[0], h1)
        };
        let n2 = if index % 2 == 0 {
            node_digest(h2, s2[0])
        } else {
            node_digest(s2[0], h2)
        };
        lemma_recompute_root_injective(n1, n2, index / 2, s1.drop_first(), s2.drop_first());
        if index % 2 == 0 {
            lemma_node_digest_injective(h1, s1[0], h2, s2[0]);
        } else {
            lemma_node_digest_injective(s1[0], h1, s2[0], h2);
        }
        assert(s1 =~= s2) by {
            assert(forall|j: int|
                1 <= j < s1.len() ==> #[trigger] s1[j] == s1.drop_first()[j - 1] && s2[j]
                    == s2.drop_first()[j - 1]);
        }
    }
}

/// The committed root is injective in the transaction list: two lists of the
/// same length with the same root digest are the same list.
pub proof fn lemma_merkle_root_injective(l1: Seq<Seq<char>>, l2: Seq<Seq<char>>)
    requires
        l1.len() == l2.len(),
        l1.len() >= 1,
        merkle_root(l1) == merkle_root(l2),
    ensures
        l1 == l2,
    decreases l1.len(),
{
    if l1.len() == 1 {
        assert(l1 =~= l2);
    } else {
        let half = l1.len() as int / 2;
        lemma_node_digest_injective(
            merkle_root(l1.take(half)),
            merkle_root(l1.skip(half)),
            merkle_root(l2.take(half)),
            merkle_root(l2.skip(half)),
        );
        lemma_merkle_root_injective(l1.take(half), l2.take(half));
        lemma_merkle_root_injective(l1.skip(half), l2.skip(half));
        assert(l1 =~= l1.take(half) + l1.skip(half));
        assert(l2 =~= l2.take(half) + l2.skip(half));
    }
}

} // verus!
