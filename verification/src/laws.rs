//! The tree's standing invariants, each stated and proved once for every
//! well-formed tree. Since `new` establishes well-formedness and `insert`
//! and `remove` preserve it, these hold after any sequence of operations.
use vstd::prelude::*;
use crate::b_tree::BTree;
use crate::lemmas::{lemma_counts_bounded, lemma_depths_equal, lemma_traversal};

verus! {

/// Sorted-order invariant: the in-order traversal of a well-formed tree is
/// strictly increasing — so no key appears twice — and it visits exactly the
/// keys of the map the tree represents.
pub proof fn sorted_order_invariant<V>(t: BTree<V>)
    requires
        t.wf(),
    ensures
        forall|i: int, j: int|
            0 <= i < j < t.traversal().len() ==> t.traversal()[i] < t.traversal()[j],
        forall|k: u64| #[trigger] t.traversal().contains(k) <==> t@.contains_key(k),
{
    lemma_traversal(t.root, t.spec_order(), None, None);
}

/// A strictly increasing sequence is determined by the set of its entries:
/// two such sequences holding the same keys are the same sequence. Together
/// with the sorted-order invariant this pins the traversal down: it is the
/// one strictly increasing listing of the keys of the tree's map.
pub proof fn sorted_listing_unique(s1: Seq<u64>, s2: Seq<u64>)
    requires
        forall|i: int, j: int| 0 <= i < j < s1.len() ==> s1[i] < s1[j],
        forall|i: int, j: int| 0 <= i < j < s2.len() ==> s2[i] < s2[j],
        forall|k: u64| s1.contains(k) <==> s2.contains(k),
    ensures
        s1 == s2,
    decreases s1.len(),
{
    if s1.len() == 0 {
        assert(s2.len() == 0) by {
            if s2.len() > 0 {
                assert(s2.contains(s2[0]));
                assert(s1.contains(s2[0]));
            }
        }
        assert(s1 =~= s2);
    } else {
        assert(s2.len() > 0) by {
            assert(s1.contains(s1[0]));
            assert(s2.contains(s1[0]));
        }
        // The heads are each sequence's least entry, and the sets agree.
        assert(s1[0] == s2[0]) by {
            assert(s1.contains(s1[0]));
            assert(s2.contains(s1[0]));
            let j = choose|j: int| 0 <= j < s2.len() && s2[j] == s1[0];
            assert(s2[0] <= s2[j]);
            assert(s2.contains(s2[0]));
            assert(s1.contains(s2[0]));
            let i = choose|i: int| 0 <= i < s1.len() && s1[i] == s2[0];
            assert(s1[0] <= s1[i]);
        }
        let t1 = s1.skip(1);
        let t2 = s2.skip(1);
        assert forall|k: u64| #[trigger] t1.contains(k) <==> t2.contains(k) by {
            if t1.contains(k) {
                let i = choose|i: int| 0 <= i < t1.len() && t1[i] == k;
                assert(s1[i + 1] == k);
                assert(s1[0] < k);
                assert(s1.contains(k));
                assert(s2.contains(k));
                let j = choose|j: int| 0 <= j < s2.len() && s2[j] == k;
                assert(j != 0);
                assert(t2[j - 1] == k);
                assert(t2.contains(k));
            }
            if t2.contains(k) {
                let j = choose|j: int| 0 <= j < t2.len() && t2[j] == k;
                assert(s2[j + 1] == k);
                assert(s2[0] < k);
                assert(s2.contains(k));
                assert(s1.contains(k));
                let i = choose|i: int| 0 <= i < s1.len() && s1[i] == k;
                assert(i != 0);
                assert(t1[i - 1] == k);
                assert(t1.contains(k));
            }
        }
        sorted_listing_unique(t1, t2);
        assert forall|i: int| 0 <= i < s1.len() implies s1[i] == s2[i] by {
            if i > 0 {
                assert(t1[i - 1] == s1[i]);
                assert(t2[i - 1] == s2[i]);
            }
        }
        assert(s1 =~= s2);
    }
}

/// Fill-bound invariant: in a well-formed tree every node other than the
/// root holds between `order / 2 - 1` and `order` keys; the root holds
/// between 1 and `order`. The counts run over every node of the tree, root
/// first.
pub proof fn fill_bound_invariant<V>(t: BTree<V>)
    requires
        t.wf(),
    ensures
        t.key_counts().len() >= 1,
        1 <= t.key_counts()[0] <= t.spec_order(),
        forall|j: int|
            1 <= j < t.key_counts().len() ==> t.spec_order() / 2 - 1
                <= #[trigger] t.key_counts()[j] <= t.spec_order(),
{
    lemma_counts_bounded(t.root, t.spec_order(), None, None);
}

/// Balance invariant: in a well-formed tree every leaf lies at the same
/// depth from the root, namely the tree's height.
pub proof fn balance_invariant<V>(t: BTree<V>)
    requires
        t.wf(),
    ensures
        t.leaf_depths().len() >= 1,
        forall|j: int|
            0 <= j < t.leaf_depths().len() ==> #[trigger] t.leaf_depths()[j] == t.spec_height(),
{
    lemma_depths_equal(t.root, t.spec_order(), None, None);
}

} // verus!
