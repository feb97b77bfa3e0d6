//! Lemmas about the spec-level model: how `kv_map` and `union_seq` behave
//! under insertion, concatenation and update, and how the map of a node is
//! bounded by the node's key range.
use vstd::prelude::*;
use crate::b_tree::Node;
use crate::model::{
    child_hi, child_lo, child_maps, counts_prefix, depths_prefix, kv_map, node_counts,
    node_leaf_depths, node_map, node_traversal, shaped, strictly_sorted, traversal_prefix,
    union_seq, wf_sub, within,
};
use crate::model::min_keys;

verus! {

/// Inserting on the right side of a union shows through unchanged.
pub(crate) proof fn lemma_upr_insert_right<V>(a: Map<u64, V>, b: Map<u64, V>, k: u64, v: V)
    ensures
        a.union_prefer_right(b.insert(k, v)) == a.union_prefer_right(b).insert(k, v),
{
    assert(a.union_prefer_right(b.insert(k, v)) =~= a.union_prefer_right(b).insert(k, v));
}

/// Inserting a key absent from the right side on the left side of a union
/// shows through unchanged.
pub(crate) proof fn lemma_upr_insert_left<V>(a: Map<u64, V>, b: Map<u64, V>, k: u64, v: V)
    requires
        !b.contains_key(k),
    ensures
        a.insert(k, v).union_prefer_right(b) == a.union_prefer_right(b).insert(k, v),
{
    assert(a.insert(k, v).union_prefer_right(b) =~= a.union_prefer_right(b).insert(k, v));
}

/// The union of maps is associative.
pub(crate) proof fn lemma_upr_assoc<V>(a: Map<u64, V>, b: Map<u64, V>, c: Map<u64, V>)
    ensures
        a.union_prefer_right(b).union_prefer_right(c) == a.union_prefer_right(
            b.union_prefer_right(c),
        ),
{
    assert(a.union_prefer_right(b).union_prefer_right(c) =~= a.union_prefer_right(
        b.union_prefer_right(c),
    ));
}

/// `kv_map` holds exactly the keys of its key list.
pub(crate) proof fn lemma_kv_map_contains<V>(ks: Seq<u64>, vs: Seq<V>)
    requires
        vs.len() == ks.len(),
    ensures
        forall|k: u64| #[trigger] kv_map(ks, vs).contains_key(k) <==> ks.contains(k),
    decreases ks.len(),
{
    if ks.len() > 0 {
        lemma_kv_map_contains(ks.drop_last(), vs.drop_last());
        assert forall|k: u64| #[trigger] kv_map(ks, vs).contains_key(k) <==> ks.contains(k) by {
            if kv_map(ks, vs).contains_key(k) {
                if k == ks.last() {
                    assert(ks[ks.len() - 1] == k);
                } else {
                    assert(kv_map(ks.drop_last(), vs.drop_last()).contains_key(k));
                    assert(ks.drop_last().contains(k));
                    let i = choose|i: int| 0 <= i < ks.drop_last().len() && ks.drop_last()[i] == k;
                    assert(ks[i] == k);
                }
            }
            if ks.contains(k) {
                let i = choose|i: int| 0 <= i < ks.len() && ks[i] == k;
                if i < ks.len() - 1 {
                    assert(ks.drop_last()[i] == k);
                    assert(ks.drop_last().contains(k));
                    assert(kv_map(ks.drop_last(), vs.drop_last()).contains_key(k));
                } else {
                    assert(k == ks.last());
                }
                assert(kv_map(ks, vs).contains_key(k));
            }
        }
    }
}

/// On a key list without duplicates, `kv_map` maps the key at each index to
/// the value at that index.
pub(crate) proof fn lemma_kv_map_index<V>(ks: Seq<u64>, vs: Seq<V>, i: int)
    requires
        vs.len() == ks.len(),
        0 <= i < ks.len(),
        forall|p: int, q: int| 0 <= p < q < ks.len() ==> ks[p] != ks[q],
    ensures
        kv_map(ks, vs).contains_key(ks[i]),
        kv_map(ks, vs)[ks[i]] == vs[i],
    decreases ks.len(),
{
    if i < ks.len() - 1 {
        lemma_kv_map_index(ks.drop_last(), vs.drop_last(), i);
        assert(ks.drop_last()[i] == ks[i]);
        assert(ks[i] != ks.last());
    }
}

/// Inserting a fresh key at any position of the key and value lists inserts
/// it into the map.
pub(crate) proof fn lemma_kv_map_insert<V>(ks: Seq<u64>, vs: Seq<V>, p: int, k: u64, v: V)
    requires
        vs.len() == ks.len(),
        0 <= p <= ks.len(),
        !ks.contains(k),
    ensures
        kv_map(ks.insert(p, k), vs.insert(p, v)) == kv_map(ks, vs).insert(k, v),
    decreases ks.len(),
{
    let ks2 = ks.insert(p, k);
    let vs2 = vs.insert(p, v);
    if p == ks.len() {
        assert(ks2.drop_last() =~= ks);
        assert(vs2.drop_last() =~= vs);
        assert(ks2.last() == k && vs2.last() == v);
    } else {
        assert(ks2.last() == ks.last() && vs2.last() == vs.last());
        assert(ks2.drop_last() =~= ks.drop_last().insert(p, k));
        assert(vs2.drop_last() =~= vs.drop_last().insert(p, v));
        assert(!ks.drop_last().contains(k)) by {
            if ks.drop_last().contains(k) {
                let i = choose|i: int|
                    0 <= i < ks.drop_last().len() && ks.drop_last()[i] == k;
                assert(ks[i] == k);
            }
        }
        lemma_kv_map_insert(ks.drop_last(), vs.drop_last(), p, k, v);
        assert(k != ks.last()) by {
            assert(!(ks[ks.len() - 1] == k));
        }
        assert(kv_map(ks.drop_last(), vs.drop_last()).insert(k, v).insert(ks.last(), vs.last())
            =~= kv_map(ks.drop_last(), vs.drop_last()).insert(ks.last(), vs.last()).insert(k, v));
    }
}

/// The map of concatenated key and value lists is the union of the two maps.
pub(crate) proof fn lemma_kv_map_concat<V>(ks1: Seq<u64>, vs1: Seq<V>, ks2: Seq<u64>, vs2: Seq<V>)
    requires
        vs1.len() == ks1.len(),
        vs2.len() == ks2.len(),
    ensures
        kv_map(ks1 + ks2, vs1 + vs2) == kv_map(ks1, vs1).union_prefer_right(kv_map(ks2, vs2)),
    decreases ks2.len(),
{
    if ks2.len() == 0 {
        assert(ks1 + ks2 =~= ks1);
        assert(vs1 + vs2 =~= vs1);
        assert(kv_map(ks1, vs1).union_prefer_right(kv_map(ks2, vs2)) =~= kv_map(ks1, vs1));
    } else {
        assert((ks1 + ks2).drop_last() =~= ks1 + ks2.drop_last());
        assert((vs1 + vs2).drop_last() =~= vs1 + vs2.drop_last());
        assert((ks1 + ks2).last() == ks2.last());
        assert((vs1 + vs2).last() == vs2.last());
        lemma_kv_map_concat(ks1, vs1, ks2.drop_last(), vs2.drop_last());
        lemma_upr_insert_right(
            kv_map(ks1, vs1),
            kv_map(ks2.drop_last(), vs2.drop_last()),
            ks2.last(),
            vs2.last(),
        );
    }
}

/// The union of concatenated map sequences is the union of the two unions.
pub(crate) proof fn lemma_union_seq_concat<V>(a: Seq<Map<u64, V>>, b: Seq<Map<u64, V>>)
    ensures
        union_seq(a + b) == union_seq(a).union_prefer_right(union_seq(b)),
    decreases b.len(),
{
    if b.len() == 0 {
        assert(a + b =~= a);
        assert(union_seq(a).union_prefer_right(union_seq(b)) =~= union_seq(a));
    } else {
        assert((a + b).drop_last() =~= a + b.drop_last());
        assert((a + b).last() == b.last());
        lemma_union_seq_concat(a, b.drop_last());
        lemma_upr_assoc(union_seq(a), union_seq(b.drop_last()), b.last());
    }
}

/// A key is in the union of a sequence of maps exactly when some map of the
/// sequence holds it.
pub(crate) proof fn lemma_union_seq_contains<V>(ms: Seq<Map<u64, V>>)
    ensures
        forall|k: u64|
            #[trigger] union_seq(ms).contains_key(k) <==> exists|i: int|
                0 <= i < ms.len() && #[trigger] ms[i].contains_key(k),
    decreases ms.len(),
{
    if ms.len() > 0 {
        lemma_union_seq_contains(ms.drop_last());
        assert forall|k: u64|
            #[trigger] union_seq(ms).contains_key(k) <==> exists|i: int|
                0 <= i < ms.len() && #[trigger] ms[i].contains_key(k) by {
            if union_seq(ms).contains_key(k) {
                if ms.last().contains_key(k) {
                    assert(ms[ms.len() - 1].contains_key(k));
                } else {
                    assert(union_seq(ms.drop_last()).contains_key(k));
                    let i = choose|i: int|
                        0 <= i < ms.drop_last().len() && #[trigger] ms.drop_last()[i].contains_key(
                            k,
                        );
                    assert(ms[i] == ms.drop_last()[i]);
                    assert(ms[i].contains_key(k));
                }
            }
            if exists|i: int| 0 <= i < ms.len() && #[trigger] ms[i].contains_key(k) {
                let i = choose|i: int| 0 <= i < ms.len() && #[trigger] ms[i].contains_key(k);
                if i < ms.len() - 1 {
                    assert(ms.drop_last()[i].contains_key(k));
                    assert(union_seq(ms.drop_last()).contains_key(k));
                } else {
                    assert(ms.last().contains_key(k));
                }
                assert(union_seq(ms).contains_key(k));
            }
        }
    }
}

/// When exactly one map of the sequence holds a key, the union looks the key
/// up there.
pub(crate) proof fn lemma_union_seq_index<V>(ms: Seq<Map<u64, V>>, t: int, k: u64)
    requires
        0 <= t < ms.len(),
        ms[t].contains_key(k),
        forall|j: int| 0 <= j < ms.len() && j != t ==> !(#[trigger] ms[j].contains_key(k)),
    ensures
        union_seq(ms).contains_key(k),
        union_seq(ms)[k] == ms[t][k],
    decreases ms.len(),
{
    if t == ms.len() - 1 {
        assert(ms.last().contains_key(k));
    } else {
        assert(!ms[ms.len() - 1].contains_key(k));
        assert forall|j: int|
            0 <= j < ms.drop_last().len() && j != t implies !(#[trigger] ms.drop_last()[
            j].contains_key(k)) by {
            assert(ms[j] == ms.drop_last()[j]);
        }
        assert(ms.drop_last()[t] == ms[t]);
        lemma_union_seq_index(ms.drop_last(), t, k);
    }
}

/// Inserting a key, absent from every other map, into one map of the
/// sequence inserts it into the union.
pub(crate) proof fn lemma_union_seq_update<V>(ms: Seq<Map<u64, V>>, t: int, k: u64, v: V)
    requires
        0 <= t < ms.len(),
        forall|j: int| 0 <= j < ms.len() && j != t ==> !(#[trigger] ms[j].contains_key(k)),
    ensures
        union_seq(ms.update(t, ms[t].insert(k, v))) == union_seq(ms).insert(k, v),
    decreases ms.len(),
{
    let ms2 = ms.update(t, ms[t].insert(k, v));
    if t == ms.len() - 1 {
        assert(ms2.drop_last() =~= ms.drop_last());
        assert(ms2.last() == ms.last().insert(k, v));
        lemma_upr_insert_right(union_seq(ms.drop_last()), ms.last(), k, v);
    } else {
        assert(ms2.drop_last() =~= ms.drop_last().update(t, ms.drop_last()[t].insert(k, v)));
        assert(ms2.last() == ms.last());
        assert forall|j: int|
            0 <= j < ms.drop_last().len() && j != t implies !(#[trigger] ms.drop_last()[
            j].contains_key(k)) by {
            assert(ms[j] == ms.drop_last()[j]);
        }
        lemma_union_seq_update(ms.drop_last(), t, k, v);
        assert(!ms[ms.len() - 1].contains_key(k));
        lemma_upr_insert_left(union_seq(ms.drop_last()), ms.last(), k, v);
    }
}

/// The sequence of child maps has one entry per child, the map of that child.
pub(crate) proof fn lemma_child_maps_index<V>(n: Node<V>, i: int)
    requires
        0 <= i <= n.children@.len(),
    ensures
        child_maps(n, i).len() == i,
        forall|j: int| 0 <= j < i ==> #[trigger] child_maps(n, i)[j] == node_map(n.children@[j]),
    decreases i,
{
    if i > 0 {
        lemma_child_maps_index(n, i - 1);
    }
}

/// Every key in the map of a well-formed subtree lies strictly within the
/// subtree's bounds.
pub(crate) proof fn lemma_node_map_within<V>(n: Node<V>, order: nat, lo: Option<u64>, hi: Option<
    u64,
>)
    requires
        wf_sub(n, order, lo, hi),
    ensures
        forall|k: u64| #[trigger] node_map(n).contains_key(k) ==> within(lo, hi, k),
    decreases n,
{
    let cs = child_maps(n, n.children@.len() as int);
    lemma_kv_map_contains(n.keys@, n.values@);
    lemma_union_seq_contains(cs);
    lemma_child_maps_index(n, n.children@.len() as int);
    assert forall|k: u64| #[trigger] node_map(n).contains_key(k) implies within(lo, hi, k) by {
        if kv_map(n.keys@, n.values@).contains_key(k) {
            let i = choose|i: int| 0 <= i < n.keys@.len() && n.keys@[i] == k;
            assert(within(lo, hi, n.keys@[i]));
        } else {
            let j = choose|j: int| 0 <= j < cs.len() && #[trigger] cs[j].contains_key(k);
            let c = n.children@[j];
            lemma_node_map_within(c, order, child_lo(n.keys@, lo, j), child_hi(n.keys@, hi, j));
            assert(node_map(c).contains_key(k));
            if j > 0 {
                assert(within(lo, hi, n.keys@[j - 1]));
            }
            if j < n.keys@.len() {
                assert(within(lo, hi, n.keys@[j]));
            }
        }
    }
}

/// Inserting a key between the smaller and the greater keys of a strictly
/// sorted sequence keeps it strictly sorted.
pub(crate) proof fn lemma_sorted_insert(ks: Seq<u64>, p: int, k: u64)
    requires
        strictly_sorted(ks),
        0 <= p <= ks.len(),
        forall|j: int| 0 <= j < p ==> ks[j] < k,
        forall|j: int| p <= j < ks.len() ==> k < ks[j],
    ensures
        strictly_sorted(ks.insert(p, k)),
{
    let ks2 = ks.insert(p, k);
    ks.insert_ensures(p, k);
    assert forall|a: int, b: int| 0 <= a < b < ks2.len() implies ks2[a] < ks2[b] by {
        if a > p {
            assert(ks2[a] == ks[a - 1]);
        }
        if b > p {
            assert(ks2[b] == ks[b - 1]);
        }
    }
}

/// The map of a leaf is the map of its key and value lists.
pub(crate) proof fn lemma_leaf_node_map<V>(n: Node<V>)
    requires
        n.children@.len() == 0,
    ensures
        node_map(n) == kv_map(n.keys@, n.values@),
{
    assert(union_seq(child_maps(n, 0)) =~= Map::<u64, V>::empty());
    assert(node_map(n) =~= kv_map(n.keys@, n.values@));
}

/// The map of a well-formed node holds each of the node's own keys, bound to
/// the value beside it: the children's key ranges exclude the node's keys.
pub(crate) proof fn lemma_node_map_at_key<V>(
    n: Node<V>,
    order: nat,
    lo: Option<u64>,
    hi: Option<u64>,
    i: int,
)
    requires
        wf_sub(n, order, lo, hi),
        0 <= i < n.keys@.len(),
    ensures
        node_map(n).contains_key(n.keys@[i]),
        node_map(n)[n.keys@[i]] == n.values@[i],
{
    let k = n.keys@[i];
    let cs = child_maps(n, n.children@.len() as int);
    lemma_kv_map_index(n.keys@, n.values@, i);
    lemma_child_maps_index(n, n.children@.len() as int);
    lemma_union_seq_contains(cs);
    assert forall|j: int| 0 <= j < cs.len() implies !(#[trigger] cs[j].contains_key(k)) by {
        let c = n.children@[j];
        lemma_node_map_within(c, order, child_lo(n.keys@, lo, j), child_hi(n.keys@, hi, j));
        if j <= i {
            assert(n.keys@[j] <= k);
            assert(child_hi(n.keys@, hi, j) == Some(n.keys@[j]));
        } else {
            assert(n.keys@[j - 1] >= k);
            assert(child_lo(n.keys@, lo, j) == Some(n.keys@[j - 1]));
        }
    }
    assert(!union_seq(cs).contains_key(k));
}

/// When a key lies strictly between the separators around child `t`, the
/// node's map and the map of child `t` agree on that key.
pub(crate) proof fn lemma_node_map_descend<V>(
    n: Node<V>,
    order: nat,
    lo: Option<u64>,
    hi: Option<u64>,
    t: int,
    k: u64,
)
    requires
        wf_sub(n, order, lo, hi),
        n.children@.len() == n.keys@.len() + 1,
        0 <= t <= n.keys@.len(),
        forall|j: int| 0 <= j < t ==> n.keys@[j] < k,
        t < n.keys@.len() ==> k < n.keys@[t],
    ensures
        node_map(n).contains_key(k) == node_map(n.children@[t]).contains_key(k),
        node_map(n.children@[t]).contains_key(k) ==> node_map(n)[k] == node_map(n.children@[t])[k],
{
    let cs = child_maps(n, n.children@.len() as int);
    lemma_kv_map_contains(n.keys@, n.values@);
    lemma_child_maps_index(n, n.children@.len() as int);
    lemma_union_seq_contains(cs);
    assert(!n.keys@.contains(k)) by {
        if n.keys@.contains(k) {
            let i = choose|i: int| 0 <= i < n.keys@.len() && n.keys@[i] == k;
            if i < t {
                assert(n.keys@[i] < k);
            } else {
                assert(n.keys@[t] <= n.keys@[i]);
            }
        }
    }
    assert(!kv_map(n.keys@, n.values@).contains_key(k));
    assert forall|j: int| 0 <= j < cs.len() && j != t implies !(#[trigger] cs[j].contains_key(
        k,
    )) by {
        let c = n.children@[j];
        lemma_node_map_within(c, order, child_lo(n.keys@, lo, j), child_hi(n.keys@, hi, j));
        if j < t {
            assert(n.keys@[j] < k);
            assert(child_hi(n.keys@, hi, j) == Some(n.keys@[j]));
        } else {
            assert(k < n.keys@[t] && n.keys@[t] <= n.keys@[j - 1]);
            assert(child_lo(n.keys@, lo, j) == Some(n.keys@[j - 1]));
        }
    }
    if node_map(n.children@[t]).contains_key(k) {
        lemma_union_seq_index(cs, t, k);
    } else {
        assert(!union_seq(cs).contains_key(k));
    }
}

/// Replacing one child with a node holding the same map leaves the node's
/// map unchanged.
pub(crate) proof fn lemma_node_map_child_same<V>(n: Node<V>, n2: Node<V>, t: int)
    requires
        n2.keys@ == n.keys@,
        n2.values@ == n.values@,
        n2.children@.len() == n.children@.len(),
        0 <= t < n.children@.len(),
        forall|j: int|
            0 <= j < n.children@.len() && j != t ==> n2.children@[j] == n.children@[j],
        node_map(n2.children@[t]) == node_map(n.children@[t]),
    ensures
        node_map(n2) == node_map(n),
{
    let ln = n.children@.len() as int;
    lemma_child_maps_index(n, ln);
    lemma_child_maps_index(n2, ln);
    assert(child_maps(n2, ln) =~= child_maps(n, ln));
}

/// Replacing child `t` with a node whose map has one more pair, whose key
/// lies strictly between the separators around child `t`, inserts that pair
/// into the node's map.
pub(crate) proof fn lemma_node_map_child_insert<V>(
    n: Node<V>,
    n2: Node<V>,
    order: nat,
    lo: Option<u64>,
    hi: Option<u64>,
    t: int,
    key: u64,
    value: V,
)
    requires
        wf_sub(n, order, lo, hi),
        n.children@.len() == n.keys@.len() + 1,
        0 <= t < n.children@.len(),
        n2.keys@ == n.keys@,
        n2.values@ == n.values@,
        n2.children@.len() == n.children@.len(),
        forall|j: int|
            0 <= j < n.children@.len() && j != t ==> n2.children@[j] == n.children@[j],
        within(child_lo(n.keys@, lo, t), child_hi(n.keys@, hi, t), key),
        node_map(n2.children@[t]) == node_map(n.children@[t]).insert(key, value),
    ensures
        node_map(n2) == node_map(n).insert(key, value),
{
    let ln = n.children@.len() as int;
    lemma_child_maps_index(n, ln);
    lemma_child_maps_index(n2, ln);
    let cs = child_maps(n, ln);
    assert(child_maps(n2, ln) =~= cs.update(t, cs[t].insert(key, value)));
    assert forall|j: int| 0 <= j < cs.len() && j != t implies !(#[trigger] cs[j].contains_key(
        key,
    )) by {
        let c = n.children@[j];
        lemma_node_map_within(c, order, child_lo(n.keys@, lo, j), child_hi(n.keys@, hi, j));
        if j < t {
            if t > 0 {
                assert(n.keys@[j] <= n.keys@[t - 1]);
            }
            assert(child_hi(n.keys@, hi, j) == Some(n.keys@[j]));
        } else {
            assert(t < n.keys@.len());
            assert(n.keys@[t] <= n.keys@[j - 1]);
            assert(child_lo(n.keys@, lo, j) == Some(n.keys@[j - 1]));
        }
    }
    lemma_union_seq_update(cs, t, key, value);
    lemma_upr_insert_right(kv_map(n.keys@, n.values@), union_seq(cs), key, value);
}

/// Absorbing a split child: the promoted pair goes into the key and value
/// lists at the child's slot, and the two halves stand where the child
/// stood. Together with the pair the child gained, this inserts exactly one
/// pair into the node's map.
pub(crate) proof fn lemma_node_map_child_split<V>(
    n: Node<V>,
    n2: Node<V>,
    order: nat,
    lo: Option<u64>,
    hi: Option<u64>,
    t: int,
    key: u64,
    value: V,
    pk: u64,
    pv: V,
)
    requires
        wf_sub(n, order, lo, hi),
        n.children@.len() == n.keys@.len() + 1,
        0 <= t < n.children@.len(),
        n2.keys@ == n.keys@.insert(t, pk),
        n2.values@ == n.values@.insert(t, pv),
        n2.children@.len() == n.children@.len() + 1,
        forall|j: int| 0 <= j < t ==> n2.children@[j] == n.children@[j],
        forall|j: int|
            t + 1 < j < n2.children@.len() ==> n2.children@[j] == n.children@[j - 1],
        within(child_lo(n.keys@, lo, t), child_hi(n.keys@, hi, t), key),
        within(child_lo(n.keys@, lo, t), child_hi(n.keys@, hi, t), pk),
        forall|k: u64|
            #[trigger] node_map(n2.children@[t]).contains_key(k) ==> within(
                child_lo(n.keys@, lo, t),
                child_hi(n.keys@, hi, t),
                k,
            ),
        forall|k: u64|
            #[trigger] node_map(n2.children@[t + 1]).contains_key(k) ==> within(
                child_lo(n.keys@, lo, t),
                child_hi(n.keys@, hi, t),
                k,
            ),
        forall|k: u64| #[trigger] node_map(n2.children@[t]).contains_key(k) ==> k < pk,
        forall|k: u64| #[trigger] node_map(n2.children@[t + 1]).contains_key(k) ==> pk < k,
        node_map(n2.children@[t]).union_prefer_right(node_map(n2.children@[t + 1])).insert(
            pk,
            pv,
        ) == node_map(n.children@[t]).insert(key, value),
    ensures
        node_map(n2) == node_map(n).insert(key, value),
{
    let ln = n.children@.len() as int;
    let lo_c = child_lo(n.keys@, lo, t);
    let hi_c = child_hi(n.keys@, hi, t);
    let ml = node_map(n2.children@[t]);
    let mr = node_map(n2.children@[t + 1]);
    let mc = node_map(n.children@[t]);
    let kvn = kv_map(n.keys@, n.values@);
    lemma_child_maps_index(n, ln);
    lemma_child_maps_index(n2, ln + 1);
    let cs = child_maps(n, ln);
    let cs2 = child_maps(n2, ln + 1);

    // The node's own keys avoid the open interval around child `t`.
    assert forall|j: int| 0 <= j < n.keys@.len() implies !within(
        lo_c,
        hi_c,
        #[trigger] n.keys@[j],
    ) by {
        if j < t {
            assert(n.keys@[j] <= n.keys@[t - 1]);
        } else {
            assert(n.keys@[t] <= n.keys@[j]);
        }
    }
    assert(!n.keys@.contains(pk)) by {
        if n.keys@.contains(pk) {
            let j = choose|j: int| 0 <= j < n.keys@.len() && n.keys@[j] == pk;
            assert(!within(lo_c, hi_c, n.keys@[j]));
        }
    }
    lemma_kv_map_insert(n.keys@, n.values@, t, pk, pv);
    lemma_kv_map_contains(n.keys@, n.values@);

    // The maps of the siblings avoid the open interval around child `t`.
    assert forall|j: int, k: u64|
        0 <= j < ln && j != t && #[trigger] cs[j].contains_key(k) implies !within(
        lo_c,
        hi_c,
        k,
    ) by {
        let c = n.children@[j];
        lemma_node_map_within(c, order, child_lo(n.keys@, lo, j), child_hi(n.keys@, hi, j));
        assert(within(child_lo(n.keys@, lo, j), child_hi(n.keys@, hi, j), k));
        if j < t {
            if t > 0 {
                assert(n.keys@[j] <= n.keys@[t - 1]);
            }
        } else {
            assert(t < n.keys@.len());
            assert(n.keys@[t] <= n.keys@[j - 1]);
        }
    }
    lemma_node_map_within(n.children@[t], order, lo_c, hi_c);

    // The child-map sequence gains one slot: the halves stand at `t`, `t+1`.
    let prefix = cs.subrange(0, t);
    let suffix = cs.subrange(t + 1, ln);
    assert(cs =~= prefix + seq![mc] + suffix);
    assert(cs2 =~= prefix + seq![ml, mr] + suffix);
    lemma_union_seq_concat(prefix + seq![mc], suffix);
    lemma_union_seq_concat(prefix, seq![mc]);
    lemma_union_seq_concat(prefix + seq![ml, mr], suffix);
    lemma_union_seq_concat(prefix, seq![ml, mr]);
    assert(union_seq(Seq::<Map<u64, V>>::empty()) == Map::<u64, V>::empty());
    assert(seq![mc].drop_last() =~= Seq::<Map<u64, V>>::empty());
    assert(seq![mc].last() == mc && seq![mc].len() == 1);
    assert(union_seq(seq![mc].drop_last()) == Map::<u64, V>::empty());
    assert(union_seq(seq![mc]) == Map::<u64, V>::empty().union_prefer_right(mc));
    assert(seq![ml, mr].drop_last() =~= seq![ml]);
    assert(seq![ml, mr].last() == mr && seq![ml, mr].len() == 2);
    assert(seq![ml].drop_last() =~= Seq::<Map<u64, V>>::empty());
    assert(seq![ml].last() == ml && seq![ml].len() == 1);
    assert(union_seq(seq![ml].drop_last()) == Map::<u64, V>::empty());
    assert(union_seq(seq![ml]) == Map::<u64, V>::empty().union_prefer_right(ml));
    assert(union_seq(seq![ml, mr].drop_last()) == union_seq(seq![ml]));
    assert(union_seq(seq![ml, mr]) == Map::<u64, V>::empty().union_prefer_right(
        ml,
    ).union_prefer_right(mr));
    let ua = union_seq(prefix);
    let ub = union_seq(suffix);
    lemma_union_seq_contains(prefix);
    lemma_union_seq_contains(suffix);
    assert forall|k: u64| #[trigger] ua.dom().contains(k) implies !within(lo_c, hi_c, k) by {
        assert(ua.contains_key(k));
        let j = choose|j: int| 0 <= j < prefix.len() && #[trigger] prefix[j].contains_key(k);
        assert(cs[j].contains_key(k));
    }
    assert forall|k: u64| #[trigger] ub.dom().contains(k) implies !within(lo_c, hi_c, k) by {
        assert(ub.contains_key(k));
        let j = choose|j: int| 0 <= j < suffix.len() && #[trigger] suffix[j].contains_key(k);
        assert(cs[t + 1 + j].contains_key(k));
    }
    assert forall|k: u64| #[trigger] kvn.dom().contains(k) implies !within(lo_c, hi_c, k) by {
        assert(kvn.contains_key(k));
        let j = choose|j: int| 0 <= j < n.keys@.len() && n.keys@[j] == k;
        assert(!within(lo_c, hi_c, n.keys@[j]));
    }
    assert forall|k: u64| #[trigger] ml.dom().contains(k) implies within(lo_c, hi_c, k) && k
        < pk by {
        assert(ml.contains_key(k));
    }
    assert forall|k: u64| #[trigger] mr.dom().contains(k) implies within(lo_c, hi_c, k) && pk
        < k by {
        assert(mr.contains_key(k));
    }
    assert forall|k: u64| #[trigger] mc.dom().contains(k) implies within(lo_c, hi_c, k) by {
        assert(mc.contains_key(k));
    }

    // Both sides, pointwise.
    let m1 = ml.union_prefer_right(mr).insert(pk, pv);
    let m2 = mc.insert(key, value);
    let lhs = node_map(n2);
    let rhs = node_map(n).insert(key, value);
    assert(lhs == kvn.insert(pk, pv).union_prefer_right(
        ua.union_prefer_right(union_seq(seq![ml, mr])).union_prefer_right(ub),
    ));
    assert(node_map(n) == kvn.union_prefer_right(
        ua.union_prefer_right(union_seq(seq![mc])).union_prefer_right(ub),
    ));
    assert forall|k: u64| #[trigger] lhs.dom().contains(k) implies rhs.dom().contains(k) && lhs[k]
        == rhs[k] by {
        if m1.dom().contains(k) {
            assert(within(lo_c, hi_c, k));
            assert(!ua.dom().contains(k) && !ub.dom().contains(k) && !kvn.dom().contains(k));
            assert(m2.dom().contains(k));
            assert(lhs[k] == m1[k]) by {
                if mr.dom().contains(k) {
                    assert(k != pk);
                    assert(lhs[k] == mr[k] && m1[k] == mr[k]);
                } else if ml.dom().contains(k) {
                    assert(k != pk);
                    assert(lhs[k] == ml[k] && m1[k] == ml[k]);
                } else {
                    assert(k == pk);
                    assert(lhs[k] == pv && m1[k] == pv);
                }
            }
            assert(rhs[k] == m2[k]) by {
                if !mc.dom().contains(k) {
                    assert(k == key);
                }
            }
        } else {
            assert(!within(lo_c, hi_c, k) || !lhs.dom().contains(k)) by {
                if within(lo_c, hi_c, k) {
                    assert(!kvn.insert(pk, pv).dom().contains(k) || k == pk);
                }
            }
            assert(k != pk && k != key);
            assert(!ml.dom().contains(k) && !mr.dom().contains(k) && !mc.dom().contains(k));
            assert(lhs[k] == rhs[k]);
        }
    }
    assert forall|k: u64| #[trigger] rhs.dom().contains(k) implies lhs.dom().contains(k) by {
        if m2.dom().contains(k) {
            assert(m1.dom().contains(k));
        }
    }
    assert(lhs.dom() =~= rhs.dom());
    assert(lhs =~= rhs);
}

/// Replacing one child with a well-formed node of the same bounds, height
/// and admissible key-count keeps the node well formed.
pub(crate) proof fn lemma_wf_update_child<V>(
    n: Node<V>,
    n2: Node<V>,
    order: nat,
    lo: Option<u64>,
    hi: Option<u64>,
    t: int,
)
    requires
        wf_sub(n, order, lo, hi),
        n.children@.len() == n.keys@.len() + 1,
        0 <= t < n.children@.len(),
        n2.keys@ == n.keys@,
        n2.values@ == n.values@,
        n2.children@.len() == n.children@.len(),
        forall|j: int|
            0 <= j < n.children@.len() && j != t ==> n2.children@[j] == n.children@[j],
        wf_sub(n2.children@[t], order, child_lo(n.keys@, lo, t), child_hi(n.keys@, hi, t)),
        min_keys(order) <= n2.children@[t].keys@.len() <= order,
        n2.children@[t].height() == n.children@[t].height(),
    ensures
        wf_sub(n2, order, lo, hi),
        n2.height() == n.height(),
{
    assert(n2.children@[0].height() == n.children@[0].height());
    assert(n2.height() == n.height());
    assert forall|j: int| 0 <= j < n2.children@.len() implies {
        let c = #[trigger] n2.children@[j];
        &&& wf_sub(c, order, child_lo(n2.keys@, lo, j), child_hi(n2.keys@, hi, j))
        &&& min_keys(order) <= c.keys@.len() <= order
        &&& c.height() + 1 == n2.height()
    } by {
        if j != t {
            assert(n2.children@[j] == n.children@[j]);
        }
        assert(n.children@[j].height() + 1 == n.height());
    }
}

/// Absorbing a split child keeps the node well formed, apart from its own
/// key-count, which grows by one: the promoted key stands between the two
/// halves, and every other child keeps its place and its bounds.
pub(crate) proof fn lemma_wf_split_child<V>(
    n: Node<V>,
    n2: Node<V>,
    order: nat,
    lo: Option<u64>,
    hi: Option<u64>,
    t: int,
    pk: u64,
)
    requires
        wf_sub(n, order, lo, hi),
        n.children@.len() == n.keys@.len() + 1,
        0 <= t < n.children@.len(),
        n2.keys@ == n.keys@.insert(t, pk),
        n2.values@.len() == n2.keys@.len(),
        n2.children@.len() == n.children@.len() + 1,
        forall|j: int| 0 <= j < t ==> n2.children@[j] == n.children@[j],
        forall|j: int|
            t + 1 < j < n2.children@.len() ==> n2.children@[j] == n.children@[j - 1],
        within(child_lo(n.keys@, lo, t), child_hi(n.keys@, hi, t), pk),
        wf_sub(n2.children@[t], order, child_lo(n.keys@, lo, t), Some(pk)),
        wf_sub(n2.children@[t + 1], order, Some(pk), child_hi(n.keys@, hi, t)),
        min_keys(order) <= n2.children@[t].keys@.len() <= order,
        min_keys(order) <= n2.children@[t + 1].keys@.len() <= order,
        n2.children@[t].height() == n.children@[t].height(),
        n2.children@[t + 1].height() == n.children@[t].height(),
    ensures
        wf_sub(n2, order, lo, hi),
        n2.keys@.len() == n.keys@.len() + 1,
        n2.height() == n.height(),
{
    let ks = n.keys@;
    let ks2 = n2.keys@;
    let lo_c = child_lo(ks, lo, t);
    let hi_c = child_hi(ks, hi, t);
    ks.insert_ensures(t, pk);
    assert(within(lo, hi, pk)) by {
        if t > 0 {
            assert(within(lo, hi, ks[t - 1]));
        }
        if t < ks.len() {
            assert(within(lo, hi, ks[t]));
        }
    }
    assert forall|j: int| 0 <= j < t implies ks[j] < pk by {
        if t > 0 {
            assert(ks[j] <= ks[t - 1]);
        }
    }
    assert forall|j: int| t <= j < ks.len() implies pk < ks[j] by {
        assert(ks[t] <= ks[j]);
    }
    lemma_sorted_insert(ks, t, pk);
    assert forall|j: int| 0 <= j < ks2.len() implies within(lo, hi, #[trigger] ks2[j]) by {
        if j < t {
            assert(ks2[j] == ks[j]);
        } else if j > t {
            assert(ks2[j] == ks[j - 1]);
        }
    }
    assert(n2.children@[0].height() == n.children@[0].height()) by {
        if t == 0 {
        } else {
            assert(n2.children@[0] == n.children@[0]);
        }
    }
    assert(n2.height() == n.height());
    assert forall|j: int| 0 <= j < n2.children@.len() implies {
        let c = #[trigger] n2.children@[j];
        &&& wf_sub(c, order, child_lo(ks2, lo, j), child_hi(ks2, hi, j))
        &&& min_keys(order) <= c.keys@.len() <= order
        &&& c.height() + 1 == n2.height()
    } by {
        if j < t {
            assert(n2.children@[j] == n.children@[j]);
            assert(child_lo(ks2, lo, j) == child_lo(ks, lo, j));
            assert(child_hi(ks2, hi, j) == child_hi(ks, hi, j));
            assert(n.children@[j].height() + 1 == n.height());
        } else if j == t {
            assert(child_lo(ks2, lo, t) == lo_c);
            assert(child_hi(ks2, hi, t) == Some(pk));
            assert(n.children@[t].height() + 1 == n.height());
        } else if j == t + 1 {
            assert(child_lo(ks2, lo, t + 1) == Some(pk));
            assert(child_hi(ks2, hi, t + 1) == hi_c);
            assert(n.children@[t].height() + 1 == n.height());
        } else {
            assert(n2.children@[j] == n.children@[j - 1]);
            assert(child_lo(ks2, lo, j) == child_lo(ks, lo, j - 1));
            assert(child_hi(ks2, hi, j) == child_hi(ks, hi, j - 1));
            assert(n.children@[j - 1].height() + 1 == n.height());
        }
    }
}

/// A node whose keys, values and children are partitioned around the median
/// into a left half, a promoted pair and a right half is, as a map, the two
/// halves with the promoted pair inserted.
pub(crate) proof fn lemma_split_map_assembly<V>(
    n: Node<V>,
    left: Node<V>,
    right: Node<V>,
    pk: u64,
    pv: V,
    mi: int,
)
    requires
        n.values@.len() == n.keys@.len(),
        0 <= mi < n.keys@.len(),
        left.keys@ == n.keys@.subrange(0, mi),
        left.values@ == n.values@.subrange(0, mi),
        right.keys@ == n.keys@.subrange(mi + 1, n.keys@.len() as int),
        right.values@ == n.values@.subrange(mi + 1, n.values@.len() as int),
        pk == n.keys@[mi],
        pv == n.values@[mi],
        n.children@.len() == 0 ==> left.children@.len() == 0 && right.children@.len() == 0,
        n.children@.len() != 0 ==> left.children@ == n.children@.subrange(0, mi + 1)
            && right.children@ == n.children@.subrange(mi + 1, n.children@.len() as int)
            && n.children@.len() == n.keys@.len() + 1,
        forall|k: u64| #[trigger] node_map(left).contains_key(k) ==> k < pk,
        forall|k: u64| #[trigger] node_map(right).contains_key(k) ==> pk < k,
    ensures
        node_map(left).union_prefer_right(node_map(right)).insert(pk, pv) == node_map(n),
{
    let lk = left.keys@;
    let lv = left.values@;
    let rk = right.keys@;
    let rv = right.values@;
    let kvl = kv_map(lk, lv);
    let kvr = kv_map(rk, rv);
    let kv1 = Map::<u64, V>::empty().insert(pk, pv);
    assert forall|k: u64| #[trigger] node_map(left).dom().contains(k) implies k < pk by {
        assert(node_map(left).contains_key(k));
    }
    assert forall|k: u64| #[trigger] node_map(right).dom().contains(k) implies pk < k by {
        assert(node_map(right).contains_key(k));
    }
    assert(seq![pk].drop_last() =~= Seq::<u64>::empty());
    assert(seq![pv].drop_last() =~= Seq::<V>::empty());
    assert(kv_map(seq![pk].drop_last(), seq![pv].drop_last()) == Map::<u64, V>::empty());
    assert(seq![pk].len() == 1 && seq![pk].last() == pk && seq![pv].last() == pv);
    assert(kv_map(seq![pk], seq![pv]) == kv1);
    assert(n.keys@ =~= (lk + seq![pk]) + rk);
    assert(n.values@ =~= (lv + seq![pv]) + rv);
    lemma_kv_map_concat(lk, lv, seq![pk], seq![pv]);
    lemma_kv_map_concat(lk + seq![pk], lv + seq![pv], rk, rv);
    assert(kv_map(n.keys@, n.values@) == kvl.union_prefer_right(kv1).union_prefer_right(kvr));
    if n.children@.len() == 0 {
        lemma_leaf_node_map(n);
        lemma_leaf_node_map(left);
        lemma_leaf_node_map(right);
        assert(node_map(left).union_prefer_right(node_map(right)).insert(pk, pv) =~= node_map(n));
    } else {
        let ln = n.children@.len() as int;
        let ll = mi + 1;
        lemma_child_maps_index(n, ln);
        lemma_child_maps_index(left, ll);
        lemma_child_maps_index(right, ln - ll);
        assert forall|j: int| 0 <= j < ll implies #[trigger] child_maps(left, ll)[j] == child_maps(
            n,
            ln,
        )[j] by {
            assert(left.children@[j] == n.children@[j]);
        }
        assert forall|j: int| 0 <= j < ln - ll implies #[trigger] child_maps(right, ln - ll)[j]
            == child_maps(n, ln)[ll + j] by {
            assert(right.children@[j] == n.children@[ll + j]);
        }
        assert(child_maps(n, ln) =~= child_maps(left, ll) + child_maps(right, ln - ll));
        lemma_union_seq_concat(child_maps(left, ll), child_maps(right, ln - ll));
        let ul = union_seq(child_maps(left, ll));
        let ur = union_seq(child_maps(right, ln - ll));
        assert(union_seq(child_maps(n, ln)) == ul.union_prefer_right(ur));
        assert(node_map(n) == kv_map(n.keys@, n.values@).union_prefer_right(
            union_seq(child_maps(n, ln)),
        ));
        assert(node_map(left) == kvl.union_prefer_right(ul));
        assert(node_map(right) == kvr.union_prefer_right(ur));
        let ml = node_map(left);
        let mr = node_map(right);
        let lhs = ml.union_prefer_right(mr).insert(pk, pv);
        let rhs = node_map(n);
        assert forall|k: u64| #[trigger] lhs.dom().contains(k) implies rhs.dom().contains(k)
            && lhs[k] == rhs[k] by {
            if k == pk {
                assert(!ml.dom().contains(pk));
                assert(!mr.dom().contains(pk));
                assert(!ul.dom().contains(pk));
                assert(!ur.dom().contains(pk));
                assert(!kvr.dom().contains(pk));
                assert(rhs[k] == pv);
            } else if mr.dom().contains(k) {
                assert(pk < k);
                assert(!ml.dom().contains(k));
                assert(!ul.dom().contains(k));
                assert(!kvl.dom().contains(k));
                if ur.dom().contains(k) {
                    assert(lhs[k] == ur[k]);
                    assert(rhs[k] == ur[k]);
                } else {
                    assert(lhs[k] == kvr[k]);
                    assert(rhs[k] == kvr[k]);
                }
            } else {
                assert(ml.dom().contains(k));
                assert(k < pk);
                assert(!mr.dom().contains(k));
                assert(!ur.dom().contains(k));
                assert(!kvr.dom().contains(k));
                if ul.dom().contains(k) {
                    assert(lhs[k] == ul[k]);
                    assert(rhs[k] == ul[k]);
                } else {
                    assert(lhs[k] == kvl[k]);
                    assert(rhs[k] == kvl[k]);
                }
            }
        }
        assert forall|k: u64| #[trigger] rhs.dom().contains(k) implies lhs.dom().contains(k) by {
            if !kvl.dom().contains(k) && !kvr.dom().contains(k) && k != pk {
                assert(ul.dom().contains(k) || ur.dom().contains(k));
            }
        }
        assert(lhs.dom() =~= rhs.dom());
        assert(lhs =~= rhs);
    }
}

/// A key stands in the first `i` children-and-separators of `n`: either it
/// is one of the first `i` keys, or one of the first `i` subtrees holds it.
pub(crate) open spec fn prefix_holds<V>(n: Node<V>, i: int, k: u64) -> bool {
    exists|j: int|
        #![trigger n.keys@[j]]
        #![trigger n.children@[j]]
        0 <= j < i && (n.keys@[j] == k || node_map(n.children@[j]).contains_key(k))
}

/// The in-order traversal of the first `i` children and separators of a
/// well-formed internal node is strictly sorted, bounded by the node's
/// bounds and by the `i`-th separator, and holds exactly the keys of those
/// children and separators.
pub(crate) proof fn lemma_traversal_prefix<V>(
    n: Node<V>,
    order: nat,
    lo: Option<u64>,
    hi: Option<u64>,
    i: int,
)
    requires
        wf_sub(n, order, lo, hi),
        n.children@.len() == n.keys@.len() + 1,
        0 <= i <= n.keys@.len(),
    ensures
        strictly_sorted(traversal_prefix(n, i)),
        forall|j: int|
            0 <= j < traversal_prefix(n, i).len() ==> within(
                lo,
                hi,
                #[trigger] traversal_prefix(n, i)[j],
            ),
        forall|j: int|
            0 <= j < traversal_prefix(n, i).len() && i > 0 ==> #[trigger] traversal_prefix(n, i)[j]
                <= n.keys@[i - 1],
        forall|k: u64| #[trigger] traversal_prefix(n, i).contains(k) <==> prefix_holds(n, i, k),
    decreases n, 0int, i,
{
    if i > 0 {
        lemma_traversal_prefix(n, order, lo, hi, i - 1);
        let c = n.children@[i - 1];
        let clo = child_lo(n.keys@, lo, i - 1);
        let chi = child_hi(n.keys@, hi, i - 1);
        lemma_traversal(c, order, clo, chi);
        let p = traversal_prefix(n, i - 1);
        let tc = node_traversal(c);
        let w = traversal_prefix(n, i);
        let ki = n.keys@[i - 1];
        assert(w == p + tc + seq![ki]);
        assert(chi == Some(ki));
        assert(within(lo, hi, ki));
        // Each segment keeps to its range.
        assert forall|x: int| 0 <= x < w.len() implies within(lo, hi, #[trigger] w[x]) && w[x]
            <= ki by {
            if x < p.len() {
                assert(w[x] == p[x]);
                if i - 1 > 0 {
                    assert(p[x] <= n.keys@[i - 2]);
                    assert(n.keys@[i - 2] < ki);
                }
            } else if x < p.len() + tc.len() {
                assert(w[x] == tc[x - p.len()]);
                assert(within(clo, chi, tc[x - p.len()]));
                if i - 1 > 0 {
                    assert(within(lo, hi, n.keys@[i - 2]));
                }
            } else {
                assert(w[x] == ki);
            }
        }
        // Strict order across the three segments.
        assert forall|a: int, b: int| 0 <= a < b < w.len() implies w[a] < w[b] by {
            if b < p.len() {
                assert(w[a] == p[a] && w[b] == p[b]);
            } else if b < p.len() + tc.len() {
                assert(w[b] == tc[b - p.len()]);
                assert(within(clo, chi, tc[b - p.len()]));
                if a < p.len() {
                    assert(w[a] == p[a]);
                    if i - 1 > 0 {
                        assert(p[a] <= n.keys@[i - 2]);
                        assert(clo == Some(n.keys@[i - 2]));
                    } else {
                        assert(p.len() == 0);
                    }
                } else {
                    assert(w[a] == tc[a - p.len()]);
                }
            } else {
                assert(w[b] == ki);
                if a < p.len() {
                    if i - 1 > 0 {
                        assert(w[a] == p[a] && p[a] <= n.keys@[i - 2]);
                        assert(n.keys@[i - 2] < ki);
                    } else {
                        assert(p.len() == 0);
                    }
                } else {
                    assert(w[a] == tc[a - p.len()]);
                    assert(within(clo, chi, tc[a - p.len()]));
                }
            }
        }
        // Membership in both directions.
        assert forall|k: u64| #[trigger] w.contains(k) implies prefix_holds(n, i, k) by {
            let x = choose|x: int| 0 <= x < w.len() && w[x] == k;
            if x < p.len() {
                assert(p[x] == k);
                assert(p.contains(k));
                assert(prefix_holds(n, i - 1, k));
                let j = choose|j: int|
                    #![trigger n.keys@[j]]
                    #![trigger n.children@[j]]
                    0 <= j < i - 1 && (n.keys@[j] == k || node_map(n.children@[j]).contains_key(
                        k,
                    ));
                assert(0 <= j < i && (n.keys@[j] == k || node_map(n.children@[j]).contains_key(
                    k,
                )));
            } else if x < p.len() + tc.len() {
                assert(tc[x - p.len()] == k);
                assert(tc.contains(k));
                assert(node_map(c).contains_key(k));
                assert(0 <= i - 1 < i && node_map(n.children@[i - 1]).contains_key(k));
            } else {
                assert(k == ki);
                assert(0 <= i - 1 < i && n.keys@[i - 1] == k);
            }
        }
        assert forall|k: u64| prefix_holds(n, i, k) implies #[trigger] w.contains(k) by {
            let j = choose|j: int|
                #![trigger n.keys@[j]]
                #![trigger n.children@[j]]
                0 <= j < i && (n.keys@[j] == k || node_map(n.children@[j]).contains_key(k));
            if j < i - 1 {
                assert(prefix_holds(n, i - 1, k));
                assert(p.contains(k));
                let x = choose|x: int| 0 <= x < p.len() && p[x] == k;
                assert(w[x] == k);
            } else {
                if n.keys@[i - 1] == k {
                    assert(w[w.len() - 1] == k);
                } else {
                    assert(node_map(c).contains_key(k));
                    assert(tc.contains(k));
                    let x = choose|x: int| 0 <= x < tc.len() && tc[x] == k;
                    assert(w[p.len() + x] == k);
                }
            }
        }
    } else {
        assert(traversal_prefix(n, 0).len() == 0);
        assert forall|k: u64| #[trigger] traversal_prefix(n, 0).contains(k) implies prefix_holds(
            n,
            0,
            k,
        ) by {
            let x = choose|x: int|
                0 <= x < traversal_prefix(n, 0).len() && traversal_prefix(n, 0)[x] == k;
        }
    }
}

/// The in-order traversal of a well-formed subtree is strictly sorted, lies
/// within the subtree's bounds, and holds exactly the keys of the subtree's
/// map.
pub(crate) proof fn lemma_traversal<V>(n: Node<V>, order: nat, lo: Option<u64>, hi: Option<u64>)
    requires
        wf_sub(n, order, lo, hi),
    ensures
        strictly_sorted(node_traversal(n)),
        forall|j: int|
            0 <= j < node_traversal(n).len() ==> within(lo, hi, #[trigger] node_traversal(n)[j]),
        forall|k: u64| #[trigger] node_traversal(n).contains(k) <==> node_map(n).contains_key(k),
    decreases n, 1int, 0int,
{
    let ln = n.children@.len() as int;
    lemma_child_maps_index(n, ln);
    lemma_union_seq_contains(child_maps(n, ln));
    lemma_kv_map_contains(n.keys@, n.values@);
    if n.children@.len() == 0 {
        lemma_leaf_node_map(n);
        assert forall|k: u64| #[trigger] node_traversal(n).contains(k) implies node_map(
            n,
        ).contains_key(k) by {
            assert(n.keys@.contains(k));
        }
        assert forall|k: u64| node_map(n).contains_key(k) implies #[trigger] node_traversal(
            n,
        ).contains(k) by {
            assert(n.keys@.contains(k));
        }
    } else {
        let kn = n.keys@.len() as int;
        lemma_traversal_prefix(n, order, lo, hi, kn);
        let c = n.children@[ln - 1];
        let clo = child_lo(n.keys@, lo, ln - 1);
        lemma_traversal(c, order, clo, hi);
        let p = traversal_prefix(n, kn);
        let tc = node_traversal(c);
        let w = node_traversal(n);
        assert(w == p + tc);
        assert(clo == Some(n.keys@[kn - 1]));
        assert(within(lo, hi, n.keys@[kn - 1]));
        assert forall|x: int| 0 <= x < w.len() implies within(lo, hi, #[trigger] w[x]) by {
            if x < p.len() {
                assert(w[x] == p[x]);
            } else {
                assert(w[x] == tc[x - p.len()]);
                assert(within(clo, hi, tc[x - p.len()]));
            }
        }
        assert forall|a: int, b: int| 0 <= a < b < w.len() implies w[a] < w[b] by {
            if b < p.len() {
                assert(w[a] == p[a] && w[b] == p[b]);
            } else if a < p.len() {
                assert(w[a] == p[a] && w[b] == tc[b - p.len()]);
                assert(p[a] <= n.keys@[kn - 1]);
                assert(within(clo, hi, tc[b - p.len()]));
            } else {
                assert(w[a] == tc[a - p.len()] && w[b] == tc[b - p.len()]);
            }
        }
        let cs = child_maps(n, ln);
        assert forall|k: u64| #[trigger] w.contains(k) implies node_map(n).contains_key(k) by {
            let x = choose|x: int| 0 <= x < w.len() && w[x] == k;
            if x < p.len() {
                assert(p[x] == k);
                assert(p.contains(k));
                assert(prefix_holds(n, kn, k));
                let j = choose|j: int|
                    #![trigger n.keys@[j]]
                    #![trigger n.children@[j]]
                    0 <= j < kn && (n.keys@[j] == k || node_map(n.children@[j]).contains_key(k));
                if n.keys@[j] == k {
                    assert(n.keys@.contains(k));
                    assert(kv_map(n.keys@, n.values@).contains_key(k));
                } else {
                    assert(cs[j].contains_key(k));
                    assert(union_seq(cs).contains_key(k));
                }
            } else {
                assert(tc[x - p.len()] == k);
                assert(tc.contains(k));
                assert(node_map(c).contains_key(k));
                assert(cs[ln - 1].contains_key(k));
                assert(union_seq(cs).contains_key(k));
            }
        }
        assert forall|k: u64| node_map(n).contains_key(k) implies #[trigger] w.contains(k) by {
            if kv_map(n.keys@, n.values@).contains_key(k) {
                assert(n.keys@.contains(k));
                let j = choose|j: int| 0 <= j < n.keys@.len() && n.keys@[j] == k;
                assert(prefix_holds(n, kn, k));
                assert(p.contains(k));
                let x = choose|x: int| 0 <= x < p.len() && p[x] == k;
                assert(w[x] == k);
            } else {
                assert(union_seq(cs).contains_key(k));
                let j = choose|j: int| 0 <= j < cs.len() && #[trigger] cs[j].contains_key(k);
                if j < ln - 1 {
                    assert(node_map(n.children@[j]).contains_key(k));
                    assert(prefix_holds(n, kn, k));
                    assert(p.contains(k));
                    let x = choose|x: int| 0 <= x < p.len() && p[x] == k;
                    assert(w[x] == k);
                } else {
                    assert(node_map(c).contains_key(k));
                    assert(tc.contains(k));
                    let x = choose|x: int| 0 <= x < tc.len() && tc[x] == k;
                    assert(w[p.len() + x] == k);
                }
            }
        }
    }
}

/// Every well-formed subtree has the level-walkable shape.
pub(crate) proof fn lemma_wf_shaped<V>(n: Node<V>, order: nat, lo: Option<u64>, hi: Option<u64>)
    requires
        wf_sub(n, order, lo, hi),
    ensures
        shaped(n, order),
    decreases n,
{
    assert forall|i: int| 0 <= i < n.children@.len() implies shaped(
        #[trigger] n.children@[i],
        order,
    ) && n.children@[i].height() + 1 == n.height() by {
        lemma_wf_shaped(
            n.children@[i],
            order,
            child_lo(n.keys@, lo, i),
            child_hi(n.keys@, hi, i),
        );
    }
}

/// In a well-formed subtree, the key-counts of the nodes under the first `i`
/// children all lie within the fill bounds.
pub(crate) proof fn lemma_counts_prefix_bounded<V>(
    n: Node<V>,
    order: nat,
    lo: Option<u64>,
    hi: Option<u64>,
    i: int,
)
    requires
        wf_sub(n, order, lo, hi),
        0 <= i <= n.children@.len(),
    ensures
        forall|j: int|
            0 <= j < counts_prefix(n, i).len() ==> min_keys(order) <= #[trigger] counts_prefix(
                n,
                i,
            )[j] <= order,
    decreases n, 0int, i,
{
    if i > 0 {
        lemma_counts_prefix_bounded(n, order, lo, hi, i - 1);
        let c = n.children@[i - 1];
        lemma_counts_bounded(c, order, child_lo(n.keys@, lo, i - 1), child_hi(n.keys@, hi, i - 1));
        assert forall|j: int|
            0 <= j < counts_prefix(n, i).len() implies min_keys(order) <= #[trigger] counts_prefix(
            n,
            i,
        )[j] <= order by {
            let p = counts_prefix(n, i - 1);
            if j < p.len() {
                assert(counts_prefix(n, i)[j] == p[j]);
            } else {
                assert(counts_prefix(n, i)[j] == node_counts(c)[j - p.len()]);
                if j - p.len() == 0 {
                    assert(node_counts(c)[0] == c.keys@.len() as int);
                }
            }
        }
    }
}

/// In a well-formed subtree, every node below the top holds a key-count
/// within the fill bounds; the top node's own count heads the sequence.
pub(crate) proof fn lemma_counts_bounded<V>(n: Node<V>, order: nat, lo: Option<u64>, hi: Option<
    u64,
>)
    requires
        wf_sub(n, order, lo, hi),
    ensures
        node_counts(n).len() >= 1,
        node_counts(n)[0] == n.keys@.len() as int,
        forall|j: int|
            1 <= j < node_counts(n).len() ==> min_keys(order) <= #[trigger] node_counts(n)[j]
                <= order,
    decreases n, 1int, 0int,
{
    let ln = n.children@.len() as int;
    lemma_counts_prefix_bounded(n, order, lo, hi, ln);
    assert forall|j: int|
        1 <= j < node_counts(n).len() implies min_keys(order) <= #[trigger] node_counts(n)[j]
        <= order by {
        assert(node_counts(n)[j] == counts_prefix(n, ln)[j - 1]);
    }
}

/// In a well-formed subtree, the leaves under the first `i` children all lie
/// at the same depth: the subtree's own height.
pub(crate) proof fn lemma_depths_prefix_equal<V>(
    n: Node<V>,
    order: nat,
    lo: Option<u64>,
    hi: Option<u64>,
    i: int,
)
    requires
        wf_sub(n, order, lo, hi),
        0 <= i <= n.children@.len(),
    ensures
        depths_prefix(n, i).len() >= i,
        forall|j: int|
            0 <= j < depths_prefix(n, i).len() ==> #[trigger] depths_prefix(n, i)[j]
                == n.height(),
    decreases n, 0int, i,
{
    if i > 0 {
        lemma_depths_prefix_equal(n, order, lo, hi, i - 1);
        let c = n.children@[i - 1];
        lemma_depths_equal(c, order, child_lo(n.keys@, lo, i - 1), child_hi(n.keys@, hi, i - 1));
        let p = depths_prefix(n, i - 1);
        let d = node_leaf_depths(c).map_values(|d: nat| (d + 1) as nat);
        assert(d.len() == node_leaf_depths(c).len());
        assert forall|j: int|
            0 <= j < depths_prefix(n, i).len() implies #[trigger] depths_prefix(n, i)[j]
            == n.height() by {
            if j < p.len() {
                assert(depths_prefix(n, i)[j] == p[j]);
            } else {
                assert(depths_prefix(n, i)[j] == d[j - p.len()]);
                assert(node_leaf_depths(c)[j - p.len()] == c.height());
                assert(c.height() + 1 == n.height());
            }
        }
    }
}

/// In a well-formed subtree, every leaf lies at the same depth: the
/// subtree's height.
pub(crate) proof fn lemma_depths_equal<V>(n: Node<V>, order: nat, lo: Option<u64>, hi: Option<
    u64,
>)
    requires
        wf_sub(n, order, lo, hi),
    ensures
        node_leaf_depths(n).len() >= 1,
        forall|j: int|
            0 <= j < node_leaf_depths(n).len() ==> #[trigger] node_leaf_depths(n)[j]
                == n.height(),
    decreases n, 1int, 0int,
{
    if n.children@.len() == 0 {
    } else {
        lemma_depths_prefix_equal(n, order, lo, hi, n.children@.len() as int);
    }
}

} // verus!
