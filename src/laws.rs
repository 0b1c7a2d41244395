use crate::trie::Trie;
use vstd::prelude::*;

verus! {

/// After `insert(k, v)` a lookup of `k` finds `v`.
pub proof fn law_insert_then_lookup<V, const N: usize>(
    before: Trie<V, N>,
    after: Trie<V, N>,
    k: [u8; N],
    v: V,
)
    requires
        after@ == before@.insert(k, v),
    ensures
        after@.contains_key(k),
        after@[k] == v,
{
}

/// Inserting a fresh key with `v1` and then again with `v2` displaces
/// nothing the first time and `v1` the second; a lookup then finds `v2`.
pub proof fn law_overwrite<V, const N: usize>(
    t0: Trie<V, N>,
    t1: Trie<V, N>,
    t2: Trie<V, N>,
    k: [u8; N],
    v1: V,
    v2: V,
)
    requires
        !t0@.contains_key(k),
        t1@ == t0@.insert(k, v1),
        t2@ == t1@.insert(k, v2),
    ensures
        t1@.contains_key(k) && t1@[k] == v1,
        t2@.contains_key(k) && t2@[k] == v2,
        t2@ == t0@.insert(k, v2),
{
    assert(t2@ =~= t0@.insert(k, v2));
}

/// Two distinct keys inserted in either order give the same entries, and
/// each is found with its own value.
pub proof fn law_non_interference<V, const N: usize>(
    t: Trie<V, N>,
    k1: [u8; N],
    v1: V,
    k2: [u8; N],
    v2: V,
)
    requires
        k1 != k2,
    ensures
        t@.insert(k1, v1).insert(k2, v2) == t@.insert(k2, v2).insert(k1, v1),
        t@.insert(k1, v1).insert(k2, v2)[k1] == v1,
        t@.insert(k1, v1).insert(k2, v2)[k2] == v2,
{
    assert(t@.insert(k1, v1).insert(k2, v2) =~= t@.insert(k2, v2).insert(k1, v1));
}

/// The entries after inserting `entries` one after another, first to last,
/// into a trie whose entries are `m`.
pub open spec fn insert_all<V, const N: usize>(
    m: Map<[u8; N], V>,
    entries: Seq<([u8; N], V)>,
) -> Map<[u8; N], V>
    decreases entries.len(),
{
    if entries.len() == 0 {
        m
    } else {
        insert_all(m, entries.drop_last()).insert(entries.last().0, entries.last().1)
    }
}

/// Each key occurs at most once among the entries.
pub open spec fn keys_distinct<V, const N: usize>(entries: Seq<([u8; N], V)>) -> bool {
    forall|i: int, j: int|
        0 <= i < entries.len() && 0 <= j < entries.len() && i != j ==> #[trigger] entries[i].0
            != #[trigger] entries[j].0
}

proof fn lemma_insert_all<V, const N: usize>(m: Map<[u8; N], V>, entries: Seq<([u8; N], V)>)
    requires
        keys_distinct(entries),
    ensures
        forall|k: [u8; N]| #[trigger]
            insert_all(m, entries).contains_key(k) <==> (m.contains_key(k) || exists|i: int|
                0 <= i < entries.len() && #[trigger] entries[i].0 == k),
        forall|i: int|
            0 <= i < entries.len() ==> #[trigger] insert_all(m, entries)[entries[i].0]
                == entries[i].1,
        forall|k: [u8; N]|
            m.contains_key(k) && !(exists|i: int| 0 <= i < entries.len() && #[trigger] entries[i].0 == k)
                ==> #[trigger] insert_all(m, entries)[k] == m[k],
    decreases entries.len(),
{
    if entries.len() > 0 {
        let rest = entries.drop_last();
        assert forall|i: int, j: int|
            0 <= i < rest.len() && 0 <= j < rest.len() && i != j implies #[trigger] rest[i].0
            != #[trigger] rest[j].0 by {
            assert(rest[i] == entries[i] && rest[j] == entries[j]);
        }
        lemma_insert_all(m, rest);
        let n = entries.len() - 1;
        assert(insert_all(m, entries) == insert_all(m, rest).insert(entries[n].0, entries[n].1));
        assert forall|k: [u8; N]| #[trigger]
            insert_all(m, entries).contains_key(k) <==> (m.contains_key(k) || exists|i: int|
                0 <= i < entries.len() && #[trigger] entries[i].0 == k) by {
            if exists|i: int| 0 <= i < entries.len() && #[trigger] entries[i].0 == k {
                let i = choose|i: int| 0 <= i < entries.len() && #[trigger] entries[i].0 == k;
                if i < n {
                    assert(rest[i] == entries[i]);
                }
            }
            if exists|i: int| 0 <= i < rest.len() && #[trigger] rest[i].0 == k {
                let i = choose|i: int| 0 <= i < rest.len() && #[trigger] rest[i].0 == k;
                assert(entries[i] == rest[i]);
            }
        }
        assert forall|i: int| 0 <= i < entries.len() implies #[trigger] insert_all(
            m,
            entries,
        )[entries[i].0] == entries[i].1 by {
            if i < n {
                assert(rest[i] == entries[i]);
                assert(entries[i].0 != entries[n].0);
            }
        }
        assert forall|k: [u8; N]|
            m.contains_key(k) && !(exists|i: int| 0 <= i < entries.len() && #[trigger] entries[i].0 == k)
                implies #[trigger] insert_all(m, entries)[k] == m[k] by {
            assert(entries[n].0 != k);
            if exists|i: int| 0 <= i < rest.len() && #[trigger] rest[i].0 == k {
                let i = choose|i: int| 0 <= i < rest.len() && #[trigger] rest[i].0 == k;
                assert(entries[i] == rest[i]);
            }
        }
    }
}

/// Inserting the same entries, with distinct keys, in any two orders gives
/// the same entries: lookups do not depend on the order of insertion.
pub proof fn law_order_independent<V, const N: usize>(
    m: Map<[u8; N], V>,
    e1: Seq<([u8; N], V)>,
    e2: Seq<([u8; N], V)>,
)
    requires
        keys_distinct(e1),
        keys_distinct(e2),
        e1.to_multiset() == e2.to_multiset(),
    ensures
        insert_all(m, e1) == insert_all(m, e2),
{
    lemma_insert_all(m, e1);
    lemma_insert_all(m, e2);
    assert forall|a: ([u8; N], V)| e1.contains(a) <==> e2.contains(a) by {
        vstd::seq_lib::to_multiset_contains(e1, a);
        vstd::seq_lib::to_multiset_contains(e2, a);
    }
    assert forall|k: [u8; N]|
        #![trigger insert_all(m, e1).contains_key(k)]
        (exists|i: int| 0 <= i < e1.len() && #[trigger] e1[i].0 == k) implies exists|j: int|
        0 <= j < e2.len() && #[trigger] e2[j].0 == k by {
        let i = choose|i: int| 0 <= i < e1.len() && #[trigger] e1[i].0 == k;
        assert(e1.contains(e1[i]));
        let j = choose|j: int| 0 <= j < e2.len() && e2[j] == e1[i];
        assert(e2[j].0 == k);
    }
    assert forall|k: [u8; N]|
        #![trigger insert_all(m, e2).contains_key(k)]
        (exists|j: int| 0 <= j < e2.len() && #[trigger] e2[j].0 == k) implies exists|i: int|
        0 <= i < e1.len() && #[trigger] e1[i].0 == k by {
        let j = choose|j: int| 0 <= j < e2.len() && #[trigger] e2[j].0 == k;
        assert(e2.contains(e2[j]));
        let i = choose|i: int| 0 <= i < e1.len() && e1[i] == e2[j];
        assert(e1[i].0 == k);
    }
    assert forall|k: [u8; N]| #[trigger] insert_all(m, e1).contains_key(k) implies insert_all(
        m,
        e1,
    )[k] == insert_all(m, e2)[k] by {
        if exists|i: int| 0 <= i < e1.len() && #[trigger] e1[i].0 == k {
            let i = choose|i: int| 0 <= i < e1.len() && #[trigger] e1[i].0 == k;
            assert(e1.contains(e1[i]));
            let j = choose|j: int| 0 <= j < e2.len() && e2[j] == e1[i];
            assert(e2[j].0 == k);
            assert(insert_all(m, e1)[e1[i].0] == e1[i].1);
            assert(insert_all(m, e2)[e2[j].0] == e2[j].1);
        } else {
            if insert_all(m, e2).contains_key(k) && exists|j: int|
                0 <= j < e2.len() && #[trigger] e2[j].0 == k {
            }
            assert(m.contains_key(k));
        }
    }
    assert(insert_all(m, e1) =~= insert_all(m, e2));
}

/// The shape of a trie depends only on the entries it holds, so inserting
/// the same entries in any order builds the same tree.
pub proof fn law_shape_determined<V, const N: usize>(a: Trie<V, N>, b: Trie<V, N>)
    requires
        a.wf(),
        b.wf(),
        a@ == b@,
    ensures
        a.same_shape(&b),
{
    a.lemma_shape_determined(&b);
}

} // verus!
