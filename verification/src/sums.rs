//! Sums over the values of a finite map.

use vstd::prelude::*;

verus! {

/// The sum of the values of `m`.
pub open spec fn map_sum(m: Map<u64, nat>) -> nat
    decreases m.dom().len(),
{
    if m.dom().finite() && m.dom().len() > 0 {
        let k = m.dom().choose();
        m[k] + map_sum(m.remove(k))
    } else {
        0
    }
}

/// Any key may be taken out first.
pub proof fn lemma_map_sum_remove(m: Map<u64, nat>, k: u64)
    requires
        m.dom().finite(),
        m.contains_key(k),
    ensures
        map_sum(m) == m[k] + map_sum(m.remove(k)),
    decreases m.dom().len(),
{
    let c = m.dom().choose();
    assert(m.dom().contains(k));
    assert(m.dom().len() > 0);
    assert(m.dom().contains(c));
    if c != k {
        assert(m.remove(c).dom() =~= m.dom().remove(c));
        assert(m.remove(k).dom() =~= m.dom().remove(k));
        lemma_map_sum_remove(m.remove(c), k);
        assert(m.remove(k).contains_key(c));
        lemma_map_sum_remove(m.remove(k), c);
        assert(m.remove(c).remove(k) =~= m.remove(k).remove(c));
    }
}

/// Setting a key replaces what it added to the sum.
pub proof fn lemma_map_sum_insert(m: Map<u64, nat>, k: u64, v: nat)
    requires
        m.dom().finite(),
    ensures
        map_sum(m.insert(k, v)) + (if m.contains_key(k) {
            m[k]
        } else {
            0
        }) == map_sum(m) + v,
{
    let n = m.insert(k, v);
    assert(n.contains_key(k));
    lemma_map_sum_remove(n, k);
    if m.contains_key(k) {
        lemma_map_sum_remove(m, k);
        assert(n.remove(k) =~= m.remove(k));
    } else {
        assert(n.remove(k) =~= m);
    }
}

/// The sum of the values of `m` at the listed keys.
pub open spec fn listed_sum(m: Map<u64, nat>, keys: Seq<u64>) -> nat
    decreases keys.len(),
{
    if keys.len() == 0 {
        0
    } else {
        listed_sum(m, keys.drop_last()) + m[keys.last()]
    }
}

/// The sum over a map is the sum over any listing of its keys.
pub proof fn lemma_listed_sum(m: Map<u64, nat>, keys: Seq<u64>)
    requires
        keys.no_duplicates(),
        keys.to_set() == m.dom(),
    ensures
        m.dom().finite(),
        listed_sum(m, keys) == map_sum(m),
    decreases keys.len(),
{
    broadcast use vstd::seq_lib::seq_to_set_is_finite;

    if keys.len() == 0 {
        assert(m.dom() =~= Set::empty());
    } else {
        let k = keys.last();
        let rest = keys.drop_last();
        assert(keys.contains(k));
        assert(m.dom().contains(k));
        assert forall|x: u64| rest.to_set().contains(x) <==> m.remove(k).dom().contains(x) by {
            if m.remove(k).dom().contains(x) {
                assert(keys.to_set().contains(x));
                let i = choose|i: int| 0 <= i < keys.len() && keys[i] == x;
                assert(rest[i] == x);
            }
            if rest.contains(x) {
                let i = choose|i: int| 0 <= i < rest.len() && rest[i] == x;
                assert(keys[i] == x);
                assert(keys.to_set().contains(x));
            }
        }
        assert(rest.to_set() =~= m.remove(k).dom());
        lemma_listed_sum(m.remove(k), rest);
        lemma_map_sum_remove(m, k);
        lemma_listed_sum_frame(m, m.remove(k), rest);
    }
}

proof fn lemma_listed_sum_frame(m: Map<u64, nat>, n: Map<u64, nat>, keys: Seq<u64>)
    requires
        forall|i: int| 0 <= i < keys.len() ==> m[#[trigger] keys[i]] == n[keys[i]],
    ensures
        listed_sum(m, keys) == listed_sum(n, keys),
    decreases keys.len(),
{
    if keys.len() > 0 {
        assert(keys.last() == keys[keys.len() - 1]);
        assert forall|i: int| 0 <= i < keys.drop_last().len() implies (
        m[#[trigger] keys.drop_last()[i]] == n[keys.drop_last()[i]]) by {
            assert(keys.drop_last()[i] == keys[i]);
        }
        lemma_listed_sum_frame(m, n, keys.drop_last());
    }
}

} // verus!
