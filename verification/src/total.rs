//! The arithmetic total of a finite key-to-integer map.
//!
//! Both tree variants aggregate their payloads with a `sum` operation. Its
//! contract says the result is the total of every stored value, counted once
//! per key; [`map_total`] is that notion, and the lemmas here let a caller
//! track it across insertions.

use vstd::prelude::*;

verus! {

/// The sum of all values of a finite map, each key counted exactly once.
pub open spec fn map_total<KV>(m: Map<KV, i64>) -> int
    decreases m.dom().len(),
        when m.dom().finite()
{
    if m.dom().len() == 0 {
        0
    } else {
        let x = m.dom().choose();
        m[x] + map_total(m.remove(x))
    }
}

/// An empty map totals zero.
pub proof fn lemma_map_total_empty<KV>()
    ensures
        map_total(Map::<KV, i64>::empty()) == 0,
{
    assert(Map::<KV, i64>::empty().dom() =~= Set::empty());
}

/// The total can be expanded at any present key, not only the chosen one.
pub proof fn lemma_map_total_expand<KV>(m: Map<KV, i64>, x: KV)
    requires
        m.dom().finite(),
        m.dom().contains(x),
    ensures
        map_total(m) == m[x] + map_total(m.remove(x)),
    decreases m.dom().len(),
{
    let c = m.dom().choose();
    assert(m.dom().contains(c));
    assert(m.dom().len() != 0);
    if c == x {
    } else {
        let mc = m.remove(c);
        let mx = m.remove(x);
        assert(mc.dom() =~= m.dom().remove(c));
        assert(mx.dom() =~= m.dom().remove(x));
        lemma_map_total_expand(mc, x);
        lemma_map_total_expand(mx, c);
        assert(mc.remove(x) =~= mx.remove(c));
        assert(mx[c] == m[c] && mc[x] == m[x]);
    }
}

/// Inserting a fresh key raises the total by exactly the inserted value.
pub proof fn lemma_map_total_insert<KV>(m: Map<KV, i64>, x: KV, v: i64)
    requires
        m.dom().finite(),
        !m.dom().contains(x),
    ensures
        map_total(m.insert(x, v)) == map_total(m) + v,
{
    let mi = m.insert(x, v);
    assert(mi.dom() =~= m.dom().insert(x));
    lemma_map_total_expand(mi, x);
    assert(mi.remove(x) =~= m);
}

/// The total of a union of key-disjoint maps is the sum of the totals.
pub proof fn lemma_map_total_union<KV>(a: Map<KV, i64>, b: Map<KV, i64>)
    requires
        a.dom().finite(),
        b.dom().finite(),
        a.dom().disjoint(b.dom()),
    ensures
        map_total(a.union_prefer_right(b)) == map_total(a) + map_total(b),
    decreases b.dom().len(),
{
    if b.dom().len() == 0 {
        assert(b.dom() =~= Set::empty());
        assert(a.union_prefer_right(b) =~= a);
    } else {
        let x = b.dom().choose();
        assert(b.dom().contains(x));
        let bs = b.remove(x);
        assert(bs.dom() =~= b.dom().remove(x));
        lemma_map_total_union(a, bs);
        lemma_map_total_expand(b, x);
        assert(a.union_prefer_right(b).remove(x) =~= a.union_prefer_right(bs));
        assert(a.union_prefer_right(b).dom() =~= a.dom().union(b.dom()));
        lemma_map_total_expand(a.union_prefer_right(b), x);
        assert(a.union_prefer_right(b)[x] == b[x]);
    }
}

} // verus!
