//! Sums over light arrays and over the chunk map. They give the termination
//! measures of the light flood fills.
use vstd::prelude::*;
use crate::chunk::Chunk;
use crate::blocks::SKY_LIGHT_MAX;

verus! {

/// Sum over the cells of how far each value is below the light maximum.
pub open spec fn deficit(s: Seq<u8>) -> int
    decreases s.len(),
{
    if s.len() == 0 {
        0
    } else {
        deficit(s.drop_last()) + (SKY_LIGHT_MAX - s.last())
    }
}

/// Sum of the values.
pub open spec fn total(s: Seq<u8>) -> int
    decreases s.len(),
{
    if s.len() == 0 {
        0
    } else {
        total(s.drop_last()) + s.last()
    }
}

/// Changing one value changes the deficit by the opposite amount.
pub proof fn lemma_deficit_update(s: Seq<u8>, i: int, v: u8)
    requires
        0 <= i < s.len(),
    ensures
        deficit(s.update(i, v)) == deficit(s) + s[i] - v,
    decreases s.len(),
{
    let t = s.update(i, v);
    if i == s.len() - 1 {
        assert(t.drop_last() =~= s.drop_last());
    } else {
        lemma_deficit_update(s.drop_last(), i, v);
        assert(t.drop_last() =~= s.drop_last().update(i, v));
    }
}

/// Changing one value changes the total by the same amount.
pub proof fn lemma_total_update(s: Seq<u8>, i: int, v: u8)
    requires
        0 <= i < s.len(),
    ensures
        total(s.update(i, v)) == total(s) - s[i] + v,
    decreases s.len(),
{
    let t = s.update(i, v);
    if i == s.len() - 1 {
        assert(t.drop_last() =~= s.drop_last());
    } else {
        lemma_total_update(s.drop_last(), i, v);
        assert(t.drop_last() =~= s.drop_last().update(i, v));
    }
}

/// The deficit of bounded values is not negative.
pub proof fn lemma_deficit_nonneg(s: Seq<u8>)
    requires
        forall|i: int| 0 <= i < s.len() ==> #[trigger] s[i] <= SKY_LIGHT_MAX,
    ensures
        deficit(s) >= 0,
    decreases s.len(),
{
    if s.len() > 0 {
        lemma_deficit_nonneg(s.drop_last());
    }
}

/// The total is not negative.
pub proof fn lemma_total_nonneg(s: Seq<u8>)
    ensures
        total(s) >= 0,
    decreases s.len(),
{
    if s.len() > 0 {
        lemma_total_nonneg(s.drop_last());
    }
}

/// Sum of `f` over the chunks of a finite map.
pub open spec fn map_sum(m: Map<u64, Chunk>, f: spec_fn(Chunk) -> int) -> int
    decreases m.dom().len(),
    when m.dom().finite()
{
    if m.dom().len() == 0 {
        0
    } else {
        let k = m.dom().choose();
        f(m[k]) + map_sum(m.remove(k), f)
    }
}

/// The sum splits off any one key.
pub proof fn lemma_map_sum_remove(m: Map<u64, Chunk>, f: spec_fn(Chunk) -> int, k: u64)
    requires
        m.dom().finite(),
        m.dom().contains(k),
    ensures
        map_sum(m, f) == f(m[k]) + map_sum(m.remove(k), f),
    decreases m.dom().len(),
{
    let k0 = m.dom().choose();
    if k0 != k {
        let m0 = m.remove(k0);
        let mk = m.remove(k);
        lemma_map_sum_remove(m0, f, k);
        lemma_map_sum_remove(mk, f, k0);
        assert(m0.remove(k) =~= mk.remove(k0));
    }
}

/// Replacing the chunk under a present key changes the sum by the change of `f`.
pub proof fn lemma_map_sum_insert(m: Map<u64, Chunk>, f: spec_fn(Chunk) -> int, k: u64, c: Chunk)
    requires
        m.dom().finite(),
        m.dom().contains(k),
    ensures
        map_sum(m.insert(k, c), f) == map_sum(m, f) - f(m[k]) + f(c),
{
    let n = m.insert(k, c);
    lemma_map_sum_remove(m, f, k);
    lemma_map_sum_remove(n, f, k);
    assert(n.remove(k) =~= m.remove(k));
}

/// A sum of non-negative terms is not negative.
pub proof fn lemma_map_sum_nonneg(m: Map<u64, Chunk>, f: spec_fn(Chunk) -> int)
    requires
        m.dom().finite(),
        forall|k: u64| m.dom().contains(k) ==> f(#[trigger] m[k]) >= 0,
    ensures
        map_sum(m, f) >= 0,
    decreases m.dom().len(),
{
    if m.dom().len() > 0 {
        let k = m.dom().choose();
        lemma_map_sum_nonneg(m.remove(k), f);
    }
}

} // verus!
