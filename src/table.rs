use vstd::prelude::*;

verus! {

/// The map that a list of `(code, value)` entries describes: a later entry for a code
/// replaces an earlier one.
pub open spec fn table_map<V>(s: Seq<(u32, V)>) -> Map<u32, V>
    decreases s.len(),
{
    if s.len() == 0 {
        Map::empty()
    } else {
        table_map(s.drop_last()).insert(s.last().0, s.last().1)
    }
}

/// An entry for `k` with no later entry for `k` gives the value of `k`.
pub proof fn lemma_table_latest<V>(s: Seq<(u32, V)>, j: int, k: u32)
    requires
        0 <= j < s.len(),
        s[j].0 == k,
        forall|m: int| j < m < s.len() ==> s[m].0 != k,
    ensures
        table_map(s).contains_key(k),
        table_map(s)[k] == s[j].1,
    decreases s.len(),
{
    if j < s.len() - 1 {
        lemma_table_latest(s.drop_last(), j, k);
    }
}

/// A code with no entry has no value.
pub proof fn lemma_table_absent<V>(s: Seq<(u32, V)>, k: u32)
    requires
        forall|m: int| 0 <= m < s.len() ==> s[m].0 != k,
    ensures
        !table_map(s).contains_key(k),
    decreases s.len(),
{
    if s.len() > 0 {
        lemma_table_absent(s.drop_last(), k);
    }
}

/// Appending entries overrides the earlier map with the later one.
pub proof fn lemma_table_append<V>(a: Seq<(u32, V)>, b: Seq<(u32, V)>)
    ensures
        table_map(a + b) == table_map(a).union_prefer_right(table_map(b)),
    decreases b.len(),
{
    if b.len() == 0 {
        assert(a + b == a);
        assert(table_map(a).union_prefer_right(Map::empty()) == table_map(a));
    } else {
        lemma_table_append(a, b.drop_last());
        assert((a + b).drop_last() == a + b.drop_last());
        assert(table_map(a + b) == table_map(a).union_prefer_right(table_map(b)));
    }
}

/// Pushing an entry sets its code to its value.
pub proof fn lemma_table_push<V>(s: Seq<(u32, V)>, e: (u32, V))
    ensures
        table_map(s.push(e)) == table_map(s).insert(e.0, e.1),
{
    assert(s.push(e).drop_last() == s);
}

} // verus!
