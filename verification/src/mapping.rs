use vstd::prelude::*;

verus! {

/// The mapping that a sequence of key-value pairs denotes: a later pair
/// overrides an earlier one with the same key.
pub open spec fn pairs_map(ps: Seq<(Seq<char>, Seq<char>)>) -> Map<Seq<char>, Seq<char>>
    decreases ps.len(),
{
    if ps.len() == 0 {
        Map::empty()
    } else {
        pairs_map(ps.drop_last()).insert(ps.last().0, ps.last().1)
    }
}

/// Pairwise distinct keys.
pub open spec fn distinct_keys(ps: Seq<(Seq<char>, Seq<char>)>) -> bool {
    forall|i: int, j: int|
        0 <= i < j < ps.len() ==> (#[trigger] ps[i]).0 != (#[trigger] ps[j]).0
}

/// A key is in the denoted mapping exactly when some pair holds it.
pub proof fn lemma_pairs_map_domain(ps: Seq<(Seq<char>, Seq<char>)>, k: Seq<char>)
    ensures
        pairs_map(ps).contains_key(k) <==> exists|i: int| 0 <= i < ps.len() && ps[i].0 == k,
    decreases ps.len(),
{
    if ps.len() > 0 {
        lemma_pairs_map_domain(ps.drop_last(), k);
        if pairs_map(ps).contains_key(k) {
            if ps.last().0 == k {
                assert(ps[ps.len() - 1].0 == k);
            } else {
                let i = choose|i: int| 0 <= i < ps.drop_last().len() && ps.drop_last()[i].0 == k;
                assert(ps[i].0 == k);
            }
        }
        if exists|i: int| 0 <= i < ps.len() && ps[i].0 == k {
            let i = choose|i: int| 0 <= i < ps.len() && ps[i].0 == k;
            if i < ps.len() - 1 {
                assert(ps.drop_last()[i].0 == k);
            }
        }
    }
}

/// Under distinct keys, each pair is mapped exactly as written.
pub proof fn lemma_pairs_map_index(ps: Seq<(Seq<char>, Seq<char>)>, i: int)
    requires
        0 <= i < ps.len(),
        distinct_keys(ps),
    ensures
        pairs_map(ps).contains_key(ps[i].0),
        pairs_map(ps)[ps[i].0] == ps[i].1,
    decreases ps.len(),
{
    if i == ps.len() - 1 {
    } else {
        assert(forall|a: int, b: int|
            0 <= a < b < ps.drop_last().len() ==> ps.drop_last()[a].0 != ps.drop_last()[b].0);
        lemma_pairs_map_index(ps.drop_last(), i);
        assert(ps.drop_last()[i] == ps[i]);
        assert(ps[i].0 != ps.last().0);
    }
}

/// Under distinct keys, overwriting the value of pair `i` in place denotes
/// the same mapping as inserting over the old one.
pub proof fn lemma_pairs_map_update(ps: Seq<(Seq<char>, Seq<char>)>, i: int, v: Seq<char>)
    requires
        0 <= i < ps.len(),
        distinct_keys(ps),
    ensures
        pairs_map(ps.update(i, (ps[i].0, v))) == pairs_map(ps).insert(ps[i].0, v),
    decreases ps.len(),
{
    let k = ps[i].0;
    let qs = ps.update(i, (k, v));
    if i == ps.len() - 1 {
        assert(qs.drop_last() =~= ps.drop_last());
        assert(qs.last() == (k, v));
        assert(pairs_map(qs) == pairs_map(ps.drop_last()).insert(k, v));
        assert(pairs_map(ps.drop_last()).insert(k, ps.last().1).insert(k, v) =~= pairs_map(
            ps.drop_last(),
        ).insert(k, v));
    } else {
        assert(forall|a: int, b: int|
            0 <= a < b < ps.drop_last().len() ==> (#[trigger] ps.drop_last()[a]).0 != (
            #[trigger] ps.drop_last()[b]).0);
        assert(ps.drop_last()[i] == ps[i]);
        lemma_pairs_map_update(ps.drop_last(), i, v);
        assert(qs.drop_last() =~= ps.drop_last().update(i, (k, v)));
        assert(qs.last() == ps.last());
        let last = ps.last();
        assert(pairs_map(qs) == pairs_map(ps.drop_last()).insert(k, v).insert(last.0, last.1));
        assert(k != last.0) by {
            assert(ps[i].0 != ps[ps.len() - 1].0);
        }
        assert(pairs_map(ps.drop_last()).insert(k, v).insert(last.0, last.1) =~= pairs_map(
            ps.drop_last(),
        ).insert(last.0, last.1).insert(k, v));
    }
}

/// Under distinct keys, the denoted mapping has exactly one entry per pair.
pub proof fn lemma_pairs_map_len(ps: Seq<(Seq<char>, Seq<char>)>)
    requires
        distinct_keys(ps),
    ensures
        pairs_map(ps).dom().finite(),
        pairs_map(ps).dom().len() == ps.len(),
    decreases ps.len(),
{
    broadcast use vstd::set::axiom_set_insert_len;

    if ps.len() > 0 {
        assert(forall|a: int, b: int|
            0 <= a < b < ps.drop_last().len() ==> ps.drop_last()[a].0 != ps.drop_last()[b].0);
        lemma_pairs_map_len(ps.drop_last());
        lemma_pairs_map_domain(ps.drop_last(), ps.last().0);
        if pairs_map(ps.drop_last()).contains_key(ps.last().0) {
            let i = choose|i: int|
                0 <= i < ps.drop_last().len() && ps.drop_last()[i].0 == ps.last().0;
            assert(ps[i].0 == ps[ps.len() - 1].0);
            assert(false);
        }
    }
}

} // verus!
