use vstd::prelude::*;
use crate::mapping::{
    pairs_map, distinct_keys, lemma_pairs_map_domain, lemma_pairs_map_index,
    lemma_pairs_map_update, lemma_pairs_map_len,
};
use crate::strutil::str_eq;

verus! {

/// The contents of one discovered component: its substituted source text.
pub struct ComponentCode {
    pub code: String,
}

/// A discovery result: component keys to substituted contents.  A later
/// insertion silently overrides an earlier one with the same key.
pub struct ResultMapping {
    entries: Vec<(String, ComponentCode)>,
}

impl View for ResultMapping {
    type V = Map<Seq<char>, Seq<char>>;

    closed spec fn view(&self) -> Map<Seq<char>, Seq<char>> {
        pairs_map(self.pair_views())
    }
}

impl ResultMapping {
    /// The stored pairs, in insertion order.
    pub closed spec fn pair_views(&self) -> Seq<(Seq<char>, Seq<char>)> {
        self.entries@.map_values(|p: (String, ComponentCode)| (p.0@, p.1.code@))
    }

    /// Keys are pairwise distinct.
    pub open spec fn wf(&self) -> bool {
        distinct_keys(self.pair_views())
    }

    pub fn new() -> (r: ResultMapping)
        ensures
            r@ == Map::<Seq<char>, Seq<char>>::empty(),
            r.wf(),
    {
        let r = ResultMapping { entries: Vec::new() };
        proof {
            assert(r.pair_views() =~= Seq::<(Seq<char>, Seq<char>)>::empty());
        }
        r
    }

    /// Associate `key` with `code`, overriding any earlier association.
    #[verifier::loop_isolation(false)]
    pub fn insert(&mut self, key: String, code: ComponentCode)
        requires
            old(self).wf(),
        ensures
            final(self).wf(),
            final(self)@ == old(self)@.insert(key@, code.code@),
    {
        let n = self.entries.len();
        let mut i: usize = 0;
        while i < n
            invariant
                n == self.entries.len(),
                i <= n,
                *self == *old(self),
                forall|k: int| 0 <= k < i ==> (#[trigger] old(self).pair_views()[k]).0 != key@,
            decreases n - i,
        {
            if str_eq(self.entries[i].0.as_str(), key.as_str()) {
                proof {
                    assert(old(self).pair_views()[i as int].0 == key@);
                }
                let ghost ps = old(self).pair_views();
                self.entries[i] = (key, code);
                proof {
                    assert(self.pair_views() =~= ps.update(i as int, (ps[i as int].0, code.code@)));
                    lemma_pairs_map_update(ps, i as int, code.code@);
                    assert forall|a: int, b: int|
                        0 <= a < b < self.pair_views().len() implies (
                    #[trigger] self.pair_views()[a]).0 != (#[trigger] self.pair_views()[b]).0 by {
                        assert(self.pair_views()[a].0 == ps[a].0);
                        assert(self.pair_views()[b].0 == ps[b].0);
                        assert(ps[a].0 != ps[b].0);
                    }
                }
                return ;
            }
            i = i + 1;
        }
        let ghost ps = old(self).pair_views();
        self.entries.push((key, code));
        proof {
            assert(self.pair_views() =~= ps.push((key@, code.code@)));
            assert(self.pair_views().drop_last() =~= ps);
            assert(pairs_map(self.pair_views()) == pairs_map(ps).insert(key@, code.code@));
            assert forall|a: int, b: int|
                0 <= a < b < self.pair_views().len() implies (#[trigger] self.pair_views()[a]).0
                != (#[trigger] self.pair_views()[b]).0 by {
                if b < ps.len() {
                    assert(ps[a].0 != ps[b].0);
                } else {
                    assert(self.pair_views()[b].0 == key@);
                    assert(ps[a].0 != key@);
                }
            }
        }
    }

    /// The component stored under `key`, if any.
    #[verifier::loop_isolation(false)]
    pub fn get(&self, key: &str) -> (r: Option<&ComponentCode>)
        requires
            self.wf(),
        ensures
            r is Some <==> self@.contains_key(key@),
            r is Some ==> r->0.code@ == self@[key@],
    {
        let n = self.entries.len();
        let mut i: usize = 0;
        while i < n
            invariant
                n == self.entries.len(),
                i <= n,
                forall|k: int| 0 <= k < i ==> (#[trigger] self.pair_views()[k]).0 != key@,
            decreases n - i,
        {
            if str_eq(self.entries[i].0.as_str(), key) {
                proof {
                    assert(self.pair_views()[i as int].0 == key@);
                    lemma_pairs_map_index(self.pair_views(), i as int);
                }
                return Some(&self.entries[i].1);
            }
            i = i + 1;
        }
        proof {
            lemma_pairs_map_domain(self.pair_views(), key@);
        }
        None
    }

    /// How many components are stored.
    pub fn len(&self) -> (n: usize)
        requires
            self.wf(),
        ensures
            n == self@.dom().len(),
    {
        proof {
            lemma_pairs_map_len(self.pair_views());
        }
        self.entries.len()
    }

    /// Hands the stored pairs out, each one an association of the mapping.
    pub fn into_pairs(self) -> (r: Vec<(String, ComponentCode)>)
        requires
            self.wf(),
        ensures
            r@.len() == self@.dom().len(),
            forall|i: int|
                0 <= i < r@.len() ==> self@.contains_key((#[trigger] r@[i]).0@) && self@[r@[i].0@]
                    == r@[i].1.code@,
            forall|key: Seq<char>| #[trigger]
                self@.contains_key(key) ==> exists|i: int|
                    0 <= i < r@.len() && (#[trigger] r@[i]).0@ == key,
    {
        proof {
            lemma_pairs_map_len(self.pair_views());
            assert forall|i: int|
                0 <= i < self.entries@.len() implies self@.contains_key(
                (#[trigger] self.entries@[i]).0@,
            ) && self@[self.entries@[i].0@] == self.entries@[i].1.code@ by {
                assert(self.pair_views()[i] == (self.entries@[i].0@, self.entries@[i].1.code@));
                lemma_pairs_map_index(self.pair_views(), i);
            }
            assert forall|key: Seq<char>| #[trigger] self@.contains_key(key) implies exists|i: int|
                0 <= i < self.entries@.len() && (#[trigger] self.entries@[i]).0@ == key by {
                lemma_pairs_map_domain(self.pair_views(), key);
                let j = choose|j: int|
                    0 <= j < self.pair_views().len() && self.pair_views()[j].0 == key;
                assert(self.entries@[j].0@ == key);
            }
        }
        self.entries
    }

    /// Merge `other` into `self`: every association of `other` is taken over,
    /// overriding an existing one with the same key.
    #[verifier::loop_isolation(false)]
    pub fn extend(&mut self, other: ResultMapping)
        requires
            old(self).wf(),
            other.wf(),
        ensures
            final(self).wf(),
            final(self)@ == old(self)@.union_prefer_right(other@),
    {
        broadcast use vstd::map_lib::lemma_union_insert_right;

        let ghost ops = other.pair_views();
        let pairs = other.into_pairs();
        let n = pairs.len();
        let mut i: usize = 0;
        proof {
            assert(self@.union_prefer_right(Map::<Seq<char>, Seq<char>>::empty()) =~= self@);
        }
        let mut merged: Ghost<Map<Seq<char>, Seq<char>>> = Ghost(Map::empty());
        while i < n
            invariant
                n == pairs@.len(),
                i <= n,
                self.wf(),
                self@ == old(self)@.union_prefer_right(merged@),
                forall|k: int|
                    0 <= k < i ==> merged@.contains_key((#[trigger] pairs@[k]).0@) && merged@[
                        pairs@[k].0@
                    ] == pairs@[k].1.code@,
                forall|key: Seq<char>| #[trigger]
                    merged@.contains_key(key) ==> other@.contains_key(key) && merged@[key]
                        == other@[key],
                forall|key: Seq<char>| #[trigger]
                    other@.contains_key(key) ==> (merged@.contains_key(key) || exists|k: int|
                        i <= k < n && (#[trigger] pairs@[k]).0@ == key),
            decreases n - i,
        {
            let key = pairs[i].0.clone();
            let code = pairs[i].1.code.clone();
            self.insert(key, ComponentCode { code });
            proof {
                merged@ = merged@.insert(pairs@[i as int].0@, pairs@[i as int].1.code@);
                assert forall|key: Seq<char>| #[trigger]
                    other@.contains_key(key) implies (merged@.contains_key(key) || exists|k: int|
                    i + 1 <= k < n && (#[trigger] pairs@[k]).0@ == key) by {
                    if !merged@.contains_key(key) {
                        let k = choose|k: int| i <= k < n && (#[trigger] pairs@[k]).0@ == key;
                        assert(pairs@[k].0@ == key && k != i);
                    }
                }
            }
            i = i + 1;
        }
        proof {
            assert(merged@ =~= other@);
        }
    }
}

} // verus!
