//! A small association table keyed by strings.
//!
//! The storage engine keeps its two maps in this type.  It is a vector of
//! pairs with no repeated key; its view is the mathematical map from key
//! characters to values, which is what every storage contract speaks of.

use vstd::prelude::*;

verus! {

/// No two pairs of the sequence share a key.
pub open spec fn keys_unique<V>(s: Seq<(String, V)>) -> bool {
    forall|p: int, q: int| 0 <= p < q < s.len() ==> s[p].0@ != s[q].0@
}

/// The map a pair sequence denotes; a later pair for the same key wins.
pub open spec fn map_of<V>(s: Seq<(String, V)>) -> Map<Seq<char>, V>
    decreases s.len(),
{
    if s.len() == 0 {
        Map::empty()
    } else {
        map_of(s.drop_last()).insert(s.last().0@, s.last().1)
    }
}

/// A key is in the map exactly when some pair carries it.
proof fn lemma_map_of_contains<V>(s: Seq<(String, V)>, k: Seq<char>)
    ensures
        map_of(s).contains_key(k) <==> (exists|i: int| 0 <= i < s.len() && s[i].0@ == k),
    decreases s.len(),
{
    if s.len() > 0 {
        lemma_map_of_contains(s.drop_last(), k);
        if map_of(s).contains_key(k) && s.last().0@ != k {
            let i = choose|i: int| 0 <= i < s.drop_last().len() && s.drop_last()[i].0@ == k;
            assert(s[i].0@ == k);
        }
        if exists|i: int| 0 <= i < s.len() && s[i].0@ == k {
            let i = choose|i: int| 0 <= i < s.len() && s[i].0@ == k;
            if i < s.len() - 1 {
                assert(s.drop_last()[i].0@ == k);
            }
        }
    }
}

/// With unique keys, the pair at any index gives the map's value there.
proof fn lemma_map_of_value<V>(s: Seq<(String, V)>, i: int)
    requires
        keys_unique(s),
        0 <= i < s.len(),
    ensures
        map_of(s).contains_key(s[i].0@),
        map_of(s)[s[i].0@] == s[i].1,
    decreases s.len(),
{
    if i == s.len() - 1 {
    } else {
        assert(keys_unique(s.drop_last()));
        assert(s.drop_last()[i] == s[i]);
        lemma_map_of_value(s.drop_last(), i);
        assert(s[i].0@ != s.last().0@);
    }
}

/// With unique keys, the map has exactly one entry per pair.
proof fn lemma_map_of_len<V>(s: Seq<(String, V)>)
    requires
        keys_unique(s),
    ensures
        map_of(s).dom().finite(),
        map_of(s).dom().len() == s.len(),
    decreases s.len(),
{
    if s.len() > 0 {
        assert(keys_unique(s.drop_last()));
        lemma_map_of_len(s.drop_last());
        lemma_map_of_contains(s.drop_last(), s.last().0@);
        assert(forall|i: int| 0 <= i < s.drop_last().len() ==> s.drop_last()[i] == s[i]);
        assert(!map_of(s.drop_last()).contains_key(s.last().0@));
    }
}

/// Uniqueness survives removing a pair.
proof fn lemma_keys_unique_remove<V>(s: Seq<(String, V)>, i: int)
    requires
        keys_unique(s),
        0 <= i < s.len(),
    ensures
        keys_unique(s.remove(i)),
{
    assert forall|p: int, q: int| 0 <= p < q < s.remove(i).len() implies s.remove(i)[p].0@ != s.remove(
        i,
    )[q].0@ by {
        let p1 = if p < i { p } else { p + 1 };
        let q1 = if q < i { q } else { q + 1 };
        assert(s.remove(i)[p] == s[p1]);
        assert(s.remove(i)[q] == s[q1]);
    }
}

/// Removing a pair removes its key from the map.
proof fn lemma_map_of_remove<V>(s: Seq<(String, V)>, i: int)
    requires
        keys_unique(s),
        0 <= i < s.len(),
    ensures
        map_of(s.remove(i)) == map_of(s).remove(s[i].0@),
    decreases s.len(),
{
    if i == s.len() - 1 {
        assert(s.remove(i) =~= s.drop_last());
        lemma_map_of_contains(s.drop_last(), s.last().0@);
        assert(forall|j: int| 0 <= j < s.drop_last().len() ==> s.drop_last()[j] == s[j]);
        assert(!map_of(s.drop_last()).contains_key(s.last().0@));
        assert(map_of(s.drop_last()) =~= map_of(s).remove(s[i].0@));
    } else {
        assert(keys_unique(s.drop_last()));
        assert(s.drop_last()[i] == s[i]);
        lemma_map_of_remove(s.drop_last(), i);
        assert(s.remove(i).drop_last() =~= s.drop_last().remove(i));
        assert(s.remove(i).last() == s.last());
        assert(s[i].0@ != s.last().0@);
        assert(map_of(s.remove(i)) == map_of(s.drop_last().remove(i)).insert(
            s.last().0@,
            s.last().1,
        ));
        assert(map_of(s.drop_last()).remove(s[i].0@).insert(s.last().0@, s.last().1) =~= map_of(
            s.drop_last(),
        ).insert(s.last().0@, s.last().1).remove(s[i].0@));
    }
}

/// A mapping from string keys to values.  The well-formedness invariant —
/// no key stored twice — is established by `new` and preserved by every
/// operation.
#[derive(Debug, PartialEq)]
pub struct Table<V> {
    pairs: Vec<(String, V)>,
}

impl<V> View for Table<V> {
    type V = Map<Seq<char>, V>;

    closed spec fn view(&self) -> Map<Seq<char>, V> {
        map_of(self.pairs@)
    }
}

impl<V> Table<V> {
    /// The stored keys, in insertion order.
    pub closed spec fn key_seq(self) -> Seq<Seq<char>> {
        Seq::new(
            self.pairs@.len(),
            |k: int|
                if 0 <= k < self.pairs@.len() {
                    self.pairs@[k].0@
                } else {
                    Seq::empty()
                },
        )
    }

    /// No key occurs twice.
    pub closed spec fn wf(self) -> bool {
        keys_unique(self.pairs@)
    }

    /// Every listed key is in the map, and every map key is listed.
    pub proof fn lemma_entries(self)
        requires
            self.wf(),
        ensures
            forall|i: int|
                0 <= i < self.key_seq().len() ==> self@.contains_key(#[trigger] self.key_seq()[i]),
            forall|k: Seq<char>|
                self@.contains_key(k) ==> exists|i: int|
                    0 <= i < self.key_seq().len() && self.key_seq()[i] == k,
    {
        assert forall|i: int| 0 <= i < self.key_seq().len() implies self@.contains_key(
            #[trigger] self.key_seq()[i],
        ) by {
            lemma_map_of_value(self.pairs@, i);
        }
        assert forall|k: Seq<char>| self@.contains_key(k) implies exists|i: int|
            0 <= i < self.key_seq().len() && self.key_seq()[i] == k by {
            lemma_map_of_contains(self.pairs@, k);
            let i = choose|i: int| 0 <= i < self.pairs@.len() && self.pairs@[i].0@ == k;
            assert(self.key_seq()[i] == k);
        }
    }

    /// An empty table.
    pub fn new() -> (r: Table<V>)
        ensures
            r@ == Map::<Seq<char>, V>::empty(),
            r.wf(),
            r.key_seq() == Seq::<Seq<char>>::empty(),
    {
        let r = Table { pairs: Vec::new() };
        proof {
            assert(r.key_seq() =~= Seq::<Seq<char>>::empty());
        }
        r
    }

    /// How many keys are stored.
    pub fn len(&self) -> (r: usize)
        ensures
            r == self.key_seq().len(),
            self.wf() ==> r == self@.dom().len(),
    {
        proof {
            if self.wf() {
                lemma_map_of_len(self.pairs@);
            }
        }
        self.pairs.len()
    }

    /// The index holding `key`, if one does.
    fn index_of(&self, key: &String) -> (r: Option<usize>)
        ensures
            match r {
                Some(i) => i < self.pairs@.len() && self.pairs@[i as int].0@ == key@,
                None => forall|j: int| 0 <= j < self.pairs@.len() ==> self.pairs@[j].0@ != key@,
            },
    {
        let mut i: usize = 0;
        while i < self.pairs.len()
            invariant
                i <= self.pairs@.len(),
                forall|j: int| 0 <= j < i ==> self.pairs@[j].0@ != key@,
            decreases self.pairs@.len() - i,
        {
            if self.pairs[i].0 == *key {
                return Some(i);
            }
            i = i + 1;
        }
        None
    }

    /// Looks a key up.
    pub fn get(&self, key: &String) -> (r: Option<&V>)
        requires
            self.wf(),
        ensures
            r is Some <==> self@.contains_key(key@),
            r matches Some(v) ==> self@.contains_key(key@) && *v == self@[key@],
    {
        proof {
            lemma_map_of_contains(self.pairs@, key@);
        }
        match self.index_of(key) {
            Some(i) => {
                proof {
                    lemma_map_of_value(self.pairs@, i as int);
                }
                Some(&self.pairs[i].1)
            },
            None => None,
        }
    }

    /// Binds `key` to `value`, replacing any earlier binding.
    pub fn insert(&mut self, key: String, value: V)
        requires
            old(self).wf(),
        ensures
            final(self).wf(),
            final(self)@ == old(self)@.insert(key@, value),
    {
        match self.index_of(&key) {
            Some(i) => {
                proof {
                    lemma_keys_unique_remove(self.pairs@, i as int);
                    lemma_map_of_remove(self.pairs@, i as int);
                }
                let ghost removed = self.pairs@.remove(i as int);
                self.pairs.remove(i);
                proof {
                    assert(forall|j: int|
                        0 <= j < removed.len() ==> removed[j].0@ != key@) by {
                        assert forall|j: int| 0 <= j < removed.len() implies removed[j].0@
                            != key@ by {
                            let j1 = if j < i as int {
                                j
                            } else {
                                j + 1
                            };
                            assert(removed[j] == old(self).pairs@[j1]);
                        }
                    }
                }
                let ghost before = self.pairs@;
                self.pairs.push((key, value));
                proof {
                    assert(self.pairs@.drop_last() =~= before);
                    assert(self@ =~= old(self)@.insert(key@, value));
                }
            },
            None => {
                let ghost before = self.pairs@;
                self.pairs.push((key, value));
                proof {
                    assert(self.pairs@.drop_last() =~= before);
                    lemma_map_of_contains(before, key@);
                    assert(self@ =~= old(self)@.insert(key@, value));
                }
            },
        }
    }

    /// Drops any binding for `key`.
    pub fn remove(&mut self, key: &String)
        requires
            old(self).wf(),
        ensures
            final(self).wf(),
            final(self)@ == old(self)@.remove(key@),
    {
        match self.index_of(key) {
            Some(i) => {
                proof {
                    lemma_keys_unique_remove(self.pairs@, i as int);
                    lemma_map_of_remove(self.pairs@, i as int);
                }
                self.pairs.remove(i);
            },
            None => {
                proof {
                    lemma_map_of_contains(self.pairs@, key@);
                    assert(self@ =~= old(self)@.remove(key@));
                }
            },
        }
    }

    /// The key and value stored at an index; with `len` this walks the
    /// table.
    pub fn entry_at(&self, i: usize) -> (r: (&String, &V))
        requires
            i < self.key_seq().len(),
        ensures
            r.0@ == self.key_seq()[i as int],
            self.wf() ==> self@.contains_key(r.0@) && *r.1 == self@[r.0@],
    {
        proof {
            if self.wf() {
                lemma_map_of_value(self.pairs@, i as int);
            }
        }
        let p = &self.pairs[i];
        (&p.0, &p.1)
    }
}

} // verus!
