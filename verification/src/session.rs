//! The library's model of a session: a key-value map of serialized slots.
//!
//! The session transport itself (cookies, a remote store) lives outside
//! this library. The enclosing application fills a [`SessionMap`] from its
//! transport before a request is handled and flushes the map back
//! afterwards; the library only reads and writes slots by key.

use vstd::prelude::*;

verus! {

/// A session's key-value map: string keys, each holding one serialized
/// slot value. Viewed as a mathematical map from key characters to slot
/// characters.
pub struct SessionMap {
    entries: Vec<(String, Vec<char>)>,
}

/// The map an entry list denotes: among repeated keys the later entry wins.
spec fn map_of(es: Seq<(String, Vec<char>)>) -> Map<Seq<char>, Seq<char>>
    decreases es.len(),
{
    if es.len() == 0 {
        Map::empty()
    } else {
        map_of(es.drop_last()).insert(es.last().0@, es.last().1@)
    }
}

impl View for SessionMap {
    type V = Map<Seq<char>, Seq<char>>;

    closed spec fn view(&self) -> Map<Seq<char>, Seq<char>> {
        map_of(self.entries@)
    }
}

/// A key is in the denoted map exactly when some entry carries it.
proof fn lemma_map_of_contains(es: Seq<(String, Vec<char>)>, k: Seq<char>)
    ensures
        map_of(es).contains_key(k) <==> exists|p: int| 0 <= p < es.len() && es[p].0@ == k,
    decreases es.len(),
{
    if es.len() > 0 {
        lemma_map_of_contains(es.drop_last(), k);
        if map_of(es).contains_key(k) && es.last().0@ != k {
            let p = choose|p: int| 0 <= p < es.drop_last().len() && es.drop_last()[p].0@ == k;
            assert(es[p].0@ == k);
        }
        if exists|p: int| 0 <= p < es.len() && es[p].0@ == k {
            let p = choose|p: int| 0 <= p < es.len() && es[p].0@ == k;
            if p < es.len() - 1 {
                assert(es.drop_last()[p].0@ == k);
            }
        }
    }
}

/// An entry whose key no later entry repeats supplies that key's value.
proof fn lemma_map_of_index(es: Seq<(String, Vec<char>)>, p: int)
    requires
        0 <= p < es.len(),
        forall|q: int| p < q < es.len() ==> es[q].0@ != es[p].0@,
    ensures
        map_of(es).contains_key(es[p].0@),
        map_of(es)[es[p].0@] == es[p].1@,
    decreases es.len(),
{
    if p < es.len() - 1 {
        assert(forall|q: int|
            p < q < es.drop_last().len() ==> es.drop_last()[q].0@ != es.drop_last()[p].0@);
        lemma_map_of_index(es.drop_last(), p);
    }
}

/// Removing the one entry that carries a key removes that key from the
/// denoted map.
proof fn lemma_map_of_remove(es: Seq<(String, Vec<char>)>, p: int)
    requires
        0 <= p < es.len(),
        forall|q: int| 0 <= q < es.len() && q != p ==> es[q].0@ != es[p].0@,
    ensures
        map_of(es.remove(p)) =~= map_of(es).remove(es[p].0@),
    decreases es.len(),
{
    let k = es[p].0@;
    if p == es.len() - 1 {
        assert(es.remove(p) =~= es.drop_last());
        lemma_map_of_contains(es.drop_last(), k);
        assert(forall|q: int| 0 <= q < es.drop_last().len() ==> es.drop_last()[q].0@ != k);
        assert(map_of(es.drop_last()) =~= map_of(es.drop_last()).remove(k));
        assert(map_of(es).remove(k) =~= map_of(es.drop_last()).insert(k, es.last().1@).remove(k));
    } else {
        assert(es.remove(p).last() == es.last());
        assert(es.remove(p).drop_last() =~= es.drop_last().remove(p));
        assert(forall|q: int|
            0 <= q < es.drop_last().len() && q != p ==> es.drop_last()[q].0@ != es.drop_last()[p].0@);
        lemma_map_of_remove(es.drop_last(), p);
        assert(es.last().0@ != k);
        assert(map_of(es.remove(p)) =~= map_of(es.drop_last()).remove(k).insert(
            es.last().0@,
            es.last().1@,
        ));
        assert(map_of(es.drop_last()).remove(k).insert(es.last().0@, es.last().1@) =~= map_of(
            es.drop_last(),
        ).insert(es.last().0@, es.last().1@).remove(k));
    }
}

impl SessionMap {
    /// Each key appears in at most one entry.
    pub closed spec fn wf(self) -> bool {
        forall|p: int, q: int|
            0 <= p < q < self.entries@.len() ==> self.entries@[p].0@ != self.entries@[q].0@
    }

    /// Builds an empty session map.
    pub fn new() -> (r: SessionMap)
        ensures
            r.wf(),
            r@ == Map::<Seq<char>, Seq<char>>::empty(),
    {
        SessionMap { entries: Vec::new() }
    }

    /// The position of the entry carrying `key`, if any.
    fn find_index(&self, key: &String) -> (r: Option<usize>)
        ensures
            match r {
                Some(p) => p < self.entries@.len() && self.entries@[p as int].0@ == key@,
                None => forall|q: int| 0 <= q < self.entries@.len() ==> self.entries@[q].0@ != key@,
            },
    {
        let mut p: usize = 0;
        while p < self.entries.len()
            invariant
                p <= self.entries@.len(),
                forall|q: int| 0 <= q < p ==> self.entries@[q].0@ != key@,
            decreases self.entries@.len() - p,
        {
            if self.entries[p].0 == *key {
                return Some(p);
            }
            p += 1;
        }
        None
    }

    /// Whether a slot is stored under `key`.
    pub fn contains_key(&self, key: &String) -> (b: bool)
        requires
            self.wf(),
        ensures
            b == self@.contains_key(key@),
    {
        let r = self.find_index(key);
        proof {
            lemma_map_of_contains(self.entries@, key@);
        }
        match r {
            Some(_) => true,
            None => false,
        }
    }

    /// The slot stored under `key`, if one is present.
    pub fn get(&self, key: &String) -> (r: Option<&Vec<char>>)
        requires
            self.wf(),
        ensures
            match r {
                Some(v) => self@.contains_key(key@) && v@ == self@[key@],
                None => !self@.contains_key(key@),
            },
    {
        match self.find_index(key) {
            Some(p) => {
                proof {
                    lemma_map_of_index(self.entries@, p as int);
                }
                Some(&self.entries[p].1)
            },
            None => {
                proof {
                    lemma_map_of_contains(self.entries@, key@);
                }
                None
            },
        }
    }

    /// Stores `value` under `key`, replacing any previous slot there.
    pub fn insert(&mut self, key: String, value: Vec<char>)
        requires
            old(self).wf(),
        ensures
            final(self).wf(),
            final(self)@ == old(self)@.insert(key@, value@),
    {
        self.remove_entry(&key);
        let ghost es = self.entries@;
        self.entries.push((key, value));
        proof {
            assert(self.entries@.drop_last() =~= es);
            assert(map_of(self.entries@) =~= map_of(es).insert(
                self.entries@.last().0@,
                self.entries@.last().1@,
            ));
            assert(old(self)@.remove(self.entries@.last().0@).insert(
                self.entries@.last().0@,
                value@,
            ) =~= old(self)@.insert(self.entries@.last().0@, value@));
            assert forall|a: int, b: int|
                0 <= a < b < self.entries@.len() implies self.entries@[a].0@
                != self.entries@[b].0@ by {
                if b < self.entries@.len() - 1 {
                    assert(self.entries@[a] == es[a] && self.entries@[b] == es[b]);
                } else {
                    assert(self.entries@[a] == es[a]);
                }
            };
        }
    }

    /// Removes the slot under `key`; a map without that slot is unchanged.
    pub fn remove(&mut self, key: &String)
        requires
            old(self).wf(),
        ensures
            final(self).wf(),
            final(self)@ == old(self)@.remove(key@),
    {
        self.remove_entry(key);
    }

    /// Drops the entry carrying `key`, if one is present.
    fn remove_entry(&mut self, key: &String)
        requires
            old(self).wf(),
        ensures
            final(self).wf(),
            final(self)@ == old(self)@.remove(key@),
            forall|q: int| 0 <= q < final(self).entries@.len() ==> final(self).entries@[q].0@ != key@,
    {
        let found = self.find_index(key);
        match found {
            Some(p) => {
                let ghost es = self.entries@;
                self.entries.remove(p);
                proof {
                    assert(forall|q: int|
                        0 <= q < es.len() && q != p as int ==> es[q].0@ != es[p as int].0@);
                    lemma_map_of_remove(es, p as int);
                    assert(self.entries@ =~= es.remove(p as int));
                    assert forall|a: int, b: int|
                        0 <= a < b < self.entries@.len() implies self.entries@[a].0@
                        != self.entries@[b].0@ by {
                        assert(self.entries@[a] == if a < p {
                            es[a]
                        } else {
                            es[a + 1]
                        });
                        assert(self.entries@[b] == if b < p {
                            es[b]
                        } else {
                            es[b + 1]
                        });
                    };
                    assert forall|q: int|
                        0 <= q < self.entries@.len() implies self.entries@[q].0@ != key@ by {
                        assert(self.entries@[q] == if q < p {
                            es[q]
                        } else {
                            es[q + 1]
                        });
                    };
                    lemma_map_of_contains(self.entries@, key@);
                }
            },
            None => {
                proof {
                    lemma_map_of_contains(self.entries@, key@);
                    assert(map_of(self.entries@) =~= map_of(self.entries@).remove(key@));
                }
            },
        }
    }
}

} // verus!
