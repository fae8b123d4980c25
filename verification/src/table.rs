//! A map from text keys to values, kept as a list of entries whose keys
//! are all different.
use vstd::prelude::*;
use crate::text::str_eq;

verus! {

/// The map that a list of entries stands for, later entries overriding
/// earlier ones.
pub open spec fn map_of<V: View>(entries: Seq<(String, V)>) -> Map<Seq<char>, V::V>
    decreases entries.len(),
{
    if entries.len() == 0 {
        Map::empty()
    } else {
        map_of(entries.drop_last()).insert(entries.last().0@, entries.last().1@)
    }
}

/// No key occurs twice among the entries.
pub open spec fn keys_distinct<V>(entries: Seq<(String, V)>) -> bool {
    forall|i: int, j: int|
        0 <= i < entries.len() && 0 <= j < entries.len() && i != j ==> (#[trigger] entries[i]).0@
            != (#[trigger] entries[j]).0@
}

/// With distinct keys, the map holds exactly the entries' keys, each with
/// its entry's value.
pub proof fn lemma_map_of<V: View>(entries: Seq<(String, V)>)
    requires
        keys_distinct(entries),
    ensures
        forall|k: Seq<char>|
            #[trigger] map_of(entries).contains_key(k) <==> exists|i: int|
                0 <= i < entries.len() && (#[trigger] entries[i]).0@ == k,
        forall|i: int|
            0 <= i < entries.len() ==> map_of(entries)[(#[trigger] entries[i]).0@]
                == entries[i].1@,
    decreases entries.len(),
{
    if entries.len() > 0 {
        let init = entries.drop_last();
        assert(keys_distinct(init)) by {
            assert forall|i: int, j: int|
                0 <= i < init.len() && 0 <= j < init.len() && i != j implies (#[trigger] init[i]).0@
                != (#[trigger] init[j]).0@ by {
                assert(init[i] == entries[i]);
                assert(init[j] == entries[j]);
            }
        }
        lemma_map_of(init);
        let n = entries.len() - 1;
        assert forall|k: Seq<char>|
            #[trigger] map_of(entries).contains_key(k) <==> exists|i: int|
                0 <= i < entries.len() && (#[trigger] entries[i]).0@ == k by {
            if map_of(entries).contains_key(k) {
                if k == entries[n].0@ {
                } else {
                    assert(map_of(init).contains_key(k));
                    let i = choose|i: int| 0 <= i < init.len() && (#[trigger] init[i]).0@ == k;
                    assert(entries[i] == init[i]);
                }
            }
            if exists|i: int| 0 <= i < entries.len() && (#[trigger] entries[i]).0@ == k {
                let i = choose|i: int| 0 <= i < entries.len() && (#[trigger] entries[i]).0@ == k;
                if i < n {
                    assert(init[i] == entries[i]);
                }
            }
        }
        assert forall|i: int| 0 <= i < entries.len() implies map_of(entries)[(
        #[trigger] entries[i]).0@] == entries[i].1@ by {
            if i < n {
                assert(init[i] == entries[i]);
                assert(entries[i].0@ != entries[n].0@);
            }
        }
    }
}

/// A map from text keys to values, with the lookups and the insertion of
/// `HashMap`.
pub struct Table<V: View> {
    entries: Vec<(String, V)>,
}

impl<V: View> View for Table<V> {
    type V = Map<Seq<char>, V::V>;

    closed spec fn view(&self) -> Map<Seq<char>, V::V> {
        map_of(self.entries@)
    }
}

impl<V: View> Table<V> {
    #[verifier::type_invariant]
    closed spec fn wf(self) -> bool {
        keys_distinct(self.entries@)
    }

    /// An empty table.
    pub fn new() -> (t: Self)
        ensures
            t@ == Map::<Seq<char>, V::V>::empty(),
    {
        Table { entries: Vec::new() }
    }

    /// The position of `key` among the entries.
    fn position(&self, key: &str) -> (r: Option<usize>)
        ensures
            match r {
                Some(i) => i < self.entries@.len() && self.entries@[i as int].0@ == key@,
                None => forall|i: int|
                    0 <= i < self.entries@.len() ==> (#[trigger] self.entries@[i]).0@ != key@,
            },
    {
        let mut i: usize = 0;
        while i < self.entries.len()
            invariant
                i <= self.entries@.len(),
                forall|j: int| 0 <= j < i ==> (#[trigger] self.entries@[j]).0@ != key@,
            decreases self.entries@.len() - i,
        {
            if str_eq(self.entries[i].0.as_str(), key) {
                return Some(i);
            }
            i = i + 1;
        }
        None
    }

    /// The value stored under `key`, if any.
    pub fn get(&self, key: &str) -> (r: Option<&V>)
        ensures
            match r {
                Some(v) => self@.contains_key(key@) && v@ == self@[key@],
                None => !self@.contains_key(key@),
            },
    {
        proof {
            use_type_invariant(self);
            lemma_map_of(self.entries@);
        }
        match self.position(key) {
            Some(i) => Some(&self.entries[i].1),
            None => None,
        }
    }

    /// Whether a value is stored under `key`.
    pub fn contains_key(&self, key: &str) -> (r: bool)
        ensures
            r == self@.contains_key(key@),
    {
        proof {
            use_type_invariant(self);
            lemma_map_of(self.entries@);
        }
        self.position(key).is_some()
    }

    /// Stores `value` under `key`, replacing what was stored there.
    pub fn insert(&mut self, key: String, value: V)
        ensures
            final(self)@ == old(self)@.insert(key@, value@),
    {
        proof {
            use_type_invariant(&*self);
            lemma_map_of(self.entries@);
        }
        let ghost before = self.entries@;
        match self.position(key.as_str()) {
            Some(i) => {
                let mut entries: Vec<(String, V)> = Vec::new();
                std::mem::swap(&mut entries, &mut self.entries);
                assert(entries@ == before);
                entries.set(i, (key, value));
                let ghost after = entries@;
                assert(keys_distinct(after)) by {
                    assert forall|a: int, b: int|
                        0 <= a < after.len() && 0 <= b < after.len() && a != b implies (
                        #[trigger] after[a]).0@ != (#[trigger] after[b]).0@ by {
                        if a != i && b != i {
                            assert(after[a] == before[a]);
                            assert(after[b] == before[b]);
                        } else if a == i {
                            assert(after[b] == before[b]);
                            assert(before[a] == before[i as int]);
                        } else {
                            assert(after[a] == before[a]);
                        }
                    }
                }
                proof {
                    lemma_map_of(after);
                    assert(map_of(after) =~= map_of(before).insert(key@, value@)) by {
                        assert forall|k: Seq<char>| #[trigger]
                            map_of(after).contains_key(k) == map_of(before).insert(
                                key@,
                                value@,
                            ).contains_key(k) by {
                            if k == key@ {
                                assert(after[i as int].0@ == key@);
                            }
                            if map_of(after).contains_key(k) && k != key@ {
                                let j = choose|j: int|
                                    0 <= j < after.len() && (#[trigger] after[j]).0@ == k;
                                assert(after[j] == before[j]);
                            }
                            if map_of(before).contains_key(k) && k != key@ {
                                let j = choose|j: int|
                                    0 <= j < before.len() && (#[trigger] before[j]).0@ == k;
                                assert(after[j] == before[j]);
                            }
                        }
                        assert forall|k: Seq<char>| #[trigger]
                            map_of(after).contains_key(k) implies map_of(after)[k] == map_of(
                            before,
                        ).insert(key@, value@)[k] by {
                            let j = choose|j: int|
                                0 <= j < after.len() && (#[trigger] after[j]).0@ == k;
                            if j != i {
                                assert(after[j] == before[j]);
                            }
                        }
                    }
                }
                self.entries = entries;
            },
            None => {
                let mut entries: Vec<(String, V)> = Vec::new();
                std::mem::swap(&mut entries, &mut self.entries);
                assert(entries@ == before);
                entries.push((key, value));
                let ghost after = entries@;
                assert(after.drop_last() =~= before);
                assert(keys_distinct(after)) by {
                    assert forall|a: int, b: int|
                        0 <= a < after.len() && 0 <= b < after.len() && a != b implies (
                        #[trigger] after[a]).0@ != (#[trigger] after[b]).0@ by {
                        if a < before.len() {
                            assert(after[a] == before[a]);
                        }
                        if b < before.len() {
                            assert(after[b] == before[b]);
                        }
                    }
                }
                self.entries = entries;
            },
        }
    }

    /// The entries, each key once, in no promised order.
    pub fn entries(&self) -> (r: &Vec<(String, V)>)
        ensures
            keys_distinct(r@),
            map_of(r@) == self@,
    {
        proof {
            use_type_invariant(self);
        }
        &self.entries
    }
}

} // verus!
