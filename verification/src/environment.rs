//! The environment of one request: a mapping from field names to values.
//!
//! The environment keeps its entries in the order in which their keys were
//! first inserted, and no key occurs twice. Its view is the mapping; its
//! listing is the sequence of entries, which fixes the order of the rendered
//! response body.

use vstd::prelude::*;
use crate::ascii::bytes_equal;

verus! {

/// Some entry of `l` has the key `k`.
pub open spec fn has_key(l: Seq<(Seq<u8>, Seq<u8>)>, k: Seq<u8>) -> bool {
    exists|i: int| 0 <= i < l.len() && (#[trigger] l[i]).0 == k
}

/// The position of an entry of `l` with the key `k`.
pub open spec fn index_of(l: Seq<(Seq<u8>, Seq<u8>)>, k: Seq<u8>) -> int {
    choose|i: int| 0 <= i < l.len() && (#[trigger] l[i]).0 == k
}

/// No two entries of `l` have the same key.
pub open spec fn distinct_keys(l: Seq<(Seq<u8>, Seq<u8>)>) -> bool {
    forall|i: int, j: int| 0 <= i < j < l.len() ==> (#[trigger] l[i]).0 != (#[trigger] l[j]).0
}

/// The listing after `k` has been given the value `v`: the entry with that
/// key is overwritten where it stands, or a new entry is added at the end.
pub open spec fn put(l: Seq<(Seq<u8>, Seq<u8>)>, k: Seq<u8>, v: Seq<u8>) -> Seq<
    (Seq<u8>, Seq<u8>),
> {
    if has_key(l, k) {
        l.update(index_of(l, k), (k, v))
    } else {
        l.push((k, v))
    }
}

/// The mapping that a listing stands for.
pub open spec fn as_map(l: Seq<(Seq<u8>, Seq<u8>)>) -> Map<Seq<u8>, Seq<u8>> {
    Map::new(|k: Seq<u8>| has_key(l, k), |k: Seq<u8>| l[index_of(l, k)].1)
}

/// In a listing with distinct keys, a key is found at one position only.
pub proof fn lemma_index_of(l: Seq<(Seq<u8>, Seq<u8>)>, i: int)
    requires
        distinct_keys(l),
        0 <= i < l.len(),
    ensures
        has_key(l, l[i].0),
        index_of(l, l[i].0) == i,
        as_map(l)[l[i].0] == l[i].1,
{
    let j = index_of(l, l[i].0);
    assert(0 <= j < l.len() && l[j].0 == l[i].0);
}

/// `put` keeps the keys distinct, and on the mapping it is an insertion: the
/// value of `k` becomes `v`, whether or not `k` had a value, and no other
/// key changes. The listing grows by one entry exactly if `k` is new.
pub proof fn lemma_put(l: Seq<(Seq<u8>, Seq<u8>)>, k: Seq<u8>, v: Seq<u8>)
    requires
        distinct_keys(l),
    ensures
        distinct_keys(put(l, k, v)),
        as_map(put(l, k, v)) == as_map(l).insert(k, v),
        put(l, k, v).len() == if has_key(l, k) {
            l.len()
        } else {
            l.len() + 1
        },
{
    let l2 = put(l, k, v);
    if has_key(l, k) {
        let i = index_of(l, k);
        assert forall|j: int| 0 <= j < l.len() implies (#[trigger] l2[j]).0 == l[j].0 by {}
        assert(distinct_keys(l2)) by {
            assert forall|x: int, y: int| 0 <= x < y < l2.len() implies (#[trigger] l2[x]).0 != (
            #[trigger] l2[y]).0 by {
                assert(l[x].0 != l[y].0);
            }
        }
        assert forall|k2: Seq<u8>| has_key(l2, k2) == has_key(l, k2) by {
            if has_key(l, k2) {
                let j = index_of(l, k2);
                assert(l2[j].0 == k2);
            }
            if has_key(l2, k2) {
                let j = index_of(l2, k2);
                assert(l[j].0 == k2);
            }
        }
        assert forall|k2: Seq<u8>| has_key(l2, k2) implies #[trigger] as_map(l2)[k2] == as_map(
            l,
        ).insert(k, v)[k2] by {
            let j = index_of(l2, k2);
            lemma_index_of(l2, j);
            lemma_index_of(l, j);
            if k2 == k {
                lemma_index_of(l, i);
            }
        }
    } else {
        assert forall|j: int| 0 <= j < l.len() implies (#[trigger] l2[j]) == l[j] by {}
        assert(l2[l.len() as int].0 == k);
        assert(distinct_keys(l2)) by {
            assert forall|x: int, y: int| 0 <= x < y < l2.len() implies (#[trigger] l2[x]).0 != (
            #[trigger] l2[y]).0 by {
                if y < l.len() {
                    assert(l[x].0 != l[y].0);
                } else {
                    assert(l[x].0 != k);
                }
            }
        }
        assert forall|k2: Seq<u8>| has_key(l2, k2) == (has_key(l, k2) || k2 == k) by {
            if has_key(l, k2) {
                let j = index_of(l, k2);
                assert(l2[j].0 == k2);
            }
            if has_key(l2, k2) {
                let j = index_of(l2, k2);
                if j < l.len() {
                    assert(l[j].0 == k2);
                }
            }
        }
        assert forall|k2: Seq<u8>| has_key(l2, k2) implies #[trigger] as_map(l2)[k2] == as_map(
            l,
        ).insert(k, v)[k2] by {
            let j = index_of(l2, k2);
            lemma_index_of(l2, j);
            if j < l.len() {
                lemma_index_of(l, j);
            }
        }
    }
    assert(as_map(l2) =~= as_map(l).insert(k, v));
}

/// A value given to a key replaces the value given to it before: only the
/// later of two insertions under one key shows in the mapping.
pub proof fn lemma_put_overwrites(l: Seq<(Seq<u8>, Seq<u8>)>, k: Seq<u8>, v: Seq<u8>, w: Seq<u8>)
    requires
        distinct_keys(l),
    ensures
        as_map(put(put(l, k, v), k, w)) == as_map(put(l, k, w)),
        put(put(l, k, v), k, w).len() == put(l, k, v).len(),
{
    lemma_put(l, k, v);
    lemma_put(put(l, k, v), k, w);
    lemma_put(l, k, w);
    assert(as_map(l).insert(k, v).insert(k, w) =~= as_map(l).insert(k, w));
    assert(as_map(put(l, k, v)).dom().contains(k));
}

/// One field of the environment.
#[derive(Debug)]
pub struct Entry {
    pub key: Vec<u8>,
    pub value: Vec<u8>,
}

impl View for Entry {
    type V = (Seq<u8>, Seq<u8>);

    open spec fn view(&self) -> (Seq<u8>, Seq<u8>) {
        (self.key@, self.value@)
    }
}

/// The fields derived from one request, each key with one value.
#[derive(Debug)]
pub struct Environment {
    entries: Vec<Entry>,
}

impl View for Environment {
    type V = Map<Seq<u8>, Seq<u8>>;

    open spec fn view(&self) -> Map<Seq<u8>, Seq<u8>> {
        as_map(self.listing())
    }
}

impl Environment {
    /// The entries in the order in which their keys were first inserted.
    pub closed spec fn listing(&self) -> Seq<(Seq<u8>, Seq<u8>)> {
        self.entries@.map_values(|e: Entry| e@)
    }

    /// No key occurs twice. This holds of every environment.
    pub open spec fn wf(&self) -> bool {
        distinct_keys(self.listing())
    }

    /// The invariant of the type.
    #[verifier::type_invariant]
    pub(crate) open spec fn keys_are_distinct(&self) -> bool {
        self.wf()
    }

    /// The empty environment.
    pub fn new() -> (env: Environment)
        ensures
            env.wf(),
            env.listing() == Seq::<(Seq<u8>, Seq<u8>)>::empty(),
            env@ == Map::<Seq<u8>, Seq<u8>>::empty(),
    {
        let env = Environment { entries: Vec::new() };
        assert(env.listing() =~= Seq::<(Seq<u8>, Seq<u8>)>::empty());
        assert(env@ =~= Map::<Seq<u8>, Seq<u8>>::empty());
        env
    }

    /// The number of entries.
    pub fn len(&self) -> (n: usize)
        ensures
            n == self.listing().len(),
    {
        self.entries.len()
    }

    /// Whether there is no entry.
    pub fn is_empty(&self) -> (r: bool)
        ensures
            r == (self.listing().len() == 0),
    {
        self.entries.len() == 0
    }

    /// The position of the entry with the given key.
    fn position(&self, key: &[u8]) -> (r: Option<usize>)
        ensures
            match r {
                Some(i) => i < self.listing().len() && self.listing()[i as int].0 == key@,
                None => !has_key(self.listing(), key@),
            },
    {
        let mut i: usize = 0;
        while i < self.entries.len()
            invariant
                i <= self.entries@.len(),
                forall|j: int| 0 <= j < i ==> (#[trigger] self.listing()[j]).0 != key@,
            decreases self.entries@.len() - i,
        {
            if bytes_equal(self.entries[i].key.as_slice(), key) {
                return Some(i);
            }
            i += 1;
        }
        None
    }

    /// Whether `key` has a value.
    pub fn contains_key(&self, key: &[u8]) -> (r: bool)
        ensures
            r == self@.contains_key(key@),
    {
        self.position(key).is_some()
    }

    /// The value of `key`, if it has one.
    pub fn get(&self, key: &[u8]) -> (r: Option<&Vec<u8>>)
        ensures
            match r {
                Some(value) => self@.contains_key(key@) && value@ == self@[key@],
                None => !self@.contains_key(key@),
            },
    {
        match self.position(key) {
            Some(i) => {
                proof {
                    use_type_invariant(self);
                    lemma_index_of(self.listing(), i as int);
                }
                Some(&self.entries[i].value)
            },
            None => None,
        }
    }

    /// The key of the entry at position `i` of the listing.
    pub fn key_at(&self, i: usize) -> (key: &Vec<u8>)
        requires
            i < self.listing().len(),
        ensures
            key@ == self.listing()[i as int].0,
    {
        &self.entries[i].key
    }

    /// The value of the entry at position `i` of the listing.
    pub fn value_at(&self, i: usize) -> (value: &Vec<u8>)
        requires
            i < self.listing().len(),
        ensures
            value@ == self.listing()[i as int].1,
    {
        &self.entries[i].value
    }

    /// Gives `key` the value `value`. A value that the key had before is
    /// overwritten; every other entry stays as it is.
    pub fn insert(&mut self, key: Vec<u8>, value: Vec<u8>)
        ensures
            final(self).wf(),
            final(self).listing() == put(old(self).listing(), key@, value@),
            final(self)@ == old(self)@.insert(key@, value@),
    {
        proof {
            use_type_invariant(&*self);
            lemma_put(self.listing(), key@, value@);
        }
        let found = self.position(key.as_slice());
        let mut entries: Vec<Entry> = Vec::new();
        std::mem::swap(&mut entries, &mut self.entries);
        assert(self.listing() =~= Seq::<(Seq<u8>, Seq<u8>)>::empty());
        match found {
            Some(i) => {
                proof {
                    lemma_index_of(old(self).listing(), i as int);
                }
                entries.set(i, Entry { key, value });
            },
            None => {
                entries.push(Entry { key, value });
            },
        }
        assert(entries@.map_values(|e: Entry| e@) =~= put(old(self).listing(), key@, value@));
        self.entries = entries;
    }
}

} // verus!
