//! The per-segment in-memory index: each key's byte string mapped to the
//! file offset of the key's latest record frame in that segment.

use vstd::prelude::*;

verus! {

/// Compares two byte strings.
pub fn bytes_eq(a: &Vec<u8>, b: &Vec<u8>) -> (r: bool)
    ensures
        r == (a@ == b@),
{
    if a.len() != b.len() {
        return false;
    }
    let n = a.len();
    let mut i: usize = 0;
    while i < n
        invariant
            i <= n,
            n == a@.len(),
            n == b@.len(),
            forall|j: int| 0 <= j < i ==> a@[j] == b@[j],
        decreases n - i,
    {
        if a[i] != b[i] {
            return false;
        }
        i = i + 1;
    }
    proof {
        assert(a@ =~= b@);
    }
    true
}

/// The map an entry list stands for: later entries win, though a
/// well-formed index never repeats a key.
pub open spec fn map_of_entries(es: Seq<(Vec<u8>, u64)>) -> Map<Seq<u8>, u64>
    decreases es.len(),
{
    if es.len() == 0 {
        Map::empty()
    } else {
        map_of_entries(es.drop_last()).insert(es.last().0@, es.last().1)
    }
}

pub open spec fn entries_distinct(es: Seq<(Vec<u8>, u64)>) -> bool {
    forall|i: int, j: int| #![trigger es[i], es[j]] 0 <= i < j < es.len() ==> es[i].0@ != es[j].0@
}

proof fn lemma_map_of_entries(es: Seq<(Vec<u8>, u64)>, k: Seq<u8>)
    ensures
        map_of_entries(es).contains_key(k) <==> exists|i: int|
            0 <= i < es.len() && #[trigger] es[i].0@ == k,
        forall|i: int|
            0 <= i < es.len() && #[trigger] es[i].0@ == k && entries_distinct(es)
                ==> map_of_entries(es)[k] == es[i].1,
    decreases es.len(),
{
    if es.len() > 0 {
        lemma_map_of_entries(es.drop_last(), k);
        assert(forall|i: int|
            0 <= i < es.len() - 1 ==> es.drop_last()[i].0@ == #[trigger] es[i].0@);
        if map_of_entries(es).contains_key(k) && es.last().0@ != k {
            let i = choose|i: int| 0 <= i < es.len() - 1 && #[trigger] es.drop_last()[i].0@ == k;
            assert(es[i].0@ == k);
        }
        assert forall|i: int|
            0 <= i < es.len() && #[trigger] es[i].0@ == k && entries_distinct(es) implies map_of_entries(
            es,
        )[k] == es[i].1 by {
            if i < es.len() - 1 {
                assert(es[i].0@ != es[es.len() - 1].0@);
                assert(entries_distinct(es.drop_last()));
            }
        }
    }
}

/// An index: an association list with no repeated keys, read as a map from
/// key bytes to offsets.
pub struct KeyIndex {
    entries: Vec<(Vec<u8>, u64)>,
}

impl View for KeyIndex {
    type V = Map<Seq<u8>, u64>;

    closed spec fn view(&self) -> Map<Seq<u8>, u64> {
        map_of_entries(self.entries@)
    }
}

impl KeyIndex {
    pub closed spec fn wf(&self) -> bool {
        entries_distinct(self.entries@)
    }

    /// The keys of the index, one per entry, in insertion order.
    pub closed spec fn spec_keys(&self) -> Seq<Seq<u8>> {
        Seq::new(self.entries@.len(), |i: int| self.entries@[i].0@)
    }

    pub proof fn lemma_keys(&self)
        requires
            self.wf(),
        ensures
            forall|i: int|
                0 <= i < self.spec_keys().len() ==> self@.contains_key(#[trigger] self.spec_keys()[i]),
            forall|k: Seq<u8>|
                self@.contains_key(k) ==> exists|i: int|
                    0 <= i < self.spec_keys().len() && #[trigger] self.spec_keys()[i] == k,
    {
        assert forall|i: int| 0 <= i < self.spec_keys().len() implies self@.contains_key(
            #[trigger] self.spec_keys()[i],
        ) by {
            lemma_map_of_entries(self.entries@, self.entries@[i].0@);
        }
        assert forall|k: Seq<u8>| self@.contains_key(k) implies exists|i: int|
            0 <= i < self.spec_keys().len() && #[trigger] self.spec_keys()[i] == k by {
            lemma_map_of_entries(self.entries@, k);
            let i = choose|i: int| 0 <= i < self.entries@.len() && #[trigger] self.entries@[i].0@
                == k;
            assert(self.spec_keys()[i] == k);
        }
    }

    pub fn new() -> (ix: KeyIndex)
        ensures
            ix.wf(),
            ix@ == Map::<Seq<u8>, u64>::empty(),
    {
        KeyIndex { entries: Vec::new() }
    }

    pub fn len(&self) -> (n: usize)
        ensures
            n == self.spec_keys().len(),
    {
        self.entries.len()
    }

    /// The key of the `i`-th entry.
    pub fn key_at(&self, i: usize) -> (k: &Vec<u8>)
        requires
            i < self.spec_keys().len(),
        ensures
            k@ == self.spec_keys()[i as int],
    {
        &self.entries[i].0
    }

    /// The offset stored for `key`, if any.
    pub fn get(&self, key: &Vec<u8>) -> (r: Option<u64>)
        requires
            self.wf(),
        ensures
            r == if self@.contains_key(key@) {
                Some(self@[key@])
            } else {
                None::<u64>
            },
    {
        let n = self.entries.len();
        let mut i: usize = 0;
        while i < n
            invariant
                i <= n,
                n == self.entries@.len(),
                self.wf(),
                forall|j: int| 0 <= j < i ==> self.entries@[j].0@ != key@,
            decreases n - i,
        {
            if bytes_eq(&self.entries[i].0, key) {
                proof {
                    lemma_map_of_entries(self.entries@, key@);
                }
                return Some(self.entries[i].1);
            }
            i = i + 1;
        }
        proof {
            lemma_map_of_entries(self.entries@, key@);
        }
        None
    }

    /// Points `key` at `offset`, replacing any earlier offset.
    pub fn insert(&mut self, key: Vec<u8>, offset: u64)
        requires
            old(self).wf(),
        ensures
            final(self).wf(),
            final(self)@ == old(self)@.insert(key@, offset),
    {
        let n = self.entries.len();
        let mut i: usize = 0;
        while i < n
            invariant
                i <= n,
                n == self.entries@.len(),
                self.wf(),
                self == old(self),
                forall|j: int| 0 <= j < i ==> self.entries@[j].0@ != key@,
            decreases n - i,
        {
            if bytes_eq(&self.entries[i].0, &key) {
                proof {
                    lemma_entries_update(self.entries@, i as int, key@, offset);
                }
                self.entries.set(i, (key, offset));
                return ;
            }
            i = i + 1;
        }
        self.entries.push((key, offset));
        proof {
            assert(self.entries@.drop_last() =~= old(self).entries@);
            assert forall|a: int, b: int| #![trigger self.entries@[a], self.entries@[b]] 0 <= a < b
                < self.entries@.len() implies self.entries@[a].0@ != self.entries@[b].0@ by {
                if b == self.entries@.len() - 1 {
                    assert(old(self).entries@[a].0@ != key@);
                }
            }
        }
    }
}

proof fn lemma_entries_update(es: Seq<(Vec<u8>, u64)>, i: int, k: Seq<u8>, offset: u64)
    requires
        entries_distinct(es),
        0 <= i < es.len(),
        es[i].0@ == k,
        forall|j: int| 0 <= j < i ==> es[j].0@ != k,
    ensures
        forall|key2: Vec<u8>|
            key2@ == k ==> entries_distinct(#[trigger] es.update(i, (key2, offset)))
                && map_of_entries(es.update(i, (key2, offset))) == map_of_entries(es).insert(
                k,
                offset,
            ),
    decreases es.len(),
{
    assert forall|key2: Vec<u8>| key2@ == k implies entries_distinct(
        #[trigger] es.update(i, (key2, offset)),
    ) && map_of_entries(es.update(i, (key2, offset))) == map_of_entries(es).insert(
        k,
        offset,
    ) by {
        let es2 = es.update(i, (key2, offset));
        assert(forall|a: int| 0 <= a < es.len() && a != i ==> #[trigger] es2[a].0@ == es[a].0@);
        assert(es2[i].0@ == k);
        if i == es.len() - 1 {
            assert(es2.drop_last() =~= es.drop_last());
            assert(map_of_entries(es2) == map_of_entries(es.drop_last()).insert(k, offset));
            assert(map_of_entries(es) == map_of_entries(es.drop_last()).insert(k, es.last().1));
            assert(map_of_entries(es.drop_last()).insert(k, offset) =~= map_of_entries(
                es.drop_last(),
            ).insert(k, es.last().1).insert(k, offset));
        } else {
            assert(es2.drop_last() =~= es.drop_last().update(i, (key2, offset)));
            assert(entries_distinct(es.drop_last()));
            lemma_entries_update(es.drop_last(), i, k, offset);
            assert(map_of_entries(es2.drop_last()) == map_of_entries(es.drop_last()).insert(
                k,
                offset,
            ));
            assert(es.last().0@ != k);
            assert(es2.last() == es.last());
            assert(map_of_entries(es.drop_last()).insert(k, offset).insert(
                es.last().0@,
                es.last().1,
            ) =~= map_of_entries(es.drop_last()).insert(es.last().0@, es.last().1).insert(
                k,
                offset,
            ));
        }
    }
}

} // verus!
