//! A map from file paths to file contents that keeps its entries in the
//! order in which their paths were first inserted. The contents are text or
//! bytes: any type with a view.
//!
//! The entries are kept as a list, not in a hash map: the order of the
//! entries decides the order of the pages and of the menu, and vstd grants
//! its model of hash-map keys to integers and booleans, not to strings.

use vstd::prelude::*;

verus! {

/// The entries `(path, contents)` of a list of pairs, the path taken as its
/// characters and the contents by their view.
pub open spec fn pairs_view<V: View>(entries: Seq<(String, V)>) -> Seq<(Seq<char>, V::V)> {
    Seq::new(entries.len(), |i: int| (entries[i].0@, entries[i].1@))
}

/// No path stands in `entries` twice.
pub open spec fn distinct_keys<T>(entries: Seq<(Seq<char>, T)>) -> bool {
    forall|i: int, j: int|
        0 <= i < j < entries.len() ==> (#[trigger] entries[i]).0 != (#[trigger] entries[j]).0
}

/// The index of the entry of `entries` with path `key`, if there is one:
/// the first, where there are several.
pub open spec fn key_index<T>(entries: Seq<(Seq<char>, T)>, key: Seq<char>) -> Option<int>
    decreases entries.len(),
{
    if entries.len() == 0 {
        None
    } else {
        match key_index(entries.drop_last(), key) {
            Some(i) => Some(i),
            None => if entries.last().0 == key {
                Some(entries.len() - 1)
            } else {
                None
            },
        }
    }
}

/// The contents that `entries` holds for path `key`, if any.
pub open spec fn lookup<T>(entries: Seq<(Seq<char>, T)>, key: Seq<char>) -> Option<T> {
    match key_index(entries, key) {
        Some(i) => Some(entries[i].1),
        None => None,
    }
}

/// The paths of `entries`, in order.
pub open spec fn keys_of<T>(entries: Seq<(Seq<char>, T)>) -> Seq<Seq<char>> {
    Seq::new(entries.len(), |i: int| entries[i].0)
}

/// `key_index` gives the least index that holds `key`, and `None` exactly
/// where no index does.
pub proof fn lemma_key_index<T>(entries: Seq<(Seq<char>, T)>, key: Seq<char>)
    ensures
        match key_index(entries, key) {
            Some(i) => 0 <= i < entries.len() && entries[i].0 == key && forall|j: int|
                0 <= j < i ==> (#[trigger] entries[j]).0 != key,
            None => forall|j: int| 0 <= j < entries.len() ==> (#[trigger] entries[j]).0 != key,
        },
    decreases entries.len(),
{
    if entries.len() > 0 {
        lemma_key_index(entries.drop_last(), key);
        assert(forall|j: int|
            0 <= j < entries.len() - 1 ==> entries.drop_last()[j] == #[trigger] entries[j]);
    }
}

/// The map: its entries `(path, contents)`, in order.
pub struct FileMap<V> {
    entries: Vec<(String, V)>,
}

impl<V: View> View for FileMap<V> {
    type V = Seq<(Seq<char>, V::V)>;

    closed spec fn view(&self) -> Seq<(Seq<char>, V::V)> {
        pairs_view(self.entries@)
    }
}

impl<V: View> FileMap<V> {
    /// No path stands in the map twice.
    pub open spec fn wf(&self) -> bool {
        distinct_keys(self@)
    }

    /// An empty map.
    pub fn new() -> (map: FileMap<V>)
        ensures
            map.wf(),
            map@ == Seq::<(Seq<char>, V::V)>::empty(),
    {
        let map = FileMap { entries: Vec::new() };
        assert(map@ =~= Seq::<(Seq<char>, V::V)>::empty());
        map
    }

    /// The number of entries.
    pub fn len(&self) -> (n: usize)
        ensures
            n == self@.len(),
    {
        self.entries.len()
    }

    /// The path of the entry at index `i`.
    pub fn key_at(&self, i: usize) -> (key: &String)
        requires
            i < self@.len(),
        ensures
            key@ == self@[i as int].0,
    {
        &self.entries[i].0
    }

    /// The contents of the entry at index `i`.
    pub fn value_at(&self, i: usize) -> (value: &V)
        requires
            i < self@.len(),
        ensures
            value@ == self@[i as int].1,
    {
        &self.entries[i].1
    }

    /// The index of the entry with path `key`, if there is one.
    pub fn index_of(&self, key: &str) -> (res: Option<usize>)
        ensures
            match res {
                Some(i) => key_index(self@, key@) == Some(i as int) && i < self@.len(),
                None => key_index(self@, key@) is None,
            },
    {
        let wanted = key.to_owned();
        let mut i: usize = 0;
        while i < self.entries.len()
            invariant
                i <= self.entries.len(),
                wanted@ == key@,
                key_index(self@.take(i as int), key@) is None,
            decreases self.entries.len() - i,
        {
            proof {
                assert(self@.take(i + 1).drop_last() =~= self@.take(i as int));
            }
            if self.entries[i].0 == wanted {
                proof {
                    lemma_key_index_prefix(self@, key@, i + 1);
                }
                return Some(i);
            }
            i = i + 1;
        }
        proof {
            assert(self@.take(i as int) =~= self@);
        }
        None
    }

    /// The contents held for path `key`, if any.
    pub fn get(&self, key: &str) -> (res: Option<&V>)
        ensures
            match res {
                Some(value) => lookup(self@, key@) == Some(value@),
                None => lookup(self@, key@) is None,
            },
    {
        match self.index_of(key) {
            Some(i) => Some(&self.entries[i].1),
            None => None,
        }
    }

    /// Sets the contents for path `key`. Where the map holds the path
    /// already, the new contents take the place of the old at the same
    /// index; elsewhere a new entry is added at the end.
    pub fn insert(&mut self, key: String, value: V)
        requires
            old(self).wf(),
        ensures
            final(self).wf(),
            final(self)@ == match key_index(old(self)@, key@) {
                Some(i) => old(self)@.update(i, (key@, value@)),
                None => old(self)@.push((key@, value@)),
            },
    {
        proof {
            lemma_key_index(self@, key@);
        }
        match self.index_of(key.as_str()) {
            Some(i) => {
                self.entries.set(i, (key, value));
                assert(self@ =~= old(self)@.update(i as int, (key@, value@)));
            },
            None => {
                self.entries.push((key, value));
                assert(self@ =~= old(self)@.push((key@, value@)));
            },
        }
    }

    /// Takes the entry with path `key` out of the map, if there is one, and
    /// gives its contents.
    pub fn remove(&mut self, key: &str) -> (res: Option<V>)
        requires
            old(self).wf(),
        ensures
            final(self).wf(),
            match key_index(old(self)@, key@) {
                Some(i) => res matches Some(value) && value@ == old(self)@[i].1 && final(self)@
                    == old(self)@.remove(i),
                None => res is None && final(self)@ == old(self)@,
            },
    {
        match self.index_of(key) {
            Some(i) => {
                let entry = self.entries.remove(i);
                assert(self@ =~= old(self)@.remove(i as int));
                Some(entry.1)
            },
            None => None,
        }
    }

    /// The paths of the entries, in order.
    pub fn keys(&self) -> (keys: Vec<String>)
        ensures
            keys@.len() == self@.len(),
            forall|i: int| 0 <= i < keys@.len() ==> (#[trigger] keys@[i])@ == self@[i].0,
    {
        let mut keys: Vec<String> = Vec::new();
        let mut i: usize = 0;
        while i < self.entries.len()
            invariant
                i <= self.entries.len(),
                keys@.len() == i,
                forall|j: int| 0 <= j < i ==> (#[trigger] keys@[j])@ == self@[j].0,
            decreases self.entries.len() - i,
        {
            keys.push(self.entries[i].0.clone());
            i = i + 1;
        }
        keys
    }
}

/// An index found among the first `n` entries is the index in the whole of
/// them.
pub proof fn lemma_key_index_prefix<T>(entries: Seq<(Seq<char>, T)>, key: Seq<char>, n: int)
    requires
        0 <= n <= entries.len(),
        key_index(entries.take(n), key) is Some,
    ensures
        key_index(entries, key) == key_index(entries.take(n), key),
    decreases entries.len() - n,
{
    if n < entries.len() {
        assert(entries.take(n + 1).drop_last() =~= entries.take(n));
        lemma_key_index_prefix(entries, key, n + 1);
    } else {
        assert(entries.take(n) =~= entries);
    }
}

} // verus!
