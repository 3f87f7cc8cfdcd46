//! A map from strings to strings, for shell variables and completion
//! scripts.  It keeps its entries in the order in which their keys were
//! first set, each key once.
use vstd::prelude::*;
use crate::text::str_is;

verus! {

/// The entries of a map: key and value, in order.
pub type Entries = Seq<(Seq<char>, Seq<char>)>;

/// No key occurs twice.
pub open spec fn keys_distinct(e: Entries) -> bool {
    forall|i: int, j: int| 0 <= i < j < e.len() ==> (#[trigger] e[i]).0 != (#[trigger] e[j]).0
}

/// Some entry has key `k`.
pub open spec fn has_key(e: Entries, k: Seq<char>) -> bool {
    exists|i: int| 0 <= i < e.len() && (#[trigger] e[i]).0 == k
}

/// The position of the entry with key `k`, when there is one.
pub open spec fn key_index(e: Entries, k: Seq<char>) -> int {
    choose|i: int| 0 <= i < e.len() && (#[trigger] e[i]).0 == k
}

/// The value for `k`, if any.
pub open spec fn lookup(e: Entries, k: Seq<char>) -> Option<Seq<char>> {
    if has_key(e, k) {
        Some(e[key_index(e, k)].1)
    } else {
        None
    }
}

/// The entries after setting `k` to `v`: the value of an existing entry is
/// replaced in place, a new key goes at the end.
pub open spec fn entries_insert(e: Entries, k: Seq<char>, v: Seq<char>) -> Entries {
    if has_key(e, k) {
        e.update(key_index(e, k), (k, v))
    } else {
        e.push((k, v))
    }
}

/// A map from strings to strings.
///
/// The entries are held in a vector of pairs, with distinct keys as the
/// invariant.  vstd gives `HashMap`'s lookups and insertion their meaning
/// only for key types that obey its hashing model (`obeys_key_model`), which
/// it declares for `bool` and the integer types but not for `String`; with a
/// `HashMap<String, String>` field not even a lookup after an insertion
/// could be proved, so no property of this map could be stated over it.
pub struct StringMap {
    entries: Vec<(String, String)>,
}

impl StringMap {
    /// The entries, in the order their keys were first set.
    pub closed spec fn view(&self) -> Entries {
        self.entries@.map_values(|e: (String, String)| (e.0@, e.1@))
    }

    /// No key occurs twice.
    pub open spec fn wf(&self) -> bool {
        keys_distinct(self@)
    }

    /// An empty map.
    pub fn new() -> (m: Self)
        ensures
            m.wf(),
            m@ == Seq::<(Seq<char>, Seq<char>)>::empty(),
    {
        let m = StringMap { entries: Vec::new() };
        assert(m@ =~= Seq::<(Seq<char>, Seq<char>)>::empty());
        m
    }

    /// The number of entries.
    pub fn len(&self) -> (n: usize)
        ensures
            n == self@.len(),
    {
        self.entries.len()
    }

    /// The key and value of entry `i`.
    pub fn entry(&self, i: usize) -> (res: (&String, &String))
        requires
            i < self@.len(),
        ensures
            (res.0@, res.1@) == self@[i as int],
    {
        let e = &self.entries[i];
        (&e.0, &e.1)
    }

    /// The position of the entry with key `key`.
    fn position(&self, key: &str) -> (res: Option<usize>)
        requires
            self.wf(),
        ensures
            match res {
                Some(i) => i < self@.len() && self@[i as int].0 == key@ && i == key_index(
                    self@,
                    key@,
                ) && has_key(self@, key@),
                None => !has_key(self@, key@),
            },
    {
        let mut i: usize = 0;
        while i < self.entries.len()
            invariant
                i <= self@.len(),
                self.wf(),
                self@.len() == self.entries@.len(),
                forall|j: int| 0 <= j < i ==> (#[trigger] self@[j]).0 != key@,
            decreases self@.len() - i,
        {
            if str_is(self.entries[i].0.as_str(), key) {
                proof {
                    assert(self@[i as int].0 == key@);
                    let k = key_index(self@, key@);
                    if k != i {
                        if k < i {
                            assert(self@[k].0 != self@[i as int].0);
                        } else {
                            assert(self@[i as int].0 != self@[k].0);
                        }
                    }
                }
                return Some(i);
            }
            i = i + 1;
        }
        None
    }

    /// The value for `key`, if any.
    pub fn get(&self, key: &str) -> (res: Option<&String>)
        requires
            self.wf(),
        ensures
            match res {
                Some(v) => lookup(self@, key@) == Some(v@),
                None => lookup(self@, key@).is_none(),
            },
    {
        match self.position(key) {
            Some(i) => Some(&self.entries[i].1),
            None => None,
        }
    }

    /// Sets `key` to `value`, giving back the value it replaced.
    pub fn insert(&mut self, key: &str, value: String) -> (res: Option<String>)
        requires
            old(self).wf(),
        ensures
            final(self).wf(),
            final(self)@ == entries_insert(old(self)@, key@, value@),
            match res {
                Some(v) => lookup(old(self)@, key@) == Some(v@),
                None => lookup(old(self)@, key@).is_none(),
            },
    {
        let ghost before = self@;
        let k = String::from_str(key);
        match self.position(key) {
            Some(i) => {
                let (_, old_value) = self.entries.remove(i);
                self.entries.insert(i, (k, value));
                assert(self@ =~= before.update(i as int, (key@, value@)));
                assert forall|a: int, b: int| 0 <= a < b < self@.len() implies (
                #[trigger] self@[a]).0 != (#[trigger] self@[b]).0 by {
                    if a != i && b != i {
                        assert(before[a].0 != before[b].0);
                    } else if a == i {
                        assert(before[a].0 != before[b].0);
                    } else {
                        assert(before[a].0 != before[b].0);
                    }
                }
                Some(old_value)
            },
            None => {
                self.entries.push((k, value));
                assert(self@ =~= before.push((key@, value@)));
                assert forall|a: int, b: int| 0 <= a < b < self@.len() implies (
                #[trigger] self@[a]).0 != (#[trigger] self@[b]).0 by {
                    if b == before.len() {
                        assert(before[a].0 != key@);
                    } else {
                        assert(before[a].0 != before[b].0);
                    }
                }
                None
            },
        }
    }
}

/// Reading a key just set gives the value set, and every other key keeps
/// its value.
pub proof fn lemma_insert_then_lookup(e: Entries, k: Seq<char>, v: Seq<char>, other: Seq<char>)
    requires
        keys_distinct(e),
    ensures
        lookup(entries_insert(e, k, v), k) == Some(v),
        other != k ==> lookup(entries_insert(e, k, v), other) == lookup(e, other),
{
    let f = entries_insert(e, k, v);
    if has_key(e, k) {
        let i = key_index(e, k);
        assert(f[i].0 == k);
        assert(has_key(f, k));
        let j = key_index(f, k);
        if j != i {
            if j < i {
                assert(e[j].0 != e[i].0);
            } else {
                assert(e[i].0 != e[j].0);
            }
        }
    } else {
        assert(f[e.len() as int].0 == k);
        assert(has_key(f, k));
        let j = key_index(f, k);
        if j < e.len() {
            assert(e[j].0 == k);
        }
    }
    if other != k {
        if has_key(e, other) {
            let i = key_index(e, other);
            assert(f[i] == e[i]);
            assert(has_key(f, other));
            let j = key_index(f, other);
            if j < e.len() && j != i {
                assert(f[j] == e[j]);
                if j < i {
                    assert(e[j].0 != e[i].0);
                } else {
                    assert(e[i].0 != e[j].0);
                }
            }
        }
        if has_key(f, other) {
            let j = key_index(f, other);
            if j < e.len() {
                assert(f[j] == e[j]);
                assert(has_key(e, other));
            }
        }
    }
}

} // verus!
