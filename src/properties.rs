//! Property overrides: a map from property kind to value, kept per node, and
//! a table of defaults that a lookup falls back to.
use vstd::prelude::*;

verus! {

/// The value that `entries` gives `key`: that of its first entry for `key`.
pub open spec fn lookup(entries: Seq<(u64, u64)>, key: u64) -> Option<u64>
    decreases entries.len(),
{
    if entries.len() == 0 {
        None
    } else if entries[0].0 == key {
        Some(entries[0].1)
    } else {
        lookup(entries.drop_first(), key)
    }
}

/// A map from property kind to value.
#[derive(Debug)]
pub struct PropertyMap {
    pub(crate) entries: Vec<(u64, u64)>,
}

impl PropertyMap {
    /// The value held for `key`, if any.
    pub open(crate) spec fn get_spec(&self, key: u64) -> Option<u64> {
        lookup(self.entries@, key)
    }

    /// The two maps hold the same value for every key.
    pub open(crate) spec fn same_values(self, other: PropertyMap) -> bool {
        forall|key: u64| #[trigger] self.get_spec(key) == other.get_spec(key)
    }

    /// A copy of this map.
    pub fn duplicate(&self) -> (r: PropertyMap)
        ensures
            r.same_values(*self),
    {
        let mut entries: Vec<(u64, u64)> = Vec::new();
        let mut i: usize = 0;
        while i < self.entries.len()
            invariant
                0 <= i <= self.entries@.len(),
                entries@ == self.entries@.take(i as int),
            decreases self.entries@.len() - i,
        {
            entries.push(self.entries[i]);
            proof {
                assert(self.entries@.take(i + 1) =~= self.entries@.take(i as int).push(self.entries@[i as int]));
            }
            i = i + 1;
        }
        proof {
            assert(self.entries@.take(i as int) =~= self.entries@);
        }
        let r = PropertyMap { entries };
        assert(r.entries@ == self.entries@);
        r
    }

    /// An empty map.
    pub fn new() -> (r: PropertyMap)
        ensures
            forall|key: u64| #[trigger] r.get_spec(key) is None,
    {
        PropertyMap { entries: Vec::new() }
    }

    /// The value held for `key`, if any.
    pub fn get(&self, key: u64) -> (r: Option<u64>)
        ensures
            r == self.get_spec(key),
    {
        let mut i: usize = 0;
        proof {
            assert(self.entries@.skip(0) =~= self.entries@);
        }
        while i < self.entries.len()
            invariant
                0 <= i <= self.entries@.len(),
                lookup(self.entries@, key) == lookup(self.entries@.skip(i as int), key),
            decreases self.entries@.len() - i,
        {
            let (k, v) = self.entries[i];
            proof {
                assert(self.entries@.skip(i as int).drop_first() =~= self.entries@.skip(i + 1));
            }
            if k == key {
                return Some(v);
            }
            i = i + 1;
        }
        None
    }

    /// Sets the value for `key`; the other keys keep theirs.
    pub fn insert(&mut self, key: u64, value: u64)
        ensures
            final(self).get_spec(key) == Some(value),
            forall|other: u64| other != key ==> #[trigger] final(self).get_spec(other) == old(self).get_spec(other),
    {
        let mut i: usize = 0;
        while i < self.entries.len()
            invariant
                0 <= i <= self.entries@.len(),
                self.entries@ == old(self).entries@,
                forall|j: int| 0 <= j < i ==> self.entries@[j].0 != key,
            decreases self.entries@.len() - i,
        {
            if self.entries[i].0 == key {
                self.entries.set(i, (key, value));
                proof {
                    lemma_lookup_replace(old(self).entries@, i as int, key, value);
                }
                return;
            }
            i = i + 1;
        }
        self.entries.push((key, value));
        proof {
            lemma_lookup_push(old(self).entries@, key, value);
        }
    }
}

/// Replacing the first entry for `key` changes the value of `key` alone.
proof fn lemma_lookup_replace(entries: Seq<(u64, u64)>, i: int, key: u64, value: u64)
    requires
        0 <= i < entries.len(),
        entries[i].0 == key,
        forall|j: int| 0 <= j < i ==> entries[j].0 != key,
    ensures
        lookup(entries.update(i, (key, value)), key) == Some(value),
        forall|other: u64|
            other != key ==> #[trigger] lookup(entries.update(i, (key, value)), other) == lookup(
                entries,
                other,
            ),
    decreases i,
{
    let updated = entries.update(i, (key, value));
    if i > 0 {
        lemma_lookup_replace(entries.drop_first(), i - 1, key, value);
        assert(updated.drop_first() =~= entries.drop_first().update(i - 1, (key, value)));
        assert(entries.drop_first()[i - 1] == entries[i]);
        assert forall|j: int| 0 <= j < i - 1 implies entries.drop_first()[j].0 != key by {
            assert(entries.drop_first()[j] == entries[j + 1]);
        }
    } else {
        assert(updated.drop_first() =~= entries.drop_first());
    }
    assert forall|other: u64| other != key implies #[trigger] lookup(updated, other) == lookup(
        entries,
        other,
    ) by {
        assert(updated.drop_first() == entries.drop_first().update(i - 1, (key, value)) || i == 0);
        if i > 0 {
            assert(updated[0] == entries[0]);
            assert(lookup(entries.drop_first().update(i - 1, (key, value)), other) == lookup(
                entries.drop_first(),
                other,
            ));
        }
        assert(lookup(updated.drop_first(), other) == lookup(entries.drop_first(), other));
    }
}

/// Appending an entry for a key that has none gives it that value alone.
proof fn lemma_lookup_push(entries: Seq<(u64, u64)>, key: u64, value: u64)
    requires
        forall|j: int| 0 <= j < entries.len() ==> entries[j].0 != key,
    ensures
        lookup(entries.push((key, value)), key) == Some(value),
        forall|other: u64|
            other != key ==> #[trigger] lookup(entries.push((key, value)), other) == lookup(
                entries,
                other,
            ),
    decreases entries.len(),
{
    let pushed = entries.push((key, value));
    if entries.len() > 0 {
        assert forall|j: int| 0 <= j < entries.len() - 1 implies entries.drop_first()[j].0 != key by {
            assert(entries.drop_first()[j] == entries[j + 1]);
        }
        lemma_lookup_push(entries.drop_first(), key, value);
        assert(pushed.drop_first() =~= entries.drop_first().push((key, value)));
        assert(pushed[0] == entries[0]);
    } else {
        assert(pushed.drop_first() =~= Seq::<(u64, u64)>::empty());
    }
    assert forall|other: u64| other != key implies #[trigger] lookup(pushed, other) == lookup(
        entries,
        other,
    ) by {
        if entries.len() == 0 {
            assert(lookup(Seq::<(u64, u64)>::empty(), other) is None);
            assert(lookup(pushed.drop_first(), other) is None);
        } else {
            assert(pushed[0] == entries[0]);
            assert(lookup(entries.drop_first().push((key, value)), other) == lookup(
                entries.drop_first(),
                other,
            ));
            assert(lookup(pushed.drop_first(), other) == lookup(entries.drop_first(), other));
        }
    }
}

} // verus!
