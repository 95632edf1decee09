use crate::runtime::heap::clone_value;
use crate::runtime::values::{AccessFunc, GribKey, GribValue, HashPropertyValue, HashValue};
use vstd::prelude::*;

verus! {

/// A copy of an auto-property function.
pub fn clone_access(f: &AccessFunc) -> (r: AccessFunc)
    ensures
        r == *f,
{
    match f {
        AccessFunc::Callable { index, stack } => AccessFunc::Callable { index: *index, stack: *stack },
        AccessFunc::Captured(i) => AccessFunc::Captured(*i),
        AccessFunc::Static(v) => AccessFunc::Static(clone_value(v)),
    }
}

/// Whether an entry has key hash `h`.
pub open spec fn entries_have(es: Seq<(GribKey, HashPropertyValue)>, h: u64) -> bool {
    exists|i: int| 0 <= i < es.len() && #[trigger] es[i].0.hash == h
}

/// The position of an entry with key hash `h`, where there is one.
pub open spec fn entry_pos(es: Seq<(GribKey, HashPropertyValue)>, h: u64) -> int {
    choose|i: int| 0 <= i < es.len() && #[trigger] es[i].0.hash == h
}

/// No two entries share a key hash.
pub open spec fn distinct_hashes(es: Seq<(GribKey, HashPropertyValue)>) -> bool {
    forall|i: int, j: int| 0 <= i < j < es.len() ==> #[trigger] es[i].0.hash != #[trigger] es[j].0.hash
}

/// What the entries hold under key hash `h`.
pub open spec fn lookup_in(es: Seq<(GribKey, HashPropertyValue)>, h: u64) -> Option<HashPropertyValue> {
    if entries_have(es, h) {
        Some(es[entry_pos(es, h)].1)
    } else {
        None
    }
}

/// The entries after assigning `val` under `key`: a mutable hash gains a
/// new entry or has a plain value replaced; an auto-property, and every
/// entry of a frozen hash, stay as they are.
pub open spec fn set_entries(es: Seq<(GribKey, HashPropertyValue)>, mutable: bool, key: GribKey, val: GribValue) -> Seq<(GribKey, HashPropertyValue)> {
    if !mutable {
        es
    } else if !entries_have(es, key.hash) {
        es.push((key, HashPropertyValue::Value(val)))
    } else {
        let i = entry_pos(es, key.hash);
        match es[i].1 {
            HashPropertyValue::Value(_) => es.update(i, (es[i].0, HashPropertyValue::Value(val))),
            HashPropertyValue::AutoProp { .. } => es,
        }
    }
}

/// The entries after removing the one with key hash `h`.
pub open spec fn delete_entries(es: Seq<(GribKey, HashPropertyValue)>, h: u64) -> Seq<(GribKey, HashPropertyValue)> {
    if entries_have(es, h) {
        es.remove(entry_pos(es, h))
    } else {
        es
    }
}

/// With distinct key hashes, the entry with hash `h` is the only one.
pub proof fn lemma_entry_pos(es: Seq<(GribKey, HashPropertyValue)>, i: int)
    requires
        distinct_hashes(es),
        0 <= i < es.len(),
    ensures
        entries_have(es, es[i].0.hash),
        entry_pos(es, es[i].0.hash) == i,
{
    let h = es[i].0.hash;
    assert(es[i].0.hash == h);
    let j = entry_pos(es, h);
    assert(0 <= j < es.len() && es[j].0.hash == h);
    if j != i {
        if j < i {
            assert(es[j].0.hash != es[i].0.hash);
        } else {
            assert(es[i].0.hash != es[j].0.hash);
        }
    }
}

/// On a mutable hash, a value assigned under a key that holds no
/// auto-property is what a read of that key gives back.
pub proof fn lemma_set_then_get(es: Seq<(GribKey, HashPropertyValue)>, key: GribKey, val: GribValue)
    requires
        distinct_hashes(es),
        !(lookup_in(es, key.hash) matches Some(HashPropertyValue::AutoProp { .. })),
    ensures
        lookup_in(set_entries(es, true, key, val), key.hash) == Some(HashPropertyValue::Value(val)),
{
    let after = set_entries(es, true, key, val);
    if entries_have(es, key.hash) {
        let i = entry_pos(es, key.hash);
        lemma_entry_pos(es, i);
        assert(after[i].0.hash == key.hash);
        assert(distinct_hashes(after)) by {
            assert forall|a: int, b: int| 0 <= a < b < after.len() implies #[trigger] after[a].0.hash != #[trigger] after[b].0.hash by {
                assert(after[a].0.hash == es[a].0.hash && after[b].0.hash == es[b].0.hash);
            }
        }
        lemma_entry_pos(after, i);
    } else {
        let n = es.len() as int;
        assert(after[n].0.hash == key.hash);
        assert(distinct_hashes(after)) by {
            assert forall|a: int, b: int| 0 <= a < b < after.len() implies #[trigger] after[a].0.hash != #[trigger] after[b].0.hash by {
                if b == n {
                    assert(after[a] == es[a]);
                    assert(!(es[a].0.hash == key.hash));
                } else {
                    assert(after[a] == es[a] && after[b] == es[b]);
                }
            }
        }
        lemma_entry_pos(after, n);
    }
}

/// Assigning under one key leaves what every other key holds.
pub proof fn lemma_set_keeps_others(es: Seq<(GribKey, HashPropertyValue)>, mutable: bool, key: GribKey, val: GribValue, other: u64)
    requires
        distinct_hashes(es),
        other != key.hash,
    ensures
        lookup_in(set_entries(es, mutable, key, val), other) == lookup_in(es, other),
{
    let after = set_entries(es, mutable, key, val);
    if entries_have(es, other) {
        let j = entry_pos(es, other);
        lemma_entry_pos(es, j);
        assert(after[j] == es[j]);
        assert(distinct_hashes(after)) by {
            assert forall|a: int, b: int| 0 <= a < b < after.len() implies #[trigger] after[a].0.hash != #[trigger] after[b].0.hash by {
                if mutable && !entries_have(es, key.hash) && b == es.len() {
                    assert(after[a] == es[a]);
                    assert(!(es[a].0.hash == key.hash));
                } else {
                    assert(after[a].0.hash == es[a].0.hash && after[b].0.hash == es[b].0.hash);
                }
            }
        }
        lemma_entry_pos(after, j);
    } else {
        assert(!entries_have(after, other)) by {
            if entries_have(after, other) {
                let j = choose|j: int| 0 <= j < after.len() && #[trigger] after[j].0.hash == other;
                if j < es.len() {
                    assert(after[j].0.hash == es[j].0.hash);
                }
            }
        }
    }
}

/// Removing an entry keeps the key hashes distinct.
proof fn lemma_remove_distinct(es: Seq<(GribKey, HashPropertyValue)>, i: int)
    requires
        distinct_hashes(es),
        0 <= i < es.len(),
    ensures
        distinct_hashes(es.remove(i)),
        forall|j: int| 0 <= j < es.remove(i).len() ==> (#[trigger] es.remove(i)[j]) == es[if j < i { j } else { j + 1 }],
{
    let after = es.remove(i);
    assert forall|j: int| 0 <= j < after.len() implies (#[trigger] after[j]) == es[if j < i { j } else { j + 1 }] by {}
    assert forall|a: int, b: int| 0 <= a < b < after.len() implies #[trigger] after[a].0.hash != #[trigger] after[b].0.hash by {
        let a0 = if a < i { a } else { a + 1 };
        let b0 = if b < i { b } else { b + 1 };
        assert(after[a] == es[a0] && after[b] == es[b0]);
    }
}

/// After removing a key, a read of it finds nothing.
pub proof fn lemma_delete_then_get(es: Seq<(GribKey, HashPropertyValue)>, h: u64)
    requires
        distinct_hashes(es),
    ensures
        lookup_in(delete_entries(es, h), h) is None,
{
    if entries_have(es, h) {
        let i = entry_pos(es, h);
        lemma_entry_pos(es, i);
        lemma_remove_distinct(es, i);
        let after = es.remove(i);
        if entries_have(after, h) {
            let j = choose|j: int| 0 <= j < after.len() && #[trigger] after[j].0.hash == h;
            let j0 = if j < i { j } else { j + 1 };
            assert(after[j] == es[j0]);
            lemma_entry_pos(es, j0);
        }
    }
}

/// Removing one key leaves what every other key holds.
pub proof fn lemma_delete_keeps_others(es: Seq<(GribKey, HashPropertyValue)>, h: u64, other: u64)
    requires
        distinct_hashes(es),
        other != h,
    ensures
        lookup_in(delete_entries(es, h), other) == lookup_in(es, other),
{
    if entries_have(es, h) {
        let i = entry_pos(es, h);
        lemma_entry_pos(es, i);
        lemma_remove_distinct(es, i);
        let after = es.remove(i);
        if entries_have(es, other) {
            let j = entry_pos(es, other);
            lemma_entry_pos(es, j);
            let j1 = if j < i { j } else { j - 1 };
            assert(after[j1] == es[j]);
            lemma_entry_pos(after, j1);
        } else if entries_have(after, other) {
            let j = choose|j: int| 0 <= j < after.len() && #[trigger] after[j].0.hash == other;
            let j0 = if j < i { j } else { j + 1 };
            assert(after[j] == es[j0]);
        }
    }
}

impl HashValue {
    /// No two entries share a key hash.
    pub open spec fn wf(&self) -> bool {
        distinct_hashes(self.values@)
    }

    /// Whether an entry has a key with hash `h`.
    pub open spec fn has(&self, h: u64) -> bool {
        entries_have(self.values@, h)
    }

    /// What the hash holds under key hash `h`.
    pub open spec fn lookup(&self, h: u64) -> Option<HashPropertyValue> {
        lookup_in(self.values@, h)
    }

    pub fn new(mutable: bool) -> (h: Self)
        ensures
            h.mutable == mutable,
            h.values@.len() == 0,
            h.wf(),
    {
        HashValue { mutable, values: Vec::new() }
    }

    /// The position of the entry whose key has the hash of `key`.
    fn position(&self, key: &GribKey) -> (r: Option<usize>)
        ensures
            r matches Some(i) ==> i < self.values@.len() && self.values@[i as int].0.hash == key.hash,
            r is None ==> !self.has(key.hash),
    {
        let mut i: usize = 0;
        while i < self.values.len()
            invariant
                i <= self.values@.len(),
                forall|j: int| 0 <= j < i ==> self.values@[j].0.hash != key.hash,
            decreases self.values@.len() - i,
        {
            if self.values[i].0.hash == key.hash {
                return Some(i);
            }
            i = i + 1;
        }
        None
    }

    /// Sets the raw value under `key`, whatever the hash allows: an entry
    /// with the same key hash gets the new value (and keeps its key);
    /// otherwise the entry is added at the end.
    pub fn init_value(&mut self, key: GribKey, value: HashPropertyValue)
        requires
            old(self).wf(),
        ensures
            final(self).wf(),
            final(self).mutable == old(self).mutable,
            old(self).has(key.hash) ==> final(self).values@.len() == old(self).values@.len()
                && exists|i: int| 0 <= i < old(self).values@.len() && old(self).values@[i].0.hash == key.hash
                && final(self).values@ == old(self).values@.update(i, (old(self).values@[i].0, value)),
            !old(self).has(key.hash) ==> final(self).values@ == old(self).values@.push((key, value)),
    {
        match self.position(&key) {
            Some(i) => {
                let ghost before = self.values@;
                let k = self.values[i].0;
                self.values.set(i, (k, value));
                assert(self.values@ == before.update(i as int, (before[i as int].0, value)));
            },
            None => {
                self.values.push((key, value));
                proof {
                    assert forall|i: int, j: int| 0 <= i < j < self.values@.len() implies
                        #[trigger] self.values@[i].0.hash != #[trigger] self.values@[j].0.hash by {
                        if j == self.values@.len() - 1 {
                            assert(self.values@[i] == old(self).values@[i]);
                        }
                    }
                }
            },
        }
    }

    /// Makes the hash unchangeable.
    pub fn freeze(&mut self)
        ensures
            !final(self).mutable,
            final(self).values == old(self).values,
    {
        self.mutable = false;
    }

    pub fn is_mutable(&self) -> (b: bool)
        ensures
            b == self.mutable,
    {
        self.mutable
    }

    /// What the hash holds under `key`.
    pub fn get_property(&self, key: &GribKey) -> (r: Option<&HashPropertyValue>)
        requires
            self.wf(),
        ensures
            r is None <==> self.lookup(key.hash) is None,
            r matches Some(v) ==> self.lookup(key.hash) == Some(*v),
            r is None <==> !self.has(key.hash),
            r matches Some(v) ==> exists|i: int| 0 <= i < self.values@.len()
                && self.values@[i].0.hash == key.hash && self.values@[i].1 == *v,
    {
        match self.position(key) {
            Some(i) => Some(&self.values[i].1),
            None => None,
        }
    }

    /// Assigns `val` under `key`.  A mutable hash gains a new entry for a
    /// new key and has a plain value replaced; an auto-property gives back
    /// its setter for the caller to run; anything else is left as it is.
    pub fn try_set(&mut self, key: &GribKey, val: GribValue) -> (r: Option<AccessFunc>)
        requires
            old(self).wf(),
        ensures
            final(self).wf(),
            final(self).values@ == set_entries(old(self).values@, old(self).mutable, *key, val),
            r == (match old(self).lookup(key.hash) {
                Some(HashPropertyValue::AutoProp { set, .. }) => set,
                _ => None,
            }),
            final(self).mutable == old(self).mutable,
            old(self).mutable && !old(self).has(key.hash) ==> r is None
                && final(self).values@ == old(self).values@.push((*key, HashPropertyValue::Value(val))),
            old(self).has(key.hash) ==> exists|i: int| 0 <= i < old(self).values@.len()
                && old(self).values@[i].0.hash == key.hash
                && match old(self).values@[i].1 {
                    HashPropertyValue::Value(_) => if old(self).mutable {
                        r is None && final(self).values@ == old(self).values@.update(
                            i,
                            (old(self).values@[i].0, HashPropertyValue::Value(val)),
                        )
                    } else {
                        r is None && final(self).values@ == old(self).values@
                    },
                    HashPropertyValue::AutoProp { set, .. } => r == set && final(self).values@ == old(self).values@,
                },
            !old(self).mutable && !old(self).has(key.hash) ==> r is None && final(self).values@ == old(self).values@,
    {
        match self.position(key) {
            None => {
                if self.mutable {
                    self.init_value(*key, HashPropertyValue::Value(val));
                }
                None
            },
            Some(i) => {
                let setter = match &self.values[i].1 {
                    HashPropertyValue::Value(_) => None,
                    HashPropertyValue::AutoProp { set, .. } => match set {
                        Some(f) => Some(Some(clone_access(f))),
                        None => Some(None),
                    },
                };
                match setter {
                    Some(s) => s,
                    None => {
                        if self.mutable {
                            let k = self.values[i].0;
                            let ghost before = self.values@;
                            self.values.set(i, (k, HashPropertyValue::Value(val)));
                            assert(self.values@ == before.update(i as int, (before[i as int].0, HashPropertyValue::Value(val))));
                        }
                        None
                    },
                }
            },
        }
    }

    /// Removes the entry under `key`, if there is one.
    pub fn delete_key(&mut self, key: &GribKey)
        requires
            old(self).wf(),
        ensures
            final(self).wf(),
            final(self).values@ == delete_entries(old(self).values@, key.hash),
            final(self).mutable == old(self).mutable,
            !final(self).has(key.hash),
            !old(self).has(key.hash) ==> final(self).values@ == old(self).values@,
            old(self).has(key.hash) ==> exists|i: int| 0 <= i < old(self).values@.len()
                && old(self).values@[i].0.hash == key.hash
                && final(self).values@ == old(self).values@.remove(i),
    {
        match self.position(key) {
            Some(i) => {
                let ghost before = self.values@;
                let _ = self.values.remove(i);
                proof {
                    assert forall|a: int, b: int| 0 <= a < b < self.values@.len() implies
                        #[trigger] self.values@[a].0.hash != #[trigger] self.values@[b].0.hash by {
                        let a0 = if a < i { a } else { a + 1 };
                        let b0 = if b < i { b } else { b + 1 };
                        assert(self.values@[a] == before[a0]);
                        assert(self.values@[b] == before[b0]);
                    }
                    assert forall|j: int| 0 <= j < self.values@.len() implies #[trigger] self.values@[j].0.hash != key.hash by {
                        let j0 = if j < i { j } else { j + 1 };
                        assert(self.values@[j] == before[j0]);
                    }
                }
            },
            None => {},
        }
    }

    pub fn is_empty(&self) -> (b: bool)
        ensures
            b == (self.values@.len() == 0),
    {
        self.values.len() == 0
    }

    /// The keys, as string values, in order.
    pub fn keys(&self) -> (v: Vec<GribValue>)
        ensures
            v@.len() == self.values@.len(),
            forall|i: int| 0 <= i < v@.len() ==> #[trigger] v@[i] == GribValue::String(self.values@[i].0.string),
    {
        let mut v: Vec<GribValue> = Vec::new();
        let mut i: usize = 0;
        while i < self.values.len()
            invariant
                i <= self.values@.len(),
                v@.len() == i,
                forall|j: int| 0 <= j < i ==> #[trigger] v@[j] == GribValue::String(self.values@[j].0.string),
            decreases self.values@.len() - i,
        {
            v.push(GribValue::String(self.values[i].0.string));
            i = i + 1;
        }
        v
    }
}

} // verus!
