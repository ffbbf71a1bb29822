//! The keyed store at the heart of the crate.
//!
//! A [`Cache`] maps comparable keys to values.  Entries are kept in a vector
//! sorted strictly by key, so iteration always visits entries in the key's
//! total order, never in insertion order.  The abstract model of a cache is a
//! [`Map`] from key views to value views; every operation is specified
//! against that map, plus the sorted key sequence where order matters.

use vstd::prelude::*;

use crate::order::CacheIdentifier;

verus! {

/// One directed edge from an owning value to another entry, named by key:
/// either believed absent from the store (`Unknown`) or present (`Cached`).
/// The tag is a cached belief, re-established lazily by resolution, not a
/// live property.
#[derive(Debug, Clone, PartialEq, Eq, Hash)]
pub enum CacheReference<IdType> {
    Unknown(IdType),
    Cached(IdType),
}

impl<IdType: View> View for CacheReference<IdType> {
    type V = (IdType::V, bool);

    open spec fn view(&self) -> (IdType::V, bool) {
        match self {
            CacheReference::Unknown(id) => (id@, false),
            CacheReference::Cached(id) => (id@, true),
        }
    }
}

impl<IdType> CacheReference<IdType> {
    /// The wrapped key, regardless of tag.
    pub fn id(&self) -> (r: &IdType)
        where IdType: View,
        ensures
            r@ == self@.0,
    {
        match self {
            CacheReference::Unknown(id) => id,
            CacheReference::Cached(id) => id,
        }
    }

    /// Whether this reference currently believes its target is cached.
    pub fn is_cached(&self) -> (r: bool)
        where IdType: View,
        ensures
            r == self@.1,
    {
        match self {
            CacheReference::Unknown(_) => false,
            CacheReference::Cached(_) => true,
        }
    }
}

/// The key views of an entry sequence, in storage order.
pub open spec fn entry_keys<K: CacheIdentifier, V: View>(s: Seq<(K, V)>) -> Seq<K::V> {
    s.map_values(|p: (K, V)| p.0@)
}

/// The map from key views to value views described by an entry sequence;
/// later entries win, though a well-formed cache never repeats a key.
pub open spec fn entry_map<K: CacheIdentifier, V: View>(s: Seq<(K, V)>) -> Map<K::V, V::V>
    decreases s.len(),
{
    if s.len() == 0 {
        Map::empty()
    } else {
        entry_map(s.drop_last()).insert(s.last().0@, s.last().1@)
    }
}

/// A sequence of key views in strictly ascending key order.
pub open spec fn sorted_strict<K: CacheIdentifier>(s: Seq<K::V>) -> bool {
    forall|i: int, j: int| 0 <= i < j < s.len() ==> K::key_lt(s[i], s[j])
}

/// A sequence of key views without repetition.
pub open spec fn distinct_views<K: CacheIdentifier>(s: Seq<K::V>) -> bool {
    forall|i: int, j: int| 0 <= i < j < s.len() ==> s[i] != s[j]
}

/// Strictly sorted keys never repeat.
pub proof fn lemma_sorted_distinct<K: CacheIdentifier>(s: Seq<K::V>)
    requires
        sorted_strict::<K>(s),
    ensures
        distinct_views::<K>(s),
{
    K::lemma_key_order();
    assert forall|i: int, j: int| 0 <= i < j < s.len() implies s[i] != s[j] by {
        assert(K::key_lt(s[i], s[j]));
        if s[i] == s[j] {
            assert(!K::key_lt(s[j], s[i]));
            assert(false);
        }
    }
}

/// Grounds the pointwise meaning of `entry_keys`.
proof fn lemma_entry_keys_facts<K: CacheIdentifier, V: View>(s: Seq<(K, V)>)
    ensures
        entry_keys(s).len() == s.len(),
        forall|i: int| 0 <= i < s.len() ==> #[trigger] entry_keys(s)[i] == s[i].0@,
{
}

/// Dropping the last entry drops the last key; distinctness carries over.
proof fn lemma_entry_keys_drop_last<K: CacheIdentifier, V: View>(s: Seq<(K, V)>)
    requires
        s.len() > 0,
    ensures
        entry_keys(s.drop_last()) =~= entry_keys(s).drop_last(),
        distinct_views::<K>(entry_keys(s)) ==> distinct_views::<K>(entry_keys(s.drop_last())),
{
    lemma_entry_keys_facts(s);
    lemma_entry_keys_facts(s.drop_last());
    if distinct_views::<K>(entry_keys(s)) {
        let d = s.drop_last();
        assert forall|i: int, j: int| 0 <= i < j < entry_keys(d).len()
            implies entry_keys(d)[i] != entry_keys(d)[j] by {
            assert(entry_keys(s)[i] == entry_keys(d)[i]);
            assert(entry_keys(s)[j] == entry_keys(d)[j]);
        }
    }
}

/// The domain of the entry map is exactly the set of key views present.
proof fn lemma_entry_map_dom<K: CacheIdentifier, V: View>(s: Seq<(K, V)>)
    ensures
        entry_map(s).dom().finite(),
        forall|kv: K::V| entry_map(s).dom().contains(kv) <==> entry_keys(s).contains(kv),
    decreases s.len(),
{
    lemma_entry_keys_facts(s);
    if s.len() == 0 {
        assert(entry_map(s).dom() =~= Set::<K::V>::empty());
    } else {
        let d = s.drop_last();
        lemma_entry_map_dom(d);
        lemma_entry_keys_facts(d);
        assert(entry_map(s) == entry_map(d).insert(s.last().0@, s.last().1@));
        assert forall|kv: K::V| entry_map(s).dom().contains(kv)
            implies entry_keys(s).contains(kv) by {
            if kv == s.last().0@ {
                assert(entry_keys(s)[s.len() - 1] == kv);
            } else {
                assert(entry_map(d).dom().contains(kv));
                assert(entry_keys(d).contains(kv));
                let i = choose|i: int|
                    0 <= i < entry_keys(d).len() && entry_keys(d)[i] == kv;
                assert(0 <= i < entry_keys(d).len() && entry_keys(d)[i] == kv);
                assert(0 <= i < d.len());
                assert(d.len() == s.len() - 1);
                assert(d[i] == s[i]);
                assert(entry_keys(d)[i] == d[i].0@);
                assert(entry_keys(s)[i] == s[i].0@);
                assert(entry_keys(s)[i] == kv);
            }
        }
        assert forall|kv: K::V| entry_keys(s).contains(kv)
            implies entry_map(s).dom().contains(kv) by {
            let i = choose|i: int|
                0 <= i < entry_keys(s).len() && entry_keys(s)[i] == kv;
            if i == s.len() - 1 {
                assert(kv == s.last().0@);
            } else {
                assert(d[i] == s[i]);
                assert(entry_keys(d)[i] == kv);
                assert(entry_keys(d).contains(kv));
            }
        }
    }
}

/// With distinct keys, the entry map sends each stored key to its stored value.
proof fn lemma_entry_map_index<K: CacheIdentifier, V: View>(s: Seq<(K, V)>, i: int)
    requires
        distinct_views::<K>(entry_keys(s)),
        0 <= i < s.len(),
    ensures
        entry_map(s).dom().contains(s[i].0@),
        entry_map(s)[s[i].0@] == s[i].1@,
    decreases s.len(),
{
    lemma_entry_keys_facts(s);
    if i == s.len() - 1 {
        assert(s.last() == s[i]);
    } else {
        let d = s.drop_last();
        lemma_entry_keys_drop_last(s);
        lemma_entry_keys_facts(d);
        assert(d[i] == s[i]);
        lemma_entry_map_index(d, i);
        assert(entry_keys(s)[i] == s[i].0@);
        assert(entry_keys(s)[s.len() - 1] == s.last().0@);
        assert(s[i].0@ != s.last().0@);
    }
}

/// Appending an entry inserts its pair into the map.
proof fn lemma_entry_map_push<K: CacheIdentifier, V: View>(s: Seq<(K, V)>, p: (K, V))
    ensures
        entry_map(s.push(p)) == entry_map(s).insert(p.0@, p.1@),
{
    assert(s.push(p).drop_last() =~= s);
    assert(s.push(p).last() == p);
}

/// A key view absent from distinct keys never collides with a stored key.
proof fn lemma_keys_absent<K: CacheIdentifier, V: View>(s: Seq<(K, V)>, kv: K::V)
    requires
        !entry_keys(s).contains(kv),
    ensures
        forall|j: int| 0 <= j < s.len() ==> s[j].0@ != kv,
{
    lemma_entry_keys_facts(s);
    assert forall|j: int| 0 <= j < s.len() implies s[j].0@ != kv by {
        if s[j].0@ == kv {
            assert(entry_keys(s)[j] == kv);
            assert(entry_keys(s).contains(kv));
        }
    }
}

/// Replacing the entry at `i` by one with the same key view updates the map
/// at that key.
proof fn lemma_entry_map_update<K: CacheIdentifier, V: View>(s: Seq<(K, V)>, i: int, p: (K, V))
    requires
        distinct_views::<K>(entry_keys(s)),
        0 <= i < s.len(),
        p.0@ == s[i].0@,
    ensures
        entry_map(s.update(i, p)) =~= entry_map(s).insert(p.0@, p.1@),
        entry_keys(s.update(i, p)) =~= entry_keys(s),
    decreases s.len(),
{
    lemma_entry_keys_facts(s);
    lemma_entry_keys_facts(s.update(i, p));
    assert(entry_keys(s.update(i, p)) =~= entry_keys(s));
    if i == s.len() - 1 {
        assert(s.update(i, p).drop_last() =~= s.drop_last());
        assert(s.update(i, p).last() == p);
    } else {
        lemma_entry_keys_drop_last(s);
        lemma_entry_map_update(s.drop_last(), i, p);
        assert(s.update(i, p).drop_last() =~= s.drop_last().update(i, p));
        assert(s.update(i, p).last() == s.last());
        assert(entry_keys(s)[i] == s[i].0@);
        assert(entry_keys(s)[s.len() - 1] == s.last().0@);
        assert(p.0@ != s.last().0@);
    }
}

/// Inserting an entry with a fresh key view at any position inserts its pair
/// into the map.
proof fn lemma_entry_map_insert<K: CacheIdentifier, V: View>(s: Seq<(K, V)>, i: int, p: (K, V))
    requires
        0 <= i <= s.len(),
        !entry_keys(s).contains(p.0@),
    ensures
        entry_map(s.insert(i, p)) =~= entry_map(s).insert(p.0@, p.1@),
    decreases s.len(),
{
    lemma_entry_keys_facts(s);
    lemma_keys_absent(s, p.0@);
    if i == s.len() {
        assert(s.insert(i, p) =~= s.push(p));
        lemma_entry_map_push(s, p);
    } else {
        let s2 = s.insert(i, p);
        assert(s2.len() == s.len() + 1);
        assert(s2.drop_last() =~= s.drop_last().insert(i, p));
        assert(s2.last() == s.last());
        lemma_entry_keys_facts(s.drop_last());
        assert forall|j: int| 0 <= j < s.len() - 1
            implies entry_keys(s.drop_last())[j] != p.0@ by {
            assert(s.drop_last()[j] == s[j]);
        }
        if entry_keys(s.drop_last()).contains(p.0@) {
            let j = choose|j: int|
                0 <= j < entry_keys(s.drop_last()).len() && entry_keys(s.drop_last())[j] == p.0@;
            assert(false);
        }
        lemma_entry_map_insert(s.drop_last(), i, p);
        assert(p.0@ != s.last().0@);
    }
}

/// Removing the entry at `i` removes its key from the map, provided keys are
/// distinct.
proof fn lemma_entry_map_remove<K: CacheIdentifier, V: View>(s: Seq<(K, V)>, i: int)
    requires
        distinct_views::<K>(entry_keys(s)),
        0 <= i < s.len(),
    ensures
        entry_map(s.remove(i)) =~= entry_map(s).remove(s[i].0@),
    decreases s.len(),
{
    lemma_entry_keys_facts(s);
    lemma_entry_map_dom(s);
    if i == s.len() - 1 {
        assert(s.remove(i) =~= s.drop_last());
        lemma_entry_map_dom(s.drop_last());
        lemma_entry_keys_facts(s.drop_last());
        if entry_keys(s.drop_last()).contains(s[i].0@) {
            let j = choose|j: int|
                0 <= j < entry_keys(s.drop_last()).len()
                    && entry_keys(s.drop_last())[j] == s[i].0@;
            assert(s.drop_last()[j] == s[j]);
            assert(entry_keys(s)[j] == s[i].0@);
            assert(entry_keys(s)[i] == s[i].0@);
            assert(false);
        }
        assert(!entry_map(s.drop_last()).dom().contains(s[i].0@));
    } else {
        let s2 = s.remove(i);
        lemma_entry_keys_drop_last(s);
        lemma_entry_map_remove(s.drop_last(), i);
        assert(s2.drop_last() =~= s.drop_last().remove(i));
        assert(s2.last() == s.last());
        assert(s.drop_last()[i] == s[i]);
        assert(entry_keys(s)[i] == s[i].0@);
        assert(entry_keys(s)[s.len() - 1] == s.last().0@);
        assert(s[i].0@ != s.last().0@);
    }
}

/// An ordered mapping from keys to values: point lookup, insertion, merge,
/// filtered removal, and iteration in ascending key order.
#[derive(Debug, Clone, PartialEq, Eq)]
pub struct Cache<IdType, ValueType> where IdType: CacheIdentifier, ValueType: View {
    entries: Vec<(IdType, ValueType)>,
}

impl<IdType: CacheIdentifier, ValueType: View> View for Cache<IdType, ValueType> {
    type V = Map<IdType::V, ValueType::V>;

    closed spec fn view(&self) -> Map<IdType::V, ValueType::V> {
        entry_map(self.entries@)
    }
}

impl<IdType: CacheIdentifier, ValueType: View> Cache<IdType, ValueType> {
    /// The key views of the entries, in storage order.
    pub closed spec fn key_seq(&self) -> Seq<IdType::V> {
        entry_keys(self.entries@)
    }

    /// The cache's invariant: entries are strictly sorted by key.
    pub closed spec fn wf(&self) -> bool {
        sorted_strict::<IdType>(self.key_seq())
    }

    /// What every well-formed cache guarantees about its model: the domain is
    /// finite, is exactly the set of stored key views, and the stored keys
    /// are strictly sorted (hence distinct).
    pub proof fn lemma_view_props(&self)
        requires
            self.wf(),
        ensures
            self@.dom().finite(),
            self@.dom().len() == self.key_seq().len(),
            forall|i: int| 0 <= i < self.key_seq().len()
                ==> self@.dom().contains(#[trigger] self.key_seq()[i]),
            forall|kv: IdType::V| #[trigger] self@.dom().contains(kv)
                ==> exists|i: int| 0 <= i < self.key_seq().len() && self.key_seq()[i] == kv,
            sorted_strict::<IdType>(self.key_seq()),
            distinct_views::<IdType>(self.key_seq()),
    {
        lemma_sorted_distinct::<IdType>(self.key_seq());
        lemma_entry_map_dom(self.entries@);
        lemma_entry_keys_facts(self.entries@);
        lemma_seq_len_eq_dom_len::<IdType, ValueType>(self.entries@);
        assert forall|i: int| 0 <= i < self.key_seq().len()
            implies self@.dom().contains(self.key_seq()[i]) by {
            assert(entry_keys(self.entries@)[i] == self.entries@[i].0@);
            assert(entry_keys(self.entries@).contains(entry_keys(self.entries@)[i]));
        }
        assert forall|kv: IdType::V| self@.dom().contains(kv)
            implies exists|i: int|
                0 <= i < self.key_seq().len() && self.key_seq()[i] == kv by {
            assert(entry_keys(self.entries@).contains(kv));
            let i = choose|i: int|
                0 <= i < entry_keys(self.entries@).len() && entry_keys(self.entries@)[i] == kv;
            assert(0 <= i < self.key_seq().len() && self.key_seq()[i] == kv);
        }
    }

    /// The number of entries.
    pub fn len(&self) -> (n: usize)
        ensures
            n == self.key_seq().len(),
            self.wf() ==> n == self@.dom().len(),
    {
        proof {
            if self.wf() {
                self.lemma_view_props();
            }
        }
        self.entries.len()
    }

    /// Whether the cache holds no entries.
    pub fn is_empty(&self) -> (r: bool)
        ensures
            r == (self.key_seq().len() == 0),
            self.wf() ==> r == (self@.dom().len() == 0),
    {
        proof {
            if self.wf() {
                self.lemma_view_props();
            }
        }
        self.entries.len() == 0
    }

    /// Read the entry at position `i` in key order.
    pub fn entry_at(&self, i: usize) -> (r: (&IdType, &ValueType))
        requires
            self.wf(),
            i < self.key_seq().len(),
        ensures
            r.0@ == self.key_seq()[i as int],
            self@.dom().contains(r.0@),
            r.1@ == self@[r.0@],
    {
        proof {
            self.lemma_view_props();
            lemma_entry_map_index(self.entries@, i as int);
        }
        let p = &self.entries[i];
        (&p.0, &p.1)
    }

    /// Look a value up by key.
    pub fn get(&self, id: &IdType) -> (r: Option<&ValueType>)
        requires
            self.wf(),
        ensures
            r is Some <==> self@.dom().contains(id@),
            r matches Some(v) ==> v@ == self@[id@],
    {
        proof {
            self.lemma_view_props();
        }
        let n = self.entries.len();
        let mut i: usize = 0;
        while i < n
            invariant
                self.wf(),
                n == self.key_seq().len(),
                i <= n,
                forall|j: int| 0 <= j < i ==> self.key_seq()[j] != id@,
            decreases n - i,
        {
            let p = &self.entries[i];
            if p.0.eq_key(id) {
                proof {
                    self.lemma_view_props();
                    lemma_entry_map_index(self.entries@, i as int);
                }
                return Some(&p.1);
            }
            proof {
                assert(self.key_seq()[i as int] == self.entries@[i as int].0@);
            }
            i = i + 1;
        }
        proof {
            self.lemma_view_props();
            if self@.dom().contains(id@) {
                let j = choose|j: int|
                    0 <= j < self.key_seq().len() && self.key_seq()[j] == id@;
                assert(false);
            }
        }
        None
    }

    /// Whether a key is present.
    pub fn has_id(&self, id: &IdType) -> (r: bool)
        requires
            self.wf(),
        ensures
            r == self@.dom().contains(id@),
    {
        self.get(id).is_some()
    }

    /// The position of a key in key order, if it is present.
    pub fn index_of(&self, id: &IdType) -> (r: Option<usize>)
        requires
            self.wf(),
        ensures
            r matches Some(i) ==> i < self.key_seq().len()
                && self.key_seq()[i as int] == id@,
            r is Some <==> self@.dom().contains(id@),
    {
        proof {
            self.lemma_view_props();
        }
        let n = self.entries.len();
        let mut i: usize = 0;
        while i < n
            invariant
                self.wf(),
                n == self.key_seq().len(),
                i <= n,
                forall|j: int| 0 <= j < i ==> self.key_seq()[j] != id@,
            decreases n - i,
        {
            let p = &self.entries[i];
            proof {
                lemma_entry_keys_facts(self.entries@);
                assert(self.key_seq()[i as int] == self.entries@[i as int].0@);
            }
            if p.0.eq_key(id) {
                proof {
                    self.lemma_view_props();
                }
                return Some(i);
            }
            i = i + 1;
        }
        proof {
            self.lemma_view_props();
            if self@.dom().contains(id@) {
                let j = choose|j: int|
                    0 <= j < self.key_seq().len() && self.key_seq()[j] == id@;
                assert(false);
            }
        }
        None
    }

    /// The position of the first stored key not below `id`, in key order.
    fn find_at_or_after(&self, id: &IdType) -> (i: usize)
        requires
            self.wf(),
        ensures
            i <= self.key_seq().len(),
            forall|j: int| 0 <= j < i ==> IdType::key_lt(#[trigger] self.key_seq()[j], id@),
            i < self.key_seq().len() ==> !IdType::key_lt(self.key_seq()[i as int], id@),
    {
        proof {
            lemma_entry_keys_facts(self.entries@);
        }
        let n = self.entries.len();
        let mut i: usize = 0;
        while i < n
            invariant
                i <= n,
                n == self.key_seq().len(),
                forall|j: int| 0 <= j < i ==> IdType::key_lt(#[trigger] self.key_seq()[j], id@),
            decreases n - i,
        {
            let p = &self.entries[i];
            proof {
                lemma_entry_keys_facts(self.entries@);
                assert(self.key_seq()[i as int] == self.entries@[i as int].0@);
            }
            if !p.0.lt(id) {
                return i;
            }
            i = i + 1;
        }
        i
    }

    /// Insert a value under a key, returning the value previously stored
    /// under that key, if any.
    pub fn cache(&mut self, id: IdType, value: ValueType) -> (prev: Option<ValueType>)
        requires
            old(self).wf(),
        ensures
            final(self).wf(),
            final(self)@ == old(self)@.insert(id@, value@),
            prev is Some <==> old(self)@.dom().contains(id@),
            prev matches Some(v) ==> v@ == old(self)@[id@],
    {
        proof {
            IdType::lemma_key_order();
            self.lemma_view_props();
            lemma_entry_keys_facts(self.entries@);
        }
        let i = self.find_at_or_after(&id);
        let n = self.entries.len();
        if i < n {
            let hit = self.entries[i].0.eq_key(&id);
            if hit {
                proof {
                    lemma_entry_map_index(self.entries@, i as int);
                }
                let mut taken = value;
                let er = &mut self.entries[i];
                core::mem::swap(&mut er.1, &mut taken);
                proof {
                    let s0 = old(self).entries@;
                    assert(self.entries@ =~= s0.update(i as int, (s0[i as int].0, self.entries@[i as int].1)));
                    lemma_entry_map_update(
                        s0,
                        i as int,
                        (s0[i as int].0, self.entries@[i as int].1),
                    );
                    assert(self.key_seq() =~= old(self).key_seq());
                    assert(s0[i as int].0@ == id@);
                }
                return Some(taken);
            }
        }
        proof {
            // `id` is absent: everything before position `i` is below it and
            // everything from `i` on is above it.
            let ks = self.key_seq();
            assert forall|j: int| i <= j < ks.len()
                implies IdType::key_lt(id@, #[trigger] ks[j]) by {
                if i < ks.len() {
                    assert(self.entries@[i as int].0@ == ks[i as int]);
                    assert(!IdType::key_lt(ks[i as int], id@));
                    assert(self.entries@[i as int].0@ != id@);
                    assert(IdType::key_lt(id@, ks[i as int]));
                    if j > i {
                        assert(IdType::key_lt(ks[i as int], ks[j]));
                    }
                }
            }
            if entry_keys(self.entries@).contains(id@) {
                let j = choose|j: int|
                    0 <= j < entry_keys(self.entries@).len()
                        && entry_keys(self.entries@)[j] == id@;
                assert(ks[j] == id@);
                if j < i {
                    assert(IdType::key_lt(ks[j], id@));
                } else {
                    assert(IdType::key_lt(id@, ks[j]));
                }
                assert(false);
            }
        }
        let ghost s0 = self.entries@;
        let ghost ks0 = self.key_seq();
        self.entries.insert(i, (id, value));
        proof {
            lemma_entry_map_insert(s0, i as int, (id, value));
            lemma_entry_keys_facts(s0);
            lemma_entry_keys_facts(self.entries@);
            assert(entry_keys(self.entries@) =~= entry_keys(s0).insert(i as int, id@));
            let ks = self.key_seq();
            assert forall|a: int, b: int| 0 <= a < b < ks.len()
                implies IdType::key_lt(ks[a], ks[b]) by {
                if b < i {
                    assert(ks[a] == ks0[a] && ks[b] == ks0[b]);
                } else if a > i {
                    assert(ks[a] == ks0[a - 1] && ks[b] == ks0[b - 1]);
                } else if a == i && b > i {
                    assert(ks[a] == id@ && ks[b] == ks0[b - 1]);
                } else if b == i && a < i {
                    assert(ks[a] == ks0[a] && ks[b] == id@);
                } else {
                    // a < i < b
                    assert(ks[a] == ks0[a] && ks[b] == ks0[b - 1]);
                    assert(IdType::key_lt(ks0[a], id@));
                    assert(IdType::key_lt(id@, ks0[b - 1]));
                }
            }
            lemma_entry_map_dom(s0);
            assert(!old(self)@.dom().contains(id@));
        }
        None
    }

    /// Remove the entry under a key, returning its value, if any.
    pub fn remove(&mut self, id: &IdType) -> (r: Option<ValueType>)
        requires
            old(self).wf(),
        ensures
            final(self).wf(),
            final(self)@ == old(self)@.remove(id@),
            r is Some <==> old(self)@.dom().contains(id@),
            r matches Some(v) ==> v@ == old(self)@[id@],
    {
        proof {
            IdType::lemma_key_order();
            self.lemma_view_props();
            lemma_entry_keys_facts(self.entries@);
        }
        let i = self.find_at_or_after(id);
        let n = self.entries.len();
        if i < n {
            let hit = self.entries[i].0.eq_key(id);
            if hit {
                proof {
                    lemma_entry_map_index(self.entries@, i as int);
                    lemma_entry_map_remove(self.entries@, i as int);
                }
                let ghost s0 = self.entries@;
                let ghost ks0 = self.key_seq();
                let p = self.entries.remove(i);
                proof {
                    lemma_entry_keys_facts(s0);
                    lemma_entry_keys_facts(self.entries@);
                    assert(entry_keys(self.entries@) =~= entry_keys(s0).remove(i as int));
                    let ks = self.key_seq();
                    assert forall|a: int, b: int| 0 <= a < b < ks.len()
                        implies IdType::key_lt(ks[a], ks[b]) by {
                        if a < i {
                            assert(ks[a] == ks0[a]);
                        } else {
                            assert(ks[a] == ks0[a + 1]);
                        }
                        if b < i {
                            assert(ks[b] == ks0[b]);
                        } else {
                            assert(ks[b] == ks0[b + 1]);
                        }
                    }
                    assert(s0[i as int].0@ == id@);
                }
                return Some(p.1);
            }
        }
        proof {
            // `id` is absent, so removing it changes nothing.
            let ks = self.key_seq();
            if self@.dom().contains(id@) {
                let j = choose|j: int| 0 <= j < ks.len() && ks[j] == id@;
                if j < i {
                    assert(IdType::key_lt(ks[j], id@));
                } else {
                    assert(self.entries@[i as int].0@ == ks[i as int]);
                    assert(!IdType::key_lt(ks[i as int], id@));
                    assert(ks[i as int] != id@);
                    assert(IdType::key_lt(id@, ks[i as int]));
                    if j > i {
                        assert(IdType::key_lt(ks[i as int], ks[j]));
                    }
                }
                assert(false);
            }
            assert(self@.remove(id@) =~= self@);
        }
        None
    }

    /// Drop every entry.
    pub fn clear(&mut self)
        ensures
            final(self).wf(),
            final(self)@ == Map::<IdType::V, ValueType::V>::empty(),
            final(self).key_seq() == Seq::<IdType::V>::empty(),
    {
        self.entries.clear();
        proof {
            assert(self.key_seq() =~= Seq::<IdType::V>::empty());
        }
    }

    /// Absorb another cache; entries from `other` overwrite same-keyed
    /// entries already present.
    pub fn merge_with(&mut self, other: Cache<IdType, ValueType>)
        requires
            old(self).wf(),
            other.wf(),
        ensures
            final(self).wf(),
            final(self)@ == old(self)@.union_prefer_right(other@),
    {
        let mut rest = other;
        let ghost oth = rest.entries@;
        let ghost k0: int = 0;
        let ghost k = k0;
        proof {
            assert(rest.entries@ =~= oth.subrange(k, oth.len() as int));
            assert(self@ =~= old(self)@.union_prefer_right(entry_map(oth.subrange(0, k))));
        }
        while rest.entries.len() > 0
            invariant
                self.wf(),
                0 <= k <= oth.len(),
                rest.entries@ =~= oth.subrange(k, oth.len() as int),
                self@ == old(self)@.union_prefer_right(entry_map(oth.subrange(0, k))),
            decreases rest.entries@.len(),
    // popping from the front keeps `entry_map` growing in storage order
        {
            let ghost prefix = oth.subrange(0, k);
            let p = rest.entries.remove(0);
            proof {
                assert(p == oth[k]);
                assert(rest.entries@ =~= oth.subrange(k + 1, oth.len() as int));
            }
            let prev = self.cache(p.0, p.1);
            proof {
                k = k + 1;
                lemma_entry_map_push(prefix, oth[k - 1]);
                assert(prefix.push(oth[k - 1]) =~= oth.subrange(0, k));
                assert(self@ =~= old(self)@.union_prefer_right(entry_map(oth.subrange(0, k))));
            }
        }
        proof {
            assert(oth.subrange(0, oth.len() as int) =~= oth);
            assert(self@ =~= old(self)@.union_prefer_right(other@));
        }
    }

    /// Keep only the entries the predicate approves; every surviving entry
    /// keeps its value, and the predicate's verdict on the stored key and
    /// value decides survival.
    pub fn retain<F: Fn(&IdType, &ValueType) -> bool>(&mut self, f: F)
        requires
            old(self).wf(),
            forall|k: IdType, v: ValueType| #[trigger] call_requires(f, (&k, &v)),
        ensures
            final(self).wf(),
            forall|kv: IdType::V| #[trigger] final(self)@.dom().contains(kv)
                ==> old(self)@.dom().contains(kv) && final(self)@[kv] == old(self)@[kv],
            forall|kv: IdType::V|
                old(self)@.dom().contains(kv) && #[trigger] final(self)@.dom().contains(kv)
                    ==> exists|k: IdType, v: ValueType|
                        k@ == kv && v@ == old(self)@[kv] && call_ensures(f, (&k, &v), true),
            forall|kv: IdType::V|
                #[trigger] old(self)@.dom().contains(kv) && !final(self)@.dom().contains(kv)
                    ==> exists|k: IdType, v: ValueType|
                        k@ == kv && v@ == old(self)@[kv] && call_ensures(f, (&k, &v), false),
    {
        proof {
            IdType::lemma_key_order();
            self.lemma_view_props();
            lemma_entry_keys_facts(self.entries@);
        }
        let ghost s0 = self.entries@;
        let mut kept: Vec<(IdType, ValueType)> = Vec::new();
        let ghost k: int = 0;
        proof {
            assert(self.entries@ =~= s0.subrange(k, s0.len() as int));
        }
        while self.entries.len() > 0
            invariant
                forall|kk: IdType, vv: ValueType| #[trigger] call_requires(f, (&kk, &vv)),
                0 <= k <= s0.len(),
                self.entries@ =~= s0.subrange(k, s0.len() as int),
                sorted_strict::<IdType>(entry_keys(s0)),
                distinct_views::<IdType>(entry_keys(s0)),
                forall|i: int| 0 <= i < s0.len() ==> #[trigger] entry_keys(s0)[i] == s0[i].0@,
                forall|a: int| 0 <= a < kept@.len()
                    ==> exists|j: int| 0 <= j < k && #[trigger] kept@[a] == s0[j],
                sorted_strict::<IdType>(entry_keys(kept@)),
                forall|a: int, j: int| 0 <= a < kept@.len() && k <= j < s0.len()
                    ==> IdType::key_lt(#[trigger] entry_keys(kept@)[a], #[trigger] s0[j].0@),
                forall|j: int|
                    0 <= j < k && entry_map(kept@).dom().contains(#[trigger] s0[j].0@)
                        ==> exists|kk: IdType, vv: ValueType|
                            kk@ == s0[j].0@ && vv@ == s0[j].1@
                                && call_ensures(f, (&kk, &vv), true),
                forall|j: int|
                    0 <= j < k && !entry_map(kept@).dom().contains(#[trigger] s0[j].0@)
                        ==> exists|kk: IdType, vv: ValueType|
                            kk@ == s0[j].0@ && vv@ == s0[j].1@
                                && call_ensures(f, (&kk, &vv), false),
            decreases self.entries@.len(),
        {
            let ghost kept0 = kept@;
            let p = self.entries.remove(0);
            proof {
                IdType::lemma_key_order();
                assert(p == s0[k]);
                assert(self.entries@ =~= s0.subrange(k + 1, s0.len() as int));
                lemma_entry_keys_facts(kept0);
                lemma_entry_map_dom(kept0);
            }
            let keep = f(&p.0, &p.1);
            if keep {
                kept.push(p);
                proof {
                    lemma_entry_map_push(kept0, s0[k]);
                    lemma_entry_keys_facts(kept@);
                    lemma_entry_map_dom(kept@);
                    assert(kept@ =~= kept0.push(s0[k]));
                    assert(entry_keys(kept@) =~= entry_keys(kept0).push(s0[k].0@));
                    // the new key is above every kept key and below every
                    // remaining key
                    assert forall|a: int, b: int| 0 <= a < b < kept@.len()
                        implies IdType::key_lt(entry_keys(kept@)[a], entry_keys(kept@)[b]) by {
                        if b < kept@.len() - 1 {
                            assert(entry_keys(kept@)[a] == entry_keys(kept0)[a]);
                            assert(entry_keys(kept@)[b] == entry_keys(kept0)[b]);
                        } else {
                            assert(entry_keys(kept@)[a] == entry_keys(kept0)[a]);
                            assert(entry_keys(kept@)[b] == s0[k].0@);
                        }
                    }
                    assert forall|a: int, j: int|
                        0 <= a < kept@.len() && k + 1 <= j < s0.len()
                        implies IdType::key_lt(entry_keys(kept@)[a], s0[j].0@) by {
                        if a < kept@.len() - 1 {
                            assert(entry_keys(kept@)[a] == entry_keys(kept0)[a]);
                        } else {
                            assert(entry_keys(kept@)[a] == s0[k].0@);
                            assert(entry_keys(s0)[k] == s0[k].0@);
                            assert(entry_keys(s0)[j] == s0[j].0@);
                            assert(IdType::key_lt(entry_keys(s0)[k], entry_keys(s0)[j]));
                        }
                    }
                    // decisions stay recorded: only the key of position `k`
                    // joined the kept map
                    assert forall|j: int| 0 <= j < k + 1
                        implies (entry_map(kept@).dom().contains(s0[j].0@)
                            == (j == k || entry_map(kept0).dom().contains(s0[j].0@))) by {
                        assert(entry_map(kept@) == entry_map(kept0).insert(s0[k].0@, s0[k].1@));
                        if j < k {
                            assert(entry_keys(s0)[j] != entry_keys(s0)[k]);
                            assert(s0[j].0@ != s0[k].0@);
                        }
                    }
                    k = k + 1;
                }
            } else {
                proof {
                    // the dropped key never entered the kept map
                    assert forall|j: int| 0 <= j < k + 1
                        implies (entry_map(kept@).dom().contains(s0[j].0@)
                            == (j != k && entry_map(kept0).dom().contains(s0[j].0@))) by {
                        if j == k {
                            if entry_keys(kept0).contains(s0[k].0@) {
                                let a = choose|a: int|
                                    0 <= a < entry_keys(kept0).len()
                                        && entry_keys(kept0)[a] == s0[k].0@;
                                assert(IdType::key_lt(entry_keys(kept0)[a], s0[k].0@));
                                assert(!IdType::key_lt(s0[k].0@, s0[k].0@));
                                assert(false);
                            }
                        }
                    }
                    k = k + 1;
                }
            }
        }
        let ghost keptg = kept@;
        self.entries = kept;
        proof {
            IdType::lemma_key_order();
            assert(k == s0.len());
            assert(self.entries@ == keptg);
            lemma_entry_keys_facts(keptg);
            lemma_entry_map_dom(keptg);
            lemma_entry_map_dom(s0);
            lemma_sorted_distinct::<IdType>(entry_keys(keptg));
            // surviving entries keep their old values
            assert forall|kv: IdType::V| #[trigger] self@.dom().contains(kv)
                implies old(self)@.dom().contains(kv) && self@[kv] == old(self)@[kv] by {
                assert(entry_keys(keptg).contains(kv));
                let a = choose|a: int|
                    0 <= a < entry_keys(keptg).len() && entry_keys(keptg)[a] == kv;
                lemma_entry_map_index(keptg, a);
                assert(keptg[a].0@ == kv);
                let j = choose|j: int| 0 <= j < k && keptg[a] == s0[j];
                lemma_entry_map_index(s0, j);
                assert(entry_keys(s0)[j] == s0[j].0@);
                assert(entry_keys(s0).contains(kv));
            }
            // and the recorded verdicts transfer to the map's key views
            assert forall|kv: IdType::V|
                old(self)@.dom().contains(kv) && self@.dom().contains(kv)
                implies exists|kk: IdType, vv: ValueType|
                    kk@ == kv && vv@ == old(self)@[kv]
                        && call_ensures(f, (&kk, &vv), true) by {
                assert(entry_keys(s0).contains(kv));
                let j = choose|j: int|
                    0 <= j < entry_keys(s0).len() && entry_keys(s0)[j] == kv;
                assert(s0[j].0@ == kv);
                lemma_entry_map_index(s0, j);
                assert(old(self)@[kv] == s0[j].1@);
                let (kk, vv) = choose|kk: IdType, vv: ValueType|
                    kk@ == s0[j].0@ && vv@ == s0[j].1@ && call_ensures(f, (&kk, &vv), true);
                assert(kk@ == kv && vv@ == old(self)@[kv] && call_ensures(f, (&kk, &vv), true));
            }
            assert forall|kv: IdType::V|
                old(self)@.dom().contains(kv) && !self@.dom().contains(kv)
                implies exists|kk: IdType, vv: ValueType|
                    kk@ == kv && vv@ == old(self)@[kv]
                        && call_ensures(f, (&kk, &vv), false) by {
                assert(entry_keys(s0).contains(kv));
                let j = choose|j: int|
                    0 <= j < entry_keys(s0).len() && entry_keys(s0)[j] == kv;
                assert(s0[j].0@ == kv);
                lemma_entry_map_index(s0, j);
                assert(old(self)@[kv] == s0[j].1@);
                let (kk, vv) = choose|kk: IdType, vv: ValueType|
                    kk@ == s0[j].0@ && vv@ == s0[j].1@ && call_ensures(f, (&kk, &vv), false);
                assert(kk@ == kv && vv@ == old(self)@[kv] && call_ensures(f, (&kk, &vv), false));
            }
        }
    }

    /// Borrow the value at position `i` in key order for mutation; the keys,
    /// their order, and every other entry stay as they were.
    pub fn value_at_mut(&mut self, i: usize) -> (r: &mut ValueType)
        requires
            old(self).wf(),
            i < old(self).key_seq().len(),
        ensures
            (*r)@ == old(self)@[old(self).key_seq()[i as int]],
            final(self).wf(),
            final(self).key_seq() == old(self).key_seq(),
            final(self)@ == old(self)@.insert(old(self).key_seq()[i as int], (*final(r))@),
    {
        proof {
            self.lemma_view_props();
            lemma_entry_keys_facts(self.entries@);
            lemma_entry_map_index(self.entries@, i as int);
            let s0 = self.entries@;
            assert forall|nv: ValueType|
                #[trigger] entry_map(s0.update(i as int, (s0[i as int].0, nv)))
                    =~= entry_map(s0).insert(s0[i as int].0@, nv@)
                && entry_keys(s0.update(i as int, (s0[i as int].0, nv))) =~= entry_keys(s0) by {
                lemma_entry_map_update(s0, i as int, (s0[i as int].0, nv));
            }
            assert forall|nv: ValueType|
                sorted_strict::<IdType>(
                    #[trigger] entry_keys(s0.update(i as int, (s0[i as int].0, nv)))) by {
                lemma_entry_map_update(s0, i as int, (s0[i as int].0, nv));
                assert(entry_keys(s0.update(i as int, (s0[i as int].0, nv)))
                    =~= entry_keys(s0));
            }
        }
        &mut self.entries[i].1
    }
}

/// With distinct keys, the map is as large as the entry sequence.
proof fn lemma_seq_len_eq_dom_len<K: CacheIdentifier, V: View>(s: Seq<(K, V)>)
    requires
        distinct_views::<K>(entry_keys(s)),
    ensures
        entry_map(s).dom().len() == s.len(),
    decreases s.len(),
{
    lemma_entry_keys_facts(s);
    lemma_entry_map_dom(s);
    if s.len() > 0 {
        lemma_entry_keys_drop_last(s);
        lemma_seq_len_eq_dom_len(s.drop_last());
        lemma_entry_map_dom(s.drop_last());
        lemma_entry_keys_facts(s.drop_last());
        if entry_keys(s.drop_last()).contains(s.last().0@) {
            let j = choose|j: int|
                0 <= j < entry_keys(s.drop_last()).len()
                    && entry_keys(s.drop_last())[j] == s.last().0@;
            assert(s.drop_last()[j] == s[j]);
            assert(entry_keys(s)[j] == s.last().0@);
            assert(entry_keys(s)[s.len() - 1] == s.last().0@);
            assert(false);
        }
        assert(!entry_map(s.drop_last()).dom().contains(s.last().0@));
        assert(entry_map(s).dom() =~= entry_map(s.drop_last()).dom().insert(s.last().0@));
    } else {
        assert(entry_map(s).dom() =~= Set::<K::V>::empty());
    }
}

impl<IdType: CacheIdentifier, ValueType: View> Default for Cache<IdType, ValueType> {
    /// An empty cache.
    fn default() -> (r: Self)
        ensures
            r.wf(),
            r@ == Map::<IdType::V, ValueType::V>::empty(),
            r.key_seq() == Seq::<IdType::V>::empty(),
    {
        let c = Cache { entries: Vec::new() };
        proof {
            assert(c.key_seq() =~= Seq::<IdType::V>::empty());
        }
        c
    }
}

} // verus!
