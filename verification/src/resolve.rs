//! The iterative dependency-resolution algorithm and its capability traits.
//!
//! A cached value may hold references to other entries ([`super::cache::CacheReference`]).
//! The algorithm repeatedly (a) scans a frontier of entries for references to
//! keys not yet cached, (b) optionally fetches those keys, (c) rewrites every
//! entry's references to reflect which targets are now present, and (d)
//! reports, per rewritten entry, the signed number of references that changed
//! state, so callers can maintain derived counters without recomputation.

use vstd::prelude::*;

use crate::cache::{Cache, sorted_strict};
use crate::order::CacheIdentifier;

verus! {

/// The most references a single value may hold for its reference counts to
/// be representable on every supported machine.
pub const REFS_BOUND: usize = 0x7fff_ffff;

/// A small set of keys, used for frontiers and discovery candidates.
pub struct KeySet<IdType: CacheIdentifier> {
    items: Vec<IdType>,
}

impl<IdType: CacheIdentifier> View for KeySet<IdType> {
    type V = Set<IdType::V>;

    closed spec fn view(&self) -> Set<IdType::V> {
        Set::new(|kv: IdType::V|
            exists|i: int| 0 <= i < self.items@.len() && self.items@[i]@ == kv)
    }
}

impl<IdType: CacheIdentifier> KeySet<IdType> {
    /// The stored key views, in insertion order.
    pub closed spec fn items_seq(&self) -> Seq<IdType::V> {
        self.items@.map_values(|k: IdType| k@)
    }

    /// Every stored key view is a member, and every member is stored.
    pub proof fn lemma_members(&self)
        ensures
            forall|i: int| 0 <= i < self.items_seq().len()
                ==> self@.contains(#[trigger] self.items_seq()[i]),
            forall|kv: IdType::V| #[trigger] self@.contains(kv)
                ==> exists|i: int|
                    0 <= i < self.items_seq().len() && self.items_seq()[i] == kv,
    {
        assert forall|i: int| 0 <= i < self.items_seq().len()
            implies self@.contains(self.items_seq()[i]) by {
            assert(self.items_seq()[i] == self.items@[i]@);
        }
        assert forall|kv: IdType::V| self@.contains(kv)
            implies exists|i: int|
                0 <= i < self.items_seq().len() && self.items_seq()[i] == kv by {
            let i = choose|i: int| 0 <= i < self.items@.len() && self.items@[i]@ == kv;
            assert(self.items_seq()[i] == kv);
        }
    }

    /// An empty key set.
    pub fn new() -> (r: Self)
        ensures
            r@ == Set::<IdType::V>::empty(),
            r.items_seq() == Seq::<IdType::V>::empty(),
    {
        let r = KeySet { items: Vec::new() };
        proof {
            assert(r@ =~= Set::<IdType::V>::empty());
            assert(r.items_seq() =~= Seq::<IdType::V>::empty());
        }
        r
    }

    /// How many keys are stored.
    pub fn count(&self) -> (n: usize)
        ensures
            n == self.items_seq().len(),
    {
        self.items.len()
    }

    /// Whether the set has no members.
    pub fn is_empty(&self) -> (r: bool)
        ensures
            r == (self@ == Set::<IdType::V>::empty()),
    {
        let n = self.items.len();
        proof {
            if n == 0 {
                assert(self@ =~= Set::<IdType::V>::empty());
            } else {
                assert(self@.contains(self.items@[0]@));
            }
        }
        n == 0
    }

    /// Read the key at position `i`.
    pub fn item_at(&self, i: usize) -> (r: &IdType)
        requires
            i < self.items_seq().len(),
        ensures
            r@ == self.items_seq()[i as int],
            self@.contains(r@),
    {
        proof {
            assert(self.items_seq()[i as int] == self.items@[i as int]@);
        }
        &self.items[i]
    }

    /// Whether a key's view is a member.
    pub fn contains(&self, id: &IdType) -> (r: bool)
        ensures
            r == self@.contains(id@),
    {
        let n = self.items.len();
        let mut i: usize = 0;
        while i < n
            invariant
                i <= n,
                n == self.items@.len(),
                forall|j: int| 0 <= j < i ==> self.items@[j]@ != id@,
            decreases n - i,
        {
            if self.items[i].eq_key(id) {
                proof {
                    assert(self.items@[i as int]@ == id@);
                }
                return true;
            }
            i = i + 1;
        }
        proof {
            if self@.contains(id@) {
                let j = choose|j: int| 0 <= j < self.items@.len() && self.items@[j]@ == id@;
                assert(false);
            }
        }
        false
    }

    /// Add a key; adding a member again changes nothing.
    pub fn insert(&mut self, id: IdType)
        ensures
            final(self)@ == old(self)@.insert(id@),
    {
        let present = self.contains(&id);
        if !present {
            let ghost s0 = self.items@;
            self.items.push(id);
            proof {
                assert forall|kv: IdType::V|
                    self@.contains(kv) == old(self)@.insert(id@).contains(kv) by {
                    if self@.contains(kv) {
                        let i = choose|i: int|
                            0 <= i < self.items@.len() && self.items@[i]@ == kv;
                        if i < s0.len() {
                            assert(s0[i]@ == kv);
                        }
                    }
                    if old(self)@.contains(kv) {
                        let i = choose|i: int| 0 <= i < s0.len() && s0[i]@ == kv;
                        assert(self.items@[i]@ == kv);
                    }
                    if kv == id@ {
                        assert(self.items@[s0.len() as int]@ == kv);
                    }
                }
                assert(self@ =~= old(self)@.insert(id@));
            }
        } else {
            proof {
                assert(self@ =~= old(self)@.insert(id@));
            }
        }
    }

    /// Absorb another key set.
    pub fn extend(&mut self, other: KeySet<IdType>)
        ensures
            final(self)@ == old(self)@.union(other@),
    {
        let mut rest = other;
        let ghost oth = rest.items@;
        let ghost k: int = 0;
        proof {
            assert(rest.items@ =~= oth.subrange(k, oth.len() as int));
            assert(self@ =~= old(self)@.union(set_of_prefix::<IdType>(oth, k)));
        }
        while rest.items.len() > 0
            invariant
                0 <= k <= oth.len(),
                rest.items@ =~= oth.subrange(k, oth.len() as int),
                self@ == old(self)@.union(set_of_prefix::<IdType>(oth, k)),
            decreases rest.items@.len(),
        {
            let id = rest.items.remove(0);
            proof {
                assert(id == oth[k]);
                assert(rest.items@ =~= oth.subrange(k + 1, oth.len() as int));
            }
            self.insert(id);
            proof {
                k = k + 1;
                assert(set_of_prefix::<IdType>(oth, k)
                    =~= set_of_prefix::<IdType>(oth, k - 1).insert(oth[k - 1]@));
                assert(self@ =~= old(self)@.union(set_of_prefix::<IdType>(oth, k)));
            }
        }
        proof {
            assert(set_of_prefix::<IdType>(oth, oth.len() as int) =~= other@);
            assert(self@ =~= old(self)@.union(other@));
        }
    }
}

/// The key views among the first `k` keys of a sequence.
spec fn set_of_prefix<K: CacheIdentifier>(s: Seq<K>, k: int) -> Set<K::V> {
    Set::new(|kv: K::V| exists|i: int| 0 <= i < k && i < s.len() && s[i]@ == kv)
}

/// How many references in a sequence are tagged unknown.
pub open spec fn unknown_count<KV>(refs: Seq<(KV, bool)>) -> int
    decreases refs.len(),
{
    if refs.len() == 0 {
        0
    } else {
        unknown_count(refs.drop_last()) + if refs.last().1 { 0int } else { 1int }
    }
}

/// Whether some reference in the sequence is `kv` tagged unknown.
pub open spec fn has_unknown_key<KV>(refs: Seq<(KV, bool)>, kv: KV) -> bool {
    exists|i: int| 0 <= i < refs.len() && refs[i] == (kv, false)
}

/// The keys of all references tagged unknown.
pub open spec fn unknown_key_set<KV>(refs: Seq<(KV, bool)>) -> Set<KV> {
    Set::new(|kv: KV| has_unknown_key(refs, kv))
}

/// Every reference's tag says exactly whether its key is in `known`.
pub open spec fn refs_agree<KV>(refs: Seq<(KV, bool)>, known: Set<KV>) -> bool {
    forall|i: int| 0 <= i < refs.len()
        ==> (#[trigger] refs[i]).1 == known.contains(refs[i].0)
}

/// Two reference sequences name the same keys in the same order.
pub open spec fn same_ref_keys<KV>(a: Seq<(KV, bool)>, b: Seq<(KV, bool)>) -> bool {
    a.len() == b.len() && forall|i: int| 0 <= i < a.len()
        ==> (#[trigger] a[i]).0 == b[i].0
}

/// The unknown count is between zero and the number of references.
pub proof fn lemma_unknown_count_bounds<KV>(refs: Seq<(KV, bool)>)
    ensures
        0 <= unknown_count(refs) <= refs.len(),
    decreases refs.len(),
{
    if refs.len() > 0 {
        lemma_unknown_count_bounds(refs.drop_last());
    }
}

/// No unknown references is the same as every tag being `Cached`.
pub proof fn lemma_unknown_count_zero<KV>(refs: Seq<(KV, bool)>)
    ensures
        (unknown_count(refs) == 0) <==> (forall|i: int|
            0 <= i < refs.len() ==> (#[trigger] refs[i]).1),
    decreases refs.len(),
{
    if refs.len() > 0 {
        lemma_unknown_count_zero(refs.drop_last());
        lemma_unknown_count_bounds(refs.drop_last());
        if unknown_count(refs) == 0 {
            assert forall|i: int| 0 <= i < refs.len() implies (refs[i]).1 by {
                if i < refs.len() - 1 {
                    assert(refs.drop_last()[i] == refs[i]);
                } else {
                    assert(refs.last() == refs[i]);
                }
            }
        } else {
            if forall|i: int| 0 <= i < refs.len() ==> (#[trigger] refs[i]).1 {
                assert forall|i: int| 0 <= i < refs.len() - 1
                    implies (refs.drop_last()[i]).1 by {
                    assert(refs.drop_last()[i] == refs[i]);
                }
                assert(refs.last().1);
                assert(false);
            }
        }
    }
}

/// Unknown counts add up over concatenation.
pub proof fn lemma_unknown_count_concat<KV>(a: Seq<(KV, bool)>, b: Seq<(KV, bool)>)
    ensures
        unknown_count(a + b) == unknown_count(a) + unknown_count(b),
    decreases b.len(),
{
    if b.len() == 0 {
        assert(a + b =~= a);
    } else {
        lemma_unknown_count_concat(a, b.drop_last());
        assert((a + b).drop_last() =~= a + b.drop_last());
        assert((a + b).last() == b.last());
    }
}

/// Unknown key sets join over concatenation.
pub proof fn lemma_unknown_set_concat<KV>(a: Seq<(KV, bool)>, b: Seq<(KV, bool)>)
    ensures
        unknown_key_set(a + b) == unknown_key_set(a).union(unknown_key_set(b)),
{
    assert forall|kv: KV|
        unknown_key_set(a + b).contains(kv)
            == unknown_key_set(a).union(unknown_key_set(b)).contains(kv) by {
        if has_unknown_key(a + b, kv) {
            let i = choose|i: int| 0 <= i < (a + b).len() && (a + b)[i] == (kv, false);
            if i < a.len() {
                assert(a[i] == (kv, false));
            } else {
                assert(b[i - a.len()] == (kv, false));
            }
        }
        if has_unknown_key(a, kv) {
            let i = choose|i: int| 0 <= i < a.len() && a[i] == (kv, false);
            assert((a + b)[i] == (kv, false));
        }
        if has_unknown_key(b, kv) {
            let i = choose|i: int| 0 <= i < b.len() && b[i] == (kv, false);
            assert((a + b)[a.len() + i] == (kv, false));
        }
    }
    assert(unknown_key_set(a + b)
        =~= unknown_key_set(a).union(unknown_key_set(b)));
}

/// Key preservation and tag agreement both split over concatenation.
pub proof fn lemma_refs_concat<KV>(
    a1: Seq<(KV, bool)>,
    a2: Seq<(KV, bool)>,
    b1: Seq<(KV, bool)>,
    b2: Seq<(KV, bool)>,
    known: Set<KV>,
)
    requires
        same_ref_keys(a1, b1),
        same_ref_keys(a2, b2),
    ensures
        same_ref_keys(a1 + a2, b1 + b2),
        refs_agree(b1, known) && refs_agree(b2, known) ==> refs_agree(b1 + b2, known),
{
    assert forall|i: int| 0 <= i < (a1 + a2).len()
        implies ((a1 + a2)[i]).0 == ((b1 + b2)[i]).0 by {
        if i < a1.len() {
            assert((a1 + a2)[i] == a1[i] && (b1 + b2)[i] == b1[i]);
        } else {
            assert((a1 + a2)[i] == a2[i - a1.len()]
                && (b1 + b2)[i] == b2[i - a1.len()]);
        }
    }
    if refs_agree(b1, known) && refs_agree(b2, known) {
        assert forall|i: int| 0 <= i < (b1 + b2).len()
            implies ((b1 + b2)[i]).1 == known.contains(((b1 + b2)[i]).0) by {
            if i < b1.len() {
                assert((b1 + b2)[i] == b1[i]);
            } else {
                assert((b1 + b2)[i] == b2[i - b1.len()]);
            }
        }
    }
}

/// An entry with unknown references has one of their keys in its unknown set;
/// an entry with none has an empty unknown set.
pub proof fn lemma_unknown_set_vs_count<KV>(refs: Seq<(KV, bool)>)
    ensures
        (unknown_key_set(refs) == Set::<KV>::empty()) <==> (unknown_count(refs) == 0),
{
    lemma_unknown_count_zero(refs);
    if unknown_key_set(refs) == Set::<KV>::empty() {
        assert forall|i: int| 0 <= i < refs.len() implies (refs[i]).1 by {
            if !(refs[i]).1 {
                assert(refs[i] == ((refs[i]).0, false));
                assert(has_unknown_key(refs, (refs[i]).0));
                assert(unknown_key_set(refs).contains((refs[i]).0));
            }
        }
    }
    if unknown_count(refs) == 0 {
        assert forall|kv: KV| !unknown_key_set(refs).contains(kv) by {
            if has_unknown_key(refs, kv) {
                let i = choose|i: int| 0 <= i < refs.len() && refs[i] == (kv, false);
                assert((refs[i]).1);
                assert(false);
            }
        }
        assert(unknown_key_set(refs) =~= Set::<KV>::empty());
    }
}

/// A value that embeds references to other entries: the resolution algorithm
/// reads which referenced keys are still unknown and re-tags references when
/// the set of cached keys changes.
pub trait RelationalEntry<IdType: CacheIdentifier>: View + Sized {
    /// Every reference embedded in a value with this view, in order: the
    /// referenced key's view paired with whether it is believed cached.
    spec fn refs_of(v: Self::V) -> Seq<(IdType::V, bool)>;

    /// The value with every reference tag cleared.  Two values equal under
    /// `erase_tags` differ at most in their reference tags; it is the frame
    /// of `update_unknown_references`, which may change nothing else.
    spec fn erase_tags(v: Self::V) -> Self::V;

    /// The keys of all references still tagged unknown, de-duplicated.
    fn get_unknown_relations(&self) -> (r: KeySet<IdType>)
        ensures
            r@ == unknown_key_set(Self::refs_of(self@)),
    ;

    /// Re-tag every reference `Cached` exactly when its key is in `known`,
    /// and return the net change: references that became known minus
    /// references that became unknown.  Nothing but the tags changes; a
    /// value whose tags already agree with `known` is left untouched.
    fn update_unknown_references(&mut self, known: &KeySet<IdType>) -> (delta: isize)
        requires
            Self::refs_of(old(self)@).len() <= REFS_BOUND as int,
        ensures
            same_ref_keys(Self::refs_of(old(self)@), Self::refs_of(final(self)@)),
            refs_agree(Self::refs_of(final(self)@), known@),
            Self::erase_tags(final(self)@) == Self::erase_tags(old(self)@),
            delta as int == unknown_count(Self::refs_of(old(self)@))
                - unknown_count(Self::refs_of(final(self)@)),
            refs_agree(Self::refs_of(old(self)@), known@) ==> final(self)@ == old(self)@,
    ;

    /// The number of references currently tagged unknown, without allocating
    /// the key set.
    fn get_unknown_relations_count(&self) -> (n: usize)
        requires
            Self::refs_of(self@).len() <= REFS_BOUND as int,
        ensures
            n as int == unknown_count(Self::refs_of(self@)),
    ;
}

/// A source of values: given only a key, produce the full value, or a
/// description of why it could not be produced.  The mechanism (HTTP, disk,
/// anything) is the implementor's business; a failure is local to one key and
/// never aborts a resolution run.  The one promise an implementor makes is
/// that a produced value holds at most [`REFS_BOUND`] references.
pub trait ResolvableEntry<IdType: CacheIdentifier, ValueType: RelationalEntry<IdType>> {
    /// Query the value for `id`.
    fn get_value(&self, id: IdType) -> (r: Result<ValueType, String>)
        ensures
            r matches Ok(v) ==> ValueType::refs_of(v@).len() <= REFS_BOUND as int,
    ;
}

/// Every value in the map keeps its reference count representable.
pub open spec fn entries_bounded<K: CacheIdentifier, V: RelationalEntry<K>>(
    m: Map<K::V, V::V>,
) -> bool {
    forall|kv: K::V| #[trigger] m.dom().contains(kv)
        ==> V::refs_of(m[kv]).len() <= REFS_BOUND as int
}

/// Every reference tag in the map is truthful: `Cached` exactly when the
/// referenced key is a key of the map.
pub open spec fn tags_consistent<K: CacheIdentifier, V: RelationalEntry<K>>(
    m: Map<K::V, V::V>,
) -> bool {
    forall|kv: K::V| #[trigger] m.dom().contains(kv)
        ==> refs_agree(V::refs_of(m[kv]), m.dom())
}

/// No entry holds a reference tagged unknown.
pub open spec fn no_unknowns<K: CacheIdentifier, V: RelationalEntry<K>>(
    m: Map<K::V, V::V>,
) -> bool {
    forall|kv: K::V| #[trigger] m.dom().contains(kv)
        ==> unknown_count(V::refs_of(m[kv])) == 0
}

/// The fetcher produced, for a key with view `kv`, an accepted `Ok` outcome
/// whose value is the one the map holds under `kv`.
pub open spec fn fetched_ok<K: CacheIdentifier, V: RelationalEntry<K>, F: ResolvableEntry<K, V>>(
    fetcher: &F,
    kv: K::V,
    m: Map<K::V, V::V>,
) -> bool {
    exists|k: K, v: V|
        k@ == kv
            && #[trigger] call_ensures(F::get_value, (fetcher, k),
                Result::<V, String>::Ok(v))
            && m.dom().contains(kv)
            && m[kv] == v@
}

/// The fetcher produced, for a key with view `kv`, an accepted `Err`
/// outcome whose message is among the recorded failures.
pub open spec fn fetched_err<K: CacheIdentifier, V: RelationalEntry<K>, F: ResolvableEntry<K, V>>(
    fetcher: &F,
    kv: K::V,
    msgs: Seq<String>,
) -> bool {
    exists|k: K, e: String|
        k@ == kv
            && #[trigger] call_ensures(F::get_value, (fetcher, k),
                Result::<V, String>::Err(e))
            && msgs.contains(e)
}

/// Every outcome the fetcher can produce is a success.
pub open spec fn fetch_always_succeeds<
    K: CacheIdentifier,
    V: RelationalEntry<K>,
    F: ResolvableEntry<K, V>,
>(fetcher: &F) -> bool {
    forall|k: K, res: Result<V, String>|
        #[trigger] call_ensures(F::get_value, (fetcher, k), res) ==> res is Ok
}

/// The fetcher produced an accepted `Err` outcome carrying exactly this
/// message.
pub open spec fn failure_witnessed<
    K: CacheIdentifier,
    V: RelationalEntry<K>,
    F: ResolvableEntry<K, V>,
>(fetcher: &F, msg: String) -> bool {
    exists|k: K|
        #[trigger] call_ensures(F::get_value, (fetcher, k),
            Result::<V, String>::Err(msg))
}

/// Some cached entry holds a reference to `kv`.
pub open spec fn referenced_in<K: CacheIdentifier, V: RelationalEntry<K>>(
    m: Map<K::V, V::V>,
    kv: K::V,
) -> bool {
    exists|k2: K::V, i: int|
        m.dom().contains(k2) && 0 <= i < V::refs_of(m[k2]).len()
            && (#[trigger] V::refs_of(m[k2])[i]).0 == kv
}

/// The fetcher produced, for a key with view `kv`, an accepted `Ok` outcome
/// whose value the map holds under `kv`, up to later re-tagging.
pub open spec fn fetched_value_up_to_tags<
    K: CacheIdentifier,
    V: RelationalEntry<K>,
    F: ResolvableEntry<K, V>,
>(fetcher: &F, kv: K::V, m: Map<K::V, V::V>) -> bool {
    exists|k: K, v: V|
        k@ == kv
            && #[trigger] call_ensures(F::get_value, (fetcher, k),
                Result::<V, String>::Ok(v))
            && m.dom().contains(kv)
            && V::erase_tags(m[kv]) == V::erase_tags(v@)
}

/// In a change list with pairwise distinct keys, the delta sum at an
/// entry's key is that entry's delta.
pub proof fn lemma_delta_sum_at<KV>(changes: Seq<(KV, int)>, c: int)
    requires
        0 <= c < changes.len(),
        forall|c1: int, c2: int| 0 <= c1 < c2 < changes.len()
            ==> (#[trigger] changes[c1]).0 != (#[trigger] changes[c2]).0,
    ensures
        delta_sum(changes, changes[c].0) == changes[c].1,
    decreases changes.len(),
{
    if c == changes.len() - 1 {
        lemma_delta_sum_absent(changes.drop_last(), changes[c].0);
        assert forall|c1: int| 0 <= c1 < changes.len() - 1
            implies (#[trigger] changes.drop_last()[c1]).0 != changes[c].0 by {
            assert(changes.drop_last()[c1] == changes[c1]);
        }
    } else {
        assert forall|c1: int, c2: int| 0 <= c1 < c2 < changes.len() - 1
            implies (#[trigger] changes.drop_last()[c1]).0
                != (#[trigger] changes.drop_last()[c2]).0 by {
            assert(changes.drop_last()[c1] == changes[c1]);
            assert(changes.drop_last()[c2] == changes[c2]);
        }
        assert(changes.drop_last()[c] == changes[c]);
        lemma_delta_sum_at(changes.drop_last(), c);
        assert(changes.last().0 != changes[c].0);
    }
}

/// A key that no change entry names sums to zero.
pub proof fn lemma_delta_sum_absent<KV>(changes: Seq<(KV, int)>, kv: KV)
    requires
        forall|c: int| 0 <= c < changes.len() ==> (#[trigger] changes[c]).0 != kv,
    ensures
        delta_sum(changes, kv) == 0,
    decreases changes.len(),
{
    if changes.len() > 0 {
        assert forall|c: int| 0 <= c < changes.len() - 1
            implies (#[trigger] changes.drop_last()[c]).0 != kv by {
            assert(changes.drop_last()[c] == changes[c]);
        }
        lemma_delta_sum_absent(changes.drop_last(), kv);
        assert(changes.last() == changes[changes.len() - 1]);
    }
}

/// What a resolution run works on: the whole store, one root, or several.
#[derive(Debug, Clone)]
pub enum ResolveTarget<IdType> {
    All,
    Single(IdType),
    Multiple(Vec<IdType>),
}

/// How a resolution run behaves: whether the caller wants it narrated (the
/// report carries everything a narration needs), whether missing keys are
/// actually fetched or merely left unresolved, and how many passes may run.
#[derive(Debug, Clone, PartialEq, Eq)]
pub struct ResolveParams {
    pub print: bool,
    pub query: bool,
    pub depth: usize,
}

/// What a resolution run did: every `(key, delta)` it reported, in the order
/// reported; one message per failed fetch; how many rewrite passes ran; and
/// whether the run stopped because discovery came up empty (`converged`)
/// rather than because the depth bound was reached.
pub struct ResolveReport<IdType> {
    pub changes: Vec<(IdType, isize)>,
    pub failures: Vec<String>,
    pub iterations: usize,
    pub converged: bool,
}

/// The roots a scoped target names.
pub open spec fn target_roots<K: CacheIdentifier>(target: ResolveTarget<K>) -> Set<K::V> {
    match target {
        ResolveTarget::All => Set::empty(),
        ResolveTarget::Single(root) => Set::empty().insert(root@),
        ResolveTarget::Multiple(roots) => Set::new(|kv: K::V|
            exists|i: int| 0 <= i < roots@.len() && roots@[i]@ == kv),
    }
}

/// Every root the target names is a key of the map.  Resolution demands this
/// of its callers: asking it to start from an absent root is a programming
/// error upstream.
pub open spec fn target_in_cache<K: CacheIdentifier, VV>(
    target: ResolveTarget<K>,
    m: Map<K::V, VV>,
) -> bool {
    match target {
        ResolveTarget::All => true,
        ResolveTarget::Single(root) => m.dom().contains(root@),
        ResolveTarget::Multiple(roots) => forall|i: int|
            0 <= i < roots@.len() ==> m.dom().contains((#[trigger] roots@[i])@),
    }
}

/// Discovery over the target's frontier would come up empty: every in-scope
/// entry has no unknown references.
pub open spec fn scope_unknowns_empty<K: CacheIdentifier, V: RelationalEntry<K>>(
    target: ResolveTarget<K>,
    m: Map<K::V, V::V>,
) -> bool {
    match target {
        ResolveTarget::All => no_unknowns::<K, V>(m),
        ResolveTarget::Single(root) => unknown_count(V::refs_of(m[root@])) == 0,
        ResolveTarget::Multiple(roots) => forall|i: int|
            0 <= i < roots@.len()
                ==> unknown_count(V::refs_of(m[(#[trigger] roots@[i])@])) == 0,
    }
}

/// The keys the target's first discovery collects: every key referenced with
/// an `Unknown` tag from an in-scope entry.
pub open spec fn scope_unknown_keys<K: CacheIdentifier, V: RelationalEntry<K>>(
    target: ResolveTarget<K>,
    m: Map<K::V, V::V>,
) -> Set<K::V> {
    match target {
        ResolveTarget::All => Set::new(|kv: K::V|
            exists|k2: K::V| #[trigger] m.dom().contains(k2)
                && has_unknown_key(V::refs_of(m[k2]), kv)),
        ResolveTarget::Single(root) => unknown_key_set(V::refs_of(m[root@])),
        ResolveTarget::Multiple(roots) => Set::new(|kv: K::V|
            exists|i: int| 0 <= i < roots@.len()
                && unknown_key_set(
                    V::refs_of(m[(#[trigger] roots@[i])@])).contains(kv)),
    }
}

/// A change list at the model level: key views with their signed deltas.
pub open spec fn changes_view<K: CacheIdentifier>(s: Seq<(K, isize)>) -> Seq<(K::V, int)> {
    s.map_values(|p: (K, isize)| (p.0@, p.1 as int))
}

/// The sum of all deltas reported for one key.
pub open spec fn delta_sum<KV>(changes: Seq<(KV, int)>, kv: KV) -> int
    decreases changes.len(),
{
    if changes.len() == 0 {
        0
    } else {
        delta_sum(changes.drop_last(), kv)
            + if changes.last().0 == kv { changes.last().1 } else { 0int }
    }
}

/// Delta sums split over concatenation.
pub proof fn lemma_delta_sum_add<KV>(a: Seq<(KV, int)>, b: Seq<(KV, int)>, kv: KV)
    ensures
        delta_sum(a + b, kv) == delta_sum(a, kv) + delta_sum(b, kv),
    decreases b.len(),
{
    if b.len() == 0 {
        assert(a + b =~= a);
    } else {
        lemma_delta_sum_add(a, b.drop_last(), kv);
        assert((a + b).drop_last() =~= a + b.drop_last());
        assert((a + b).last() == b.last());
    }
}

/// What one resolution run guarantees, relating the store before (`pre`) and
/// after (`post`), the target and parameters, and the report.  Public proof
/// functions state the library's laws over this predicate.
pub open spec fn resolve_post<K: CacheIdentifier, V: RelationalEntry<K>>(
    pre: Map<K::V, V::V>,
    post: Map<K::V, V::V>,
    target: ResolveTarget<K>,
    params: ResolveParams,
    changes: Seq<(K::V, int)>,
    iterations: int,
    converged: bool,
) -> bool {
    // the depth bound caps the number of rewrite passes
    &&& 0 <= iterations <= params.depth as int
    // the only way to stop without converging is to exhaust the bound
    &&& (!converged ==> iterations == params.depth as int)
    // convergence always includes one final, truth-restoring rewrite pass
    &&& (converged ==> iterations >= 1)
    // entries are never removed; without querying, none are added either
    &&& pre.dom().subset_of(post.dom())
    &&& (!params.query ==> post.dom() == pre.dom())
    // a run with no passes was given no depth; it changes nothing
    &&& (iterations == 0 ==> post == pre && changes.len() == 0 && !converged
        && params.depth == 0)
    // converging on the very first pass means discovery found the scope clean
    &&& (converged && iterations == 1 ==> scope_unknowns_empty::<K, V>(target, pre))
    // a scope with no unknown tags converges after exactly the one pass that
    // re-tags stale references (the lazily corrected beliefs of the store)
    &&& (scope_unknowns_empty::<K, V>(target, pre) && params.depth > 0
        ==> converged && iterations == 1)
    // after any pass, every tag in the store is truthful
    &&& (iterations > 0 ==> tags_consistent::<K, V>(post))
    // a consistent store is a fixed point of non-querying runs
    &&& (tags_consistent::<K, V>(pre) && !params.query
        ==> post == pre && changes.len() == 0)
    // a store that is consistent and discovered clean is a fixed point of
    // every run, querying or not
    &&& (scope_unknowns_empty::<K, V>(target, pre) && tags_consistent::<K, V>(pre)
        && params.depth > 0 ==> post == pre && changes.len() == 0)
    // resolution re-tags references but never changes what is referenced,
    // nor anything of a value beyond its tags
    &&& (forall|kv: K::V| #[trigger] pre.dom().contains(kv)
        ==> same_ref_keys(V::refs_of(pre[kv]), V::refs_of(post[kv])))
    &&& (forall|kv: K::V| #[trigger] pre.dom().contains(kv)
        ==> V::erase_tags(post[kv]) == V::erase_tags(pre[kv]))
    // keys are added only by a querying run, and only keys some cached
    // entry references
    &&& (forall|kv: K::V| #[trigger] post.dom().contains(kv) && !pre.dom().contains(kv)
        ==> params.query && referenced_in::<K, V>(post, kv))
    // a run of at most one pass reports each key at most once, in ascending
    // key order
    &&& (iterations <= 1 ==> (forall|c1: int, c2: int| 0 <= c1 < c2 < changes.len()
        ==> K::key_lt((#[trigger] changes[c1]).0, (#[trigger] changes[c2]).0)))
    // the reported deltas account exactly for each entry's unknown count
    &&& (forall|kv: K::V| #[trigger] pre.dom().contains(kv)
        ==> unknown_count(V::refs_of(post[kv]))
            == unknown_count(V::refs_of(pre[kv])) - delta_sum(changes, kv))
    // reports name present entries and never a zero delta
    &&& (forall|i: int| 0 <= i < changes.len()
        ==> post.dom().contains((#[trigger] changes[i]).0) && changes[i].1 != 0)
    &&& (entries_bounded::<K, V>(pre) ==> entries_bounded::<K, V>(post))
}

impl<IdType, ValueType> Cache<IdType, ValueType>
where
    IdType: CacheIdentifier,
    ValueType: RelationalEntry<IdType>,
{
    /// Collect every stored key, then add `extra`.
    fn known_keys_with(&self, extra: &KeySet<IdType>) -> (r: KeySet<IdType>)
        requires
            self.wf(),
        ensures
            r@ == self@.dom().union(extra@),
    {
        proof {
            self.lemma_view_props();
        }
        let mut known = KeySet::<IdType>::new();
        let n = self.len();
        let mut i: usize = 0;
        while i < n
            invariant
                self.wf(),
                i <= n,
                n == self.key_seq().len(),
                known@ =~= Set::new(|kv: IdType::V|
                    exists|j: int| 0 <= j < i && self.key_seq()[j] == kv),
            decreases n - i,
        {
            let (kr, _) = self.entry_at(i);
            let k = kr.dup();
            known.insert(k);
            proof {
                assert forall|kv: IdType::V|
                    known@.contains(kv)
                        == exists|j: int| 0 <= j < i + 1 && self.key_seq()[j] == kv by {
                }
                assert(known@ =~= Set::new(|kv: IdType::V|
                    exists|j: int| 0 <= j < i + 1 && self.key_seq()[j] == kv));
            }
            i = i + 1;
        }
        let mut all = known;
        proof {
            self.lemma_view_props();
            assert(all@ =~= self@.dom());
        }
        let m = extra.count();
        let mut j: usize = 0;
        while j < m
            invariant
                j <= m,
                m == extra.items_seq().len(),
                all@ =~= self@.dom().union(Set::new(|kv: IdType::V|
                    exists|a: int| 0 <= a < j && extra.items_seq()[a] == kv)),
            decreases m - j,
        {
            let k = extra.item_at(j).dup();
            all.insert(k);
            proof {
                assert(all@ =~= self@.dom().union(Set::new(|kv: IdType::V|
                    exists|a: int| 0 <= a < j + 1 && extra.items_seq()[a] == kv)));
            }
            j = j + 1;
        }
        proof {
            extra.lemma_members();
            assert(Set::new(|kv: IdType::V|
                exists|a: int| 0 <= a < extra.items_seq().len()
                    && extra.items_seq()[a] == kv) =~= extra@);
            assert(all@ =~= self@.dom().union(extra@));
        }
        all
    }

    /// One rewrite pass over the whole store.  Every entry's references are
    /// re-tagged against the set of keys now present plus `newly_known`; each
    /// entry whose references changed state is reported, in ascending key
    /// order, with its exact signed delta.
    pub fn update_relations(&mut self, newly_known: &KeySet<IdType>)
        -> (changed: Vec<(IdType, isize)>)
        requires
            old(self).wf(),
            entries_bounded::<IdType, ValueType>(old(self)@),
        ensures
            final(self).wf(),
            final(self).key_seq() == old(self).key_seq(),
            final(self)@.dom() == old(self)@.dom(),
            entries_bounded::<IdType, ValueType>(final(self)@),
            forall|kv: IdType::V| #[trigger] old(self)@.dom().contains(kv)
                ==> same_ref_keys(
                        ValueType::refs_of(old(self)@[kv]),
                        ValueType::refs_of(final(self)@[kv]))
                    && refs_agree(
                        ValueType::refs_of(final(self)@[kv]),
                        old(self)@.dom().union(newly_known@))
                    && ValueType::erase_tags(final(self)@[kv])
                        == ValueType::erase_tags(old(self)@[kv]),
            forall|kv: IdType::V| #[trigger] old(self)@.dom().contains(kv)
                ==> unknown_count(ValueType::refs_of(final(self)@[kv]))
                    == unknown_count(ValueType::refs_of(old(self)@[kv]))
                        - delta_sum(changes_view(changed@), kv),
            forall|c: int| 0 <= c < changed@.len()
                ==> old(self)@.dom().contains((#[trigger] changed@[c]).0@)
                    && changed@[c].1 != 0,
            forall|c1: int, c2: int| 0 <= c1 < c2 < changed@.len()
                ==> IdType::key_lt((#[trigger] changed@[c1]).0@, (#[trigger] changed@[c2]).0@),
            forall|kv: IdType::V| #[trigger] old(self)@.dom().contains(kv)
                && refs_agree(
                    ValueType::refs_of(old(self)@[kv]),
                    old(self)@.dom().union(newly_known@))
                ==> final(self)@[kv] == old(self)@[kv],
            (forall|kv: IdType::V| #[trigger] old(self)@.dom().contains(kv)
                ==> refs_agree(
                    ValueType::refs_of(old(self)@[kv]),
                    old(self)@.dom().union(newly_known@)))
                ==> changed@.len() == 0 && final(self)@ == old(self)@,
    {
        proof {
            IdType::lemma_key_order();
            self.lemma_view_props();
        }
        let known = self.known_keys_with(newly_known);
        let ghost pre = self@;
        let ghost ks = self.key_seq();
        let mut changed: Vec<(IdType, isize)> = Vec::new();
        let n = self.len();
        let mut i: usize = 0;
        proof {
            assert(changes_view(changed@) =~= Seq::<(IdType::V, int)>::empty());
        }
        while i < n
            invariant
                self.wf(),
                entries_bounded::<IdType, ValueType>(self@),
                self.key_seq() == ks,
                self@.dom() == pre.dom(),
                known@ == pre.dom().union(newly_known@),
                n == ks.len(),
                i <= n,
                sorted_strict::<IdType>(ks),
                forall|j: int| 0 <= j < ks.len()
                    ==> pre.dom().contains(#[trigger] ks[j]),
                forall|j: int| i <= j < n ==> #[trigger] self@[ks[j]] == pre[ks[j]],
                forall|j: int| 0 <= j < i
                    ==> same_ref_keys(
                            ValueType::refs_of(pre[#[trigger] ks[j]]),
                            ValueType::refs_of(self@[ks[j]]))
                        && refs_agree(ValueType::refs_of(self@[ks[j]]), known@)
                        && ValueType::erase_tags(self@[ks[j]])
                            == ValueType::erase_tags(pre[ks[j]]),
                forall|j: int| 0 <= j < i
                    ==> unknown_count(ValueType::refs_of(self@[#[trigger] ks[j]]))
                        == unknown_count(ValueType::refs_of(pre[ks[j]]))
                            - delta_sum(changes_view(changed@), ks[j]),
                forall|j: int| i <= j < n
                    ==> delta_sum(changes_view(changed@), #[trigger] ks[j]) == 0,
                forall|c: int| 0 <= c < changed@.len()
                    ==> exists|j: int| 0 <= j < i
                        && (#[trigger] changed@[c]).0@ == ks[j] && changed@[c].1 != 0,
                forall|c1: int, c2: int| 0 <= c1 < c2 < changed@.len()
                    ==> IdType::key_lt(
                        (#[trigger] changed@[c1]).0@, (#[trigger] changed@[c2]).0@),
                changed@.len() > 0 ==> exists|j: int| 0 <= j < i
                    && changed@[changed@.len() - 1].0@ == ks[j],
                forall|j: int| 0 <= j < i
                    && refs_agree(ValueType::refs_of(pre[#[trigger] ks[j]]), known@)
                    ==> self@[ks[j]] == pre[ks[j]],
                (forall|j: int| 0 <= j < i
                    ==> refs_agree(ValueType::refs_of(pre[#[trigger] ks[j]]), known@))
                    ==> changed@.len() == 0,
            decreases n - i,
        {
            proof {
                IdType::lemma_key_order();
                self.lemma_view_props();
            }
            let ghost before = self@;
            let ghost ch0 = changed@;
            let delta = {
                let vr = self.value_at_mut(i);
                vr.update_unknown_references(&known)
            };
            proof {
                assert(self@ == before.insert(ks[i as int], self@[ks[i as int]]));
                assert(self@.dom() =~= before.dom());
            }
            if delta != 0 {
                let kr = self.entry_at(i).0;
                let k = kr.dup();
                changed.push((k, delta));
                proof {
                    assert(changes_view(changed@)
                        =~= changes_view(ch0).push((ks[i as int], delta as int)));
                    assert(changes_view(changed@).drop_last() =~= changes_view(ch0));
                    assert forall|kv: IdType::V|
                        delta_sum(changes_view(changed@), kv)
                            == delta_sum(changes_view(ch0), kv)
                                + (if ks[i as int] == kv { delta as int } else { 0int }) by {
                    }
                }
            } else {
                proof {
                    assert(changes_view(changed@) =~= changes_view(ch0));
                }
            }
            proof {
                // the rewritten entry satisfies the per-entry clauses; all
                // other entries are untouched
                assert forall|kv: IdType::V| kv != ks[i as int] && pre.dom().contains(kv)
                    implies self@[kv] == before[kv] by {
                }
            }
            i = i + 1;
        }
        proof {
            self.lemma_view_props();
            // the final identity claim: if every entry already agreed,
            // nothing changed and the maps coincide
            if forall|kv: IdType::V| #[trigger] pre.dom().contains(kv)
                ==> refs_agree(ValueType::refs_of(pre[kv]), known@) {
                assert forall|j: int| 0 <= j < n
                    implies refs_agree(ValueType::refs_of(pre[#[trigger] ks[j]]), known@) by {
                    assert(pre.dom().contains(ks[j]));
                }
                assert(changed@.len() == 0);
                assert forall|kv: IdType::V| #[trigger] pre.dom().contains(kv)
                    implies self@[kv] == pre[kv] by {
                    let j = choose|j: int| 0 <= j < ks.len() && ks[j] == kv;
                }
                assert(self@ =~= pre);
            }
            // transfer the per-index invariants to per-key-view form
            assert forall|kv: IdType::V| #[trigger] pre.dom().contains(kv)
                implies same_ref_keys(
                        ValueType::refs_of(pre[kv]), ValueType::refs_of(self@[kv]))
                    && refs_agree(ValueType::refs_of(self@[kv]), known@)
                    && ValueType::erase_tags(self@[kv]) == ValueType::erase_tags(pre[kv])
                    && unknown_count(ValueType::refs_of(self@[kv]))
                        == unknown_count(ValueType::refs_of(pre[kv]))
                            - delta_sum(changes_view(changed@), kv)
                    && (refs_agree(ValueType::refs_of(pre[kv]), known@)
                        ==> self@[kv] == pre[kv]) by {
                let j = choose|j: int| 0 <= j < ks.len() && ks[j] == kv;
            }
        }
        changed
    }

    /// Fetch every key in `ids` not already cached and insert the successes;
    /// a failed fetch only yields a message.  Returns the set of keys that
    /// were actually added, and the failure messages.  Every uncached
    /// candidate is decided by one fetch outcome: an `Ok` value is the one
    /// inserted under its key, an `Err` leaves the key absent and its
    /// message in the failure list.
    fn query_values<F: ResolvableEntry<IdType, ValueType>>(
        &mut self,
        ids: &KeySet<IdType>,
        fetcher: &F,
    ) -> (r: (KeySet<IdType>, Vec<String>))
        requires
            old(self).wf(),
            entries_bounded::<IdType, ValueType>(old(self)@),
        ensures
            final(self).wf(),
            entries_bounded::<IdType, ValueType>(final(self)@),
            final(self)@.dom() == old(self)@.dom().union(r.0@),
            forall|kv: IdType::V| #[trigger] old(self)@.dom().contains(kv)
                ==> final(self)@[kv] == old(self)@[kv],
            r.0@.disjoint(old(self)@.dom()),
            r.0@.subset_of(ids@),
            forall|j: int| 0 <= j < ids.items_seq().len()
                && !old(self)@.dom().contains(#[trigger] ids.items_seq()[j])
                ==> r.0@.contains(ids.items_seq()[j])
                    || fetched_err::<IdType, ValueType, F>(
                        fetcher, ids.items_seq()[j], r.1@),
            forall|kv: IdType::V| #[trigger] r.0@.contains(kv)
                ==> fetched_ok::<IdType, ValueType, F>(fetcher, kv, final(self)@),
            forall|c: int| 0 <= c < r.1@.len()
                ==> failure_witnessed::<IdType, ValueType, F>(
                    fetcher, #[trigger] r.1@[c]),
    {
        let mut new_ids = KeySet::<IdType>::new();
        let mut failures: Vec<String> = Vec::new();
        let m = ids.count();
        let mut j: usize = 0;
        proof {
            assert(self@.dom() =~= old(self)@.dom().union(new_ids@));
        }
        while j < m
            invariant
                self.wf(),
                entries_bounded::<IdType, ValueType>(self@),
                j <= m,
                m == ids.items_seq().len(),
                self@.dom() == old(self)@.dom().union(new_ids@),
                forall|kv: IdType::V| #[trigger] old(self)@.dom().contains(kv)
                    ==> self@[kv] == old(self)@[kv],
                new_ids@.disjoint(old(self)@.dom()),
                new_ids@.subset_of(ids@),
                forall|jj: int| 0 <= jj < j
                    && !old(self)@.dom().contains(#[trigger] ids.items_seq()[jj])
                    ==> new_ids@.contains(ids.items_seq()[jj])
                        || fetched_err::<IdType, ValueType, F>(
                            fetcher, ids.items_seq()[jj], failures@),
                forall|kv: IdType::V| #[trigger] new_ids@.contains(kv)
                    ==> fetched_ok::<IdType, ValueType, F>(fetcher, kv, self@),
                forall|c: int| 0 <= c < failures@.len()
                    ==> failure_witnessed::<IdType, ValueType, F>(
                        fetcher, #[trigger] failures@[c]),
            decreases m - j,
        {
            let ghost state0 = self@;
            let ghost new0 = new_ids@;
            let ghost fails0 = failures@;
            let id = ids.item_at(j);
            let present = self.has_id(id);
            if !present {
                let arg = id.dup();
                let ghost argg = arg;
                let res = fetcher.get_value(arg);
                let ghost resg = res;
                match res {
                    Ok(v) => {
                        let ghost vwit = v;
                        let prev = self.cache(id.dup(), v);
                        new_ids.insert(id.dup());
                        proof {
                            assert(self@.dom() =~= old(self)@.dom().union(new_ids@));
                            assert(resg == Result::<ValueType, String>::Ok(vwit));
                            assert(argg@ == id@ && call_ensures(F::get_value,
                                (fetcher, argg), Result::<ValueType, String>::Ok(vwit)));
                            assert(self@[id@] == vwit@);
                            assert(fetched_ok::<IdType, ValueType, F>(
                                fetcher, id@, self@));
                        }
                    }
                    Err(e) => {
                        let ghost ewit = e;
                        failures.push(e);
                        proof {
                            assert(resg == Result::<ValueType, String>::Err(ewit));
                            assert(failures@[failures@.len() - 1] == ewit);
                            assert(failures@.contains(ewit));
                            assert(argg@ == id@ && call_ensures(F::get_value,
                                (fetcher, argg), Result::<ValueType, String>::Err(ewit)));
                            assert(fetched_err::<IdType, ValueType, F>(
                                fetcher, id@, failures@));
                            assert(failure_witnessed::<IdType, ValueType, F>(
                                fetcher, ewit));
                            assert forall|c: int| 0 <= c < fails0.len()
                                implies failures@[c] == fails0[c] by {
                            }
                        }
                    }
                }
            }
            proof {
                // earlier outcomes persist: inserted values are never
                // overwritten here, and the failure list only grows
                assert forall|kv: IdType::V| new_ids@.contains(kv)
                    implies fetched_ok::<IdType, ValueType, F>(fetcher, kv, self@) by {
                    if new0.contains(kv) {
                        let (k, v) = choose|k: IdType, v: ValueType|
                            k@ == kv
                                && #[trigger] call_ensures(F::get_value, (fetcher, k),
                                    Result::<ValueType, String>::Ok(v))
                                && state0.dom().contains(kv) && state0[kv] == v@;
                        assert(self@[kv] == state0[kv]);
                    }
                }
                assert forall|jj: int| 0 <= jj < j + 1
                    && !old(self)@.dom().contains(ids.items_seq()[jj])
                    implies new_ids@.contains(ids.items_seq()[jj])
                        || fetched_err::<IdType, ValueType, F>(
                            fetcher, ids.items_seq()[jj], failures@) by {
                    let kv = ids.items_seq()[jj];
                    if jj < j {
                        if !new0.contains(kv)
                            && fetched_err::<IdType, ValueType, F>(fetcher, kv, fails0) {
                            let (k, e) = choose|k: IdType, e: String|
                                k@ == kv
                                    && #[trigger] call_ensures(F::get_value, (fetcher, k),
                                        Result::<ValueType, String>::Err(e))
                                    && fails0.contains(e);
                            assert(failures@.contains(e));
                        }
                    } else {
                        if present {
                            // the candidate was already present: it is no
                            // starting key, so an earlier step added it
                            assert(state0.dom().contains(id@));
                            assert(new0.contains(kv));
                        }
                    }
                }
            }
            j = j + 1;
        }
        (new_ids, failures)
    }

    /// Resolve dependencies iteratively: discover references to unknown keys
    /// in the target's frontier, optionally fetch them, and rewrite every
    /// entry's tags, until discovery comes up empty (convergence) or
    /// `params.depth` rewrite passes have run.  The report's change list
    /// accounts exactly for every entry's unknown-reference count; see
    /// [`resolve_post`] for everything a run guarantees.
    ///
    /// Tags are a lazily corrected belief: discovery looks for `Unknown`
    /// tags only, so a stale `Cached` tag (its target has since been
    /// removed) survives any number of store mutations — until the next
    /// resolution run.  A run that discovers its scope clean still performs
    /// one final rewrite pass before stopping, flipping every stale tag back
    /// to `Unknown` and reporting the change, so a converged store's tags
    /// are always truthful.
    pub fn resolve_dependencies<F: ResolvableEntry<IdType, ValueType>>(
        &mut self,
        target: ResolveTarget<IdType>,
        params: ResolveParams,
        fetcher: &F,
    ) -> (r: ResolveReport<IdType>)
        requires
            old(self).wf(),
            entries_bounded::<IdType, ValueType>(old(self)@),
            target_in_cache(target, old(self)@),
        ensures
            final(self).wf(),
            target_in_cache(target, final(self)@),
            resolve_post::<IdType, ValueType>(
                old(self)@,
                final(self)@,
                target,
                params,
                changes_view(r.changes@),
                r.iterations as int,
                r.converged,
            ),
            forall|kv: IdType::V| #[trigger] final(self)@.dom().contains(kv)
                && !old(self)@.dom().contains(kv)
                ==> fetched_value_up_to_tags::<IdType, ValueType, F>(
                    fetcher, kv, final(self)@),
            forall|c: int| 0 <= c < r.failures@.len()
                ==> failure_witnessed::<IdType, ValueType, F>(
                    fetcher, #[trigger] r.failures@[c]),
            // acquisition is complete: every key the first discovery found
            // and that was absent is afterwards cached, or a failure message
            // records the fetch outcome that kept it out
            params.query && r.iterations >= 1 ==> (forall|kv: IdType::V|
                #[trigger] scope_unknown_keys::<IdType, ValueType>(
                    target, old(self)@).contains(kv)
                    && !old(self)@.dom().contains(kv)
                ==> final(self)@.dom().contains(kv)
                    || fetched_err::<IdType, ValueType, F>(
                        fetcher, kv, r.failures@)),
            // progress: with querying on and a fetcher that cannot fail,
            // every pass of a non-converged run after the first strictly
            // grew the store
            !r.converged && params.query
                && fetch_always_succeeds::<IdType, ValueType, F>(fetcher)
                && r.iterations >= 1
                ==> final(self)@.dom().len()
                    >= old(self)@.dom().len() + r.iterations - 1,
    {
        let ghost pre = self@;
        proof {
            IdType::lemma_key_order();
            self.lemma_view_props();
        }
        let mut iterations: usize = 0;
        let mut converged: bool = false;
        let mut changes: Vec<(IdType, isize)> = Vec::new();
        let mut failures: Vec<String> = Vec::new();
        let mut frontier_opt: Option<KeySet<IdType>> = match &target {
            ResolveTarget::All => None,
            ResolveTarget::Single(root) => {
                let mut s = KeySet::<IdType>::new();
                s.insert(root.dup());
                proof {
                    assert(s@ =~= target_roots(target));
                }
                Some(s)
            }
            ResolveTarget::Multiple(roots) => {
                let mut s = KeySet::<IdType>::new();
                let rn = roots.len();
                let mut a: usize = 0;
                while a < rn
                    invariant
                        a <= rn,
                        rn == roots@.len(),
                        s@ =~= Set::new(|kv: IdType::V|
                            exists|b: int| 0 <= b < a && roots@[b]@ == kv),
                    decreases rn - a,
                {
                    s.insert(roots[a].dup());
                    proof {
                        assert(s@ =~= Set::new(|kv: IdType::V|
                            exists|b: int| 0 <= b < a + 1 && roots@[b]@ == kv));
                    }
                    a = a + 1;
                }
                proof {
                    assert(s@ =~= target_roots(target));
                }
                Some(s)
            }
        };
        proof {
            assert(changes_view(changes@) =~= Seq::<(IdType::V, int)>::empty());
            match frontier_opt {
                Option::Some(ref fr) => {
                    assert forall|kv: IdType::V| #[trigger] fr@.contains(kv)
                        implies self@.dom().contains(kv) by {
                        match target {
                            ResolveTarget::All => {}
                            ResolveTarget::Single(ref root) => {}
                            ResolveTarget::Multiple(ref roots) => {
                                let b = choose|b: int|
                                    0 <= b < roots@.len() && roots@[b]@ == kv;
                            }
                        }
                    }
                }
                Option::None => {}
            }
        }
        loop
            invariant_except_break
                self.wf(),
                entries_bounded::<IdType, ValueType>(self@),
                pre.dom().subset_of(self@.dom()),
                !params.query ==> self@.dom() == pre.dom(),
                target_in_cache(target, self@),
                iterations <= params.depth,
                !converged,
                iterations == 0 ==> self@ == pre && changes@.len() == 0,
                iterations > 0 ==> tags_consistent::<IdType, ValueType>(self@),
                iterations > 0
                    ==> !scope_unknowns_empty::<IdType, ValueType>(target, pre),
                tags_consistent::<IdType, ValueType>(pre) && !params.query
                    ==> self@ == pre && changes@.len() == 0,
                forall|kv: IdType::V| #[trigger] pre.dom().contains(kv)
                    ==> same_ref_keys(
                        ValueType::refs_of(pre[kv]), ValueType::refs_of(self@[kv])),
                forall|kv: IdType::V| #[trigger] pre.dom().contains(kv)
                    ==> unknown_count(ValueType::refs_of(self@[kv]))
                        == unknown_count(ValueType::refs_of(pre[kv]))
                            - delta_sum(changes_view(changes@), kv),
                forall|c: int| 0 <= c < changes@.len()
                    ==> self@.dom().contains((#[trigger] changes@[c]).0@)
                        && changes@[c].1 != 0,
                forall|kv: IdType::V| #[trigger] pre.dom().contains(kv)
                    ==> ValueType::erase_tags(self@[kv])
                        == ValueType::erase_tags(pre[kv]),
                forall|kv: IdType::V| #[trigger] self@.dom().contains(kv)
                    && !pre.dom().contains(kv)
                    ==> params.query && referenced_in::<IdType, ValueType>(self@, kv)
                        && fetched_value_up_to_tags::<IdType, ValueType, F>(
                            fetcher, kv, self@),
                forall|c: int| 0 <= c < failures@.len()
                    ==> failure_witnessed::<IdType, ValueType, F>(
                        fetcher, #[trigger] failures@[c]),
                iterations <= 1 ==> (forall|c1: int, c2: int|
                    0 <= c1 < c2 < changes@.len()
                    ==> IdType::key_lt(
                        (#[trigger] changes@[c1]).0@, (#[trigger] changes@[c2]).0@)),
                params.query && iterations >= 1 ==> (forall|kv: IdType::V|
                    #[trigger] scope_unknown_keys::<IdType, ValueType>(
                        target, pre).contains(kv)
                        && !pre.dom().contains(kv)
                    ==> self@.dom().contains(kv)
                        || fetched_err::<IdType, ValueType, F>(
                            fetcher, kv, failures@)),
                params.query
                    && fetch_always_succeeds::<IdType, ValueType, F>(fetcher)
                    && iterations >= 1
                    ==> self@.dom().len() >= pre.dom().len() + iterations - 1,
                pre.dom().finite(),
                self@.dom().finite(),
                (frontier_opt is Some) == !(target is All),
                frontier_opt matches Some(fr) ==> fr@.subset_of(self@.dom()),
                iterations == 0 ==> (frontier_opt matches Some(fr)
                    ==> fr@ == target_roots(target)),
            ensures
                self.wf(),
                entries_bounded::<IdType, ValueType>(self@),
                pre.dom().subset_of(self@.dom()),
                !params.query ==> self@.dom() == pre.dom(),
                target_in_cache(target, self@),
                iterations <= params.depth,
                !converged ==> iterations == params.depth,
                converged ==> iterations >= 1,
                iterations == 0 ==> self@ == pre && changes@.len() == 0
                    && !converged && params.depth == 0,
                converged && iterations == 1
                    ==> scope_unknowns_empty::<IdType, ValueType>(target, pre),
                scope_unknowns_empty::<IdType, ValueType>(target, pre)
                    && params.depth > 0 ==> converged && iterations == 1,
                iterations > 0 ==> tags_consistent::<IdType, ValueType>(self@),
                tags_consistent::<IdType, ValueType>(pre) && !params.query
                    ==> self@ == pre && changes@.len() == 0,
                scope_unknowns_empty::<IdType, ValueType>(target, pre)
                    && tags_consistent::<IdType, ValueType>(pre)
                    && params.depth > 0 ==> self@ == pre && changes@.len() == 0,
                forall|kv: IdType::V| #[trigger] pre.dom().contains(kv)
                    ==> same_ref_keys(
                        ValueType::refs_of(pre[kv]), ValueType::refs_of(self@[kv])),
                forall|kv: IdType::V| #[trigger] pre.dom().contains(kv)
                    ==> unknown_count(ValueType::refs_of(self@[kv]))
                        == unknown_count(ValueType::refs_of(pre[kv]))
                            - delta_sum(changes_view(changes@), kv),
                forall|c: int| 0 <= c < changes@.len()
                    ==> self@.dom().contains((#[trigger] changes@[c]).0@)
                        && changes@[c].1 != 0,
                forall|kv: IdType::V| #[trigger] pre.dom().contains(kv)
                    ==> ValueType::erase_tags(self@[kv])
                        == ValueType::erase_tags(pre[kv]),
                forall|kv: IdType::V| #[trigger] self@.dom().contains(kv)
                    && !pre.dom().contains(kv)
                    ==> params.query && referenced_in::<IdType, ValueType>(self@, kv)
                        && fetched_value_up_to_tags::<IdType, ValueType, F>(
                            fetcher, kv, self@),
                forall|c: int| 0 <= c < failures@.len()
                    ==> failure_witnessed::<IdType, ValueType, F>(
                        fetcher, #[trigger] failures@[c]),
                iterations <= 1 ==> (forall|c1: int, c2: int|
                    0 <= c1 < c2 < changes@.len()
                    ==> IdType::key_lt(
                        (#[trigger] changes@[c1]).0@, (#[trigger] changes@[c2]).0@)),
                params.query && iterations >= 1 ==> (forall|kv: IdType::V|
                    #[trigger] scope_unknown_keys::<IdType, ValueType>(
                        target, pre).contains(kv)
                        && !pre.dom().contains(kv)
                    ==> self@.dom().contains(kv)
                        || fetched_err::<IdType, ValueType, F>(
                            fetcher, kv, failures@)),
                !converged && params.query
                    && fetch_always_succeeds::<IdType, ValueType, F>(fetcher)
                    && iterations >= 1
                    ==> self@.dom().len() >= pre.dom().len() + iterations - 1,
                pre.dom().finite(),
                self@.dom().finite(),
            decreases params.depth - iterations,
        {
            proof {
                IdType::lemma_key_order();
                self.lemma_view_props();
            }
            if iterations == params.depth {
                break;
            }
            let ghost top = self@;
            // Discovery: union the unknown-reference keys of every frontier
            // entry into the candidate set.
            let ghost rset: Set<IdType::V> = match frontier_opt {
                Option::Some(ref fr) => fr@,
                Option::None => Set::empty(),
            };
            let mut to_update = KeySet::<IdType>::new();
            match &frontier_opt {
                None => {
                    let n = self.len();
                    let mut j: usize = 0;
                    while j < n
                        invariant
                            self.wf(),
                            j <= n,
                            n == self.key_seq().len(),
                            forall|jj: int| 0 <= jj < j
                                ==> unknown_key_set(ValueType::refs_of(
                                        self@[#[trigger] self.key_seq()[jj]]))
                                    .subset_of(to_update@),
                            forall|kv: IdType::V| #[trigger] to_update@.contains(kv)
                                ==> exists|jj: int| 0 <= jj < j
                                    && has_unknown_key(ValueType::refs_of(
                                        self@[#[trigger] self.key_seq()[jj]]), kv),
                        decreases n - j,
                    {
                        let (_, vr) = self.entry_at(j);
                        let unk = vr.get_unknown_relations();
                        to_update.extend(unk);
                        j = j + 1;
                    }
                    proof {
                        self.lemma_view_props();
                        assert forall|kv: IdType::V| #[trigger] self@.dom().contains(kv)
                            implies unknown_key_set(ValueType::refs_of(self@[kv]))
                                .subset_of(to_update@) by {
                            let jj = choose|jj: int|
                                0 <= jj < self.key_seq().len()
                                    && self.key_seq()[jj] == kv;
                        }
                        assert forall|kv: IdType::V| #[trigger] to_update@.contains(kv)
                            implies exists|k2: IdType::V|
                                #[trigger] self@.dom().contains(k2)
                                    && has_unknown_key(
                                        ValueType::refs_of(self@[k2]), kv) by {
                            let jj = choose|jj: int| 0 <= jj < n
                                && has_unknown_key(ValueType::refs_of(
                                    self@[self.key_seq()[jj]]), kv);
                            assert(self@.dom().contains(self.key_seq()[jj]));
                        }
                        assert forall|kv: IdType::V| #[trigger] to_update@.contains(kv)
                            implies referenced_in::<IdType, ValueType>(self@, kv) by {
                            let k2 = choose|k2: IdType::V|
                                #[trigger] self@.dom().contains(k2)
                                    && has_unknown_key(
                                        ValueType::refs_of(self@[k2]), kv);
                            let i = choose|i: int|
                                0 <= i < ValueType::refs_of(self@[k2]).len()
                                    && ValueType::refs_of(self@[k2])[i] == (kv, false);
                            assert((ValueType::refs_of(self@[k2])[i]).0 == kv);
                        }
                    }
                }
                Some(fr) => {
                    let m = fr.count();
                    let mut j: usize = 0;
                    proof {
                        fr.lemma_members();
                    }
                    while j < m
                        invariant
                            self.wf(),
                            j <= m,
                            m == fr.items_seq().len(),
                            fr@.subset_of(self@.dom()),
                            forall|i: int| 0 <= i < fr.items_seq().len()
                                ==> fr@.contains(#[trigger] fr.items_seq()[i]),
                            forall|jj: int| 0 <= jj < j
                                ==> unknown_key_set(ValueType::refs_of(
                                        self@[#[trigger] fr.items_seq()[jj]]))
                                    .subset_of(to_update@),
                            forall|kv: IdType::V| #[trigger] to_update@.contains(kv)
                                ==> exists|jj: int| 0 <= jj < j
                                    && has_unknown_key(ValueType::refs_of(
                                        self@[#[trigger] fr.items_seq()[jj]]), kv),
                        decreases m - j,
                    {
                        let id = fr.item_at(j);
                        let got = self.get(id);
                        match got {
                            Some(vr) => {
                                let unk = vr.get_unknown_relations();
                                to_update.extend(unk);
                            }
                            None => {
                                proof {
                                    assert(fr@.contains(id@));
                                    assert(false);
                                }
                            }
                        }
                        j = j + 1;
                    }
                    proof {
                        fr.lemma_members();
                        assert(rset == fr@);
                        assert forall|kv: IdType::V| #[trigger] rset.contains(kv)
                            implies unknown_key_set(ValueType::refs_of(self@[kv]))
                                .subset_of(to_update@) by {
                            let jj = choose|jj: int|
                                0 <= jj < fr.items_seq().len()
                                    && fr.items_seq()[jj] == kv;
                        }
                        assert forall|kv: IdType::V| #[trigger] to_update@.contains(kv)
                            implies exists|k2: IdType::V| #[trigger] rset.contains(k2)
                                && has_unknown_key(
                                    ValueType::refs_of(self@[k2]), kv) by {
                            let jj = choose|jj: int| 0 <= jj < m
                                && has_unknown_key(ValueType::refs_of(
                                    self@[fr.items_seq()[jj]]), kv);
                            assert(rset.contains(fr.items_seq()[jj]));
                        }
                        assert forall|kv: IdType::V| #[trigger] to_update@.contains(kv)
                            implies referenced_in::<IdType, ValueType>(self@, kv) by {
                            let k2 = choose|k2: IdType::V|
                                #[trigger] rset.contains(k2)
                                    && has_unknown_key(
                                        ValueType::refs_of(self@[k2]), kv);
                            assert(self@.dom().contains(k2));
                            let i = choose|i: int|
                                0 <= i < ValueType::refs_of(self@[k2]).len()
                                    && ValueType::refs_of(self@[k2])[i] == (kv, false);
                            assert((ValueType::refs_of(self@[k2])[i]).0 == kv);
                        }
                    }
                }
            }
            // Convergence test: an empty candidate set means the scope holds
            // no unknown tags.  The run still performs one final rewrite pass
            // below — flipping any stale `Cached` tag back — before stopping.
            let empty_discovery = to_update.is_empty();
            proof {
                if iterations == 0 {
                    if empty_discovery {
                        lemma_scope_from_empty_discovery::<IdType, ValueType>(
                            target, self@, rset, to_update@);
                    } else {
                        // a non-empty candidate set at the first pass means
                        // the scope really does hold unresolved references
                        lemma_scope_from_nonempty_discovery::<IdType, ValueType>(
                            target, self@, rset, to_update@);
                    }
                }
            }
            // Acquisition: fetch candidates not already present, each
            // independently; failures leave their key unknown.
            let new_ids = if params.query && !empty_discovery {
                let (ids, mut fails) = self.query_values(&to_update, fetcher);
                let ghost fails0 = failures@;
                let ghost fnew = fails@;
                failures.append(&mut fails);
                proof {
                    assert(failures@ =~= fails0 + fnew);
                    assert forall|c: int| 0 <= c < failures@.len()
                        implies failure_witnessed::<IdType, ValueType, F>(
                            fetcher, failures@[c]) by {
                        if c < fails0.len() {
                            assert(failures@[c] == fails0[c]);
                        } else {
                            assert(failures@[c] == fnew[c - fails0.len()]);
                        }
                    }
                    // messages already recorded stay recorded
                    assert forall|e: String| #[trigger] fails0.contains(e)
                        implies failures@.contains(e) by {
                        let c = choose|c: int| 0 <= c < fails0.len() && fails0[c] == e;
                        assert(failures@[c] == e);
                    }
                    assert forall|e: String| #[trigger] fnew.contains(e)
                        implies failures@.contains(e) by {
                        let c = choose|c: int| 0 <= c < fnew.len() && fnew[c] == e;
                        assert(failures@[fails0.len() + c] == e);
                    }
                    // every key the first discovery found and that was absent
                    // is decided this very pass
                    if iterations == 0 {
                        assert forall|kv: IdType::V|
                            #[trigger] scope_unknown_keys::<IdType, ValueType>(
                                target, pre).contains(kv)
                                && !pre.dom().contains(kv)
                            implies self@.dom().contains(kv)
                                || fetched_err::<IdType, ValueType, F>(
                                    fetcher, kv, failures@) by {
                            assert(top == pre);
                            assert(to_update@.contains(kv)) by {
                                match target {
                                    ResolveTarget::All => {
                                        let k2 = choose|k2: IdType::V|
                                            #[trigger] pre.dom().contains(k2)
                                                && has_unknown_key(
                                                    ValueType::refs_of(pre[k2]), kv);
                                        assert(unknown_key_set(
                                            ValueType::refs_of(top[k2]))
                                            .subset_of(to_update@));
                                        assert(unknown_key_set(
                                            ValueType::refs_of(top[k2])).contains(kv));
                                    }
                                    ResolveTarget::Single(ref root) => {
                                        assert(rset.contains(root@));
                                        assert(unknown_key_set(
                                            ValueType::refs_of(top[root@]))
                                            .subset_of(to_update@));
                                    }
                                    ResolveTarget::Multiple(ref roots) => {
                                        let i = choose|i: int|
                                            0 <= i < roots@.len()
                                                && unknown_key_set(ValueType::refs_of(
                                                    pre[(#[trigger] roots@[i])@]))
                                                    .contains(kv);
                                        assert(rset.contains(roots@[i]@));
                                        assert(unknown_key_set(
                                            ValueType::refs_of(top[roots@[i]@]))
                                            .subset_of(to_update@));
                                    }
                                }
                            }
                            to_update.lemma_members();
                            let j = choose|j: int|
                                0 <= j < to_update.items_seq().len()
                                    && to_update.items_seq()[j] == kv;
                            if !ids@.contains(kv) {
                                assert(fetched_err::<IdType, ValueType, F>(
                                    fetcher, kv, fnew));
                                let (k, e) = choose|k: IdType, e: String|
                                    k@ == kv
                                        && #[trigger] call_ensures(F::get_value,
                                            (fetcher, k),
                                            Result::<ValueType, String>::Err(e))
                                        && fnew.contains(e);
                                assert(failures@.contains(e));
                            }
                        }
                    } else {
                        // earlier decisions persist: the store only grows and
                        // the failure list keeps its entries
                        assert forall|kv: IdType::V|
                            #[trigger] scope_unknown_keys::<IdType, ValueType>(
                                target, pre).contains(kv)
                                && !pre.dom().contains(kv)
                            implies self@.dom().contains(kv)
                                || fetched_err::<IdType, ValueType, F>(
                                    fetcher, kv, failures@) by {
                            if params.query && !top.dom().contains(kv)
                                && fetched_err::<IdType, ValueType, F>(
                                    fetcher, kv, fails0) {
                                let (k, e) = choose|k: IdType, e: String|
                                    k@ == kv
                                        && #[trigger] call_ensures(F::get_value,
                                            (fetcher, k),
                                            Result::<ValueType, String>::Err(e))
                                        && fails0.contains(e);
                                assert(failures@.contains(e));
                            }
                        }
                    }
                    if fetch_always_succeeds::<IdType, ValueType, F>(fetcher)
                        && iterations >= 1 {
                        // tags were already truthful, so every candidate
                        // lies outside the store
                        assert forall|kv: IdType::V| #[trigger] to_update@.contains(kv)
                            implies !top.dom().contains(kv) by {
                            if frontier_opt is Some {
                                let k2 = choose|k2: IdType::V|
                                    #[trigger] rset.contains(k2)
                                        && has_unknown_key(
                                            ValueType::refs_of(top[k2]), kv);
                                assert(top.dom().contains(k2));
                                let i = choose|i: int|
                                    0 <= i < ValueType::refs_of(top[k2]).len()
                                        && ValueType::refs_of(top[k2])[i]
                                            == (kv, false);
                                assert(refs_agree(
                                    ValueType::refs_of(top[k2]), top.dom()));
                            } else {
                                let k2 = choose|k2: IdType::V|
                                    #[trigger] top.dom().contains(k2)
                                        && has_unknown_key(
                                            ValueType::refs_of(top[k2]), kv);
                                let i = choose|i: int|
                                    0 <= i < ValueType::refs_of(top[k2]).len()
                                        && ValueType::refs_of(top[k2])[i]
                                            == (kv, false);
                                assert(refs_agree(
                                    ValueType::refs_of(top[k2]), top.dom()));
                            }
                        }
                        // and a fetcher that cannot fail delivered each one
                        to_update.lemma_members();
                        assert forall|kv: IdType::V| #[trigger] to_update@.contains(kv)
                            implies ids@.contains(kv) by {
                            let j = choose|j: int|
                                0 <= j < to_update.items_seq().len()
                                    && to_update.items_seq()[j] == kv;
                            if !ids@.contains(kv) {
                                assert(fetched_err::<IdType, ValueType, F>(
                                    fetcher, kv, fnew));
                                let (k, e) = choose|k: IdType, e: String|
                                    k@ == kv
                                        && #[trigger] call_ensures(F::get_value,
                                            (fetcher, k),
                                            Result::<ValueType, String>::Err(e))
                                        && fnew.contains(e);
                                assert(false);
                            }
                        }
                        // the candidate set is non-empty, so the store grew
                        assert(exists|kv: IdType::V| to_update@.contains(kv)) by {
                            if forall|kv: IdType::V|
                                !(#[trigger] to_update@.contains(kv)) {
                                assert(to_update@ =~= Set::<IdType::V>::empty());
                            }
                        }
                        let kv0 = choose|kv: IdType::V| to_update@.contains(kv);
                        self.lemma_view_props();
                        assert(self@.dom().contains(kv0));
                        assert(top.dom().subset_of(self@.dom().remove(kv0)));
                        vstd::set_lib::lemma_len_subset(
                            top.dom(), self@.dom().remove(kv0));
                        assert(self@.dom().len() >= top.dom().len() + 1);
                    }
                }
                ids
            } else {
                KeySet::<IdType>::new()
            };
            proof {
                self.lemma_view_props();
                assert(new_ids@.subset_of(self@.dom()));
                // every key added so far is referenced by a preserved entry
                // and carries an accepted fetch outcome
                assert forall|kv: IdType::V|
                    #[trigger] self@.dom().contains(kv) && !pre.dom().contains(kv)
                    implies params.query
                        && referenced_in::<IdType, ValueType>(self@, kv)
                        && fetched_value_up_to_tags::<IdType, ValueType, F>(
                            fetcher, kv, self@) by {
                    if top.dom().contains(kv) {
                        let (k2, i) = choose|k2: IdType::V, i: int|
                            top.dom().contains(k2)
                                && 0 <= i < ValueType::refs_of(top[k2]).len()
                                && (#[trigger] ValueType::refs_of(top[k2])[i]).0 == kv;
                        assert(self@[k2] == top[k2]);
                        assert(self@.dom().contains(k2));
                        assert((ValueType::refs_of(self@[k2])[i]).0 == kv);
                        let (k, v) = choose|k: IdType, v: ValueType|
                            k@ == kv
                                && #[trigger] call_ensures(F::get_value, (fetcher, k),
                                    Result::<ValueType, String>::Ok(v))
                                && top.dom().contains(kv)
                                && ValueType::erase_tags(top[kv])
                                    == ValueType::erase_tags(v@);
                        assert(self@[kv] == top[kv]);
                        assert(fetched_value_up_to_tags::<IdType, ValueType, F>(
                            fetcher, kv, self@));
                    } else {
                        assert(new_ids@.contains(kv));
                        assert(to_update@.contains(kv));
                        let (k2, i) = choose|k2: IdType::V, i: int|
                            top.dom().contains(k2)
                                && 0 <= i < ValueType::refs_of(top[k2]).len()
                                && (#[trigger] ValueType::refs_of(top[k2])[i]).0 == kv;
                        assert(self@[k2] == top[k2]);
                        assert(self@.dom().contains(k2));
                        assert((ValueType::refs_of(self@[k2])[i]).0 == kv);
                        let (k, v) = choose|k: IdType, v: ValueType|
                            k@ == kv
                                && #[trigger] call_ensures(F::get_value, (fetcher, k),
                                    Result::<ValueType, String>::Ok(v))
                                && self@.dom().contains(kv) && self@[kv] == v@;
                        assert(fetched_value_up_to_tags::<IdType, ValueType, F>(
                            fetcher, kv, self@));
                    }
                }
            }
            // Rewrite: re-tag the whole store against the keys now present.
            let ghost mid = self@;
            let ghost ch_old = changes@;
            proof {
                assert forall|kv: IdType::V| #[trigger] pre.dom().contains(kv)
                    implies mid.dom().contains(kv) && mid[kv] == top[kv] by {
                    assert(top.dom().contains(kv));
                }
            }
            let mut changed = self.update_relations(&new_ids);
            proof {
                assert(mid.dom().union(new_ids@) =~= self@.dom());
                assert(self@.dom() == mid.dom());
                assert forall|kv: IdType::V| #[trigger] self@.dom().contains(kv)
                    implies refs_agree(
                        ValueType::refs_of(self@[kv]), self@.dom()) by {
                    assert(mid.dom().contains(kv));
                    assert(refs_agree(
                        ValueType::refs_of(self@[kv]), mid.dom().union(new_ids@)));
                    assert(mid.dom().union(new_ids@) == self@.dom());
                }
                assert(tags_consistent::<IdType, ValueType>(self@));
                assert forall|kv: IdType::V| #[trigger] pre.dom().contains(kv)
                    implies same_ref_keys(
                        ValueType::refs_of(pre[kv]),
                        ValueType::refs_of(self@[kv])) by {
                    assert(mid.dom().contains(kv));
                    assert(same_ref_keys(
                        ValueType::refs_of(pre[kv]), ValueType::refs_of(top[kv])));
                    assert(same_ref_keys(
                        ValueType::refs_of(mid[kv]), ValueType::refs_of(self@[kv])));
                    assert(mid[kv] == top[kv]);
                }
                assert forall|kv: IdType::V| #[trigger] pre.dom().contains(kv)
                    implies ValueType::erase_tags(self@[kv])
                        == ValueType::erase_tags(pre[kv]) by {
                    assert(mid.dom().contains(kv));
                    assert(ValueType::erase_tags(self@[kv])
                        == ValueType::erase_tags(mid[kv]));
                    assert(mid[kv] == top[kv]);
                    assert(ValueType::erase_tags(top[kv])
                        == ValueType::erase_tags(pre[kv]));
                }
                // added keys keep their witnesses across the rewrite
                assert forall|kv: IdType::V|
                    #[trigger] self@.dom().contains(kv) && !pre.dom().contains(kv)
                    implies params.query
                        && referenced_in::<IdType, ValueType>(self@, kv)
                        && fetched_value_up_to_tags::<IdType, ValueType, F>(
                            fetcher, kv, self@) by {
                    assert(mid.dom().contains(kv));
                    let (k2, i) = choose|k2: IdType::V, i: int|
                        mid.dom().contains(k2)
                            && 0 <= i < ValueType::refs_of(mid[k2]).len()
                            && (#[trigger] ValueType::refs_of(mid[k2])[i]).0 == kv;
                    assert(same_ref_keys(
                        ValueType::refs_of(mid[k2]), ValueType::refs_of(self@[k2])));
                    assert(self@.dom().contains(k2));
                    assert((ValueType::refs_of(self@[k2])[i]).0 == kv);
                    let (k, v) = choose|k: IdType, v: ValueType|
                        k@ == kv
                            && #[trigger] call_ensures(F::get_value, (fetcher, k),
                                Result::<ValueType, String>::Ok(v))
                            && mid.dom().contains(kv)
                            && ValueType::erase_tags(mid[kv])
                                == ValueType::erase_tags(v@);
                    assert(ValueType::erase_tags(self@[kv])
                        == ValueType::erase_tags(mid[kv]));
                    assert(fetched_value_up_to_tags::<IdType, ValueType, F>(
                        fetcher, kv, self@));
                }
            }
            // Scoped runs restrict the next frontier to the entries this
            // pass actually changed.
            if frontier_opt.is_some() {
                let mut nf = KeySet::<IdType>::new();
                let cn = changed.len();
                let mut c: usize = 0;
                while c < cn
                    invariant
                        c <= cn,
                        cn == changed@.len(),
                        forall|cc: int| 0 <= cc < changed@.len()
                            ==> self@.dom().contains((#[trigger] changed@[cc]).0@),
                        nf@.subset_of(self@.dom()),
                    decreases cn - c,
                {
                    nf.insert(changed[c].0.dup());
                    c = c + 1;
                }
                frontier_opt = Some(nf);
            }
            let ghost chd = changed@;
            changes.append(&mut changed);
            proof {
                assert(changes@ =~= ch_old + chd);
                assert(changes_view(changes@) =~= changes_view(ch_old) + changes_view(chd));
                assert forall|kv: IdType::V| #[trigger] pre.dom().contains(kv)
                    implies unknown_count(ValueType::refs_of(self@[kv]))
                        == unknown_count(ValueType::refs_of(pre[kv]))
                            - delta_sum(changes_view(changes@), kv) by {
                    lemma_delta_sum_add(changes_view(ch_old), changes_view(chd), kv);
                    assert(mid.dom().contains(kv));
                    assert(unknown_count(ValueType::refs_of(self@[kv]))
                        == unknown_count(ValueType::refs_of(mid[kv]))
                            - delta_sum(changes_view(chd), kv));
                    assert(mid[kv] == top[kv]);
                    assert(unknown_count(ValueType::refs_of(top[kv]))
                        == unknown_count(ValueType::refs_of(pre[kv]))
                            - delta_sum(changes_view(ch_old), kv));
                }
                if iterations == 0 {
                    // a first pass reports in strictly ascending key order
                    assert(ch_old.len() == 0);
                    assert forall|c1: int, c2: int| 0 <= c1 < c2 < changes@.len()
                        implies IdType::key_lt(
                            (changes@[c1]).0@, (changes@[c2]).0@) by {
                        assert(changes@[c1] == chd[c1]);
                        assert(changes@[c2] == chd[c2]);
                    }
                }
                self.lemma_view_props();
                if params.query
                    && fetch_always_succeeds::<IdType, ValueType, F>(fetcher)
                    && iterations == 0 {
                    vstd::set_lib::lemma_len_subset(pre.dom(), self@.dom());
                }
            }
            iterations = iterations + 1;
            if empty_discovery {
                converged = true;
                proof {
                    if params.query && iterations == 1 {
                        // a first pass that found the scope clean discovered
                        // no keys, so acquisition had nothing to decide
                        lemma_scope_keys_empty::<IdType, ValueType>(target, pre);
                    }
                    // the scope was discovered clean, the final pass has run:
                    // every tag is now truthful, and a store that was already
                    // consistent came through untouched
                    if scope_unknowns_empty::<IdType, ValueType>(target, pre)
                        && tags_consistent::<IdType, ValueType>(pre) {
                        assert(top == pre);
                        assert(mid == pre);
                        assert forall|kv: IdType::V| #[trigger] mid.dom().contains(kv)
                            implies refs_agree(
                                ValueType::refs_of(mid[kv]),
                                mid.dom().union(new_ids@)) by {
                            assert(mid.dom().union(new_ids@) =~= mid.dom());
                        }
                        assert(chd.len() == 0 && self@ == mid);
                        assert(changes@ =~= ch_old);
                    }
                }
                break;
            }
        }
        ResolveReport { changes, failures, iterations, converged }
    }
}

/// From an empty discovery at the first pass, conclude that the scope holds
/// no unresolved references.  For a scoped run, `roots` is the frontier; for
/// a whole-store run it is unused.
proof fn lemma_scope_from_empty_discovery<K: CacheIdentifier, V: RelationalEntry<K>>(
    target: ResolveTarget<K>,
    m: Map<K::V, V::V>,
    roots: Set<K::V>,
    found: Set<K::V>,
)
    requires
        found == Set::<K::V>::empty(),
        !(target is All) ==> roots == target_roots(target),
        target_in_cache(target, m),
        target is All ==> forall|kv: K::V| #[trigger] m.dom().contains(kv)
            ==> unknown_key_set(V::refs_of(m[kv])).subset_of(found),
        !(target is All) ==> forall|kv: K::V| #[trigger] roots.contains(kv)
            ==> unknown_key_set(V::refs_of(m[kv])).subset_of(found),
    ensures
        scope_unknowns_empty::<K, V>(target, m),
{
    match target {
        ResolveTarget::All => {
            assert forall|kv: K::V| #[trigger] m.dom().contains(kv)
                implies unknown_count(V::refs_of(m[kv])) == 0 by {
                assert(unknown_key_set(V::refs_of(m[kv])) =~= Set::<K::V>::empty());
                lemma_unknown_set_vs_count(V::refs_of(m[kv]));
            }
        }
        ResolveTarget::Single(root) => {
            assert(roots.contains(root@));
            assert(unknown_key_set(V::refs_of(m[root@])) =~= Set::<K::V>::empty());
            lemma_unknown_set_vs_count(V::refs_of(m[root@]));
        }
        ResolveTarget::Multiple(rs) => {
            assert forall|i: int| 0 <= i < rs@.len()
                implies unknown_count(V::refs_of(m[(#[trigger] rs@[i])@])) == 0 by {
                assert(roots.contains(rs@[i]@));
                assert(unknown_key_set(V::refs_of(m[rs@[i]@]))
                    =~= Set::<K::V>::empty());
                lemma_unknown_set_vs_count(V::refs_of(m[rs@[i]@]));
            }
        }
    }
}

/// From a non-empty discovery at the first pass, conclude that the scope
/// still holds an unresolved reference.
proof fn lemma_scope_from_nonempty_discovery<K: CacheIdentifier, V: RelationalEntry<K>>(
    target: ResolveTarget<K>,
    m: Map<K::V, V::V>,
    roots: Set<K::V>,
    found: Set<K::V>,
)
    requires
        found != Set::<K::V>::empty(),
        !(target is All) ==> roots == target_roots(target),
        target is All ==> forall|kv: K::V| #[trigger] found.contains(kv)
            ==> exists|k2: K::V| #[trigger] m.dom().contains(k2)
                && has_unknown_key(V::refs_of(m[k2]), kv),
        !(target is All) ==> forall|kv: K::V| #[trigger] found.contains(kv)
            ==> exists|k2: K::V| #[trigger] roots.contains(k2)
                && has_unknown_key(V::refs_of(m[k2]), kv),
    ensures
        !scope_unknowns_empty::<K, V>(target, m),
{
    assert(exists|kv: K::V| found.contains(kv)) by {
        if forall|kv: K::V| !(#[trigger] found.contains(kv)) {
            assert(found =~= Set::<K::V>::empty());
        }
    }
    let kv = choose|kv: K::V| found.contains(kv);
    match target {
        ResolveTarget::All => {
            let k2 = choose|k2: K::V|
                m.dom().contains(k2) && has_unknown_key(V::refs_of(m[k2]), kv);
            lemma_has_unknown_nonzero(V::refs_of(m[k2]), kv);
        }
        ResolveTarget::Single(root) => {
            let k2 = choose|k2: K::V|
                roots.contains(k2) && has_unknown_key(V::refs_of(m[k2]), kv);
            assert(k2 == root@);
            lemma_has_unknown_nonzero(V::refs_of(m[root@]), kv);
        }
        ResolveTarget::Multiple(rs) => {
            let k2 = choose|k2: K::V|
                roots.contains(k2) && has_unknown_key(V::refs_of(m[k2]), kv);
            let i = choose|i: int| 0 <= i < rs@.len() && rs@[i]@ == k2;
            lemma_has_unknown_nonzero(V::refs_of(m[k2]), kv);
            assert(unknown_count(V::refs_of(m[(rs@[i])@])) != 0);
        }
    }
}

/// A reference tagged unknown keeps the unknown count positive.
proof fn lemma_has_unknown_nonzero<KV>(refs: Seq<(KV, bool)>, kv: KV)
    requires
        has_unknown_key(refs, kv),
    ensures
        unknown_count(refs) != 0,
{
    lemma_unknown_count_zero(refs);
    let i = choose|i: int| 0 <= i < refs.len() && refs[i] == (kv, false);
    assert(!(refs[i]).1);
}

/// A scope with no unknown tags discovers no keys at all.
proof fn lemma_scope_keys_empty<K: CacheIdentifier, V: RelationalEntry<K>>(
    target: ResolveTarget<K>,
    m: Map<K::V, V::V>,
)
    requires
        scope_unknowns_empty::<K, V>(target, m),
    ensures
        scope_unknown_keys::<K, V>(target, m) == Set::<K::V>::empty(),
{
    assert forall|kv: K::V|
        !(#[trigger] scope_unknown_keys::<K, V>(target, m).contains(kv)) by {
        if scope_unknown_keys::<K, V>(target, m).contains(kv) {
            match target {
                ResolveTarget::All => {
                    let k2 = choose|k2: K::V| #[trigger] m.dom().contains(k2)
                        && has_unknown_key(V::refs_of(m[k2]), kv);
                    lemma_has_unknown_nonzero(V::refs_of(m[k2]), kv);
                }
                ResolveTarget::Single(root) => {
                    lemma_unknown_set_vs_count(V::refs_of(m[root@]));
                }
                ResolveTarget::Multiple(rs) => {
                    let i = choose|i: int| 0 <= i < rs@.len()
                        && unknown_key_set(
                            V::refs_of(m[(#[trigger] rs@[i])@])).contains(kv);
                    lemma_unknown_set_vs_count(V::refs_of(m[rs@[i]@]));
                }
            }
            assert(false);
        }
    }
    assert(scope_unknown_keys::<K, V>(target, m) =~= Set::<K::V>::empty());
}

/// Idempotence without query: two resolution runs in a row over the same
/// target and parameters, with querying disabled, end with the second run
/// leaving the store exactly as the first run left it and reporting no
/// deltas.
pub proof fn law_idempotent_without_query<K: CacheIdentifier, V: RelationalEntry<K>>(
    s0: Map<K::V, V::V>,
    s1: Map<K::V, V::V>,
    s2: Map<K::V, V::V>,
    target: ResolveTarget<K>,
    params: ResolveParams,
    ch1: Seq<(K::V, int)>,
    it1: int,
    cv1: bool,
    ch2: Seq<(K::V, int)>,
    it2: int,
    cv2: bool,
)
    requires
        !params.query,
        resolve_post::<K, V>(s0, s1, target, params, ch1, it1, cv1),
        resolve_post::<K, V>(s1, s2, target, params, ch2, it2, cv2),
    ensures
        s2 == s1,
        ch2.len() == 0,
{
    if it1 == 0 {
        assert(s1 == s0 && params.depth == 0);
        assert(it2 == 0);
    } else {
        assert(tags_consistent::<K, V>(s1));
    }
}

/// Convergence reaches a fixed point: a converged run leaves every tag
/// truthful, and once a store additionally holds no unknown reference at all
/// (for instance after a converged run in which every fetch succeeded and
/// nothing stale was flipped), any further run over it — whatever its scope,
/// as long as its roots are cached — converges after one untouched identity
/// pass, changing nothing and reporting nothing.
pub proof fn law_convergence_fixed_point<K: CacheIdentifier, V: RelationalEntry<K>>(
    s0: Map<K::V, V::V>,
    s1: Map<K::V, V::V>,
    s2: Map<K::V, V::V>,
    params1: ResolveParams,
    ch1: Seq<(K::V, int)>,
    it1: int,
    target2: ResolveTarget<K>,
    params2: ResolveParams,
    ch2: Seq<(K::V, int)>,
    it2: int,
    cv2: bool,
)
    requires
        resolve_post::<K, V>(s0, s1, ResolveTarget::All, params1, ch1, it1, true),
        no_unknowns::<K, V>(s1),
        target_in_cache(target2, s1),
        params2.depth > 0,
        resolve_post::<K, V>(s1, s2, target2, params2, ch2, it2, cv2),
    ensures
        tags_consistent::<K, V>(s1),
        cv2,
        it2 == 1,
        s2 == s1,
        ch2.len() == 0,
{
    assert(it1 >= 1);
    assert(tags_consistent::<K, V>(s1));
    assert(scope_unknowns_empty::<K, V>(target2, s1)) by {
        match target2 {
            ResolveTarget::All => {}
            ResolveTarget::Single(root) => {
                assert(s1.dom().contains(root@));
            }
            ResolveTarget::Multiple(rs) => {
                assert forall|i: int| 0 <= i < rs@.len()
                    implies unknown_count(V::refs_of(s1[(#[trigger] rs@[i])@])) == 0 by {
                    assert(s1.dom().contains(rs@[i]@));
                }
            }
        }
    }
}

/// Eventual convergence for a bounded source: a querying run whose fetcher
/// cannot fail — so every pass after the first strictly grows the store, as
/// the algorithm guarantees — and whose keys all come from a finite universe
/// converges as soon as the depth bound exceeds the universe's slack over
/// the starting store.
pub proof fn law_convergence_with_bounded_fetches<K: CacheIdentifier, V: RelationalEntry<K>>(
    pre: Map<K::V, V::V>,
    post: Map<K::V, V::V>,
    target: ResolveTarget<K>,
    params: ResolveParams,
    changes: Seq<(K::V, int)>,
    iterations: int,
    converged: bool,
    universe: Set<K::V>,
)
    requires
        resolve_post::<K, V>(pre, post, target, params, changes, iterations, converged),
        params.query,
        !converged && iterations >= 1
            ==> post.dom().len() >= pre.dom().len() + iterations - 1,
        universe.finite(),
        post.dom().subset_of(universe),
        params.depth as int > universe.len() - pre.dom().len() + 1,
    ensures
        converged,
{
    if !converged {
        assert(iterations == params.depth as int);
        vstd::set_lib::lemma_len_subset(post.dom(), universe);
        assert(pre.dom().subset_of(universe));
        vstd::set_lib::lemma_len_subset(pre.dom(), universe);
        assert(false);
    }
}

} // verus!
