//! The contract a cache key must satisfy.
//!
//! The cache iterates its entries in the order of their keys, so a key type
//! must come with a strict total order on its abstract views, an executable
//! comparison deciding that order, a decidable view equality, and a way to
//! duplicate a key.  `String` keys are ordered lexicographically by character.

use vstd::prelude::*;

verus! {

/// A key usable by the cache: totally ordered by view, comparable, cloneable.
pub trait CacheIdentifier: View + Sized {
    /// The strict order on key views that fixes the cache's iteration order.
    spec fn key_lt(a: Self::V, b: Self::V) -> bool;

    /// `key_lt` is a strict total order: asymmetric, transitive, and any two
    /// distinct views are ordered one way or the other.
    proof fn lemma_key_order()
        ensures
            forall|a: Self::V, b: Self::V| #[trigger] Self::key_lt(a, b) ==> !Self::key_lt(b, a),
            forall|a: Self::V, b: Self::V, c: Self::V|
                #[trigger] Self::key_lt(a, b) && #[trigger] Self::key_lt(b, c)
                    ==> Self::key_lt(a, c),
            forall|a: Self::V, b: Self::V|
                #[trigger] Self::key_lt(a, b) || #[trigger] Self::key_lt(b, a) || a == b,
    ;

    /// Decide the order on two keys.
    fn lt(&self, other: &Self) -> (r: bool)
        ensures
            r == Self::key_lt(self@, other@),
    ;

    /// Decide view equality of two keys.
    fn eq_key(&self, other: &Self) -> (r: bool)
        ensures
            r == (self@ == other@),
    ;

    /// Produce a key with the same view.
    fn dup(&self) -> (r: Self)
        ensures
            r@ == self@,
    ;
}

/// Position `i` witnesses that `a` is lexicographically before `b`: the first
/// `i` characters agree and either `a` ends there while `b` goes on, or the
/// characters at `i` differ in `a`'s favour.
pub open spec fn lex_lt_at(a: Seq<char>, b: Seq<char>, i: int) -> bool {
    &&& 0 <= i <= a.len()
    &&& i <= b.len()
    &&& forall|j: int| 0 <= j < i ==> a[j] == b[j]
    &&& if i == a.len() {
        i < b.len()
    } else {
        i < b.len() && (a[i] as int) < (b[i] as int)
    }
}

/// Lexicographic order on character sequences.
pub open spec fn lex_lt(a: Seq<char>, b: Seq<char>) -> bool {
    exists|i: int| lex_lt_at(a, b, i)
}

/// If the two sequences agree on every position below `i`, any remaining
/// disagreement shows up at or after `i`; used to push a common prefix
/// through the order.
proof fn lemma_lex_common_prefix(a: Seq<char>, b: Seq<char>, i: int)
    requires
        0 <= i <= a.len(),
        i <= b.len(),
        !lex_lt(a, b),
        !lex_lt(b, a),
    ensures
        forall|j: int| 0 <= j < i ==> a[j] == b[j],
    decreases i,
{
    if i > 0 {
        lemma_lex_common_prefix(a, b, i - 1);
        if a[i - 1] != b[i - 1] {
            if (a[i - 1] as int) < (b[i - 1] as int) {
                assert(lex_lt_at(a, b, i - 1));
            } else {
                assert(lex_lt_at(b, a, i - 1));
            }
            assert(false);
        }
    }
}

/// The three strict-total-order laws for `lex_lt`.
pub proof fn lemma_lex_lt_order()
    ensures
        forall|a: Seq<char>, b: Seq<char>| #[trigger] lex_lt(a, b) ==> !lex_lt(b, a),
        forall|a: Seq<char>, b: Seq<char>, c: Seq<char>|
            #[trigger] lex_lt(a, b) && #[trigger] lex_lt(b, c) ==> lex_lt(a, c),
        forall|a: Seq<char>, b: Seq<char>|
            #[trigger] lex_lt(a, b) || #[trigger] lex_lt(b, a) || a == b,
{
    assert forall|a: Seq<char>, b: Seq<char>| #[trigger] lex_lt(a, b) implies !lex_lt(b, a) by {
        if lex_lt(b, a) {
            let i = choose|i: int| lex_lt_at(a, b, i);
            let j = choose|j: int| lex_lt_at(b, a, j);
            if i < j {
                assert(a[i] == b[i]);
            } else if j < i {
                assert(b[j] == a[j]);
            }
            assert(false);
        }
    }
    assert forall|a: Seq<char>, b: Seq<char>, c: Seq<char>|
        #[trigger] lex_lt(a, b) && #[trigger] lex_lt(b, c) implies lex_lt(a, c) by {
        let i = choose|i: int| lex_lt_at(a, b, i);
        let j = choose|j: int| lex_lt_at(b, c, j);
        let k = if i <= j { i } else { j };
        assert(lex_lt_at(a, c, k));
    }
    assert forall|a: Seq<char>, b: Seq<char>| !lex_lt(a, b) && !lex_lt(b, a) implies a == b by {
        if a.len() < b.len() {
            lemma_lex_common_prefix(a, b, a.len() as int);
            assert(lex_lt_at(a, b, a.len() as int));
            assert(false);
        } else if b.len() < a.len() {
            lemma_lex_common_prefix(a, b, b.len() as int);
            assert(lex_lt_at(b, a, b.len() as int));
            assert(false);
        } else {
            lemma_lex_common_prefix(a, b, a.len() as int);
            assert(a =~= b);
        }
    }
}

/// Decide the lexicographic order on two string slices.
pub fn str_lex_lt(a: &str, b: &str) -> (r: bool)
    ensures
        r == lex_lt(a@, b@),
{
    let alen = a.unicode_len();
    let blen = b.unicode_len();
    let mut i: usize = 0;
    loop
        invariant
            i <= alen,
            i <= blen,
            alen == a@.len(),
            blen == b@.len(),
            forall|j: int| 0 <= j < i ==> a@[j] == b@[j],
        decreases alen - i,
    {
        if i == alen {
            if i < blen {
                proof {
                    assert(lex_lt_at(a@, b@, i as int));
                }
                return true;
            } else {
                proof {
                    assert forall|k: int| !lex_lt_at(a@, b@, k) by {
                        if 0 <= k < a@.len() {
                            assert(a@[k] == b@[k]);
                        }
                    }
                }
                return false;
            }
        }
        if i == blen {
            proof {
                assert forall|k: int| !lex_lt_at(a@, b@, k) by {
                    if 0 <= k < a@.len() && k < b@.len() {
                        assert(a@[k] == b@[k]);
                    }
                }
            }
            return false;
        }
        let ca = a.get_char(i);
        let cb = b.get_char(i);
        if (ca as u32) < (cb as u32) {
            proof {
                assert(lex_lt_at(a@, b@, i as int));
            }
            return true;
        }
        if (ca as u32) > (cb as u32) {
            proof {
                assert forall|k: int| !lex_lt_at(a@, b@, k) by {
                    if lex_lt_at(a@, b@, k) {
                        if k > i {
                            assert(a@[i as int] == b@[i as int]);
                        } else if k < i {
                            assert(a@[k] == b@[k]);
                        }
                        assert(false);
                    }
                }
            }
            return false;
        }
        proof {
            assert(a@[i as int] == b@[i as int]);
        }
        i = i + 1;
    }
}

impl CacheIdentifier for String {
    open spec fn key_lt(a: Seq<char>, b: Seq<char>) -> bool {
        lex_lt(a, b)
    }

    proof fn lemma_key_order() {
        lemma_lex_lt_order();
    }

    fn lt(&self, other: &Self) -> (r: bool) {
        str_lex_lt(self.as_str(), other.as_str())
    }

    fn eq_key(&self, other: &Self) -> (r: bool) {
        self.eq(other)
    }

    fn dup(&self) -> (r: Self) {
        self.clone()
    }
}

} // verus!
