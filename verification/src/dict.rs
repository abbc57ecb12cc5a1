//! The string dictionary.
//!
//! A dictionary is an ordered sequence of unique byte-string names, sorted
//! ascending in lexicographic order; an entry's position is its permanent
//! index for the compiled database that was built with it. Lookups go by
//! binary search (name to index) and by checked indexed access (index to
//! name).

use vstd::prelude::*;
use vstd::slice::{slice_index_get, slice_subrange, slice_to_vec};

verus! {

/// Strict lexicographic order on byte strings: `a` comes before `b` when at
/// the first differing position `a` holds the smaller byte, or when `a` is a
/// proper prefix of `b`.
pub open spec fn lex_lt(a: Seq<u8>, b: Seq<u8>) -> bool
    decreases a.len(),
{
    if b.len() == 0 {
        false
    } else if a.len() == 0 {
        true
    } else if a[0] < b[0] {
        true
    } else if a[0] > b[0] {
        false
    } else {
        lex_lt(a.drop_first(), b.drop_first())
    }
}

/// No byte string comes before itself.
pub proof fn lemma_lex_irreflexive(a: Seq<u8>)
    ensures
        !lex_lt(a, a),
    decreases a.len(),
{
    if a.len() > 0 {
        lemma_lex_irreflexive(a.drop_first());
    }
}

/// Of two byte strings, either one comes before the other or they are equal.
pub proof fn lemma_lex_connected(a: Seq<u8>, b: Seq<u8>)
    ensures
        !lex_lt(a, b) && !lex_lt(b, a) ==> a == b,
    decreases a.len(),
{
    if a.len() == 0 || b.len() == 0 {
        if !lex_lt(a, b) && !lex_lt(b, a) {
            assert(a =~= b);
        }
    } else if a[0] == b[0] {
        lemma_lex_connected(a.drop_first(), b.drop_first());
        if !lex_lt(a, b) && !lex_lt(b, a) {
            assert(lex_lt(a, b) == lex_lt(a.drop_first(), b.drop_first()));
            assert(lex_lt(b, a) == lex_lt(b.drop_first(), a.drop_first()));
            assert(a.drop_first() == b.drop_first());
            assert(a.len() == b.len());
            assert forall|i: int| 0 <= i < a.len() implies a[i] == b[i] by {
                if i > 0 {
                    assert(a[i] == a.drop_first()[i - 1]);
                    assert(b[i] == b.drop_first()[i - 1]);
                }
            }
            assert(a =~= b);
        }
    }
}

/// Lexicographic order is transitive.
pub proof fn lemma_lex_transitive(a: Seq<u8>, b: Seq<u8>, c: Seq<u8>)
    requires
        lex_lt(a, b),
        lex_lt(b, c),
    ensures
        lex_lt(a, c),
    decreases a.len(),
{
    if a.len() > 0 && b.len() > 0 && c.len() > 0 && a[0] == b[0] && b[0] == c[0] {
        lemma_lex_transitive(a.drop_first(), b.drop_first(), c.drop_first());
    }
}

/// Whether `a` comes before `b`; decides [`lex_lt`].
pub fn bytes_lt(a: &[u8], b: &[u8]) -> (r: bool)
    ensures
        r == lex_lt(a@, b@),
    decreases a@.len(),
{
    if b.len() == 0 {
        false
    } else if a.len() == 0 {
        true
    } else if *slice_index_get(a, 0) < *slice_index_get(b, 0) {
        true
    } else if *slice_index_get(a, 0) > *slice_index_get(b, 0) {
        false
    } else {
        proof {
            assert(a@.subrange(1, a@.len() as int) =~= a@.drop_first());
            assert(b@.subrange(1, b@.len() as int) =~= b@.drop_first());
        }
        bytes_lt(slice_subrange(a, 1, a.len()), slice_subrange(b, 1, b.len()))
    }
}

/// Whether `a` and `b` hold the same bytes.
pub fn bytes_eq(a: &[u8], b: &[u8]) -> (r: bool)
    ensures
        r == (a@ == b@),
    decreases a@.len(),
{
    if a.len() != b.len() {
        false
    } else if a.len() == 0 {
        proof {
            assert(a@ =~= b@);
        }
        true
    } else if *slice_index_get(a, 0) != *slice_index_get(b, 0) {
        false
    } else {
        proof {
            assert(a@.subrange(1, a@.len() as int) =~= a@.drop_first());
            assert(b@.subrange(1, b@.len() as int) =~= b@.drop_first());
        }
        let r = bytes_eq(slice_subrange(a, 1, a.len()), slice_subrange(b, 1, b.len()));
        proof {
            if a@.drop_first() == b@.drop_first() && a@[0] == b@[0] {
                assert forall|i: int| 0 <= i < a@.len() implies a@[i] == b@[i] by {
                    if i > 0 {
                        assert(a@[i] == a@.drop_first()[i - 1]);
                        assert(b@[i] == b@.drop_first()[i - 1]);
                    }
                }
                assert(a@ =~= b@);
            }
        }
        r
    }
}

/// A strictly ascending sequence of names: sorted, and therefore free of
/// duplicates.
pub open spec fn strictly_sorted(s: Seq<Seq<u8>>) -> bool {
    forall|i: int, j: int| #![trigger s[i], s[j]] 0 <= i < j < s.len() ==> lex_lt(s[i], s[j])
}

/// A name can stand at only one position of a strictly sorted dictionary, so
/// looking a name up by binary search recovers exactly the index it was
/// stored at: the dictionary round-trips between names and indices.
pub proof fn lemma_dictionary_round_trip(s: Seq<Seq<u8>>, i: int, j: int)
    requires
        strictly_sorted(s),
        0 <= i < s.len(),
        0 <= j < s.len(),
        s[i] == s[j],
    ensures
        i == j,
{
    lemma_lex_irreflexive(s[i]);
}

/// A strictly sorted name table holds no duplicates, so it has exactly as
/// many entries as distinct names.
pub proof fn lemma_sorted_names_count(s: Seq<Seq<u8>>)
    requires
        strictly_sorted(s),
    ensures
        s.to_set().finite(),
        s.to_set().len() == s.len(),
{
    broadcast use vstd::seq_lib::seq_to_set_is_finite;

    assert forall|i: int, j: int| 0 <= i < j < s.len() implies s[i] != s[j] by {
        if s[i] == s[j] {
            lemma_lex_irreflexive(s[i]);
        }
    }
    s.unique_seq_to_set();
}

/// A sorted, deduplicated table of names whose positions are permanent
/// indices.
pub struct Dictionary {
    entries: Vec<Vec<u8>>,
}

impl Dictionary {
    /// The names, in index order.
    pub closed spec fn names(self) -> Seq<Seq<u8>> {
        Seq::new(self.entries@.len(), |i: int| self.entries@[i]@)
    }

    /// The names are strictly sorted.
    pub open spec fn wf(self) -> bool {
        strictly_sorted(self.names())
    }

    /// The empty dictionary.
    pub fn new() -> (d: Dictionary)
        ensures
            d.wf(),
            d.names().len() == 0,
    {
        Dictionary { entries: Vec::new() }
    }

    /// The number of names in the dictionary.
    pub fn len(&self) -> (r: usize)
        ensures
            r == self.names().len(),
    {
        self.entries.len()
    }

    /// Adds a name unless it is already present, keeping the names sorted:
    /// afterwards the dictionary holds exactly the names it held before plus
    /// this one.
    pub fn insert(&mut self, name: &[u8])
        requires
            old(self).wf(),
        ensures
            final (self).wf(),
            forall|n: Seq<u8>| #[trigger]
                final (self).names().contains(n) <==> old(self).names().contains(n) || n
                    == name@,
    {
        let ghost s0 = self.names();
        let len = self.entries.len();
        let mut k: usize = 0;
        while k < len && bytes_lt(self.entries[k].as_slice(), name)
            invariant
                len == s0.len(),
                s0 == self.names(),
                k <= len,
                forall|j: int| 0 <= j < k ==> lex_lt(#[trigger] s0[j], name@),
            decreases len - k,
        {
            k += 1;
        }
        if k < len && bytes_eq(self.entries[k].as_slice(), name) {
            proof {
                assert(s0[k as int] == name@);
                assert(s0.contains(name@));
            }
            return ;
        }
        let ghost e0 = self.entries@;
        let owned = slice_to_vec(name);
        let ghost gowned = owned;
        self.entries.insert(k, owned);
        proof {
            e0.insert_ensures(k as int, gowned);
            let s1 = self.names();
            // the new name stands at the scan stop, everything else keeps its
            // relative order
            assert(s1.len() == s0.len() + 1);
            assert(forall|i: int| 0 <= i < k ==> s1[i] == #[trigger] s0[i]);
            assert(s1[k as int] == name@);
            assert forall|i: int| k <= i < s0.len() implies s1[i + 1] == #[trigger] s0[i] by {
                assert(self.entries@[i + 1] == e0[i]);
            }
            // the name at the scan stop comes strictly after the new one
            if k < s0.len() {
                lemma_lex_connected(s0[k as int], name@);
            }
            assert forall|i: int, j: int| #![trigger s1[i], s1[j]] 0 <= i < j < s1.len() implies lex_lt(
                s1[i],
                s1[j],
            ) by {
                if j < k {
                    assert(s1[i] == s0[i] && s1[j] == s0[j]);
                } else if j == k {
                    assert(s1[i] == s0[i] && lex_lt(s0[i], name@));
                } else if i < k {
                    assert(s1[i] == s0[i] && s1[j] == s0[j - 1]);
                    assert(i < j - 1 && lex_lt(s0[i], s0[j - 1]));
                } else if i == k {
                    assert(s1[j] == s0[j - 1] && lex_lt(name@, s0[k as int]));
                    if j - 1 > k {
                        assert(lex_lt(s0[k as int], s0[j - 1]));
                        lemma_lex_transitive(name@, s0[k as int], s0[j - 1]);
                    }
                } else {
                    assert(s1[i] == s0[i - 1] && s1[j] == s0[j - 1]);
                    assert(lex_lt(s0[i - 1], s0[j - 1]));
                }
            }
            assert forall|n: Seq<u8>| #[trigger]
                s1.contains(n) <==> s0.contains(n) || n == name@ by {
                if s1.contains(n) {
                    let i = choose|i: int| 0 <= i < s1.len() && s1[i] == n;
                    if i < k {
                        assert(s0[i] == n);
                    } else if i > k {
                        assert(s0[i - 1] == n);
                    }
                }
                if s0.contains(n) {
                    let i = choose|i: int| 0 <= i < s0.len() && s0[i] == n;
                    if i < k {
                        assert(s1[i] == n);
                    } else {
                        assert(s1[i + 1] == n);
                    }
                }
                if n == name@ {
                    assert(s1[k as int] == n);
                }
            }
        }
    }

    /// The index of a name: binary search over the sorted table. `None`
    /// exactly when the name is absent.
    pub fn name_to_index(&self, name: &[u8]) -> (r: Option<usize>)
        requires
            self.wf(),
        ensures
            match r {
                Some(i) => i < self.names().len() && self.names()[i as int] == name@,
                None => !self.names().contains(name@),
            },
    {
        let ghost s = self.names();
        let len = self.entries.len();
        let mut lo: usize = 0;
        let mut hi: usize = len;
        while lo < hi
            invariant
                s == self.names(),
                self.wf(),
                len == s.len(),
                lo <= hi <= len,
                forall|j: int| 0 <= j < lo ==> lex_lt(#[trigger] s[j], name@),
                forall|j: int| hi <= j < len ==> !lex_lt(#[trigger] s[j], name@),
            decreases hi - lo,
        {
            let mid = lo + (hi - lo) / 2;
            if bytes_lt(self.entries[mid].as_slice(), name) {
                proof {
                    assert forall|j: int| 0 <= j < mid + 1 implies lex_lt(
                        #[trigger] s[j],
                        name@,
                    ) by {
                        if j < mid {
                            lemma_lex_transitive(s[j], s[mid as int], name@);
                        }
                    }
                }
                lo = mid + 1;
            } else {
                proof {
                    assert forall|j: int| mid <= j < len implies !lex_lt(
                        #[trigger] s[j],
                        name@,
                    ) by {
                        if j > mid && lex_lt(s[j], name@) {
                            lemma_lex_transitive(s[mid as int], s[j], name@);
                        }
                    }
                }
                hi = mid;
            }
        }
        if lo < len && bytes_eq(self.entries[lo].as_slice(), name) {
            Some(lo)
        } else {
            proof {
                assert forall|j: int| 0 <= j < len implies s[j] != name@ by {
                    lemma_lex_irreflexive(name@);
                    if j >= lo && lo < len && j > lo {
                        lemma_lex_connected(s[lo as int], name@);
                        if lex_lt(name@, s[lo as int]) && lex_lt(s[lo as int], s[j]) {
                            lemma_lex_transitive(name@, s[lo as int], s[j]);
                        }
                    } else if j == lo && lo < len {
                        lemma_lex_connected(s[lo as int], name@);
                    }
                }
            }
            None
        }
    }

    /// The name at an index: direct access, `None` exactly when the index is
    /// out of range.
    pub fn index_to_name(&self, index: usize) -> (r: Option<&Vec<u8>>)
        ensures
            match r {
                Some(n) => index < self.names().len() && n@ == self.names()[index as int],
                None => index >= self.names().len(),
            },
    {
        if index < self.entries.len() {
            Some(&self.entries[index])
        } else {
            None
        }
    }
}

} // verus!
