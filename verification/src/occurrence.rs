//! Occurrence engine: builds frequency maps over comparable symbols (word
//! surfaces or single characters), sorts them by descending count, extracts
//! the symbols that occur exactly once, and merges two maps by adding counts.
//!
//! Singleton sets are always derived from a fully merged map, never tracked
//! incrementally across merges: merging counts first and deriving singletons
//! afterwards is the only composition that is associative and commutative.

use vstd::multiset::Multiset;
use vstd::prelude::*;

verus! {

/// A symbol the occurrence engine can count. A symbol abstracts to a
/// character sequence (its identity); two symbols are the same occurrence
/// exactly when their identities are equal.
pub trait Symbol: Sized {
    /// The mathematical identity of the symbol.
    spec fn key(&self) -> Seq<char>;

    /// Decides equality of the two symbols' identities.
    fn sym_eq(&self, other: &Self) -> (r: bool)
        ensures
            r == (self.key() == other.key()),
    ;

    /// Returns a symbol with the same identity.
    fn dup(&self) -> (r: Self)
        ensures
            r.key() == self.key(),
    ;
}

impl Symbol for String {
    open spec fn key(&self) -> Seq<char> {
        self@
    }

    fn sym_eq(&self, other: &Self) -> (r: bool) {
        *self == *other
    }

    fn dup(&self) -> (r: Self) {
        self.clone()
    }
}

impl Symbol for char {
    open spec fn key(&self) -> Seq<char> {
        seq![*self]
    }

    fn sym_eq(&self, other: &Self) -> (r: bool) {
        let r = *self == *other;
        proof {
            if r {
                assert(self.key() =~= other.key());
            } else {
                if self.key() == other.key() {
                    assert(self.key()[0] == other.key()[0]);
                }
            }
        }
        r
    }

    fn dup(&self) -> (r: Self) {
        *self
    }
}

/// The identities of a sequence of symbols, in order.
pub open spec fn key_seq<K: Symbol>(s: Seq<K>) -> Seq<Seq<char>> {
    s.map_values(|x: K| x.key())
}

/// How often the identity `k` occurs in `s`.
pub open spec fn occ(s: Seq<Seq<char>>, k: Seq<char>) -> int
    decreases s.len(),
{
    if s.len() == 0 {
        0
    } else {
        occ(s.drop_last(), k) + if s.last() == k {
            1int
        } else {
            0int
        }
    }
}

/// `occ` counts occurrences the way a multiset does, so it is invariant
/// under permutation of the sequence.
pub proof fn lemma_occ_is_multiset_count(s: Seq<Seq<char>>, k: Seq<char>)
    ensures
        occ(s, k) == s.to_multiset().count(k),
    decreases s.len(),
{
    broadcast use vstd::seq_lib::group_to_multiset_ensures;

    if s.len() == 0 {
        assert(s.to_multiset() =~= Multiset::<Seq<char>>::empty());
    } else {
        lemma_occ_is_multiset_count(s.drop_last(), k);
        assert(s =~= s.drop_last().push(s.last()));
        assert(s.drop_last().push(s.last()).to_multiset() =~= s.drop_last().to_multiset().insert(
            s.last(),
        ));
    }
}

/// An occurrence map: symbols with their 64-bit occurrence counts, keys
/// unique, every stored count at least 1.
pub struct OccurrenceMap<K: Symbol> {
    entries: Vec<(K, u64)>,
}

/// Total count contributed by entries whose key is `k`.
pub open spec fn sum_matching<K: Symbol>(s: Seq<(K, u64)>, k: Seq<char>) -> int
    decreases s.len(),
{
    if s.len() == 0 {
        0
    } else {
        sum_matching(s.drop_last(), k) + if s.last().0.key() == k {
            s.last().1 as int
        } else {
            0int
        }
    }
}

/// Sum of all counts in the entry sequence.
pub open spec fn sum_counts<K: Symbol>(s: Seq<(K, u64)>) -> int
    decreases s.len(),
{
    if s.len() == 0 {
        0
    } else {
        sum_counts(s.drop_last()) + s.last().1 as int
    }
}

/// The identities of the entries whose count is exactly 1, in entry order.
pub open spec fn singles<K: Symbol>(s: Seq<(K, u64)>) -> Seq<Seq<char>>
    decreases s.len(),
{
    if s.len() == 0 {
        Seq::empty()
    } else {
        singles(s.drop_last()) + if s.last().1 == 1 {
            seq![s.last().0.key()]
        } else {
            Seq::<Seq<char>>::empty()
        }
    }
}

impl<K: Symbol> OccurrenceMap<K> {
    /// The stored (identity, count) pairs, in entry order.
    pub closed spec fn pairs(&self) -> Seq<(Seq<char>, u64)> {
        pair_seq(self.entries@)
    }

    /// The stored identities, in entry order.
    pub open spec fn keys(&self) -> Seq<Seq<char>> {
        self.pairs().map_values(|p: (Seq<char>, u64)| p.0)
    }

    /// True when some entry has identity `k`.
    pub open spec fn contains_key(&self, k: Seq<char>) -> bool {
        self.keys().contains(k)
    }

    /// The occurrence count recorded for `k` (0 when absent).
    pub closed spec fn count(&self, k: Seq<char>) -> int {
        sum_matching(self.entries@, k)
    }

    /// Sum of all recorded counts.
    pub closed spec fn total(&self) -> int {
        sum_counts(self.entries@)
    }

    /// The identities whose recorded count is exactly 1, in entry order.
    pub closed spec fn single_keys(&self) -> Seq<Seq<char>> {
        singles(self.entries@)
    }

    /// The finite map from stored identity to recorded count.
    pub open spec fn to_map(&self) -> Map<Seq<char>, int> {
        Map::new(|k: Seq<char>| self.contains_key(k), |k: Seq<char>| self.count(k))
    }

    /// Well-formed: keys are unique and every count is at least 1.
    pub closed spec fn wf(&self) -> bool {
        &&& forall|i: int, j: int|
            0 <= i < j < self.entries@.len() ==> self.entries@[i].0.key() != self.entries@[j].0.key()
        &&& forall|i: int| 0 <= i < self.entries@.len() ==> (#[trigger] self.entries@[i]).1 >= 1
    }

    /// The number of distinct keys.
    pub fn len(&self) -> (n: usize)
        ensures
            n == self.keys().len(),
    {
        self.entries.len()
    }

    /// An empty occurrence map.
    pub fn new() -> (r: Self)
        ensures
            r.wf(),
            r.keys().len() == 0,
            r.total() == 0,
            forall|k: Seq<char>| r.count(k) == 0,
            forall|k: Seq<char>| !r.contains_key(k),
    {
        let r = OccurrenceMap { entries: Vec::new() };
        proof {
            assert(r.entries@.len() == 0);
            assert forall|k: Seq<char>| r.count(k) == 0 by {
                assert(sum_matching(r.entries@, k) == 0);
            }
        }
        r
    }

    /// The recorded count of the given symbol (0 when absent).
    pub fn count_of(&self, symbol: &K) -> (c: u64)
        requires
            self.wf(),
        ensures
            c == self.count(symbol.key()),
            (c >= 1) == self.contains_key(symbol.key()),
    {
        let ghost s = self.entries@;
        let ghost k = symbol.key();
        proof {
            lemma_wf_count_contains(self, k);
        }
        let mut i: usize = 0;
        while i < self.entries.len()
            invariant
                0 <= i <= s.len(),
                s == self.entries@,
                self.wf(),
                forall|j: int| 0 <= j < i ==> (#[trigger] s[j]).0.key() != k,
                k == symbol.key(),
            decreases s.len() - i,
        {
            let e = &self.entries[i];
            if e.0.sym_eq(symbol) {
                proof {
                    lemma_sum_matching_unique_entry(s, i as int, k);
                    assert((#[trigger] s[i as int]).1 >= 1);
                    assert(self.keys().contains(k)) by {
                        assert(self.keys()[i as int] == k);
                    }
                }
                return e.1;
            }
            i = i + 1;
        }
        proof {
            lemma_sum_matching_contains(s, k);
        }
        0
    }

    /// Adds `c` occurrences of the symbol: increments the stored count when
    /// the key is present, otherwise appends a fresh entry.
    fn add_count(&mut self, symbol: &K, c: u64)
        requires
            old(self).wf(),
            c >= 1,
            old(self).total() + c <= u64::MAX,
        ensures
            final(self).wf(),
            final(self).total() == old(self).total() + c,
            forall|k: Seq<char>|
                final(self).count(k) == old(self).count(k) + if k == symbol.key() {
                    c as int
                } else {
                    0int
                },
    {
        let ghost s = old(self).entries@;
        let ghost key = symbol.key();
        let n = self.entries.len();
        let mut i: usize = 0;
        while i < n
            invariant
                0 <= i <= n,
                n == s.len(),
                s == self.entries@,
                *self == *old(self),
                old(self).wf(),
                c >= 1,
                old(self).total() + c <= u64::MAX,
                forall|j: int| 0 <= j < i ==> (#[trigger] s[j]).0.key() != key,
                key == symbol.key(),
            decreases n - i,
        {
            if self.entries[i].0.sym_eq(symbol) {
                proof {
                    lemma_sum_matching_unique_entry(s, i as int, key);
                    lemma_sum_counts_entry(s, i as int);
                    lemma_sum_matching_bounds(s, key);
                }
                let entry = self.entries.remove(i);
                let updated = entry.1 + c;
                self.entries.insert(i, (entry.0, updated));
                proof {
                    let t = self.entries@;
                    assert(t =~= s.update(i as int, (s[i as int].0, updated)));
                    assert(t[i as int].0.key() == key);
                    lemma_sum_counts_update(s, i as int, t[i as int]);
                    assert forall|k: Seq<char>|
                        self.count(k) == old(self).count(k) + (if k == key {
                            c as int
                        } else {
                            0int
                        }) by {
                        lemma_sum_matching_update(s, i as int, t[i as int], k);
                    }
                    assert forall|a: int, b: int| 0 <= a < b < t.len() implies t[a].0.key()
                        != t[b].0.key() by {
                        assert(s[a].0.key() == t[a].0.key());
                        assert(s[b].0.key() == t[b].0.key());
                    }
                }
                return ;
            }
            i = i + 1;
        }
        let fresh = symbol.dup();
        self.entries.push((fresh, c));
        proof {
            let t = self.entries@;
            assert(t.drop_last() =~= s);
            assert(t.last() == (fresh, c));
            assert forall|k: Seq<char>|
                self.count(k) == old(self).count(k) + (if k == key {
                    c as int
                } else {
                    0int
                }) by {}
            assert forall|a: int, b: int| 0 <= a < b < t.len() implies t[a].0.key()
                != t[b].0.key() by {
                if b < t.len() - 1 {
                    assert(s[a].0.key() != s[b].0.key());
                } else {
                    assert(t[a] == s[a]);
                    assert(s[a].0.key() != key);
                }
            }
        }
    }
}

/// The sum of all counts is at least any single entry's count.
proof fn lemma_sum_counts_entry<K: Symbol>(s: Seq<(K, u64)>, i: int)
    requires
        0 <= i < s.len(),
    ensures
        s[i].1 <= sum_counts(s),
    decreases s.len(),
{
    lemma_sum_counts_nonneg(s.drop_last());
    if i < s.len() - 1 {
        lemma_sum_counts_entry(s.drop_last(), i);
    }
}

/// The sum of counts is never negative.
proof fn lemma_sum_counts_nonneg<K: Symbol>(s: Seq<(K, u64)>)
    ensures
        sum_counts(s) >= 0,
    decreases s.len(),
{
    if s.len() > 0 {
        lemma_sum_counts_nonneg(s.drop_last());
    }
}

/// Replacing entry `i` changes the matching sum by the difference of the two
/// entries' contributions to key `k`.
proof fn lemma_sum_matching_update<K: Symbol>(s: Seq<(K, u64)>, i: int, e: (K, u64), k: Seq<char>)
    requires
        0 <= i < s.len(),
    ensures
        sum_matching(s.update(i, e), k) == sum_matching(s, k) - (if s[i].0.key() == k {
            s[i].1 as int
        } else {
            0int
        }) + (if e.0.key() == k {
            e.1 as int
        } else {
            0int
        }),
    decreases s.len(),
{
    let t = s.update(i, e);
    if i == s.len() - 1 {
        assert(t.drop_last() =~= s.drop_last());
        assert(t.last() == e);
    } else {
        assert(t.drop_last() =~= s.drop_last().update(i, e));
        assert(t.last() == s.last());
        lemma_sum_matching_update(s.drop_last(), i, e, k);
    }
}

/// Replacing entry `i` changes the total sum by the difference of the two
/// entries' counts.
proof fn lemma_sum_counts_update<K: Symbol>(s: Seq<(K, u64)>, i: int, e: (K, u64))
    requires
        0 <= i < s.len(),
    ensures
        sum_counts(s.update(i, e)) == sum_counts(s) - s[i].1 + e.1,
    decreases s.len(),
{
    let t = s.update(i, e);
    if i == s.len() - 1 {
        assert(t.drop_last() =~= s.drop_last());
        assert(t.last() == e);
    } else {
        assert(t.drop_last() =~= s.drop_last().update(i, e));
        assert(t.last() == s.last());
        lemma_sum_counts_update(s.drop_last(), i, e);
    }
}

/// A key occurs in a sequence of identities exactly when its occurrence
/// count is positive.
pub proof fn lemma_occ_contains(s: Seq<Seq<char>>, k: Seq<char>)
    ensures
        (occ(s, k) >= 1) == s.contains(k),
        occ(s, k) >= 0,
        occ(s, k) <= s.len(),
    decreases s.len(),
{
    if s.len() > 0 {
        lemma_occ_contains(s.drop_last(), k);
        if occ(s, k) >= 1 {
            if s.last() == k {
                assert(s[s.len() - 1] == k);
            } else {
                let i = choose|i: int| 0 <= i < s.drop_last().len() && s.drop_last()[i] == k;
                assert(s[i] == k);
            }
        }
        if s.contains(k) {
            let i = choose|i: int| 0 <= i < s.len() && s[i] == k;
            if i == s.len() - 1 {
            } else {
                assert(s.drop_last()[i] == k);
                assert(s.drop_last().contains(k));
            }
        }
    }
}

/// Builds the occurrence map of a symbol sequence: each distinct identity is
/// mapped to the number of times it occurs; the counts sum to the input's
/// length. The result does not depend on the order of the input.
pub fn generate_occurrence_list<K: Symbol>(morpheme_surfaces: &Vec<K>) -> (r: OccurrenceMap<K>)
    ensures
        r.wf(),
        r.total() == morpheme_surfaces@.len(),
        forall|k: Seq<char>| r.count(k) == occ(key_seq(morpheme_surfaces@), k),
        forall|k: Seq<char>| r.contains_key(k) <==> key_seq(morpheme_surfaces@).contains(k),
{
    let ghost items = morpheme_surfaces@;
    let mut r = OccurrenceMap::<K>::new();
    let n = morpheme_surfaces.len();
    proof {
        assert(key_seq(items.subrange(0, 0)) =~= Seq::<Seq<char>>::empty());
    }
    for i in 0..n
        invariant
            n == items.len(),
            items == morpheme_surfaces@,
            r.wf(),
            r.total() == i,
            forall|k: Seq<char>| r.count(k) == occ(key_seq(items.subrange(0, i as int)), k),
    {
        r.add_count(&morpheme_surfaces[i], 1);
        proof {
            let prev = key_seq(items.subrange(0, i as int));
            let cur = key_seq(items.subrange(0, i + 1));
            assert(cur.drop_last() =~= prev);
            assert(cur.last() == items[i as int].key());
            assert forall|k: Seq<char>| r.count(k) == occ(cur, k) by {
                assert(occ(cur, k) == occ(prev, k) + if items[i as int].key() == k {
                    1int
                } else {
                    0int
                });
            }
        }
    }
    proof {
        assert(items.subrange(0, n as int) =~= items);
        assert forall|k: Seq<char>| r.contains_key(k) <==> key_seq(items).contains(k) by {
            lemma_wf_count_contains(&r, k);
            lemma_occ_contains(key_seq(items), k);
        }
    }
    r
}

/// Partial sums of counts never exceed the full sum.
proof fn lemma_sum_counts_prefix_le<K: Symbol>(s: Seq<(K, u64)>, n: int)
    requires
        0 <= n <= s.len(),
    ensures
        0 <= sum_counts(s.subrange(0, n)) <= sum_counts(s),
    decreases s.len() - n,
{
    lemma_sum_counts_nonneg(s.subrange(0, n));
    if n == s.len() {
        assert(s.subrange(0, n) =~= s);
    } else {
        lemma_sum_counts_prefix_le(s, n + 1);
        assert(s.subrange(0, n + 1).drop_last() =~= s.subrange(0, n));
        assert(s.subrange(0, n + 1).last() == s[n]);
    }
}

/// Merges two occurrence maps: for every key the result's count is the sum
/// of the two inputs' counts (a key absent from a map counts as 0). This
/// merge is the reduce step of the statistics aggregator; it is associative
/// and commutative in the counts it records.
pub fn merge<K: Symbol>(map_a: &OccurrenceMap<K>, map_b: &OccurrenceMap<K>) -> (r: OccurrenceMap<
    K,
>)
    requires
        map_a.wf(),
        map_b.wf(),
        map_a.total() + map_b.total() <= u64::MAX,
    ensures
        r.wf(),
        r.total() == map_a.total() + map_b.total(),
        forall|k: Seq<char>| r.count(k) == map_a.count(k) + map_b.count(k),
        forall|k: Seq<char>|
            r.contains_key(k) <==> (map_a.contains_key(k) || map_b.contains_key(k)),
        r.to_map() == merged_occ(map_a.to_map(), map_b.to_map()),
{
    let ghost sa = map_a.entries@;
    let ghost sb = map_b.entries@;
    let mut r = OccurrenceMap::<K>::new();
    proof {
        lemma_sum_counts_nonneg(sa);
        lemma_sum_counts_nonneg(sb);
        assert(sa.subrange(0, 0) =~= Seq::<(K, u64)>::empty());
    }
    let na = map_a.entries.len();
    for i in 0..na
        invariant
            na == sa.len(),
            sa == map_a.entries@,
            map_a.wf(),
            sum_counts(sa) + sum_counts(sb) <= u64::MAX,
            sum_counts(sb) >= 0,
            r.wf(),
            r.total() == sum_counts(sa.subrange(0, i as int)),
            forall|k: Seq<char>| r.count(k) == sum_matching(sa.subrange(0, i as int), k),
    {
        let e = &map_a.entries[i];
        proof {
            assert((#[trigger] sa[i as int]).1 >= 1);
            lemma_sum_counts_prefix_le(sa, i + 1);
            assert(sa.subrange(0, i + 1).drop_last() =~= sa.subrange(0, i as int));
            assert(sa.subrange(0, i + 1).last() == sa[i as int]);
        }
        r.add_count(&e.0, e.1);
        proof {
            assert forall|k: Seq<char>| r.count(k) == sum_matching(sa.subrange(0, i + 1), k) by {}
        }
    }
    proof {
        assert(sa.subrange(0, na as int) =~= sa);
        assert(sb.subrange(0, 0) =~= Seq::<(K, u64)>::empty());
    }
    let nb = map_b.entries.len();
    for i in 0..nb
        invariant
            nb == sb.len(),
            sb == map_b.entries@,
            map_b.wf(),
            sum_counts(sa) + sum_counts(sb) <= u64::MAX,
            sum_counts(sa) >= 0,
            r.wf(),
            r.total() == sum_counts(sa) + sum_counts(sb.subrange(0, i as int)),
            forall|k: Seq<char>|
                r.count(k) == sum_matching(sa, k) + sum_matching(sb.subrange(0, i as int), k),
    {
        let e = &map_b.entries[i];
        proof {
            assert((#[trigger] sb[i as int]).1 >= 1);
            lemma_sum_counts_prefix_le(sb, i + 1);
            assert(sb.subrange(0, i + 1).drop_last() =~= sb.subrange(0, i as int));
            assert(sb.subrange(0, i + 1).last() == sb[i as int]);
        }
        r.add_count(&e.0, e.1);
        proof {
            assert forall|k: Seq<char>|
                r.count(k) == sum_matching(sa, k) + sum_matching(sb.subrange(0, i + 1), k) by {}
        }
    }
    proof {
        assert(sb.subrange(0, nb as int) =~= sb);
        assert forall|k: Seq<char>|
            r.contains_key(k) <==> (map_a.contains_key(k) || map_b.contains_key(k)) by {
            lemma_wf_count_contains(&r, k);
            lemma_wf_count_contains(map_a, k);
            lemma_wf_count_contains(map_b, k);
            lemma_sum_matching_bounds(sa, k);
            lemma_sum_matching_bounds(sb, k);
        }
        assert(r.to_map() =~= merged_occ(map_a.to_map(), map_b.to_map())) by {
            assert forall|k: Seq<char>| #[trigger] r.to_map().dom().contains(k) implies r.to_map()[k]
                == merged_occ(map_a.to_map(), map_b.to_map())[k] by {
                lemma_wf_count_contains(map_a, k);
                lemma_wf_count_contains(map_b, k);
            }
        }
    }
    r
}

/// The count a map model records for `k`, reading 0 for an absent key.
pub open spec fn occ_value(m: Map<Seq<char>, int>, k: Seq<char>) -> int {
    if m.dom().contains(k) {
        m[k]
    } else {
        0
    }
}

/// The model of merging two occurrence map models: a key is present when it
/// is present in either input, and its count is the sum of the two counts.
pub open spec fn merged_occ(a: Map<Seq<char>, int>, b: Map<Seq<char>, int>) -> Map<Seq<char>, int> {
    Map::new(
        |k: Seq<char>| a.dom().contains(k) || b.dom().contains(k),
        |k: Seq<char>| occ_value(a, k) + occ_value(b, k),
    )
}

/// Law: merging occurrence maps is commutative.
pub proof fn lemma_merged_occ_commutative(a: Map<Seq<char>, int>, b: Map<Seq<char>, int>)
    ensures
        merged_occ(a, b) == merged_occ(b, a),
{
    assert(merged_occ(a, b) =~= merged_occ(b, a));
}

/// Law: merging occurrence maps is associative.
pub proof fn lemma_merged_occ_associative(
    a: Map<Seq<char>, int>,
    b: Map<Seq<char>, int>,
    c: Map<Seq<char>, int>,
)
    ensures
        merged_occ(merged_occ(a, b), c) == merged_occ(a, merged_occ(b, c)),
{
    assert(merged_occ(merged_occ(a, b), c) =~= merged_occ(a, merged_occ(b, c)));
}

/// Returns the symbols whose recorded count is exactly 1, in entry order.
pub fn find_single_occurrences<K: Symbol>(occurrence_list: &OccurrenceMap<K>) -> (r: Vec<K>)
    ensures
        key_seq(r@) == occurrence_list.single_keys(),
{
    let ghost s = occurrence_list.entries@;
    let mut r: Vec<K> = Vec::new();
    proof {
        assert(key_seq(r@) =~= singles(s.subrange(0, 0)));
    }
    let n = occurrence_list.entries.len();
    for i in 0..n
        invariant
            n == s.len(),
            s == occurrence_list.entries@,
            key_seq(r@) == singles(s.subrange(0, i as int)),
    {
        let e = &occurrence_list.entries[i];
        if e.1 == 1 {
            r.push(e.0.dup());
        }
        proof {
            assert(s.subrange(0, i + 1).drop_last() =~= s.subrange(0, i as int));
            assert(s.subrange(0, i + 1).last() == s[i as int]);
            assert(key_seq(r@) =~= singles(s.subrange(0, i + 1)));
        }
    }
    proof {
        assert(s.subrange(0, n as int) =~= s);
    }
    r
}

/// With unique keys and positive counts, the singleton keys are exactly the
/// keys whose matching sum is 1, and there are no more of them than entries.
proof fn lemma_singles_spec<K: Symbol>(s: Seq<(K, u64)>)
    requires
        forall|a: int, b: int| 0 <= a < b < s.len() ==> s[a].0.key() != s[b].0.key(),
        forall|i: int| 0 <= i < s.len() ==> (#[trigger] s[i]).1 >= 1,
    ensures
        forall|k: Seq<char>| #[trigger] singles(s).contains(k) <==> sum_matching(s, k) == 1,
        singles(s).len() <= s.len(),
    decreases s.len(),
{
    if s.len() == 0 {
    } else {
        let d = s.drop_last();
        lemma_singles_spec(d);
        let last = s.last();
        assert forall|k: Seq<char>| #[trigger] singles(s).contains(k) <==> sum_matching(s, k)
            == 1 by {
            if k == last.0.key() {
                assert forall|j: int| 0 <= j < d.len() implies (#[trigger] d[j]).0.key() != k by {
                    assert(s[j].0.key() != s[s.len() - 1].0.key());
                }
                lemma_sum_matching_contains(d, k);
                assert(sum_matching(s, k) == last.1);
                if last.1 == 1 {
                    assert(singles(s).last() == k);
                    assert(singles(s).contains(k));
                } else {
                    if singles(s).contains(k) {
                        let i = choose|i: int| 0 <= i < singles(s).len() && singles(s)[i] == k;
                        assert(singles(d).contains(k)) by {
                            assert(singles(d)[i] == k);
                        }
                        lemma_singles_in_keys(d, k);
                    }
                }
            } else {
                assert(sum_matching(s, k) == sum_matching(d, k));
                if singles(d).contains(k) {
                    let i = choose|i: int| 0 <= i < singles(d).len() && singles(d)[i] == k;
                    assert(singles(s)[i] == k);
                    assert(singles(s).contains(k));
                }
                if singles(s).contains(k) {
                    let i = choose|i: int| 0 <= i < singles(s).len() && singles(s)[i] == k;
                    assert(i < singles(d).len());
                    assert(singles(d)[i] == k);
                    assert(singles(d).contains(k));
                }
            }
        }
    }
}

/// Every singleton key belongs to some entry.
proof fn lemma_singles_in_keys<K: Symbol>(s: Seq<(K, u64)>, k: Seq<char>)
    requires
        singles(s).contains(k),
    ensures
        exists|i: int| 0 <= i < s.len() && (#[trigger] s[i]).0.key() == k && s[i].1 == 1,
    decreases s.len(),
{
    if s.len() > 0 {
        let d = s.drop_last();
        if s.last().1 == 1 && s.last().0.key() == k {
            assert((#[trigger] s[s.len() - 1]).0.key() == k && s[s.len() - 1].1 == 1);
        } else {
            let i = choose|i: int| 0 <= i < singles(s).len() && singles(s)[i] == k;
            assert(i < singles(d).len());
            assert(singles(d)[i] == k);
            assert(singles(d).contains(k));
            lemma_singles_in_keys(d, k);
            let j = choose|j: int| 0 <= j < d.len() && (#[trigger] d[j]).0.key() == k && d[j].1
                == 1;
            assert((#[trigger] s[j]).0.key() == k && s[j].1 == 1);
        }
    }
}

/// Law: the singleton keys of a well-formed occurrence map are exactly the
/// keys recorded with count 1, each listed once, and there are at most as
/// many of them as there are keys.
pub proof fn lemma_singletons_exact<K: Symbol>(m: &OccurrenceMap<K>)
    requires
        m.wf(),
    ensures
        forall|k: Seq<char>| #[trigger] m.single_keys().contains(k) <==> (m.contains_key(k)
            && m.count(k) == 1),
        m.single_keys().no_duplicates(),
        m.single_keys().len() <= m.keys().len(),
{
    lemma_singles_spec(m.entries@);
    lemma_singles_no_duplicates(m.entries@);
    assert forall|k: Seq<char>| #[trigger] m.single_keys().contains(k) <==> (m.contains_key(k)
        && m.count(k) == 1) by {
        lemma_wf_count_contains(m, k);
    }
}

/// With unique entry keys, the singleton-key list repeats no key.
proof fn lemma_singles_no_duplicates<K: Symbol>(s: Seq<(K, u64)>)
    requires
        forall|a: int, b: int| 0 <= a < b < s.len() ==> s[a].0.key() != s[b].0.key(),
    ensures
        singles(s).no_duplicates(),
    decreases s.len(),
{
    if s.len() == 0 {
    } else {
        let d = s.drop_last();
        lemma_singles_no_duplicates(d);
        if s.last().1 == 1 {
            let last_key = s.last().0.key();
            let t = singles(s);
            assert(t =~= singles(d).push(last_key));
            if singles(d).contains(last_key) {
                lemma_singles_in_keys(d, last_key);
                let j = choose|j: int|
                    0 <= j < d.len() && (#[trigger] d[j]).0.key() == last_key && d[j].1 == 1;
                assert(s[j].0.key() != s[s.len() - 1].0.key());
                assert(false);
            }
            assert forall|i: int, j: int|
                0 <= i < t.len() && 0 <= j < t.len() && i != j implies t[i] != t[j] by {
                if i < t.len() - 1 && j < t.len() - 1 {
                    assert(singles(d)[i] != singles(d)[j]);
                } else if i == t.len() - 1 {
                    if t[j] == last_key {
                        assert(singles(d)[j] == last_key);
                        assert(singles(d).contains(last_key));
                    }
                } else {
                    if t[i] == last_key {
                        assert(singles(d)[i] == last_key);
                        assert(singles(d).contains(last_key));
                    }
                }
            }
        } else {
            assert(singles(s) =~= singles(d));
        }
    }
}

/// Law: a well-formed occurrence map lists no key twice, and entry `i` of
/// its (key, count) pairs records exactly the count of key `i`. Together
/// with the counts a caller already knows, this pins the pair list of a
/// map up to order.
pub proof fn lemma_pairs_record_counts<K: Symbol>(m: &OccurrenceMap<K>)
    requires
        m.wf(),
    ensures
        m.keys().no_duplicates(),
        m.pairs().len() == m.keys().len(),
        forall|i: int| 0 <= i < m.pairs().len() ==> (#[trigger] m.pairs()[i]).0 == m.keys()[i],
        forall|i: int|
            0 <= i < m.pairs().len() ==> (#[trigger] m.pairs()[i]).1 as int == m.count(
                m.keys()[i],
            ),
{
    let s = m.entries@;
    assert forall|i: int| 0 <= i < m.pairs().len() implies (#[trigger] m.pairs()[i]).0
        == m.keys()[i] by {}
    assert forall|i: int, j: int|
        0 <= i < m.keys().len() && 0 <= j < m.keys().len() && i != j implies m.keys()[i]
        != m.keys()[j] by {
        if i < j {
            assert(s[i].0.key() != s[j].0.key());
        } else {
            assert(s[j].0.key() != s[i].0.key());
        }
    }
    assert forall|i: int|
        0 <= i < m.pairs().len() implies (#[trigger] m.pairs()[i]).1 as int == m.count(
        m.keys()[i],
    ) by {
        lemma_sum_matching_unique_entry(s, i, s[i].0.key());
    }
}

/// Inserting an element anywhere in a sequence inserts it into the
/// sequence's multiset.
proof fn lemma_to_multiset_insert<A>(s: Seq<A>, pos: int, x: A)
    requires
        0 <= pos <= s.len(),
    ensures
        s.insert(pos, x).to_multiset() == s.to_multiset().insert(x),
{
    broadcast use vstd::seq_lib::group_to_multiset_ensures;

    let t = s.insert(pos, x);
    assert(t.remove(pos) =~= s);
    assert(t[pos] == x);
    assert(t.contains(x));
    assert(t.to_multiset().count(x) >= 1);
    assert(t.to_multiset().remove(x) == s.to_multiset());
    assert(t.to_multiset() =~= s.to_multiset().insert(x));
}

/// Sorts the entries of an occurrence map by descending count. The result
/// holds the same (symbol, count) pairs as the map; ties between equal
/// counts keep the map's entry order (the order of first occurrence), so
/// the output is reproducible but the tie order carries no meaning.
pub fn sort_occurrence_list<K: Symbol>(occurrence_list: &OccurrenceMap<K>) -> (r: Vec<(K, u64)>)
    ensures
        pair_seq(r@).to_multiset() == occurrence_list.pairs().to_multiset(),
        forall|i: int, j: int| 0 <= i < j < r@.len() ==> r@[i].1 >= r@[j].1,
        r@.len() == occurrence_list.keys().len(),
{
    let ghost s = occurrence_list.entries@;
    let mut r: Vec<(K, u64)> = Vec::new();
    proof {
        assert(pair_seq(r@) =~= pair_seq(s.subrange(0, 0)));
        vstd::seq_lib::to_multiset_len(pair_seq(s));
    }
    let n = occurrence_list.entries.len();
    for idx in 0..n
        invariant
            n == s.len(),
            s == occurrence_list.entries@,
            pair_seq(r@).to_multiset() == pair_seq(s.subrange(0, idx as int)).to_multiset(),
            forall|i: int, j: int| 0 <= i < j < r@.len() ==> r@[i].1 >= r@[j].1,
    {
        let e = &occurrence_list.entries[idx];
        let item = (e.0.dup(), e.1);
        let ghost prev = r@;
        let mut pos: usize = 0;
        while pos < r.len() && r[pos].1 >= item.1
            invariant
                0 <= pos <= r@.len(),
                r@ == prev,
                forall|j: int| 0 <= j < pos ==> (#[trigger] r@[j]).1 >= item.1,
            decreases r@.len() - pos,
        {
            pos = pos + 1;
        }
        r.insert(pos, item);
        proof {
            assert(r@ == prev.insert(pos as int, item));
            assert forall|i: int, j: int| 0 <= i < j < r@.len() implies r@[i].1 >= r@[j].1 by {
                let pi = pos as int;
                if pi < prev.len() {
                    assert(prev[pi].1 < item.1);
                }
                if i < pi && j > pi {
                    assert(r@[i] == prev[i]);
                    assert(r@[j] == prev[j - 1]);
                    assert(prev[pi].1 >= prev[j - 1].1 || pi == j - 1);
                }
            }
            let cur = s.subrange(0, idx + 1);
            assert(cur.drop_last() =~= s.subrange(0, idx as int));
            assert(cur.last() == s[idx as int]);
            lemma_to_multiset_insert(pair_seq(prev), pos as int, (item.0.key(), item.1));
            assert(pair_seq(r@) =~= pair_seq(prev).insert(pos as int, (item.0.key(), item.1)));
            assert(pair_seq(cur) =~= pair_seq(cur.drop_last()).push(
                (s[idx as int].0.key(), s[idx as int].1),
            ));
            broadcast use vstd::seq_lib::group_to_multiset_ensures;

            assert(pair_seq(cur).to_multiset() =~= pair_seq(cur.drop_last()).to_multiset().insert(
                (s[idx as int].0.key(), s[idx as int].1),
            ));
        }
    }
    proof {
        assert(s.subrange(0, n as int) =~= s);
        vstd::seq_lib::to_multiset_len(pair_seq(r@));
        vstd::seq_lib::to_multiset_len(occurrence_list.pairs());
    }
    r
}

/// The (identity, count) pairs of an entry sequence, in order.
pub open spec fn pair_seq<K: Symbol>(s: Seq<(K, u64)>) -> Seq<(Seq<char>, u64)> {
    s.map_values(|e: (K, u64)| (e.0.key(), e.1))
}

/// A set of symbols with unique identities, such as the distinct kanji or
/// the distinct word surfaces seen so far.
pub struct SymbolSet<K: Symbol> {
    items: Vec<K>,
}

impl<K: Symbol> SymbolSet<K> {
    /// The stored identities, in insertion order.
    pub closed spec fn key_list(&self) -> Seq<Seq<char>> {
        key_seq(self.items@)
    }

    /// The set of stored identities.
    pub open spec fn to_set(&self) -> Set<Seq<char>> {
        self.key_list().to_set()
    }

    /// Well-formed: no identity is stored twice.
    pub closed spec fn wf(&self) -> bool {
        forall|i: int, j: int|
            0 <= i < j < self.items@.len() ==> self.items@[i].key() != self.items@[j].key()
    }

    /// An empty symbol set.
    pub fn new() -> (r: Self)
        ensures
            r.wf(),
            r.key_list().len() == 0,
            r.to_set() =~= Set::<Seq<char>>::empty(),
    {
        let r = SymbolSet { items: Vec::new() };
        proof {
            assert(r.key_list() =~= Seq::<Seq<char>>::empty());
        }
        r
    }

    /// The number of distinct identities stored.
    pub fn len(&self) -> (n: usize)
        requires
            self.wf(),
        ensures
            n == self.to_set().len(),
    {
        proof {
            assert(self.key_list().no_duplicates());
            self.key_list().unique_seq_to_set();
        }
        self.items.len()
    }

    /// True when the symbol's identity is stored.
    fn contains_sym(&self, symbol: &K) -> (r: bool)
        ensures
            r == self.to_set().contains(symbol.key()),
    {
        let n = self.items.len();
        for i in 0..n
            invariant
                n == self.items@.len(),
                forall|j: int| 0 <= j < i ==> (#[trigger] self.items@[j]).key() != symbol.key(),
        {
            if self.items[i].sym_eq(symbol) {
                proof {
                    assert(self.key_list()[i as int] == symbol.key());
                    assert(self.key_list().contains(symbol.key()));
                }
                return true;
            }
        }
        proof {
            if self.key_list().contains(symbol.key()) {
                let i = choose|i: int|
                    0 <= i < self.key_list().len() && self.key_list()[i] == symbol.key();
                assert(self.items@[i].key() == symbol.key());
            }
        }
        false
    }

    /// Inserts the symbol's identity when it is not yet stored.
    pub fn insert(&mut self, symbol: &K)
        requires
            old(self).wf(),
        ensures
            final(self).wf(),
            final(self).to_set() =~= old(self).to_set().insert(symbol.key()),
    {
        if !self.contains_sym(symbol) {
            let ghost prev = self.items@;
            self.items.push(symbol.dup());
            proof {
                assert(self.items@.drop_last() =~= prev);
                assert forall|i: int, j: int| 0 <= i < j < self.items@.len() implies self.items@[i].key()
                    != self.items@[j].key() by {
                    if j < self.items@.len() - 1 {
                        assert(prev[i].key() != prev[j].key());
                    } else {
                        assert(self.items@[i] == prev[i]);
                        if prev[i].key() == symbol.key() {
                            assert(key_seq(prev)[i] == symbol.key());
                            assert(key_seq(prev).contains(symbol.key()));
                        }
                    }
                }
                assert forall|k: Seq<char>| #[trigger] self.key_list().contains(k) <==> (key_seq(
                    prev,
                ).contains(k) || k == symbol.key()) by {
                    if self.key_list().contains(k) {
                        let i = choose|i: int|
                            0 <= i < self.key_list().len() && self.key_list()[i] == k;
                        if i < prev.len() {
                            assert(key_seq(prev)[i] == k);
                        }
                    }
                    if key_seq(prev).contains(k) {
                        let i = choose|i: int| 0 <= i < key_seq(prev).len() && key_seq(prev)[i] == k;
                        assert(self.key_list()[i] == k);
                    }
                    if k == symbol.key() {
                        assert(self.key_list()[self.items@.len() - 1] == k);
                    }
                }
            }
        } else {
            proof {
                assert(self.to_set() =~= old(self).to_set().insert(symbol.key()));
            }
        }
    }

    /// Builds the set of distinct identities in a symbol sequence.
    pub fn from_symbols(symbols: &Vec<K>) -> (r: Self)
        ensures
            r.wf(),
            r.to_set() =~= key_seq(symbols@).to_set(),
    {
        let mut r = SymbolSet::<K>::new();
        let n = symbols.len();
        proof {
            assert(key_seq(symbols@.subrange(0, 0)) =~= Seq::<Seq<char>>::empty());
        }
        for i in 0..n
            invariant
                n == symbols@.len(),
                r.wf(),
                r.to_set() =~= key_seq(symbols@.subrange(0, i as int)).to_set(),
        {
            r.insert(&symbols[i]);
            proof {
                let prev = key_seq(symbols@.subrange(0, i as int));
                let cur = key_seq(symbols@.subrange(0, i + 1));
                assert(cur.drop_last() =~= prev);
                assert(cur.last() == symbols@[i as int].key());
                assert(cur.to_set() =~= prev.to_set().insert(symbols@[i as int].key())) by {
                    assert forall|k: Seq<char>| #[trigger] cur.contains(k) <==> (prev.contains(k)
                        || k == symbols@[i as int].key()) by {
                        if cur.contains(k) {
                            let a = choose|a: int| 0 <= a < cur.len() && cur[a] == k;
                            if a < prev.len() {
                                assert(prev[a] == k);
                            }
                        }
                        if prev.contains(k) {
                            let a = choose|a: int| 0 <= a < prev.len() && prev[a] == k;
                            assert(cur[a] == k);
                        }
                        if k == symbols@[i as int].key() {
                            assert(cur[cur.len() - 1] == k);
                        }
                    }
                }
            }
        }
        proof {
            assert(symbols@.subrange(0, n as int) =~= symbols@);
        }
        r
    }

    /// The union of two symbol sets.
    pub fn union(&self, other: &Self) -> (r: Self)
        requires
            self.wf(),
            other.wf(),
        ensures
            r.wf(),
            r.to_set() =~= self.to_set().union(other.to_set()),
    {
        let mut r = SymbolSet { items: Vec::new() };
        let ghost empty = r.items@;
        proof {
            assert(key_seq(empty) =~= Seq::<Seq<char>>::empty());
        }
        let n = self.items.len();
        for i in 0..n
            invariant
                n == self.items@.len(),
                self.wf(),
                r.wf(),
                r.to_set() =~= key_seq(self.items@.subrange(0, i as int)).to_set(),
        {
            r.insert(&self.items[i]);
            proof {
                lemma_key_seq_prefix_insert(self.items@, i as int);
            }
        }
        proof {
            assert(self.items@.subrange(0, n as int) =~= self.items@);
        }
        let m = other.items.len();
        for i in 0..m
            invariant
                m == other.items@.len(),
                other.wf(),
                r.wf(),
                r.to_set() =~= self.to_set().union(
                    key_seq(other.items@.subrange(0, i as int)).to_set(),
                ),
        {
            r.insert(&other.items[i]);
            proof {
                lemma_key_seq_prefix_insert(other.items@, i as int);
            }
        }
        proof {
            assert(other.items@.subrange(0, m as int) =~= other.items@);
        }
        r
    }
}

/// Extending a prefix of a symbol sequence by one symbol inserts that
/// symbol's identity into the prefix's identity set.
proof fn lemma_key_seq_prefix_insert<K: Symbol>(s: Seq<K>, i: int)
    requires
        0 <= i < s.len(),
    ensures
        key_seq(s.subrange(0, i + 1)).to_set() =~= key_seq(s.subrange(0, i)).to_set().insert(
            s[i].key(),
        ),
{
    let prev = key_seq(s.subrange(0, i));
    let cur = key_seq(s.subrange(0, i + 1));
    assert(cur.drop_last() =~= prev);
    assert(cur.last() == s[i].key());
    assert forall|k: Seq<char>| #[trigger] cur.contains(k) <==> (prev.contains(k) || k
        == s[i].key()) by {
        if cur.contains(k) {
            let a = choose|a: int| 0 <= a < cur.len() && cur[a] == k;
            if a < prev.len() {
                assert(prev[a] == k);
            }
        }
        if prev.contains(k) {
            let a = choose|a: int| 0 <= a < prev.len() && prev[a] == k;
            assert(cur[a] == k);
        }
        if k == s[i].key() {
            assert(cur[cur.len() - 1] == k);
        }
    }
}

/// Law: building occurrences is invariant under permutation. Two maps built
/// from symbol sequences with the same multiset of identities record the
/// same count for every key.
pub proof fn lemma_build_occurrences_permutation<K: Symbol>(
    m1: OccurrenceMap<K>,
    m2: OccurrenceMap<K>,
    s1: Seq<K>,
    s2: Seq<K>,
)
    requires
        key_seq(s1).to_multiset() == key_seq(s2).to_multiset(),
        forall|k: Seq<char>| m1.count(k) == occ(key_seq(s1), k),
        forall|k: Seq<char>| m2.count(k) == occ(key_seq(s2), k),
    ensures
        forall|k: Seq<char>| m1.count(k) == m2.count(k),
{
    assert forall|k: Seq<char>| m1.count(k) == m2.count(k) by {
        lemma_occ_is_multiset_count(key_seq(s1), k);
        lemma_occ_is_multiset_count(key_seq(s2), k);
    }
}

/// With unique keys, the matching sum for the key of entry `i` is exactly
/// that entry's count.
proof fn lemma_sum_matching_unique_entry<K: Symbol>(s: Seq<(K, u64)>, i: int, k: Seq<char>)
    requires
        0 <= i < s.len(),
        s[i].0.key() == k,
        forall|a: int, b: int| 0 <= a < b < s.len() ==> s[a].0.key() != s[b].0.key(),
    ensures
        sum_matching(s, k) == s[i].1,
    decreases s.len(),
{
    if i == s.len() - 1 {
        assert forall|j: int| 0 <= j < s.drop_last().len() implies (#[trigger] s.drop_last()[j]).0.key()
            != k by {
            assert(s[j].0.key() != s[i].0.key());
        }
        lemma_sum_matching_contains(s.drop_last(), k);
    } else {
        assert(s.last().0.key() != k) by {
            assert(s[i].0.key() != s[s.len() - 1].0.key());
        }
        lemma_sum_matching_unique_entry(s.drop_last(), i, k);
    }
}

/// Matching sums are non-negative and fit under the total sum.
proof fn lemma_sum_matching_bounds<K: Symbol>(s: Seq<(K, u64)>, k: Seq<char>)
    ensures
        0 <= sum_matching(s, k) <= sum_counts(s),
    decreases s.len(),
{
    if s.len() > 0 {
        lemma_sum_matching_bounds(s.drop_last(), k);
    }
}

/// In a well-formed map a key is present exactly when its count is positive.
proof fn lemma_wf_count_contains<K: Symbol>(m: &OccurrenceMap<K>, k: Seq<char>)
    requires
        m.wf(),
    ensures
        m.contains_key(k) <==> m.count(k) >= 1,
        !m.contains_key(k) ==> m.count(k) == 0,
{
    assert(forall|i: int|
        0 <= i < m.entries@.len() ==> m.keys()[i] == (#[trigger] m.entries@[i]).0.key());
    if m.contains_key(k) {
        let i = choose|i: int| 0 <= i < m.keys().len() && m.keys()[i] == k;
        assert(m.entries@[i].0.key() == k);
        lemma_sum_matching_at_least_entry(m.entries@, i, k);
    } else {
        assert forall|i: int| 0 <= i < m.entries@.len() implies (#[trigger] m.entries@[i]).0.key()
            != k by {
            if m.entries@[i].0.key() == k {
                assert(m.keys()[i] == k);
                assert(m.keys().contains(k));
            }
        }
        lemma_sum_matching_contains(m.entries@, k);
    }
}

/// A positive matching sum means some entry matches.
proof fn lemma_sum_matching_contains<K: Symbol>(s: Seq<(K, u64)>, k: Seq<char>)
    ensures
        sum_matching(s, k) >= 1 ==> exists|i: int| 0 <= i < s.len() && (#[trigger] s[i]).0.key()
            == k,
        (forall|i: int| 0 <= i < s.len() ==> (#[trigger] s[i]).0.key() != k) ==> sum_matching(s, k)
            == 0,
    decreases s.len(),
{
    if s.len() > 0 {
        lemma_sum_matching_contains(s.drop_last(), k);
        if sum_matching(s, k) >= 1 {
            if s.last().0.key() == k {
                assert(s[s.len() - 1].0.key() == k);
            } else {
                let i = choose|i: int|
                    0 <= i < s.drop_last().len() && (#[trigger] s.drop_last()[i]).0.key() == k;
                assert(s[i].0.key() == k);
            }
        }
    }
}

/// An entry that matches `k` pushes the matching sum to at least its count.
proof fn lemma_sum_matching_at_least_entry<K: Symbol>(s: Seq<(K, u64)>, i: int, k: Seq<char>)
    requires
        0 <= i < s.len(),
        s[i].0.key() == k,
        forall|n: int| 0 <= n < s.len() ==> (#[trigger] s[n]).1 >= 1,
    ensures
        sum_matching(s, k) >= s[i].1 >= 1,
    decreases s.len(),
{
    lemma_sum_matching_bounds(s.drop_last(), k);
    if i == s.len() - 1 {
    } else {
        lemma_sum_matching_at_least_entry(s.drop_last(), i, k);
    }
}

} // verus!
