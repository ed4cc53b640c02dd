//! Small ordered maps for per-letter and per-confusion tallies.
//!
//! A [`Tally`] keeps its entries sorted by key, so walking it gives the same
//! order every time (letters by codepoint, confusions by expected letter and
//! then by the letter typed instead). That order is what the history file and
//! the rankings built on top of it rely on.
use vstd::prelude::*;

verus! {

/// A key that a tally can be ordered by: every key has a distinct integer rank.
pub trait TallyKey: Sized {
    spec fn rank(self) -> int;

    fn rank_of(&self) -> (r: u64)
        ensures
            r as int == self.rank(),
    ;

    proof fn rank_injective(a: Self, b: Self)
        ensures
            a.rank() == b.rank() ==> a == b,
    ;
}

/// One more than the largest codepoint a `char` can hold.
pub open spec fn char_span() -> int {
    0x110000
}

impl TallyKey for char {
    open spec fn rank(self) -> int {
        (self as u32) as int
    }

    fn rank_of(&self) -> (r: u64) {
        (*self as u32) as u64
    }

    proof fn rank_injective(a: Self, b: Self) {
        if (a as u32) == (b as u32) {
            vstd::utf8::char_u32_cast(a, a as u32);
            vstd::utf8::char_u32_cast(b, b as u32);
        }
    }
}

/// Pairs are ordered by their first element, then by their second.
impl TallyKey for (char, char) {
    open spec fn rank(self) -> int {
        (self.0 as u32) as int * char_span() + (self.1 as u32) as int
    }

    fn rank_of(&self) -> (r: u64) {
        proof {
            vstd::utf8::char_is_scalar(self.0);
            vstd::utf8::char_is_scalar(self.1);
        }
        let high = (self.0 as u32) as u64;
        let low = (self.1 as u32) as u64;
        high * 0x110000 + low
    }

    proof fn rank_injective(a: Self, b: Self) {
        vstd::utf8::char_is_scalar(a.0);
        vstd::utf8::char_is_scalar(a.1);
        vstd::utf8::char_is_scalar(b.0);
        vstd::utf8::char_is_scalar(b.1);
        let (a0, a1, b0, b1) = ((a.0 as u32) as int, (a.1 as u32) as int, (b.0 as u32) as int, (b.1 as u32) as int);
        if a.rank() == b.rank() {
            lemma_mixed_radix_unique(a0, a1, b0, b1, char_span());
            <char as TallyKey>::rank_injective(a.0, b.0);
            <char as TallyKey>::rank_injective(a.1, b.1);
        }
    }
}

proof fn lemma_mixed_radix_unique(a0: int, a1: int, b0: int, b1: int, m: int)
    by (nonlinear_arith)
    requires
        0 <= a1 < m,
        0 <= b1 < m,
        a0 * m + a1 == b0 * m + b1,
    ensures
        a0 == b0,
        a1 == b1,
{
}

/// Whether the ranks of the keys in `s` strictly increase.
pub open spec fn sorted_by_rank<K: TallyKey, V>(s: Seq<(K, V)>) -> bool {
    forall|i: int, j: int| 0 <= i < j < s.len() ==> #[trigger] s[i].0.rank() < #[trigger] s[j].0.rank()
}

/// Whether `k` is the key of some entry of `s`.
pub open spec fn has_key<K, V>(s: Seq<(K, V)>, k: K) -> bool {
    exists|i: int| 0 <= i < s.len() && #[trigger] s[i].0 == k
}

/// The map that a sequence of entries with distinct keys stands for.
pub open spec fn entries_map<K, V>(s: Seq<(K, V)>) -> Map<K, V> {
    Map::new(
        |k: K| has_key(s, k),
        |k: K| s[choose|i: int| 0 <= i < s.len() && #[trigger] s[i].0 == k].1,
    )
}

/// An ordered map from keys to counts (or to any small copyable value).
#[derive(Clone, Debug, Default, PartialEq, Eq)]
pub struct Tally<K, V> {
    entries: Vec<(K, V)>,
}

impl<K: TallyKey + Copy, V: Copy> Tally<K, V> {
    /// The entries, in key order.
    pub closed spec fn seq(&self) -> Seq<(K, V)> {
        self.entries@
    }

    /// The keys are distinct and in increasing order.
    pub open spec fn wf(&self) -> bool {
        sorted_by_rank(self.seq())
    }

    /// What the tally maps each key to.
    pub open spec fn map(&self) -> Map<K, V> {
        entries_map(self.seq())
    }

    /// An empty tally.
    pub fn new() -> (t: Self)
        ensures
            t.wf(),
            t.seq() == Seq::<(K, V)>::empty(),
            t.map() == Map::<K, V>::empty(),
    {
        let t = Tally { entries: Vec::new() };
        assert(t.map() =~= Map::<K, V>::empty());
        t
    }

    /// How many keys are present.
    pub fn len(&self) -> (n: usize)
        ensures
            n == self.seq().len(),
    {
        self.entries.len()
    }

    /// Whether no key is present.
    pub fn is_empty(&self) -> (b: bool)
        ensures
            b == (self.seq().len() == 0),
    {
        self.entries.len() == 0
    }

    /// The entries in key order.
    pub fn entries(&self) -> (r: &[(K, V)])
        ensures
            r@ == self.seq(),
    {
        self.entries.as_slice()
    }

    /// Whether the entries are in strictly increasing key order.
    pub fn is_ordered(&self) -> (b: bool)
        ensures
            b == self.wf(),
    {
        let n = self.entries.len();
        if n == 0 {
            return true;
        }
        let mut i: usize = 1;
        while i < n
            invariant
                n == self.entries@.len(),
                1 <= i <= n,
                forall|a: int, b: int| 0 <= a < b < i ==> #[trigger] self.entries@[a].0.rank() < #[trigger] self.entries@[b].0.rank(),
            decreases n - i,
        {
            let before = self.entries[i - 1].0.rank_of();
            let here = self.entries[i].0.rank_of();
            if before >= here {
                return false;
            }
            assert forall|a: int, b: int| 0 <= a < b < i + 1 implies #[trigger] self.entries@[a].0.rank()
                < #[trigger] self.entries@[b].0.rank() by {
                if b == i && a < i - 1 {
                    assert(self.entries@[a].0.rank() < self.entries@[i - 1].0.rank());
                }
            }
            i = i + 1;
        }
        true
    }

    /// A copy with the same entries.
    pub fn duplicate(&self) -> (t: Self)
        ensures
            t.seq() == self.seq(),
            t.wf() == self.wf(),
    {
        let mut out: Vec<(K, V)> = Vec::new();
        let mut i: usize = 0;
        while i < self.entries.len()
            invariant
                i <= self.entries@.len(),
                out@ == self.entries@.subrange(0, i as int),
            decreases self.entries@.len() - i,
        {
            out.push(self.entries[i]);
            i = i + 1;
            assert(out@ =~= self.entries@.subrange(0, i as int));
        }
        assert(self.entries@.subrange(0, self.entries@.len() as int) =~= self.entries@);
        Tally { entries: out }
    }

    /// Where `key` sits, or would sit, in the entries: the first position
    /// whose key ranks at or above it.
    fn position(&self, key: &K) -> (p: usize)
        requires
            self.wf(),
        ensures
            p <= self.seq().len(),
            forall|i: int| 0 <= i < p ==> #[trigger] self.seq()[i].0.rank() < key.rank(),
            forall|i: int| p <= i < self.seq().len() ==> #[trigger] self.seq()[i].0.rank() >= key.rank(),
    {
        let rank = key.rank_of();
        let mut p: usize = 0;
        while p < self.entries.len()
            invariant
                p <= self.entries@.len(),
                rank as int == key.rank(),
                sorted_by_rank(self.entries@),
                forall|i: int| 0 <= i < p ==> #[trigger] self.entries@[i].0.rank() < key.rank(),
            decreases self.entries@.len() - p,
        {
            if self.entries[p].0.rank_of() >= rank {
                assert forall|i: int| p <= i < self.entries@.len() implies #[trigger] self.entries@[i].0.rank() >= key.rank() by {
                    if i > p {
                        assert(self.entries@[p as int].0.rank() < self.entries@[i].0.rank());
                    }
                }
                return p;
            }
            p = p + 1;
        }
        p
    }

    /// What `key` maps to, if anything.
    pub fn get(&self, key: &K) -> (r: Option<V>)
        requires
            self.wf(),
        ensures
            r == (if self.map().contains_key(*key) { Some(self.map()[*key]) } else { None::<V> }),
    {
        let p = self.position(key);
        proof {
            self.lemma_lookup(p as int, *key);
        }
        if p < self.entries.len() && self.entries[p].0.rank_of() == key.rank_of() {
            proof {
                K::rank_injective(self.entries@[p as int].0, *key);
            }
            Some(self.entries[p].1)
        } else {
            None
        }
    }

    /// The facts about a key's place in the entries that lookups need.
    proof fn lemma_lookup(&self, p: int, key: K)
        requires
            self.wf(),
            0 <= p <= self.seq().len(),
            forall|i: int| 0 <= i < p ==> #[trigger] self.seq()[i].0.rank() < key.rank(),
            forall|i: int| p <= i < self.seq().len() ==> #[trigger] self.seq()[i].0.rank() >= key.rank(),
        ensures
            (p < self.seq().len() && self.seq()[p].0 == key) ==> (self.map().contains_key(key)
                && self.map()[key] == self.seq()[p].1),
            !(p < self.seq().len() && self.seq()[p].0 == key) ==> !self.map().contains_key(key),
    {
        let s = self.seq();
        if p < s.len() && s[p].0 == key {
            assert(has_key(s, key));
            let j = choose|i: int| 0 <= i < s.len() && #[trigger] s[i].0 == key;
            if j != p {
                if j < p {
                    assert(s[j].0.rank() < key.rank());
                } else {
                    assert(s[p].0.rank() < s[j].0.rank());
                }
            }
        } else {
            if has_key(s, key) {
                let j = choose|i: int| 0 <= i < s.len() && #[trigger] s[i].0 == key;
                if j < p {
                    assert(s[j].0.rank() < key.rank());
                } else if j > p {
                    assert(s[p].0.rank() >= key.rank());
                    assert(s[p].0.rank() < s[j].0.rank());
                } else {
                }
            }
        }
    }

    /// Sets what `key` maps to, keeping the entries in order.
    pub fn insert(&mut self, key: K, value: V)
        requires
            old(self).wf(),
        ensures
            final(self).wf(),
            final(self).map() == old(self).map().insert(key, value),
            final(self).seq().len() == old(self).seq().len() + (if old(self).map().contains_key(key) { 0int } else { 1int }),
    {
        let p = self.position(&key);
        proof {
            self.lemma_lookup(p as int, key);
        }
        let ghost old_seq = self.entries@;
        if p < self.entries.len() && self.entries[p].0.rank_of() == key.rank_of() {
            proof {
                K::rank_injective(self.entries@[p as int].0, key);
            }
            self.entries.set(p, (key, value));
            proof {
                let s = self.entries@;
                assert(s == old_seq.update(p as int, (key, value)));
                assert(sorted_by_rank(s)) by {
                    assert forall|i: int, j: int| 0 <= i < j < s.len() implies #[trigger] s[i].0.rank() < #[trigger] s[j].0.rank() by {
                        assert(old_seq[i].0.rank() < old_seq[j].0.rank());
                    }
                }
                self.lemma_map_after_update(old_seq, p as int, key, value);
            }
        } else {
            self.entries.insert(p, (key, value));
            proof {
                let s = self.entries@;
                assert(s == old_seq.insert(p as int, (key, value)));
                assert(sorted_by_rank(s)) by {
                    assert forall|i: int, j: int| 0 <= i < j < s.len() implies #[trigger] s[i].0.rank() < #[trigger] s[j].0.rank() by {
                        if j < p {
                            assert(old_seq[i].0.rank() < old_seq[j].0.rank());
                        } else if j == p {
                            assert(old_seq[i].0.rank() < key.rank());
                        } else if i == p {
                            assert(old_seq[j - 1].0.rank() >= key.rank());
                            if old_seq[j - 1].0.rank() == key.rank() {
                                if j - 1 == p {
                                    K::rank_injective(old_seq[p as int].0, key);
                                } else {
                                    assert(old_seq[p as int].0.rank() < old_seq[j - 1].0.rank());
                                }
                            }
                        } else if i < p {
                            assert(old_seq[i].0.rank() < old_seq[j - 1].0.rank());
                        } else {
                            assert(old_seq[i - 1].0.rank() < old_seq[j - 1].0.rank());
                        }
                    }
                }
                self.lemma_map_after_insert(old_seq, p as int, key, value);
            }
        }
    }

    proof fn lemma_map_after_update(&self, old_seq: Seq<(K, V)>, p: int, key: K, value: V)
        requires
            0 <= p < old_seq.len(),
            old_seq[p].0 == key,
            sorted_by_rank(old_seq),
            self.seq() == old_seq.update(p, (key, value)),
            sorted_by_rank(self.seq()),
        ensures
            self.map() == entries_map(old_seq).insert(key, value),
    {
        let s = self.seq();
        let m = entries_map(old_seq).insert(key, value);
        assert forall|k: K| #[trigger] self.map().contains_key(k) <==> m.contains_key(k) by {
            if has_key(s, k) {
                let j = choose|i: int| 0 <= i < s.len() && #[trigger] s[i].0 == k;
                if j != p {
                    assert(old_seq[j].0 == k);
                }
            }
            if has_key(old_seq, k) {
                let j = choose|i: int| 0 <= i < old_seq.len() && #[trigger] old_seq[i].0 == k;
                assert(s[j].0 == k);
            }
            if k == key {
                assert(s[p].0 == k);
            }
        }
        assert forall|k: K| #[trigger] self.map().contains_key(k) implies self.map()[k] == m[k] by {
            lemma_unique_index(s, k);
            if k == key {
                assert(s[p].0 == k);
            } else {
                let j = choose|i: int| 0 <= i < s.len() && #[trigger] s[i].0 == k;
                assert(old_seq[j].0 == k);
                lemma_unique_index(old_seq, k);
            }
        }
        assert(self.map() =~= m);
    }

    proof fn lemma_map_after_insert(&self, old_seq: Seq<(K, V)>, p: int, key: K, value: V)
        requires
            0 <= p <= old_seq.len(),
            !has_key(old_seq, key),
            sorted_by_rank(old_seq),
            self.seq() == old_seq.insert(p, (key, value)),
            sorted_by_rank(self.seq()),
        ensures
            self.map() == entries_map(old_seq).insert(key, value),
            !entries_map(old_seq).contains_key(key),
    {
        let s = self.seq();
        let m = entries_map(old_seq).insert(key, value);
        assert forall|k: K| #[trigger] self.map().contains_key(k) <==> m.contains_key(k) by {
            if has_key(s, k) {
                let j = choose|i: int| 0 <= i < s.len() && #[trigger] s[i].0 == k;
                if j < p {
                    assert(old_seq[j].0 == k);
                } else if j > p {
                    assert(old_seq[j - 1].0 == k);
                }
            }
            if has_key(old_seq, k) {
                let j = choose|i: int| 0 <= i < old_seq.len() && #[trigger] old_seq[i].0 == k;
                if j < p {
                    assert(s[j].0 == k);
                } else {
                    assert(s[j + 1].0 == k);
                }
            }
            if k == key {
                assert(s[p].0 == k);
            }
        }
        assert forall|k: K| #[trigger] self.map().contains_key(k) implies self.map()[k] == m[k] by {
            lemma_unique_index(s, k);
            if k == key {
                assert(s[p].0 == k);
            } else {
                let j = choose|i: int| 0 <= i < s.len() && #[trigger] s[i].0 == k;
                lemma_unique_index(old_seq, k);
                if j < p {
                    assert(old_seq[j].0 == k);
                } else {
                    assert(old_seq[j - 1].0 == k);
                }
            }
        }
        assert(self.map() =~= m);
    }
}

/// In sorted entries a key occurs at most once, so the entry the map reads is
/// the only one with that key.
pub proof fn lemma_unique_index<K: TallyKey, V>(s: Seq<(K, V)>, k: K)
    requires
        sorted_by_rank(s),
    ensures
        forall|i: int| 0 <= i < s.len() && #[trigger] s[i].0 == k ==> entries_map(s).contains_key(k)
            && entries_map(s)[k] == s[i].1,
{
    assert forall|i: int| 0 <= i < s.len() && #[trigger] s[i].0 == k implies entries_map(s).contains_key(k)
        && entries_map(s)[k] == s[i].1 by {
        assert(has_key(s, k));
        let j = choose|j: int| 0 <= j < s.len() && #[trigger] s[j].0 == k;
        if j < i {
            assert(s[j].0.rank() < s[i].0.rank());
        } else if i < j {
            assert(s[i].0.rank() < s[j].0.rank());
        }
    }
}

/// A prefix of sorted entries is sorted.
pub proof fn lemma_sorted_take<K: TallyKey, V>(s: Seq<(K, V)>, j: int)
    requires
        sorted_by_rank(s),
        0 <= j <= s.len(),
    ensures
        sorted_by_rank(s.take(j)),
{
    let t = s.take(j);
    assert forall|a: int, b: int| 0 <= a < b < t.len() implies #[trigger] t[a].0.rank() < #[trigger] t[b].0.rank() by {
        assert(t[a] == s[a]);
        assert(t[b] == s[b]);
    }
}

/// Walking sorted entries one at a time builds the map one key at a time,
/// each key new when it arrives.
pub proof fn lemma_entries_map_prefix<K: TallyKey, V>(s: Seq<(K, V)>, j: int)
    requires
        sorted_by_rank(s),
        0 <= j < s.len(),
    ensures
        !entries_map(s.take(j)).contains_key(s[j].0),
        entries_map(s.take(j + 1)) == entries_map(s.take(j)).insert(s[j].0, s[j].1),
{
    let a = s.take(j);
    let b = s.take(j + 1);
    lemma_sorted_take(s, j);
    lemma_sorted_take(s, j + 1);
    if has_key(a, s[j].0) {
        let i = choose|i: int| 0 <= i < a.len() && #[trigger] a[i].0 == s[j].0;
        assert(s[i].0.rank() < s[j].0.rank());
    }
    let m = entries_map(a).insert(s[j].0, s[j].1);
    assert forall|k: K| #[trigger] entries_map(b).contains_key(k) <==> m.contains_key(k) by {
        if has_key(b, k) {
            let i = choose|i: int| 0 <= i < b.len() && #[trigger] b[i].0 == k;
            if i < j {
                assert(a[i].0 == k);
            }
        }
        if has_key(a, k) {
            let i = choose|i: int| 0 <= i < a.len() && #[trigger] a[i].0 == k;
            assert(b[i].0 == k);
        }
        if k == s[j].0 {
            assert(b[j].0 == k);
        }
    }
    assert forall|k: K| #[trigger] entries_map(b).contains_key(k) implies entries_map(b)[k] == m[k] by {
        lemma_unique_index(b, k);
        if k == s[j].0 {
            assert(b[j].0 == k);
        } else {
            let i = choose|i: int| 0 <= i < b.len() && #[trigger] b[i].0 == k;
            assert(a[i].0 == k);
            lemma_unique_index(a, k);
        }
    }
    assert(entries_map(b) =~= m);
}

/// Sorted entries stand for a finite map with one key per entry.
pub proof fn lemma_map_len<K: TallyKey, V>(s: Seq<(K, V)>)
    requires
        sorted_by_rank(s),
    ensures
        entries_map(s).dom().finite(),
        entries_map(s).len() == s.len(),
    decreases s.len(),
{
    if s.len() == 0 {
        assert(entries_map(s).dom() =~= Set::<K>::empty());
    } else {
        let j = s.len() - 1;
        lemma_sorted_take(s, j);
        lemma_map_len(s.take(j));
        lemma_entries_map_prefix(s, j);
        assert(s.take(j + 1) =~= s);
    }
}

} // verus!
