//! The Unspent Index: the authoritative mapping from output identity to the
//! owner, value and creation height of each output not yet spent.

use vstd::prelude::*;

verus! {

/// What the index stores per live output.
pub struct UnspentEntry {
    /// Owning address, in text form.
    pub address: String,
    /// Value of the output, in satoshis.
    pub value: u64,
    /// Height of the block that created the output ("last modified").
    pub height: u64,
}

/// Mapping from output identity (the owning transaction's id concatenated
/// with the output's index) to the live entry for that output.
///
/// Keys are unique; storage order carries no meaning. The index is the
/// engine's single resident data structure: every applied block mutates it,
/// and the balance aggregation at completion reads it once.
pub struct UnspentIndex {
    entries: Vec<(Vec<u8>, UnspentEntry)>,
}

/// The mapping denoted by a sequence of key/entry pairs (later pairs win,
/// though a well-formed index never stores a key twice).
pub open spec fn map_of(s: Seq<(Vec<u8>, UnspentEntry)>) -> Map<Seq<u8>, UnspentEntry>
    decreases s.len(),
{
    if s.len() == 0 {
        Map::empty()
    } else {
        map_of(s.drop_last()).insert(s.last().0@, s.last().1)
    }
}

/// Sum of the stored values of a sequence of pairs.
pub open spec fn seq_total(s: Seq<(Vec<u8>, UnspentEntry)>) -> int
    decreases s.len(),
{
    if s.len() == 0 {
        0
    } else {
        seq_total(s.drop_last()) + s.last().1.value
    }
}

/// No key occurs twice in the sequence.
pub open spec fn keys_distinct(s: Seq<(Vec<u8>, UnspentEntry)>) -> bool {
    forall|i: int, j: int| 0 <= i < j < s.len() ==> s[i].0@ != s[j].0@
}

impl View for UnspentIndex {
    type V = Map<Seq<u8>, UnspentEntry>;

    closed spec fn view(&self) -> Map<Seq<u8>, UnspentEntry> {
        map_of(self.entries@)
    }
}

/// A key is in the denoted map exactly when some pair holds it.
pub proof fn lemma_map_of_contains(s: Seq<(Vec<u8>, UnspentEntry)>, k: Seq<u8>)
    ensures
        map_of(s).contains_key(k) <==> exists|i: int| 0 <= i < s.len() && s[i].0@ == k,
    decreases s.len(),
{
    if s.len() > 0 {
        lemma_map_of_contains(s.drop_last(), k);
        if map_of(s).contains_key(k) && s.last().0@ != k {
            let i = choose|i: int| 0 <= i < s.drop_last().len() && s.drop_last()[i].0@ == k;
            assert(s[i].0@ == k);
        }
        if exists|i: int| 0 <= i < s.len() && s[i].0@ == k {
            let i = choose|i: int| 0 <= i < s.len() && s[i].0@ == k;
            if i < s.len() - 1 {
                assert(s.drop_last()[i].0@ == k);
            }
        }
    }
}

/// With distinct keys, the denoted map sends each stored key to its entry.
pub proof fn lemma_map_of_index(s: Seq<(Vec<u8>, UnspentEntry)>, i: int)
    requires
        keys_distinct(s),
        0 <= i < s.len(),
    ensures
        map_of(s).contains_key(s[i].0@),
        map_of(s)[s[i].0@] == s[i].1,
    decreases s.len(),
{
    lemma_map_of_contains(s, s[i].0@);
    if i < s.len() - 1 {
        assert(keys_distinct(s.drop_last()));
        assert(s.drop_last()[i] == s[i]);
        lemma_map_of_index(s.drop_last(), i);
        assert(s[i].0@ != s.last().0@);
    }
}

/// Removing the pair at position `i` removes exactly its key from the
/// denoted map, and drops exactly its value from the total.
pub proof fn lemma_map_of_remove(s: Seq<(Vec<u8>, UnspentEntry)>, i: int)
    requires
        keys_distinct(s),
        0 <= i < s.len(),
    ensures
        keys_distinct(s.remove(i)),
        map_of(s.remove(i)) == map_of(s).remove(s[i].0@),
        seq_total(s.remove(i)) == seq_total(s) - s[i].1.value,
    decreases s.len(),
{
    let t = s.remove(i);
    let k = s[i].0@;
    assert(keys_distinct(t)) by {
        assert forall|a: int, b: int| 0 <= a < b < t.len() implies t[a].0@ != t[b].0@ by {
            let a0: int = if a < i { a } else { a + 1 };
            let b0: int = if b < i { b } else { b + 1 };
            assert(t[a] == s[a0] && t[b] == s[b0]);
        }
    }
    if i == s.len() - 1 {
        assert(t =~= s.drop_last());
        lemma_map_of_contains(s.drop_last(), k);
        assert(!map_of(s.drop_last()).contains_key(k));
        assert(map_of(s.drop_last()).insert(k, s[i].1).remove(k) =~= map_of(s.drop_last()));
    } else {
        assert(t.last() == s.last());
        assert(t.drop_last() =~= s.drop_last().remove(i));
        assert(keys_distinct(s.drop_last()));
        assert(s.drop_last()[i] == s[i]);
        lemma_map_of_remove(s.drop_last(), i);
        assert(s.last().0@ != k);
        assert(map_of(s.drop_last()).remove(k).insert(s.last().0@, s.last().1) =~= map_of(
            s.drop_last(),
        ).insert(s.last().0@, s.last().1).remove(k));
        assert(map_of(t) == map_of(t.drop_last()).insert(t.last().0@, t.last().1));
        assert(seq_total(t) == seq_total(t.drop_last()) + t.last().1.value);
    }
}

/// The denoted map has a finite domain.
pub proof fn lemma_map_of_finite(s: Seq<(Vec<u8>, UnspentEntry)>)
    ensures
        map_of(s).dom().finite(),
    decreases s.len(),
{
    if s.len() > 0 {
        lemma_map_of_finite(s.drop_last());
    }
}

/// With distinct keys, the denoted map holds exactly one key per stored
/// pair: the index's entry count is the size of its domain.
pub proof fn lemma_count_is_dom_len(s: Seq<(Vec<u8>, UnspentEntry)>)
    requires
        keys_distinct(s),
    ensures
        map_of(s).dom().finite(),
        map_of(s).dom().len() == s.len(),
    decreases s.len(),
{
    lemma_map_of_finite(s);
    if s.len() > 0 {
        assert(keys_distinct(s.drop_last()));
        lemma_count_is_dom_len(s.drop_last());
        lemma_map_of_contains(s.drop_last(), s.last().0@);
        assert(!map_of(s.drop_last()).contains_key(s.last().0@));
    }
}

/// One more pair extends the total by exactly its value.
pub proof fn lemma_seq_total_step(s: Seq<(Vec<u8>, UnspentEntry)>, i: int)
    requires
        0 <= i < s.len(),
    ensures
        seq_total(s.take(i + 1)) == seq_total(s.take(i)) + s[i].1.value,
{
    assert(s.take(i + 1).drop_last() =~= s.take(i));
    assert(s.take(i + 1).last() == s[i]);
}

/// A prefix never exceeds the whole sequence's total.
pub proof fn lemma_seq_total_prefix(s: Seq<(Vec<u8>, UnspentEntry)>, i: int)
    requires
        0 <= i <= s.len(),
    ensures
        seq_total(s.take(i)) <= seq_total(s),
    decreases s.len() - i,
{
    if i == s.len() {
        assert(s.take(i) =~= s);
    } else {
        lemma_seq_total_step(s, i);
        lemma_seq_total_prefix(s, i + 1);
    }
}

/// The total of an index is never negative.
pub proof fn lemma_seq_total_nonneg(s: Seq<(Vec<u8>, UnspentEntry)>)
    ensures
        seq_total(s) >= 0,
    decreases s.len(),
{
    if s.len() > 0 {
        lemma_seq_total_nonneg(s.drop_last());
    }
}

impl UnspentIndex {
    /// The stored pairs, in storage order.
    pub closed spec fn seq(&self) -> Seq<(Vec<u8>, UnspentEntry)> {
        self.entries@
    }

    /// Number of live entries.
    pub open spec fn count(&self) -> int {
        self.seq().len() as int
    }

    /// Sum of all live entry values.
    pub open spec fn total(&self) -> int {
        seq_total(self.seq())
    }

    /// Well-formed: no key stored twice.
    pub open spec fn wf(&self) -> bool {
        keys_distinct(self.seq())
    }

    /// A fresh, empty index.
    pub fn new() -> (r: Self)
        ensures
            r.wf(),
            r@ == Map::<Seq<u8>, UnspentEntry>::empty(),
            r.count() == 0,
            r.total() == 0,
    {
        UnspentIndex { entries: Vec::new() }
    }

    /// An empty index provisioned for `cap` entries up front, so that a full
    /// chain scan does not pay for incremental growth.
    pub fn with_capacity(cap: usize) -> (r: Self)
        ensures
            r.wf(),
            r@ == Map::<Seq<u8>, UnspentEntry>::empty(),
            r.count() == 0,
            r.total() == 0,
    {
        UnspentIndex { entries: Vec::with_capacity(cap) }
    }

    /// Number of live entries.
    pub fn len(&self) -> (r: usize)
        ensures
            r == self.count(),
    {
        self.entries.len()
    }

    /// The pair stored at position `i`.
    pub fn get(&self, i: usize) -> (r: &(Vec<u8>, UnspentEntry))
        requires
            i < self.seq().len(),
        ensures
            *r == self.seq()[i as int],
    {
        &self.entries[i]
    }

    /// Position of `key` in storage, if present.
    fn find(&self, key: &Vec<u8>) -> (r: Option<usize>)
        ensures
            match r {
                Some(i) => i < self.seq().len() && self.seq()[i as int].0@ == key@,
                None => forall|i: int| 0 <= i < self.seq().len() ==> self.seq()[i].0@ != key@,
            },
    {
        let n = self.entries.len();
        let mut i: usize = 0;
        while i < n
            invariant
                n == self.seq().len(),
                i <= n,
                forall|j: int| 0 <= j < i ==> self.seq()[j].0@ != key@,
            decreases n - i,
        {
            if self.entries[i].0 == *key {
                assert(self.seq()[i as int].0@ =~= key@);
                return Some(i);
            }
            assert(self.seq()[i as int].0@ != key@) by {
                if self.seq()[i as int].0@ == key@ {
                    assert(self.seq()[i as int].0@ =~= key@);
                }
            }
            i += 1;
        }
        None
    }

    /// Insert an entry for `key`, replacing (and returning) any entry already
    /// stored under that key. A replacement never occurs for a well-formed
    /// chain; it is a silent overwrite, not an error.
    pub fn insert(&mut self, key: Vec<u8>, entry: UnspentEntry) -> (r: Option<UnspentEntry>)
        requires
            old(self).wf(),
        ensures
            final(self).wf(),
            final(self)@ == old(self)@.insert(key@, entry),
            r == (if old(self)@.contains_key(key@) {
                Some(old(self)@[key@])
            } else {
                None::<UnspentEntry>
            }),
            final(self).count() == old(self).count() + (if old(self)@.contains_key(key@) {
                0int
            } else {
                1int
            }),
            final(self).total() == old(self).total() + entry.value - (if old(
                self,
            )@.contains_key(key@) {
                old(self)@[key@].value as int
            } else {
                0int
            }),
    {
        let ghost s0 = self.entries@;
        proof {
            lemma_map_of_contains(s0, key@);
        }
        let found = self.find(&key);
        match found {
            Some(i) => {
                proof {
                    lemma_map_of_index(s0, i as int);
                    lemma_map_of_remove(s0, i as int);
                }
                let old_pair = self.entries.remove(i);
                self.entries.push((key, entry));
                proof {
                    let s1 = s0.remove(i as int);
                    let s2 = self.entries@;
                    assert(s2.drop_last() =~= s1);
                    assert(map_of(s2) == map_of(s1).insert(s2.last().0@, s2.last().1));
                    assert(map_of(s1).insert(old_pair.0@, entry) =~= map_of(s0).insert(
                        old_pair.0@,
                        entry,
                    ));
                    assert(keys_distinct(s2)) by {
                        assert forall|a: int, b: int| 0 <= a < b < s2.len() implies s2[a].0@
                            != s2[b].0@ by {
                            if b == s2.len() - 1 {
                                let a0: int = if a < i { a } else { a + 1 };
                                assert(s1[a] == s0[a0]);
                                assert(s0[a0].0@ != s0[i as int].0@);
                            }
                        }
                    }
                }
                Some(old_pair.1)
            },
            None => {
                self.entries.push((key, entry));
                proof {
                    let s2 = self.entries@;
                    assert(s2.drop_last() =~= s0);
                    assert(map_of(s2) == map_of(s0).insert(s2.last().0@, s2.last().1));
                    assert(keys_distinct(s2)) by {
                        assert forall|a: int, b: int| 0 <= a < b < s2.len() implies s2[a].0@
                            != s2[b].0@ by {
                            if b == s2.len() - 1 {
                                assert(s2[a] == s0[a]);
                            }
                        }
                    }
                }
                None
            },
        }
    }

    /// Remove and return the entry stored under `key`. A miss leaves the
    /// index unchanged and returns nothing.
    pub fn remove(&mut self, key: &Vec<u8>) -> (r: Option<UnspentEntry>)
        requires
            old(self).wf(),
        ensures
            final(self).wf(),
            final(self)@ == old(self)@.remove(key@),
            r == (if old(self)@.contains_key(key@) {
                Some(old(self)@[key@])
            } else {
                None::<UnspentEntry>
            }),
            final(self).count() == old(self).count() - (if old(self)@.contains_key(key@) {
                1int
            } else {
                0int
            }),
            final(self).total() == old(self).total() - (if old(self)@.contains_key(key@) {
                old(self)@[key@].value as int
            } else {
                0int
            }),
    {
        let ghost s0 = self.entries@;
        proof {
            lemma_map_of_contains(s0, key@);
        }
        let found = self.find(key);
        match found {
            Some(i) => {
                proof {
                    lemma_map_of_index(s0, i as int);
                    lemma_map_of_remove(s0, i as int);
                }
                let pair = self.entries.remove(i);
                Some(pair.1)
            },
            None => {
                proof {
                    assert(map_of(s0).remove(key@) =~= map_of(s0));
                }
                None
            },
        }
    }
}

} // verus!
