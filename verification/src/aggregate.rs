//! The Balance Aggregator: fold the Unspent Index once into one balance per
//! distinct address.

use vstd::prelude::*;

use crate::index::{
    lemma_seq_total_nonneg, lemma_seq_total_prefix, lemma_seq_total_step, seq_total, UnspentEntry,
    UnspentIndex,
};

verus! {

/// Per-address balances denoted by a sequence of index entries: each entry's
/// value accrues to its address.
pub open spec fn balance_map_of(s: Seq<(Vec<u8>, UnspentEntry)>) -> Map<Seq<char>, int>
    decreases s.len(),
{
    if s.len() == 0 {
        Map::empty()
    } else {
        let m = balance_map_of(s.drop_last());
        let a = s.last().1.address@;
        let prior = if m.contains_key(a) {
            m[a]
        } else {
            0
        };
        m.insert(a, prior + s.last().1.value)
    }
}

/// The address-to-balance mapping denoted by aggregated rows.
pub open spec fn rows_map(rows: Seq<(String, u64)>) -> Map<Seq<char>, int>
    decreases rows.len(),
{
    if rows.len() == 0 {
        Map::empty()
    } else {
        rows_map(rows.drop_last()).insert(rows.last().0@, rows.last().1 as int)
    }
}

/// No address appears in two rows.
pub open spec fn rows_distinct(rows: Seq<(String, u64)>) -> bool {
    forall|i: int, j: int| 0 <= i < j < rows.len() ==> rows[i].0@ != rows[j].0@
}

/// What the Balance Aggregator promises of its result: rows with distinct
/// addresses that denote exactly the per-address fold of the live entries.
/// An address with no live output is absent, not present with zero.
pub open spec fn aggregate_post(s: Seq<(Vec<u8>, UnspentEntry)>, rows: Seq<(String, u64)>) -> bool {
    rows_distinct(rows) && rows_map(rows) == balance_map_of(s)
}

/// An address is in the denoted mapping exactly when some row holds it.
pub proof fn lemma_rows_map_contains(rows: Seq<(String, u64)>, a: Seq<char>)
    ensures
        rows_map(rows).contains_key(a) <==> exists|i: int| 0 <= i < rows.len() && rows[i].0@ == a,
    decreases rows.len(),
{
    if rows.len() > 0 {
        lemma_rows_map_contains(rows.drop_last(), a);
        if rows_map(rows).contains_key(a) && rows.last().0@ != a {
            let i = choose|i: int| 0 <= i < rows.drop_last().len() && rows.drop_last()[i].0@ == a;
            assert(rows[i].0@ == a);
        }
        if exists|i: int| 0 <= i < rows.len() && rows[i].0@ == a {
            let i = choose|i: int| 0 <= i < rows.len() && rows[i].0@ == a;
            if i < rows.len() - 1 {
                assert(rows.drop_last()[i].0@ == a);
            }
        }
    }
}

/// With distinct addresses, the denoted mapping sends each row's address to
/// its balance.
pub proof fn lemma_rows_map_index(rows: Seq<(String, u64)>, p: int)
    requires
        rows_distinct(rows),
        0 <= p < rows.len(),
    ensures
        rows_map(rows).contains_key(rows[p].0@),
        rows_map(rows)[rows[p].0@] == rows[p].1 as int,
    decreases rows.len(),
{
    lemma_rows_map_contains(rows, rows[p].0@);
    if p < rows.len() - 1 {
        assert(rows_distinct(rows.drop_last()));
        assert(rows.drop_last()[p] == rows[p]);
        lemma_rows_map_index(rows.drop_last(), p);
        assert(rows[p].0@ != rows.last().0@);
    }
}

/// Removing the row at position `p` removes exactly its address.
pub proof fn lemma_rows_map_remove(rows: Seq<(String, u64)>, p: int)
    requires
        rows_distinct(rows),
        0 <= p < rows.len(),
    ensures
        rows_distinct(rows.remove(p)),
        rows_map(rows.remove(p)) == rows_map(rows).remove(rows[p].0@),
    decreases rows.len(),
{
    let t = rows.remove(p);
    let a = rows[p].0@;
    assert(rows_distinct(t)) by {
        assert forall|x: int, y: int| 0 <= x < y < t.len() implies t[x].0@ != t[y].0@ by {
            let x0: int = if x < p {
                x
            } else {
                x + 1
            };
            let y0: int = if y < p {
                y
            } else {
                y + 1
            };
            assert(t[x] == rows[x0] && t[y] == rows[y0]);
        }
    }
    if p == rows.len() - 1 {
        assert(t =~= rows.drop_last());
        lemma_rows_map_contains(rows.drop_last(), a);
        assert(!rows_map(rows.drop_last()).contains_key(a));
        assert(rows_map(rows.drop_last()).insert(a, rows[p].1 as int).remove(a) =~= rows_map(
            rows.drop_last(),
        ));
    } else {
        assert(t.last() == rows.last());
        assert(t.drop_last() =~= rows.drop_last().remove(p));
        assert(rows_distinct(rows.drop_last()));
        assert(rows.drop_last()[p] == rows[p]);
        lemma_rows_map_remove(rows.drop_last(), p);
        assert(rows.last().0@ != a);
        assert(rows_map(rows.drop_last()).remove(a).insert(rows.last().0@, rows.last().1 as int)
            =~= rows_map(rows.drop_last()).insert(rows.last().0@, rows.last().1 as int).remove(a));
        assert(rows_map(t) == rows_map(t.drop_last()).insert(t.last().0@, t.last().1 as int));
    }
}

/// An address has a balance exactly when it owns at least one live output;
/// an address with none is absent, not present with zero.
pub proof fn lemma_balance_map_contains(s: Seq<(Vec<u8>, UnspentEntry)>, a: Seq<char>)
    ensures
        balance_map_of(s).contains_key(a) <==> exists|i: int|
            0 <= i < s.len() && s[i].1.address@ == a,
    decreases s.len(),
{
    if s.len() > 0 {
        lemma_balance_map_contains(s.drop_last(), a);
        if balance_map_of(s).contains_key(a) && s.last().1.address@ != a {
            let i = choose|i: int|
                0 <= i < s.drop_last().len() && s.drop_last()[i].1.address@ == a;
            assert(s[i].1.address@ == a);
        }
        if exists|i: int| 0 <= i < s.len() && s[i].1.address@ == a {
            let i = choose|i: int| 0 <= i < s.len() && s[i].1.address@ == a;
            if i < s.len() - 1 {
                assert(s.drop_last()[i].1.address@ == a);
            }
        }
    }
}

/// Every denoted balance lies between zero and the entries' total value.
pub proof fn lemma_balance_bounds(s: Seq<(Vec<u8>, UnspentEntry)>)
    ensures
        forall|a: Seq<char>|
            balance_map_of(s).contains_key(a) ==> 0 <= #[trigger] balance_map_of(s)[a]
                <= seq_total(s),
    decreases s.len(),
{
    if s.len() > 0 {
        lemma_balance_bounds(s.drop_last());
        lemma_seq_total_nonneg(s.drop_last());
        let m = balance_map_of(s.drop_last());
        let a = s.last().1.address@;
        let v = s.last().1.value;
        let prior: int = if m.contains_key(a) {
            m[a]
        } else {
            0
        };
        assert(0 <= prior <= seq_total(s.drop_last()));
        assert(seq_total(s) == seq_total(s.drop_last()) + v);
        assert forall|b: Seq<char>| balance_map_of(s).contains_key(b) implies 0
            <= #[trigger] balance_map_of(s)[b] <= seq_total(s) by {
            if b == a {
                assert(balance_map_of(s)[b] == prior + v);
            } else {
                assert(balance_map_of(s)[b] == m[b]);
            }
        }
    }
}

/// One more entry folds its value onto its address's prior balance.
pub proof fn lemma_balance_step(s: Seq<(Vec<u8>, UnspentEntry)>, i: int)
    requires
        0 <= i < s.len(),
    ensures
        balance_map_of(s.take(i + 1)) == ({
            let m = balance_map_of(s.take(i));
            let a = s[i].1.address@;
            let prior = if m.contains_key(a) {
                m[a]
            } else {
                0
            };
            m.insert(a, prior + s[i].1.value)
        }),
{
    assert(s.take(i + 1).drop_last() =~= s.take(i));
    assert(s.take(i + 1).last() == s[i]);
}

/// Aggregating the same unmodified index twice yields the same balance
/// mapping, whatever row order each run produced.
pub proof fn lemma_aggregate_idempotent(
    s: Seq<(Vec<u8>, UnspentEntry)>,
    r1: Seq<(String, u64)>,
    r2: Seq<(String, u64)>,
)
    requires
        aggregate_post(s, r1),
        aggregate_post(s, r2),
    ensures
        rows_map(r1) == rows_map(r2),
{
}

/// Position of `addr` among the rows, if present.
fn find_row(rows: &Vec<(String, u64)>, addr: &String) -> (r: Option<usize>)
    ensures
        match r {
            Some(p) => p < rows@.len() && rows@[p as int].0@ == addr@,
            None => forall|q: int| 0 <= q < rows@.len() ==> rows@[q].0@ != addr@,
        },
{
    let n = rows.len();
    let mut p: usize = 0;
    while p < n
        invariant
            p <= n,
            n == rows@.len(),
            forall|q: int| 0 <= q < p ==> rows@[q].0@ != addr@,
        decreases n - p,
    {
        if rows[p].0 == *addr {
            return Some(p);
        }
        p += 1;
    }
    None
}

impl UnspentIndex {
    /// Fold every live entry once into one balance per distinct address: the
    /// sum of all live output values that address owns. Addresses without a
    /// live output are absent. Row order carries no meaning.
    pub fn aggregate(&self) -> (r: Vec<(String, u64)>)
        requires
            self.total() <= u64::MAX,
        ensures
            aggregate_post(self.seq(), r@),
    {
        let ghost s = self.seq();
        proof {
            assert(s.take(0) =~= Seq::<(Vec<u8>, UnspentEntry)>::empty());
        }
        let mut rows: Vec<(String, u64)> = Vec::new();
        let n = self.len();
        let mut i: usize = 0;
        while i < n
            invariant
                i <= n,
                n == s.len(),
                s == self.seq(),
                seq_total(s) <= u64::MAX,
                rows_distinct(rows@),
                rows_map(rows@) == balance_map_of(s.take(i as int)),
            decreases n - i,
        {
            let entry = &self.get(i).1;
            let ghost m_i = balance_map_of(s.take(i as int));
            let ghost a = entry.address@;
            proof {
                lemma_balance_step(s, i as int);
                lemma_balance_bounds(s.take(i as int));
                lemma_seq_total_step(s, i as int);
                lemma_seq_total_prefix(s, i as int + 1);
                lemma_seq_total_nonneg(s.take(i as int));
                lemma_rows_map_contains(rows@, a);
            }
            let found = find_row(&rows, &entry.address);
            match found {
                Some(p) => {
                    let ghost rows0 = rows@;
                    proof {
                        lemma_rows_map_index(rows0, p as int);
                        lemma_rows_map_remove(rows0, p as int);
                        assert(m_i.contains_key(a));
                        assert(rows0[p as int].1 as int == m_i[a]);
                        assert(m_i[a] + entry.value <= seq_total(s));
                    }
                    let row = rows.remove(p);
                    let bal = row.1 + entry.value;
                    rows.push((row.0, bal));
                    proof {
                        let rows1 = rows0.remove(p as int);
                        let rows2 = rows@;
                        assert(rows2.drop_last() =~= rows1);
                        assert(rows_map(rows2) == rows_map(rows1).insert(a, bal as int));
                        assert(rows_map(rows1).insert(a, bal as int) =~= m_i.insert(
                            a,
                            m_i[a] + entry.value,
                        ));
                        assert(rows_distinct(rows2)) by {
                            assert forall|x: int, y: int| 0 <= x < y < rows2.len() implies
                                rows2[x].0@ != rows2[y].0@ by {
                                if y == rows2.len() - 1 {
                                    let x0: int = if x < p {
                                        x
                                    } else {
                                        x + 1
                                    };
                                    assert(rows1[x] == rows0[x0]);
                                    assert(rows0[x0].0@ != rows0[p as int].0@);
                                }
                            }
                        }
                    }
                },
                None => {
                    let ghost rows0 = rows@;
                    proof {
                        assert(!m_i.contains_key(a));
                    }
                    rows.push((entry.address.clone(), entry.value));
                    proof {
                        assert(rows@.drop_last() =~= rows0);
                        assert(rows_map(rows@) == rows_map(rows0).insert(a, entry.value as int));
                        assert(rows_map(rows0).insert(a, entry.value as int) =~= m_i.insert(
                            a,
                            0 + entry.value,
                        ));
                        assert(rows_distinct(rows@)) by {
                            assert forall|x: int, y: int| 0 <= x < y < rows@.len() implies
                                rows@[x].0@ != rows@[y].0@ by {
                                if y == rows@.len() - 1 {
                                    assert(rows@[x] == rows0[x]);
                                }
                            }
                        }
                    }
                },
            }
            i += 1;
        }
        proof {
            assert(s.take(n as int) =~= s);
        }
        rows
    }
}

} // verus!
