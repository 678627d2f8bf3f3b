//! The Snapshot Writer's text: the balance file's header and rows, and the
//! name under which a finished snapshot is published. Writing the bytes out
//! and the atomic rename are the caller's input/output edge.

use vstd::prelude::*;

use crate::numfmt::{dec_str, u64_to_string};

verus! {

/// One snapshot row: the address, a `;` delimiter, the balance in decimal,
/// and a newline.
pub open spec fn snapshot_row(address: Seq<char>, balance: u64) -> Seq<char> {
    address + seq![';'] + dec_str(balance as nat) + seq!['\n']
}

/// The rows of the aggregated balances, in the order given.
pub open spec fn snapshot_rows(rows: Seq<(String, u64)>) -> Seq<char>
    decreases rows.len(),
{
    if rows.len() == 0 {
        Seq::empty()
    } else {
        snapshot_rows(rows.drop_last()) + snapshot_row(rows.last().0@, rows.last().1)
    }
}

/// The whole snapshot: a header line, then one row per aggregated address.
pub open spec fn snapshot_text(rows: Seq<(String, u64)>) -> Seq<char> {
    "address;balance\n"@ + snapshot_rows(rows)
}

/// The name a finished snapshot is published under, parameterized by the
/// run's first and last height.
pub open spec fn snapshot_name(start_height: u64, end_height: u64) -> Seq<char> {
    "balances-"@ + dec_str(start_height as nat) + seq!['-'] + dec_str(end_height as nat)
        + ".csv"@
}

/// Render the snapshot text for the aggregated `rows`.
pub fn snapshot_content(rows: &Vec<(String, u64)>) -> (r: String)
    ensures
        r@ == snapshot_text(rows@),
{
    let mut s = String::from_str("address;balance\n");
    proof {
        assert(snapshot_rows(rows@.take(0)) =~= Seq::<char>::empty());
        assert(s@ =~= snapshot_text(rows@.take(0)));
    }
    let n = rows.len();
    let mut i: usize = 0;
    while i < n
        invariant
            i <= n,
            n == rows@.len(),
            s@ == snapshot_text(rows@.take(i as int)),
        decreases n - i,
    {
        let ghost s_prev = s@;
        s.append(rows[i].0.as_str());
        s.append(";");
        let balance = u64_to_string(rows[i].1);
        s.append(balance.as_str());
        s.append("\n");
        proof {
            reveal_strlit(";");
            reveal_strlit("\n");
            assert(rows@.take(i + 1).drop_last() =~= rows@.take(i as int));
            assert(rows@.take(i + 1).last() == rows@[i as int]);
            assert(s@ =~= s_prev + snapshot_row(rows@[i as int].0@, rows@[i as int].1));
            assert(snapshot_text(rows@.take(i + 1)) =~= s_prev + snapshot_row(
                rows@[i as int].0@,
                rows@[i as int].1,
            ));
        }
        i += 1;
    }
    proof {
        assert(rows@.take(n as int) =~= rows@);
    }
    s
}

/// Render the published snapshot's file name for a run over
/// `start_height ..= end_height`.
pub fn snapshot_file_name(start_height: u64, end_height: u64) -> (r: String)
    ensures
        r@ == snapshot_name(start_height, end_height),
{
    let mut s = String::from_str("balances-");
    s.append(u64_to_string(start_height).as_str());
    s.append("-");
    s.append(u64_to_string(end_height).as_str());
    s.append(".csv");
    proof {
        reveal_strlit("-");
        assert(s@ =~= snapshot_name(start_height, end_height));
    }
    s
}

} // verus!
