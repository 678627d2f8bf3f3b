//! Decoded blocks and transactions, as the upstream block source hands them
//! over, and the identity under which an output is stored in the index.

use vstd::prelude::*;

verus! {

/// One input of a transaction: either the designated no-prior-output case (a
/// coinbase input, which references nothing and is skipped by the spend
/// step), or a reference to a prior output by owning transaction id and
/// output index.
pub enum TxInput {
    Coinbase,
    Outpoint { txid: Vec<u8>, index: u32 },
}

/// One output of a transaction: the value it carries and, where one could be
/// extracted, the owning address. An output that bears no address (for
/// example a provably unspendable one) is not tracked by the Unspent Index.
pub struct TxOutput {
    pub address: Option<String>,
    pub value: u64,
}

/// One decoded transaction.
pub struct Transaction {
    pub txid: Vec<u8>,
    pub inputs: Vec<TxInput>,
    pub outputs: Vec<TxOutput>,
}

/// One decoded block: its transactions, in the block's listed order.
pub struct Block {
    pub txs: Vec<Transaction>,
}

/// Every transaction's output list is indexable by a 32-bit output index.
pub open spec fn block_wf(b: Block) -> bool {
    forall|t: int| 0 <= t < b.txs@.len() ==> (#[trigger] b.txs@[t]).outputs@.len() <= 0xffff_ffff
}

/// The four little-endian bytes of an output index.
pub open spec fn le4(index: int) -> Seq<u8> {
    seq![
        (index % 256) as u8,
        ((index / 256) % 256) as u8,
        ((index / 65536) % 256) as u8,
        ((index / 16777216) % 256) as u8,
    ]
}

/// Identity of an output: the owning transaction's id followed by the
/// output's index in little-endian bytes.
pub open spec fn key_of(txid: Seq<u8>, index: int) -> Seq<u8> {
    txid + le4(index)
}

/// Build the storage key for output `index` of transaction `txid`.
pub fn output_key(txid: &Vec<u8>, index: u32) -> (r: Vec<u8>)
    ensures
        r@ == key_of(txid@, index as int),
{
    let mut key: Vec<u8> = Vec::new();
    let n = txid.len();
    let mut i: usize = 0;
    while i < n
        invariant
            i <= n,
            n == txid@.len(),
            key@ == txid@.take(i as int),
        decreases n - i,
    {
        key.push(txid[i]);
        proof {
            assert(key@ =~= txid@.take(i + 1));
        }
        i += 1;
    }
    proof {
        assert(key@ =~= txid@);
    }
    key.push((index % 256) as u8);
    key.push(((index / 256) % 256) as u8);
    key.push(((index / 65536) % 256) as u8);
    key.push(((index / 16777216) % 256) as u8);
    proof {
        assert(key@ =~= key_of(txid@, index as int));
    }
    key
}

/// What one output contributes to the created-value counter: its value where
/// it bears an address, nothing otherwise.
pub open spec fn output_created_value(o: TxOutput) -> int {
    match o.address {
        Some(_) => o.value as int,
        None => 0,
    }
}

/// What one output contributes to the created-output counter.
pub open spec fn output_created_count(o: TxOutput) -> int {
    match o.address {
        Some(_) => 1,
        None => 0,
    }
}

/// Total value of the tracked outputs of a transaction's output list.
pub open spec fn outputs_created_value(s: Seq<TxOutput>) -> int
    decreases s.len(),
{
    if s.len() == 0 {
        0
    } else {
        outputs_created_value(s.drop_last()) + output_created_value(s.last())
    }
}

/// Number of tracked outputs of a transaction's output list.
pub open spec fn outputs_created_count(s: Seq<TxOutput>) -> int
    decreases s.len(),
{
    if s.len() == 0 {
        0
    } else {
        outputs_created_count(s.drop_last()) + output_created_count(s.last())
    }
}

/// Total value of the tracked outputs a block creates.
pub open spec fn block_created_value(txs: Seq<Transaction>) -> int
    decreases txs.len(),
{
    if txs.len() == 0 {
        0
    } else {
        block_created_value(txs.drop_last()) + outputs_created_value(txs.last().outputs@)
    }
}

/// Number of tracked outputs a block creates.
pub open spec fn block_created_count(txs: Seq<Transaction>) -> int
    decreases txs.len(),
{
    if txs.len() == 0 {
        0
    } else {
        block_created_count(txs.drop_last()) + outputs_created_count(txs.last().outputs@)
    }
}

/// Created value and count of an output list are non-negative.
pub proof fn lemma_outputs_created_nonneg(s: Seq<TxOutput>)
    ensures
        outputs_created_value(s) >= 0,
        outputs_created_count(s) >= 0,
    decreases s.len(),
{
    if s.len() > 0 {
        lemma_outputs_created_nonneg(s.drop_last());
    }
}

/// One more output extends the created sums by exactly its contribution.
pub proof fn lemma_outputs_created_step(s: Seq<TxOutput>, j: int)
    requires
        0 <= j < s.len(),
    ensures
        outputs_created_value(s.take(j + 1)) == outputs_created_value(s.take(j))
            + output_created_value(s[j]),
        outputs_created_count(s.take(j + 1)) == outputs_created_count(s.take(j))
            + output_created_count(s[j]),
{
    assert(s.take(j + 1).drop_last() =~= s.take(j));
    assert(s.take(j + 1).last() == s[j]);
}

/// A prefix of an output list never exceeds the whole list's created sums.
pub proof fn lemma_outputs_created_prefix(s: Seq<TxOutput>, j: int)
    requires
        0 <= j <= s.len(),
    ensures
        outputs_created_value(s.take(j)) <= outputs_created_value(s),
        outputs_created_count(s.take(j)) <= outputs_created_count(s),
    decreases s.len() - j,
{
    if j == s.len() {
        assert(s.take(j) =~= s);
    } else {
        lemma_outputs_created_step(s, j);
        lemma_outputs_created_prefix(s, j + 1);
        assert(output_created_value(s[j]) >= 0);
        assert(output_created_count(s[j]) >= 0);
    }
}

/// Created sums of a block are non-negative.
pub proof fn lemma_block_created_nonneg(txs: Seq<Transaction>)
    ensures
        block_created_value(txs) >= 0,
        block_created_count(txs) >= 0,
    decreases txs.len(),
{
    if txs.len() > 0 {
        lemma_block_created_nonneg(txs.drop_last());
        lemma_outputs_created_nonneg(txs.last().outputs@);
    }
}

/// One more transaction extends the block's created sums by exactly its own.
pub proof fn lemma_block_created_step(txs: Seq<Transaction>, t: int)
    requires
        0 <= t < txs.len(),
    ensures
        block_created_value(txs.take(t + 1)) == block_created_value(txs.take(t))
            + outputs_created_value(txs[t].outputs@),
        block_created_count(txs.take(t + 1)) == block_created_count(txs.take(t))
            + outputs_created_count(txs[t].outputs@),
{
    assert(txs.take(t + 1).drop_last() =~= txs.take(t));
    assert(txs.take(t + 1).last() == txs[t]);
}

/// A prefix of a block never exceeds the whole block's created sums.
pub proof fn lemma_block_created_prefix(txs: Seq<Transaction>, t: int)
    requires
        0 <= t <= txs.len(),
    ensures
        block_created_value(txs.take(t)) <= block_created_value(txs),
        block_created_count(txs.take(t)) <= block_created_count(txs),
    decreases txs.len() - t,
{
    if t == txs.len() {
        assert(txs.take(t) =~= txs);
    } else {
        lemma_block_created_step(txs, t);
        lemma_block_created_prefix(txs, t + 1);
        lemma_outputs_created_nonneg(txs[t].outputs@);
    }
}

} // verus!
