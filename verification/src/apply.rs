//! The Block Applier: for each transaction of a block, in the block's listed
//! order, remove the outputs its inputs spend, then insert the outputs it
//! creates, keeping aggregate spent/created counters.

use vstd::prelude::*;

use crate::block::{
    block_created_count, block_created_value, block_wf, key_of, lemma_block_created_prefix,
    lemma_block_created_step, lemma_outputs_created_nonneg, lemma_outputs_created_prefix,
    lemma_outputs_created_step, output_created_count, output_created_value, output_key,
    outputs_created_count, outputs_created_value, Block, Transaction, TxInput, TxOutput,
};
use crate::index::{lemma_seq_total_nonneg, UnspentEntry, UnspentIndex};

verus! {

/// Running result of the spend step: the index mapping so far, and how many
/// entries, of what total value, the processed inputs removed.
pub ghost struct SpendEffect {
    pub map: Map<Seq<u8>, UnspentEntry>,
    pub count: int,
    pub value: int,
}

/// Effect of one input on the index mapping: a coinbase input is skipped; an
/// outpoint removes its entry where one is live, and contributes nothing on a
/// miss.
pub open spec fn input_step(e: SpendEffect, inp: TxInput) -> SpendEffect {
    match inp {
        TxInput::Coinbase => e,
        TxInput::Outpoint { txid, index } => {
            let k = key_of(txid@, index as int);
            if e.map.contains_key(k) {
                SpendEffect {
                    map: e.map.remove(k),
                    count: e.count + 1,
                    value: e.value + e.map[k].value,
                }
            } else {
                e
            }
        },
    }
}

/// Effect of a transaction's input list on mapping `m`, input by input.
pub open spec fn spend_effect(m: Map<Seq<u8>, UnspentEntry>, inputs: Seq<TxInput>) -> SpendEffect
    decreases inputs.len(),
{
    if inputs.len() == 0 {
        SpendEffect { map: m, count: 0, value: 0 }
    } else {
        input_step(spend_effect(m, inputs.drop_last()), inputs.last())
    }
}

/// Running result of the create step: the index mapping so far, the count and
/// value of inserted outputs, and the count and value of entries that an
/// insertion silently overwrote.
pub ghost struct CreateEffect {
    pub map: Map<Seq<u8>, UnspentEntry>,
    pub count: int,
    pub value: int,
    pub replaced_count: int,
    pub replaced_value: int,
}

/// Effect of one output on the index mapping: an output bearing an address is
/// inserted under the key of its transaction and index; one without is not
/// tracked.
pub open spec fn output_step(
    e: CreateEffect,
    txid: Seq<u8>,
    idx: int,
    o: TxOutput,
    height: u64,
) -> CreateEffect {
    match o.address {
        None => e,
        Some(a) => {
            let k = key_of(txid, idx);
            let entry = UnspentEntry { address: a, value: o.value, height };
            if e.map.contains_key(k) {
                CreateEffect {
                    map: e.map.insert(k, entry),
                    count: e.count + 1,
                    value: e.value + o.value,
                    replaced_count: e.replaced_count + 1,
                    replaced_value: e.replaced_value + e.map[k].value,
                }
            } else {
                CreateEffect {
                    map: e.map.insert(k, entry),
                    count: e.count + 1,
                    value: e.value + o.value,
                    replaced_count: e.replaced_count,
                    replaced_value: e.replaced_value,
                }
            }
        },
    }
}

/// Effect of a transaction's output list on mapping `m`, output by output.
pub open spec fn create_effect(
    m: Map<Seq<u8>, UnspentEntry>,
    txid: Seq<u8>,
    outputs: Seq<TxOutput>,
    height: u64,
) -> CreateEffect
    decreases outputs.len(),
{
    if outputs.len() == 0 {
        CreateEffect { map: m, count: 0, value: 0, replaced_count: 0, replaced_value: 0 }
    } else {
        output_step(
            create_effect(m, txid, outputs.drop_last(), height),
            txid,
            outputs.len() - 1,
            outputs.last(),
            height,
        )
    }
}

/// Combined effect of a block prefix: the resulting mapping and the block's
/// aggregate spent, created and overwritten counters.
pub ghost struct BlockEffect {
    pub map: Map<Seq<u8>, UnspentEntry>,
    pub spent_count: int,
    pub spent_value: int,
    pub created_count: int,
    pub created_value: int,
    pub replaced_count: int,
    pub replaced_value: int,
}

/// Effect of one transaction: all its spends are applied before any of its
/// creates, so a same-block spend-after-create chain behaves correctly.
pub open spec fn tx_effect(m: Map<Seq<u8>, UnspentEntry>, tx: Transaction, height: u64) -> BlockEffect {
    let se = spend_effect(m, tx.inputs@);
    let ce = create_effect(se.map, tx.txid@, tx.outputs@, height);
    BlockEffect {
        map: ce.map,
        spent_count: se.count,
        spent_value: se.value,
        created_count: ce.count,
        created_value: ce.value,
        replaced_count: ce.replaced_count,
        replaced_value: ce.replaced_value,
    }
}

/// Effect of a block's transactions on mapping `m`, transaction by
/// transaction in the block's listed order.
pub open spec fn block_effect(
    m: Map<Seq<u8>, UnspentEntry>,
    txs: Seq<Transaction>,
    height: u64,
) -> BlockEffect
    decreases txs.len(),
{
    if txs.len() == 0 {
        BlockEffect {
            map: m,
            spent_count: 0,
            spent_value: 0,
            created_count: 0,
            created_value: 0,
            replaced_count: 0,
            replaced_value: 0,
        }
    } else {
        let prev = block_effect(m, txs.drop_last(), height);
        let te = tx_effect(prev.map, txs.last(), height);
        BlockEffect {
            map: te.map,
            spent_count: prev.spent_count + te.spent_count,
            spent_value: prev.spent_value + te.spent_value,
            created_count: prev.created_count + te.created_count,
            created_value: prev.created_value + te.created_value,
            replaced_count: prev.replaced_count + te.replaced_count,
            replaced_value: prev.replaced_value + te.replaced_value,
        }
    }
}

/// One more input extends the spend effect by exactly its step.
pub proof fn lemma_spend_effect_step(m: Map<Seq<u8>, UnspentEntry>, inputs: Seq<TxInput>, j: int)
    requires
        0 <= j < inputs.len(),
    ensures
        spend_effect(m, inputs.take(j + 1)) == input_step(
            spend_effect(m, inputs.take(j)),
            inputs[j],
        ),
{
    assert(inputs.take(j + 1).drop_last() =~= inputs.take(j));
    assert(inputs.take(j + 1).last() == inputs[j]);
}

/// One more output extends the create effect by exactly its step.
pub proof fn lemma_create_effect_step(
    m: Map<Seq<u8>, UnspentEntry>,
    txid: Seq<u8>,
    outputs: Seq<TxOutput>,
    j: int,
    height: u64,
)
    requires
        0 <= j < outputs.len(),
    ensures
        create_effect(m, txid, outputs.take(j + 1), height) == output_step(
            create_effect(m, txid, outputs.take(j), height),
            txid,
            j,
            outputs[j],
            height,
        ),
{
    assert(outputs.take(j + 1).drop_last() =~= outputs.take(j));
    assert(outputs.take(j + 1).last() == outputs[j]);
}

/// One more transaction extends the block effect by exactly its own effect.
pub proof fn lemma_block_effect_step(
    m: Map<Seq<u8>, UnspentEntry>,
    txs: Seq<Transaction>,
    t: int,
    height: u64,
)
    requires
        0 <= t < txs.len(),
    ensures
        block_effect(m, txs.take(t + 1), height) == ({
            let prev = block_effect(m, txs.take(t), height);
            let te = tx_effect(prev.map, txs[t], height);
            BlockEffect {
                map: te.map,
                spent_count: prev.spent_count + te.spent_count,
                spent_value: prev.spent_value + te.spent_value,
                created_count: prev.created_count + te.created_count,
                created_value: prev.created_value + te.created_value,
                replaced_count: prev.replaced_count + te.replaced_count,
                replaced_value: prev.replaced_value + te.replaced_value,
            }
        }),
{
    assert(txs.take(t + 1).drop_last() =~= txs.take(t));
    assert(txs.take(t + 1).last() == txs[t]);
}

/// Spend counters never go negative.
pub proof fn lemma_spend_effect_nonneg(m: Map<Seq<u8>, UnspentEntry>, inputs: Seq<TxInput>)
    ensures
        spend_effect(m, inputs).count >= 0,
        spend_effect(m, inputs).value >= 0,
    decreases inputs.len(),
{
    if inputs.len() > 0 {
        lemma_spend_effect_nonneg(m, inputs.drop_last());
    }
}

/// Create counters never go negative.
pub proof fn lemma_create_effect_nonneg(
    m: Map<Seq<u8>, UnspentEntry>,
    txid: Seq<u8>,
    outputs: Seq<TxOutput>,
    height: u64,
)
    ensures
        create_effect(m, txid, outputs, height).count >= 0,
        create_effect(m, txid, outputs, height).value >= 0,
        create_effect(m, txid, outputs, height).replaced_count >= 0,
        create_effect(m, txid, outputs, height).replaced_value >= 0,
    decreases outputs.len(),
{
    if outputs.len() > 0 {
        lemma_create_effect_nonneg(m, txid, outputs.drop_last(), height);
    }
}

/// Block counters never go negative.
pub proof fn lemma_block_effect_nonneg(
    m: Map<Seq<u8>, UnspentEntry>,
    txs: Seq<Transaction>,
    height: u64,
)
    ensures
        block_effect(m, txs, height).spent_count >= 0,
        block_effect(m, txs, height).spent_value >= 0,
        block_effect(m, txs, height).created_count >= 0,
        block_effect(m, txs, height).created_value >= 0,
        block_effect(m, txs, height).replaced_count >= 0,
        block_effect(m, txs, height).replaced_value >= 0,
    decreases txs.len(),
{
    if txs.len() > 0 {
        lemma_block_effect_nonneg(m, txs.drop_last(), height);
        let prev = block_effect(m, txs.drop_last(), height);
        let tx = txs.last();
        lemma_spend_effect_nonneg(prev.map, tx.inputs@);
        lemma_create_effect_nonneg(
            spend_effect(prev.map, tx.inputs@).map,
            tx.txid@,
            tx.outputs@,
            height,
        );
    }
}

/// The create effect's counters are exactly the output list's created sums,
/// whatever mapping the creates land on.
pub proof fn lemma_create_effect_created(
    m: Map<Seq<u8>, UnspentEntry>,
    txid: Seq<u8>,
    outputs: Seq<TxOutput>,
    height: u64,
)
    ensures
        create_effect(m, txid, outputs, height).value == outputs_created_value(outputs),
        create_effect(m, txid, outputs, height).count == outputs_created_count(outputs),
    decreases outputs.len(),
{
    if outputs.len() > 0 {
        lemma_create_effect_created(m, txid, outputs.drop_last(), height);
    }
}

/// The block effect's created counters are exactly the block's created sums.
pub proof fn lemma_block_effect_created(
    m: Map<Seq<u8>, UnspentEntry>,
    txs: Seq<Transaction>,
    height: u64,
)
    ensures
        block_effect(m, txs, height).created_value == block_created_value(txs),
        block_effect(m, txs, height).created_count == block_created_count(txs),
    decreases txs.len(),
{
    if txs.len() > 0 {
        lemma_block_effect_created(m, txs.drop_last(), height);
        let prev = block_effect(m, txs.drop_last(), height);
        let tx = txs.last();
        lemma_create_effect_created(
            spend_effect(prev.map, tx.inputs@).map,
            tx.txid@,
            tx.outputs@,
            height,
        );
    }
}

/// Aggregate counters that one applied block returns.
pub struct BlockTotals {
    pub spent_count: u64,
    pub spent_value: u64,
    pub created_count: u64,
    pub created_value: u64,
}

/// What applying `b` at `height` to the index `pre` yields: the mapping and
/// the counters follow the block effect, and the index's entry count and
/// total value move by exactly what was spent, created and overwritten.
pub open spec fn apply_block_post(
    pre: UnspentIndex,
    post: UnspentIndex,
    r: BlockTotals,
    b: Block,
    height: u64,
) -> bool {
    let eff = block_effect(pre@, b.txs@, height);
    &&& post.wf()
    &&& post@ == eff.map
    &&& r.spent_count == eff.spent_count
    &&& r.spent_value == eff.spent_value
    &&& r.created_count == eff.created_count
    &&& r.created_value == eff.created_value
    &&& post.count() == pre.count() - eff.spent_count + eff.created_count - eff.replaced_count
    &&& post.total() == pre.total() - eff.spent_value + eff.created_value - eff.replaced_value
}

impl UnspentIndex {
    /// Apply one block at `height`: for every transaction, in order, remove
    /// what its inputs spend, then insert what its outputs create. A spend
    /// that misses the index contributes zero; a coinbase input is skipped.
    pub fn apply_block(&mut self, block: &Block, height: u64) -> (r: BlockTotals)
        requires
            old(self).wf(),
            block_wf(*block),
            old(self).total() + block_created_value(block.txs@) <= u64::MAX,
            old(self).count() + block_created_count(block.txs@) <= u64::MAX,
        ensures
            apply_block_post(*old(self), *final(self), r, *block, height),
    {
        let ghost m0 = self@;
        let ghost c0 = self.count();
        let ghost t0 = self.total();
        let ghost b = block.txs@;
        proof {
            lemma_seq_total_nonneg(self.seq());
            assert(b.take(0) =~= Seq::<Transaction>::empty());
        }
        let mut spent_count: u64 = 0;
        let mut spent_value: u64 = 0;
        let mut created_count: u64 = 0;
        let mut created_value: u64 = 0;
        let ntx = block.txs.len();
        let mut ti: usize = 0;
        while ti < ntx
            invariant
                ntx == b.len(),
                ti <= ntx,
                b == block.txs@,
                block_wf(*block),
                t0 >= 0,
                c0 >= 0,
                t0 + block_created_value(b) <= u64::MAX,
                c0 + block_created_count(b) <= u64::MAX,
                self.wf(),
                self@ == block_effect(m0, b.take(ti as int), height).map,
                spent_count == block_effect(m0, b.take(ti as int), height).spent_count,
                spent_value == block_effect(m0, b.take(ti as int), height).spent_value,
                created_count == block_effect(m0, b.take(ti as int), height).created_count,
                created_value == block_effect(m0, b.take(ti as int), height).created_value,
                self.count() == c0 - block_effect(m0, b.take(ti as int), height).spent_count
                    + block_effect(m0, b.take(ti as int), height).created_count - block_effect(
                    m0,
                    b.take(ti as int),
                    height,
                ).replaced_count,
                self.total() == t0 - block_effect(m0, b.take(ti as int), height).spent_value
                    + block_effect(m0, b.take(ti as int), height).created_value - block_effect(
                    m0,
                    b.take(ti as int),
                    height,
                ).replaced_value,
            decreases ntx - ti,
        {
            let tx = &block.txs[ti];
            let ghost base = block_effect(m0, b.take(ti as int), height);
            proof {
                lemma_block_effect_nonneg(m0, b.take(ti as int), height);
                lemma_block_effect_created(m0, b.take(ti as int), height);
                assert(b.take(ti as int).take(ti as int) =~= b.take(ti as int));
                lemma_block_created_prefix(b, ti as int);
                assert(tx.inputs@.take(0) =~= Seq::<TxInput>::empty());
            }
            // Spend step: remove what this transaction's inputs reference.
            let nin = tx.inputs.len();
            let mut j: usize = 0;
            while j < nin
                invariant
                    ntx == b.len(),
                    ti < ntx,
                    b == block.txs@,
                    *tx == b[ti as int],
                    block_wf(*block),
                    t0 >= 0,
                    c0 >= 0,
                    t0 + block_created_value(b) <= u64::MAX,
                    c0 + block_created_count(b) <= u64::MAX,
                    base == block_effect(m0, b.take(ti as int), height),
                    base.created_value <= block_created_value(b),
                    base.created_count <= block_created_count(b),
                    base.spent_count >= 0,
                    base.spent_value >= 0,
                    base.replaced_count >= 0,
                    base.replaced_value >= 0,
                    nin == tx.inputs@.len(),
                    j <= nin,
                    self.wf(),
                    self@ == spend_effect(base.map, tx.inputs@.take(j as int)).map,
                    spent_count == base.spent_count + spend_effect(
                        base.map,
                        tx.inputs@.take(j as int),
                    ).count,
                    spent_value == base.spent_value + spend_effect(
                        base.map,
                        tx.inputs@.take(j as int),
                    ).value,
                    created_count == base.created_count,
                    created_value == base.created_value,
                    self.count() == c0 - spent_count + base.created_count - base.replaced_count,
                    self.total() == t0 - spent_value + base.created_value - base.replaced_value,
                decreases nin - j,
            {
                let ghost se = spend_effect(base.map, tx.inputs@.take(j as int));
                proof {
                    lemma_spend_effect_step(base.map, tx.inputs@, j as int);
                    lemma_spend_effect_nonneg(base.map, tx.inputs@.take(j as int));
                }
                match &tx.inputs[j] {
                    TxInput::Coinbase => {},
                    TxInput::Outpoint { txid, index } => {
                        let k = output_key(txid, *index);
                        proof {
                            lemma_seq_total_nonneg(self.seq());
                        }
                        let removed = self.remove(&k);
                        proof {
                            lemma_seq_total_nonneg(self.seq());
                        }
                        match removed {
                            Some(e) => {
                                spent_value = spent_value + e.value;
                                spent_count = spent_count + 1;
                            },
                            None => {},
                        }
                    },
                }
                j += 1;
            }
            proof {
                assert(tx.inputs@.take(nin as int) =~= tx.inputs@);
            }
            let ghost sm = spend_effect(base.map, tx.inputs@).map;
            let ghost sc_tx = spend_effect(base.map, tx.inputs@).count;
            let ghost sv_tx = spend_effect(base.map, tx.inputs@).value;
            proof {
                lemma_spend_effect_nonneg(base.map, tx.inputs@);
                lemma_outputs_created_nonneg(tx.outputs@);
                assert(tx.outputs@.take(0) =~= Seq::<TxOutput>::empty());
                lemma_block_created_step(b, ti as int);
                lemma_block_created_prefix(b, ti as int + 1);
            }
            // Create step: insert what this transaction's outputs create.
            let nout = tx.outputs.len();
            let mut j: usize = 0;
            while j < nout
                invariant
                    ntx == b.len(),
                    ti < ntx,
                    b == block.txs@,
                    *tx == b[ti as int],
                    block_wf(*block),
                    t0 >= 0,
                    c0 >= 0,
                    t0 + block_created_value(b) <= u64::MAX,
                    c0 + block_created_count(b) <= u64::MAX,
                    base == block_effect(m0, b.take(ti as int), height),
                    base.created_value + outputs_created_value(tx.outputs@) <= block_created_value(
                        b,
                    ),
                    base.created_count + outputs_created_count(tx.outputs@) <= block_created_count(
                        b,
                    ),
                    base.spent_count >= 0,
                    base.spent_value >= 0,
                    base.replaced_count >= 0,
                    base.replaced_value >= 0,
                    sc_tx >= 0,
                    sv_tx >= 0,
                    sm == spend_effect(base.map, tx.inputs@).map,
                    sc_tx == spend_effect(base.map, tx.inputs@).count,
                    sv_tx == spend_effect(base.map, tx.inputs@).value,
                    nout == tx.outputs@.len(),
                    j <= nout,
                    self.wf(),
                    self@ == create_effect(sm, tx.txid@, tx.outputs@.take(j as int), height).map,
                    spent_count == base.spent_count + sc_tx,
                    spent_value == base.spent_value + sv_tx,
                    created_count == base.created_count + create_effect(
                        sm,
                        tx.txid@,
                        tx.outputs@.take(j as int),
                        height,
                    ).count,
                    created_value == base.created_value + create_effect(
                        sm,
                        tx.txid@,
                        tx.outputs@.take(j as int),
                        height,
                    ).value,
                    self.count() == c0 - spent_count + created_count - (base.replaced_count
                        + create_effect(sm, tx.txid@, tx.outputs@.take(j as int), height).replaced_count),
                    self.total() == t0 - spent_value + created_value - (base.replaced_value
                        + create_effect(sm, tx.txid@, tx.outputs@.take(j as int), height).replaced_value),
                decreases nout - j,
            {
                let ghost ce = create_effect(sm, tx.txid@, tx.outputs@.take(j as int), height);
                proof {
                    lemma_create_effect_step(sm, tx.txid@, tx.outputs@, j as int, height);
                    lemma_create_effect_nonneg(sm, tx.txid@, tx.outputs@.take(j as int), height);
                    lemma_create_effect_created(sm, tx.txid@, tx.outputs@.take(j as int), height);
                    lemma_outputs_created_step(tx.outputs@, j as int);
                    lemma_outputs_created_prefix(tx.outputs@, j as int + 1);
                }
                let o = &tx.outputs[j];
                match &o.address {
                    None => {},
                    Some(addr) => {
                        proof {
                            assert(tx.outputs@.len() <= 0xffff_ffff);
                        }
                        let k = output_key(&tx.txid, j as u32);
                        let entry = UnspentEntry { address: addr.clone(), value: o.value, height };
                        let _replaced = self.insert(k, entry);
                        created_value = created_value + o.value;
                        created_count = created_count + 1;
                    },
                }
                j += 1;
            }
            proof {
                assert(tx.outputs@.take(nout as int) =~= tx.outputs@);
                lemma_block_effect_step(m0, b, ti as int, height);
            }
            ti += 1;
        }
        proof {
            assert(b.take(ntx as int) =~= b);
        }
        BlockTotals { spent_count, spent_value, created_count, created_value }
    }
}

} // verus!
