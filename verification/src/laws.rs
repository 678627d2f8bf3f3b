//! Laws of the applier: what a run accumulates when blocks share no outputs,
//! and what one spend does to the index.

use vstd::prelude::*;

use crate::apply::{
    block_effect, create_effect, input_step, lemma_block_effect_created, spend_effect,
    apply_block_post, BlockTotals, SpendEffect,
};
use crate::block::{block_created_count, block_created_value, key_of, Transaction, TxInput, TxOutput};
use crate::index::{UnspentEntry, UnspentIndex};

verus! {

/// Every input of every transaction is a coinbase input: nothing references
/// a prior output, so the spend step has nothing to remove.
pub open spec fn all_coinbase(txs: Seq<Transaction>) -> bool {
    forall|t: int, j: int|
        0 <= t < txs.len() && 0 <= j < txs[t].inputs@.len() ==> (#[trigger] txs[t].inputs@[j])
            is Coinbase
}

/// Output `j` of transaction `t` exists and bears an address, so the create
/// step tracks it.
pub open spec fn created_at(txs: Seq<Transaction>, t: int, j: int) -> bool {
    0 <= t < txs.len() && 0 <= j < txs[t].outputs@.len() && txs[t].outputs@[j].address is Some
}

/// The key under which output `j` of transaction `t` is stored.
pub open spec fn created_key(txs: Seq<Transaction>, t: int, j: int) -> Seq<u8> {
    key_of(txs[t].txid@, j)
}

/// No created output collides with the index or with another created output:
/// the blocks share no outputs with the index or among themselves.
pub open spec fn creates_fresh(m: Map<Seq<u8>, UnspentEntry>, txs: Seq<Transaction>) -> bool {
    &&& forall|t: int, j: int|
        created_at(txs, t, j) ==> !m.contains_key(#[trigger] created_key(txs, t, j))
    &&& forall|t1: int, j1: int, t2: int, j2: int|
        created_at(txs, t1, j1) && created_at(txs, t2, j2) && !(t1 == t2 && j1 == j2)
            ==> #[trigger] created_key(txs, t1, j1) != #[trigger] created_key(txs, t2, j2)
}

/// A spend pass over coinbase inputs alone leaves the mapping untouched and
/// counts nothing.
proof fn lemma_spend_coinbase(m: Map<Seq<u8>, UnspentEntry>, inputs: Seq<TxInput>)
    requires
        forall|j: int| 0 <= j < inputs.len() ==> (#[trigger] inputs[j]) is Coinbase,
    ensures
        spend_effect(m, inputs) == (SpendEffect { map: m, count: 0, value: 0 }),
    decreases inputs.len(),
{
    if inputs.len() > 0 {
        assert forall|j: int| 0 <= j < inputs.drop_last().len() implies (#[trigger] inputs.drop_last()[j])
            is Coinbase by {
            assert(inputs.drop_last()[j] == inputs[j]);
        }
        lemma_spend_coinbase(m, inputs.drop_last());
        assert(inputs.last() is Coinbase);
    }
}

/// Creating outputs under keys absent from the mapping, and distinct among
/// themselves, overwrites nothing; the resulting mapping holds exactly the
/// old keys and the created ones.
proof fn lemma_create_fresh(
    m: Map<Seq<u8>, UnspentEntry>,
    txid: Seq<u8>,
    outputs: Seq<TxOutput>,
    height: u64,
)
    requires
        forall|j: int|
            0 <= j < outputs.len() && outputs[j].address is Some ==> !m.contains_key(
                #[trigger] key_of(txid, j),
            ),
        forall|j1: int, j2: int|
            0 <= j1 < outputs.len() && 0 <= j2 < outputs.len() && j1 != j2
                && outputs[j1].address is Some && outputs[j2].address is Some
                ==> #[trigger] key_of(txid, j1) != #[trigger] key_of(txid, j2),
    ensures
        create_effect(m, txid, outputs, height).replaced_count == 0,
        create_effect(m, txid, outputs, height).replaced_value == 0,
        forall|k: Seq<u8>|
            #[trigger] create_effect(m, txid, outputs, height).map.contains_key(k) <==> (
            m.contains_key(k) || exists|j: int|
                0 <= j < outputs.len() && outputs[j].address is Some && k == key_of(txid, j)),
    decreases outputs.len(),
{
    if outputs.len() > 0 {
        let prev = create_effect(m, txid, outputs.drop_last(), height);
        let last = outputs.last();
        let nl = outputs.len() - 1;
        assert forall|j: int| 0 <= j < outputs.drop_last().len() implies outputs.drop_last()[j]
            == outputs[j] by {}
        lemma_create_fresh(m, txid, outputs.drop_last(), height);
        let eff = create_effect(m, txid, outputs, height);
        match last.address {
            None => {
                assert(eff == prev);
                assert forall|k: Seq<u8>| #[trigger] eff.map.contains_key(k) <==> (m.contains_key(
                    k,
                ) || exists|j: int|
                    0 <= j < outputs.len() && outputs[j].address is Some && k == key_of(
                        txid,
                        j,
                    )) by {
                    if eff.map.contains_key(k) && !m.contains_key(k) {
                        let j = choose|j: int|
                            0 <= j < outputs.drop_last().len() && outputs.drop_last()[j].address
                                is Some && k == key_of(txid, j);
                        assert(0 <= j < outputs.len() && outputs[j].address is Some && k == key_of(
                            txid,
                            j,
                        ));
                    }
                    if !eff.map.contains_key(k) && (exists|j: int|
                        0 <= j < outputs.len() && outputs[j].address is Some && k == key_of(
                            txid,
                            j,
                        )) {
                        let j = choose|j: int|
                            0 <= j < outputs.len() && outputs[j].address is Some && k == key_of(
                                txid,
                                j,
                            );
                        assert(j != nl);
                        assert(outputs.drop_last()[j].address is Some && k == key_of(txid, j));
                    }
                }
            },
            Some(_) => {
                let k_last = key_of(txid, nl);
                assert(!m.contains_key(k_last));
                assert(!prev.map.contains_key(k_last)) by {
                    if prev.map.contains_key(k_last) {
                        let j = choose|j: int|
                            0 <= j < outputs.drop_last().len() && outputs.drop_last()[j].address
                                is Some && k_last == key_of(txid, j);
                        assert(key_of(txid, j) != key_of(txid, nl));
                    }
                }
                assert(eff.replaced_count == prev.replaced_count);
                assert(eff.replaced_value == prev.replaced_value);
                assert forall|k: Seq<u8>| #[trigger] eff.map.contains_key(k) <==> (m.contains_key(
                    k,
                ) || exists|j: int|
                    0 <= j < outputs.len() && outputs[j].address is Some && k == key_of(
                        txid,
                        j,
                    )) by {
                    if k == k_last {
                        assert(eff.map.contains_key(k));
                        assert(0 <= nl < outputs.len() && outputs[nl].address is Some && k
                            == key_of(txid, nl));
                    } else {
                        if eff.map.contains_key(k) && !m.contains_key(k) {
                            let j = choose|j: int|
                                0 <= j < outputs.drop_last().len() && outputs.drop_last()[j].address
                                    is Some && k == key_of(txid, j);
                            assert(0 <= j < outputs.len() && outputs[j].address is Some && k
                                == key_of(txid, j));
                        }
                        if !eff.map.contains_key(k) && (exists|j: int|
                            0 <= j < outputs.len() && outputs[j].address is Some && k == key_of(
                                txid,
                                j,
                            )) {
                            let j = choose|j: int|
                                0 <= j < outputs.len() && outputs[j].address is Some && k
                                    == key_of(txid, j);
                            assert(j != nl);
                            assert(outputs.drop_last()[j].address is Some && k == key_of(txid, j));
                        }
                    }
                }
            },
        }
    }
}

/// Over blocks whose inputs are all coinbase and whose created outputs are
/// fresh and distinct, the block effect spends nothing and overwrites
/// nothing, and the resulting mapping holds exactly the old and the created
/// keys.
proof fn lemma_block_fresh(m: Map<Seq<u8>, UnspentEntry>, txs: Seq<Transaction>, height: u64)
    requires
        all_coinbase(txs),
        creates_fresh(m, txs),
    ensures
        block_effect(m, txs, height).spent_count == 0,
        block_effect(m, txs, height).spent_value == 0,
        block_effect(m, txs, height).replaced_count == 0,
        block_effect(m, txs, height).replaced_value == 0,
        forall|k: Seq<u8>|
            #[trigger] block_effect(m, txs, height).map.contains_key(k) <==> (m.contains_key(k)
                || exists|t: int, j: int| created_at(txs, t, j) && k == created_key(txs, t, j)),
    decreases txs.len(),
{
    if txs.len() > 0 {
        let shorter = txs.drop_last();
        let tl = txs.len() - 1;
        assert forall|t: int, j: int| 0 <= t < shorter.len() && 0 <= j
            < shorter[t].inputs@.len() implies (#[trigger] shorter[t].inputs@[j]) is Coinbase by {
            assert(shorter[t] == txs[t]);
            assert(txs[t].inputs@[j] is Coinbase);
        }
        assert(creates_fresh(m, shorter)) by {
            assert forall|t: int, j: int| created_at(shorter, t, j) implies !m.contains_key(
                #[trigger] created_key(shorter, t, j),
            ) by {
                assert(shorter[t] == txs[t]);
                assert(created_at(txs, t, j));
                assert(created_key(shorter, t, j) == created_key(txs, t, j));
            }
            assert forall|t1: int, j1: int, t2: int, j2: int|
                created_at(shorter, t1, j1) && created_at(shorter, t2, j2) && !(t1 == t2 && j1
                    == j2) implies #[trigger] created_key(shorter, t1, j1)
                != #[trigger] created_key(shorter, t2, j2) by {
                assert(shorter[t1] == txs[t1] && shorter[t2] == txs[t2]);
                assert(created_at(txs, t1, j1) && created_at(txs, t2, j2));
                assert(created_key(txs, t1, j1) != created_key(txs, t2, j2));
                assert(created_key(shorter, t1, j1) == created_key(txs, t1, j1));
                assert(created_key(shorter, t2, j2) == created_key(txs, t2, j2));
            }
        }
        lemma_block_fresh(m, shorter, height);
        let prev = block_effect(m, shorter, height);
        let tx = txs.last();
        assert(tx == txs[tl]);
        assert forall|j: int| 0 <= j < tx.inputs@.len() implies (#[trigger] tx.inputs@[j])
            is Coinbase by {
            assert(txs[tl].inputs@[j] is Coinbase);
        }
        lemma_spend_coinbase(prev.map, tx.inputs@);
        assert forall|j: int| 0 <= j < tx.outputs@.len() && tx.outputs@[j].address
            is Some implies !prev.map.contains_key(#[trigger] key_of(tx.txid@, j)) by {
            assert(created_at(txs, tl, j));
            assert(key_of(tx.txid@, j) == created_key(txs, tl, j));
            assert(!m.contains_key(created_key(txs, tl, j)));
            if prev.map.contains_key(key_of(tx.txid@, j)) {
                let (t2, j2) = choose|t2: int, j2: int|
                    created_at(shorter, t2, j2) && key_of(tx.txid@, j) == created_key(
                        shorter,
                        t2,
                        j2,
                    );
                assert(shorter[t2] == txs[t2]);
                assert(created_at(txs, t2, j2));
                assert(created_key(txs, t2, j2) == created_key(shorter, t2, j2));
                assert(created_key(txs, t2, j2) != created_key(txs, tl, j));
            }
        }
        assert forall|j1: int, j2: int|
            0 <= j1 < tx.outputs@.len() && 0 <= j2 < tx.outputs@.len() && j1 != j2
                && tx.outputs@[j1].address is Some && tx.outputs@[j2].address
                is Some implies #[trigger] key_of(tx.txid@, j1) != #[trigger] key_of(
            tx.txid@,
            j2,
        ) by {
            assert(created_at(txs, tl, j1) && created_at(txs, tl, j2));
            assert(created_key(txs, tl, j1) != created_key(txs, tl, j2));
        }
        let sm = spend_effect(prev.map, tx.inputs@).map;
        assert(sm == prev.map);
        lemma_create_fresh(prev.map, tx.txid@, tx.outputs@, height);
        let eff = block_effect(m, txs, height);
        let ce = create_effect(prev.map, tx.txid@, tx.outputs@, height);
        assert(eff.map == ce.map);
        assert forall|k: Seq<u8>| #[trigger] eff.map.contains_key(k) <==> (m.contains_key(k)
            || exists|t: int, j: int| created_at(txs, t, j) && k == created_key(txs, t, j)) by {
            if eff.map.contains_key(k) && !m.contains_key(k) {
                if prev.map.contains_key(k) {
                    let (t2, j2) = choose|t2: int, j2: int|
                        created_at(shorter, t2, j2) && k == created_key(shorter, t2, j2);
                    assert(shorter[t2] == txs[t2]);
                    assert(created_at(txs, t2, j2) && k == created_key(txs, t2, j2));
                } else {
                    let j = choose|j: int|
                        0 <= j < tx.outputs@.len() && tx.outputs@[j].address is Some && k
                            == key_of(tx.txid@, j);
                    assert(created_at(txs, tl, j) && k == created_key(txs, tl, j));
                }
            }
            if !eff.map.contains_key(k) && (exists|t: int, j: int|
                created_at(txs, t, j) && k == created_key(txs, t, j)) {
                let (t, j) = choose|t: int, j: int|
                    created_at(txs, t, j) && k == created_key(txs, t, j);
                if t < tl {
                    assert(shorter[t] == txs[t]);
                    assert(created_at(shorter, t, j) && k == created_key(shorter, t, j));
                    assert(prev.map.contains_key(k));
                } else {
                    assert(t == tl);
                    assert(0 <= j < tx.outputs@.len() && tx.outputs@[j].address is Some && k
                        == key_of(tx.txid@, j));
                    assert(ce.map.contains_key(k));
                }
            }
        }
    }
}

/// For blocks that share no outputs — every input is a coinbase input, and
/// every created output's key is absent from the index and distinct from the
/// other created keys — an applied block spends nothing, and the index's
/// entry count and total value grow by exactly the block's created count and
/// value. Applied to each block of such a run in turn, the index ends up
/// holding the sum of all blocks' created counts and values.
pub proof fn lemma_no_spend_block_growth(
    pre: UnspentIndex,
    post: UnspentIndex,
    r: BlockTotals,
    b: crate::block::Block,
    height: u64,
)
    requires
        apply_block_post(pre, post, r, b, height),
        all_coinbase(b.txs@),
        creates_fresh(pre@, b.txs@),
    ensures
        r.spent_count == 0,
        r.spent_value == 0,
        r.created_count == block_created_count(b.txs@),
        r.created_value == block_created_value(b.txs@),
        post.count() == pre.count() + block_created_count(b.txs@),
        post.total() == pre.total() + block_created_value(b.txs@),
{
    lemma_block_fresh(pre@, b.txs@, height);
    lemma_block_effect_created(pre@, b.txs@, height);
}

/// What one spend does: an input referencing a live output removes exactly
/// that entry and contributes exactly its value; an input referencing a key
/// absent from the mapping changes nothing and contributes zero.
pub proof fn lemma_spend_one(m: Map<Seq<u8>, UnspentEntry>, txid: Vec<u8>, index: u32)
    requires
        m.dom().finite(),
    ensures
        ({
            let k = key_of(txid@, index as int);
            let step = input_step(
                SpendEffect { map: m, count: 0, value: 0 },
                TxInput::Outpoint { txid, index },
            );
            &&& (m.contains_key(k) ==> step.map == m.remove(k) && step.map.dom().len()
                == m.dom().len() - 1 && step.count == 1 && step.value == m[k].value)
            &&& (!m.contains_key(k) ==> step.map == m && step.count == 0 && step.value == 0)
        }),
{
    let k = key_of(txid@, index as int);
    if m.contains_key(k) {
        assert(m.remove(k).dom() =~= m.dom().remove(k));
    }
}

} // verus!
