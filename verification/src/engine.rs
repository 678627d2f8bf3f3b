//! The engine behind a balances run: one instance owns the Unspent Index and
//! the run state, and is driven through the three-phase lifecycle — start,
//! one apply per block in strictly increasing height order, complete.

use vstd::prelude::*;

use crate::aggregate::aggregate_post;
use crate::apply::{block_effect, lemma_block_effect_nonneg, BlockTotals};
use crate::audit::AuditRecord;
use crate::block::{
    block_created_count, block_created_value, block_wf, lemma_block_created_nonneg, Block,
};
use crate::index::{lemma_seq_total_nonneg, UnspentEntry, UnspentIndex};
use crate::snapshot::snapshot_name;
use crate::subsidy::{block_reward, spec_subsidy};

verus! {

/// Tracks all addresses with a live output and their balance; dumps them as
/// a csv snapshot at completion and audits each block's accounting along the
/// way.
pub struct Balances {
    unspents: UnspentIndex,
    lost_value: u64,
    start_height: u64,
    end_height: u64,
}

/// The lost value of a block: its subsidy plus the value its inputs spent,
/// less the value its outputs created. A positive lost value is value that
/// no tracked address's eventual balance reflects; zero or negative lost
/// value is not an error and is not recorded.
pub open spec fn lost_of(m: Map<Seq<u8>, UnspentEntry>, b: Block, height: u64) -> int {
    spec_subsidy(height) + block_effect(m, b.txs@, height).spent_value - block_effect(
        m,
        b.txs@,
        height,
    ).created_value
}

impl Balances {
    /// The engine's Unspent Index.
    pub closed spec fn index(&self) -> UnspentIndex {
        self.unspents
    }

    /// Accumulated positive lost value across all processed blocks.
    pub closed spec fn lost(&self) -> u64 {
        self.lost_value
    }

    /// The run's first height, as recorded at start.
    pub closed spec fn start(&self) -> u64 {
        self.start_height
    }

    /// The run's last height, as recorded at completion.
    pub closed spec fn end(&self) -> u64 {
        self.end_height
    }

    /// The engine is well-formed while its index is.
    pub open spec fn wf(&self) -> bool {
        self.index().wf()
    }

    /// A fresh engine: empty index, nothing lost, heights zero.
    pub fn new() -> (r: Self)
        ensures
            r.wf(),
            r.index()@ == Map::<Seq<u8>, UnspentEntry>::empty(),
            r.index().count() == 0,
            r.index().total() == 0,
            r.lost() == 0,
            r.start() == 0,
            r.end() == 0,
    {
        Balances {
            unspents: UnspentIndex::new(),
            lost_value: 0,
            start_height: 0,
            end_height: 0,
        }
    }

    /// A fresh engine whose index is provisioned for `cap` live entries up
    /// front; a full chain scan accumulates tens of millions.
    pub fn with_capacity(cap: usize) -> (r: Self)
        ensures
            r.wf(),
            r.index()@ == Map::<Seq<u8>, UnspentEntry>::empty(),
            r.index().count() == 0,
            r.index().total() == 0,
            r.lost() == 0,
            r.start() == 0,
            r.end() == 0,
    {
        Balances {
            unspents: UnspentIndex::with_capacity(cap),
            lost_value: 0,
            start_height: 0,
            end_height: 0,
        }
    }

    /// Record the run's first height.
    pub fn on_start(&mut self, block_height: u64)
        requires
            old(self).wf(),
        ensures
            final(self).wf(),
            final(self).start() == block_height,
            final(self).end() == old(self).end(),
            final(self).lost() == old(self).lost(),
            final(self).index() == old(self).index(),
    {
        self.start_height = block_height;
    }

    /// Apply one block at `height`: remove what its transactions spend,
    /// insert what they create, and audit the block's accounting. Where the
    /// block lost value, the returned record is the row to append to the
    /// audit trail, and the loss accrues to the running total.
    ///
    /// The bounds keep every counter within the machine's signed and
    /// unsigned 64-bit range; chains that respect the protocol's monetary
    /// cap sit far below them.
    pub fn on_block(&mut self, block: &Block, height: u64) -> (r: Option<AuditRecord>)
        requires
            old(self).wf(),
            block_wf(*block),
            old(self).index().count() + block_created_count(block.txs@) <= u64::MAX,
            spec_subsidy(height) + old(self).index().total() + block_created_value(block.txs@)
                <= i64::MAX,
            old(self).lost() + spec_subsidy(height) + old(self).index().total()
                + block_created_value(block.txs@) <= u64::MAX,
        ensures
            final(self).wf(),
            final(self).start() == old(self).start(),
            final(self).end() == old(self).end(),
            ({
                let eff = block_effect(old(self).index()@, block.txs@, height);
                let lost = lost_of(old(self).index()@, *block, height);
                &&& final(self).index()@ == eff.map
                &&& final(self).index().count() == old(self).index().count() - eff.spent_count
                    + eff.created_count - eff.replaced_count
                &&& final(self).index().total() == old(self).index().total() - eff.spent_value
                    + eff.created_value - eff.replaced_value
                &&& (r is Some <==> lost > 0)
                &&& (match r {
                    Some(rec) => {
                        &&& rec.block_height == height
                        &&& rec.reward == spec_subsidy(height)
                        &&& rec.spent_value == eff.spent_value
                        &&& rec.created_value == eff.created_value
                        &&& rec.lost == lost
                    },
                    None => true,
                })
                &&& final(self).lost() == old(self).lost() + (if lost > 0 {
                    lost
                } else {
                    0
                })
            }),
    {
        let ghost m0 = self.unspents@;
        let ghost t0 = self.unspents.total();
        proof {
            lemma_seq_total_nonneg(self.unspents.seq());
            lemma_block_created_nonneg(block.txs@);
        }
        let reward: u64 = block_reward(height);
        let totals: BlockTotals = self.unspents.apply_block(block, height);
        proof {
            lemma_block_effect_nonneg(m0, block.txs@, height);
            lemma_seq_total_nonneg(self.unspents.seq());
            crate::apply::lemma_block_effect_created(m0, block.txs@, height);
            assert(totals.spent_value <= t0 + block_created_value(block.txs@));
        }
        let lost: i64 = reward as i64 + totals.spent_value as i64 - totals.created_value as i64;
        if lost > 0 {
            self.lost_value = self.lost_value + (lost as u64);
            Some(
                AuditRecord {
                    block_height: height,
                    reward,
                    spent_value: totals.spent_value,
                    created_value: totals.created_value,
                    lost: lost as u64,
                },
            )
        } else {
            None
        }
    }

    /// Record the run's last height and fold the index into the per-address
    /// balances the snapshot will hold.
    pub fn on_complete(&mut self, block_height: u64) -> (r: Vec<(String, u64)>)
        requires
            old(self).wf(),
            old(self).index().total() <= u64::MAX,
        ensures
            final(self).wf(),
            final(self).end() == block_height,
            final(self).start() == old(self).start(),
            final(self).lost() == old(self).lost(),
            final(self).index() == old(self).index(),
            aggregate_post(final(self).index().seq(), r@),
    {
        self.end_height = block_height;
        self.unspents.aggregate()
    }

    /// The name the finished snapshot is published under for this run.
    pub fn snapshot_file_name(&self) -> (r: String)
        ensures
            r@ == snapshot_name(self.start(), self.end()),
    {
        crate::snapshot::snapshot_file_name(self.start_height, self.end_height)
    }

    /// Accumulated positive lost value, for reporting at completion.
    pub fn lost_value(&self) -> (r: u64)
        ensures
            r == self.lost(),
    {
        self.lost_value
    }

    /// Number of live entries in the index.
    pub fn unspent_count(&self) -> (r: usize)
        ensures
            r == self.index().count(),
    {
        self.unspents.len()
    }
}

} // verus!
