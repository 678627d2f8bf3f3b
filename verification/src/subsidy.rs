//! The issuance schedule: how much new value a block at a given height is
//! allowed to create, halving every `HALVING_INTERVAL` blocks.

use vstd::prelude::*;

verus! {

/// Reward of the first block, in satoshis.
pub const INITIAL_SUBSIDY: u64 = 50 * 100_000_000;

/// Number of blocks after which the subsidy is halved.
pub const HALVING_INTERVAL: u64 = 210_000;

/// The subsidy owed to a block at `height`: the initial subsidy shifted right
/// once per elapsed halving interval, saturating to zero once the shift would
/// exceed the word width.
pub open spec fn spec_subsidy(height: u64) -> u64 {
    let halvings = height / HALVING_INTERVAL;
    if halvings >= 64 {
        0u64
    } else {
        INITIAL_SUBSIDY >> halvings
    }
}

/// Subsidy of the block at `height`, total over the whole `u64` domain.
pub fn block_reward(height: u64) -> (r: u64)
    ensures
        r == spec_subsidy(height),
{
    let halvings = height / HALVING_INTERVAL;
    if halvings >= 64 {
        0
    } else {
        INITIAL_SUBSIDY >> halvings
    }
}

/// The subsidy never exceeds the initial subsidy.
pub proof fn lemma_subsidy_bounded(height: u64)
    ensures
        spec_subsidy(height) <= INITIAL_SUBSIDY,
{
    let halvings = height / HALVING_INTERVAL;
    if halvings < 64 {
        assert(INITIAL_SUBSIDY >> halvings <= INITIAL_SUBSIDY) by (bit_vector);
    }
}

/// The halving rule at its landmarks: the first block earns the initial
/// subsidy, the first halved block earns exactly half of it (integer
/// division), and heights past the word width earn nothing.
pub proof fn lemma_subsidy_schedule()
    ensures
        spec_subsidy(0) == INITIAL_SUBSIDY,
        spec_subsidy(HALVING_INTERVAL) == INITIAL_SUBSIDY / 2,
        forall|h: u64| h / HALVING_INTERVAL >= 64 ==> spec_subsidy(h) == 0,
{
    assert(5_000_000_000u64 >> 0 == 5_000_000_000u64) by (bit_vector);
    assert(5_000_000_000u64 >> 1 == 2_500_000_000u64) by (bit_vector);
}

} // verus!
