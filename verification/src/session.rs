//! How long a run is.

use crate::numbers::{parse_number, parsed_number};
use vstd::math::max;
use vstd::prelude::*;

verus! {

/// Batches in a superbatch.
pub const BATCHES_PER_SUPERBATCH: usize = 18_000;

/// Positions in a batch.
pub const BATCH_SIZE: usize = 8_192;

/// Positions that the whole run is to see.
pub const TOTAL_POSITIONS_TARGET: u64 = 70_000_000_000;

/// Bytes that a position takes in a binpack file, about.
pub const BYTES_PER_POSITION: usize = 100;

/// The number of full superbatches in some positions, at least one.
pub open spec fn superbatches_in(positions: nat) -> nat {
    max((positions / BATCH_SIZE as nat / BATCHES_PER_SUPERBATCH as nat) as int, 1) as nat
}

/// Some positions fill the superbatches counted, and not one more. Where there are
/// not enough for one, the count is one.
pub proof fn lemma_superbatches_filled(positions: nat)
    ensures
        superbatches_in(positions) >= 1,
        positions >= 8192 * 18000 ==> superbatches_in(positions) * 8192 * 18000 <= positions
            < (superbatches_in(positions) + 1) * 8192 * 18000,
        positions < 8192 * 18000 ==> superbatches_in(positions) == 1,
{
    let batches = positions / 8192;
    let full = batches / 18000;
    assert(batches * 8192 <= positions < (batches + 1) * 8192);
    assert(full * 18000 <= batches < (full + 1) * 18000);
}

/// One more superbatch of positions is one more superbatch.
pub proof fn lemma_one_more_superbatch(positions: nat)
    requires
        positions >= 8192 * 18000,
    ensures
        superbatches_in(positions + 8192 * 18000) == superbatches_in(positions) + 1,
{
    lemma_superbatches_filled(positions);
    lemma_superbatches_filled(positions + 8192 * 18000);
}

/// The number of superbatches of the whole run.
pub fn total_planned_superbatches() -> (n: usize)
    ensures
        n == superbatches_in(TOTAL_POSITIONS_TARGET as nat),
        n == 474,
        n * 8192 * 18000 <= 70_000_000_000 < (n + 1) * 8192 * 18000,
{
    proof {
        assert(TOTAL_POSITIONS_TARGET as nat / BATCH_SIZE as nat == 8_544_921) by (nonlinear_arith);
        assert(8_544_921nat / BATCHES_PER_SUPERBATCH as nat == 474) by (nonlinear_arith);
    }
    let total_batches: u64 = TOTAL_POSITIONS_TARGET / BATCH_SIZE as u64;
    let superbatches: u64 = total_batches / BATCHES_PER_SUPERBATCH as u64;
    if superbatches > 1 {
        superbatches as usize
    } else {
        1
    }
}

/// What a binpack file holds, by its size.
#[derive(Clone, Copy, Debug, PartialEq, Eq)]
pub struct PassEstimate {
    /// The size of the file in mebibytes.
    pub megabytes: usize,
    /// The positions in the file in millions.
    pub million_positions: usize,
    /// The superbatches in one pass over the file.
    pub superbatches: usize,
}

/// Estimates what a file of `file_size` bytes holds.
pub fn estimate_pass(file_size: usize) -> (e: PassEstimate)
    ensures
        e.megabytes == file_size / 1_048_576,
        e.million_positions == file_size / BYTES_PER_POSITION / 1_000_000,
        e.superbatches == superbatches_in((file_size / BYTES_PER_POSITION) as nat),
        e.megabytes * 1_048_576 <= file_size < (e.megabytes + 1) * 1_048_576,
        e.million_positions * 1_000_000 * 100 <= file_size < (e.million_positions + 1) * 1_000_000
            * 100,
        e.superbatches >= 1,
        file_size >= 8192 * 18000 * 100 ==> e.superbatches * 8192 * 18000 * 100 <= file_size < (
        e.superbatches + 1) * 8192 * 18000 * 100,
        file_size < 8192 * 18000 * 100 ==> e.superbatches == 1,
{
    proof {
        lemma_superbatches_filled((file_size / 100) as nat);
        assert((file_size / 100) * 100 <= file_size < (file_size / 100 + 1) * 100);
    }
    let estimated_positions: usize = file_size / BYTES_PER_POSITION;
    let total_batches: usize = estimated_positions / BATCH_SIZE;
    let full: usize = total_batches / BATCHES_PER_SUPERBATCH;
    let superbatches: usize = if full > 1 {
        full
    } else {
        1
    };
    PassEstimate {
        megabytes: file_size / 1_048_576,
        million_positions: estimated_positions / 1_000_000,
        superbatches,
    }
}

/// The number of superbatches in one pass over a file of `file_size` bytes.
pub fn positions_in_one_pass(file_size: usize) -> (n: usize)
    ensures
        n == superbatches_in((file_size / BYTES_PER_POSITION) as nat),
        n >= 1,
        file_size >= 8192 * 18000 * 100 ==> n * 8192 * 18000 * 100 <= file_size < (n + 1) * 8192
            * 18000 * 100,
        file_size < 8192 * 18000 * 100 ==> n == 1,
{
    estimate_pass(file_size).superbatches
}

/// The number of passes that an argument asks for: at least one, and one where
/// there is no argument or it is no number.
pub open spec fn passes_asked(arg: Option<Seq<char>>) -> nat {
    match arg {
        Some(text) => match parsed_number(text) {
            Some(n) => max(n as int, 1) as nat,
            None => 1,
        },
        None => 1,
    }
}

/// An argument that reads as a number above zero asks for that number of passes, and
/// any other, or none, for one.
pub proof fn lemma_passes_asked(text: Seq<char>, n: nat)
    ensures
        passes_asked(None) == 1,
        parsed_number(text) == Some(n) && n > 0 ==> passes_asked(Some(text)) == n,
        parsed_number(text) == Some(0nat) ==> passes_asked(Some(text)) == 1,
        parsed_number(text) is None ==> passes_asked(Some(text)) == 1,
{
}

/// Reads the number of passes from an argument.
pub fn parse_passes(arg: Option<&str>) -> (n: usize)
    ensures
        n == passes_asked(
            match arg {
                Some(s) => Some(s@),
                None => None,
            },
        ),
        n >= 1,
        arg is None ==> n == 1,
        arg matches Some(s) ==> (parsed_number(s@) is None ==> n == 1),
        arg matches Some(s) ==> (parsed_number(s@) matches Some(v) ==> (v > 0 ==> n == v) && (v == 0
            ==> n == 1)),
{
    match arg {
        Some(s) => match parse_number(s) {
            Some(n) => if n > 1 {
                n
            } else {
                1
            },
            None => 1,
        },
        None => 1,
    }
}

/// The superbatches of one session of a run.
#[derive(Clone, Copy, Debug, PartialEq, Eq)]
pub struct SessionPlan {
    /// The superbatch that the session starts at.
    pub start_superbatch: usize,
    /// The superbatch that the session ends at.
    pub end_superbatch: usize,
    /// The superbatches of the session.
    pub superbatches_this_session: usize,
    /// The superbatches of the whole run.
    pub total_planned: usize,
    /// Whether the session starts after the whole run should have ended.
    pub past_schedule: bool,
}

/// Plans a session of `passes` passes.
pub fn plan_session(
    start_superbatch: usize,
    superbatches_per_pass: usize,
    passes: usize,
) -> (plan: SessionPlan)
    requires
        start_superbatch + superbatches_per_pass * passes <= usize::MAX,
    ensures
        plan.start_superbatch == start_superbatch,
        plan.superbatches_this_session == superbatches_per_pass * passes,
        plan.end_superbatch == start_superbatch + superbatches_per_pass * passes,
        plan.total_planned == superbatches_in(TOTAL_POSITIONS_TARGET as nat),
        plan.past_schedule <==> start_superbatch > plan.total_planned,
        plan.total_planned == 474,
        plan.past_schedule <==> start_superbatch >= 475,
        plan.end_superbatch - plan.start_superbatch == plan.superbatches_this_session,
{
    assert(0 <= superbatches_per_pass * passes) by (nonlinear_arith);
    let superbatches_this_session: usize = superbatches_per_pass * passes;
    let total_planned: usize = total_planned_superbatches();
    SessionPlan {
        start_superbatch,
        end_superbatch: start_superbatch + superbatches_this_session,
        superbatches_this_session,
        total_planned,
        past_schedule: start_superbatch > total_planned,
    }
}

} // verus!
