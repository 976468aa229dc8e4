//! What holds of blocks whatever is done with a block manager.
use crate::engine::block::eviction::EvictionPicker;
use crate::engine::block::lifecycle;
use crate::engine::block::lifecycle::ManagerView;
use crate::engine::block::manager::{
    BlockId, BlockState, BlockStatistics, BlockView, CleanBlock, ForceReclaimError, Reclaim,
    ReclaimedBlock, ReclaimingBlock, WrittenBlock,
};
use vstd::prelude::*;

verus! {

/// A call to a block manager after its recovery, with what it returned.
pub enum Call<C, R> {
    /// `get_clean_block`.
    GetCleanBlock { waiter: C, clean: Option<CleanBlock> },
    /// `on_writing_finish`.
    WritingFinish { id: BlockId, written: WrittenBlock },
    /// `on_reclaim_finish`.
    ReclaimFinish { id: BlockId, reclaimed: ReclaimedBlock<C, R> },
    /// `reclaim_if_needed`.
    ReclaimIfNeeded { reclaim: Reclaim },
    /// `reclaim_block`.
    ReclaimBlock { id: BlockId, reinsert: bool, reclaiming: Option<ReclaimingBlock> },
    /// `force_reclaim`.
    ForceReclaim {
        id: BlockId,
        generation: u64,
        outcome: Result<ReclaimingBlock, ForceReclaimError>,
    },
    /// `wait_reclaim`.
    WaitReclaim { told: R, ready: Option<R> },
    /// `statistics_mut`.
    Statistics { id: BlockId, statistics: BlockStatistics },
}

/// What a call does.
pub open spec fn called<P: EvictionPicker, C, R>(
    before: ManagerView<P, C, R>,
    call: Call<C, R>,
    after: ManagerView<P, C, R>,
) -> bool {
    match call {
        Call::GetCleanBlock { waiter, clean } => lifecycle::clean_block_step(
            before,
            waiter,
            clean,
            after,
        ),
        Call::WritingFinish { id, written } => lifecycle::writing_finish_step(
            before,
            id,
            written,
            after,
        ),
        Call::ReclaimFinish { id, reclaimed } => lifecycle::reclaim_finish_step(
            before,
            id,
            reclaimed,
            after,
        ),
        Call::ReclaimIfNeeded { reclaim } => lifecycle::reclaim_step(before, reclaim, after),
        Call::ReclaimBlock { id, reinsert, reclaiming } => lifecycle::reclaim_block_step(
            before,
            id,
            reinsert,
            reclaiming,
            after,
        ),
        Call::ForceReclaim { id, generation, outcome } => lifecycle::force_reclaim_step(
            before,
            id,
            generation,
            outcome,
            after,
        ),
        Call::WaitReclaim { told, ready } => lifecycle::wait_reclaim_step(
            before,
            told,
            ready,
            after,
        ),
        Call::Statistics { id, statistics } => lifecycle::statistics_step(
            before,
            id,
            statistics,
            after,
        ),
    }
}

/// A call is made as intended: what is finished was under way, and what is referred to exists.
pub open spec fn intended<P, C, R>(before: ManagerView<P, C, R>, call: Call<C, R>) -> bool {
    match call {
        Call::GetCleanBlock { .. } => before.next_clean_exists(),
        Call::WritingFinish { id, .. } => before.writing.contains(id),
        Call::ReclaimFinish { id, .. } => before.reclaiming.contains(id),
        Call::Statistics { id, .. } => lifecycle::in_range(id, before.blocks.len()),
        _ => true,
    }
}

/// The states that a block can be in after one call.
pub open spec fn may_follow(from: BlockState, to: BlockState) -> bool {
    ||| from == to
    ||| from == BlockState::Clean && to == BlockState::Writing
    ||| from == BlockState::Writing && to == BlockState::Evictable
    ||| from == BlockState::Writing && to == BlockState::Reclaiming
    ||| from == BlockState::Evictable && to == BlockState::Reclaiming
    ||| from == BlockState::Reclaiming && to == BlockState::Clean
    ||| from == BlockState::Reclaiming && to == BlockState::Writing
}

/// Whether block `id` was handed out for writing between two states.
pub open spec fn was_handed_out<P, C, R>(
    before: ManagerView<P, C, R>,
    id: BlockId,
    after: ManagerView<P, C, R>,
) -> bool {
    before.state_of(id) != BlockState::Writing && after.state_of(id) == BlockState::Writing
}

/// The blocks are in the same states, with the same generations.
spec fn same_states<P, C, R>(a: ManagerView<P, C, R>, b: ManagerView<P, C, R>) -> bool {
    &&& a.clean == b.clean
    &&& a.evictable == b.evictable
    &&& a.writing == b.writing
    &&& a.reclaiming == b.reclaiming
    &&& a.generations == b.generations
}

/// Nothing but the state of block `id` differs: it was evictable and is being reclaimed.
spec fn one_reclaimed<P, C, R>(
    a: ManagerView<P, C, R>,
    id: BlockId,
    b: ManagerView<P, C, R>,
) -> bool {
    &&& a.evictable.contains(id)
    &&& same_states(a.evicted(id).reclaiming_too(id), b)
}

/// No block was put under reclamation, or one.
spec fn at_most_one_reclaimed<P, C, R>(
    a: ManagerView<P, C, R>,
    b: ManagerView<P, C, R>,
) -> bool {
    same_states(a, b) || exists|id: BlockId| one_reclaimed(a, id, b)
}

/// What a call does to the states of blocks before it puts any under reclamation.
spec fn main_effect<P, C, R>(before: ManagerView<P, C, R>, call: Call<C, R>) -> ManagerView<
    P,
    C,
    R,
> {
    match call {
        Call::GetCleanBlock { clean: Some(_), .. } => before.clean_block_taken(),
        Call::WritingFinish { id, .. } => before.written(id),
        Call::ReclaimFinish { id, .. } => before.reclaimed(id),
        _ => before,
    }
}

proof fn lemma_reclaim_step<P: EvictionPicker, C, R>(
    before: ManagerView<P, C, R>,
    reclaim: Reclaim,
    after: ManagerView<P, C, R>,
)
    requires
        lifecycle::reclaim_step(before, reclaim, after),
    ensures
        at_most_one_reclaimed(before, after),
        !same_states(before, after) ==> before.wants_reclaim(),
        after.blocks == before.blocks,
        after.statistics.len() == before.statistics.len(),
        before.pickers.len() == 0 ==> after.pickers.len() == 0 && after.statistics
            == before.statistics,
        after.clean_waiters == before.clean_waiters,
        after.reclaim_waiters == before.reclaim_waiters,
        after.reclaim_concurrency == before.reclaim_concurrency,
        after.clean_block_threshold == before.clean_block_threshold,
{
    match reclaim {
        Reclaim::NotNeeded => {},
        Reclaim::Start(reclaiming) => {
            let id = reclaiming@.block.id;
            let picked = choose|picked: ManagerView<P, C, R>| #[trigger]
                lifecycle::picked_step(before, id, picked) && lifecycle::reclaim_block_step(
                    picked,
                    id,
                    true,
                    Some(reclaiming),
                    after,
                );
            lemma_picked(before, id, picked);
            lemma_reclaim_block(picked, id, true, reclaiming, after);
            assert(one_reclaimed(before, id, after));
        },
        Reclaim::InvalidPick(id) => {
            lemma_picked(before, id, after);
        },
    }
}

/// Picking a block changes nothing but the pickers and statistics.
proof fn lemma_picked<P: EvictionPicker, C, R>(
    before: ManagerView<P, C, R>,
    id: BlockId,
    after: ManagerView<P, C, R>,
)
    requires
        lifecycle::picked_step(before, id, after),
    ensures
        after.statistics.len() == before.statistics.len(),
        after == before.told(after.pickers, after.statistics),
        before.pickers.len() == 0 ==> after == before,
{
    if lifecycle::asked_step(before, Some(id), after) {
        lifecycle::lemma_asked_step(before, Some(id), after);
    } else {
        lifecycle::lemma_asked_step(before, None, after);
    }
}

/// Putting a block under reclamation changes nothing but its state, the pickers and statistics.
proof fn lemma_reclaim_block<P: EvictionPicker, C, R>(
    before: ManagerView<P, C, R>,
    id: BlockId,
    reinsert: bool,
    reclaiming: ReclaimingBlock,
    after: ManagerView<P, C, R>,
)
    requires
        lifecycle::reclaim_block_step(before, id, reinsert, Some(reclaiming), after),
    ensures
        one_reclaimed(before, id, after),
        after.statistics.len() == before.statistics.len(),
        after == before.evicted(id).told(after.pickers, after.statistics).reclaiming_too(id),
        before.pickers.len() == 0 ==> after.pickers.len() == 0 && after.statistics
            == before.statistics,
{
    lifecycle::lemma_told_step(
        before.evicted(id),
        lifecycle::PickerCall::Evict { block: id },
        before.evicted(id).told(after.pickers, after.statistics),
    );
}

/// The state in which the pickers know that a block is written.
proof fn lemma_written<P: EvictionPicker, C, R>(
    before: ManagerView<P, C, R>,
    id: BlockId,
    written: WrittenBlock,
    after: ManagerView<P, C, R>,
) -> (told: ManagerView<P, C, R>)
    requires
        lifecycle::writing_finish_step(before, id, written, after),
    ensures
        told == before.written(id).told(told.pickers, told.statistics),
        told.statistics.len() == before.statistics.len(),
        before.pickers.len() == 0 ==> told == before.written(id),
        lifecycle::reclaim_step(told, written.reclaim, after),
{
    let call = lifecycle::PickerCall::Evictable { block: id };
    let told = choose|told: ManagerView<P, C, R>| #[trigger]
        lifecycle::told_step(before.written(id), call, told) && lifecycle::reclaim_step(
            told,
            written.reclaim,
            after,
        );
    lifecycle::lemma_told_step(before.written(id), call, told);
    told
}

proof fn lemma_call<P: EvictionPicker, C, R>(
    before: ManagerView<P, C, R>,
    call: Call<C, R>,
    after: ManagerView<P, C, R>,
)
    requires
        called(before, call, after),
    ensures
        at_most_one_reclaimed(main_effect(before, call), after),
        after.reclaim_concurrency == before.reclaim_concurrency,
        after.clean_block_threshold == before.clean_block_threshold,
        after.blocks == before.blocks,
        call !is Statistics ==> after.statistics.len() == before.statistics.len(),
        before.pickers.len() == 0 && call !is Statistics ==> after.statistics == before.statistics,
{
    match call {
        Call::GetCleanBlock { waiter, clean } => {
            if let Some(clean) = clean {
                lemma_reclaim_step(before.clean_block_taken(), clean.reclaim, after);
            }
        },
        Call::WritingFinish { id, written } => {
            let told = lemma_written(before, id, written, after);
            lemma_reclaim_step(told, written.reclaim, after);
            if !same_states(told, after) {
                let other = choose|other: BlockId| one_reclaimed(told, other, after);
                assert(one_reclaimed(main_effect(before, call), other, after));
            }
        },
        Call::ReclaimFinish { id, reclaimed } => {
            let settled = choose|settled: ManagerView<P, C, R>| #[trigger]
                lifecycle::reclaim_step(before.reclaimed(id), reclaimed.reclaim, settled) && after
                    == settled.reclaim_waiters_told();
            lemma_reclaim_step(before.reclaimed(id), reclaimed.reclaim, settled);
            if !same_states(before.reclaimed(id), settled) {
                let other = choose|other: BlockId|
                    one_reclaimed(before.reclaimed(id), other, settled);
                assert(one_reclaimed(before.reclaimed(id), other, after));
            }
        },
        Call::ReclaimIfNeeded { reclaim } => {
            lemma_reclaim_step(before, reclaim, after);
        },
        Call::ReclaimBlock { id, reinsert, reclaiming } => {
            if let Some(reclaiming) = reclaiming {
                lemma_reclaim_block(before, id, reinsert, reclaiming, after);
            }
        },
        Call::ForceReclaim { id, generation, outcome } => {
            if let Ok(reclaiming) = outcome {
                lemma_reclaim_block(before, id, false, reclaiming, after);
            }
        },
        _ => {},
    }
}

/// The first half of a call keeps each block in one state.
proof fn lemma_main_effect<P: EvictionPicker, C, R>(
    before: ManagerView<P, C, R>,
    call: Call<C, R>,
    after: ManagerView<P, C, R>,
    id: BlockId,
)
    requires
        before.wf(),
        before.exclusive(),
        intended(before, call),
        called(before, call, after),
    ensures
        ({
            let main = main_effect(before, call);
            let from = before.state_of(id);
            let to = main.state_of(id);
            &&& main.exclusive()
            &&& may_follow(from, to) && to != BlockState::Reclaiming || from == to
            &&& lifecycle::in_range(id, before.blocks.len()) ==> main.generations[id as int] == (
            if was_handed_out(before, id, main) {
                before.generations[id as int].wrapping_add(1)
            } else {
                before.generations[id as int]
            })
            &&& main.generations.len() == before.generations.len()
        }),
{
    let main = main_effect(before, call);
    match call {
        Call::GetCleanBlock { clean: Some(_), .. } => {
            let first = before.clean[0];
            assert(before.clean.contains(first));
            assert forall|other: BlockId|
                #![trigger main.clean.contains(other)]
                #![trigger before.clean.contains(other)]
                before.clean.contains(other) <==> other == first || main.clean.contains(
                    other,
                ) by {
                if before.clean.contains(other) && other != first {
                    let i = before.clean.index_of(other);
                    assert(main.clean[i - 1] == other);
                }
                if main.clean.contains(other) {
                    let i = main.clean.index_of(other);
                    assert(before.clean[i + 1] == other);
                }
            }
            assert(!main.clean.contains(first));
        },
        Call::WritingFinish { id: done, .. } => {
            assert(!before.clean.contains(done));
        },
        Call::ReclaimFinish { id: done, .. } => {
            assert(!before.clean.contains(done));
            if before.clean_waiters.len() == 0 {
                assert forall|other: BlockId|
                    #![trigger main.clean.contains(other)]
                    #![trigger before.clean.contains(other)]
                    main.clean.contains(other) <==> other == done || before.clean.contains(
                        other,
                    ) by {
                    if before.clean.contains(other) {
                        let i = before.clean.index_of(other);
                        assert(main.clean[i] == other);
                    }
                    if other == done {
                        assert(main.clean[before.clean.len() as int] == other);
                    }
                    if main.clean.contains(other) {
                        let i = main.clean.index_of(other);
                        assert(i < before.clean.len() ==> before.clean[i] == other);
                    }
                }
            }
        },
        _ => {},
    }
}

/// Putting a block under reclamation keeps each block in one state.
proof fn lemma_reclaimed_state<P, C, R>(
    main: ManagerView<P, C, R>,
    after: ManagerView<P, C, R>,
    id: BlockId,
)
    requires
        main.exclusive(),
        at_most_one_reclaimed(main, after),
    ensures
        after.exclusive(),
        after.generations == main.generations,
        main.state_of(id) == after.state_of(id) || (main.state_of(id) == BlockState::Evictable
            && after.state_of(id) == BlockState::Reclaiming),
{
    if !same_states(main, after) {
        let other = choose|other: BlockId| one_reclaimed(main, other, after);
        assert(after.evictable == main.evictable.remove(other));
        assert(after.reclaiming == main.reclaiming.insert(other));
    }
}

/// What a block manager is before its recovery: all blocks are to be classified, none was handed out,
/// and nobody waits.
pub proof fn law_opened_blocks_are_initializing<P, C, R>(
    blocks: Seq<BlockView>,
    pickers: Seq<P>,
    reclaim_concurrency: usize,
    clean_block_threshold: usize,
    id: BlockId,
)
    ensures
        ({
            let opened = lifecycle::opened::<P, C, R>(
                blocks,
                pickers,
                reclaim_concurrency,
                clean_block_threshold,
            );
            &&& opened.exclusive()
            &&& opened.waits_are_needed()
            &&& opened.state_of(id) == BlockState::Initializing
            &&& lifecycle::in_range(id, blocks.len()) ==> opened.generations[id as int] == 0
        }),
{
}

/// The recovery of a new block manager makes the blocks that it is given clean, and all other blocks
/// evictable. No block is handed out by it, and each block is in one state.
pub proof fn law_recovery_classifies_every_block<P: EvictionPicker, C, R>(
    before: ManagerView<P, C, R>,
    clean: Seq<BlockId>,
    after: ManagerView<P, C, R>,
    id: BlockId,
)
    requires
        before.wf(),
        before == lifecycle::opened::<P, C, R>(
            before.blocks,
            before.pickers,
            before.reclaim_concurrency,
            before.clean_block_threshold,
        ),
        lifecycle::recovery_step(before, clean, after),
        lifecycle::in_range(id, before.blocks.len()),
    ensures
        after.state_of(id) == (if clean.contains(id) {
            BlockState::Clean
        } else {
            BlockState::Evictable
        }),
        after.generations[id as int] == 0,
        clean.no_duplicates() ==> after.exclusive(),
        after.waits_are_needed(),
{
    lifecycle::lemma_occupied_members::<P, C, R>(clean, before.blocks.len());
    let occupied = before.occupied(clean);
    lifecycle::lemma_occupied_step(ManagerView { clean, ..before }, occupied, after);
    assert(occupied.contains(id) <==> !clean.contains(id));
    assert forall|other: BlockId| #[trigger] after.evictable.contains(other) implies !clean.contains(
        other,
    ) by {
        assert(occupied.contains(other));
    }
}

/// Whatever call is made as intended, each block stays in one state.
pub proof fn law_each_block_is_in_one_state<P: EvictionPicker, C, R>(
    before: ManagerView<P, C, R>,
    call: Call<C, R>,
    after: ManagerView<P, C, R>,
)
    requires
        before.wf(),
        before.exclusive(),
        intended(before, call),
        called(before, call, after),
    ensures
        after.exclusive(),
{
    lemma_call(before, call, after);
    lemma_main_effect(before, call, after, 0);
    lemma_reclaimed_state(main_effect(before, call), after, 0);
}

/// Blocks go round: a clean block is written, a written block becomes evictable, an evictable block is
/// reclaimed, and a reclaimed block is clean or written again. One call may take a block two steps
/// further, from being written to being reclaimed. The generation of a block moves on by one when the
/// block is handed out for writing, and does not change otherwise.
pub proof fn law_blocks_go_round<P: EvictionPicker, C, R>(
    before: ManagerView<P, C, R>,
    call: Call<C, R>,
    after: ManagerView<P, C, R>,
    id: BlockId,
)
    requires
        before.wf(),
        before.exclusive(),
        intended(before, call),
        called(before, call, after),
        lifecycle::in_range(id, before.blocks.len()),
    ensures
        may_follow(before.state_of(id), after.state_of(id)),
        after.generations[id as int] == (if was_handed_out(before, id, after) {
            before.generations[id as int].wrapping_add(1)
        } else {
            before.generations[id as int]
        }),
{
    lemma_call(before, call, after);
    lemma_main_effect(before, call, after, id);
    lemma_reclaimed_state(main_effect(before, call), after, id);
}

/// No call adds or removes blocks, renumbers or resizes them, or changes the limits. The statistics of
/// blocks change by being set, and otherwise only by what pickers do.
pub proof fn law_calls_keep_blocks<P: EvictionPicker, C, R>(
    before: ManagerView<P, C, R>,
    call: Call<C, R>,
    after: ManagerView<P, C, R>,
)
    requires
        before.wf(),
        intended(before, call),
        called(before, call, after),
    ensures
        after.wf(),
        after.blocks == before.blocks,
        before.pickers.len() == 0 && call !is Statistics ==> after.statistics == before.statistics,
        call matches Call::Statistics { id, statistics } ==> after.statistics
            == before.statistics.update(id as int, statistics),
        after.reclaim_concurrency == before.reclaim_concurrency,
        after.clean_block_threshold == before.clean_block_threshold,
{
    lemma_call(before, call, after);
    let main = main_effect(before, call);
    assert(main.wf());
    if !same_states(main, after) {
        let other = choose|other: BlockId| one_reclaimed(main, other, after);
        assert(main.evictable.contains(other));
    }
}

/// Nobody is left waiting for a clean block while there is one, or for the end of reclamations while
/// there are none.
pub proof fn law_nobody_waits_in_vain<P: EvictionPicker, C, R>(
    before: ManagerView<P, C, R>,
    call: Call<C, R>,
    after: ManagerView<P, C, R>,
)
    requires
        before.waits_are_needed(),
        called(before, call, after),
    ensures
        after.waits_are_needed(),
{
    lemma_call(before, call, after);
    match call {
        Call::GetCleanBlock { waiter, clean } => {
            if let Some(clean) = clean {
                let taken = before.clean_block_taken();
                lemma_reclaim_step(taken, clean.reclaim, after);
                lemma_reclaiming_grows(taken, after);
            }
        },
        Call::WritingFinish { id, written } => {
            let told = lemma_written(before, id, written, after);
            lemma_reclaim_step(told, written.reclaim, after);
            lemma_reclaiming_grows(told, after);
        },
        Call::ReclaimFinish { id, reclaimed } => {
            let settled = choose|settled: ManagerView<P, C, R>| #[trigger]
                lifecycle::reclaim_step(before.reclaimed(id), reclaimed.reclaim, settled) && after
                    == settled.reclaim_waiters_told();
            lemma_reclaim_step(before.reclaimed(id), reclaimed.reclaim, settled);
        },
        Call::ReclaimIfNeeded { reclaim } => {
            lemma_reclaim_step(before, reclaim, after);
            lemma_reclaiming_grows(before, after);
        },
        _ => {
            lemma_reclaiming_grows(main_effect(before, call), after);
        },
    }
}

proof fn lemma_reclaiming_grows<P, C, R>(a: ManagerView<P, C, R>, b: ManagerView<P, C, R>)
    requires
        at_most_one_reclaimed(a, b),
    ensures
        b.clean == a.clean,
        !a.reclaiming.is_empty() ==> !b.reclaiming.is_empty(),
{
    if !same_states(a, b) {
        let id = choose|id: BlockId| one_reclaimed(a, id, b);
        assert(b.reclaiming.contains(id));
    }
}

/// Blocks are not picked for reclamation beyond the limit: unless a block is reclaimed on request, no
/// more blocks are being reclaimed after a call than before it or than the limit allows.
pub proof fn law_reclaim_concurrency_is_kept<P: EvictionPicker, C, R>(
    before: ManagerView<P, C, R>,
    call: Call<C, R>,
    after: ManagerView<P, C, R>,
)
    requires
        before.wf(),
        called(before, call, after),
        call !is ForceReclaim && call !is ReclaimBlock,
    ensures
        after.reclaiming.len() <= before.reclaiming.len() || after.reclaiming.len()
            <= before.reclaim_concurrency,
{
    lemma_ids_are_finite(before.reclaiming, before.blocks.len());
    match call {
        Call::GetCleanBlock { waiter, clean } => {
            if let Some(clean) = clean {
                lemma_reclaim_step(before.clean_block_taken(), clean.reclaim, after);
            }
        },
        Call::WritingFinish { id, written } => {
            let told = lemma_written(before, id, written, after);
            lemma_reclaim_step(told, written.reclaim, after);
        },
        Call::ReclaimFinish { id, reclaimed } => {
            let settled = choose|settled: ManagerView<P, C, R>| #[trigger]
                lifecycle::reclaim_step(before.reclaimed(id), reclaimed.reclaim, settled) && after
                    == settled.reclaim_waiters_told();
            lemma_reclaim_step(before.reclaimed(id), reclaimed.reclaim, settled);
            assert(before.reclaiming.remove(id).len() <= before.reclaiming.len());
        },
        Call::ReclaimIfNeeded { reclaim } => {
            lemma_reclaim_step(before, reclaim, after);
        },
        _ => {},
    }
}

/// A block has one object for its statistics: whatever copy of the block they are read of, they are
/// what they were last set to, and the statistics of other blocks stay as they are.
pub proof fn law_copies_share_statistics<P, C, R>(
    before: ManagerView<P, C, R>,
    block: BlockView,
    copy: BlockView,
    other: BlockView,
    statistics: BlockStatistics,
    after: ManagerView<P, C, R>,
)
    requires
        before.wf(),
        lifecycle::in_range(block.id, before.blocks.len()),
        copy.id == block.id,
        lifecycle::in_range(other.id, before.blocks.len()),
        other.id != block.id,
        lifecycle::statistics_step(before, block.id, statistics, after),
    ensures
        after.statistics[copy.id as int] == statistics,
        after.statistics[other.id as int] == before.statistics[other.id as int],
{
}

/// There are only so many identifiers of blocks.
pub proof fn lemma_ids_are_finite(ids: Set<BlockId>, blocks: nat)
    requires
        lifecycle::all_in_range(ids, blocks),
        blocks <= u32::MAX + 1,
    ensures
        ids.finite(),
    decreases blocks,
{
    if blocks == 0 {
        assert(ids =~= Set::empty()) by {
            assert forall|id: BlockId| !ids.contains(id) by {
                assert(ids.contains(id) ==> lifecycle::in_range(id, blocks));
            }
        }
    } else {
        let last = (blocks - 1) as BlockId;
        let others = ids.remove(last);
        assert forall|id: BlockId| #[trigger] others.contains(id) implies lifecycle::in_range(
            id,
            (blocks - 1) as nat,
        ) by {
            assert(ids.contains(id));
        }
        lemma_ids_are_finite(others, (blocks - 1) as nat);
        assert(ids =~= others || ids =~= others.insert(last));
    }
}

/// With a fresh snapshot, exactly the blocks that it shows as evictable can be reclaimed on request.
pub proof fn law_snapshot_tells_what_can_be_reclaimed<P, C, R>(
    manager: ManagerView<P, C, R>,
    id: BlockId,
)
    requires
        manager.wf(),
        manager.exclusive(),
        lifecycle::in_range(id, manager.blocks.len()),
    ensures
        manager.reclaim_refusal(id, manager.snapshot(id as int).generation) == (if manager.snapshot(
            id as int,
        ).state == BlockState::Evictable {
            None::<ForceReclaimError>
        } else {
            Some(ForceReclaimError::NotEvictable { state: manager.snapshot(id as int).state })
        }),
{
    assert(manager.blocks[id as int].id == id);
}

/// Whether block `id` is handed out by call `i` of a history.
pub open spec fn handed_out_at<P, C, R>(history: Seq<ManagerView<P, C, R>>, i: int, id: BlockId) -> bool {
    was_handed_out(history[i], id, history[i + 1])
}

/// How often block `id` is handed out in a history.
pub open spec fn hand_outs<P, C, R>(history: Seq<ManagerView<P, C, R>>, id: BlockId) -> nat
    decreases history.len(),
{
    if history.len() < 2 {
        0
    } else {
        hand_outs(history.drop_last(), id) + (if handed_out_at(history, history.len() - 2, id) {
            1nat
        } else {
            0nat
        })
    }
}

/// One call takes one state of a history to the next.
pub open spec fn call_at<P: EvictionPicker, C, R>(
    history: Seq<ManagerView<P, C, R>>,
    calls: Seq<Call<C, R>>,
    i: int,
) -> bool {
    &&& intended(history[i], calls[i])
    &&& called(history[i], calls[i], history[i + 1])
}

/// A history of a block manager: its states, from before the first call to after the last.
pub open spec fn is_history<P: EvictionPicker, C, R>(
    history: Seq<ManagerView<P, C, R>>,
    calls: Seq<Call<C, R>>,
) -> bool {
    &&& history.len() == calls.len() + 1
    &&& history[0].wf()
    &&& history[0].exclusive()
    &&& forall|i: int| 0 <= i < calls.len() ==> #[trigger] call_at(history, calls, i)
}

/// Generations count how often a block is handed out, modulo 2^64. So a request to reclaim a block is
/// refused as stale if the block was handed out since the generation was read, unless that happened a
/// multiple of 2^64 times.
pub proof fn law_stale_requests_are_refused<P: EvictionPicker, C, R>(
    history: Seq<ManagerView<P, C, R>>,
    calls: Seq<Call<C, R>>,
    id: BlockId,
)
    requires
        is_history(history, calls),
        lifecycle::in_range(id, history[0].blocks.len()),
    ensures
        ({
            let first = history[0];
            let last = history.last();
            let read = first.generations[id as int];
            &&& last.wf() && last.exclusive()
            &&& last.blocks.len() == first.blocks.len()
            &&& last.generations[id as int] == (read + hand_outs(history, id)) % 0x1_0000_0000_0000_0000
            &&& 0 < hand_outs(history, id) < 0x1_0000_0000_0000_0000 ==> last.reclaim_refusal(id, read)
                == Some(
                ForceReclaimError::StaleGeneration {
                    expected: read,
                    actual: last.generations[id as int],
                },
            )
        }),
    decreases calls.len(),
{
    if calls.len() > 0 {
        let earlier = history.drop_last();
        let earlier_calls = calls.drop_last();
        assert forall|i: int| 0 <= i < earlier_calls.len() implies #[trigger] call_at(
            earlier,
            earlier_calls,
            i,
        ) by {
            assert(call_at(history, calls, i));
        }
        law_stale_requests_are_refused(earlier, earlier_calls, id);
        let n = calls.len() - 1;
        assert(call_at(history, calls, n));
        let before = history[n];
        let after = history[n + 1];
        assert(earlier.last() == before);
        assert(history.last() == after);
        law_calls_keep_blocks(before, calls[n], after);
        law_each_block_is_in_one_state(before, calls[n], after);
        law_blocks_go_round(before, calls[n], after, id);
        assert(hand_outs(history, id) == hand_outs(earlier, id) + (if was_handed_out(
            before,
            id,
            after,
        ) {
            1nat
        } else {
            0nat
        }));
    }
}

/// No block gets lost: once a recovery has classified a block, it is clean, being written, evictable
/// or being reclaimed for good.
pub proof fn law_no_block_gets_lost<P: EvictionPicker, C, R>(
    history: Seq<ManagerView<P, C, R>>,
    calls: Seq<Call<C, R>>,
    id: BlockId,
)
    requires
        is_history(history, calls),
        lifecycle::in_range(id, history[0].blocks.len()),
        history[0].state_of(id) != BlockState::Initializing,
    ensures
        history.last().state_of(id) != BlockState::Initializing,
    decreases calls.len(),
{
    if calls.len() > 0 {
        let earlier = history.drop_last();
        let earlier_calls = calls.drop_last();
        assert forall|i: int| 0 <= i < earlier_calls.len() implies #[trigger] call_at(
            earlier,
            earlier_calls,
            i,
        ) by {
            assert(call_at(history, calls, i));
        }
        law_no_block_gets_lost(earlier, earlier_calls, id);
        law_stale_requests_are_refused(earlier, earlier_calls, id);
        let n = calls.len() - 1;
        assert(call_at(history, calls, n));
        law_blocks_go_round(history[n], calls[n], history[n + 1], id);
    }
}

} // verus!
