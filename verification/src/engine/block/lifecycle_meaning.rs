//! What each operation of a block manager is for, in terms of the blocks, the waiters and the
//! pickers.
use crate::engine::block::eviction::{EvictionPicker, EvictionView};
use crate::engine::block::lifecycle;
use crate::engine::block::lifecycle::{ManagerView, PickerCall};
use crate::engine::block::lifecycle_laws;
use crate::engine::block::lifecycle_laws::Call;
use crate::engine::block::manager::{
    BlockId, BlockState, BlockStatistics, BlockView, CleanBlock, ForceReclaimError, Reclaim,
    ReclaimedBlock, ReclaimingBlock, WrittenBlock,
};
use crate::engine::StorageEvent;
use vstd::multiset::Multiset;
use vstd::prelude::*;

verus! {

/// A new block manager has the blocks, the pickers and the limits that it is given. No block was
/// used or handed out, and none is in any state yet.
pub proof fn law_opened_as_given<P, C, R>(
    blocks: Seq<BlockView>,
    pickers: Seq<P>,
    reclaim_concurrency: usize,
    clean_block_threshold: usize,
    i: int,
)
    ensures
        ({
            let opened = lifecycle::opened::<P, C, R>(
                blocks,
                pickers,
                reclaim_concurrency,
                clean_block_threshold,
            );
            &&& opened.blocks == blocks
            &&& opened.pickers == pickers
            &&& opened.reclaim_concurrency == reclaim_concurrency
            &&& opened.clean_block_threshold == clean_block_threshold
            &&& opened.statistics.len() == blocks.len()
            &&& opened.generations.len() == blocks.len()
            &&& 0 <= i < blocks.len() ==> {
                &&& opened.generations[i] == 0
                &&& opened.statistics[i].invalid == 0
                &&& opened.statistics[i].access == 0
                &&& !opened.statistics[i].probation
            }
            &&& opened.clean.len() == 0
            &&& opened.evictable.is_empty()
            &&& opened.writing.is_empty()
            &&& opened.reclaiming.is_empty()
            &&& opened.clean_waiters.len() == 0
            &&& opened.reclaim_waiters.len() == 0
        }),
{
}

/// The statistics that each picker finds when all are called, and what the last leaves.
proof fn lemma_found<P: EvictionPicker>(
    pickers: Seq<P>,
    info: EvictionView,
    before: Seq<BlockStatistics>,
    call: PickerCall,
    pickers_after: Seq<P>,
    after: Seq<BlockStatistics>,
) -> (found: Seq<Seq<BlockStatistics>>)
    requires
        lifecycle::all_called(pickers, info, before, call, pickers_after, after),
    ensures
        pickers_after.len() == pickers.len(),
        found.len() == pickers.len() + 1,
        found[0] == before,
        found.last() == after,
        forall|i: int|
            0 <= i < pickers.len() ==> lifecycle::one_called(
                pickers[i],
                info,
                found[i],
                call,
                #[trigger] pickers_after[i],
                found[i + 1],
            ),
    decreases pickers.len(),
{
    if pickers.len() == 0 {
        seq![before]
    } else {
        let middle = choose|middle: Seq<BlockStatistics>|
            lifecycle::all_called(
                pickers.drop_last(),
                info,
                before,
                call,
                pickers_after.drop_last(),
                middle,
            ) && #[trigger] lifecycle::one_called(
                pickers.last(),
                info,
                middle,
                call,
                pickers_after.last(),
                after,
            );
        let earlier = lemma_found(
            pickers.drop_last(),
            info,
            before,
            call,
            pickers_after.drop_last(),
            middle,
        );
        let found = earlier.push(after);
        assert forall|i: int| 0 <= i < pickers.len() implies lifecycle::one_called(
            pickers[i],
            info,
            found[i],
            call,
            #[trigger] pickers_after[i],
            found[i + 1],
        ) by {
            if i < pickers.len() - 1 {
                assert(pickers_after.drop_last()[i] == pickers_after[i]);
            }
        }
        found
    }
}

/// Every picker is told, in order, and is shown all blocks, the evictable ones and the number of
/// clean ones. Each finds the statistics as the one before it left them. Nothing else changes.
pub proof fn law_every_picker_is_told<P: EvictionPicker, C, R>(
    before: ManagerView<P, C, R>,
    call: PickerCall,
    after: ManagerView<P, C, R>,
)
    requires
        lifecycle::told_step(before, call, after),
    ensures
        after == (ManagerView { pickers: after.pickers, statistics: after.statistics, ..before }),
        after.pickers.len() == before.pickers.len(),
        after.statistics.len() == before.statistics.len(),
        ({
            let info = EvictionView {
                blocks: before.blocks,
                evictable: before.evictable,
                clean: before.clean.len() as int,
            };
            exists|found: Seq<Seq<BlockStatistics>>|
                {
                    &&& #[trigger] found.len() == before.pickers.len() + 1
                    &&& found[0] == before.statistics
                    &&& found[before.pickers.len() as int] == after.statistics
                    &&& forall|i: int|
                        #![trigger after.pickers[i]]
                        0 <= i < before.pickers.len() ==> match call {
                            PickerCall::Evictable { block } => P::evictable_step(
                                before.pickers[i],
                                info,
                                found[i],
                                block,
                                after.pickers[i],
                                found[i + 1],
                            ),
                            PickerCall::Evict { block } => P::evict_step(
                                before.pickers[i],
                                info,
                                found[i],
                                block,
                                after.pickers[i],
                                found[i + 1],
                            ),
                            PickerCall::Pick { picked } => P::pick_step(
                                before.pickers[i],
                                info,
                                found[i],
                                picked,
                                after.pickers[i],
                                found[i + 1],
                            ),
                        }
                }
        }),
{
    lifecycle::lemma_told_step(before, call, after);
    let found = lemma_found(
        before.pickers,
        before.info(),
        before.statistics,
        call,
        after.pickers,
        after.statistics,
    );
    assert(found.len() == before.pickers.len() + 1);
    assert forall|i: int| 0 <= i < before.pickers.len() implies lifecycle::one_called(
        before.pickers[i],
        before.info(),
        found[i],
        call,
        #[trigger] after.pickers[i],
        found[i + 1],
    ) by {}
}

/// Pickers are asked in order until one picks a block: those before it pick none, and those after
/// it are not asked. If no block is picked, all are asked.
pub proof fn law_first_picker_decides<P: EvictionPicker, C, R>(
    before: ManagerView<P, C, R>,
    picked: Option<BlockId>,
    after: ManagerView<P, C, R>,
)
    requires
        lifecycle::asked_step(before, picked, after),
    ensures
        after == (ManagerView { pickers: after.pickers, statistics: after.statistics, ..before }),
        after.pickers.len() == before.pickers.len(),
        after.statistics.len() == before.statistics.len(),
        ({
            let info = EvictionView {
                blocks: before.blocks,
                evictable: before.evictable,
                clean: before.clean.len() as int,
            };
            exists|found: Seq<Seq<BlockStatistics>>|
                {
                    let asked = #[trigger] found.len() - 1;
                    &&& 0 <= asked <= before.pickers.len()
                    &&& picked is None ==> asked == before.pickers.len()
                    &&& picked is Some ==> asked > 0
                    &&& found[0] == before.statistics
                    &&& found[asked] == after.statistics
                    &&& forall|i: int|
                        #![trigger after.pickers[i]]
                        0 <= i < asked ==> P::pick_step(
                            before.pickers[i],
                            info,
                            found[i],
                            (if i == asked - 1 {
                                picked
                            } else {
                                None
                            }),
                            after.pickers[i],
                            found[i + 1],
                        )
                    &&& forall|i: int|
                        asked <= i < before.pickers.len() ==> #[trigger] after.pickers[i]
                            == before.pickers[i]
                }
        }),
{
    lifecycle::lemma_asked_step(before, picked, after);
    let info = before.info();
    let none = PickerCall::Pick { picked: None };
    match picked {
        Some(block) => {
            let n = choose|i: int|
                0 <= i < before.pickers.len() && #[trigger] lifecycle::picked_by(
                    before.pickers,
                    info,
                    before.statistics,
                    block,
                    after.pickers,
                    after.statistics,
                    i,
                );
            let middle = choose|middle: Seq<BlockStatistics>|
                lifecycle::all_called(
                    before.pickers.take(n),
                    info,
                    before.statistics,
                    none,
                    after.pickers.take(n),
                    middle,
                ) && #[trigger] lifecycle::one_called(
                    before.pickers[n],
                    info,
                    middle,
                    PickerCall::Pick { picked: Some(block) },
                    after.pickers[n],
                    after.statistics,
                );
            let earlier = lemma_found(
                before.pickers.take(n),
                info,
                before.statistics,
                none,
                after.pickers.take(n),
                middle,
            );
            let found = earlier.push(after.statistics);
            assert(found.len() - 1 == n + 1);
            assert forall|i: int|
                #![trigger after.pickers[i]]
                0 <= i < n + 1 implies P::pick_step(
                before.pickers[i],
                info,
                found[i],
                (if i == n {
                    picked
                } else {
                    None
                }),
                after.pickers[i],
                found[i + 1],
            ) by {
                if i < n {
                    assert(after.pickers.take(n)[i] == after.pickers[i]);
                }
            }
            assert forall|i: int| n + 1 <= i < before.pickers.len() implies #[trigger] after.pickers[i]
                == before.pickers[i] by {
                assert(before.pickers.skip(n + 1)[i - n - 1] == after.pickers.skip(n + 1)[i - n - 1]);
            }
        },
        None => {
            let found = lemma_found(
                before.pickers,
                info,
                before.statistics,
                none,
                after.pickers,
                after.statistics,
            );
            assert(found.len() - 1 == before.pickers.len());
            assert forall|i: int| 0 <= i < before.pickers.len() implies lifecycle::one_called(
                before.pickers[i],
                info,
                found[i],
                none,
                #[trigger] after.pickers[i],
                found[i + 1],
            ) by {}
        },
    }
}

/// A block is put under reclamation exactly if it is evictable. It is no longer evictable then,
/// every picker is told so, and nothing else changes.
pub proof fn law_evictable_block_is_reclaimed<P: EvictionPicker, C, R>(
    before: ManagerView<P, C, R>,
    id: BlockId,
    reinsert: bool,
    reclaiming: Option<ReclaimingBlock>,
    after: ManagerView<P, C, R>,
)
    requires
        lifecycle::reclaim_block_step(before, id, reinsert, reclaiming, after),
    ensures
        reclaiming is Some <==> before.evictable.contains(id),
        match reclaiming {
            Some(reclaiming) => {
                &&& reclaiming@.block == before.blocks[id as int]
                &&& reclaiming@.reinsert == reinsert
                &&& lifecycle::told_step(
                    (ManagerView { evictable: before.evictable.remove(id), ..before }),
                    PickerCall::Evict { block: id },
                    (ManagerView { reclaiming: before.reclaiming, ..after }),
                )
                &&& after == (ManagerView {
                    evictable: before.evictable.remove(id),
                    reclaiming: before.reclaiming.insert(id),
                    pickers: after.pickers,
                    statistics: after.statistics,
                    ..before
                })
            },
            None => after == before,
        },
{
    if reclaiming is Some {
        let evicted = before.evicted(id).told(after.pickers, after.statistics);
        assert(evicted == (ManagerView { reclaiming: before.reclaiming, ..after }));
    }
}

/// A block is put under reclamation exactly if fewer blocks are clean than the threshold, fewer are
/// being reclaimed than the concurrency, and some block is evictable. The only exception is that a
/// picker picks a block that is not evictable, and then no block changes its state.
pub proof fn law_reclamation_starts_when_needed<P: EvictionPicker, C, R>(
    before: ManagerView<P, C, R>,
    reclaim: Reclaim,
    after: ManagerView<P, C, R>,
)
    requires
        lifecycle::reclaim_step(before, reclaim, after),
    ensures
        reclaim !is NotNeeded <==> before.clean.len() < before.clean_block_threshold
            && before.reclaiming.len() < before.reclaim_concurrency && exists|id: BlockId|
            before.evictable.contains(id),
        match reclaim {
            Reclaim::NotNeeded => after == before,
            Reclaim::Start(started) => {
                let id = started@.block.id;
                &&& before.evictable.contains(id)
                &&& started@.block == before.blocks[id as int]
                &&& started@.reinsert
                &&& after == (ManagerView {
                    evictable: before.evictable.remove(id),
                    reclaiming: before.reclaiming.insert(id),
                    pickers: after.pickers,
                    statistics: after.statistics,
                    ..before
                })
                &&& exists|picked: ManagerView<P, C, R>|
                    {
                        &&& lifecycle::asked_step(before, Some(id), picked)
                            || lifecycle::asked_step(before, None, picked)
                        &&& #[trigger] lifecycle::reclaim_block_step(
                            picked,
                            id,
                            true,
                            Some(started),
                            after,
                        )
                    }
            },
            Reclaim::InvalidPick(id) => {
                &&& !before.evictable.contains(id)
                &&& lifecycle::asked_step(before, Some(id), after)
                &&& after == (ManagerView {
                    pickers: after.pickers,
                    statistics: after.statistics,
                    ..before
                })
            },
        },
{
    if before.wants_reclaim() {
        let id = before.evictable.choose();
        assert(before.evictable.contains(id));
    }
    match reclaim {
        Reclaim::NotNeeded => {},
        Reclaim::Start(started) => {
            let id = started@.block.id;
            let picked = choose|picked: ManagerView<P, C, R>| #[trigger]
                lifecycle::picked_step(before, id, picked) && lifecycle::reclaim_block_step(
                    picked,
                    id,
                    true,
                    Some(started),
                    after,
                );
            law_evictable_block_is_reclaimed(picked, id, true, Some(started), after);
            assert(lifecycle::asked_step(before, Some(id), picked) || lifecycle::asked_step(
                before,
                None,
                picked,
            ));
        },
        Reclaim::InvalidPick(id) => {
            assert(lifecycle::picked_step(before, id, after));
        },
    }
}

/// With the limits that a block manager was opened with, whatever happened to it since: if fewer
/// blocks are clean than the threshold, fewer are being reclaimed than the concurrency, some block
/// is evictable, and pickers pick none or an evictable block, then exactly one more block is being
/// reclaimed afterwards, and one fewer is evictable.
pub proof fn law_one_more_block_is_reclaimed<P: EvictionPicker, C, R>(
    blocks: Seq<BlockView>,
    pickers: Seq<P>,
    reclaim_concurrency: usize,
    clean_block_threshold: usize,
    clean: Seq<BlockId>,
    history: Seq<ManagerView<P, C, R>>,
    calls: Seq<Call<C, R>>,
    reclaim: Reclaim,
    after: ManagerView<P, C, R>,
    evictable: BlockId,
)
    requires
        lifecycle::recovery_step(
            lifecycle::opened::<P, C, R>(
                blocks,
                pickers,
                reclaim_concurrency,
                clean_block_threshold,
            ),
            clean,
            history[0],
        ),
        lifecycle_laws::is_history(history, calls),
        lifecycle::reclaim_step(history.last(), reclaim, after),
        history.last().clean.len() < clean_block_threshold,
        history.last().reclaiming.len() < reclaim_concurrency,
        history.last().evictable.contains(evictable),
        forall|
            picker: P,
            info: EvictionView,
            before: Seq<BlockStatistics>,
            id: BlockId,
            picker_after: P,
            left: Seq<BlockStatistics>,
        | #[trigger]
            P::pick_step(picker, info, before, Some(id), picker_after, left)
                ==> info.evictable.contains(id),
    ensures
        reclaim is Start,
        after.reclaiming.len() == history.last().reclaiming.len() + 1,
        after.evictable.len() + 1 == history.last().evictable.len(),
        after.clean == history.last().clean,
        after.writing == history.last().writing,
{
    let last = history.last();
    lifecycle::lemma_occupied_step(
        ManagerView {
            clean,
            ..lifecycle::opened::<P, C, R>(
                blocks,
                pickers,
                reclaim_concurrency,
                clean_block_threshold,
            )
        },
        lifecycle::opened::<P, C, R>(
            blocks,
            pickers,
            reclaim_concurrency,
            clean_block_threshold,
        ).occupied(clean),
        history[0],
    );
    lemma_limits_stay(history, calls);
    law_reclamation_starts_when_needed(last, reclaim, after);
    if let Reclaim::InvalidPick(id) = reclaim {
        law_first_picker_decides(last, Some(id), after);
        let info = EvictionView {
            blocks: last.blocks,
            evictable: last.evictable,
            clean: last.clean.len() as int,
        };
        let found = choose|found: Seq<Seq<BlockStatistics>>|
            {
                let asked = #[trigger] found.len() - 1;
                &&& 0 <= asked <= last.pickers.len()
                &&& asked > 0
                &&& forall|i: int|
                    #![trigger after.pickers[i]]
                    0 <= i < asked ==> P::pick_step(
                        last.pickers[i],
                        info,
                        found[i],
                        (if i == asked - 1 {
                            Some(id)
                        } else {
                            None
                        }),
                        after.pickers[i],
                        found[i + 1],
                    )
            };
        let n = found.len() - 2;
        assert(P::pick_step(
            last.pickers[n],
            info,
            found[n],
            Some(id),
            after.pickers[n],
            found[n + 1],
        ));
    }
    lifecycle_laws::lemma_ids_are_finite(last.reclaiming, last.blocks.len());
    lifecycle_laws::lemma_ids_are_finite(last.evictable, last.blocks.len());
}

/// No call of a history changes the limits, and each state of it is valid.
proof fn lemma_limits_stay<P: EvictionPicker, C, R>(
    history: Seq<ManagerView<P, C, R>>,
    calls: Seq<Call<C, R>>,
)
    requires
        lifecycle_laws::is_history(history, calls),
    ensures
        history.last().wf(),
        history.last().exclusive(),
        history.last().clean_block_threshold == history[0].clean_block_threshold,
        history.last().reclaim_concurrency == history[0].reclaim_concurrency,
    decreases calls.len(),
{
    if calls.len() > 0 {
        let (before, after) = lemma_last_call(history, calls);
        lemma_limits_stay(history.drop_last(), calls.drop_last());
        lifecycle_laws::law_calls_keep_blocks(before, calls.last(), after);
        lifecycle_laws::law_each_block_is_in_one_state(before, calls.last(), after);
    }
}

/// What is before the last call of a history is a history.
proof fn lemma_last_call<P: EvictionPicker, C, R>(
    history: Seq<ManagerView<P, C, R>>,
    calls: Seq<Call<C, R>>,
) -> (states: (ManagerView<P, C, R>, ManagerView<P, C, R>))
    requires
        lifecycle_laws::is_history(history, calls),
        calls.len() > 0,
    ensures
        lifecycle_laws::is_history(history.drop_last(), calls.drop_last()),
        states.0 == history.drop_last().last(),
        states.0 == history[calls.len() - 1],
        states.1 == history.last(),
        states.1 == history[calls.len() as int],
        history.drop_last()[0] == history[0],
        lifecycle_laws::intended(states.0, calls.last()),
        lifecycle_laws::called(states.0, calls.last(), states.1),
{
    let earlier = history.drop_last();
    let earlier_calls = calls.drop_last();
    assert forall|i: int| 0 <= i < earlier_calls.len() implies #[trigger] lifecycle_laws::call_at(
        earlier,
        earlier_calls,
        i,
    ) by {
        assert(lifecycle_laws::call_at(history, calls, i));
    }
    assert(lifecycle_laws::call_at(history, calls, calls.len() - 1));
    (earlier.last(), history.last())
}

/// If a block is clean, the first one is handed out: it is being written, its generation moves on
/// by one, and it is told so. Then a reclamation is started if one is needed. If no block is clean,
/// the caller is the last of those who wait for one, and nothing else changes.
pub proof fn law_clean_block_is_handed_out<P: EvictionPicker, C, R>(
    before: ManagerView<P, C, R>,
    waiter: C,
    clean: Option<CleanBlock>,
    after: ManagerView<P, C, R>,
)
    requires
        before.clean.len() > 0 ==> before.clean[0] < before.generations.len(),
        lifecycle::clean_block_step(before, waiter, clean, after),
    ensures
        clean is Some <==> before.clean.len() > 0,
        match clean {
            Some(clean) => {
                let id = before.clean[0];
                let generation = before.generations[id as int].wrapping_add(1);
                &&& clean.block@ == before.blocks[id as int]
                &&& clean.event == (StorageEvent::BlockStateChanged {
                    block: id,
                    generation,
                    state: BlockState::Writing,
                })
                &&& after.clean == before.clean.subrange(1, before.clean.len() as int)
                &&& after.writing == before.writing.insert(id)
                &&& after.generations == before.generations.update(id as int, generation)
                &&& after.clean_waiters == before.clean_waiters
                &&& after.reclaim_waiters == before.reclaim_waiters
                &&& lifecycle::reclaim_step(
                    (ManagerView {
                        clean: before.clean.subrange(1, before.clean.len() as int),
                        writing: before.writing.insert(id),
                        generations: before.generations.update(id as int, generation),
                        ..before
                    }),
                    clean.reclaim,
                    after,
                )
            },
            None => after == (ManagerView {
                clean_waiters: before.clean_waiters.push(waiter),
                ..before
            }),
        },
{
    if let Some(clean) = clean {
        let id = before.clean[0];
        let taken = before.clean_block_taken();
        assert(taken == (ManagerView {
            clean: before.clean.subrange(1, before.clean.len() as int),
            writing: before.writing.insert(id),
            generations: before.generations.update(
                id as int,
                before.generations[id as int].wrapping_add(1),
            ),
            ..before
        }));
        assert(taken.generations[id as int] == before.generations[id as int].wrapping_add(1));
        law_reclamation_starts_when_needed(taken, clean.reclaim, after);
    }
}

/// A written block is no longer being written and becomes evictable, its generation stays, and
/// every picker is told. Then a reclamation is started if one is needed. No block becomes clean,
/// and those who wait still wait.
pub proof fn law_written_block_becomes_evictable<P: EvictionPicker, C, R>(
    before: ManagerView<P, C, R>,
    id: BlockId,
    written: WrittenBlock,
    after: ManagerView<P, C, R>,
)
    requires
        lifecycle::writing_finish_step(before, id, written, after),
    ensures
        written.event == (StorageEvent::BlockStateChanged {
            block: id,
            generation: before.generations[id as int],
            state: BlockState::Evictable,
        }),
        after.writing == before.writing.remove(id),
        after.evictable.contains(id) || after.reclaiming.contains(id),
        after.clean == before.clean,
        after.generations == before.generations,
        after.clean_waiters == before.clean_waiters,
        after.reclaim_waiters == before.reclaim_waiters,
        exists|told: ManagerView<P, C, R>|
            {
                &&& #[trigger] lifecycle::told_step(
                    (ManagerView {
                        writing: before.writing.remove(id),
                        evictable: before.evictable.insert(id),
                        ..before
                    }),
                    PickerCall::Evictable { block: id },
                    told,
                )
                &&& lifecycle::reclaim_step(told, written.reclaim, after)
            },
{
    let told = choose|told: ManagerView<P, C, R>| #[trigger]
        lifecycle::told_step(before.written(id), PickerCall::Evictable { block: id }, told)
            && lifecycle::reclaim_step(told, written.reclaim, after);
    assert(before.written(id) == (ManagerView {
        writing: before.writing.remove(id),
        evictable: before.evictable.insert(id),
        ..before
    }));
    law_every_picker_is_told(before.written(id), PickerCall::Evictable { block: id }, told);
    law_reclamation_starts_when_needed(told, written.reclaim, after);
    assert(told.evictable.contains(id));
}

/// When a reclamation finishes while somebody waits for a clean block, the last of them gets the
/// block: it is being written, its generation moves on by one, and the others still wait. Otherwise
/// the block is the last of the clean ones, and its generation stays. Then a reclamation is started
/// if one is needed.
pub proof fn law_reclaimed_block_goes_to_a_waiter<P: EvictionPicker, C, R>(
    before: ManagerView<P, C, R>,
    id: BlockId,
    reclaimed: ReclaimedBlock<C, R>,
    after: ManagerView<P, C, R>,
)
    requires
        before.wf(),
        lifecycle::in_range(id, before.blocks.len()),
        lifecycle::reclaim_finish_step(before, id, reclaimed, after),
    ensures
        reclaimed.block@ == before.blocks[id as int],
        reclaimed.waiter is Some <==> before.clean_waiters.len() > 0,
        match reclaimed.waiter {
            Some(waiter) => {
                let generation = before.generations[id as int].wrapping_add(1);
                &&& before.clean_waiters == after.clean_waiters.push(waiter)
                &&& after.writing == before.writing.insert(id)
                &&& after.clean == before.clean
                &&& after.generations == before.generations.update(id as int, generation)
                &&& reclaimed.event == (StorageEvent::BlockStateChanged {
                    block: id,
                    generation,
                    state: BlockState::Writing,
                })
            },
            None => {
                &&& after.clean_waiters.len() == 0
                &&& after.writing == before.writing
                &&& after.clean == before.clean.push(id)
                &&& after.generations == before.generations
                &&& reclaimed.event == (StorageEvent::BlockStateChanged {
                    block: id,
                    generation: before.generations[id as int],
                    state: BlockState::Clean,
                })
            },
        },
        !before.evictable.contains(id) ==> !after.reclaiming.contains(id),
        exists|settled: ManagerView<P, C, R>|
            {
                &&& #[trigger] lifecycle::reclaim_step(
                    (ManagerView {
                        reclaiming: before.reclaiming.remove(id),
                        clean: after.clean,
                        writing: after.writing,
                        generations: after.generations,
                        clean_waiters: after.clean_waiters,
                        ..before
                    }),
                    reclaimed.reclaim,
                    settled,
                )
                &&& after == (ManagerView { reclaim_waiters: after.reclaim_waiters, ..settled })
            },
{
    let done = before.reclaimed(id);
    let settled = choose|settled: ManagerView<P, C, R>| #[trigger]
        lifecycle::reclaim_step(done, reclaimed.reclaim, settled) && after
            == settled.reclaim_waiters_told();
    law_reclamation_starts_when_needed(done, reclaimed.reclaim, settled);
    assert(done == (ManagerView {
        reclaiming: before.reclaiming.remove(id),
        clean: after.clean,
        writing: after.writing,
        generations: after.generations,
        clean_waiters: after.clean_waiters,
        ..before
    }));
    if before.clean_waiters.len() > 0 {
        assert(before.clean_waiters =~= before.clean_waiters.drop_last().push(
            before.clean_waiters.last(),
        ));
    }
    assert(after == (ManagerView { reclaim_waiters: after.reclaim_waiters, ..settled }));
}

/// If no block is being reclaimed after a reclamation finished, all who waited for that are told,
/// in order of arrival, and nobody waits for it any more. Otherwise nobody is told, and all of them
/// still wait.
pub proof fn law_last_reclamation_ends_the_wait<P: EvictionPicker, C, R>(
    before: ManagerView<P, C, R>,
    id: BlockId,
    reclaimed: ReclaimedBlock<C, R>,
    after: ManagerView<P, C, R>,
)
    requires
        lifecycle::reclaim_finish_step(before, id, reclaimed, after),
    ensures
        (forall|any: BlockId| !after.reclaiming.contains(any)) ==> {
            &&& reclaimed.reclaim_waiters@ == before.reclaim_waiters
            &&& after.reclaim_waiters.len() == 0
        },
        (exists|any: BlockId| after.reclaiming.contains(any)) ==> {
            &&& reclaimed.reclaim_waiters@.len() == 0
            &&& after.reclaim_waiters == before.reclaim_waiters
        },
{
    let done = before.reclaimed(id);
    let settled = choose|settled: ManagerView<P, C, R>| #[trigger]
        lifecycle::reclaim_step(done, reclaimed.reclaim, settled) && after
            == settled.reclaim_waiters_told() && reclaimed.reclaim_waiters@ == (
        if settled.reclaiming.is_empty() {
            settled.reclaim_waiters
        } else {
            Seq::empty()
        });
    law_reclamation_starts_when_needed(done, reclaimed.reclaim, settled);
    assert(after.reclaiming == settled.reclaiming);
    if forall|any: BlockId| !after.reclaiming.contains(any) {
        assert(settled.reclaiming =~= Set::empty());
    } else {
        let any = choose|any: BlockId| after.reclaiming.contains(any);
        assert(!settled.reclaiming.is_empty()) by {
            if settled.reclaiming.is_empty() {
                assert(settled.reclaiming =~= Set::empty());
                assert(!settled.reclaiming.contains(any));
            }
        }
    }
}

/// Who wants to wait for the reclamations is handed back exactly if no block is being reclaimed,
/// and is the last of those who wait otherwise. Nothing else changes.
pub proof fn law_wait_is_for_reclamations<P, C, R>(
    before: ManagerView<P, C, R>,
    waiter: R,
    ready: Option<R>,
    after: ManagerView<P, C, R>,
)
    requires
        lifecycle::wait_reclaim_step(before, waiter, ready, after),
    ensures
        ready is Some <==> forall|any: BlockId| !before.reclaiming.contains(any),
        before.exclusive() ==> (ready is Some <==> forall|any: BlockId| #[trigger]
            before.state_of(any) != BlockState::Reclaiming),
        match ready {
            Some(handed_back) => handed_back == waiter && after == before,
            None => after == (ManagerView {
                reclaim_waiters: before.reclaim_waiters.push(waiter),
                ..before
            }),
        },
{
    if ready is None {
        let any = before.reclaiming.choose();
        assert(before.reclaiming.contains(any));
        assert(before.exclusive() ==> before.state_of(any) == BlockState::Reclaiming);
    }
}

/// A block is reclaimed on request if it exists, its generation is the expected one and it is
/// evictable, and its entries are not inserted again then. Otherwise the first of these that fails
/// is told, and nothing changes.
pub proof fn law_request_is_checked<P: EvictionPicker, C, R>(
    before: ManagerView<P, C, R>,
    id: BlockId,
    expected_generation: u64,
    outcome: Result<ReclaimingBlock, ForceReclaimError>,
    after: ManagerView<P, C, R>,
)
    requires
        before.wf(),
        lifecycle::force_reclaim_step(before, id, expected_generation, outcome, after),
    ensures
        outcome is Ok <==> id < before.blocks.len() && before.generations[id as int]
            == expected_generation && before.evictable.contains(id),
        match outcome {
            Ok(reclaiming) => {
                &&& lifecycle::reclaim_block_step(before, id, false, Some(reclaiming), after)
                &&& reclaiming@.block == before.blocks[id as int]
                &&& !reclaiming@.reinsert
                &&& after.evictable == before.evictable.remove(id)
                &&& after.reclaiming == before.reclaiming.insert(id)
            },
            Err(ForceReclaimError::OutOfRange { block, blocks }) => {
                &&& id >= before.blocks.len()
                &&& block == id
                &&& before.blocks.len() <= usize::MAX ==> blocks == before.blocks.len()
                &&& after == before
            },
            Err(ForceReclaimError::StaleGeneration { expected, actual }) => {
                &&& id < before.blocks.len()
                &&& expected == expected_generation
                &&& actual == before.generations[id as int]
                &&& expected != actual
                &&& after == before
            },
            Err(ForceReclaimError::NotEvictable { state }) => {
                &&& id < before.blocks.len()
                &&& before.generations[id as int] == expected_generation
                &&& !before.evictable.contains(id)
                &&& before.clean.contains(id) <==> state == BlockState::Clean
                &&& !before.clean.contains(id) && before.writing.contains(id) <==> state
                    == BlockState::Writing
                &&& state != BlockState::Evictable
                &&& !before.clean.contains(id) && !before.writing.contains(id)
                    && before.reclaiming.contains(id) <==> state == BlockState::Reclaiming
                &&& after == before
            },
            Err(ForceReclaimError::Unsupported) => false,
        },
{
    if let Ok(reclaiming) = outcome {
        law_evictable_block_is_reclaimed(before, id, false, Some(reclaiming), after);
    }
}

/// The state of a block is that of the set it is in.
pub proof fn law_state_is_where_a_block_is<P, C, R>(manager: ManagerView<P, C, R>, id: BlockId)
    requires
        manager.exclusive(),
    ensures
        manager.state_of(id) == BlockState::Clean <==> manager.clean.contains(id),
        manager.state_of(id) == BlockState::Writing <==> manager.writing.contains(id),
        manager.state_of(id) == BlockState::Evictable <==> manager.evictable.contains(id),
        manager.state_of(id) == BlockState::Reclaiming <==> manager.reclaiming.contains(id),
{
}

/// The snapshot of a block has its identifier, size, generation, statistics and state, and counts
/// no entries.
pub proof fn law_snapshot_of_a_block<P, C, R>(manager: ManagerView<P, C, R>, i: int)
    requires
        manager.wf(),
        0 <= i < manager.blocks.len(),
    ensures
        ({
            let snapshot = manager.snapshot(i);
            let id = i as BlockId;
            &&& snapshot.id == i
            &&& snapshot.size == manager.blocks[i].size
            &&& snapshot.generation == manager.generations[i]
            &&& snapshot.invalid_bytes == manager.statistics[i].invalid
            &&& snapshot.accesses == manager.statistics[i].access
            &&& snapshot.probation == manager.statistics[i].probation
            &&& snapshot.live_entries == 0
            &&& snapshot.live_bytes == 0
            &&& if manager.clean.contains(id) {
                snapshot.state == BlockState::Clean
            } else if manager.writing.contains(id) {
                snapshot.state == BlockState::Writing
            } else if manager.evictable.contains(id) {
                snapshot.state == BlockState::Evictable
            } else if manager.reclaiming.contains(id) {
                snapshot.state == BlockState::Reclaiming
            } else {
                snapshot.state == BlockState::Initializing
            }
        }),
{
}

/// A change of state is told with the block, its present generation and the state.
pub proof fn law_event_tells_a_state<P, C, R>(
    manager: ManagerView<P, C, R>,
    id: BlockId,
    state: BlockState,
)
    ensures
        manager.event(id, state) == (StorageEvent::BlockStateChanged {
            block: id,
            generation: manager.generations[id as int],
            state,
        }),
{
}

/// Setting the statistics of a block changes them and nothing else.
pub proof fn law_statistics_are_set<P, C, R>(
    before: ManagerView<P, C, R>,
    id: BlockId,
    statistics: BlockStatistics,
    after: ManagerView<P, C, R>,
    i: int,
)
    requires
        before.wf(),
        lifecycle::in_range(id, before.blocks.len()),
        lifecycle::statistics_step(before, id, statistics, after),
        0 <= i < before.blocks.len(),
    ensures
        after.statistics.len() == before.statistics.len(),
        after.statistics[i] == (if i == id {
            statistics
        } else {
            before.statistics[i]
        }),
        after == (ManagerView { statistics: after.statistics, ..before }),
{
}

/// A recovery makes the blocks that it is given clean, in that order. Every other block becomes
/// evictable, by ascending identifier, and all pickers are told of each when it is. Nothing else
/// changes.
pub proof fn law_recovery_tells_of_every_other_block<P: EvictionPicker, C, R>(
    before: ManagerView<P, C, R>,
    clean: Seq<BlockId>,
    after: ManagerView<P, C, R>,
)
    requires
        before.wf(),
        lifecycle::recovery_step(before, clean, after),
    ensures
        after.clean == clean,
        forall|id: BlockId| #[trigger]
            after.evictable.contains(id) <==> before.evictable.contains(id) || (id
                < before.blocks.len() && !clean.contains(id)),
        after == (ManagerView {
            clean,
            evictable: after.evictable,
            pickers: after.pickers,
            statistics: after.statistics,
            ..before
        }),
        exists|ids: Seq<BlockId>, states: Seq<ManagerView<P, C, R>>|
            {
                &&& #[trigger] states.len() == #[trigger] ids.len() + 1
                &&& states[0] == (ManagerView { clean, ..before })
                &&& states[ids.len() as int] == after
                &&& forall|id: BlockId| #[trigger]
                    ids.contains(id) <==> id < before.blocks.len() && !clean.contains(id)
                &&& forall|i: int, j: int| 0 <= i < j < ids.len() ==> ids[i] < ids[j]
                &&& forall|i: int|
                    0 <= i < ids.len() ==> lifecycle::told_step(
                        (ManagerView {
                            evictable: states[i].evictable.insert(#[trigger] ids[i]),
                            ..states[i]
                        }),
                        PickerCall::Evictable { block: ids[i] },
                        states[i + 1],
                    )
            },
{
    lifecycle::lemma_occupied_members::<P, C, R>(clean, before.blocks.len());
    let ids = before.occupied(clean);
    let start = ManagerView { clean, ..before };
    lifecycle::lemma_occupied_step(start, ids, after);
    lemma_occupied_ascend::<P, C, R>(clean, before.blocks.len());
    let states = lemma_recovery_states(start, ids, after);
    assert(states.len() == ids.len() + 1);
    assert forall|id: BlockId| #[trigger] after.evictable.contains(id) <==> before.evictable.contains(
        id,
    ) || (id < before.blocks.len() && !clean.contains(id)) by {
        assert(ids.contains(id) <==> id < before.blocks.len() && !clean.contains(id));
    }
}

proof fn lemma_occupied_ascend<P, C, R>(clean: Seq<BlockId>, n: nat)
    requires
        n <= u32::MAX + 1,
    ensures
        ({
            let ids = ManagerView::<P, C, R>::occupied_below(clean, n);
            &&& forall|i: int| 0 <= i < ids.len() ==> #[trigger] ids[i] < n
            &&& forall|i: int, j: int| 0 <= i < j < ids.len() ==> ids[i] < ids[j]
        }),
    decreases n,
{
    if n > 0 {
        lemma_occupied_ascend::<P, C, R>(clean, (n - 1) as nat);
        let before = ManagerView::<P, C, R>::occupied_below(clean, (n - 1) as nat);
        let last = (n - 1) as BlockId;
        if !clean.contains(last) {
            let ids = ManagerView::<P, C, R>::occupied_below(clean, n);
            assert(ids == before.push(last));
            assert forall|i: int, j: int| 0 <= i < j < ids.len() implies ids[i] < ids[j] by {
                assert(before[i] < n - 1);
            }
        }
    }
}

/// The states through which a recovery goes.
proof fn lemma_recovery_states<P: EvictionPicker, C, R>(
    before: ManagerView<P, C, R>,
    ids: Seq<BlockId>,
    after: ManagerView<P, C, R>,
) -> (states: Seq<ManagerView<P, C, R>>)
    requires
        lifecycle::occupied_step(before, ids, after),
    ensures
        states.len() == ids.len() + 1,
        states[0] == before,
        states.last() == after,
        forall|i: int|
            0 <= i < ids.len() ==> lifecycle::told_step(
                (ManagerView {
                    evictable: states[i].evictable.insert(#[trigger] ids[i]),
                    ..states[i]
                }),
                PickerCall::Evictable { block: ids[i] },
                states[i + 1],
            ),
    decreases ids.len(),
{
    if ids.len() == 0 {
        seq![before]
    } else {
        let earlier = ids.drop_last();
        let middle = choose|middle: ManagerView<P, C, R>|
            lifecycle::occupied_step(before, earlier, middle) && #[trigger] lifecycle::told_step(
                middle.evictable_too(ids.last()),
                PickerCall::Evictable { block: ids.last() },
                after,
            );
        let passed = lemma_recovery_states(before, earlier, middle);
        let states = passed.push(after);
        assert forall|i: int| 0 <= i < ids.len() implies lifecycle::told_step(
            (ManagerView {
                evictable: states[i].evictable.insert(#[trigger] ids[i]),
                ..states[i]
            }),
            PickerCall::Evictable { block: ids[i] },
            states[i + 1],
        ) by {
            if i < earlier.len() {
                assert(earlier[i] == ids[i]);
            }
        }
        states
    }
}

/// Those who began to wait for a clean block in some calls.
pub open spec fn began_to_wait<C, R>(calls: Seq<Call<C, R>>) -> Multiset<C>
    decreases calls.len(),
{
    if calls.len() == 0 {
        Multiset::empty()
    } else {
        let earlier = began_to_wait(calls.drop_last());
        match calls.last() {
            Call::GetCleanBlock { waiter, clean: None } => earlier.insert(waiter),
            _ => earlier,
        }
    }
}

/// Those who were handed a block in some calls after they had waited for it.
pub open spec fn were_served<C, R>(calls: Seq<Call<C, R>>) -> Multiset<C>
    decreases calls.len(),
{
    if calls.len() == 0 {
        Multiset::empty()
    } else {
        let earlier = were_served(calls.drop_last());
        match calls.last() {
            Call::ReclaimFinish { reclaimed, .. } => match reclaimed.waiter {
                Some(waiter) => earlier.insert(waiter),
                None => earlier,
            },
            _ => earlier,
        }
    }
}

/// Over any history, everybody who waited or began to wait for a clean block either still waits or
/// was handed exactly one block.
pub proof fn law_every_waiter_gets_one_block<P: EvictionPicker, C, R>(
    history: Seq<ManagerView<P, C, R>>,
    calls: Seq<Call<C, R>>,
)
    requires
        lifecycle_laws::is_history(history, calls),
    ensures
        history[0].clean_waiters.to_multiset().add(began_to_wait(calls))
            == history.last().clean_waiters.to_multiset().add(were_served(calls)),
    decreases calls.len(),
{
    broadcast use vstd::seq_lib::group_to_multiset_ensures;
    broadcast use vstd::multiset::group_multiset_axioms;

    if calls.len() > 0 {
        let (before, after) = lemma_last_call(history, calls);
        lemma_limits_stay(history.drop_last(), calls.drop_last());
        law_every_waiter_gets_one_block(history.drop_last(), calls.drop_last());
        lemma_waiters_of_call(before, calls.last(), after);
        let first = history[0].clean_waiters.to_multiset();
        let began = began_to_wait(calls.drop_last());
        let served = were_served(calls.drop_last());
        let waiting = before.clean_waiters.to_multiset();
        assert(first.add(began) == waiting.add(served));
        match calls.last() {
            Call::GetCleanBlock { waiter, clean: None } => {
                assert(after.clean_waiters.to_multiset() =~= waiting.insert(waiter));
                assert(first.add(began.insert(waiter)) =~= first.add(began).insert(waiter));
                assert(waiting.insert(waiter).add(served) =~= waiting.add(served).insert(waiter));
            },
            Call::ReclaimFinish { reclaimed, .. } => {
                if let Some(waiter) = reclaimed.waiter {
                    let left = after.clean_waiters.to_multiset();
                    assert(waiting =~= left.insert(waiter));
                    assert(left.add(served.insert(waiter)) =~= left.insert(waiter).add(served));
                }
            },
            _ => {},
        }
    } else {
        assert(history.last() == history[0]);
    }
}

/// What a call does to those who wait.
proof fn lemma_waiters_of_call<P: EvictionPicker, C, R>(
    before: ManagerView<P, C, R>,
    call: Call<C, R>,
    after: ManagerView<P, C, R>,
)
    requires
        before.wf(),
        lifecycle_laws::intended(before, call),
        lifecycle_laws::called(before, call, after),
    ensures
        match call {
            Call::GetCleanBlock { waiter, clean: None } => after.clean_waiters
                == before.clean_waiters.push(waiter),
            Call::ReclaimFinish { reclaimed, .. } => match reclaimed.waiter {
                Some(waiter) => before.clean_waiters == after.clean_waiters.push(waiter),
                None => after.clean_waiters == before.clean_waiters,
            },
            _ => after.clean_waiters == before.clean_waiters,
        },
        match call {
            Call::WaitReclaim { told, ready: None } => after.reclaim_waiters
                == before.reclaim_waiters.push(told),
            Call::ReclaimFinish { reclaimed, .. } => {
                ||| {
                    &&& after.reclaiming.is_empty()
                    &&& reclaimed.reclaim_waiters@ == before.reclaim_waiters
                    &&& after.reclaim_waiters.len() == 0
                }
                ||| {
                    &&& reclaimed.reclaim_waiters@.len() == 0
                    &&& after.reclaim_waiters == before.reclaim_waiters
                }
            },
            _ => after.reclaim_waiters == before.reclaim_waiters,
        },
{
    match call {
        Call::GetCleanBlock { waiter, clean } => {
            law_clean_block_is_handed_out(before, waiter, clean, after);
        },
        Call::WritingFinish { id, written } => {
            law_written_block_becomes_evictable(before, id, written, after);
        },
        Call::ReclaimFinish { id, reclaimed } => {
            law_reclaimed_block_goes_to_a_waiter(before, id, reclaimed, after);
            law_last_reclamation_ends_the_wait(before, id, reclaimed, after);
            if reclaimed.waiter is None {
                assert(after.clean_waiters =~= before.clean_waiters);
            }
            if forall|any: BlockId| !after.reclaiming.contains(any) {
                assert(after.reclaiming =~= Set::empty());
            }
        },
        Call::ReclaimIfNeeded { reclaim } => {
            law_reclamation_starts_when_needed(before, reclaim, after);
        },
        Call::ReclaimBlock { id, reinsert, reclaiming } => {
            law_evictable_block_is_reclaimed(before, id, reinsert, reclaiming, after);
        },
        Call::ForceReclaim { id, generation, outcome } => {
            law_request_is_checked(before, id, generation, outcome, after);
            if let Ok(reclaiming) = outcome {
                law_evictable_block_is_reclaimed(before, id, false, Some(reclaiming), after);
            }
        },
        Call::WaitReclaim { told, ready } => {
            law_wait_is_for_reclamations(before, told, ready, after);
        },
        Call::Statistics { id, statistics } => {},
    }
}

/// Those who began to wait for the reclamations in some calls.
pub open spec fn began_to_wait_for_reclamations<C, R>(calls: Seq<Call<C, R>>) -> Multiset<R>
    decreases calls.len(),
{
    if calls.len() == 0 {
        Multiset::empty()
    } else {
        let earlier = began_to_wait_for_reclamations(calls.drop_last());
        match calls.last() {
            Call::WaitReclaim { told, ready: None } => earlier.insert(told),
            _ => earlier,
        }
    }
}

/// Those who were told in some calls that no block is being reclaimed, after they had waited for
/// it.
pub open spec fn were_told<C, R>(calls: Seq<Call<C, R>>) -> Multiset<R>
    decreases calls.len(),
{
    if calls.len() == 0 {
        Multiset::empty()
    } else {
        let earlier = were_told(calls.drop_last());
        match calls.last() {
            Call::ReclaimFinish { reclaimed, .. } => earlier.add(
                reclaimed.reclaim_waiters@.to_multiset(),
            ),
            _ => earlier,
        }
    }
}

/// Over any history, everybody who waited or began to wait for the reclamations either still waits
/// or was told exactly once.
pub proof fn law_every_reclaim_waiter_is_told_once<P: EvictionPicker, C, R>(
    history: Seq<ManagerView<P, C, R>>,
    calls: Seq<Call<C, R>>,
)
    requires
        lifecycle_laws::is_history(history, calls),
    ensures
        history[0].reclaim_waiters.to_multiset().add(began_to_wait_for_reclamations(calls))
            == history.last().reclaim_waiters.to_multiset().add(were_told(calls)),
    decreases calls.len(),
{
    broadcast use vstd::seq_lib::group_to_multiset_ensures;
    broadcast use vstd::multiset::group_multiset_axioms;

    if calls.len() > 0 {
        let (before, after) = lemma_last_call(history, calls);
        lemma_limits_stay(history.drop_last(), calls.drop_last());
        law_every_reclaim_waiter_is_told_once(history.drop_last(), calls.drop_last());
        lemma_waiters_of_call(before, calls.last(), after);
        let first = history[0].reclaim_waiters.to_multiset();
        let began = began_to_wait_for_reclamations(calls.drop_last());
        let told = were_told(calls.drop_last());
        let waiting = before.reclaim_waiters.to_multiset();
        let none = Multiset::<R>::empty();
        assert(first.add(began) == waiting.add(told));
        match calls.last() {
            Call::WaitReclaim { told: waiter, ready: None } => {
                assert(after.reclaim_waiters.to_multiset() =~= waiting.insert(waiter));
                assert(first.add(began.insert(waiter)) =~= first.add(began).insert(waiter));
                assert(waiting.insert(waiter).add(told) =~= waiting.add(told).insert(waiter));
            },
            Call::ReclaimFinish { reclaimed, .. } => {
                assert(Seq::<R>::empty().to_multiset() =~= none);
                if after.reclaim_waiters == before.reclaim_waiters
                    && reclaimed.reclaim_waiters@.len() == 0 {
                    assert(reclaimed.reclaim_waiters@ =~= Seq::empty());
                    assert(told.add(none) =~= told);
                } else {
                    assert(after.reclaim_waiters =~= Seq::empty());
                    assert(none.add(told.add(waiting)) =~= waiting.add(told));
                }
            },
            _ => {},
        }
    } else {
        assert(history.last() == history[0]);
    }
}

/// Who waits for the reclamations still waits after any history, or was told by a call that
/// finished a reclamation and after which no block was being reclaimed.
pub proof fn law_wait_ends_with_the_last_reclamation<P: EvictionPicker, C, R>(
    history: Seq<ManagerView<P, C, R>>,
    calls: Seq<Call<C, R>>,
    waiter: R,
)
    requires
        lifecycle_laws::is_history(history, calls),
        history[0].reclaim_waiters.contains(waiter),
    ensures
        history.last().reclaim_waiters.contains(waiter) || exists|i: int|
            {
                &&& 0 <= i < calls.len()
                &&& history[i + 1].reclaiming.is_empty()
                &&& (#[trigger] calls[i] matches Call::ReclaimFinish { id, reclaimed }
                    && reclaimed.reclaim_waiters@.contains(waiter))
            },
    decreases calls.len(),
{
    if calls.len() > 0 {
        let n = calls.len() - 1;
        let earlier = history.drop_last();
        let earlier_calls = calls.drop_last();
        let (before, after) = lemma_last_call(history, calls);
        lemma_limits_stay(earlier, earlier_calls);
        law_wait_ends_with_the_last_reclamation(earlier, earlier_calls, waiter);
        lemma_waiters_of_call(before, calls.last(), after);
        assert(calls[n] == calls.last());
        if earlier.last().reclaim_waiters.contains(waiter) {
            let k = before.reclaim_waiters.index_of(waiter);
            if after.reclaim_waiters == before.reclaim_waiters {
                assert(after.reclaim_waiters.contains(waiter));
            } else if calls.last() is WaitReclaim {
                assert(after.reclaim_waiters[k] == waiter);
            }
        } else {
            let i = choose|i: int|
                {
                    &&& 0 <= i < earlier_calls.len()
                    &&& earlier[i + 1].reclaiming.is_empty()
                    &&& (#[trigger] earlier_calls[i] matches Call::ReclaimFinish { id, reclaimed }
                        && reclaimed.reclaim_waiters@.contains(waiter))
                };
            assert(calls[i] == earlier_calls[i]);
            assert(history[i + 1] == earlier[i + 1]);
        }
    }
}

/// Every picker is initialised once, with the identifiers of all blocks in order and their size.
pub proof fn law_every_picker_is_initialised<P: EvictionPicker>(
    before: Seq<P>,
    blocks: nat,
    block_size: usize,
    after: Seq<P>,
    i: int,
)
    requires
        lifecycle::inited(before, blocks, block_size, after),
        blocks <= u32::MAX + 1,
        0 <= i < before.len(),
    ensures
        after.len() == before.len(),
        exists|ids: Seq<BlockId>|
            {
                &&& #[trigger] P::init_step(before[i], ids, block_size, after[i])
                &&& ids.len() == blocks
                &&& forall|k: int| 0 <= k < blocks ==> #[trigger] ids[k] == k
            },
{
    let ids = lifecycle::all_ids(blocks);
    assert(P::init_step(before[i], ids, block_size, after[i]));
}

/// Blocks of a valid block manager are numbered in order, and each has statistics and a generation.
pub proof fn law_valid_blocks_are_numbered<P, C, R>(manager: ManagerView<P, C, R>)
    ensures
        manager.wf() <==> {
            &&& manager.blocks.len() <= u32::MAX + 1
            &&& manager.statistics.len() == manager.blocks.len()
            &&& manager.generations.len() == manager.blocks.len()
            &&& forall|i: int| 0 <= i < manager.blocks.len() ==> (#[trigger] manager.blocks[i]).id == i
            &&& forall|id: BlockId| #[trigger]
                manager.evictable.contains(id) ==> id < manager.blocks.len()
            &&& forall|id: BlockId| #[trigger]
                manager.writing.contains(id) ==> id < manager.blocks.len()
            &&& forall|id: BlockId| #[trigger]
                manager.reclaiming.contains(id) ==> id < manager.blocks.len()
        },
{
    if forall|id: BlockId| #[trigger] manager.evictable.contains(id) ==> id < manager.blocks.len() {
        assert(lifecycle::all_in_range(manager.evictable, manager.blocks.len()));
    }
    assert forall|id: BlockId|
        manager.wf() && #[trigger] manager.evictable.contains(id) implies id
        < manager.blocks.len() by {
        assert(lifecycle::in_range(id, manager.blocks.len()));
    }
    assert forall|id: BlockId|
        manager.wf() && #[trigger] manager.writing.contains(id) implies id
        < manager.blocks.len() by {
        assert(lifecycle::in_range(id, manager.blocks.len()));
    }
    assert forall|id: BlockId|
        manager.wf() && #[trigger] manager.reclaiming.contains(id) implies id
        < manager.blocks.len() by {
        assert(lifecycle::in_range(id, manager.blocks.len()));
    }
}

} // verus!
