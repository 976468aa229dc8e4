//! What the life of a block is: clean, written, evictable, reclaimed, and clean again.
use crate::engine::block::eviction::{EvictionPicker, EvictionView};
use crate::engine::block::manager;
use crate::engine::block::manager::{
    BlockId, BlockSnapshot, BlockState, BlockStatistics, BlockView, CleanBlock, ForceReclaimError,
    Reclaim, ReclaimedBlock, ReclaimingBlock, ReclaimingView, WrittenBlock,
};
use crate::engine::StorageEvent;
use vstd::prelude::*;

verus! {

/// The state of a block manager.
#[verifier::ext_equal]
pub struct ManagerView<P, C, R> {
    /// All blocks, by identifier.
    pub blocks: Seq<BlockView>,
    /// The statistics of each block. A block has one object for them, whoever holds the block.
    pub statistics: Seq<BlockStatistics>,
    /// How often each block was handed out for writing, modulo 2^64.
    pub generations: Seq<u64>,
    /// The blocks that are available for writing, next one first.
    pub clean: Seq<BlockId>,
    /// The blocks that can be selected for reclamation.
    pub evictable: Set<BlockId>,
    /// The blocks that are being written.
    pub writing: Set<BlockId>,
    /// The blocks that are being reclaimed.
    pub reclaiming: Set<BlockId>,
    /// Who waits for a clean block, in order of arrival.
    pub clean_waiters: Seq<C>,
    /// Who waits for all reclamations to finish, in order of arrival.
    pub reclaim_waiters: Seq<R>,
    /// The eviction pickers, in order of precedence.
    pub pickers: Seq<P>,
    /// How many blocks may be under reclamation before no more are picked.
    pub reclaim_concurrency: usize,
    /// How many clean blocks there should be.
    pub clean_block_threshold: usize,
}

/// Whether `id` is the identifier of one of `blocks` blocks.
pub open spec fn in_range(id: BlockId, blocks: nat) -> bool {
    id < blocks
}

/// Whether `ids` are identifiers of some of `blocks` blocks.
pub open spec fn all_in_range(ids: Set<BlockId>, blocks: nat) -> bool {
    forall|id: BlockId| #[trigger] ids.contains(id) ==> in_range(id, blocks)
}

/// Blocks are numbered in order.
pub open spec fn numbered(blocks: Seq<BlockView>) -> bool {
    &&& blocks.len() <= u32::MAX + 1
    &&& forall|i: int| 0 <= i < blocks.len() ==> (#[trigger] blocks[i]).id == i
}

impl<P, C, R> ManagerView<P, C, R> {
    /// Blocks are numbered in order, each has statistics and a generation, and only blocks are
    /// evictable, being written or being reclaimed. The list of clean blocks is what a recovery gave.
    pub open spec fn wf(self) -> bool {
        &&& self.statistics.len() == self.blocks.len()
        &&& self.generations.len() == self.blocks.len()
        &&& numbered(self.blocks)
        &&& all_in_range(self.evictable, self.blocks.len())
        &&& all_in_range(self.writing, self.blocks.len())
        &&& all_in_range(self.reclaiming, self.blocks.len())
    }

    /// No block is in two states, and no block is clean twice.
    pub open spec fn exclusive(self) -> bool {
        &&& self.clean.no_duplicates()
        &&& forall|id: BlockId| #[trigger]
            self.clean.contains(id) ==> !self.writing.contains(id) && !self.evictable.contains(id)
                && !self.reclaiming.contains(id)
        &&& self.writing.disjoint(self.evictable)
        &&& self.writing.disjoint(self.reclaiming)
        &&& self.evictable.disjoint(self.reclaiming)
    }

    /// Nobody waits for what is already there: for a clean block while there is one, or for
    /// reclamations while there are none.
    pub open spec fn waits_are_needed(self) -> bool {
        &&& self.clean_waiters.len() > 0 ==> self.clean.len() == 0
        &&& self.reclaim_waiters.len() > 0 ==> !self.reclaiming.is_empty()
    }

    /// The lifecycle state of a block.
    pub open spec fn state_of(self, id: BlockId) -> BlockState {
        if self.clean.contains(id) {
            BlockState::Clean
        } else if self.writing.contains(id) {
            BlockState::Writing
        } else if self.evictable.contains(id) {
            BlockState::Evictable
        } else if self.reclaiming.contains(id) {
            BlockState::Reclaiming
        } else {
            BlockState::Initializing
        }
    }

    /// What the eviction pickers are shown.
    pub open spec fn info(self) -> EvictionView {
        EvictionView {
            blocks: self.blocks,
            evictable: self.evictable,
            clean: self.clean.len() as int,
        }
    }

    /// The snapshot of block `i`.
    pub open spec fn snapshot(self, i: int) -> BlockSnapshot {
        BlockSnapshot {
            id: self.blocks[i].id,
            size: self.blocks[i].size,
            state: self.state_of(self.blocks[i].id),
            generation: self.generations[i],
            live_entries: 0,
            live_bytes: 0,
            invalid_bytes: self.statistics[i].invalid,
            accesses: self.statistics[i].access,
            probation: self.statistics[i].probation,
        }
    }

    /// The event that tells the state of a block.
    pub open spec fn event(self, id: BlockId, state: BlockState) -> StorageEvent {
        StorageEvent::BlockStateChanged {
            block: id,
            generation: self.generations[id as int],
            state,
        }
    }

    /// Whether a block should be picked for reclamation.
    pub open spec fn wants_reclaim(self) -> bool {
        &&& self.clean.len() < self.clean_block_threshold
        &&& self.reclaiming.len() < self.reclaim_concurrency
        &&& !self.evictable.is_empty()
    }

    /// Block `id` is handed out for writing, and its generation moves on.
    pub open spec fn handed_out(self, id: BlockId) -> Self {
        ManagerView {
            generations: self.generations.update(
                id as int,
                self.generations[id as int].wrapping_add(1),
            ),
            writing: self.writing.insert(id),
            ..self
        }
    }

    /// The next clean block exists, if there is a next one.
    pub open spec fn next_clean_exists(self) -> bool {
        self.clean.len() > 0 ==> in_range(self.clean[0], self.blocks.len())
    }

    /// The first clean block is handed out for writing.
    pub open spec fn clean_block_taken(self) -> Self {
        ManagerView { clean: self.clean.drop_first(), ..self }.handed_out(self.clean[0])
    }

    /// The pickers were told something, and may have changed statistics.
    pub open spec fn told(self, pickers: Seq<P>, statistics: Seq<BlockStatistics>) -> Self {
        ManagerView { pickers, statistics, ..self }
    }

    /// Writing block `id` is finished.
    pub open spec fn written(self, id: BlockId) -> Self {
        ManagerView { writing: self.writing.remove(id), ..self }.evictable_too(id)
    }

    /// Block `id` is evictable.
    pub open spec fn evictable_too(self, id: BlockId) -> Self {
        ManagerView { evictable: self.evictable.insert(id), ..self }
    }

    /// Block `id` is no longer evictable.
    pub open spec fn evicted(self, id: BlockId) -> Self {
        ManagerView { evictable: self.evictable.remove(id), ..self }
    }

    /// Block `id` is under reclamation.
    pub open spec fn reclaiming_too(self, id: BlockId) -> Self {
        ManagerView { reclaiming: self.reclaiming.insert(id), ..self }
    }

    /// The reclamation of block `id` is finished: it is handed to the last one who waits for a clean
    /// block, or is clean.
    pub open spec fn reclaimed(self, id: BlockId) -> Self {
        let done = ManagerView { reclaiming: self.reclaiming.remove(id), ..self };
        if self.clean_waiters.len() > 0 {
            ManagerView { clean_waiters: self.clean_waiters.drop_last(), ..done.handed_out(id) }
        } else {
            ManagerView { clean: self.clean.push(id), ..done }
        }
    }

    /// Who gets the next block whose reclamation is finished.
    pub open spec fn next_waiter(self) -> Option<C> {
        if self.clean_waiters.len() > 0 {
            Some(self.clean_waiters.last())
        } else {
            None
        }
    }

    /// Those who wait for the reclamations are told, if none is left.
    pub open spec fn reclaim_waiters_told(self) -> Self {
        if self.reclaiming.is_empty() {
            ManagerView { reclaim_waiters: Seq::empty(), ..self }
        } else {
            self
        }
    }

    /// Why block `id` cannot be reclaimed on request, if it cannot.
    pub open spec fn reclaim_refusal(self, id: BlockId, expected_generation: u64) -> Option<
        ForceReclaimError,
    > {
        if id >= self.blocks.len() {
            Some(ForceReclaimError::OutOfRange { block: id, blocks: self.blocks.len() as usize })
        } else if self.generations[id as int] != expected_generation {
            Some(
                ForceReclaimError::StaleGeneration {
                    expected: expected_generation,
                    actual: self.generations[id as int],
                },
            )
        } else if !self.evictable.contains(id) {
            Some(ForceReclaimError::NotEvictable { state: self.state_of(id) })
        } else {
            None
        }
    }

    /// The blocks that are not in `clean`, by ascending identifier, among the first `n`.
    pub open spec fn occupied_below(clean: Seq<BlockId>, n: nat) -> Seq<BlockId>
        decreases n,
    {
        if n == 0 {
            Seq::empty()
        } else {
            let before = Self::occupied_below(clean, (n - 1) as nat);
            let id = (n - 1) as BlockId;
            if clean.contains(id) {
                before
            } else {
                before.push(id)
            }
        }
    }

    /// The blocks that are evictable after a recovery that found `clean` to be the clean blocks.
    pub open spec fn occupied(self, clean: Seq<BlockId>) -> Seq<BlockId> {
        Self::occupied_below(clean, self.blocks.len())
    }
}

/// The identifiers of so many blocks.
pub open spec fn all_ids(blocks: nat) -> Seq<BlockId> {
    Seq::new(blocks, |i: int| i as BlockId)
}

/// Every picker is initialised.
pub open spec fn inited<P: EvictionPicker>(
    before: Seq<P>,
    blocks: nat,
    block_size: usize,
    after: Seq<P>,
) -> bool {
    &&& after.len() == before.len()
    &&& forall|i: int|
        0 <= i < before.len() ==> P::init_step(
            #[trigger] before[i],
            all_ids(blocks),
            block_size,
            #[trigger] after[i],
        )
}

/// The state before any recovery.
pub open spec fn opened<P, C, R>(
    blocks: Seq<BlockView>,
    pickers: Seq<P>,
    reclaim_concurrency: usize,
    clean_block_threshold: usize,
) -> ManagerView<P, C, R> {
    ManagerView {
        blocks,
        statistics: Seq::new(blocks.len(), |i: int| manager::unused_statistics()),
        generations: Seq::new(blocks.len(), |i: int| 0u64),
        clean: Seq::empty(),
        evictable: Set::empty(),
        writing: Set::empty(),
        reclaiming: Set::empty(),
        clean_waiters: Seq::empty(),
        reclaim_waiters: Seq::empty(),
        pickers,
        reclaim_concurrency,
        clean_block_threshold,
    }
}

/// What a picker is called for, with its answer.
#[derive(Debug, Clone, Copy)]
pub enum PickerCall {
    /// It is told that a block became evictable.
    Evictable { block: BlockId },
    /// It is told that a block is evicted.
    Evict { block: BlockId },
    /// It is asked to pick a block.
    Pick { picked: Option<BlockId> },
}

/// A picker is called with the statistics `before` and leaves them as `after`.
pub open spec fn one_called<P: EvictionPicker>(
    picker: P,
    info: EvictionView,
    before: Seq<BlockStatistics>,
    call: PickerCall,
    picker_after: P,
    after: Seq<BlockStatistics>,
) -> bool {
    &&& after.len() == before.len()
    &&& match call {
        PickerCall::Evictable { block } => P::evictable_step(
            picker,
            info,
            before,
            block,
            picker_after,
            after,
        ),
        PickerCall::Evict { block } => P::evict_step(
            picker,
            info,
            before,
            block,
            picker_after,
            after,
        ),
        PickerCall::Pick { picked } => P::pick_step(
            picker,
            info,
            before,
            picked,
            picker_after,
            after,
        ),
    }
}

/// All pickers are called, one after the other, and each of them finds the statistics as those before
/// it left them.
pub open spec fn all_called<P: EvictionPicker>(
    pickers: Seq<P>,
    info: EvictionView,
    before: Seq<BlockStatistics>,
    call: PickerCall,
    pickers_after: Seq<P>,
    after: Seq<BlockStatistics>,
) -> bool
    decreases pickers.len(),
{
    &&& pickers_after.len() == pickers.len()
    &&& if pickers.len() == 0 {
        after == before
    } else {
        exists|found: Seq<BlockStatistics>|
            all_called(
                pickers.drop_last(),
                info,
                before,
                call,
                pickers_after.drop_last(),
                found,
            ) && #[trigger] one_called(
                pickers.last(),
                info,
                found,
                call,
                pickers_after.last(),
                after,
            )
    }
}

/// Picker `i` was the first to pick, and picked `block`. Those before it picked none, and those after
/// it were not asked.
pub open spec fn picked_by<P: EvictionPicker>(
    pickers: Seq<P>,
    info: EvictionView,
    before: Seq<BlockStatistics>,
    block: BlockId,
    pickers_after: Seq<P>,
    after: Seq<BlockStatistics>,
    i: int,
) -> bool {
    &&& exists|found: Seq<BlockStatistics>|
        all_called(
            pickers.take(i),
            info,
            before,
            PickerCall::Pick { picked: None },
            pickers_after.take(i),
            found,
        ) && #[trigger] one_called(
            pickers[i],
            info,
            found,
            PickerCall::Pick { picked: Some(block) },
            pickers_after[i],
            after,
        )
    &&& pickers.skip(i + 1) == pickers_after.skip(i + 1)
}

/// The pickers were asked in order until one picked a block.
pub open spec fn asked_to_pick<P: EvictionPicker>(
    pickers: Seq<P>,
    info: EvictionView,
    before: Seq<BlockStatistics>,
    picked: Option<BlockId>,
    pickers_after: Seq<P>,
    after: Seq<BlockStatistics>,
) -> bool {
    &&& pickers_after.len() == pickers.len()
    &&& match picked {
        Some(block) => exists|i: int|
            0 <= i < pickers.len() && #[trigger] picked_by(
                pickers,
                info,
                before,
                block,
                pickers_after,
                after,
                i,
            ),
        None => all_called(
            pickers,
            info,
            before,
            PickerCall::Pick { picked: None },
            pickers_after,
            after,
        ),
    }
}

/// All pickers are told something.
pub open spec fn told_step<P: EvictionPicker, C, R>(
    before: ManagerView<P, C, R>,
    call: PickerCall,
    after: ManagerView<P, C, R>,
) -> bool {
    &&& after == before.told(after.pickers, after.statistics)
    &&& all_called(
        before.pickers,
        before.info(),
        before.statistics,
        call,
        after.pickers,
        after.statistics,
    )
}

/// A block leaves the evictable ones, and the pickers are told.
pub open spec fn evict_step<P: EvictionPicker, C, R>(
    before: ManagerView<P, C, R>,
    id: BlockId,
    after: ManagerView<P, C, R>,
) -> bool {
    &&& before.evictable.contains(id)
    &&& told_step(before.evicted(id), PickerCall::Evict { block: id }, after)
}

/// The pickers are asked to pick a block.
pub open spec fn asked_step<P: EvictionPicker, C, R>(
    before: ManagerView<P, C, R>,
    picked: Option<BlockId>,
    after: ManagerView<P, C, R>,
) -> bool {
    &&& after == before.told(after.pickers, after.statistics)
    &&& asked_to_pick(
        before.pickers,
        before.info(),
        before.statistics,
        picked,
        after.pickers,
        after.statistics,
    )
}

/// Block `id` is picked. The pickers, asked in order, decide; if none of them does, any evictable
/// block may be taken.
pub open spec fn picked_step<P: EvictionPicker, C, R>(
    before: ManagerView<P, C, R>,
    id: BlockId,
    after: ManagerView<P, C, R>,
) -> bool {
    &&& {
        ||| asked_step(before, Some(id), after)
        ||| asked_step(before, None, after) && before.evictable.contains(id)
    }
}

/// A block is picked and put under reclamation.
pub open spec fn reclaim_started<P: EvictionPicker, C, R>(
    before: ManagerView<P, C, R>,
    reclaiming: ReclaimingBlock,
    after: ManagerView<P, C, R>,
) -> bool {
    let id = reclaiming@.block.id;
    exists|picked: ManagerView<P, C, R>| #[trigger]
        picked_step(before, id, picked) && reclaim_block_step(
            picked,
            id,
            true,
            Some(reclaiming),
            after,
        )
}

/// The pickers, asked in order, picked a block that is not evictable.
pub open spec fn invalid_pick_step<P: EvictionPicker, C, R>(
    before: ManagerView<P, C, R>,
    id: BlockId,
    after: ManagerView<P, C, R>,
) -> bool {
    &&& !before.evictable.contains(id)
    &&& picked_step(before, id, after)
}

/// What becomes of the decision whether to reclaim a block.
pub open spec fn reclaim_step<P: EvictionPicker, C, R>(
    before: ManagerView<P, C, R>,
    reclaim: Reclaim,
    after: ManagerView<P, C, R>,
) -> bool {
    match reclaim {
        Reclaim::NotNeeded => !before.wants_reclaim() && after == before,
        Reclaim::Start(block) => before.wants_reclaim() && reclaim_started(before, block, after),
        Reclaim::InvalidPick(id) => before.wants_reclaim() && invalid_pick_step(
            before,
            id,
            after,
        ),
    }
}

/// Block `id` is put under reclamation, if it is evictable.
pub open spec fn reclaim_block_step<P: EvictionPicker, C, R>(
    before: ManagerView<P, C, R>,
    id: BlockId,
    reinsert: bool,
    reclaiming: Option<ReclaimingBlock>,
    after: ManagerView<P, C, R>,
) -> bool {
    match reclaiming {
        Some(reclaiming) => {
            let evicted = before.evicted(id).told(after.pickers, after.statistics);
            &&& evict_step(before, id, evicted)
            &&& reclaiming@ == (ReclaimingView { block: before.blocks[id as int], reinsert })
            &&& after == evicted.reclaiming_too(id)
        },
        None => !before.evictable.contains(id) && after == before,
    }
}

/// Block `id` is put under reclamation on request, or the request is refused.
pub open spec fn force_reclaim_step<P: EvictionPicker, C, R>(
    before: ManagerView<P, C, R>,
    id: BlockId,
    expected_generation: u64,
    reclaiming: Result<ReclaimingBlock, ForceReclaimError>,
    after: ManagerView<P, C, R>,
) -> bool {
    match reclaiming {
        Ok(reclaiming) => {
            &&& before.reclaim_refusal(id, expected_generation) is None
            &&& reclaim_block_step(before, id, false, Some(reclaiming), after)
        },
        Err(error) => {
            &&& before.reclaim_refusal(id, expected_generation) == Some(error)
            &&& after == before
        },
    }
}

/// The first clean block is handed out, and then a block may be picked for reclamation. If no block
/// is clean, `waiter` waits for one.
pub open spec fn clean_block_step<P: EvictionPicker, C, R>(
    before: ManagerView<P, C, R>,
    waiter: C,
    clean: Option<CleanBlock>,
    after: ManagerView<P, C, R>,
) -> bool {
    match clean {
        Some(clean) => {
            let id = before.clean[0];
            let taken = before.clean_block_taken();
            &&& before.clean.len() > 0
            &&& clean.block@ == before.blocks[id as int]
            &&& clean.event == taken.event(id, BlockState::Writing)
            &&& reclaim_step(taken, clean.reclaim, after)
        },
        None => {
            &&& before.clean.len() == 0
            &&& after == (ManagerView { clean_waiters: before.clean_waiters.push(waiter), ..before })
        },
    }
}

/// Block `id` becomes evictable and the pickers are told, and then a block may be picked for
/// reclamation.
pub open spec fn writing_finish_step<P: EvictionPicker, C, R>(
    before: ManagerView<P, C, R>,
    id: BlockId,
    written: WrittenBlock,
    after: ManagerView<P, C, R>,
) -> bool {
    &&& written.event == before.event(id, BlockState::Evictable)
    &&& exists|told: ManagerView<P, C, R>| #[trigger]
        told_step(before.written(id), PickerCall::Evictable { block: id }, told) && reclaim_step(
            told,
            written.reclaim,
            after,
        )
}

/// Block `id` goes to the last one who waits for a clean block or becomes clean, and then a block may
/// be picked for reclamation. If after that nothing is being reclaimed, all who waited for it are
/// told.
pub open spec fn reclaim_finish_step<P: EvictionPicker, C, R>(
    before: ManagerView<P, C, R>,
    id: BlockId,
    reclaimed: ReclaimedBlock<C, R>,
    after: ManagerView<P, C, R>,
) -> bool {
    &&& reclaimed.block@ == before.blocks[id as int]
    &&& reclaimed.waiter == before.next_waiter()
    &&& reclaimed.event == before.reclaimed(id).event(
        id,
        if reclaimed.waiter is Some {
            BlockState::Writing
        } else {
            BlockState::Clean
        },
    )
    &&& exists|settled: ManagerView<P, C, R>| #[trigger]
        reclaim_step(before.reclaimed(id), reclaimed.reclaim, settled) && after
            == settled.reclaim_waiters_told() && reclaimed.reclaim_waiters@ == (
        if settled.reclaiming.is_empty() {
            settled.reclaim_waiters
        } else {
            Seq::empty()
        })
}

/// `waiter` waits until nothing is being reclaimed, or is handed back if that is so already.
pub open spec fn wait_reclaim_step<P, C, R>(
    before: ManagerView<P, C, R>,
    waiter: R,
    ready: Option<R>,
    after: ManagerView<P, C, R>,
) -> bool {
    match ready {
        Some(handed_back) => {
            &&& before.reclaiming.is_empty()
            &&& handed_back == waiter
            &&& after == before
        },
        None => {
            &&& !before.reclaiming.is_empty()
            &&& after == (ManagerView {
                reclaim_waiters: before.reclaim_waiters.push(waiter),
                ..before
            })
        },
    }
}

/// The statistics of block `id` are set, and nothing else.
pub open spec fn statistics_step<P, C, R>(
    before: ManagerView<P, C, R>,
    id: BlockId,
    statistics: BlockStatistics,
    after: ManagerView<P, C, R>,
) -> bool {
    after == (ManagerView {
        statistics: before.statistics.update(id as int, statistics),
        ..before
    })
}

/// The blocks of `occupied` become evictable, one after the other, and the pickers are told of each.
pub open spec fn occupied_step<P: EvictionPicker, C, R>(
    before: ManagerView<P, C, R>,
    occupied: Seq<BlockId>,
    after: ManagerView<P, C, R>,
) -> bool
    decreases occupied.len(),
{
    if occupied.len() == 0 {
        after == before
    } else {
        exists|middle: ManagerView<P, C, R>|
            occupied_step(before, occupied.drop_last(), middle) && #[trigger] told_step(
                middle.evictable_too(occupied.last()),
                PickerCall::Evictable { block: occupied.last() },
                after,
            )
    }
}

/// A recovery found `clean` to be the clean blocks. All other blocks become evictable, by ascending
/// identifier.
pub open spec fn recovery_step<P: EvictionPicker, C, R>(
    before: ManagerView<P, C, R>,
    clean: Seq<BlockId>,
    after: ManagerView<P, C, R>,
) -> bool {
    occupied_step(ManagerView { clean, ..before }, before.occupied(clean), after)
}

/// Pickers keep the number of statistics, and without pickers the statistics stay as they are.
pub proof fn lemma_all_called<P: EvictionPicker>(
    pickers: Seq<P>,
    info: EvictionView,
    before: Seq<BlockStatistics>,
    call: PickerCall,
    pickers_after: Seq<P>,
    after: Seq<BlockStatistics>,
)
    requires
        all_called(pickers, info, before, call, pickers_after, after),
    ensures
        after.len() == before.len(),
        pickers_after.len() == pickers.len(),
        pickers.len() == 0 ==> after == before,
    decreases pickers.len(),
{
    if pickers.len() > 0 {
        let found = choose|found: Seq<BlockStatistics>|
            all_called(
                pickers.drop_last(),
                info,
                before,
                call,
                pickers_after.drop_last(),
                found,
            ) && #[trigger] one_called(
                pickers.last(),
                info,
                found,
                call,
                pickers_after.last(),
                after,
            );
        lemma_all_called(
            pickers.drop_last(),
            info,
            before,
            call,
            pickers_after.drop_last(),
            found,
        );
    }
}

/// What asking the pickers keeps.
pub proof fn lemma_asked_step<P: EvictionPicker, C, R>(
    before: ManagerView<P, C, R>,
    picked: Option<BlockId>,
    after: ManagerView<P, C, R>,
)
    requires
        asked_step(before, picked, after),
    ensures
        after.statistics.len() == before.statistics.len(),
        after.pickers.len() == before.pickers.len(),
        before.pickers.len() == 0 ==> after == before,
{
    let none = PickerCall::Pick { picked: None };
    match picked {
        Some(block) => {
            let i = choose|i: int|
                0 <= i < before.pickers.len() && #[trigger] picked_by(
                    before.pickers,
                    before.info(),
                    before.statistics,
                    block,
                    after.pickers,
                    after.statistics,
                    i,
                );
            let found = choose|found: Seq<BlockStatistics>|
                all_called(
                    before.pickers.take(i),
                    before.info(),
                    before.statistics,
                    none,
                    after.pickers.take(i),
                    found,
                ) && #[trigger] one_called(
                    before.pickers[i],
                    before.info(),
                    found,
                    PickerCall::Pick { picked: Some(block) },
                    after.pickers[i],
                    after.statistics,
                );
            lemma_all_called(
                before.pickers.take(i),
                before.info(),
                before.statistics,
                none,
                after.pickers.take(i),
                found,
            );
        },
        None => {
            lemma_all_called(
                before.pickers,
                before.info(),
                before.statistics,
                none,
                after.pickers,
                after.statistics,
            );
            if before.pickers.len() == 0 {
                assert(after.pickers =~= before.pickers);
            }
        },
    }
}

/// What telling the pickers keeps.
pub proof fn lemma_told_step<P: EvictionPicker, C, R>(
    before: ManagerView<P, C, R>,
    call: PickerCall,
    after: ManagerView<P, C, R>,
)
    requires
        told_step(before, call, after),
    ensures
        after.statistics.len() == before.statistics.len(),
        after.pickers.len() == before.pickers.len(),
        before.pickers.len() == 0 ==> after == before,
{
    lemma_all_called(
        before.pickers,
        before.info(),
        before.statistics,
        call,
        after.pickers,
        after.statistics,
    );
    if before.pickers.len() == 0 {
        assert(after.pickers =~= before.pickers);
    }
}

/// What a recovery does to the states of blocks.
pub proof fn lemma_occupied_step<P: EvictionPicker, C, R>(
    before: ManagerView<P, C, R>,
    occupied: Seq<BlockId>,
    after: ManagerView<P, C, R>,
)
    requires
        occupied_step(before, occupied, after),
    ensures
        forall|id: BlockId| #[trigger]
            after.evictable.contains(id) <==> before.evictable.contains(id) || occupied.contains(
                id,
            ),
        after.statistics.len() == before.statistics.len(),
        after == (ManagerView {
            evictable: after.evictable,
            statistics: after.statistics,
            pickers: after.pickers,
            ..before
        }),
    decreases occupied.len(),
{
    if occupied.len() > 0 {
        let last = occupied.last();
        let earlier = occupied.drop_last();
        let call = PickerCall::Evictable { block: last };
        let middle = choose|middle: ManagerView<P, C, R>|
            occupied_step(before, earlier, middle) && #[trigger] told_step(
                middle.evictable_too(last),
                call,
                after,
            );
        lemma_occupied_step(before, earlier, middle);
        lemma_told_step(middle.evictable_too(last), call, after);
        assert forall|id: BlockId| #[trigger]
            after.evictable.contains(id) <==> before.evictable.contains(id) || occupied.contains(
                id,
            ) by {
            assert(middle.evictable.contains(id) <==> before.evictable.contains(id)
                || earlier.contains(id));
            if earlier.contains(id) {
                assert(occupied[earlier.index_of(id)] == id);
            }
            if id == last {
                assert(occupied[occupied.len() - 1] == id);
            }
            if occupied.contains(id) {
                let i = occupied.index_of(id);
                assert(i < earlier.len() ==> earlier[i] == id);
            }
        }
    }
}

/// The occupied blocks are those that are not clean.
pub proof fn lemma_occupied_members<P, C, R>(clean: Seq<BlockId>, n: nat)
    requires
        n <= u32::MAX + 1,
    ensures
        forall|id: BlockId| #[trigger]
            ManagerView::<P, C, R>::occupied_below(clean, n).contains(id) <==> id < n
                && !clean.contains(id),
    decreases n,
{
    if n > 0 {
        lemma_occupied_members::<P, C, R>(clean, (n - 1) as nat);
        let before = ManagerView::<P, C, R>::occupied_below(clean, (n - 1) as nat);
        let after = ManagerView::<P, C, R>::occupied_below(clean, n);
        let last = (n - 1) as BlockId;
        assert forall|id: BlockId| #[trigger] after.contains(id) <==> id < n && !clean.contains(
            id,
        ) by {
            assert(before.contains(id) <==> id < n - 1 && !clean.contains(id));
            if !clean.contains(last) {
                assert(after == before.push(last));
                if before.contains(id) {
                    let i = before.index_of(id);
                    assert(after[i] == id);
                }
                if id == last {
                    assert(after[after.len() - 1] == id);
                }
                if after.contains(id) {
                    let i = after.index_of(id);
                    assert(i < before.len() ==> before[i] == id);
                }
            }
        }
    }
}

} // verus!
