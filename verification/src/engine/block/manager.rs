//! The blocks of a device, and who may use them.
use crate::engine::block::eviction::{EvictionInfo, EvictionPicker, EvictionView};
use crate::engine::block::lifecycle;
use crate::engine::block::lifecycle::{ManagerView, PickerCall};
use crate::engine::block::plan::BlockPlan;
use crate::engine::StorageEvent;
use rand::seq::IteratorRandom;
use std::collections::{HashSet, VecDeque};
use vstd::prelude::*;

verus! {

/// Block identifier.
pub type BlockId = u32;

/// The current lifecycle state of a block.
#[derive(Debug, Clone, Copy, PartialEq, Eq, Structural)]
pub enum BlockState {
    /// The block has not been classified during recovery yet.
    Initializing,
    /// The block contains no entries and is available for writing.
    Clean,
    /// The block is currently receiving entries.
    Writing,
    /// The block contains entries and can be selected for reclamation.
    Evictable,
    /// The block is currently being reclaimed.
    Reclaiming,
}

/// A validation failure while requesting explicit block reclamation.
#[derive(Debug, Clone, Copy, PartialEq, Eq, Structural)]
pub enum ForceReclaimError {
    /// The configured storage engine does not support block reclamation.
    Unsupported,
    /// The requested block identifier does not exist.
    OutOfRange {
        /// Requested block identifier.
        block: BlockId,
        /// Number of blocks in the engine.
        blocks: usize,
    },
    /// The block has been reused since the caller's snapshot.
    StaleGeneration {
        /// Generation supplied by the caller.
        expected: u64,
        /// Current block generation.
        actual: u64,
    },
    /// Only evictable blocks can be explicitly reclaimed.
    NotEvictable {
        /// Current lifecycle state of the block.
        state: BlockState,
    },
}

/// The decimal digits of a number.
pub open spec fn decimal(n: nat) -> Seq<char>
    decreases n,
{
    if n < 10 {
        seq![digit(n)]
    } else {
        decimal(n / 10).push(digit(n % 10))
    }
}

/// The digit for a number below ten.
pub open spec fn digit(n: nat) -> char {
    ('0' as nat + n) as char
}

impl BlockState {
    /// The name of the state.
    pub open spec fn name_of(self) -> Seq<char> {
        match self {
            BlockState::Initializing => "Initializing"@,
            BlockState::Clean => "Clean"@,
            BlockState::Writing => "Writing"@,
            BlockState::Evictable => "Evictable"@,
            BlockState::Reclaiming => "Reclaiming"@,
        }
    }

    /// The name of the state.
    pub fn name(&self) -> (name: &'static str)
        ensures
            name@ == self.name_of(),
    {
        match self {
            BlockState::Initializing => "Initializing",
            BlockState::Clean => "Clean",
            BlockState::Writing => "Writing",
            BlockState::Evictable => "Evictable",
            BlockState::Reclaiming => "Reclaiming",
        }
    }
}

impl ForceReclaimError {
    /// What the error says.
    pub open spec fn text(self) -> Seq<char> {
        match self {
            ForceReclaimError::Unsupported =>
                "block reclamation is not supported by this storage engine"@,
            ForceReclaimError::OutOfRange { block, blocks } => "block "@ + decimal(block as nat)
                + " is out of range for an engine with "@ + decimal(blocks as nat) + " blocks"@,
            ForceReclaimError::StaleGeneration { expected, actual } =>
                "block generation changed from "@ + decimal(expected as nat) + " to "@ + decimal(
                actual as nat,
            ),
            ForceReclaimError::NotEvictable { state } => "block is "@ + state.name_of()
                + ", not evictable"@,
        }
    }

    /// What the error says.
    pub fn message(&self) -> (message: String)
        ensures
            message@ == self.text(),
    {
        let mut message = String::new();
        match self {
            ForceReclaimError::Unsupported => {
                message.append("block reclamation is not supported by this storage engine");
            },
            ForceReclaimError::OutOfRange { block, blocks } => {
                message.append("block ");
                append_decimal(&mut message, *block as u64);
                message.append(" is out of range for an engine with ");
                append_decimal(&mut message, *blocks as u64);
                message.append(" blocks");
            },
            ForceReclaimError::StaleGeneration { expected, actual } => {
                message.append("block generation changed from ");
                append_decimal(&mut message, *expected);
                message.append(" to ");
                append_decimal(&mut message, *actual);
            },
            ForceReclaimError::NotEvictable { state } => {
                message.append("block is ");
                message.append(state.name());
                message.append(", not evictable");
            },
        }
        assert(message@ == self.text());
        message
    }
}

/// Appends the decimal digits of a number.
fn append_decimal(text: &mut String, n: u64)
    ensures
        final(text)@ == old(text)@ + decimal(n as nat),
    decreases n,
{
    if n >= 10 {
        append_decimal(text, n / 10);
    }
    append_digit(text, n % 10);
    assert(text@ == old(text)@ + decimal(n as nat));
}

/// Appends one decimal digit.
fn append_digit(text: &mut String, n: u64)
    requires
        n < 10,
    ensures
        final(text)@ == old(text)@.push(digit(n as nat)),
{
    let figure = match n {
        0 => "0",
        1 => "1",
        2 => "2",
        3 => "3",
        4 => "4",
        5 => "5",
        6 => "6",
        7 => "7",
        8 => "8",
        _ => "9",
    };
    proof {
        reveal_strlit("0");
        reveal_strlit("1");
        reveal_strlit("2");
        reveal_strlit("3");
        reveal_strlit("4");
        reveal_strlit("5");
        reveal_strlit("6");
        reveal_strlit("7");
        reveal_strlit("8");
        reveal_strlit("9");
    }
    assert(figure@ == seq![digit(n as nat)]);
    text.append(figure);
    assert(text@ == old(text)@.push(digit(n as nat)));
}

/// A consistent, read-only snapshot of a block's physical state.
#[derive(Debug, Clone, Copy, PartialEq, Eq, Structural)]
pub struct BlockSnapshot {
    /// Block identifier within this engine.
    pub id: BlockId,
    /// Total block capacity in bytes.
    pub size: usize,
    /// Current lifecycle state.
    pub state: BlockState,
    /// Process-local allocation generation.
    pub generation: u64,
    /// Number of entries currently pointing into this block.
    pub live_entries: usize,
    /// Page-aligned bytes occupied by currently indexed entries.
    pub live_bytes: usize,
    /// Estimated bytes invalidated by replacement or deletion.
    pub invalid_bytes: usize,
    /// Number of accesses recorded for this block.
    pub accesses: usize,
    /// Whether the block is marked for eviction probation.
    pub probation: bool,
}

/// Block statistics.
#[derive(Debug, Clone, Copy, PartialEq, Eq, Structural)]
pub struct BlockStatistics {
    /// Estimated invalid bytes in the block.
    pub invalid: usize,
    /// Access count of the block.
    pub access: usize,
    /// Marked as `true` if the block is about to be evicted by some eviction picker.
    pub probation: bool,
}

/// The statistics of a block that was never used.
pub open spec fn unused_statistics() -> BlockStatistics {
    BlockStatistics { invalid: 0, access: 0, probation: false }
}

impl Default for BlockStatistics {
    fn default() -> (statistics: Self)
        ensures
            statistics == unused_statistics(),
    {
        BlockStatistics { invalid: 0, access: 0, probation: false }
    }
}

impl BlockStatistics {
    /// Forget all use of the block.
    pub fn reset(&mut self)
        ensures
            *final(self) == unused_statistics(),
    {
        self.invalid = 0;
        self.access = 0;
        self.probation = false;
    }
}

/// A block is a logical partition of a device. It is used to manage the device's storage space.
///
/// The statistics of a block are kept once, by its [`BlockManager`]. All copies of a block share them.
#[derive(Debug, Clone, Copy)]
pub struct Block {
    id: BlockId,
    size: usize,
}

/// What a [`Block`] is.
pub struct BlockView {
    pub id: BlockId,
    pub size: usize,
}

impl View for Block {
    type V = BlockView;

    closed spec fn view(&self) -> BlockView {
        BlockView { id: self.id, size: self.size }
    }
}

/// What a number of blocks are.
pub open spec fn views(blocks: Seq<Block>) -> Seq<BlockView> {
    blocks.map_values(|block: Block| block@)
}

impl Block {
    /// A block over a partition of the given size.
    pub fn new(id: BlockId, size: usize) -> (block: Self)
        ensures
            block@ == (BlockView { id, size }),
    {
        Block { id, size }
    }

    /// Get block id.
    pub fn id(&self) -> (id: BlockId)
        ensures
            id == self@.id,
    {
        self.id
    }

    /// Get block Statistics, out of those of all blocks of a manager.
    pub fn statistics<'a>(&self, statistics: &'a [BlockStatistics]) -> (own: &'a BlockStatistics)
        requires
            lifecycle::in_range(self@.id, statistics@.len()),
        ensures
            *own == statistics@[self@.id as int],
    {
        &statistics[self.id as usize]
    }

    /// Get block size.
    pub fn size(&self) -> (size: usize)
        ensures
            size == self@.size,
    {
        self.size
    }
}

/// A block that is under reclamation.
#[derive(Debug, Clone, Copy)]
pub struct ReclaimingBlock {
    block: Block,
    reinsert: bool,
}

/// What a [`ReclaimingBlock`] is.
pub struct ReclaimingView {
    pub block: BlockView,
    pub reinsert: bool,
}

impl View for ReclaimingBlock {
    type V = ReclaimingView;

    closed spec fn view(&self) -> ReclaimingView {
        ReclaimingView { block: self.block@, reinsert: self.reinsert }
    }
}

impl ReclaimingBlock {
    /// The block.
    pub fn block(&self) -> (block: &Block)
        ensures
            block@ == self@.block,
    {
        &self.block
    }

    /// Whether entries of the block may be picked for reinsertion.
    pub fn reinsert(&self) -> (reinsert: bool)
        ensures
            reinsert == self@.reinsert,
    {
        self.reinsert
    }
}

/// Whether a reclamation is to be started.
#[derive(Debug, Clone, Copy)]
pub enum Reclaim {
    /// There is nothing to reclaim, or no need to.
    NotNeeded,
    /// The block is under reclamation now, and its reclamation is to be started.
    Start(ReclaimingBlock),
    /// An eviction picker picked a block that is not evictable.
    InvalidPick(BlockId),
}

/// Tells all pickers something.
fn tell_all<P: EvictionPicker>(
    pickers: &mut Vec<P>,
    blocks: &Vec<Block>,
    statistics: &mut Vec<BlockStatistics>,
    evictable: &HashSet<BlockId>,
    clean: usize,
    call: PickerCall,
)
    requires
        call !is Pick,
    ensures
        lifecycle::all_called(
            old(pickers)@,
            (EvictionView { blocks: views(blocks@), evictable: evictable@, clean: clean as int }),
            old(statistics)@,
            call,
            final(pickers)@,
            final(statistics)@,
        ),
{
    let ghost before = pickers@;
    let ghost start = statistics@;
    let ghost info = EvictionView {
        blocks: views(blocks@),
        evictable: evictable@,
        clean: clean as int,
    };
    let mut i: usize = 0;
    while i < pickers.len()
        invariant
            i <= pickers.len() == before.len(),
            call !is Pick,
            info == (EvictionView {
                blocks: views(blocks@),
                evictable: evictable@,
                clean: clean as int,
            }),
            lifecycle::all_called(
                before.take(i as int),
                info,
                start,
                call,
                pickers@.take(i as int),
                statistics@,
            ),
            pickers@.skip(i as int) == before.skip(i as int),
        decreases pickers.len() - i,
    {
        let ghost found = statistics@;
        let ghost previous = pickers@;
        let shown = EvictionInfo { blocks: blocks.as_slice(), evictable, clean };
        match call {
            PickerCall::Evictable { block } => {
                pickers[i].on_block_evictable(shown, statistics.as_mut_slice(), block);
            },
            PickerCall::Evict { block } => {
                pickers[i].on_block_evict(shown, statistics.as_mut_slice(), block);
            },
            PickerCall::Pick { .. } => {},
        }
        proof {
            lemma_next_called(
                before,
                info,
                start,
                call,
                previous,
                found,
                pickers@,
                statistics@,
                i,
            );
        }
        i = i + 1;
    }
    assert(before.take(i as int) == before);
    assert(pickers@.take(i as int) == pickers@);
}

/// One more picker is called.
proof fn lemma_next_called<P: EvictionPicker>(
    before: Seq<P>,
    info: EvictionView,
    start: Seq<BlockStatistics>,
    call: PickerCall,
    previous: Seq<P>,
    found: Seq<BlockStatistics>,
    now: Seq<P>,
    left: Seq<BlockStatistics>,
    i: usize,
)
    requires
        i < before.len() == previous.len(),
        now == previous.update(i as int, now[i as int]),
        previous.skip(i as int) == before.skip(i as int),
        lifecycle::all_called(
            before.take(i as int),
            info,
            start,
            call,
            previous.take(i as int),
            found,
        ),
        lifecycle::one_called(previous[i as int], info, found, call, now[i as int], left),
    ensures
        lifecycle::all_called(before.take(i + 1), info, start, call, now.take(i + 1), left),
        now.skip(i + 1) == before.skip(i + 1),
{
    assert(previous[i as int] == previous.skip(i as int)[0]);
    assert(before[i as int] == before.skip(i as int)[0]);
    assert(before.take(i + 1).drop_last() == before.take(i as int));
    assert(now.take(i + 1).drop_last() == previous.take(i as int));
    assert(before.take(i + 1).last() == before[i as int]);
    assert(now.take(i + 1).last() == now[i as int]);
    assert forall|j: int| i + 1 <= j < before.len() implies #[trigger] now[j] == before[j] by {
        assert(previous.skip(i as int)[j - i] == before.skip(i as int)[j - i]);
    }
    assert(now.skip(i + 1) =~= before.skip(i + 1));
}

/// Asks the pickers in order until one of them picks a block.
fn ask_to_pick<P: EvictionPicker>(
    pickers: &mut Vec<P>,
    blocks: &Vec<Block>,
    statistics: &mut Vec<BlockStatistics>,
    evictable: &HashSet<BlockId>,
    clean: usize,
) -> (picked: Option<BlockId>)
    ensures
        lifecycle::asked_to_pick(
            old(pickers)@,
            (EvictionView { blocks: views(blocks@), evictable: evictable@, clean: clean as int }),
            old(statistics)@,
            picked,
            final(pickers)@,
            final(statistics)@,
        ),
{
    let ghost before = pickers@;
    let ghost start = statistics@;
    let ghost info = EvictionView {
        blocks: views(blocks@),
        evictable: evictable@,
        clean: clean as int,
    };
    let ghost none = PickerCall::Pick { picked: None };
    let mut i: usize = 0;
    while i < pickers.len()
        invariant
            i <= pickers.len() == before.len(),
            before == old(pickers)@,
            start == old(statistics)@,
            none == (PickerCall::Pick { picked: None }),
            info == (EvictionView {
                blocks: views(blocks@),
                evictable: evictable@,
                clean: clean as int,
            }),
            lifecycle::all_called(
                before.take(i as int),
                info,
                start,
                none,
                pickers@.take(i as int),
                statistics@,
            ),
            pickers@.skip(i as int) == before.skip(i as int),
        decreases pickers.len() - i,
    {
        let ghost found = statistics@;
        let ghost previous = pickers@;
        let picked = pickers[i].pick(
            EvictionInfo { blocks: blocks.as_slice(), evictable, clean },
            statistics.as_mut_slice(),
        );
        if let Some(block) = picked {
            proof {
                assert(previous[i as int] == previous.skip(i as int)[0]);
                assert(before[i as int] == before.skip(i as int)[0]);
                assert(pickers@.take(i as int) == previous.take(i as int));
                assert forall|j: int| i + 1 <= j < before.len() implies #[trigger] pickers@[j]
                    == before[j] by {
                    assert(previous.skip(i as int)[j - i] == before.skip(i as int)[j - i]);
                }
                assert(before.skip(i + 1) == pickers@.skip(i + 1));
                assert(lifecycle::one_called(
                    before[i as int],
                    info,
                    found,
                    PickerCall::Pick { picked: Some(block) },
                    pickers@[i as int],
                    statistics@,
                ));
                assert(lifecycle::picked_by(
                    before,
                    info,
                    start,
                    block,
                    pickers@,
                    statistics@,
                    i as int,
                ));
            }
            return Some(block);
        }
        proof {
            lemma_next_called(
                before,
                info,
                start,
                none,
                previous,
                found,
                pickers@,
                statistics@,
                i,
            );
        }
        i = i + 1;
    }
    assert(before.take(i as int) == before);
    assert(pickers@.take(i as int) == pickers@);
    None
}

/// Calls `IteratorRandom::choose` of `rand` on the members of a set, with the generator that
/// `rand::rng` gives: it chooses one of them, and none only if there is none. Which one is left to
/// chance. `rand::rng` panics where the system cannot seed the generator, which no set causes.
#[verifier::external_body]
fn choose_block(evictable: &HashSet<BlockId>) -> (chosen: Option<BlockId>)
    ensures
        match chosen {
            Some(id) => evictable@.contains(id),
            None => evictable@.is_empty(),
        },
{
    evictable.iter().choose(&mut rand::rng()).copied()
}

/// Manages the blocks of a device: which of them are clean, being written, evictable, or being
/// reclaimed, and who waits for them.
///
/// `P` picks blocks for eviction, `C` is a handle to one who waits for a clean block, and `R` is a
/// handle to one who waits until nothing is being reclaimed.
pub struct BlockManager<P, C, R> {
    blocks: Vec<Block>,
    statistics: Vec<BlockStatistics>,
    generations: Vec<u64>,
    clean_blocks: VecDeque<BlockId>,
    evictable_blocks: HashSet<BlockId>,
    writing_blocks: HashSet<BlockId>,
    reclaiming_blocks: HashSet<BlockId>,
    clean_block_waiters: Vec<C>,
    eviction_pickers: Vec<P>,
    reclaim_waiters: Vec<R>,
    reclaim_concurrency: usize,
    clean_block_threshold: usize,
}

impl<P, C, R> View for BlockManager<P, C, R> {
    type V = ManagerView<P, C, R>;

    closed spec fn view(&self) -> ManagerView<P, C, R> {
        ManagerView {
            blocks: views(self.blocks@),
            statistics: self.statistics@,
            generations: self.generations@,
            clean: self.clean_blocks@,
            evictable: self.evictable_blocks@,
            writing: self.writing_blocks@,
            reclaiming: self.reclaiming_blocks@,
            clean_waiters: self.clean_block_waiters@,
            reclaim_waiters: self.reclaim_waiters@,
            pickers: self.eviction_pickers@,
            reclaim_concurrency: self.reclaim_concurrency,
            clean_block_threshold: self.clean_block_threshold,
        }
    }
}

/// A clean block that was handed out for writing.
#[derive(Debug, Clone, Copy)]
pub struct CleanBlock {
    /// The block.
    pub block: Block,
    /// The event to emit.
    pub event: StorageEvent,
    /// Whether a reclamation is to be started, once the event is emitted.
    pub reclaim: Reclaim,
}

/// A block that became evictable.
#[derive(Debug, Clone, Copy)]
pub struct WrittenBlock {
    /// The event to emit.
    pub event: StorageEvent,
    /// Whether a reclamation is to be started, once the event is emitted.
    pub reclaim: Reclaim,
}

/// A block whose reclamation is finished.
pub struct ReclaimedBlock<C, R> {
    /// The block.
    pub block: Block,
    /// Those who waited until nothing is being reclaimed, if nothing is.
    pub reclaim_waiters: Vec<R>,
    /// The event to emit.
    pub event: StorageEvent,
    /// Who gets the block, if somebody waited for it.
    pub waiter: Option<C>,
    /// Whether a reclamation is to be started, once the event is emitted.
    pub reclaim: Reclaim,
}

impl<P: EvictionPicker, C, R> BlockManager<P, C, R> {
    /// Manage the blocks of a plan. All blocks are to be classified by a recovery.
    pub fn open(
        plan: BlockPlan,
        eviction_pickers: Vec<P>,
        reclaim_concurrency: usize,
        clean_block_threshold: usize,
    ) -> (manager: Self)
        requires
            plan@.wf(),
        ensures
            manager@.wf(),
            lifecycle::inited(
                eviction_pickers@,
                plan@.blocks.len(),
                plan@.block_size,
                manager@.pickers,
            ),
            manager@ == lifecycle::opened::<P, C, R>(
                plan@.blocks,
                manager@.pickers,
                reclaim_concurrency,
                clean_block_threshold,
            ),
    {
        let mut eviction_pickers = eviction_pickers;
        let ghost given = eviction_pickers@;
        let ghost view = plan@;
        let (block_size, blocks) = plan.into_parts();
        let mut ids: Vec<BlockId> = Vec::new();
        let mut statistics: Vec<BlockStatistics> = Vec::new();
        let mut generations: Vec<u64> = Vec::new();
        let mut n: usize = 0;
        while n < blocks.len()
            invariant
                view.wf(),
                view.blocks == views(blocks@),
                n <= blocks.len(),
                ids@ == lifecycle::all_ids(n as nat),
                statistics@ == Seq::new(n as nat, |i: int| unused_statistics()),
                generations@ == Seq::new(n as nat, |i: int| 0u64),
            decreases blocks.len() - n,
        {
            assert(view.blocks[n as int].id == n);
            ids.push(blocks[n].id);
            statistics.push(BlockStatistics::default());
            generations.push(0);
            n = n + 1;
        }
        let mut i: usize = 0;
        while i < eviction_pickers.len()
            invariant
                i <= eviction_pickers.len() == given.len(),
                forall|j: int|
                    0 <= j < i ==> P::init_step(
                        #[trigger] given[j],
                        ids@,
                        block_size,
                        #[trigger] eviction_pickers@[j],
                    ),
                forall|j: int|
                    i <= j < given.len() ==> #[trigger] eviction_pickers@[j] == given[j],
            decreases eviction_pickers.len() - i,
        {
            eviction_pickers[i].init(ids.as_slice(), block_size);
            i = i + 1;
        }
        BlockManager {
            blocks,
            statistics,
            generations,
            clean_blocks: VecDeque::new(),
            evictable_blocks: HashSet::new(),
            writing_blocks: HashSet::new(),
            reclaiming_blocks: HashSet::new(),
            clean_block_waiters: Vec::new(),
            eviction_pickers,
            reclaim_waiters: Vec::new(),
            reclaim_concurrency,
            clean_block_threshold,
        }
    }

    /// Whether the clean blocks include a block.
    fn is_clean(&self, id: BlockId) -> (clean: bool)
        ensures
            clean == self@.clean.contains(id),
    {
        let mut i: usize = 0;
        while i < self.clean_blocks.len()
            invariant
                i <= self.clean_blocks@.len(),
                forall|j: int| 0 <= j < i ==> self.clean_blocks@[j] != id,
            decreases self.clean_blocks@.len() - i,
        {
            if self.clean_blocks[i] == id {
                assert(self.clean_blocks@[i as int] == id);
                return true;
            }
            i = i + 1;
        }
        false
    }

    /// The lifecycle state of a block.
    pub fn block_state(&self, id: BlockId) -> (state: BlockState)
        ensures
            state == self@.state_of(id),
    {
        broadcast use vstd::std_specs::hash::group_hash_axioms;

        if self.is_clean(id) {
            BlockState::Clean
        } else if self.writing_blocks.contains(&id) {
            BlockState::Writing
        } else if self.evictable_blocks.contains(&id) {
            BlockState::Evictable
        } else if self.reclaiming_blocks.contains(&id) {
            BlockState::Reclaiming
        } else {
            BlockState::Initializing
        }
    }

    /// Whether a block can be selected for reclamation.
    pub fn is_evictable(&self, id: BlockId) -> (evictable: bool)
        ensures
            evictable == self@.evictable.contains(id),
    {
        broadcast use vstd::std_specs::hash::group_hash_axioms;

        self.evictable_blocks.contains(&id)
    }

    /// Tell all pickers something.
    fn tell(&mut self, call: PickerCall)
        requires
            call !is Pick,
        ensures
            lifecycle::told_step(old(self)@, call, final(self)@),
            final(self)@.statistics.len() == old(self)@.statistics.len(),
    {
        let ghost before = self@;
        let clean: usize = self.clean_blocks.len();
        tell_all(
            &mut self.eviction_pickers,
            &self.blocks,
            &mut self.statistics,
            &self.evictable_blocks,
            clean,
            call,
        );
        assert(self@ == before.told(self@.pickers, self@.statistics));
        proof {
            lifecycle::lemma_told_step(before, call, self@);
        }
    }

    /// Evict a block: it is no longer evictable, and the pickers are told so. Return `false` and do
    /// nothing if the block is not evictable.
    fn evict_block(&mut self, id: BlockId) -> (evicted: bool)
        requires
            old(self)@.wf(),
        ensures
            final(self)@.wf(),
            evicted == old(self)@.evictable.contains(id),
            evicted ==> lifecycle::evict_step(old(self)@, id, final(self)@),
            !evicted ==> final(self)@ == old(self)@,
    {
        broadcast use vstd::std_specs::hash::group_hash_axioms;

        let ghost before = self@;
        let removed = self.evictable_blocks.remove(&id);
        if !removed {
            assert(self@ == before);
            return false;
        }
        assert(self@ == before.evicted(id));
        self.tell(PickerCall::Evict { block: id });
        true
    }

    /// Put a block under reclamation, where `reinsert` tells whether its entries may be picked for
    /// reinsertion. Return `None` and do nothing if the block is not evictable.
    pub fn reclaim_block(&mut self, id: BlockId, reinsert: bool) -> (reclaiming: Option<
        ReclaimingBlock,
    >)
        requires
            old(self)@.wf(),
        ensures
            final(self)@.wf(),
            lifecycle::reclaim_block_step(old(self)@, id, reinsert, reclaiming, final(self)@),
    {
        broadcast use vstd::std_specs::hash::group_hash_axioms;

        if !self.evict_block(id) {
            return None;
        }
        let ghost evicted = self@;
        self.reclaiming_blocks.insert(id);
        assert(self@ == evicted.reclaiming_too(id));
        Some(ReclaimingBlock { block: self.blocks[id as usize], reinsert })
    }

    /// Pick a block to evict: the one that the pickers, asked in order, pick, or any evictable block
    /// if they pick none. Return `None` if no block is evictable.
    fn pick(&mut self) -> (choice: Option<BlockId>)
        requires
            old(self)@.wf(),
        ensures
            final(self)@.wf(),
            match choice {
                Some(id) => !old(self)@.evictable.is_empty() && lifecycle::picked_step(
                    old(self)@,
                    id,
                    final(self)@,
                ),
                None => old(self)@.evictable.is_empty() && final(self)@ == old(self)@,
            },
    {
        let ghost before = self@;
        if self.evictable_blocks.is_empty() {
            return None;
        }
        let clean: usize = self.clean_blocks.len();
        let picked = ask_to_pick(
            &mut self.eviction_pickers,
            &self.blocks,
            &mut self.statistics,
            &self.evictable_blocks,
            clean,
        );
        assert(self@ == before.told(self@.pickers, self@.statistics));
        assert(lifecycle::asked_step(before, picked, self@));
        proof {
            lifecycle::lemma_asked_step(before, picked, self@);
        }
        match picked {
            Some(id) => Some(id),
            None => choose_block(&self.evictable_blocks),
        }
    }

    /// Put a block under reclamation if there are too few clean blocks and not too many are under
    /// reclamation already.
    pub fn reclaim_if_needed(&mut self) -> (reclaim: Reclaim)
        requires
            old(self)@.wf(),
        ensures
            final(self)@.wf(),
            lifecycle::reclaim_step(old(self)@, reclaim, final(self)@),
    {
        broadcast use vstd::std_specs::hash::group_hash_axioms;

        let ghost before = self@;
        if self.clean_blocks.len() < self.clean_block_threshold && self.reclaiming_blocks.len()
            < self.reclaim_concurrency {
            if let Some(id) = self.pick() {
                let ghost picked = self@;
                match self.reclaim_block(id, true) {
                    Some(reclaiming) => {
                        assert(lifecycle::picked_step(before, id, picked));
                        assert(reclaiming@.block.id == id);
                        return Reclaim::Start(reclaiming);
                    },
                    None => {
                        return Reclaim::InvalidPick(id);
                    },
                }
            }
        }
        Reclaim::NotNeeded
    }

    /// The identifier of the clean block that is handed out next.
    pub fn next_clean_block(&self) -> (id: Option<BlockId>)
        ensures
            id == (if self@.clean.len() > 0 {
                Some(self@.clean[0])
            } else {
                None
            }),
    {
        if self.clean_blocks.len() > 0 {
            Some(self.clean_blocks[0])
        } else {
            None
        }
    }

    /// Hand out the next clean block for writing. If there is none, `waiter` waits for one.
    pub fn get_clean_block(&mut self, waiter: C) -> (clean: Option<CleanBlock>)
        requires
            old(self)@.wf(),
            old(self)@.next_clean_exists(),
        ensures
            final(self)@.wf(),
            lifecycle::clean_block_step(old(self)@, waiter, clean, final(self)@),
    {
        broadcast use vstd::std_specs::hash::group_hash_axioms;

        let ghost before = self@;
        let Some(id) = self.clean_blocks.pop_front() else {
            self.clean_block_waiters.push(waiter);
            assert(self@ == (ManagerView {
                clean_waiters: before.clean_waiters.push(waiter),
                ..before
            }));
            return None;
        };
        assert(before.clean[0] == id);
        let generation: u64 = self.generations[id as usize].wrapping_add(1);
        self.generations.set(id as usize, generation);
        self.writing_blocks.insert(id);
        assert(self@ == before.clean_block_taken());
        let reclaim = self.reclaim_if_needed();
        let event = StorageEvent::BlockStateChanged {
            block: id,
            generation,
            state: BlockState::Writing,
        };
        Some(CleanBlock { block: self.blocks[id as usize], event, reclaim })
    }

    /// Note that writing a block is finished: the block becomes evictable.
    pub fn on_writing_finish(&mut self, block: Block) -> (written: WrittenBlock)
        requires
            old(self)@.wf(),
            lifecycle::in_range(block@.id, old(self)@.blocks.len()),
            !old(self)@.evictable.contains(block@.id),
        ensures
            final(self)@.wf(),
            lifecycle::writing_finish_step(old(self)@, block@.id, written, final(self)@),
    {
        broadcast use vstd::std_specs::hash::group_hash_axioms;

        let ghost before = self@;
        let id: BlockId = block.id();
        self.writing_blocks.remove(&id);
        self.evictable_blocks.insert(id);
        assert(self@ == before.written(id));
        self.tell(PickerCall::Evictable { block: id });
        let ghost told = self@;
        assert(lifecycle::told_step(
            before.written(id),
            PickerCall::Evictable { block: id },
            told,
        ));
        let generation: u64 = self.generations[id as usize];
        let reclaim = self.reclaim_if_needed();
        let event = StorageEvent::BlockStateChanged {
            block: id,
            generation,
            state: BlockState::Evictable,
        };
        WrittenBlock { event, reclaim }
    }

    /// Note that the reclamation of a block is finished: the block goes to one who waits for a clean
    /// block, or becomes clean.
    pub fn on_reclaim_finish(&mut self, block: Block) -> (reclaimed: ReclaimedBlock<C, R>)
        requires
            old(self)@.wf(),
            lifecycle::in_range(block@.id, old(self)@.blocks.len()),
        ensures
            final(self)@.wf(),
            lifecycle::reclaim_finish_step(old(self)@, block@.id, reclaimed, final(self)@),
    {
        broadcast use vstd::std_specs::hash::group_hash_axioms;

        let ghost before = self@;
        let id: BlockId = block.id();
        self.reclaiming_blocks.remove(&id);
        let waiter = self.clean_block_waiters.pop();
        let (generation, state): (u64, BlockState) = if waiter.is_some() {
            let generation: u64 = self.generations[id as usize].wrapping_add(1);
            self.generations.set(id as usize, generation);
            self.writing_blocks.insert(id);
            (generation, BlockState::Writing)
        } else {
            self.clean_blocks.push_back(id);
            (self.generations[id as usize], BlockState::Clean)
        };
        assert(self@ == before.reclaimed(id));
        assert(self@.wf());
        let reclaim = self.reclaim_if_needed();
        let ghost settled = self@;
        let mut reclaim_waiters: Vec<R> = Vec::new();
        if self.reclaiming_blocks.is_empty() {
            std::mem::swap(&mut self.reclaim_waiters, &mut reclaim_waiters);
        }
        assert(self@ == settled.reclaim_waiters_told());
        let event = StorageEvent::BlockStateChanged { block: id, generation, state };
        ReclaimedBlock {
            block: self.blocks[id as usize],
            reclaim_waiters,
            event,
            waiter,
            reclaim,
        }
    }

    /// Reclaim an exact evictable block if its generation still matches the caller's snapshot.
    pub fn force_reclaim(&mut self, id: BlockId, expected_generation: u64) -> (reclaiming: Result<
        ReclaimingBlock,
        ForceReclaimError,
    >)
        requires
            old(self)@.wf(),
        ensures
            final(self)@.wf(),
            lifecycle::force_reclaim_step(
                old(self)@,
                id,
                expected_generation,
                reclaiming,
                final(self)@,
            ),
    {
        broadcast use vstd::std_specs::hash::group_hash_axioms;

        if id as usize >= self.blocks.len() {
            return Err(ForceReclaimError::OutOfRange { block: id, blocks: self.blocks.len() });
        }
        let generation: u64 = self.generations[id as usize];
        if generation != expected_generation {
            return Err(
                ForceReclaimError::StaleGeneration {
                    expected: expected_generation,
                    actual: generation,
                },
            );
        }
        match self.reclaim_block(id, false) {
            Some(reclaiming) => Ok(reclaiming),
            None => Err(ForceReclaimError::NotEvictable { state: self.block_state(id) }),
        }
    }

    /// The event to emit when the reclamation of a block is started.
    pub fn start_reclaim(&self, block: &ReclaimingBlock) -> (event: StorageEvent)
        requires
            self@.wf(),
            lifecycle::in_range(block@.block.id, self@.blocks.len()),
        ensures
            event == self@.event(block@.block.id, BlockState::Reclaiming),
    {
        let id: BlockId = block.block.id;
        let generation: u64 = self.generations[id as usize];
        StorageEvent::BlockStateChanged { block: id, generation, state: BlockState::Reclaiming }
    }

    /// Wait until nothing is being reclaimed. The waiter is handed back if that is so already.
    pub fn wait_reclaim(&mut self, waiter: R) -> (ready: Option<R>)
        requires
            old(self)@.wf(),
        ensures
            final(self)@.wf(),
            lifecycle::wait_reclaim_step(old(self)@, waiter, ready, final(self)@),
    {
        let ghost before = self@;
        if self.reclaiming_blocks.is_empty() {
            return Some(waiter);
        }
        self.reclaim_waiters.push(waiter);
        assert(self@ == (ManagerView {
            reclaim_waiters: before.reclaim_waiters.push(waiter),
            ..before
        }));
        None
    }

    /// The number of blocks.
    pub fn blocks(&self) -> (blocks: usize)
        ensures
            blocks == self@.blocks.len(),
    {
        self.blocks.len()
    }

    /// The number of clean blocks.
    pub fn clean_blocks(&self) -> (blocks: usize)
        ensures
            blocks == self@.clean.len(),
    {
        self.clean_blocks.len()
    }

    /// The number of evictable blocks.
    pub fn evictable_blocks(&self) -> (blocks: usize)
        ensures
            blocks == self@.evictable.len(),
    {
        broadcast use vstd::std_specs::hash::group_hash_axioms;

        self.evictable_blocks.len()
    }

    /// The number of blocks that are being written.
    pub fn writing_blocks(&self) -> (blocks: usize)
        ensures
            blocks == self@.writing.len(),
    {
        broadcast use vstd::std_specs::hash::group_hash_axioms;

        self.writing_blocks.len()
    }

    /// The number of blocks that are being reclaimed.
    pub fn reclaiming_blocks(&self) -> (blocks: usize)
        ensures
            blocks == self@.reclaiming.len(),
    {
        broadcast use vstd::std_specs::hash::group_hash_axioms;

        self.reclaiming_blocks.len()
    }

    /// A block by its identifier.
    pub fn block(&self, id: BlockId) -> (block: &Block)
        requires
            lifecycle::in_range(id, self@.blocks.len()),
        ensures
            block@ == self@.blocks[id as int],
    {
        &self.blocks[id as usize]
    }

    /// The statistics of all blocks, by identifier.
    pub fn statistics(&self) -> (statistics: &[BlockStatistics])
        ensures
            statistics@ == self@.statistics,
    {
        self.statistics.as_slice()
    }

    /// The statistics of a block, to be updated.
    pub fn statistics_mut(&mut self, id: BlockId) -> (statistics: &mut BlockStatistics)
        requires
            old(self)@.wf(),
            lifecycle::in_range(id, old(self)@.blocks.len()),
        ensures
            *statistics == old(self)@.statistics[id as int],
            lifecycle::statistics_step(old(self)@, id, *final(statistics), final(self)@),
            final(self)@.wf(),
    {
        &mut self.statistics[id as usize]
    }

    /// Snapshot the lifecycle state and statistics for every block.
    pub fn snapshots(&self) -> (snapshots: Vec<BlockSnapshot>)
        requires
            self@.wf(),
        ensures
            snapshots@ == Seq::new(self@.blocks.len(), |i: int| self@.snapshot(i)),
    {
        let mut snapshots: Vec<BlockSnapshot> = Vec::new();
        let mut i: usize = 0;
        while i < self.blocks.len()
            invariant
                self@.wf(),
                i <= self@.blocks.len(),
                snapshots@ == Seq::new(i as nat, |j: int| self@.snapshot(j)),
            decreases self@.blocks.len() - i,
        {
            let block = self.blocks[i];
            let id: BlockId = block.id;
            assert(self@.blocks[i as int].id == i);
            let statistics = self.statistics[i];
            let snapshot = BlockSnapshot {
                id,
                size: block.size,
                state: self.block_state(id),
                generation: self.generations[id as usize],
                live_entries: 0,
                live_bytes: 0,
                invalid_bytes: statistics.invalid,
                accesses: statistics.access,
                probation: statistics.probation,
            };
            snapshots.push(snapshot);
            i = i + 1;
        }
        snapshots
    }

    /// Set the clean blocks that a recovery found. All other blocks become evictable.
    pub fn init(&mut self, clean_blocks: &[BlockId])
        requires
            old(self)@.wf(),
        ensures
            lifecycle::recovery_step(old(self)@, clean_blocks@, final(self)@),
            final(self)@.wf(),
    {
        broadcast use vstd::std_specs::hash::group_hash_axioms;

        let ghost before = self@;
        let mut listed: HashSet<BlockId> = HashSet::new();
        self.clean_blocks = VecDeque::new();
        let mut i: usize = 0;
        while i < clean_blocks.len()
            invariant
                i <= clean_blocks@.len(),
                self@ == (ManagerView { clean: clean_blocks@.take(i as int), ..before }),
                listed@ == clean_blocks@.take(i as int).to_set(),
            decreases clean_blocks@.len() - i,
        {
            broadcast use vstd::std_specs::hash::group_hash_axioms;

            let id: BlockId = clean_blocks[i];
            assert(clean_blocks@.take(i + 1) == clean_blocks@.take(i as int).push(id));
            proof {
                lemma_push_to_set(clean_blocks@.take(i as int), id);
            }
            listed.insert(id);
            self.clean_blocks.push_back(id);
            i = i + 1;
        }
        assert(clean_blocks@.take(i as int) == clean_blocks@);
        let ghost start = self@;
        assert(start == (ManagerView { clean: clean_blocks@, ..before }));
        let mut n: usize = 0;
        while n < self.blocks.len()
            invariant
                before.wf(),
                start == (ManagerView { clean: clean_blocks@, ..before }),
                n <= before.blocks.len(),
                self@.blocks == before.blocks,
                listed@ == clean_blocks@.to_set(),
                lifecycle::occupied_step(
                    start,
                    ManagerView::<P, C, R>::occupied_below(clean_blocks@, n as nat),
                    self@,
                ),
            decreases before.blocks.len() - n,
        {
            broadcast use vstd::std_specs::hash::group_hash_axioms;

            let id: BlockId = n as BlockId;
            let ghost below = ManagerView::<P, C, R>::occupied_below(clean_blocks@, n as nat);
            let ghost through = ManagerView::<P, C, R>::occupied_below(
                clean_blocks@,
                (n + 1) as nat,
            );
            if !listed.contains(&id) {
                assert(through == below.push(id));
                assert(through.drop_last() == below);
                assert(through.last() == id);
                let ghost middle = self@;
                self.evictable_blocks.insert(id);
                assert(self@ == middle.evictable_too(id));
                self.tell(PickerCall::Evictable { block: id });
                assert(lifecycle::told_step(
                    middle.evictable_too(id),
                    PickerCall::Evictable { block: id },
                    self@,
                ));
            } else {
                assert(through == below);
            }
            n = n + 1;
        }
        proof {
            lifecycle::lemma_occupied_members::<P, C, R>(clean_blocks@, n as nat);
            lifecycle::lemma_occupied_step(start, before.occupied(clean_blocks@), self@);
        }
    }
}

/// The members of a sequence that grows by one element.
proof fn lemma_push_to_set<A>(s: Seq<A>, a: A)
    ensures
        s.push(a).to_set() == s.to_set().insert(a),
{
    broadcast use vstd::seq_lib::group_seq_properties;

    assert(s.push(a).to_set() =~= s.to_set().insert(a));
}

/// The number that decimal digits stand for.
pub open spec fn number_read(digits: Seq<char>) -> int
    decreases digits.len(),
{
    if digits.len() == 0 {
        0
    } else {
        10 * number_read(digits.drop_last()) + (digits.last() as int - '0' as int)
    }
}

/// The decimal digits of a number are digits, read as the number, and do not start with a needless
/// zero.
pub proof fn law_decimal_reads_as_the_number(n: nat)
    ensures
        decimal(n).len() > 0,
        number_read(decimal(n)) == n,
        n > 0 ==> decimal(n)[0] != '0',
        n == 0 ==> decimal(n).len() == 1,
        forall|i: int|
            0 <= i < decimal(n).len() ==> '0' as int <= #[trigger] decimal(n)[i] as int <= '9' as int,
    decreases n,
{
    let digits = decimal(n);
    if n < 10 {
        assert(digits.drop_last() =~= Seq::empty());
        assert(number_read(digits.drop_last()) == 0);
    } else {
        law_decimal_reads_as_the_number(n / 10);
        let before = decimal(n / 10);
        assert(digits.drop_last() =~= before);
        assert(digits[0] == before[0]);
        assert forall|i: int| 0 <= i < digits.len() implies '0' as int <= #[trigger] digits[i] as int
            <= '9' as int by {
            if i < before.len() {
                assert(digits[i] == before[i]);
            }
        }
    }
}

/// A refused request says why: with the block and the number of blocks, with the expected and the
/// present generation, or with the name of the state.
pub proof fn law_refusal_says_why(error: ForceReclaimError)
    ensures
        match error {
            ForceReclaimError::Unsupported => error.text()
                == "block reclamation is not supported by this storage engine"@,
            ForceReclaimError::OutOfRange { block, blocks } => error.text() == "block "@ + decimal(
                block as nat,
            ) + " is out of range for an engine with "@ + decimal(blocks as nat) + " blocks"@,
            ForceReclaimError::StaleGeneration { expected, actual } => error.text()
                == "block generation changed from "@ + decimal(expected as nat) + " to "@ + decimal(
                actual as nat,
            ),
            ForceReclaimError::NotEvictable { state: BlockState::Initializing } => error.text()
                == "block is "@ + "Initializing"@ + ", not evictable"@,
            ForceReclaimError::NotEvictable { state: BlockState::Clean } => error.text()
                == "block is "@ + "Clean"@ + ", not evictable"@,
            ForceReclaimError::NotEvictable { state: BlockState::Writing } => error.text()
                == "block is "@ + "Writing"@ + ", not evictable"@,
            ForceReclaimError::NotEvictable { state: BlockState::Evictable } => error.text()
                == "block is "@ + "Evictable"@ + ", not evictable"@,
            ForceReclaimError::NotEvictable { state: BlockState::Reclaiming } => error.text()
                == "block is "@ + "Reclaiming"@ + ", not evictable"@,
        },
{
}

/// States have their own names.
pub proof fn law_states_have_names()
    ensures
        BlockState::Initializing.name_of() == "Initializing"@,
        BlockState::Clean.name_of() == "Clean"@,
        BlockState::Writing.name_of() == "Writing"@,
        BlockState::Evictable.name_of() == "Evictable"@,
        BlockState::Reclaiming.name_of() == "Reclaiming"@,
{
}

/// A block that was never used has no invalid bytes, was not accessed and is not on probation.
pub proof fn law_unused_statistics_are_empty()
    ensures
        unused_statistics().invalid == 0,
        unused_statistics().access == 0,
        !unused_statistics().probation,
{
}

} // verus!
