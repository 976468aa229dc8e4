//! The block manager.
use foyer_blocks::engine::block::eviction::{EvictionInfo, EvictionPicker};
use foyer_blocks::engine::block::manager::{
    Block, BlockId, BlockManager, BlockSnapshot, BlockState, BlockStatistics, ForceReclaimError,
    Reclaim,
};
use foyer_blocks::engine::block::plan::{BlockPlan, PartitionReply, PlanStep};
use foyer_blocks::engine::StorageEvent;

/// Picks a fixed block, and notes what it is told.
#[derive(Debug, Clone)]
struct Fixed {
    choice: Option<BlockId>,
    told: std::rc::Rc<std::cell::RefCell<Vec<String>>>,
}

impl Fixed {
    fn new(choice: Option<BlockId>) -> Self {
        Fixed { choice, told: Default::default() }
    }

    fn note(&self, text: String) {
        self.told.borrow_mut().push(text);
    }

    fn notes(&self) -> Vec<String> {
        std::mem::take(&mut *self.told.borrow_mut())
    }
}

fn shown(info: &EvictionInfo<'_>) -> String {
    let mut evictable: Vec<BlockId> = info.evictable.iter().copied().collect();
    evictable.sort_unstable();
    format!("{} blocks, {:?} evictable, {} clean", info.blocks.len(), evictable, info.clean)
}

impl EvictionPicker for Fixed {
    fn init(&mut self, blocks: &[BlockId], block_size: usize) {
        self.note(format!("init {:?} of {}", blocks, block_size));
    }

    fn pick(
        &mut self,
        info: EvictionInfo<'_>,
        _statistics: &mut [BlockStatistics],
    ) -> Option<BlockId> {
        self.note(format!("pick from {}", shown(&info)));
        self.choice
    }

    fn on_block_evictable(
        &mut self,
        info: EvictionInfo<'_>,
        _statistics: &mut [BlockStatistics],
        block: BlockId,
    ) {
        self.note(format!("{} evictable, {}", block, shown(&info)));
    }

    fn on_block_evict(
        &mut self,
        info: EvictionInfo<'_>,
        _statistics: &mut [BlockStatistics],
        block: BlockId,
    ) {
        self.note(format!("{} evicted, {}", block, shown(&info)));
    }
}

/// Marks fixed blocks, and notes which marks it finds.
#[derive(Debug, Clone)]
struct Marker {
    marks: Vec<BlockId>,
    found: std::rc::Rc<std::cell::RefCell<Vec<Vec<BlockId>>>>,
}

impl Marker {
    fn new(marks: &[BlockId]) -> Self {
        Marker { marks: marks.to_vec(), found: Default::default() }
    }

    fn mark(&self, info: EvictionInfo<'_>, statistics: &mut [BlockStatistics]) {
        let marked = info.blocks.iter().filter(|block| block.statistics(statistics).probation);
        self.found.borrow_mut().push(marked.map(|block| block.id()).collect());
        for id in &self.marks {
            statistics[*id as usize].probation = true;
        }
    }

    fn found(&self) -> Vec<Vec<BlockId>> {
        std::mem::take(&mut *self.found.borrow_mut())
    }
}

impl EvictionPicker for Marker {
    fn init(&mut self, _blocks: &[BlockId], _block_size: usize) {}

    fn pick(
        &mut self,
        info: EvictionInfo<'_>,
        statistics: &mut [BlockStatistics],
    ) -> Option<BlockId> {
        self.mark(info, statistics);
        None
    }

    fn on_block_evictable(
        &mut self,
        info: EvictionInfo<'_>,
        statistics: &mut [BlockStatistics],
        _block: BlockId,
    ) {
        self.mark(info, statistics);
    }

    fn on_block_evict(
        &mut self,
        info: EvictionInfo<'_>,
        statistics: &mut [BlockStatistics],
        _block: BlockId,
    ) {
        self.mark(info, statistics);
    }
}

type Manager = BlockManager<Fixed, &'static str, &'static str>;

fn plan(blocks: u32) -> BlockPlan {
    let mut plan = BlockPlan::new(4096);
    for _ in 0..blocks {
        let step = plan.on_partition::<()>(PartitionReply::Created { size: 4096 });
        assert!(matches!(step, PlanStep::Continue));
    }
    plan
}

fn manager(
    blocks: u32,
    clean: &[BlockId],
    pickers: Vec<Fixed>,
    concurrency: usize,
    threshold: usize,
) -> Manager {
    let mut manager = BlockManager::open(plan(blocks), pickers, concurrency, threshold);
    manager.init(clean);
    manager
}

fn states(manager: &Manager) -> Vec<BlockState> {
    manager.snapshots().into_iter().map(|snapshot| snapshot.state).collect()
}

fn generations(manager: &Manager) -> Vec<u64> {
    manager.snapshots().into_iter().map(|snapshot| snapshot.generation).collect()
}

fn changed(block: BlockId, generation: u64, state: BlockState) -> StorageEvent {
    StorageEvent::BlockStateChanged { block, generation, state }
}

fn started(reclaim: Reclaim) -> Option<(BlockId, bool)> {
    match reclaim {
        Reclaim::Start(block) => Some((block.block().id(), block.reinsert())),
        Reclaim::NotNeeded => None,
        Reclaim::InvalidPick(id) => panic!("block {id} is not evictable"),
    }
}

#[test]
fn a_plan_follows_the_device() {
    let mut plan = BlockPlan::new(10);
    assert!(plan.wants_more(10));
    assert!(!plan.wants_more(9));
    assert!(matches!(
        plan.on_partition::<u8>(PartitionReply::Created { size: 12 }),
        PlanStep::Continue
    ));
    assert!(matches!(
        plan.on_partition::<u8>(PartitionReply::Created { size: 10 }),
        PlanStep::Continue
    ));
    assert!(matches!(plan.on_partition::<u8>(PartitionReply::NoSpace), PlanStep::Complete));
    assert!(matches!(plan.on_partition::<u8>(PartitionReply::Failed(3)), PlanStep::Fail(3)));
    assert_eq!(plan.blocks(), 2);
    let (size, blocks) = plan.into_parts();
    assert_eq!(size, 10);
    assert_eq!(blocks.iter().map(|block| (block.id(), block.size())).collect::<Vec<_>>(), vec![
        (0, 12),
        (1, 10)
    ]);
}

#[test]
fn opened_blocks_are_initializing() {
    let picker = Fixed::new(None);
    let manager: Manager = BlockManager::open(plan(3), vec![picker.clone()], 1, 1);
    assert_eq!(picker.notes(), vec!["init [0, 1, 2] of 4096"]);
    assert_eq!(manager.blocks(), 3);
    assert_eq!(states(&manager), vec![BlockState::Initializing; 3]);
    assert_eq!(generations(&manager), vec![0; 3]);
    assert_eq!(manager.block(2).id(), 2);
    assert_eq!(manager.block(2).size(), 4096);
}

#[test]
fn a_recovery_classifies_every_block() {
    let picker = Fixed::new(None);
    let manager = manager(4, &[3, 1], vec![picker.clone()], 1, 1);
    assert_eq!(states(&manager), vec![
        BlockState::Evictable,
        BlockState::Clean,
        BlockState::Evictable,
        BlockState::Clean
    ]);
    assert_eq!(picker.notes(), vec![
        "init [0, 1, 2, 3] of 4096",
        "0 evictable, 4 blocks, [0] evictable, 2 clean",
        "2 evictable, 4 blocks, [0, 2] evictable, 2 clean",
    ]);
}

#[test]
fn clean_blocks_are_handed_out_in_order() {
    let mut manager = manager(3, &[2, 0, 1], vec![], 1, 0);
    let first = manager.get_clean_block("a").unwrap();
    assert_eq!(first.block.id(), 2);
    assert_eq!(first.event, changed(2, 1, BlockState::Writing));
    assert_eq!(started(first.reclaim), None);
    assert_eq!(manager.get_clean_block("b").unwrap().block.id(), 0);
    assert_eq!(manager.get_clean_block("c").unwrap().block.id(), 1);
    assert!(manager.get_clean_block("d").is_none());
    assert_eq!(generations(&manager), vec![1, 1, 1]);
    assert_eq!(states(&manager), vec![BlockState::Writing; 3]);
}

#[test]
fn blocks_go_round() {
    let picker = Fixed::new(None);
    let mut manager = manager(1, &[0], vec![picker.clone()], 1, 1);
    picker.notes();

    let clean = manager.get_clean_block("a").unwrap();
    assert_eq!(started(clean.reclaim), None);
    assert_eq!(states(&manager), vec![BlockState::Writing]);

    // There is no clean block left, so the block is picked as soon as it is written.
    let written = manager.on_writing_finish(clean.block);
    assert_eq!(written.event, changed(0, 1, BlockState::Evictable));
    assert_eq!(started(written.reclaim), Some((0, true)));
    assert_eq!(states(&manager), vec![BlockState::Reclaiming]);
    assert_eq!(picker.notes(), vec![
        "0 evictable, 1 blocks, [0] evictable, 0 clean",
        "pick from 1 blocks, [0] evictable, 0 clean",
        "0 evicted, 1 blocks, [] evictable, 0 clean",
    ]);
    let reclaiming = match written.reclaim {
        Reclaim::Start(block) => block,
        _ => unreachable!(),
    };
    assert_eq!(manager.start_reclaim(&reclaiming), changed(0, 1, BlockState::Reclaiming));

    assert_eq!(manager.wait_reclaim("r"), None);
    let reclaimed = manager.on_reclaim_finish(*reclaiming.block());
    assert_eq!(reclaimed.event, changed(0, 1, BlockState::Clean));
    assert!(reclaimed.waiter.is_none());
    assert_eq!(reclaimed.reclaim_waiters, vec!["r"]);
    assert_eq!(started(reclaimed.reclaim), None);
    assert_eq!(states(&manager), vec![BlockState::Clean]);
    assert_eq!(manager.wait_reclaim("s"), Some("s"));

    assert_eq!(manager.get_clean_block("b").unwrap().event, changed(0, 2, BlockState::Writing));
}

#[test]
fn a_reclaimed_block_goes_to_the_last_who_waits() {
    let mut manager = manager(3, &[], vec![], 3, 0);
    assert!(manager.get_clean_block("first").is_none());
    assert!(manager.get_clean_block("last").is_none());
    let one = manager.reclaim_block(1, true).unwrap();
    assert_eq!(states(&manager)[1], BlockState::Reclaiming);
    let reclaimed = manager.on_reclaim_finish(*one.block());
    assert_eq!(reclaimed.waiter, Some("last"));
    assert_eq!(reclaimed.block.id(), 1);
    assert_eq!(reclaimed.event, changed(1, 1, BlockState::Writing));
    assert_eq!(states(&manager)[1], BlockState::Writing);
    let other = manager.reclaim_block(0, true).unwrap();
    assert_eq!(manager.on_reclaim_finish(*other.block()).waiter, Some("first"));
    let third = manager.reclaim_block(2, true).unwrap();
    let reclaimed = manager.on_reclaim_finish(*third.block());
    assert_eq!(reclaimed.waiter, None);
    assert_eq!(reclaimed.event, changed(2, 0, BlockState::Clean));
    assert_eq!(generations(&manager), vec![1, 1, 0]);
}

#[test]
fn nobody_waits_in_vain() {
    let mut manager = manager(2, &[], vec![], 2, 0);
    let one = manager.reclaim_block(0, true).unwrap();
    let other = manager.reclaim_block(1, true).unwrap();
    assert_eq!(manager.wait_reclaim("a"), None);
    assert_eq!(manager.wait_reclaim("b"), None);
    // One reclamation is left, so nobody is told.
    assert!(manager.on_reclaim_finish(*one.block()).reclaim_waiters.is_empty());
    assert_eq!(manager.on_reclaim_finish(*other.block()).reclaim_waiters, vec!["a", "b"]);
    // The blocks became clean, so nobody needs to wait for one.
    assert_eq!(manager.get_clean_block("c").unwrap().block.id(), 0);
}

#[test]
fn a_next_reclamation_keeps_waiters_waiting() {
    let mut manager = manager(2, &[], vec![Fixed::new(Some(1))], 1, 2);
    let one = manager.reclaim_block(0, true).unwrap();
    assert_eq!(manager.wait_reclaim("a"), None);
    let reclaimed = manager.on_reclaim_finish(*one.block());
    assert_eq!(started(reclaimed.reclaim), Some((1, true)));
    assert!(reclaimed.reclaim_waiters.is_empty());
    let reclaimed = manager.on_reclaim_finish(*manager.block(1));
    assert_eq!(reclaimed.reclaim_waiters, vec!["a"]);
}

#[test]
fn pickers_are_asked_in_order() {
    let (first, second, third) = (Fixed::new(None), Fixed::new(Some(2)), Fixed::new(Some(0)));
    let pickers = vec![first.clone(), second.clone(), third.clone()];
    let mut manager = manager(3, &[], pickers, 1, 1);
    for picker in [&first, &second, &third] {
        picker.notes();
    }
    assert_eq!(started(manager.reclaim_if_needed()), Some((2, true)));
    let asked = "pick from 3 blocks, [0, 1, 2] evictable, 0 clean";
    let told = "2 evicted, 3 blocks, [0, 1] evictable, 0 clean";
    assert_eq!(first.notes(), vec![asked, told]);
    assert_eq!(second.notes(), vec![asked, told]);
    assert_eq!(third.notes(), vec![told]);
}

#[test]
fn without_a_picker_any_evictable_block_is_taken() {
    for _ in 0..20 {
        let mut manager = manager(4, &[1], vec![Fixed::new(None)], 3, 4);
        let mut taken = vec![];
        for _ in 0..3 {
            taken.push(started(manager.reclaim_if_needed()).unwrap().0);
        }
        taken.sort_unstable();
        assert_eq!(taken, vec![0, 2, 3]);
        assert_eq!(started(manager.reclaim_if_needed()), None);
    }
}

#[test]
fn a_pick_must_be_evictable() {
    let mut manager = manager(2, &[1], vec![Fixed::new(Some(1))], 1, 2);
    assert!(matches!(manager.reclaim_if_needed(), Reclaim::InvalidPick(1)));
    assert_eq!(states(&manager), vec![BlockState::Evictable, BlockState::Clean]);
    assert!(manager.reclaim_block(1, true).is_none());
    assert!(manager.reclaim_block(9, true).is_none());
}

#[test]
fn reclaim_concurrency_is_kept() {
    let mut manager = manager(5, &[], vec![], 2, 5);
    assert!(started(manager.reclaim_if_needed()).is_some());
    assert!(started(manager.reclaim_if_needed()).is_some());
    assert_eq!(started(manager.reclaim_if_needed()), None);
    // A request goes beyond the limit.
    let id = states(&manager).iter().position(|state| *state == BlockState::Evictable).unwrap();
    assert!(manager.force_reclaim(id as BlockId, 0).is_ok());
    assert_eq!(started(manager.reclaim_if_needed()), None);
}

#[test]
fn enough_clean_blocks_need_no_reclamation() {
    let mut manager = manager(3, &[0, 1], vec![], 1, 1);
    let clean = manager.get_clean_block("a").unwrap();
    assert_eq!(started(clean.reclaim), None);
    let clean = manager.get_clean_block("b").unwrap();
    assert_eq!(started(clean.reclaim), Some((2, true)));
}

#[test]
fn requests_are_checked_in_order() {
    let mut manager = manager(2, &[1], vec![], 1, 0);
    assert_eq!(
        manager.force_reclaim(2, 7).unwrap_err(),
        ForceReclaimError::OutOfRange { block: 2, blocks: 2 }
    );
    assert_eq!(
        manager.force_reclaim(1, 7).unwrap_err(),
        ForceReclaimError::StaleGeneration { expected: 7, actual: 0 }
    );
    assert_eq!(
        manager.force_reclaim(1, 0).unwrap_err(),
        ForceReclaimError::NotEvictable { state: BlockState::Clean }
    );
    assert_eq!(states(&manager), vec![BlockState::Evictable, BlockState::Clean]);
    let reclaiming = manager.force_reclaim(0, 0).unwrap();
    assert_eq!(reclaiming.block().id(), 0);
    assert!(!reclaiming.reinsert());
    assert_eq!(
        manager.force_reclaim(0, 0).unwrap_err(),
        ForceReclaimError::NotEvictable { state: BlockState::Reclaiming }
    );
}

#[test]
fn stale_requests_are_refused() {
    let mut manager = manager(1, &[0], vec![], 1, 0);
    let snapshot = manager.snapshots().remove(0);
    let clean = manager.get_clean_block("a").unwrap();
    manager.on_writing_finish(clean.block);
    assert_eq!(states(&manager), vec![BlockState::Evictable]);
    assert_eq!(
        manager.force_reclaim(0, snapshot.generation).unwrap_err(),
        ForceReclaimError::StaleGeneration { expected: 0, actual: 1 }
    );
    let snapshot = manager.snapshots().remove(0);
    assert!(manager.force_reclaim(0, snapshot.generation).is_ok());
}

#[test]
fn pickers_are_told_of_requested_evictions() {
    let picker = Fixed::new(None);
    let mut manager = manager(2, &[1], vec![picker.clone()], 1, 0);
    picker.notes();
    manager.force_reclaim(0, 0).unwrap();
    assert_eq!(picker.notes(), vec!["0 evicted, 2 blocks, [] evictable, 1 clean"]);
}

#[test]
fn snapshots_show_statistics() {
    let mut manager = manager(2, &[0], vec![], 1, 0);
    *manager.statistics_mut(1) = BlockStatistics { invalid: 3, access: 4, probation: true };
    assert_eq!(manager.block(1).statistics(manager.statistics()).access, 4);
    assert_eq!(manager.snapshots(), vec![
        BlockSnapshot {
            id: 0,
            size: 4096,
            state: BlockState::Clean,
            generation: 0,
            live_entries: 0,
            live_bytes: 0,
            invalid_bytes: 0,
            accesses: 0,
            probation: false,
        },
        BlockSnapshot {
            id: 1,
            size: 4096,
            state: BlockState::Evictable,
            generation: 0,
            live_entries: 0,
            live_bytes: 0,
            invalid_bytes: 3,
            accesses: 4,
            probation: true,
        },
    ]);
    manager.statistics_mut(1).reset();
    assert_eq!(manager.statistics()[1], BlockStatistics::default());
}

#[test]
fn copies_of_a_block_share_statistics() {
    let mut manager = manager(2, &[0], vec![], 1, 0);
    let held = *manager.block(0);
    let handed_out = manager.get_clean_block("a").unwrap().block;
    assert_eq!(*held.statistics(manager.statistics()), BlockStatistics::default());
    manager.statistics_mut(0).access = 1;
    for block in [held, handed_out, *manager.block(0)] {
        assert_eq!(block.statistics(manager.statistics()).access, 1);
    }
    assert_eq!(manager.block(1).statistics(manager.statistics()).access, 0);
}

#[test]
fn a_block_has_an_id_and_a_size() {
    let block = Block::new(3, 77);
    assert_eq!(block.id(), 3);
    assert_eq!(block.size(), 77);
}

#[test]
fn errors_say_what_is_wrong() {
    assert_eq!(
        ForceReclaimError::Unsupported.message(),
        "block reclamation is not supported by this storage engine"
    );
    assert_eq!(
        ForceReclaimError::OutOfRange { block: 10, blocks: 0 }.message(),
        "block 10 is out of range for an engine with 0 blocks"
    );
    assert_eq!(
        ForceReclaimError::StaleGeneration { expected: 9, actual: u64::MAX }.message(),
        "block generation changed from 9 to 18446744073709551615"
    );
    for state in [
        BlockState::Initializing,
        BlockState::Clean,
        BlockState::Writing,
        BlockState::Evictable,
        BlockState::Reclaiming,
    ] {
        assert_eq!(state.name(), format!("{state:?}"));
        assert_eq!(
            ForceReclaimError::NotEvictable { state }.message(),
            format!("block is {state:?}, not evictable")
        );
    }
}

#[test]
fn pickers_mark_blocks() {
    let (first, second) = (Marker::new(&[2]), Marker::new(&[0]));
    let pickers = vec![first.clone(), second.clone()];
    let mut manager: BlockManager<Marker, (), ()> = BlockManager::open(plan(3), pickers, 1, 1);
    *manager.statistics_mut(2) = BlockStatistics { invalid: 3, access: 4, probation: false };
    manager.init(&[0, 2]);
    // The second picker finds what the first one marked.
    assert_eq!(first.found(), vec![Vec::<BlockId>::new()]);
    assert_eq!(second.found(), vec![vec![2]]);
    let marks: Vec<bool> = manager.snapshots().iter().map(|block| block.probation).collect();
    assert_eq!(marks, vec![true, false, true]);
    // Nothing but the mark changes.
    assert_eq!(
        manager.statistics()[2],
        BlockStatistics { invalid: 3, access: 4, probation: true }
    );
    // Pickers mark when they are asked to pick, and when they are told of an eviction.
    manager.get_clean_block(()).unwrap();
    assert!(first.found().is_empty());
    manager.statistics_mut(0).reset();
    manager.get_clean_block(()).unwrap();
    assert_eq!(first.found(), vec![vec![2], vec![0, 2]]);
    assert_eq!(second.found(), vec![vec![2], vec![0, 2]]);
}

#[test]
fn a_list_of_clean_blocks_is_taken_as_it_is() {
    let mut manager = manager(2, &[1, 9, 1], vec![], 1, 0);
    assert_eq!(states(&manager), vec![BlockState::Evictable, BlockState::Clean]);
    assert_eq!(manager.clean_blocks(), 3);
    assert_eq!(manager.next_clean_block(), Some(1));
    manager.get_clean_block("a").unwrap();
    assert_eq!(manager.next_clean_block(), Some(9));
}

#[test]
fn blocks_are_counted_by_state() {
    let mut manager = manager(5, &[0, 1], vec![], 1, 0);
    manager.get_clean_block("a").unwrap();
    manager.force_reclaim(3, 0).unwrap();
    assert_eq!(manager.clean_blocks(), 1);
    assert_eq!(manager.writing_blocks(), 1);
    assert_eq!(manager.evictable_blocks(), 2);
    assert_eq!(manager.reclaiming_blocks(), 1);
    assert!(manager.is_evictable(2));
    assert!(!manager.is_evictable(3));
}
