//! How blocks are picked for eviction.
use crate::engine::block::manager;
use crate::engine::block::manager::{Block, BlockId, BlockStatistics, BlockView};
use std::collections::HashSet;
use vstd::prelude::*;

verus! {

/// What eviction pickers are shown of a block manager.
pub struct EvictionInfo<'a> {
    /// All blocks.
    pub blocks: &'a [Block],
    /// The blocks that can be picked.
    pub evictable: &'a HashSet<BlockId>,
    /// The number of clean blocks.
    pub clean: usize,
}

/// What an [`EvictionInfo`] shows.
#[verifier::ext_equal]
pub struct EvictionView {
    pub blocks: Seq<BlockView>,
    pub evictable: Set<BlockId>,
    pub clean: int,
}

impl View for EvictionInfo<'_> {
    type V = EvictionView;

    open spec fn view(&self) -> EvictionView {
        EvictionView {
            blocks: manager::views(self.blocks@),
            evictable: self.evictable@,
            clean: self.clean as int,
        }
    }
}

/// Picks blocks for eviction.
///
/// A picker is handed the statistics of all blocks, by identifier, and may change them: it marks the
/// blocks that are about to be evicted.
///
/// What a picker does is up to it. Each method has a relation that says which steps are possible for
/// the picker: a block manager promises which steps its pickers take, in terms of these relations,
/// and relies on none of them. By default every step is possible. A slice keeps its length whatever
/// is done with it, and the contracts say so.
pub trait EvictionPicker: Sized {
    /// The steps of [`EvictionPicker::init`].
    open spec fn init_step(
        before: Self,
        blocks: Seq<BlockId>,
        block_size: usize,
        after: Self,
    ) -> bool {
        true
    }

    /// The steps of [`EvictionPicker::pick`].
    open spec fn pick_step(
        before: Self,
        info: EvictionView,
        statistics_before: Seq<BlockStatistics>,
        picked: Option<BlockId>,
        after: Self,
        statistics_after: Seq<BlockStatistics>,
    ) -> bool {
        true
    }

    /// The steps of [`EvictionPicker::on_block_evictable`].
    open spec fn evictable_step(
        before: Self,
        info: EvictionView,
        statistics_before: Seq<BlockStatistics>,
        block: BlockId,
        after: Self,
        statistics_after: Seq<BlockStatistics>,
    ) -> bool {
        true
    }

    /// The steps of [`EvictionPicker::on_block_evict`].
    open spec fn evict_step(
        before: Self,
        info: EvictionView,
        statistics_before: Seq<BlockStatistics>,
        block: BlockId,
        after: Self,
        statistics_after: Seq<BlockStatistics>,
    ) -> bool {
        true
    }

    /// Init the picker with the identifiers and the size of the blocks.
    fn init(&mut self, blocks: &[BlockId], block_size: usize)
        ensures
            Self::init_step(*old(self), blocks@, block_size, *final(self)),
    ;

    /// Pick an evictable block, or leave the choice to others.
    fn pick(&mut self, info: EvictionInfo<'_>, statistics: &mut [BlockStatistics]) -> (picked:
        Option<BlockId>)
        ensures
            final(statistics)@.len() == old(statistics)@.len(),
            Self::pick_step(
                *old(self),
                info@,
                old(statistics)@,
                picked,
                *final(self),
                final(statistics)@,
            ),
    ;

    /// Note that a block became evictable.
    fn on_block_evictable(
        &mut self,
        info: EvictionInfo<'_>,
        statistics: &mut [BlockStatistics],
        block: BlockId,
    )
        ensures
            final(statistics)@.len() == old(statistics)@.len(),
            Self::evictable_step(
                *old(self),
                info@,
                old(statistics)@,
                block,
                *final(self),
                final(statistics)@,
            ),
    ;

    /// Note that a block is evicted.
    fn on_block_evict(
        &mut self,
        info: EvictionInfo<'_>,
        statistics: &mut [BlockStatistics],
        block: BlockId,
    )
        ensures
            final(statistics)@.len() == old(statistics)@.len(),
            Self::evict_step(
                *old(self),
                info@,
                old(statistics)@,
                block,
                *final(self),
                final(statistics)@,
            ),
    ;
}

/// Pickers are shown the blocks, the evictable ones and the number of clean ones as they are.
pub proof fn law_info_shows_blocks(info: EvictionInfo<'_>, i: int)
    ensures
        info@.blocks.len() == info.blocks@.len(),
        0 <= i < info.blocks@.len() ==> info@.blocks[i] == info.blocks@[i]@,
        info@.evictable == info.evictable@,
        info@.clean == info.clean,
{
}

} // verus!
