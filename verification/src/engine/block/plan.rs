//! How a device is divided into blocks.
use crate::engine::block::lifecycle;
use crate::engine::block::manager;
use crate::engine::block::manager::{Block, BlockId, BlockView};
use vstd::prelude::*;

verus! {

/// The division of a device into blocks of one size, as far as it has come.
///
/// While the plan [wants more](BlockPlan::wants_more), its owner asks the device for one more
/// partition, and passes the reply to [`BlockPlan::on_partition`].
#[derive(Debug)]
pub struct BlockPlan {
    block_size: usize,
    blocks: Vec<Block>,
}

/// What a [`BlockPlan`] has come to.
#[verifier::ext_equal]
pub struct PlanView {
    pub block_size: usize,
    pub blocks: Seq<BlockView>,
}

impl View for BlockPlan {
    type V = PlanView;

    closed spec fn view(&self) -> PlanView {
        PlanView { block_size: self.block_size, blocks: manager::views(self.blocks@) }
    }
}

impl PlanView {
    /// The blocks are numbered in order.
    pub open spec fn wf(self) -> bool {
        lifecycle::numbered(self.blocks)
    }
}

/// What a device replied when it was asked for one more partition, where `E` says why it failed.
#[derive(Debug)]
pub enum PartitionReply<E> {
    /// The partition was created.
    Created {
        /// The size of the partition.
        size: usize,
    },
    /// There is no space for the partition.
    NoSpace,
    /// The partition could not be created.
    Failed(E),
}

/// How to go on after a device replied.
#[derive(Debug)]
pub enum PlanStep<E> {
    /// Ask for more partitions, if the plan wants them.
    Continue,
    /// The plan is complete.
    Complete,
    /// The device cannot be divided.
    Fail(E),
}

impl BlockPlan {
    /// A plan without blocks.
    pub fn new(block_size: usize) -> (plan: Self)
        ensures
            plan@ == (PlanView { block_size, blocks: Seq::empty() }),
            plan@.wf(),
    {
        BlockPlan { block_size, blocks: Vec::new() }
    }

    /// Whether to ask for one more partition of a device with so many free bytes.
    pub fn wants_more(&self, free: usize) -> (wanted: bool)
        ensures
            wanted == (free >= self@.block_size),
    {
        free >= self.block_size
    }

    /// Go on after a device replied to being asked for one more partition.
    pub fn on_partition<E>(&mut self, reply: PartitionReply<E>) -> (step: PlanStep<E>)
        requires
            old(self)@.wf(),
            reply is Created ==> old(self)@.blocks.len() <= u32::MAX,
        ensures
            final(self)@.wf(),
            match reply {
                PartitionReply::Created { size } => {
                    &&& step is Continue
                    &&& final(self)@ == (PlanView {
                        blocks: old(self)@.blocks.push(
                            (BlockView { id: old(self)@.blocks.len() as BlockId, size }),
                        ),
                        ..old(self)@
                    })
                },
                PartitionReply::NoSpace => step is Complete && final(self)@ == old(self)@,
                PartitionReply::Failed(error) => step == PlanStep::Fail(error) && final(self)@
                    == old(self)@,
            },
    {
        match reply {
            PartitionReply::Created { size } => {
                let id: BlockId = self.blocks.len() as BlockId;
                let ghost before = self@;
                self.blocks.push(Block::new(id, size));
                assert(self@.blocks == before.blocks.push(BlockView { id, size }));
                PlanStep::Continue
            },
            PartitionReply::NoSpace => PlanStep::Complete,
            PartitionReply::Failed(error) => PlanStep::Fail(error),
        }
    }

    /// The number of blocks.
    pub fn blocks(&self) -> (blocks: usize)
        ensures
            blocks == self@.blocks.len(),
    {
        self.blocks.len()
    }

    /// The size of the blocks, and the blocks.
    pub fn into_parts(self) -> (parts: (usize, Vec<Block>))
        ensures
            parts.0 == self@.block_size,
            manager::views(parts.1@) == self@.blocks,
    {
        (self.block_size, self.blocks)
    }
}

} // verus!
