//! Block storage for a hybrid cache: the records of the memory tier, and the index and the block
//! lifecycle of the disk tier.
pub mod clock;
pub mod counter;
pub mod engine;
pub mod record;
