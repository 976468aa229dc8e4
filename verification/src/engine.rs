//! Types shared by the disk cache engines.
use crate::counter::{Counters, CountersView};
use crate::engine::block::indexer::EntryAddress;
use crate::engine::block::manager::BlockState;
use vstd::prelude::*;

pub mod block;

verus! {

/// A value-only snapshot of an entry's current disk address.
#[derive(Debug, Clone, Copy, PartialEq, Eq, Structural)]
pub struct EntryAddressSnapshot {
    /// Block containing the entry.
    pub block: u32,
    /// Byte offset of the entry within the block.
    pub offset: u32,
    /// Unaligned serialized entry length.
    pub len: u32,
    /// Monotonic entry version used to reject stale addresses.
    pub sequence: u64,
    /// Wall-clock time when this address was committed or recovered.
    pub inserted_at_unix_micros: u64,
    /// Wall-clock time when this address was last loaded.
    pub last_accessed_at_unix_micros: u64,
}

impl<'a> From<(EntryAddress, &'a Counters)> for EntryAddressSnapshot {
    fn from(used: (EntryAddress, &'a Counters)) -> (snapshot: Self) {
        let (address, counters) = used;
        EntryAddressSnapshot {
            block: address.block,
            offset: address.offset,
            len: address.len,
            sequence: address.sequence,
            inserted_at_unix_micros: address.inserted_at_unix_micros,
            last_accessed_at_unix_micros: counters.load(address.last_accessed_at_unix_micros),
        }
    }
}

impl<'a> vstd::std_specs::convert::FromSpecImpl<(EntryAddress, &'a Counters)>
    for EntryAddressSnapshot {
    open spec fn obeys_from_spec() -> bool {
        true
    }

    open spec fn from_spec(used: (EntryAddress, &'a Counters)) -> Self {
        address_snapshot(used.0, used.1@)
    }
}

/// The snapshot of an address: what it locates and when it was inserted and last loaded.
pub open spec fn address_snapshot(
    address: EntryAddress,
    counters: CountersView,
) -> EntryAddressSnapshot {
    EntryAddressSnapshot {
        block: address.block,
        offset: address.offset,
        len: address.len,
        sequence: address.sequence,
        inserted_at_unix_micros: address.inserted_at_unix_micros,
        last_accessed_at_unix_micros: counters.value(address.last_accessed_at_unix_micros),
    }
}

/// Opaque continuation for a mutation-detecting raw disk-index scan.
#[derive(Debug, Clone, Copy, PartialEq, Eq, Structural)]
pub struct DiskIndexCursor {
    pub(crate) shard: usize,
    pub(crate) revision: u64,
    pub(crate) offset: usize,
}

/// Where a [`DiskIndexCursor`] stands: the number of live entries of `shard` that lie behind it,
/// counted at `revision` of that shard.
pub struct CursorPosition {
    pub shard: int,
    pub revision: u64,
    pub offset: int,
}

impl View for DiskIndexCursor {
    type V = CursorPosition;

    open(crate) spec fn view(&self) -> CursorPosition {
        CursorPosition {
            shard: self.shard as int,
            revision: self.revision,
            offset: self.offset as int,
        }
    }
}

/// A live hash/address pair from the raw disk index.
#[derive(Debug, Clone, Copy, PartialEq, Eq, Structural)]
pub struct DiskIndexEntry {
    /// Hash used by the disk index.
    pub hash: u64,
    /// Current disk address.
    pub address: EntryAddressSnapshot,
}

/// A bounded page from one raw disk-index shard.
#[derive(Debug, Clone, PartialEq, Eq)]
pub struct DiskIndexPage {
    /// Index shard represented by this page.
    pub shard: usize,
    /// Structural revision of the shard when this page was taken.
    pub revision: u64,
    /// Live addresses in this page, without decoded keys.
    pub entries: Vec<DiskIndexEntry>,
    /// Continuation for the next page, or `None` after the final shard.
    pub next_cursor: Option<DiskIndexCursor>,
    /// Whether prior observations for `shard` must be discarded and rescanned.
    pub retry_shard: bool,
}

/// A decoded cache key and its current disk address.
#[derive(Debug, Clone, PartialEq, Eq)]
pub struct InspectedEntry<K> {
    /// Hash used by the disk index.
    pub hash: u64,
    /// Decoded cache key.
    pub key: K,
    /// Current physical address of the entry.
    pub address: EntryAddressSnapshot,
}

/// A bounded page of decoded entries from the live disk index.
#[derive(Debug, Clone, PartialEq, Eq)]
pub struct InspectedEntriesPage<K> {
    /// Number of live addresses in the disk index when the page was taken.
    pub total: usize,
    /// Raw index offset immediately after this page.
    pub next_offset: usize,
    /// Decoded entries in index iteration order.
    pub entries: Vec<InspectedEntry<K>>,
}

/// Why a live disk index entry was removed.
#[derive(Debug, Clone, Copy, PartialEq, Eq, Structural)]
pub enum StorageRemovalReason {
    /// A newer entry replaced the same hash.
    Replaced,
    /// The key was explicitly deleted.
    Deleted,
    /// The containing block was reclaimed.
    Reclaimed,
    /// The indexed entry failed validation while being read.
    Invalid,
}

/// A structural change to the block storage engine.
#[derive(Debug, Clone, Copy, PartialEq, Eq, Structural)]
pub enum StorageEvent {
    /// A new address became authoritative for a key hash.
    EntryCommitted {
        /// Indexed key hash.
        hash: u64,
        /// Committed disk address.
        address: EntryAddressSnapshot,
    },
    /// A live address stopped being authoritative.
    EntryRemoved {
        /// Indexed key hash.
        hash: u64,
        /// Removed disk address.
        address: EntryAddressSnapshot,
        /// Cause of removal.
        reason: StorageRemovalReason,
    },
    /// A live disk entry was loaded in a new reporting bucket.
    EntryAccessed {
        /// Indexed key hash.
        hash: u64,
        /// Current disk address and access timestamp.
        address: EntryAddressSnapshot,
    },
    /// A block changed lifecycle state.
    BlockStateChanged {
        /// Block identifier.
        block: u32,
        /// Process-local allocation generation.
        generation: u64,
        /// New lifecycle state.
        state: BlockState,
    },
}

/// Non-blocking listener for structural storage events.
pub trait StorageEventListener: Send + Sync + 'static + std::fmt::Debug {
    /// Attempt to deliver an event, returning `false` if it was dropped.
    fn try_on_event(&self, event: StorageEvent) -> bool;
}

/// Counts the structural events that a listener did not take.
///
/// Delivery itself is up to the owner of the observer: for every event it offers the event to
/// [`StorageEventObserver::listener`], if there is one, and passes the reply to
/// [`StorageEventObserver::settle`].
pub struct StorageEventObserver<L> {
    listener: Option<L>,
    dropped: u64,
}

/// The listener of a [`StorageEventObserver`] and the number of events that were dropped.
pub struct ObserverView<L> {
    pub listener: Option<L>,
    pub dropped: u64,
}

impl<L> View for StorageEventObserver<L> {
    type V = ObserverView<L>;

    closed spec fn view(&self) -> ObserverView<L> {
        ObserverView { listener: self.listener, dropped: self.dropped }
    }
}

impl<L> ObserverView<L> {
    /// Whether an event with this outcome counts as delivered: there was nobody to deliver it to,
    /// or the listener accepted it. A listener that did not reply did not accept.
    pub open spec fn delivered(self, reply: Option<bool>) -> bool {
        self.listener is None || reply == Some(true)
    }

    /// The observer after one event with this outcome.
    pub open spec fn settled(self, reply: Option<bool>) -> Self {
        ObserverView {
            listener: self.listener,
            dropped: if self.delivered(reply) {
                self.dropped
            } else {
                self.dropped.wrapping_add(1)
            },
        }
    }
}

impl<L> ObserverView<L> {
    /// The observer after a number of events with these outcomes.
    pub open spec fn settled_all(self, replies: Seq<Option<bool>>) -> Self
        decreases replies.len(),
    {
        if replies.len() == 0 {
            self
        } else {
            self.settled_all(replies.drop_last()).settled(replies.last())
        }
    }

    /// How many events with these outcomes were not delivered.
    pub open spec fn undelivered(self, replies: Seq<Option<bool>>) -> nat
        decreases replies.len(),
    {
        if replies.len() == 0 {
            0
        } else {
            self.undelivered(replies.drop_last()) + (if self.delivered(replies.last()) {
                0nat
            } else {
                1nat
            })
        }
    }
}

/// An observer counts every event that was not delivered, modulo 2^64, and nothing else. Without a
/// listener it counts nothing.
pub proof fn law_every_lost_event_is_counted<L>(
    observer: ObserverView<L>,
    replies: Seq<Option<bool>>,
)
    ensures
        observer.settled_all(replies).listener == observer.listener,
        observer.settled_all(replies).dropped == (observer.dropped + observer.undelivered(replies))
            % 0x1_0000_0000_0000_0000,
        observer.listener is None ==> observer.undelivered(replies) == 0,
        observer.undelivered(replies) <= replies.len(),
    decreases replies.len(),
{
    if replies.len() > 0 {
        law_every_lost_event_is_counted(observer, replies.drop_last());
    }
}

impl<L> StorageEventObserver<L> {
    /// Create an observer that has dropped nothing.
    pub fn new(listener: Option<L>) -> (observer: Self)
        ensures
            observer@ == (ObserverView { listener, dropped: 0 }),
    {
        StorageEventObserver { listener, dropped: 0 }
    }

    /// The listener that events are offered to.
    pub fn listener(&self) -> (listener: Option<&L>)
        ensures
            listener == (match self@.listener {
                Some(l) => Some(&l),
                None => None,
            }),
    {
        self.listener.as_ref()
    }

    /// Record the outcome of offering one event: the listener's reply, or `None` if there is no
    /// listener or it failed to reply.
    pub fn settle(&mut self, reply: Option<bool>)
        ensures
            final(self)@ == old(self)@.settled(reply),
    {
        let delivered = match reply {
            Some(accepted) => accepted || self.listener.is_none(),
            None => self.listener.is_none(),
        };
        if !delivered {
            self.dropped = self.dropped.wrapping_add(1);
        }
    }

    /// Whether there is a listener.
    pub fn is_enabled(&self) -> (enabled: bool)
        ensures
            enabled == (self@.listener is Some),
    {
        self.listener.is_some()
    }

    /// The number of events that were dropped.
    pub fn dropped(&self) -> (dropped: u64)
        ensures
            dropped == self@.dropped,
    {
        self.dropped
    }
}

/// The age of an entry on disk.
#[derive(Debug, Clone, Copy, PartialEq, Eq, Structural)]
pub enum Age {
    /// The entry is still in the write queue.
    Fresh,
    /// The entry will stay on disk for a while.
    Young,
    /// The entry is about to be evicted from disk.
    Old,
}

/// Source context for populated entry.
#[derive(Debug, Clone, Copy, PartialEq, Eq, Structural)]
pub struct Populated {
    /// The age of the entry.
    pub age: Age,
}

/// An entry of the memory tier that waits in the disk cache write queue.
#[derive(Debug, Clone, PartialEq, Eq)]
pub struct Piece<K, V, P> {
    /// The key of the entry.
    pub key: K,
    /// The value of the entry.
    pub value: V,
    /// The properties of the entry.
    pub properties: P,
}

/// Load result.
pub enum Load<K, V, P> {
    /// Load entry success.
    Entry {
        /// The key of the entry.
        key: K,
        /// The value of the entry.
        value: V,
        /// The populated context of the entry.
        populated: Populated,
    },
    /// Load entry success from disk cache write queue.
    Piece {
        /// The piece of the entry.
        piece: Piece<K, V, P>,
        /// The populated context of the entry.
        populated: Populated,
    },
    /// The entry may be in the disk cache, the read io is throttled.
    Throttled,
    /// Disk cache miss.
    Miss,
}

impl<K, V, P> Load<K, V, P> {
    /// Return `Some` with the entry if load success, otherwise return `None`.
    pub fn entry(self) -> (entry: Option<(K, V, Populated)>)
        ensures
            entry == (match self {
                Load::Entry { key, value, populated } => Some((key, value, populated)),
                Load::Piece { piece, populated } => Some((piece.key, piece.value, populated)),
                _ => None,
            }),
    {
        match self {
            Load::Entry { key, value, populated } => Some((key, value, populated)),
            Load::Piece { piece, populated } => Some((piece.key, piece.value, populated)),
            _ => None,
        }
    }

    /// Return `Some` with the entry if load success, otherwise return `None`.
    ///
    /// Only key and value will be returned.
    pub fn kv(self) -> (kv: Option<(K, V)>)
        ensures
            kv == (match self {
                Load::Entry { key, value, populated } => Some((key, value)),
                Load::Piece { piece, populated } => Some((piece.key, piece.value)),
                _ => None,
            }),
    {
        match self {
            Load::Entry { key, value, .. } => Some((key, value)),
            Load::Piece { piece, .. } => Some((piece.key, piece.value)),
            _ => None,
        }
    }

    /// Check if the load result is a cache miss.
    pub fn is_miss(&self) -> (miss: bool)
        ensures
            miss == (*self is Miss),
    {
        matches!(self, Load::Miss)
    }

    /// Check if the load result is miss caused by io throttled.
    pub fn is_throttled(&self) -> (throttled: bool)
        ensures
            throttled == (*self is Throttled),
    {
        matches!(self, Load::Throttled)
    }
}

/// The recover mode of the disk cache.
#[derive(Debug, Clone, Copy, PartialEq, Eq, Structural)]
pub enum RecoverMode {
    /// Do not recover disk cache.
    ///
    /// For updatable cache, either [`RecoverMode::Off`] or the tombstone log must be used to
    /// prevent from phantom entry when reopen.
    Off,
    /// Recover disk cache and skip errors.
    Quiet,
    /// Recover disk cache and panic on errors.
    Strict,
}

impl Default for RecoverMode {
    fn default() -> (mode: Self)
        ensures
            mode == RecoverMode::Quiet,
    {
        RecoverMode::Quiet
    }
}

/// An event adds one to the count exactly if there is a listener and it did not accept the event.
/// The listener stays.
pub proof fn law_lost_event_adds_one<L>(observer: ObserverView<L>, reply: Option<bool>)
    ensures
        observer.settled(reply).listener == observer.listener,
        observer.listener is None ==> observer.settled(reply).dropped == observer.dropped,
        reply == Some(true) ==> observer.settled(reply).dropped == observer.dropped,
        observer.listener is Some && reply != Some(true) ==> observer.settled(reply).dropped
            == observer.dropped.wrapping_add(1),
{
}

/// A snapshot of an address has its block, offset, length, sequence and time of insertion, and the
/// time of the last access that the counters hold for it.
pub proof fn law_snapshot_reads_address_and_counters(address: EntryAddress, counters: &Counters)
    ensures
        ({
            let snapshot = <EntryAddressSnapshot as vstd::std_specs::convert::FromSpec<
                (EntryAddress, &Counters),
            >>::from_spec((address, counters));
            let time = address.last_accessed_at_unix_micros@;
            &&& snapshot.block == address.block
            &&& snapshot.offset == address.offset
            &&& snapshot.len == address.len
            &&& snapshot.sequence == address.sequence
            &&& snapshot.inserted_at_unix_micros == address.inserted_at_unix_micros
            &&& snapshot.last_accessed_at_unix_micros == (if counters@.values.contains_key(time) {
                counters@.values[time]
            } else {
                0
            })
        }),
{
}

} // verus!
