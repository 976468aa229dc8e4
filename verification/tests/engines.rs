//! The types that engines share.
use foyer_blocks::counter::Counters;
use foyer_blocks::engine::block::indexer::EntryAddress;
use foyer_blocks::engine::block::manager::BlockState;
use foyer_blocks::engine::{
    Age, EntryAddressSnapshot, Load, Piece, Populated, RecoverMode, StorageEvent, StorageEventListener,
    StorageEventObserver,
};

/// Accepts events of blocks up to a number.
#[derive(Debug, Clone)]
struct UpTo(u32);

impl StorageEventListener for UpTo {
    fn try_on_event(&self, event: StorageEvent) -> bool {
        match event {
            StorageEvent::BlockStateChanged { block, .. } => block <= self.0,
            _ => false,
        }
    }
}

fn event(block: u32) -> StorageEvent {
    StorageEvent::BlockStateChanged { block, generation: 1, state: BlockState::Clean }
}

#[test]
fn every_lost_event_is_counted() {
    let mut observer = StorageEventObserver::new(Some(UpTo(1)));
    assert!(observer.is_enabled());
    assert_eq!(observer.dropped(), 0);
    for block in 0..4 {
        let reply = observer.listener().map(|listener| listener.try_on_event(event(block)));
        observer.settle(reply);
    }
    assert_eq!(observer.dropped(), 2);
    // A listener that failed did not accept.
    observer.settle(None);
    assert_eq!(observer.dropped(), 3);
}

#[test]
fn nothing_is_lost_without_a_listener() {
    let mut observer: StorageEventObserver<UpTo> = StorageEventObserver::new(None);
    assert!(!observer.is_enabled());
    assert!(observer.listener().is_none());
    observer.settle(None);
    observer.settle(Some(false));
    assert_eq!(observer.dropped(), 0);
}

#[test]
fn a_snapshot_has_the_values_of_its_address() {
    let mut counters = Counters::new();
    let address = EntryAddress {
        block: 1,
        offset: 2,
        len: 3,
        sequence: 4,
        inserted_at_unix_micros: 5,
        last_accessed_at_unix_micros: counters.create(6),
        last_access_report_bucket: counters.create(7),
    };
    assert_eq!(
        EntryAddressSnapshot::from((address, &counters)),
        EntryAddressSnapshot {
            block: 1,
            offset: 2,
            len: 3,
            sequence: 4,
            inserted_at_unix_micros: 5,
            last_accessed_at_unix_micros: 6,
        }
    );
}

#[test]
fn loads_are_told_apart() {
    let populated = Populated { age: Age::Young };
    let entry: Load<u8, u16, u32> = Load::Entry { key: 1, value: 2, populated };
    assert!(!entry.is_miss());
    assert!(!entry.is_throttled());
    assert_eq!(entry.entry(), Some((1, 2, populated)));
    let entry: Load<u8, u16, u32> = Load::Entry { key: 1, value: 2, populated };
    assert_eq!(entry.kv(), Some((1, 2)));
    // An entry that still waits in the write queue is a success as well.
    let queued = Piece { key: 3, value: 4, properties: 5 };
    let piece: Load<u8, u16, u32> = Load::Piece { piece: queued.clone(), populated };
    assert!(!piece.is_miss());
    assert!(!piece.is_throttled());
    assert_eq!(piece.entry(), Some((3, 4, populated)));
    let piece: Load<u8, u16, u32> = Load::Piece { piece: queued, populated };
    assert_eq!(piece.kv(), Some((3, 4)));
    let throttled: Load<u8, u16, u32> = Load::Throttled;
    assert!(throttled.is_throttled());
    assert!(!throttled.is_miss());
    assert_eq!(throttled.entry(), None);
    let throttled: Load<u8, u16, u32> = Load::Throttled;
    assert_eq!(throttled.kv(), None);
    let miss: Load<u8, u16, u32> = Load::Miss;
    assert!(miss.is_miss());
    assert!(!miss.is_throttled());
    assert_eq!(miss.entry(), None);
    let miss: Load<u8, u16, u32> = Load::Miss;
    assert_eq!(miss.kv(), None);
}

#[test]
fn recovery_is_quiet_by_default() {
    assert_eq!(RecoverMode::default(), RecoverMode::Quiet);
    assert_ne!(RecoverMode::Off, RecoverMode::Strict);
}
