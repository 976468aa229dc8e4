//! The records of the memory tier, and the clock.
use foyer_blocks::clock::{timestamp_from_micros, unix_micros};
use foyer_blocks::record::{Data, Eviction, Flags, Record};

struct Fifo;

impl Eviction for Fifo {
    type Key = &'static str;
    type Value = u8;
    type Properties = bool;
    type State = Vec<u32>;
}

fn data() -> Data<Fifo> {
    Data { key: "key", value: 7, properties: true, hash: 99, weight: 3 }
}

#[test]
fn a_record_holds_its_data() {
    let record: Record<Fifo> = Record::new_at(data(), 5, 1000);
    assert_eq!(*record.key(), "key");
    assert_eq!(*record.value(), 7);
    assert!(*record.properties());
    assert_eq!(record.hash(), 99);
    assert_eq!(record.weight(), 3);
    assert_eq!(record.residency_sequence(), 5);
    assert_eq!(record.inserted_at_unix_micros(), 1000);
    assert_eq!(record.last_accessed_at_unix_micros(), 1000);
    assert_eq!(record.refs(), 0);
    assert!(!record.is_in_indexer());
    assert!(!record.is_in_eviction());
    assert!(record.state().is_empty());
}

#[test]
fn a_record_is_made_now() {
    let before = unix_micros();
    let record: Record<Fifo> = Record::new(data());
    assert_eq!(record.residency_sequence(), 0);
    assert!(record.inserted_at_unix_micros() >= before);
    assert!(record.inserted_at_unix_micros() <= unix_micros());
    assert_eq!(record.last_accessed_at_unix_micros(), record.inserted_at_unix_micros());
    assert_eq!(Record::new_with_residency_sequence(data(), 8).residency_sequence(), 8);
}

#[test]
fn touching_sets_the_access_time_only() {
    let mut record: Record<Fifo> = Record::new_at(data(), 5, 1000);
    let now = record.touch_access_time();
    assert!(now > 1000);
    assert_eq!(record.last_accessed_at_unix_micros(), now);
    assert_eq!(record.inserted_at_unix_micros(), 1000);
    record.touch_access_time_at(3);
    assert_eq!(record.last_accessed_at_unix_micros(), 3);
}

#[test]
fn each_bucket_is_reported_once() {
    let mut record: Record<Fifo> = Record::new_at(data(), 0, 0);
    let mut reported = vec![];
    for bucket in [0, 2, 2, 1, 5, 4, 5, 6] {
        if record.advance_access_report_bucket(bucket) {
            reported.push(bucket);
        }
    }
    assert_eq!(reported, vec![2, 5, 6]);
}

#[test]
fn flags_read_as_set() {
    let mut record: Record<Fifo> = Record::new_at(data(), 0, 0);
    record.set_in_indexer(true);
    assert!(record.is_in_indexer());
    assert!(!record.is_in_eviction());
    record.set_in_eviction(true);
    let both = Flags::in_indexer().union(Flags::in_eviction());
    assert_eq!(both.bits(), 3);
    assert!(record.get_flags(both));
    record.set_in_indexer(false);
    assert!(!record.is_in_indexer());
    assert!(record.is_in_eviction());
    assert!(!record.get_flags(both));
    // No flags are always set, and setting them changes nothing.
    assert_eq!(Flags::empty().bits(), 0);
    assert!(record.get_flags(Flags::empty()));
    record.set_flags(Flags::empty(), false);
    assert!(record.is_in_eviction());
    assert_eq!(Flags::from_bits_retain(2), Flags::in_eviction());
    assert_eq!(Flags::from_bits_retain(12).bits(), 12);
    record.set_flags(both, true);
    assert!(record.get_flags(both));
    record.set_flags(both, false);
    assert!(!record.is_in_indexer());
    assert!(!record.is_in_eviction());
}

#[test]
fn releasing_undoes_referencing() {
    let mut record: Record<Fifo> = Record::new_at(data(), 0, 0);
    assert_eq!(record.inc_refs(2), 2);
    assert_eq!(record.inc_refs(3), 5);
    assert_eq!(record.dec_refs(3), 2);
    assert_eq!(record.refs(), 2);
    assert_eq!(record.dec_refs(2), 0);
}

#[test]
fn the_state_can_be_changed() {
    let mut record: Record<Fifo> = Record::new_at(data(), 0, 0);
    record.state_mut().push(4);
    assert_eq!(*record.state(), vec![4]);
    assert_eq!(record.hash(), 99);
}

#[test]
fn timestamps_saturate() {
    assert_eq!(timestamp_from_micros(None), 0);
    assert_eq!(timestamp_from_micros(Some(12)), 12);
    assert_eq!(timestamp_from_micros(Some(u64::MAX as u128)), u64::MAX);
    assert_eq!(timestamp_from_micros(Some(u64::MAX as u128 + 1)), u64::MAX);
}

#[test]
fn the_clock_counts_microseconds_since_the_epoch() {
    let now = unix_micros();
    let span = std::time::SystemTime::now().duration_since(std::time::UNIX_EPOCH).unwrap();
    assert!(now <= span.as_micros() as u64);
    // Within a minute.
    assert!(now + 60_000_000 > span.as_micros() as u64);
}
