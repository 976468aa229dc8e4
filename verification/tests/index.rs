//! The index of entry addresses.
use foyer_blocks::clock::unix_micros;
use foyer_blocks::counter::Counters;
use foyer_blocks::engine::block::indexer::{
    EntryAddress, Hashed, HashedEntryAddress, Index, Indexer, Sequence,
};
use foyer_blocks::engine::block::manager::BlockId;
use foyer_blocks::engine::{DiskIndexCursor, DiskIndexPage, EntryAddressSnapshot};

fn counted_address(
    counters: &mut Counters,
    block: BlockId,
    offset: u32,
    sequence: Sequence,
) -> EntryAddress {
    let now = unix_micros();
    EntryAddress {
        block,
        offset,
        len: 4096,
        sequence,
        inserted_at_unix_micros: now,
        last_accessed_at_unix_micros: counters.create(now),
        last_access_report_bucket: counters.create(0),
    }
}

/// An address whose use is of no interest.
fn address(block: BlockId, offset: u32, sequence: Sequence) -> EntryAddress {
    counted_address(&mut Counters::new(), block, offset, sequence)
}

fn hashed(hash: u64, block: BlockId, offset: u32, sequence: Sequence) -> HashedEntryAddress {
    HashedEntryAddress { hash, address: address(block, offset, sequence) }
}

fn page(indexer: &Indexer, cursor: Option<DiskIndexCursor>, limit: usize) -> DiskIndexPage {
    indexer.snapshot_cursor(&Counters::new(), cursor, limit)
}

fn hashes(entries: &[HashedEntryAddress]) -> Vec<u64> {
    entries.iter().map(|entry| entry.hash).collect()
}

/// The hashes that a scan from `cursor` shows, in pages of `limit` entries.
fn scan(indexer: &Indexer, cursor: Option<DiskIndexCursor>, limit: usize) -> Vec<u64> {
    let mut found = vec![];
    let mut cursor = cursor;
    loop {
        let shown = page(indexer, cursor, limit);
        assert!(!shown.retry_shard);
        assert!(shown.entries.len() <= limit);
        found.extend(shown.entries.iter().map(|entry| entry.hash));
        cursor = shown.next_cursor;
        if cursor.is_none() {
            return found;
        }
    }
}

#[test]
fn snapshots_only_current_live_addresses() {
    let mut indexer = Indexer::new(4);
    indexer.insert_batch(vec![
        HashedEntryAddress { hash: 1, address: address(7, 4096, 1) },
        HashedEntryAddress { hash: 2, address: address(8, 4096, 2) },
    ]);

    indexer.insert_batch(vec![HashedEntryAddress { hash: 1, address: address(8, 8192, 3) }]);
    indexer.insert_tombstone(2, 4);

    assert!(indexer.snapshot_block(7).is_empty());
    let entries = indexer.snapshot_block(8);
    assert_eq!(entries.len(), 1);
    assert_eq!(entries[0].hash, 1);
    assert_eq!(entries[0].address, address(8, 8192, 3));
    assert_eq!(indexer.snapshot_all(), entries);
    assert_eq!(indexer.locate(1), Some(address(8, 8192, 3)));
}

#[test]
fn cursor_retries_mutated_shard() {
    let mut indexer = Indexer::new(1);
    indexer.insert_batch(vec![
        HashedEntryAddress { hash: 1, address: address(1, 4096, 1) },
        HashedEntryAddress { hash: 2, address: address(1, 8192, 2) },
    ]);

    let first = page(&indexer, None, 1);
    assert!(!first.retry_shard);
    assert_eq!(first.entries.len(), 1);

    indexer.insert_batch(vec![HashedEntryAddress { hash: 3, address: address(1, 12_288, 3) }]);
    let retry = page(&indexer, first.next_cursor, 1);
    assert!(retry.retry_shard);
    assert!(retry.entries.is_empty());

    let mut cursor = retry.next_cursor;
    let mut hashes = vec![];
    while let Some(current) = cursor {
        let shown = page(&indexer, Some(current), 1);
        assert!(!shown.retry_shard);
        hashes.extend(shown.entries.into_iter().map(|entry| entry.hash));
        cursor = shown.next_cursor;
    }
    hashes.sort_unstable();
    assert_eq!(hashes, vec![1, 2, 3]);
}

#[test]
fn a_batch_is_grouped_by_shard() {
    let mut indexer = Indexer::new(3);
    let olds = indexer.insert_batch(vec![
        hashed(5, 0, 0, 1),
        hashed(3, 0, 1, 1),
        hashed(4, 0, 2, 1),
        hashed(2, 0, 3, 1),
        hashed(5, 0, 4, 2),
        hashed(3, 0, 5, 2),
    ]);
    // Within a shard the order of the batch decides; shards come in ascending order.
    assert_eq!(olds, vec![hashed(3, 0, 1, 1), hashed(5, 0, 0, 1)]);
    assert_eq!(hashes(&indexer.snapshot_all()), vec![3, 4, 2, 5]);
    assert_eq!(indexer.locate(5), Some(address(0, 4, 2)));
}

#[test]
fn the_newest_version_stays() {
    let mut indexer = Indexer::new(2);
    assert_eq!(indexer.insert_batch(vec![hashed(6, 1, 0, 10)]), vec![]);
    // An older version is refused and comes back.
    assert_eq!(indexer.insert_batch(vec![hashed(6, 2, 0, 9)]), vec![hashed(6, 2, 0, 9)]);
    assert_eq!(indexer.locate(6), Some(address(1, 0, 10)));
    // A version with the same sequence is a reinsertion.
    assert_eq!(indexer.insert_batch(vec![hashed(6, 3, 0, 10)]), vec![hashed(6, 1, 0, 10)]);
    assert_eq!(indexer.locate(6), Some(address(3, 0, 10)));
    // Other hashes of the shard are left alone.
    indexer.insert_batch(vec![hashed(8, 4, 0, 1)]);
    assert_eq!(indexer.locate(6), Some(address(3, 0, 10)));
}

#[test]
fn a_deletion_hides_older_versions() {
    let mut indexer = Indexer::new(2);
    assert_eq!(indexer.insert_tombstone(1, 5), None);
    assert_eq!(indexer.insert_batch(vec![hashed(1, 1, 0, 4)]), vec![hashed(1, 1, 0, 4)]);
    assert_eq!(indexer.locate(1), None);
    assert_eq!(indexer.insert_batch(vec![hashed(1, 1, 0, 6)]), vec![]);
    assert_eq!(indexer.locate(1), Some(address(1, 0, 6)));
    // A stale deletion has no effect.
    let before = page(&indexer, None, 10);
    assert_eq!(indexer.insert_tombstone(1, 5), None);
    assert_eq!(indexer.locate(1), Some(address(1, 0, 6)));
    assert_eq!(page(&indexer, None, 10), before);
    assert_eq!(indexer.insert_tombstone(1, 6), Some(address(1, 0, 6)));
    assert_eq!(indexer.locate(1), None);
    assert_eq!(indexer.get(&mut Counters::new(), 1), None);
}

#[test]
fn removal_takes_out_live_entries_only() {
    let mut indexer = Indexer::new(2);
    indexer.insert_batch(vec![hashed(1, 1, 0, 1), hashed(3, 1, 1, 1)]);
    indexer.insert_tombstone(5, 7);
    assert_eq!(indexer.remove(1), Some(address(1, 0, 1)));
    assert_eq!(indexer.remove(1), None);
    assert_eq!(indexer.locate(3), Some(address(1, 1, 1)));
    // The tombstone stays: it still refuses older versions.
    assert_eq!(indexer.remove(5), None);
    assert_eq!(indexer.insert_batch(vec![hashed(5, 1, 2, 6)]), vec![hashed(5, 1, 2, 6)]);
}

#[test]
fn batch_removal_keeps_newer_versions() {
    let mut indexer = Indexer::new(2);
    indexer.insert_batch(vec![hashed(1, 1, 0, 3), hashed(2, 1, 1, 3), hashed(4, 1, 2, 3)]);
    indexer.insert_tombstone(6, 3);
    let removed = indexer.remove_batch_hashed(vec![(1, 2), (2, 3), (4, 9), (6, 3), (8, 1)]);
    assert_eq!(removed, vec![hashed(2, 1, 1, 3), hashed(4, 1, 2, 3)]);
    assert_eq!(indexer.locate(1), Some(address(1, 0, 3)));
    // The tombstone is gone as well.
    assert_eq!(indexer.insert_batch(vec![hashed(6, 1, 3, 1)]), vec![]);
    assert_eq!(indexer.remove_batch(vec![(1, 3), (6, 0)]), vec![address(1, 0, 3)]);
    assert_eq!(hashes(&indexer.snapshot_all()), vec![6]);
}

#[test]
fn dropping_a_tombstone_does_not_disturb_a_scan() {
    let mut indexer = Indexer::new(1);
    indexer.insert_batch(vec![hashed(1, 1, 0, 1), hashed(2, 1, 1, 1)]);
    indexer.insert_tombstone(3, 1);
    let first = page(&indexer, None, 1);
    assert_eq!(indexer.remove_batch(vec![(3, 1)]), vec![]);
    assert_eq!(scan(&indexer, first.next_cursor, 1), vec![2]);
}

#[test]
fn an_access_is_seen_by_all_who_hold_the_address() {
    let mut counters = Counters::new();
    let mut indexer = Indexer::new(2);
    let one = counted_address(&mut counters, 1, 0, 1);
    let other = counted_address(&mut counters, 1, 1, 1);
    indexer.insert_batch(vec![
        HashedEntryAddress { hash: 1, address: one },
        HashedEntryAddress { hash: 3, address: other },
    ]);
    let before = counters.load(other.last_accessed_at_unix_micros);
    let held = indexer.locate(1).unwrap();
    let first = indexer.snapshot_cursor(&counters, None, 1);
    assert_eq!(indexer.get_at(&mut counters, 1, 42), Some(one));
    for address in [one, held, indexer.locate(1).unwrap()] {
        assert_eq!(counters.load(address.last_accessed_at_unix_micros), 42);
    }
    assert_eq!(counters.load(other.last_accessed_at_unix_micros), before);
    assert_eq!(indexer.get_at(&mut counters, 9, 43), None);
    assert_eq!(counters.load(one.last_accessed_at_unix_micros), 42);
    assert_eq!(scan(&indexer, first.next_cursor, 1), vec![1, 3]);
    // An address that left the index keeps its counters.
    let removed = indexer.remove(1).unwrap();
    assert_eq!(counters.load(removed.last_accessed_at_unix_micros), 42);
}

#[test]
fn get_reads_the_clock() {
    let mut counters = Counters::new();
    let mut indexer = Indexer::new(2);
    let address = counted_address(&mut counters, 1, 0, 1);
    indexer.insert_batch(vec![HashedEntryAddress { hash: 1, address }]);
    counters.store(address.last_accessed_at_unix_micros, 0);
    let before = unix_micros();
    assert_eq!(indexer.get(&mut counters, 1), Some(address));
    let seen = counters.load(address.last_accessed_at_unix_micros);
    // 2020-01-01, in microseconds since the epoch.
    assert!(seen > 1_577_836_800_000_000);
    assert!(seen >= before);
    assert!(seen <= unix_micros());
}

#[test]
fn clearing_leaves_nothing() {
    let mut indexer = Indexer::new(3);
    indexer.insert_batch(vec![hashed(1, 1, 0, 1)]);
    indexer.insert_tombstone(2, 1);
    indexer.clear();
    assert_eq!(indexer.snapshot_all(), vec![]);
    assert_eq!(indexer.locate(1), None);
    // The revisions of the shards that held something moved on.
    assert_eq!(page(&indexer, None, 1).revision, 0);
    let second = page(&indexer, None, 1).next_cursor;
    assert_eq!(page(&indexer, second, 1).revision, 2);
    // The tombstone is gone too.
    assert_eq!(indexer.insert_batch(vec![hashed(2, 1, 0, 0)]), vec![]);
}

#[test]
fn adjacent_pages_join() {
    let mut indexer = Indexer::new(3);
    indexer.insert_batch((0..10).map(|hash| hashed(hash, 1, 0, 1)).collect());
    indexer.insert_tombstone(4, 2);
    let all = indexer.snapshot_all();
    assert_eq!(hashes(&all), vec![0, 3, 6, 9, 1, 7, 2, 5, 8]);
    let mut pages = vec![];
    for offset in [0, 4, 8, 12] {
        let (total, page) = indexer.snapshot_page(offset, 4);
        assert_eq!(total, 9);
        pages.extend(page);
    }
    assert_eq!(pages, all);
    assert_eq!(indexer.live_entries(), Some(9));
    assert_eq!(indexer.snapshot_page(0, 0), (9, vec![]));
    assert_eq!(indexer.snapshot_page(usize::MAX, usize::MAX), (9, vec![]));
    assert_eq!(Indexer::new(0).snapshot_page(0, 1), (0, vec![]));
}

#[test]
fn a_scan_shows_every_live_entry() {
    let mut indexer = Indexer::new(3);
    indexer.insert_batch((0..10).map(|hash| hashed(hash, 1, 0, 1)).collect());
    indexer.insert_tombstone(4, 2);
    for limit in 1..12 {
        assert_eq!(scan(&indexer, None, limit), hashes(&indexer.snapshot_all()));
    }
}

#[test]
fn a_page_shows_raw_entries() {
    let mut counters = Counters::new();
    let mut indexer = Indexer::new(2);
    indexer.insert_batch(vec![HashedEntryAddress {
        hash: 3,
        address: EntryAddress {
            block: 1,
            offset: 2,
            len: 3,
            sequence: 4,
            inserted_at_unix_micros: 5,
            last_accessed_at_unix_micros: counters.create(6),
            last_access_report_bucket: counters.create(7),
        },
    }]);
    let empty = indexer.snapshot_cursor(&counters, None, 5);
    assert_eq!(empty.shard, 0);
    assert_eq!(empty.revision, 0);
    assert!(empty.entries.is_empty());
    let mut expected = EntryAddressSnapshot {
        block: 1,
        offset: 2,
        len: 3,
        sequence: 4,
        inserted_at_unix_micros: 5,
        last_accessed_at_unix_micros: 6,
    };
    let shown = indexer.snapshot_cursor(&counters, empty.next_cursor, 5);
    assert_eq!(shown.shard, 1);
    assert_eq!(shown.revision, 1);
    assert_eq!(shown.next_cursor, None);
    assert_eq!(shown.entries.len(), 1);
    assert_eq!(shown.entries[0].hash, 3);
    assert_eq!(shown.entries[0].address, expected);
    indexer.get_at(&mut counters, 3, 60);
    expected.last_accessed_at_unix_micros = 60;
    let shown = indexer.snapshot_cursor(&counters, empty.next_cursor, 5);
    assert_eq!(shown.entries[0].address, expected);
}

#[test]
fn every_change_of_live_entries_is_noticed_by_a_scan() {
    let changes: Vec<fn(&mut Indexer)> = vec![
        |indexer| {
            indexer.insert_batch(vec![hashed(3, 1, 0, 1)]);
        },
        |indexer| {
            indexer.insert_tombstone(2, 9);
        },
        |indexer| {
            indexer.remove(1);
        },
        |indexer| {
            indexer.remove_batch(vec![(1, 9)]);
        },
        |indexer| indexer.clear(),
    ];
    for change in changes {
        let mut indexer = Indexer::new(1);
        indexer.insert_batch(vec![hashed(1, 1, 0, 1), hashed(2, 1, 1, 1)]);
        let first = page(&indexer, None, 1);
        assert_eq!(first.revision, 1);
        change(&mut indexer);
        let retry = page(&indexer, first.next_cursor, 1);
        assert!(retry.retry_shard);
        assert_eq!(retry.revision, 2);
        assert_eq!(scan(&indexer, retry.next_cursor, 1), hashes(&indexer.snapshot_all()));
    }
}

#[test]
fn every_address_is_accounted_for() {
    let mut indexer = Indexer::new(2);
    let offered = vec![
        hashed(1, 1, 0, 1),
        hashed(2, 1, 1, 1),
        hashed(1, 1, 2, 2),
        hashed(1, 1, 3, 1),
        hashed(3, 1, 4, 1),
    ];
    let mut accounted = indexer.insert_batch(offered.clone());
    accounted.extend(indexer.remove_batch_hashed(vec![(2, 1), (2, 1)]));
    accounted.extend(indexer.snapshot_all());
    let mut offsets: Vec<u32> = accounted.iter().map(|entry| entry.address.offset).collect();
    offsets.sort_unstable();
    assert_eq!(offsets, vec![0, 1, 2, 3, 4]);
}

#[test]
fn hashes_and_sequences_are_read() {
    assert_eq!(Index::Tombstone(9).sequence(), 9);
    assert_eq!(Index::Address(address(1, 2, 8)).sequence(), 8);
    assert_eq!(hashed(5, 1, 2, 3).hash(), 5);
    let pair: (u64, Sequence) = (6, 7);
    assert_eq!(pair.hash(), 6);
}

#[test]
fn addresses_are_equal_if_they_locate_the_same_version() {
    let mut counters = Counters::new();
    let one = counted_address(&mut counters, 1, 2, 3);
    let other = counted_address(&mut counters, 1, 2, 3);
    assert_ne!(one.last_accessed_at_unix_micros, other.last_accessed_at_unix_micros);
    assert_eq!(one, other);
    assert_ne!(one, address(1, 2, 4));
    assert_ne!(one, address(1, 3, 3));
    assert_ne!(one, address(2, 2, 3));
    assert_ne!(one, EntryAddress { len: 1, ..one });
}

#[test]
fn a_cursor_may_belong_to_a_larger_index() {
    let large = Indexer::new(2);
    let cursor = page(&large, None, 1).next_cursor.unwrap();
    assert!(large.has_shard_of(&cursor));
    assert!(!Indexer::new(1).has_shard_of(&cursor));
}

#[test]
fn each_bucket_of_an_entry_is_reported_once() {
    let mut counters = Counters::new();
    let mut indexer = Indexer::new(2);
    assert!(!indexer.advance_access_report_bucket(&mut counters, 1, 5));
    let one = counted_address(&mut counters, 1, 0, 1);
    let other = counted_address(&mut counters, 1, 1, 1);
    indexer.insert_batch(vec![
        HashedEntryAddress { hash: 1, address: one },
        HashedEntryAddress { hash: 3, address: other },
    ]);
    let time = counters.load(one.last_accessed_at_unix_micros);
    let mut reported = vec![];
    for bucket in [0, 2, 2, 1, 5] {
        if indexer.advance_access_report_bucket(&mut counters, 1, bucket) {
            reported.push(bucket);
        }
    }
    assert_eq!(reported, vec![2, 5]);
    assert_eq!(counters.load(one.last_access_report_bucket), 5);
    assert_eq!(counters.load(one.last_accessed_at_unix_micros), time);
    assert_eq!(counters.load(other.last_access_report_bucket), 0);
    // Whoever holds the address can report a load.
    assert!(counters.advance(one.last_access_report_bucket, 6));
    assert!(!indexer.advance_access_report_bucket(&mut counters, 1, 6));
    indexer.insert_tombstone(1, 2);
    assert!(!indexer.advance_access_report_bucket(&mut counters, 1, 9));
}

#[test]
fn only_changes_of_its_shard_make_a_cursor_retry() {
    let mut indexer = Indexer::new(2);
    indexer.insert_batch((0..6).map(|hash| hashed(hash, 1, 0, 1)).collect());
    let first = page(&indexer, None, 1);
    // Looks, uses, and changes of the other shard.
    let mut counters = Counters::new();
    indexer.locate(2);
    indexer.get(&mut counters, 2);
    indexer.advance_access_report_bucket(&mut counters, 2, 1);
    indexer.snapshot_all();
    indexer.insert_batch(vec![hashed(7, 1, 0, 1)]);
    indexer.insert_tombstone(1, 9);
    indexer.remove(3);
    indexer.remove_batch(vec![(5, 9)]);
    let second = page(&indexer, first.next_cursor, 1);
    assert!(!second.retry_shard);
    assert_eq!(second.entries[0].hash, 2);
    // A change that is taken back is a change as well.
    indexer.remove(4);
    indexer.insert_batch(vec![hashed(4, 1, 0, 1)]);
    let retry = page(&indexer, second.next_cursor, 1);
    assert!(retry.retry_shard);
    assert!(retry.entries.is_empty());
    assert_eq!(scan(&indexer, retry.next_cursor, 1), vec![0, 2, 4, 7]);
}

#[test]
fn a_page_may_be_as_large_as_it_likes() {
    let mut indexer = Indexer::new(2);
    indexer.insert_batch((0..4).map(|hash| hashed(hash, 1, 0, 1)).collect());
    assert_eq!(scan(&indexer, None, usize::MAX), vec![0, 2, 1, 3]);
    assert_eq!(scan(&indexer, None, usize::MAX - 1), vec![0, 2, 1, 3]);
}

#[test]
fn copies_of_a_counter_share_its_value() {
    let mut counters = Counters::new();
    let one = counters.create(3);
    let other = counters.create(4);
    assert_eq!(counters.created(), 2);
    assert_ne!(one, other);
    let copy = one;
    counters.store(one, 5);
    assert_eq!(counters.load(copy), 5);
    assert_eq!(counters.load(other), 4);
    assert!(counters.advance(copy, 6));
    assert!(!counters.advance(one, 6));
    assert_eq!(counters.load(one), 6);
    counters.release(one);
    assert_eq!(counters.load(copy), 0);
    assert_eq!(counters.load(other), 4);
    // A released counter is not given out again.
    assert_ne!(counters.create(9), one);
    assert_eq!(counters.load(copy), 0);
}
