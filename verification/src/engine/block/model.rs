//! What an index is: for each shard, a map from key hash to the latest known version.
use crate::counter::CountersView;
use crate::engine::block::indexer::{EntryAddress, HashedEntryAddress, Hashed, Index, Sequence};
use crate::engine::{CursorPosition, DiskIndexCursor, DiskIndexEntry};
use vstd::prelude::*;

verus! {

/// One shard of an index: its entries, and a counter that moves when they change.
#[verifier::ext_equal]
pub struct ShardView {
    pub entries: Map<u64, Index>,
    pub revision: u64,
}

/// The shard that `hash` belongs to in an index of `shards` shards.
pub open spec fn shard_of(hash: u64, shards: int) -> int {
    (hash as usize as int) % shards
}

/// The items of `batch` that belong to shard `s`, in their order.
pub open spec fn group<T: Hashed>(batch: Seq<T>, shards: int, s: int) -> Seq<T> {
    batch.filter(|item: T| shard_of(item.key_hash(), shards) == s)
}

/// Every hash is stored in the shard that it belongs to.
pub open spec fn well_placed(shards: Seq<ShardView>) -> bool {
    forall|s: int, hash: u64|
        0 <= s < shards.len() && #[trigger] shards[s].entries.contains_key(hash) ==> shard_of(
            hash,
            shards.len() as int,
        ) == s
}

/// The revision of a shard after an operation that may have changed it.
pub open spec fn bumped(revision: u64, changed: bool) -> u64 {
    if changed {
        revision.wrapping_add(1)
    } else {
        revision
    }
}

/// Whether a version with `sequence` may take the place of what is stored for `hash`: nothing is,
/// or what is stored is not newer. A version with the same sequence is a reinsertion.
pub open spec fn accepts(entries: Map<u64, Index>, hash: u64, sequence: Sequence) -> bool {
    entries.contains_key(hash) ==> sequence >= entries[hash].version()
}

/// The entries after offering `index` for `hash`.
pub open spec fn put(entries: Map<u64, Index>, hash: u64, index: Index) -> Map<u64, Index> {
    if accepts(entries, hash, index.version()) {
        entries.insert(hash, index)
    } else {
        entries
    }
}

/// The address that is out of use after offering `index` for `hash`: the one that was replaced, or
/// the offered one where it was refused.
pub open spec fn displaced(entries: Map<u64, Index>, hash: u64, index: Index) -> Option<
    EntryAddress,
> {
    if !entries.contains_key(hash) {
        None
    } else if accepts(entries, hash, index.version()) {
        entries[hash].live_address()
    } else {
        index.live_address()
    }
}

/// The index after `hash` is recorded as deleted at `sequence`.
pub open spec fn after_tombstone(shards: Seq<ShardView>, hash: u64, sequence: Sequence) -> Seq<
    ShardView,
> {
    let s = shard_of(hash, shards.len() as int);
    shards.update(
        s,
        ShardView {
            entries: put(shards[s].entries, hash, Index::Tombstone(sequence)),
            revision: bumped(shards[s].revision, accepts(shards[s].entries, hash, sequence)),
        },
    )
}

/// The entries after offering the addresses of `batch` one after the other.
pub open spec fn put_all(entries: Map<u64, Index>, batch: Seq<HashedEntryAddress>) -> Map<
    u64,
    Index,
>
    decreases batch.len(),
{
    if batch.len() == 0 {
        entries
    } else {
        put(
            put_all(entries, batch.drop_last()),
            batch.last().hash,
            Index::Address(batch.last().address),
        )
    }
}

/// Whether any address of `batch` is accepted when they are offered one after the other.
pub open spec fn any_accepted(entries: Map<u64, Index>, batch: Seq<HashedEntryAddress>) -> bool
    decreases batch.len(),
{
    batch.len() > 0 && (any_accepted(entries, batch.drop_last()) || accepts(
        put_all(entries, batch.drop_last()),
        batch.last().hash,
        batch.last().address.sequence,
    ))
}

/// The addresses that go out of use when those of `batch` are offered one after the other.
pub open spec fn all_displaced(
    entries: Map<u64, Index>,
    batch: Seq<HashedEntryAddress>,
) -> Seq<HashedEntryAddress>
    decreases batch.len(),
{
    if batch.len() == 0 {
        Seq::empty()
    } else {
        let before = all_displaced(entries, batch.drop_last());
        let last = batch.last();
        match displaced(
            put_all(entries, batch.drop_last()),
            last.hash,
            Index::Address(last.address),
        ) {
            Some(address) => before.push(HashedEntryAddress { hash: last.hash, address }),
            None => before,
        }
    }
}

/// The addresses that go out of use in the shards below `s` when `batch` is inserted.
pub open spec fn displaced_below(
    shards: Seq<ShardView>,
    batch: Seq<HashedEntryAddress>,
    s: int,
) -> Seq<HashedEntryAddress>
    decreases s,
{
    if s <= 0 {
        Seq::empty()
    } else {
        displaced_below(shards, batch, s - 1) + all_displaced(
            shards[s - 1].entries,
            group(batch, shards.len() as int, s - 1),
        )
    }
}

/// Shard `s` after `batch` is inserted into the index.
pub open spec fn shard_after_insert(
    shards: Seq<ShardView>,
    batch: Seq<HashedEntryAddress>,
    s: int,
) -> ShardView {
    let own = group(batch, shards.len() as int, s);
    ShardView {
        entries: put_all(shards[s].entries, own),
        revision: bumped(shards[s].revision, any_accepted(shards[s].entries, own)),
    }
}

/// The index after `batch` is inserted.
pub open spec fn after_insert(
    shards: Seq<ShardView>,
    batch: Seq<HashedEntryAddress>,
) -> Seq<ShardView> {
    Seq::new(shards.len(), |s: int| shard_after_insert(shards, batch, s))
}

/// The entries after a request to drop the version of `hash` that is not newer than `sequence`.
pub open spec fn drop_version(entries: Map<u64, Index>, hash: u64, sequence: Sequence) -> Map<
    u64,
    Index,
> {
    if accepts(entries, hash, sequence) {
        entries.remove(hash)
    } else {
        entries
    }
}

/// The address that such a request takes out of use.
pub open spec fn dropped_address(
    entries: Map<u64, Index>,
    hash: u64,
    sequence: Sequence,
) -> Option<EntryAddress> {
    if entries.contains_key(hash) && accepts(entries, hash, sequence) {
        entries[hash].live_address()
    } else {
        None
    }
}

/// The entries after the requests of `batch` one after the other.
pub open spec fn drop_all(entries: Map<u64, Index>, batch: Seq<(u64, Sequence)>) -> Map<u64, Index>
    decreases batch.len(),
{
    if batch.len() == 0 {
        entries
    } else {
        drop_version(drop_all(entries, batch.drop_last()), batch.last().0, batch.last().1)
    }
}

/// The addresses that the requests of `batch` take out of use.
pub open spec fn all_dropped(
    entries: Map<u64, Index>,
    batch: Seq<(u64, Sequence)>,
) -> Seq<HashedEntryAddress>
    decreases batch.len(),
{
    if batch.len() == 0 {
        Seq::empty()
    } else {
        let before = all_dropped(entries, batch.drop_last());
        let (hash, sequence) = batch.last();
        match dropped_address(drop_all(entries, batch.drop_last()), hash, sequence) {
            Some(address) => before.push(HashedEntryAddress { hash, address }),
            None => before,
        }
    }
}

/// The addresses that the requests of `batch` take out of use in the shards below `s`.
pub open spec fn dropped_below(
    shards: Seq<ShardView>,
    batch: Seq<(u64, Sequence)>,
    s: int,
) -> Seq<HashedEntryAddress>
    decreases s,
{
    if s <= 0 {
        Seq::empty()
    } else {
        dropped_below(shards, batch, s - 1) + all_dropped(
            shards[s - 1].entries,
            group(batch, shards.len() as int, s - 1),
        )
    }
}

/// Shard `s` after the requests of `batch`. Dropping a tombstone leaves the revision alone: it
/// changes no live entry.
pub open spec fn shard_after_remove(
    shards: Seq<ShardView>,
    batch: Seq<(u64, Sequence)>,
    s: int,
) -> ShardView {
    let own = group(batch, shards.len() as int, s);
    ShardView {
        entries: drop_all(shards[s].entries, own),
        revision: bumped(shards[s].revision, all_dropped(shards[s].entries, own).len() > 0),
    }
}

/// The index after the requests of `batch`.
pub open spec fn after_remove(
    shards: Seq<ShardView>,
    batch: Seq<(u64, Sequence)>,
) -> Seq<ShardView> {
    Seq::new(shards.len(), |s: int| shard_after_remove(shards, batch, s))
}

/// A shard after the live entry of `hash` is deleted. A tombstone stays.
pub open spec fn shard_after_delete(shard: ShardView, hash: u64) -> ShardView {
    let found = live_entry(shard.entries, hash) is Some;
    ShardView {
        entries: if found {
            shard.entries.remove(hash)
        } else {
            shard.entries
        },
        revision: bumped(shard.revision, found),
    }
}

/// The index after everything in it is dropped.
pub open spec fn after_clear(shards: Seq<ShardView>) -> Seq<ShardView> {
    shards.map_values(|shard: ShardView| shard_after_clear(shard))
}

/// The index after the live entry of `hash` is deleted.
pub open spec fn after_delete(shards: Seq<ShardView>, hash: u64) -> Seq<ShardView> {
    let s = shard_of(hash, shards.len() as int);
    shards.update(s, shard_after_delete(shards[s], hash))
}

/// The counters after an access to the live entry of `hash` at `now`.
pub open spec fn after_access(
    shards: Seq<ShardView>,
    counters: CountersView,
    hash: u64,
    now: u64,
) -> CountersView {
    match located(shards, hash) {
        Some(address) => counters.stored(address.last_accessed_at_unix_micros, now),
        None => counters,
    }
}

/// Whether a load of `hash` in `bucket` is to be reported: the hash has a live entry, and no load in
/// this bucket or a later one was reported of it.
pub open spec fn report_due(
    shards: Seq<ShardView>,
    counters: CountersView,
    hash: u64,
    bucket: u64,
) -> bool {
    match located(shards, hash) {
        Some(address) => bucket > counters.value(address.last_access_report_bucket),
        None => false,
    }
}

/// The counters after a load of `hash` in `bucket` was reported, if it was due.
pub open spec fn after_report(
    shards: Seq<ShardView>,
    counters: CountersView,
    hash: u64,
    bucket: u64,
) -> CountersView {
    match located(shards, hash) {
        Some(address) => counters.advanced(address.last_access_report_bucket, bucket),
        None => counters,
    }
}

/// A shard after everything in it is dropped.
pub open spec fn shard_after_clear(shard: ShardView) -> ShardView {
    ShardView {
        entries: Map::empty(),
        revision: bumped(shard.revision, shard.entries != Map::<u64, Index>::empty()),
    }
}

/// What is stored for `hash`.
pub open spec fn lookup(shards: Seq<ShardView>, hash: u64) -> Option<Index> {
    let entries = shards[shard_of(hash, shards.len() as int)].entries;
    if entries.contains_key(hash) {
        Some(entries[hash])
    } else {
        None
    }
}

/// The live address of `hash`.
pub open spec fn located(shards: Seq<ShardView>, hash: u64) -> Option<EntryAddress> {
    match lookup(shards, hash) {
        Some(index) => index.live_address(),
        None => None,
    }
}

/// The live entry of `hash` in a shard.
pub open spec fn live_entry(entries: Map<u64, Index>, hash: u64) -> Option<HashedEntryAddress> {
    if entries.contains_key(hash) {
        match entries[hash] {
            Index::Address(address) => Some(HashedEntryAddress { hash, address }),
            Index::Tombstone(_) => None,
        }
    } else {
        None
    }
}

/// The live entries of a shard whose hash is below `bound`, by ascending hash.
pub open spec fn live_below(entries: Map<u64, Index>, bound: nat) -> Seq<HashedEntryAddress>
    decreases bound,
{
    if bound == 0 {
        Seq::empty()
    } else {
        let before = live_below(entries, (bound - 1) as nat);
        match live_entry(entries, (bound - 1) as u64) {
            Some(entry) => before.push(entry),
            None => before,
        }
    }
}

/// The number of key hashes.
pub open spec fn hash_count() -> nat {
    0x1_0000_0000_0000_0000nat
}

/// The live entries of a shard, by ascending hash.
pub open spec fn live(entries: Map<u64, Index>) -> Seq<HashedEntryAddress> {
    live_below(entries, hash_count())
}

/// The live entries of the shards below `s`, shard by shard.
pub open spec fn live_in_shards(shards: Seq<ShardView>, s: int) -> Seq<HashedEntryAddress>
    decreases s,
{
    if s <= 0 {
        Seq::empty()
    } else {
        live_in_shards(shards, s - 1) + live(shards[s - 1].entries)
    }
}

/// All live entries of an index, shard by shard and by ascending hash within a shard.
pub open spec fn all_live(shards: Seq<ShardView>) -> Seq<HashedEntryAddress> {
    live_in_shards(shards, shards.len() as int)
}

/// The entry of a raw index page for a live entry.
pub open spec fn raw_entry(entry: HashedEntryAddress, counters: CountersView) -> DiskIndexEntry {
    DiskIndexEntry {
        hash: entry.hash,
        address: crate::engine::address_snapshot(entry.address, counters),
    }
}

/// The lesser of two numbers.
pub open spec fn least(a: int, b: int) -> int {
    if a <= b {
        a
    } else {
        b
    }
}

/// The at most `limit` items of `items` that follow the first `offset` ones.
pub open spec fn window<T>(items: Seq<T>, offset: int, limit: int) -> Seq<T> {
    items.subrange(least(offset, items.len() as int), least(offset + limit, items.len() as int))
}

/// Where a scan starts.
pub open spec fn first_position(shards: Seq<ShardView>) -> CursorPosition {
    CursorPosition { shard: 0, revision: shards[0].revision, offset: 0 }
}

/// Where a scan stands: at its cursor, or at its start if it has none.
pub open spec fn cursor_position(
    shards: Seq<ShardView>,
    cursor: Option<DiskIndexCursor>,
) -> CursorPosition {
    match cursor {
        Some(cursor) => cursor@,
        None => first_position(shards),
    }
}

/// Where a cursor stands, if there is one.
pub open spec fn optional_position(cursor: Option<DiskIndexCursor>) -> Option<CursorPosition> {
    match cursor {
        Some(cursor) => Some(cursor@),
        None => None,
    }
}

/// Whether the shard of a position was changed since the position was taken.
pub open spec fn stale(shards: Seq<ShardView>, position: CursorPosition) -> bool {
    position.revision != shards[position.shard].revision
}

/// The entries of the page at a position: none where the shard was changed, else the next live
/// entries of the shard.
pub open spec fn page_entries(
    shards: Seq<ShardView>,
    counters: CountersView,
    position: CursorPosition,
    limit: int,
) -> Seq<DiskIndexEntry> {
    if stale(shards, position) {
        Seq::empty()
    } else {
        window(live(shards[position.shard].entries), position.offset, limit).map_values(
            |entry: HashedEntryAddress| raw_entry(entry, counters),
        )
    }
}

/// Where a scan goes from a position: back to the beginning of a shard that was changed, on to the
/// rest of the shard or to the next shard, or to its end.
pub open spec fn next_position(
    shards: Seq<ShardView>,
    position: CursorPosition,
    limit: int,
) -> Option<CursorPosition> {
    let shard = shards[position.shard];
    if stale(shards, position) {
        Some(CursorPosition { revision: shard.revision, offset: 0, ..position })
    } else if position.offset + limit < live(shard.entries).len() {
        Some(CursorPosition { offset: position.offset + limit, ..position })
    } else if position.shard + 1 < shards.len() {
        Some(
            CursorPosition {
                shard: position.shard + 1,
                revision: shards[position.shard + 1].revision,
                offset: 0,
            },
        )
    } else {
        None
    }
}

} // verus!
