//! What holds of an index whatever is done to it.
use crate::counter::{Counter, CountersView};
use crate::engine::block::indexer::{EntryAddress, Hashed, HashedEntryAddress, Index, Sequence};
use crate::engine::block::model;
use crate::engine::block::model::ShardView;
use crate::engine::{CursorPosition, DiskIndexEntry};
use crate::record;
use vstd::multiset::Multiset;
use vstd::prelude::*;

verus! {

/// The listing of a shard below a bound holds every live entry below it, and nothing else, by
/// ascending hash.
pub proof fn law_live_below_lists_live_entries(entries: Map<u64, Index>, bound: nat)
    requires
        bound <= model::hash_count(),
    ensures
        forall|hash: u64|
            hash < bound && (#[trigger] model::live_entry(entries, hash)) is Some
                ==> model::live_below(entries, bound).contains(
                model::live_entry(entries, hash)->0,
            ),
        forall|i: int|
            0 <= i < model::live_below(entries, bound).len() ==> model::live_entry(
                entries,
                (#[trigger] model::live_below(entries, bound)[i]).hash,
            ) == Some(model::live_below(entries, bound)[i]) && model::live_below(
                entries,
                bound,
            )[i].hash < bound,
        forall|i: int, j: int|
            0 <= i < j < model::live_below(entries, bound).len() ==> (
            #[trigger] model::live_below(entries, bound)[i]).hash < (#[trigger] model::live_below(
                entries,
                bound,
            )[j]).hash,
    decreases bound,
{
    if bound > 0 {
        law_live_below_lists_live_entries(entries, (bound - 1) as nat);
        let before = model::live_below(entries, (bound - 1) as nat);
        let listed = model::live_below(entries, bound);
        assert forall|hash: u64|
            hash < bound && (#[trigger] model::live_entry(entries, hash)) is Some implies
            listed.contains(model::live_entry(entries, hash)->0) by {
            let entry = model::live_entry(entries, hash)->0;
            if hash == bound - 1 {
                assert(listed[listed.len() - 1] == entry);
            } else {
                assert(before.contains(entry));
                let i = choose|i: int| 0 <= i < before.len() && before[i] == entry;
                assert(listed[i] == entry);
            }
        }
    }
}

/// The live entries of the first shards hold those of each of them.
proof fn lemma_live_in_shards_contains(shards: Seq<ShardView>, s: int, entry: HashedEntryAddress)
    requires
        0 <= s <= shards.len(),
    ensures
        model::live_in_shards(shards, s).contains(entry) <==> exists|i: int|
            0 <= i < s && model::live((#[trigger] shards[i]).entries).contains(entry),
    decreases s,
{
    if s > 0 {
        lemma_live_in_shards_contains(shards, s - 1, entry);
        let before = model::live_in_shards(shards, s - 1);
        let own = model::live(shards[s - 1].entries);
        let all = model::live_in_shards(shards, s);
        assert(all == before + own);
        if all.contains(entry) {
            let k = choose|k: int| 0 <= k < all.len() && all[k] == entry;
            if k < before.len() {
                assert(before[k] == entry);
            } else {
                assert(own[k - before.len()] == entry);
            }
        }
        if before.contains(entry) {
            let k = choose|k: int| 0 <= k < before.len() && before[k] == entry;
            assert(all[k] == entry);
        }
        if own.contains(entry) {
            let k = choose|k: int| 0 <= k < own.len() && own[k] == entry;
            assert(all[before.len() + k] == entry);
        }
    }
}

/// A snapshot of the whole index and a lookup agree: an entry is in the snapshot exactly if its
/// address is the one located for its hash.
pub proof fn law_snapshot_agrees_with_locate(shards: Seq<ShardView>, entry: HashedEntryAddress)
    requires
        shards.len() > 0,
        model::well_placed(shards),
    ensures
        model::all_live(shards).contains(entry) <==> model::located(shards, entry.hash) == Some(
            entry.address,
        ),
{
    let n = shards.len() as int;
    let own = model::shard_of(entry.hash, n);
    lemma_live_in_shards_contains(shards, n, entry);
    assert forall|s: int| 0 <= s < n implies (model::live((#[trigger] shards[s]).entries).contains(
        entry,
    ) <==> model::live_entry(shards[s].entries, entry.hash) == Some(entry)) by {
        law_live_below_lists_live_entries(shards[s].entries, model::hash_count());
        let listed = model::live(shards[s].entries);
        if listed.contains(entry) {
            let i = choose|i: int| 0 <= i < listed.len() && listed[i] == entry;
            assert(model::live_entry(shards[s].entries, listed[i].hash) == Some(listed[i]));
        }
    }
    if model::all_live(shards).contains(entry) {
        let s = choose|s: int|
            0 <= s < n && model::live((#[trigger] shards[s]).entries).contains(entry);
        assert(shards[s].entries.contains_key(entry.hash));
        assert(s == own);
    }
    if model::located(shards, entry.hash) == Some(entry.address) {
        assert(model::live(shards[own].entries).contains(entry));
    }
}

/// No hash occurs twice in a snapshot of the whole index.
pub proof fn law_snapshot_has_each_hash_once(shards: Seq<ShardView>, i: int, j: int)
    requires
        model::well_placed(shards),
        0 <= i < j < model::all_live(shards).len(),
    ensures
        model::all_live(shards)[i].hash != model::all_live(shards)[j].hash,
{
    lemma_distinct_in_shards(shards, shards.len() as int);
}

proof fn lemma_distinct_in_shards(shards: Seq<ShardView>, s: int)
    requires
        model::well_placed(shards),
        0 <= s <= shards.len(),
    ensures
        forall|i: int, j: int|
            0 <= i < j < model::live_in_shards(shards, s).len() ==> (
            #[trigger] model::live_in_shards(shards, s)[i]).hash != (
            #[trigger] model::live_in_shards(shards, s)[j]).hash,
    decreases s,
{
    if s > 0 {
        lemma_distinct_in_shards(shards, s - 1);
        let before = model::live_in_shards(shards, s - 1);
        let own = model::live(shards[s - 1].entries);
        let all = model::live_in_shards(shards, s);
        assert(all == before + own);
        law_live_below_lists_live_entries(shards[s - 1].entries, model::hash_count());
        assert forall|i: int, j: int| 0 <= i < j < all.len() implies (#[trigger] all[i]).hash != (
        #[trigger] all[j]).hash by {
            if i < before.len() && j >= before.len() {
                assert(before.contains(before[i]));
                lemma_live_in_shards_contains(shards, s - 1, before[i]);
                let r = choose|r: int|
                    0 <= r < s - 1 && model::live((#[trigger] shards[r]).entries).contains(
                        before[i],
                    );
                law_live_below_lists_live_entries(shards[r].entries, model::hash_count());
                let listed = model::live(shards[r].entries);
                let k = choose|k: int| 0 <= k < listed.len() && listed[k] == before[i];
                assert(model::live_entry(shards[r].entries, listed[k].hash) is Some);
                assert(shards[r].entries.contains_key(all[i].hash));
                assert(model::live_entry(
                    shards[s - 1].entries,
                    own[j - before.len()].hash,
                ) is Some);
                assert(shards[s - 1].entries.contains_key(all[j].hash));
            }
        }
    }
}

/// What is stored for `hash` after addresses are offered to a shard one after the other.
proof fn lemma_put_all_newest(entries: Map<u64, Index>, batch: Seq<HashedEntryAddress>, hash: u64)
    ensures
        ({
            let after = model::put_all(entries, batch);
            &&& entries.contains_key(hash) ==> after.contains_key(hash) && after[hash].version()
                >= entries[hash].version()
            &&& forall|i: int|
                0 <= i < batch.len() && (#[trigger] batch[i]).hash == hash ==> after.contains_key(
                    hash,
                ) && after[hash].version() >= batch[i].address.sequence
            &&& {
                ||| after.contains_key(hash) == entries.contains_key(hash) && after[hash]
                    == entries[hash] && forall|i: int|
                    0 <= i < batch.len() && (#[trigger] batch[i]).hash == hash ==> after[hash].version()
                        > batch[i].address.sequence
                ||| exists|j: int|
                    0 <= j < batch.len() && (#[trigger] batch[j]).hash == hash
                        && after.contains_key(hash) && after[hash] == Index::Address(
                        batch[j].address,
                    ) && forall|i: int|
                        j < i < batch.len() && (#[trigger] batch[i]).hash == hash
                            ==> batch[i].address.sequence < batch[j].address.sequence
            }
        }),
    decreases batch.len(),
{
    if batch.len() > 0 {
        let rest = batch.drop_last();
        let last = batch.last();
        let middle = model::put_all(entries, rest);
        let after = model::put_all(entries, batch);
        lemma_put_all_newest(entries, rest, hash);
        assert(forall|i: int| 0 <= i < rest.len() ==> rest[i] == #[trigger] batch[i]);
        if last.hash == hash && model::accepts(middle, hash, last.address.sequence) {
            let j = batch.len() - 1;
            assert(batch[j].hash == hash && after[hash] == Index::Address(batch[j].address));
        } else {
            assert(after.contains_key(hash) == middle.contains_key(hash));
            assert(after[hash] == middle[hash]);
            if exists|j: int|
                0 <= j < rest.len() && (#[trigger] rest[j]).hash == hash && middle.contains_key(
                    hash,
                ) && middle[hash] == Index::Address(rest[j].address) && forall|i: int|
                    j < i < rest.len() && (#[trigger] rest[i]).hash == hash
                        ==> rest[i].address.sequence < rest[j].address.sequence {
                let j = choose|j: int|
                    0 <= j < rest.len() && (#[trigger] rest[j]).hash == hash
                        && middle.contains_key(hash) && middle[hash] == Index::Address(
                        rest[j].address,
                    ) && forall|i: int|
                        j < i < rest.len() && (#[trigger] rest[i]).hash == hash
                            ==> rest[i].address.sequence < rest[j].address.sequence;
                assert(batch[j].hash == hash);
                assert forall|i: int|
                    j < i < batch.len() && (#[trigger] batch[i]).hash == hash implies
                    batch[i].address.sequence < batch[j].address.sequence by {
                    if i < rest.len() {
                        assert(rest[i].hash == hash);
                    }
                }
            }
        }
    }
}

/// Whether two maps store the same for `hash`.
spec fn same_at(a: Map<u64, Index>, b: Map<u64, Index>, hash: u64) -> bool {
    a.contains_key(hash) == b.contains_key(hash) && (a.contains_key(hash) ==> a[hash] == b[hash])
}

/// For a hash of shard `s`, offering the items of that shard is as good as offering all items.
proof fn lemma_put_group(
    entries: Map<u64, Index>,
    batch: Seq<HashedEntryAddress>,
    shards: int,
    s: int,
)
    ensures
        forall|hash: u64| #[trigger]
            model::shard_of(hash, shards) == s ==> same_at(
                model::put_all(entries, model::group(batch, shards, s)),
                model::put_all(entries, batch),
                hash,
            ),
    decreases batch.len(),
{
    reveal(Seq::filter);
    if batch.len() > 0 {
        let rest = batch.drop_last();
        let last = batch.last();
        lemma_put_group(entries, rest, shards, s);
        let own = model::group(batch, shards, s);
        if model::shard_of(last.key_hash(), shards) == s {
            assert(own == model::group(rest, shards, s).push(last));
            assert(own.drop_last() == model::group(rest, shards, s));
            assert(same_at(
                model::put_all(entries, model::group(rest, shards, s)),
                model::put_all(entries, rest),
                last.hash,
            ));
        } else {
            assert(own == model::group(rest, shards, s));
        }
    }
}

/// Of the versions offered for a hash and the one stored for it the newest stays: the last offered
/// one among the newest offered, unless the stored one is newer than all of them.
pub proof fn law_newest_version_stays(
    shards: Seq<ShardView>,
    batch: Seq<HashedEntryAddress>,
    hash: u64,
)
    requires
        shards.len() > 0,
    ensures
        ({
            let before = model::lookup(shards, hash);
            let after = model::lookup(model::after_insert(shards, batch), hash);
            ||| after == before && forall|i: int|
                0 <= i < batch.len() && (#[trigger] batch[i]).hash == hash ==> before is Some
                    && before->0.version() > batch[i].address.sequence
            ||| exists|j: int|
                0 <= j < batch.len() && (#[trigger] batch[j]).hash == hash && after == Some(
                    Index::Address(batch[j].address),
                ) && (before is Some ==> before->0.version() <= batch[j].address.sequence)
                    && (forall|i: int|
                    0 <= i < batch.len() && (#[trigger] batch[i]).hash == hash
                        ==> batch[i].address.sequence <= batch[j].address.sequence) && (forall|
                    i: int,
                |
                    j < i < batch.len() && (#[trigger] batch[i]).hash == hash
                        ==> batch[i].address.sequence < batch[j].address.sequence)
        }),
{
    let n = shards.len() as int;
    let s = model::shard_of(hash, n);
    let entries = shards[s].entries;
    lemma_put_group(entries, batch, n, s);
    assert(same_at(
        model::put_all(entries, model::group(batch, n, s)),
        model::put_all(entries, batch),
        hash,
    ));
    lemma_put_all_newest(entries, batch, hash);
}

/// A hash that no item of a batch belongs to is not affected by inserting the batch.
pub proof fn law_insert_leaves_other_hashes(
    shards: Seq<ShardView>,
    batch: Seq<HashedEntryAddress>,
    hash: u64,
)
    requires
        shards.len() > 0,
        forall|i: int| 0 <= i < batch.len() ==> (#[trigger] batch[i]).hash != hash,
    ensures
        model::lookup(model::after_insert(shards, batch), hash) == model::lookup(shards, hash),
{
    law_newest_version_stays(shards, batch, hash);
}

/// A read gives back what was written: after an address that is not older than what is stored is
/// inserted, it is the one located.
pub proof fn law_locate_gives_back_insert(
    shards: Seq<ShardView>,
    entry: HashedEntryAddress,
)
    requires
        shards.len() > 0,
        model::lookup(shards, entry.hash) matches Some(stored) ==> stored.version()
            <= entry.address.sequence,
    ensures
        model::located(model::after_insert(shards, seq![entry]), entry.hash) == Some(entry.address),
{
    let batch = seq![entry];
    law_newest_version_stays(shards, batch, entry.hash);
    assert(batch[0].hash == entry.hash);
}

/// A deletion hides the entry, and an address that is older than the deletion does not bring it
/// back.
pub proof fn law_deleted_stays_deleted(
    shards: Seq<ShardView>,
    hash: u64,
    sequence: Sequence,
    batch: Seq<HashedEntryAddress>,
)
    requires
        shards.len() > 0,
        model::lookup(shards, hash) matches Some(stored) ==> stored.version() <= sequence,
        forall|i: int|
            0 <= i < batch.len() && (#[trigger] batch[i]).hash == hash
                ==> batch[i].address.sequence < sequence,
    ensures
        ({
            let deleted = model::after_tombstone(shards, hash, sequence);
            &&& model::located(deleted, hash) is None
            &&& model::located(model::after_insert(deleted, batch), hash) is None
        }),
{
    let deleted = model::after_tombstone(shards, hash, sequence);
    assert(model::lookup(deleted, hash) == Some(Index::Tombstone(sequence)));
    law_newest_version_stays(deleted, batch, hash);
}

/// A deletion that is older than what is stored has no effect.
pub proof fn law_stale_deletion_has_no_effect(
    shards: Seq<ShardView>,
    hash: u64,
    sequence: Sequence,
)
    requires
        shards.len() > 0,
        model::lookup(shards, hash) matches Some(stored) && stored.version() > sequence,
    ensures
        model::after_tombstone(shards, hash, sequence) == shards,
{
    let s = model::shard_of(hash, shards.len() as int);
    assert(model::after_tombstone(shards, hash, sequence)[s] == shards[s]);
    assert(model::after_tombstone(shards, hash, sequence) == shards);
}

/// An access sets the time of the last access to the entry, for all who hold its address, and no other
/// counter.
pub proof fn law_access_sets_time_only(
    shards: Seq<ShardView>,
    counters: CountersView,
    hash: u64,
    now: u64,
    other: Counter,
)
    ensures
        ({
            let after = model::after_access(shards, counters, hash, now);
            &&& match model::located(shards, hash) {
                Some(address) => {
                    let time = address.last_accessed_at_unix_micros;
                    &&& after.value(time) == now
                    &&& other@ != time@ ==> after.value(other) == counters.value(other)
                },
                None => after == counters,
            }
        }),
{
}

/// A report advances the last reported bucket of the entry, for all who hold its address, and no other
/// counter.
pub proof fn law_report_advances_bucket_only(
    shards: Seq<ShardView>,
    counters: CountersView,
    hash: u64,
    bucket: u64,
    other: Counter,
)
    ensures
        ({
            let after = model::after_report(shards, counters, hash, bucket);
            &&& match model::located(shards, hash) {
                Some(address) => {
                    let last = address.last_access_report_bucket;
                    &&& after.value(last) == record::bucket_after(counters.value(last), bucket)
                    &&& other@ != last@ ==> after.value(other) == counters.value(other)
                },
                None => after == counters,
            }
        }),
{
}

/// After the entry of a hash is removed nothing is located for the hash, and other hashes are as
/// before.
pub proof fn law_removed_is_not_located(shards: Seq<ShardView>, hash: u64, other: u64)
    requires
        shards.len() > 0,
    ensures
        model::located(model::after_delete(shards, hash), hash) is None,
        other != hash ==> model::lookup(model::after_delete(shards, hash), other) == model::lookup(
            shards,
            other,
        ),
{
}

/// What is stored for `hash` after requests to drop versions one after the other.
pub proof fn lemma_drop_all_at(entries: Map<u64, Index>, batch: Seq<(u64, Sequence)>, hash: u64)
    ensures
        model::drop_all(entries, batch).contains_key(hash) <==> entries.contains_key(hash)
            && forall|i: int|
            0 <= i < batch.len() && (#[trigger] batch[i]).0 == hash ==> batch[i].1
                < entries[hash].version(),
        model::drop_all(entries, batch).contains_key(hash) ==> model::drop_all(entries, batch)[hash]
            == entries[hash],
    decreases batch.len(),
{
    if batch.len() > 0 {
        let rest = batch.drop_last();
        lemma_drop_all_at(entries, rest, hash);
        assert(forall|i: int| 0 <= i < rest.len() ==> rest[i] == #[trigger] batch[i]);
        assert(batch[batch.len() - 1] == batch.last());
        if model::drop_all(entries, batch).contains_key(hash) {
            assert forall|i: int| 0 <= i < batch.len() && (#[trigger] batch[i]).0 == hash implies
                batch[i].1 < entries[hash].version() by {
                if i < rest.len() {
                    assert(rest[i].0 == hash);
                }
            }
        }
    }
}

/// For a hash of shard `s`, the requests for that shard are as good as all requests.
proof fn lemma_drop_group(
    entries: Map<u64, Index>,
    batch: Seq<(u64, Sequence)>,
    shards: int,
    s: int,
)
    ensures
        forall|hash: u64| #[trigger]
            model::shard_of(hash, shards) == s ==> same_at(
                model::drop_all(entries, model::group(batch, shards, s)),
                model::drop_all(entries, batch),
                hash,
            ),
    decreases batch.len(),
{
    reveal(Seq::filter);
    if batch.len() > 0 {
        let rest = batch.drop_last();
        let last = batch.last();
        lemma_drop_group(entries, rest, shards, s);
        let own = model::group(batch, shards, s);
        if model::shard_of(last.key_hash(), shards) == s {
            assert(own == model::group(rest, shards, s).push(last));
            assert(own.drop_last() == model::group(rest, shards, s));
            assert(same_at(
                model::drop_all(entries, model::group(rest, shards, s)),
                model::drop_all(entries, rest),
                last.0,
            ));
        } else {
            assert(own == model::group(rest, shards, s));
        }
    }
}

/// A batch removal takes away exactly the versions that are not newer than some request for their
/// hash, tombstones among them, and leaves the others as they are.
pub proof fn law_batch_removal_keeps_newer(
    shards: Seq<ShardView>,
    batch: Seq<(u64, Sequence)>,
    hash: u64,
)
    requires
        shards.len() > 0,
    ensures
        model::lookup(model::after_remove(shards, batch), hash) == match model::lookup(
            shards,
            hash,
        ) {
            Some(stored) => if exists|i: int|
                0 <= i < batch.len() && (#[trigger] batch[i]).0 == hash && batch[i].1
                    >= stored.version() {
                None
            } else {
                Some(stored)
            },
            None => None,
        },
{
    let n = shards.len() as int;
    let s = model::shard_of(hash, n);
    lemma_drop_group(shards[s].entries, batch, n, s);
    assert(same_at(
        model::drop_all(shards[s].entries, model::group(batch, n, s)),
        model::drop_all(shards[s].entries, batch),
        hash,
    ));
    lemma_drop_all_at(shards[s].entries, batch, hash);
}

/// After the index is cleared nothing is stored for any hash.
pub proof fn law_cleared_is_empty(shards: Seq<ShardView>, hash: u64)
    requires
        shards.len() > 0,
    ensures
        model::lookup(
            shards.map_values(|shard: ShardView| model::shard_after_clear(shard)),
            hash,
        ) is None,
{
}

/// Adjacent pages of a snapshot make up the larger page.
pub proof fn law_adjacent_pages_join<T>(items: Seq<T>, offset: int, first: int, second: int)
    requires
        0 <= offset,
        0 <= first,
        0 <= second,
    ensures
        model::window(items, offset, first) + model::window(items, offset + first, second)
            == model::window(items, offset, first + second),
        items.len() <= first ==> model::window(items, 0, first) == items,
{
}

/// What a scan of an unchanging index shows from a position on, page by page.
pub open spec fn scan(
    shards: Seq<ShardView>,
    counters: CountersView,
    position: CursorPosition,
    limit: int,
) -> Seq<DiskIndexEntry>
    decreases
            shards.len() - position.shard,
            if model::stale(shards, position) {
                1int
            } else {
                0int
            },
            model::live(shards[position.shard].entries).len() - position.offset,
    when 0 < limit && 0 <= position.shard < shards.len() && 0 <= position.offset
{
    let page = model::page_entries(shards, counters, position, limit);
    match model::next_position(shards, position, limit) {
        Some(next) => page + scan(shards, counters, next, limit),
        None => page,
    }
}

/// The live entries of the shards from `s` on, shard by shard.
pub open spec fn live_from(shards: Seq<ShardView>, s: int) -> Seq<HashedEntryAddress>
    decreases shards.len() - s,
{
    if s >= shards.len() {
        Seq::empty()
    } else {
        model::live(shards[s].entries) + live_from(shards, s + 1)
    }
}

proof fn lemma_live_split(shards: Seq<ShardView>, s: int)
    requires
        0 <= s <= shards.len(),
    ensures
        model::live_in_shards(shards, s) + live_from(shards, s) == model::all_live(shards),
    decreases shards.len() - s,
{
    if s < shards.len() {
        lemma_live_split(shards, s + 1);
        assert(model::live_in_shards(shards, s) + live_from(shards, s) == model::live_in_shards(
            shards,
            s + 1,
        ) + live_from(shards, s + 1));
    } else {
        assert(live_from(shards, s) == Seq::<HashedEntryAddress>::empty());
    }
}

/// The raw entries of live entries.
pub open spec fn raw_entries(
    entries: Seq<HashedEntryAddress>,
    counters: CountersView,
) -> Seq<DiskIndexEntry> {
    entries.map_values(|entry: HashedEntryAddress| model::raw_entry(entry, counters))
}

/// What is left of a shard behind its first `offset` live entries.
pub open spec fn live_after(shard: ShardView, offset: int) -> Seq<HashedEntryAddress> {
    let live = model::live(shard.entries);
    live.skip(model::least(offset, live.len() as int))
}

/// A scan whose shard did not change since its cursor was made shows the rest of that shard and all
/// of the later shards, every entry once.
pub proof fn law_scan_shows_the_rest(
    shards: Seq<ShardView>,
    counters: CountersView,
    position: CursorPosition,
    limit: int,
)
    requires
        0 < limit,
        0 <= position.shard < shards.len(),
        0 <= position.offset,
        !model::stale(shards, position),
    ensures
        scan(shards, counters, position, limit) == raw_entries(
            live_after(shards[position.shard], position.offset) + live_from(
                shards,
                position.shard + 1,
            ),
            counters,
        ),
    decreases
            shards.len() - position.shard,
            model::live(shards[position.shard].entries).len() - position.offset,
{
    let live = model::live(shards[position.shard].entries);
    let page = model::page_entries(shards, counters, position, limit);
    let later = live_from(shards, position.shard + 1);
    let rest = live_after(shards[position.shard], position.offset) + later;
    let shown = scan(shards, counters, position, limit);
    match model::next_position(shards, position, limit) {
        Some(next) => {
            law_scan_shows_the_rest(shards, counters, next, limit);
            if next.shard == position.shard {
                assert(shown == raw_entries(rest, counters));
            } else {
                assert(live_after(shards[next.shard], 0) == model::live(
                    shards[next.shard].entries,
                ));
                assert(shown == raw_entries(rest, counters));
            }
        },
        None => {
            assert(later == Seq::<HashedEntryAddress>::empty());
            assert(shown == raw_entries(rest, counters));
        },
    }
}

/// A scan of an unchanging index from its start shows every live entry once, whatever the page
/// size: its pages make up the snapshot of the whole index.
pub proof fn law_scan_shows_every_live_entry(
    shards: Seq<ShardView>,
    counters: CountersView,
    limit: int,
)
    requires
        0 < limit,
        shards.len() > 0,
    ensures
        scan(shards, counters, model::first_position(shards), limit) == raw_entries(
            model::all_live(shards),
            counters,
        ),
{
    law_scan_shows_the_rest(shards, counters, model::first_position(shards), limit);
    lemma_live_split(shards, 0);
    assert(live_after(shards[0], 0) == model::live(shards[0].entries));
    assert(model::live_in_shards(shards, 0) + live_from(shards, 0) == live_from(shards, 0));
}

/// A scan whose shard changed shows nothing of it from before the change: it starts over with that
/// shard, and shows all of it and of the later shards.
pub proof fn law_retried_scan_starts_shard_over(
    shards: Seq<ShardView>,
    counters: CountersView,
    position: CursorPosition,
    limit: int,
)
    requires
        0 < limit,
        0 <= position.shard < shards.len(),
        0 <= position.offset,
        model::stale(shards, position),
    ensures
        model::page_entries(shards, counters, position, limit) == Seq::<DiskIndexEntry>::empty(),
        scan(shards, counters, position, limit) == raw_entries(
            live_from(shards, position.shard),
            counters,
        ),
{
    let next = model::next_position(shards, position, limit)->0;
    law_scan_shows_the_rest(shards, counters, next, limit);
    assert(live_after(shards[next.shard], 0) == model::live(shards[next.shard].entries));
    assert(scan(shards, counters, position, limit) == scan(shards, counters, next, limit));
}

/// A change of a shard is counted: its revision moves, or its live entries stay as they are.
pub open spec fn change_is_counted(before: ShardView, after: ShardView) -> bool {
    ||| after.revision == before.revision.wrapping_add(1)
    ||| after.revision == before.revision && model::live(before.entries) == model::live(
        after.entries,
    )
}

/// A cursor whose shard changed since it was made is told to start the shard over.
pub proof fn law_cursor_of_changed_shard_is_retried(
    before: Seq<ShardView>,
    after: Seq<ShardView>,
    position: CursorPosition,
    limit: int,
)
    requires
        !model::stale(before, position),
        change_is_counted(before[position.shard], after[position.shard]),
        model::live(before[position.shard].entries) != model::live(after[position.shard].entries),
    ensures
        model::stale(after, position),
        model::next_position(after, position, limit) == Some(
            CursorPosition {
                shard: position.shard,
                revision: after[position.shard].revision,
                offset: 0,
            },
        ),
{
}

/// Shards that have the same live entry for every hash have the same listing.
proof fn lemma_same_live(a: Map<u64, Index>, b: Map<u64, Index>, bound: nat)
    requires
        forall|hash: u64| #[trigger] model::live_entry(a, hash) == model::live_entry(b, hash),
    ensures
        model::live_below(a, bound) == model::live_below(b, bound),
    decreases bound,
{
    if bound > 0 {
        lemma_same_live(a, b, (bound - 1) as nat);
        assert(model::live_entry(a, (bound - 1) as u64) == model::live_entry(
            b,
            (bound - 1) as u64,
        ));
    }
}

/// Addresses that are all refused leave the entries alone.
pub proof fn lemma_refused(entries: Map<u64, Index>, batch: Seq<HashedEntryAddress>)
    requires
        !model::any_accepted(entries, batch),
    ensures
        model::put_all(entries, batch) == entries,
    decreases batch.len(),
{
    if batch.len() > 0 {
        lemma_refused(entries, batch.drop_last());
    }
}

/// Every insertion of a batch is counted in every shard.
pub proof fn law_insert_is_counted(
    shards: Seq<ShardView>,
    batch: Seq<HashedEntryAddress>,
    s: int,
)
    requires
        0 <= s < shards.len(),
    ensures
        change_is_counted(shards[s], model::after_insert(shards, batch)[s]),
{
    let own = model::group(batch, shards.len() as int, s);
    if !model::any_accepted(shards[s].entries, own) {
        lemma_refused(shards[s].entries, own);
    }
}

/// Every tombstone is counted in every shard.
pub proof fn law_tombstone_is_counted(
    shards: Seq<ShardView>,
    hash: u64,
    sequence: Sequence,
    s: int,
)
    requires
        0 <= s < shards.len(),
    ensures
        change_is_counted(shards[s], model::after_tombstone(shards, hash, sequence)[s]),
{
}

/// Every deletion of an entry is counted in every shard.
pub proof fn law_delete_is_counted(shards: Seq<ShardView>, hash: u64, s: int)
    requires
        0 <= s < shards.len(),
    ensures
        change_is_counted(shards[s], model::after_delete(shards, hash)[s]),
{
}

/// Requests that drop no address leave every live entry alone.
pub proof fn lemma_none_dropped(entries: Map<u64, Index>, batch: Seq<(u64, Sequence)>)
    requires
        model::all_dropped(entries, batch).len() == 0,
    ensures
        forall|hash: u64| #[trigger]
            model::live_entry(model::drop_all(entries, batch), hash) == model::live_entry(
                entries,
                hash,
            ),
    decreases batch.len(),
{
    if batch.len() > 0 {
        lemma_none_dropped(entries, batch.drop_last());
        let middle = model::drop_all(entries, batch.drop_last());
        assert forall|hash: u64| #[trigger]
            model::live_entry(model::drop_all(entries, batch), hash) == model::live_entry(
                entries,
                hash,
            ) by {
            assert(model::live_entry(middle, hash) == model::live_entry(entries, hash));
        }
    }
}

/// Every removal of a batch is counted in every shard.
pub proof fn law_batch_removal_is_counted(
    shards: Seq<ShardView>,
    batch: Seq<(u64, Sequence)>,
    s: int,
)
    requires
        0 <= s < shards.len(),
    ensures
        change_is_counted(shards[s], model::after_remove(shards, batch)[s]),
{
    let own = model::group(batch, shards.len() as int, s);
    if model::all_dropped(shards[s].entries, own).len() == 0 {
        lemma_none_dropped(shards[s].entries, own);
        lemma_same_live(
            model::drop_all(shards[s].entries, own),
            shards[s].entries,
            model::hash_count(),
        );
    }
}

/// Clearing the index is counted in every shard.
pub proof fn law_clear_is_counted(shard: ShardView)
    ensures
        change_is_counted(shard, model::shard_after_clear(shard)),
{
}

/// A call to an index.
pub enum IndexCall {
    /// `insert_batch`.
    Insert { batch: Seq<HashedEntryAddress> },
    /// `insert_tombstone`.
    Tombstone { hash: u64, sequence: Sequence },
    /// `remove`.
    Delete { hash: u64 },
    /// `remove_batch`, or `remove_batch_hashed`.
    Remove { requests: Seq<(u64, Sequence)> },
    /// `clear`.
    Clear,
    /// `get`, `advance_access_report_bucket`, `locate`, or one of the snapshots.
    Look,
}

/// The index after a call.
pub open spec fn after_call(shards: Seq<ShardView>, call: IndexCall) -> Seq<ShardView> {
    match call {
        IndexCall::Insert { batch } => model::after_insert(shards, batch),
        IndexCall::Tombstone { hash, sequence } => model::after_tombstone(shards, hash, sequence),
        IndexCall::Delete { hash } => model::after_delete(shards, hash),
        IndexCall::Remove { requests } => model::after_remove(shards, requests),
        IndexCall::Clear => model::after_clear(shards),
        IndexCall::Look => shards,
    }
}

/// The index after a number of calls.
pub open spec fn after_calls(shards: Seq<ShardView>, calls: Seq<IndexCall>) -> Seq<ShardView>
    decreases calls.len(),
{
    if calls.len() == 0 {
        shards
    } else {
        after_call(after_calls(shards, calls.drop_last()), calls.last())
    }
}

/// How many of a number of calls were counted as changes of shard `s`.
pub open spec fn changes(shards: Seq<ShardView>, calls: Seq<IndexCall>, s: int) -> nat
    decreases calls.len(),
{
    if calls.len() == 0 {
        0
    } else {
        let before = after_calls(shards, calls.drop_last());
        changes(shards, calls.drop_last(), s) + (if after_call(before, calls.last())[s].revision
            != before[s].revision {
            1nat
        } else {
            0nat
        })
    }
}

/// A call that only looks at or uses entries, or that changes other shards than `s` of `n` alone.
pub open spec fn leaves_alone(call: IndexCall, s: int, n: int) -> bool {
    match call {
        IndexCall::Insert { batch } => model::group(batch, n, s).len() == 0,
        IndexCall::Tombstone { hash, .. } => model::shard_of(hash, n) != s,
        IndexCall::Delete { hash } => model::shard_of(hash, n) != s,
        IndexCall::Remove { requests } => model::group(requests, n, s).len() == 0,
        IndexCall::Clear => false,
        IndexCall::Look => true,
    }
}

/// Whether call `k` of a number of calls changed the live entries of shard `s`.
pub open spec fn changed_at(
    shards: Seq<ShardView>,
    calls: Seq<IndexCall>,
    s: int,
    k: int,
) -> bool {
    model::live(after_calls(shards, calls.take(k))[s].entries) != model::live(
        after_calls(shards, calls.take(k + 1))[s].entries,
    )
}

/// Every call is counted in every shard, and keeps the shards.
proof fn lemma_call_is_counted(shards: Seq<ShardView>, call: IndexCall, s: int)
    requires
        0 <= s < shards.len(),
    ensures
        after_call(shards, call).len() == shards.len(),
        change_is_counted(shards[s], after_call(shards, call)[s]),
        leaves_alone(call, s, shards.len() as int) ==> after_call(shards, call)[s].revision
            == shards[s].revision,
{
    match call {
        IndexCall::Insert { batch } => {
            law_insert_is_counted(shards, batch, s);
        },
        IndexCall::Tombstone { hash, sequence } => {
            law_tombstone_is_counted(shards, hash, sequence, s);
        },
        IndexCall::Delete { hash } => {
            law_delete_is_counted(shards, hash, s);
        },
        IndexCall::Remove { requests } => {
            law_batch_removal_is_counted(shards, requests, s);
        },
        IndexCall::Clear => {
            law_clear_is_counted(shards[s]);
        },
        IndexCall::Look => {},
    }
}

/// What the revision of a shard counts.
proof fn lemma_revision_counts_changes(shards: Seq<ShardView>, calls: Seq<IndexCall>, s: int)
    requires
        0 <= s < shards.len(),
    ensures
        after_calls(shards, calls).len() == shards.len(),
        after_calls(shards, calls)[s].revision == (shards[s].revision + changes(shards, calls, s))
            % 0x1_0000_0000_0000_0000,
        changes(shards, calls, s) <= calls.len(),
    decreases calls.len(),
{
    if calls.len() > 0 {
        lemma_revision_counts_changes(shards, calls.drop_last(), s);
        lemma_call_is_counted(after_calls(shards, calls.drop_last()), calls.last(), s);
    }
}

/// A change of live entries is among the changes that are counted.
proof fn lemma_changed_is_counted(shards: Seq<ShardView>, calls: Seq<IndexCall>, s: int, k: int)
    requires
        0 <= s < shards.len(),
        0 <= k < calls.len(),
        changed_at(shards, calls, s, k),
    ensures
        changes(shards, calls, s) > 0,
    decreases calls.len(),
{
    let earlier = calls.drop_last();
    lemma_revision_counts_changes(shards, earlier, s);
    if k < earlier.len() {
        assert(earlier.take(k) == calls.take(k));
        assert(earlier.take(k + 1) == calls.take(k + 1));
        lemma_changed_is_counted(shards, earlier, s, k);
    } else {
        assert(calls.take(k) == earlier);
        assert(calls.take(k + 1) == calls);
        lemma_call_is_counted(after_calls(shards, earlier), calls.last(), s);
    }
}

/// Calls that leave a shard alone are not counted in it.
proof fn lemma_left_alone(shards: Seq<ShardView>, calls: Seq<IndexCall>, s: int)
    requires
        0 <= s < shards.len(),
        forall|k: int|
            0 <= k < calls.len() ==> leaves_alone(#[trigger] calls[k], s, shards.len() as int),
    ensures
        changes(shards, calls, s) == 0,
    decreases calls.len(),
{
    if calls.len() > 0 {
        let earlier = calls.drop_last();
        assert forall|k: int| 0 <= k < earlier.len() implies leaves_alone(
            #[trigger] earlier[k],
            s,
            shards.len() as int,
        ) by {
            assert(earlier[k] == calls[k]);
        }
        lemma_left_alone(shards, earlier, s);
        lemma_revision_counts_changes(shards, earlier, s);
        lemma_call_is_counted(after_calls(shards, earlier), calls[calls.len() - 1], s);
    }
}

/// Calls that are not counted in a shard keep its live entries in their places.
proof fn lemma_uncounted_keep_listing(shards: Seq<ShardView>, calls: Seq<IndexCall>, s: int)
    requires
        0 <= s < shards.len(),
        changes(shards, calls, s) == 0,
    ensures
        model::live(shards[s].entries) == model::live(after_calls(shards, calls)[s].entries),
    decreases calls.len(),
{
    if calls.len() > 0 {
        let earlier = calls.drop_last();
        lemma_uncounted_keep_listing(shards, earlier, s);
        lemma_revision_counts_changes(shards, earlier, s);
        lemma_call_is_counted(after_calls(shards, earlier), calls.last(), s);
    }
}

/// Whatever calls follow a page, its cursor is answered with an empty page that asks to start the
/// shard over if one of the calls changed the live entries of the shard. It is not if the calls only
/// looked at or used entries, or changed other shards. And where it is not, the live entries that the
/// cursor counted are still in their places, so no page mixes two structural states of a shard.
///
/// A shard counts its changes modulo 2^64: this does not hold of a cursor that outlives a multiple of
/// 2^64 changes.
pub proof fn law_cursor_is_retried_after_any_change(
    shards: Seq<ShardView>,
    earlier: CursorPosition,
    earlier_limit: int,
    position: CursorPosition,
    calls: Seq<IndexCall>,
    counters: CountersView,
    limit: int,
)
    requires
        0 <= earlier.shard < shards.len(),
        0 <= earlier.offset,
        0 < earlier_limit,
        model::next_position(shards, earlier, earlier_limit) == Some(position),
        0 < limit,
        changes(shards, calls, position.shard) == 0 || changes(shards, calls, position.shard)
            % 0x1_0000_0000_0000_0000 != 0,
    ensures
        ({
            let after = after_calls(shards, calls);
            let s = position.shard;
            let retried = model::stale(after, position);
            &&& 0 <= s < after.len()
            &&& (exists|k: int| 0 <= k < calls.len() && #[trigger] changed_at(shards, calls, s, k))
                ==> retried
            &&& (forall|k: int|
                0 <= k < calls.len() ==> leaves_alone(
                    #[trigger] calls[k],
                    s,
                    shards.len() as int,
                )) ==> !retried
            &&& retried ==> model::page_entries(after, counters, position, limit) == Seq::<
                DiskIndexEntry,
            >::empty()
            &&& retried ==> model::next_position(after, position, limit) == Some(
                CursorPosition { shard: s, revision: after[s].revision, offset: 0 },
            )
            &&& !retried ==> model::live(shards[s].entries) == model::live(after[s].entries)
        }),
{
    let s = position.shard;
    lemma_revision_counts_changes(shards, calls, s);
    if exists|k: int| 0 <= k < calls.len() && #[trigger] changed_at(shards, calls, s, k) {
        let k = choose|k: int|
            0 <= k < calls.len() && #[trigger] changed_at(shards, calls, s, k);
        lemma_changed_is_counted(shards, calls, s, k);
    }
    if forall|k: int|
        0 <= k < calls.len() ==> leaves_alone(#[trigger] calls[k], s, shards.len() as int) {
        lemma_left_alone(shards, calls, s);
    }
    if changes(shards, calls, s) == 0 {
        lemma_uncounted_keep_listing(shards, calls, s);
    }
}

/// The live entries of a shard, without their order.
pub open spec fn live_bag(entries: Map<u64, Index>) -> Multiset<HashedEntryAddress> {
    model::live(entries).to_multiset()
}

/// An address of `hash`, if there is one.
pub open spec fn address_bag(hash: u64, address: Option<EntryAddress>) -> Multiset<
    HashedEntryAddress,
> {
    match address {
        Some(address) => Multiset::singleton(HashedEntryAddress { hash, address }),
        None => Multiset::empty(),
    }
}

/// What storing `index` for `hash` adds to the live entries of a shard.
proof fn lemma_bag_of_stored(entries: Map<u64, Index>, hash: u64, index: Index, bound: nat)
    requires
        bound <= model::hash_count(),
    ensures
        model::live_below(entries.insert(hash, index), bound).to_multiset() == model::live_below(
            entries.remove(hash),
            bound,
        ).to_multiset().add(
            if hash < bound {
                address_bag(hash, index.live_address())
            } else {
                Multiset::empty()
            },
        ),
    decreases bound,
{
    broadcast use vstd::seq_lib::group_to_multiset_ensures;

    let with = entries.insert(hash, index);
    let without = entries.remove(hash);
    if bound > 0 {
        lemma_bag_of_stored(entries, hash, index, (bound - 1) as nat);
        let top = (bound - 1) as u64;
        let a = model::live_below(with, (bound - 1) as nat).to_multiset();
        let b = model::live_below(without, (bound - 1) as nat).to_multiset();
        if top != hash {
            assert(model::live_entry(with, top) == model::live_entry(without, top));
        }
        assert(model::live_below(with, bound).to_multiset() == model::live_below(
            without,
            bound,
        ).to_multiset().add(
            if hash < bound {
                address_bag(hash, index.live_address())
            } else {
                Multiset::empty()
            },
        ));
    } else {
        assert(model::live_below(with, 0).to_multiset() == model::live_below(
            without,
            0,
        ).to_multiset().add(Multiset::empty()));
    }
}

/// The live entries of a shard are those of the other hashes and that of `hash`.
proof fn lemma_bag_split(entries: Map<u64, Index>, hash: u64)
    ensures
        live_bag(entries) == live_bag(entries.remove(hash)).add(
            address_bag(
                hash,
                if entries.contains_key(hash) {
                    entries[hash].live_address()
                } else {
                    None
                },
            ),
        ),
{
    if entries.contains_key(hash) {
        assert(entries.insert(hash, entries[hash]) == entries);
        lemma_bag_of_stored(entries, hash, entries[hash], model::hash_count());
    } else {
        assert(entries.remove(hash) == entries);
        assert(live_bag(entries) == live_bag(entries).add(Multiset::empty()));
    }
}

/// From `a + b = m + d` and `m + x = c + y` follows `a + (b + x) = c + (d + y)`.
proof fn lemma_bags_chain<T>(
    a: Multiset<T>,
    b: Multiset<T>,
    m: Multiset<T>,
    d: Multiset<T>,
    x: Multiset<T>,
    c: Multiset<T>,
    y: Multiset<T>,
)
    requires
        a.add(b) == m.add(d),
        m.add(x) == c.add(y),
    ensures
        a.add(b.add(x)) == c.add(d.add(y)),
{
    broadcast use vstd::multiset::group_multiset_axioms;

    assert forall|v: T| a.add(b.add(x)).count(v) == c.add(d.add(y)).count(v) by {
        assert(a.add(b).count(v) == a.count(v) + b.count(v));
        assert(m.add(d).count(v) == m.count(v) + d.count(v));
        assert(m.add(x).count(v) == m.count(v) + x.count(v));
        assert(c.add(y).count(v) == c.count(v) + y.count(v));
    }
    assert(a.add(b.add(x)) == c.add(d.add(y)));
}

/// From `a + b = c + d` and `p + q = r + t` follows `(a + p) + (b + q) = (c + r) + (d + t)`.
proof fn lemma_bags_sum<T>(
    a: Multiset<T>,
    b: Multiset<T>,
    c: Multiset<T>,
    d: Multiset<T>,
    p: Multiset<T>,
    q: Multiset<T>,
    r: Multiset<T>,
    t: Multiset<T>,
)
    requires
        a.add(b) == c.add(d),
        p.add(q) == r.add(t),
    ensures
        a.add(p).add(b.add(q)) == c.add(r).add(d.add(t)),
{
    broadcast use vstd::multiset::group_multiset_axioms;

    assert forall|v: T| a.add(p).add(b.add(q)).count(v) == c.add(r).add(d.add(t)).count(v) by {
        assert(a.add(b).count(v) == a.count(v) + b.count(v));
        assert(c.add(d).count(v) == c.count(v) + d.count(v));
        assert(p.add(q).count(v) == p.count(v) + q.count(v));
        assert(r.add(t).count(v) == r.count(v) + t.count(v));
    }
    assert(a.add(p).add(b.add(q)) == c.add(r).add(d.add(t)));
}

/// Offering one version turns the live and the offered address into the live and the displaced one.
proof fn lemma_put_keeps_addresses(entries: Map<u64, Index>, hash: u64, index: Index)
    ensures
        live_bag(entries).add(address_bag(hash, index.live_address())) == live_bag(
            model::put(entries, hash, index),
        ).add(address_bag(hash, model::displaced(entries, hash, index))),
{
    let after = model::put(entries, hash, index);
    lemma_bag_split(entries, hash);
    if model::accepts(entries, hash, index.version()) {
        lemma_bag_of_stored(entries, hash, index, model::hash_count());
    }
    assert(live_bag(entries).add(address_bag(hash, index.live_address())) == live_bag(after).add(
        address_bag(hash, model::displaced(entries, hash, index)),
    ));
}

proof fn lemma_put_all_keeps_addresses(entries: Map<u64, Index>, batch: Seq<HashedEntryAddress>)
    ensures
        live_bag(entries).add(batch.to_multiset()) == live_bag(model::put_all(entries, batch)).add(
            model::all_displaced(entries, batch).to_multiset(),
        ),
    decreases batch.len(),
{
    broadcast use vstd::seq_lib::group_to_multiset_ensures;

    if batch.len() > 0 {
        let rest = batch.drop_last();
        let last = batch.last();
        let index = Index::Address(last.address);
        let middle = model::put_all(entries, rest);
        lemma_put_all_keeps_addresses(entries, rest);
        lemma_put_keeps_addresses(middle, last.hash, index);
        assert(batch == rest.push(last));
        assert(address_bag(last.hash, index.live_address()) == Multiset::singleton(last));
        let before = model::all_displaced(entries, rest);
        let all = model::all_displaced(entries, batch);
        assert(all.to_multiset() == before.to_multiset().add(
            address_bag(last.hash, model::displaced(middle, last.hash, index)),
        ));
        lemma_bags_chain(
            live_bag(entries),
            rest.to_multiset(),
            live_bag(middle),
            before.to_multiset(),
            Multiset::singleton(last),
            live_bag(model::put_all(entries, batch)),
            address_bag(last.hash, model::displaced(middle, last.hash, index)),
        );
        assert(batch.to_multiset() == rest.to_multiset().add(Multiset::singleton(last)));
    } else {
        assert(live_bag(entries).add(batch.to_multiset()) == live_bag(
            model::put_all(entries, batch),
        ).add(model::all_displaced(entries, batch).to_multiset()));
    }
}

/// The items of the shards below `s`.
spec fn groups_below<T: Hashed>(batch: Seq<T>, shards: int, s: int) -> Seq<T> {
    batch.filter(|item: T| model::shard_of(item.key_hash(), shards) < s)
}

proof fn lemma_groups_below<T: Hashed>(batch: Seq<T>, shards: int, s: int)
    ensures
        groups_below(batch, shards, s + 1).to_multiset() == groups_below(
            batch,
            shards,
            s,
        ).to_multiset().add(model::group(batch, shards, s).to_multiset()),
    decreases batch.len(),
{
    broadcast use vstd::seq_lib::group_to_multiset_ensures;

    reveal(Seq::filter);
    if batch.len() > 0 {
        lemma_groups_below(batch.drop_last(), shards, s);
    }
    assert(groups_below(batch, shards, s + 1).to_multiset() == groups_below(
        batch,
        shards,
        s,
    ).to_multiset().add(model::group(batch, shards, s).to_multiset()));
}

/// Every item is in one of the groups.
proof fn lemma_all_groups<T: Hashed>(batch: Seq<T>, shards: int)
    requires
        shards > 0,
    ensures
        groups_below(batch, shards, 0) == Seq::<T>::empty(),
        groups_below(batch, shards, shards) == batch,
    decreases batch.len(),
{
    reveal(Seq::filter);
    if batch.len() > 0 {
        lemma_all_groups(batch.drop_last(), shards);
        assert(0 <= model::shard_of(batch.last().key_hash(), shards) < shards);
        assert(batch.drop_last().push(batch.last()) == batch);
    }
}

proof fn lemma_insert_below_keeps_addresses(
    shards: Seq<ShardView>,
    batch: Seq<HashedEntryAddress>,
    s: int,
)
    requires
        0 <= s <= shards.len(),
        shards.len() > 0,
    ensures
        model::live_in_shards(shards, s).to_multiset().add(
            groups_below(batch, shards.len() as int, s).to_multiset(),
        ) == model::live_in_shards(model::after_insert(shards, batch), s).to_multiset().add(
            model::displaced_below(shards, batch, s).to_multiset(),
        ),
    decreases s,
{
    let n = shards.len() as int;
    let after = model::after_insert(shards, batch);
    if s > 0 {
        lemma_insert_below_keeps_addresses(shards, batch, s - 1);
        lemma_groups_below(batch, n, s - 1);
        let own = model::group(batch, n, s - 1);
        lemma_put_all_keeps_addresses(shards[s - 1].entries, own);
        vstd::seq_lib::lemma_multiset_commutative(
            model::live_in_shards(shards, s - 1),
            model::live(shards[s - 1].entries),
        );
        vstd::seq_lib::lemma_multiset_commutative(
            model::live_in_shards(after, s - 1),
            model::live(after[s - 1].entries),
        );
        vstd::seq_lib::lemma_multiset_commutative(
            model::displaced_below(shards, batch, s - 1),
            model::all_displaced(shards[s - 1].entries, own),
        );
        lemma_bags_sum(
            model::live_in_shards(shards, s - 1).to_multiset(),
            groups_below(batch, n, s - 1).to_multiset(),
            model::live_in_shards(after, s - 1).to_multiset(),
            model::displaced_below(shards, batch, s - 1).to_multiset(),
            live_bag(shards[s - 1].entries),
            own.to_multiset(),
            live_bag(after[s - 1].entries),
            model::all_displaced(shards[s - 1].entries, own).to_multiset(),
        );
    } else {
        lemma_all_groups(batch, n);
    }
}

/// No address gets lost when a batch is inserted: what was live and what was offered is what is live
/// and what is reported as out of use, each as often.
pub proof fn law_insert_accounts_for_every_address(
    shards: Seq<ShardView>,
    batch: Seq<HashedEntryAddress>,
)
    requires
        shards.len() > 0,
    ensures
        model::all_live(shards).to_multiset().add(batch.to_multiset()) == model::all_live(
            model::after_insert(shards, batch),
        ).to_multiset().add(
            model::displaced_below(shards, batch, shards.len() as int).to_multiset(),
        ),
{
    lemma_insert_below_keeps_addresses(shards, batch, shards.len() as int);
    lemma_all_groups(batch, shards.len() as int);
}

proof fn lemma_drop_all_keeps_addresses(entries: Map<u64, Index>, batch: Seq<(u64, Sequence)>)
    ensures
        live_bag(entries) == live_bag(model::drop_all(entries, batch)).add(
            model::all_dropped(entries, batch).to_multiset(),
        ),
    decreases batch.len(),
{
    broadcast use vstd::seq_lib::group_to_multiset_ensures;

    if batch.len() > 0 {
        let rest = batch.drop_last();
        let (hash, sequence) = batch.last();
        let middle = model::drop_all(entries, rest);
        lemma_drop_all_keeps_addresses(entries, rest);
        lemma_bag_split(middle, hash);
        if !middle.contains_key(hash) {
            assert(middle.remove(hash) == middle);
        }
        let before = model::all_dropped(entries, rest);
        let all = model::all_dropped(entries, batch);
        assert(all.to_multiset() == before.to_multiset().add(
            address_bag(hash, model::dropped_address(middle, hash, sequence)),
        ));
    }
    assert(live_bag(entries) == live_bag(model::drop_all(entries, batch)).add(
        model::all_dropped(entries, batch).to_multiset(),
    ));
}

proof fn lemma_remove_below_keeps_addresses(
    shards: Seq<ShardView>,
    batch: Seq<(u64, Sequence)>,
    s: int,
)
    requires
        0 <= s <= shards.len(),
    ensures
        model::live_in_shards(shards, s).to_multiset() == model::live_in_shards(
            model::after_remove(shards, batch),
            s,
        ).to_multiset().add(model::dropped_below(shards, batch, s).to_multiset()),
    decreases s,
{
    let n = shards.len() as int;
    let after = model::after_remove(shards, batch);
    if s > 0 {
        lemma_remove_below_keeps_addresses(shards, batch, s - 1);
        let own = model::group(batch, n, s - 1);
        lemma_drop_all_keeps_addresses(shards[s - 1].entries, own);
        vstd::seq_lib::lemma_multiset_commutative(
            model::live_in_shards(shards, s - 1),
            model::live(shards[s - 1].entries),
        );
        vstd::seq_lib::lemma_multiset_commutative(
            model::live_in_shards(after, s - 1),
            model::live(after[s - 1].entries),
        );
        vstd::seq_lib::lemma_multiset_commutative(
            model::dropped_below(shards, batch, s - 1),
            model::all_dropped(shards[s - 1].entries, own),
        );
        let none = Multiset::<HashedEntryAddress>::empty();
        assert(model::live_in_shards(shards, s - 1).to_multiset().add(none)
            == model::live_in_shards(shards, s - 1).to_multiset());
        assert(live_bag(shards[s - 1].entries).add(none) == live_bag(shards[s - 1].entries));
        lemma_bags_sum(
            model::live_in_shards(shards, s - 1).to_multiset(),
            none,
            model::live_in_shards(after, s - 1).to_multiset(),
            model::dropped_below(shards, batch, s - 1).to_multiset(),
            live_bag(shards[s - 1].entries),
            none,
            live_bag(after[s - 1].entries),
            model::all_dropped(shards[s - 1].entries, own).to_multiset(),
        );
        assert(model::live_in_shards(shards, s).to_multiset().add(none.add(none))
            == model::live_in_shards(shards, s).to_multiset());
    } else {
        let none = Seq::<HashedEntryAddress>::empty().to_multiset();
        assert(none == none.add(none)) by {
            broadcast use vstd::seq_lib::group_to_multiset_ensures;

        }
    }
}

/// No address gets lost when a batch is removed: what was live is what is live and what is reported
/// as out of use.
pub proof fn law_batch_removal_accounts_for_every_address(
    shards: Seq<ShardView>,
    batch: Seq<(u64, Sequence)>,
)
    ensures
        model::all_live(shards).to_multiset() == model::all_live(
            model::after_remove(shards, batch),
        ).to_multiset().add(
            model::dropped_below(shards, batch, shards.len() as int).to_multiset(),
        ),
{
    lemma_remove_below_keeps_addresses(shards, batch, shards.len() as int);
}

} // verus!
