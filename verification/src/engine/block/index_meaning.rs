//! What each operation of an index is for, in terms of what the shards hold for each hash.
use crate::counter::CountersView;
use crate::engine::block::index_laws;
use crate::engine::block::indexer;
use crate::engine::block::indexer::{EntryAddress, Hashed, HashedEntryAddress, Index, Sequence};
use crate::engine::block::model;
use crate::engine::block::model::ShardView;
use crate::engine::{CursorPosition, DiskIndexCursor};
use vstd::prelude::*;

verus! {

/// The shard of `n` that a hash is at home in.
pub open spec fn home(hash: u64, n: int) -> int {
    (hash as usize as int) % n
}

/// What an index holds for a hash.
pub open spec fn held(shards: Seq<ShardView>, hash: u64) -> Option<Index> {
    let entries = shards[home(hash, shards.len() as int)].entries;
    if entries.contains_key(hash) {
        Some(entries[hash])
    } else {
        None
    }
}

/// The sequence of a version.
pub open spec fn sequence_of(index: Index) -> u64 {
    match index {
        Index::Address(address) => address.sequence,
        Index::Tombstone(sequence) => sequence,
    }
}

/// Whether an index holds this address for this hash.
pub open spec fn holds(shards: Seq<ShardView>, entry: HashedEntryAddress) -> bool {
    held(shards, entry.hash) == Some(Index::Address(entry.address))
}

/// Whether a version with `sequence` is not older than what is held for `hash`.
pub open spec fn not_older(shards: Seq<ShardView>, hash: u64, sequence: u64) -> bool {
    match held(shards, hash) {
        Some(index) => sequence_of(index) <= sequence,
        None => true,
    }
}

/// Every hash is held in its home.
pub open spec fn at_home(shards: Seq<ShardView>) -> bool {
    forall|s: int, hash: u64|
        0 <= s < shards.len() && #[trigger] shards[s].entries.contains_key(hash) ==> home(
            hash,
            shards.len() as int,
        ) == s
}

/// One or none.
pub open spec fn one_if(condition: bool) -> nat {
    if condition {
        1
    } else {
        0
    }
}

/// A lookup finds the address that is held for a hash, and nothing where none or a deletion is.
pub proof fn law_locate_finds_what_is_held(shards: Seq<ShardView>, hash: u64)
    requires
        shards.len() > 0,
    ensures
        0 <= home(hash, shards.len() as int) < shards.len(),
        match held(shards, hash) {
            Some(Index::Address(address)) => model::located(shards, hash) == Some(address),
            Some(Index::Tombstone(_)) => model::located(shards, hash) is None,
            None => model::located(shards, hash) is None,
        },
{
}

/// After a batch is inserted, what is held for a hash is the newest of what was held and what was
/// offered; of several that are as new, the one that was offered last. Whatever was not offered is
/// not there.
pub proof fn law_insert_keeps_the_newest(
    shards: Seq<ShardView>,
    batch: Seq<HashedEntryAddress>,
    hash: u64,
)
    requires
        shards.len() > 0,
    ensures
        ({
            let after = model::after_insert(shards, batch);
            &&& after.len() == shards.len()
            &&& {
                ||| {
                    &&& held(after, hash) == held(shards, hash)
                    &&& forall|i: int|
                        0 <= i < batch.len() && (#[trigger] batch[i]).hash == hash ==> !not_older(
                            shards,
                            hash,
                            batch[i].address.sequence,
                        )
                }
                ||| exists|j: int|
                    {
                        &&& 0 <= j < batch.len()
                        &&& (#[trigger] batch[j]).hash == hash
                        &&& held(after, hash) == Some(Index::Address(batch[j].address))
                        &&& not_older(shards, hash, batch[j].address.sequence)
                        &&& forall|i: int|
                            0 <= i < batch.len() && (#[trigger] batch[i]).hash == hash
                                ==> batch[i].address.sequence <= batch[j].address.sequence
                        &&& forall|i: int|
                            j < i < batch.len() && (#[trigger] batch[i]).hash == hash
                                ==> batch[i].address.sequence < batch[j].address.sequence
                    }
            }
        }),
{
    index_laws::law_newest_version_stays(shards, batch, hash);
    let after = model::after_insert(shards, batch);
    assert(held(shards, hash) == model::lookup(shards, hash));
    assert(held(after, hash) == model::lookup(after, hash));
    if exists|j: int|
        0 <= j < batch.len() && (#[trigger] batch[j]).hash == hash && held(after, hash) == Some(
            Index::Address(batch[j].address),
        ) && (held(shards, hash) is Some ==> held(shards, hash)->0.version()
            <= batch[j].address.sequence) && (forall|i: int|
            0 <= i < batch.len() && (#[trigger] batch[i]).hash == hash
                ==> batch[i].address.sequence <= batch[j].address.sequence) && (forall|i: int|
            j < i < batch.len() && (#[trigger] batch[i]).hash == hash
                ==> batch[i].address.sequence < batch[j].address.sequence) {
        let j = choose|j: int|
            0 <= j < batch.len() && (#[trigger] batch[j]).hash == hash && held(after, hash)
                == Some(Index::Address(batch[j].address)) && (held(shards, hash) is Some ==> held(
                shards,
                hash,
            )->0.version() <= batch[j].address.sequence) && (forall|i: int|
                0 <= i < batch.len() && (#[trigger] batch[i]).hash == hash
                    ==> batch[i].address.sequence <= batch[j].address.sequence) && (forall|i: int|
                j < i < batch.len() && (#[trigger] batch[i]).hash == hash
                    ==> batch[i].address.sequence < batch[j].address.sequence);
        assert(not_older(shards, hash, batch[j].address.sequence));
    }
}

/// Inserting keeps every hash in its home.
pub proof fn law_insert_keeps_hashes_at_home(
    shards: Seq<ShardView>,
    batch: Seq<HashedEntryAddress>,
)
    requires
        at_home(shards),
    ensures
        at_home(model::after_insert(shards, batch)),
{
    assert(model::well_placed(shards));
    indexer::lemma_insert_placed(shards, batch);
    let after = model::after_insert(shards, batch);
    assert forall|s: int, hash: u64|
        0 <= s < after.len() && #[trigger] after[s].entries.contains_key(hash) implies home(
        hash,
        after.len() as int,
    ) == s by {
        assert(model::shard_of(hash, after.len() as int) == s);
    }
}

/// Some address of a batch is accepted exactly if some is not older than what was there at first.
proof fn lemma_any_accepted(entries: Map<u64, Index>, batch: Seq<HashedEntryAddress>)
    ensures
        model::any_accepted(entries, batch) <==> exists|i: int|
            0 <= i < batch.len() && model::accepts(
                entries,
                (#[trigger] batch[i]).hash,
                batch[i].address.sequence,
            ),
    decreases batch.len(),
{
    if batch.len() > 0 {
        let rest = batch.drop_last();
        lemma_any_accepted(entries, rest);
        if model::any_accepted(entries, rest) {
            let i = choose|i: int|
                0 <= i < rest.len() && model::accepts(
                    entries,
                    (#[trigger] rest[i]).hash,
                    rest[i].address.sequence,
                );
            assert(batch[i] == rest[i]);
        } else {
            index_laws::lemma_refused(entries, rest);
            assert forall|i: int| 0 <= i < rest.len() implies !model::accepts(
                entries,
                (#[trigger] batch[i]).hash,
                batch[i].address.sequence,
            ) by {
                assert(rest[i] == batch[i]);
            }
            assert(batch[batch.len() - 1] == batch.last());
        }
    }
}

/// The revision of a shard moves by one when a batch brings it something that is not older than
/// what it holds, and does not move otherwise.
pub proof fn law_insert_moves_revision(
    shards: Seq<ShardView>,
    batch: Seq<HashedEntryAddress>,
    s: int,
)
    requires
        0 <= s < shards.len(),
    ensures
        model::after_insert(shards, batch)[s].revision == (if exists|i: int|
            0 <= i < batch.len() && home((#[trigger] batch[i]).hash, shards.len() as int) == s
                && not_older(shards, batch[i].hash, batch[i].address.sequence) {
            shards[s].revision.wrapping_add(1)
        } else {
            shards[s].revision
        }),
{
    broadcast use vstd::seq_lib::group_filter_ensures;

    let n = shards.len() as int;
    let own = model::group(batch, n, s);
    let mine = |item: HashedEntryAddress| model::shard_of(item.key_hash(), n) == s;
    assert(own == batch.filter(mine));
    lemma_any_accepted(shards[s].entries, own);
    if model::any_accepted(shards[s].entries, own) {
        let k = choose|k: int|
            0 <= k < own.len() && model::accepts(
                shards[s].entries,
                (#[trigger] own[k]).hash,
                own[k].address.sequence,
            );
        assert(own.contains(own[k]));
        assert(mine(own[k]));
        batch.lemma_filter_contains_rev(mine, own[k]);
        let i = batch.index_of(own[k]);
        assert(home(batch[i].hash, n) == s);
        assert(not_older(shards, batch[i].hash, batch[i].address.sequence));
    }
    if exists|i: int|
        0 <= i < batch.len() && home((#[trigger] batch[i]).hash, n) == s && not_older(
            shards,
            batch[i].hash,
            batch[i].address.sequence,
        ) {
        let i = choose|i: int|
            0 <= i < batch.len() && home((#[trigger] batch[i]).hash, n) == s && not_older(
                shards,
                batch[i].hash,
                batch[i].address.sequence,
            );
        assert(mine(batch[i]));
        assert(own.contains(batch[i]));
        let k = own.index_of(batch[i]);
        assert(own[k] == batch[i]);
        assert(model::accepts(shards[s].entries, own[k].hash, own[k].address.sequence));
    }
}

/// The snapshot of a whole index holds each address that is held, once, and nothing else.
proof fn lemma_snapshot_count(shards: Seq<ShardView>, entry: HashedEntryAddress)
    requires
        shards.len() > 0,
        at_home(shards),
    ensures
        model::all_live(shards).to_multiset().count(entry) == one_if(holds(shards, entry)),
{
    assert(model::well_placed(shards));
    let all = model::all_live(shards);
    index_laws::law_snapshot_agrees_with_locate(shards, entry);
    assert forall|i: int, j: int| 0 <= i < j < all.len() implies all[i] != all[j] by {
        index_laws::law_snapshot_has_each_hash_once(shards, i, j);
    }
    assert(all.no_duplicates());
    all.lemma_multiset_has_no_duplicates();
    broadcast use vstd::seq_lib::group_to_multiset_ensures;

    assert(all.contains(entry) <==> all.to_multiset().count(entry) > 0);
    if all.to_multiset().count(entry) > 0 {
        assert(all.to_multiset().contains(entry));
    }
}

/// Inserting a batch returns what goes out of use, and nothing else: for every address, it is held
/// or returned afterwards as often as it was held or offered before.
pub proof fn law_insert_returns_what_goes_out_of_use(
    shards: Seq<ShardView>,
    batch: Seq<HashedEntryAddress>,
    entry: HashedEntryAddress,
)
    requires
        shards.len() > 0,
        at_home(shards),
    ensures
        model::displaced_below(shards, batch, shards.len() as int).to_multiset().count(entry)
            + one_if(holds(model::after_insert(shards, batch), entry))
            == batch.to_multiset().count(entry) + one_if(holds(shards, entry)),
{
    broadcast use vstd::multiset::group_multiset_axioms;

    let after = model::after_insert(shards, batch);
    let olds = model::displaced_below(shards, batch, shards.len() as int);
    index_laws::law_insert_accounts_for_every_address(shards, batch);
    law_insert_keeps_hashes_at_home(shards, batch);
    lemma_snapshot_count(shards, entry);
    lemma_snapshot_count(after, entry);
    let left = model::all_live(shards).to_multiset().add(batch.to_multiset());
    let right = model::all_live(after).to_multiset().add(olds.to_multiset());
    assert(left.count(entry) == right.count(entry));
}

/// A deletion that is older than what is held does nothing. Any other is held from then on, with
/// exactly its own sequence, and moves the revision of its shard. No other hash and no other shard
/// is touched. What goes out of use is the address that was held, if one was.
pub proof fn law_deletion_is_held(
    shards: Seq<ShardView>,
    hash: u64,
    sequence: Sequence,
    other: u64,
    s: int,
)
    requires
        0 <= s < shards.len(),
    ensures
        ({
            let after = model::after_tombstone(shards, hash, sequence);
            let own = home(hash, shards.len() as int);
            let out_of_use = model::displaced(
                shards[own].entries,
                hash,
                Index::Tombstone(sequence),
            );
            &&& after.len() == shards.len()
            &&& if not_older(shards, hash, sequence) {
                &&& held(after, hash) == Some(Index::Tombstone(sequence))
                &&& after[own].revision == shards[own].revision.wrapping_add(1)
                &&& out_of_use == (match held(shards, hash) {
                    Some(Index::Address(address)) => Some(address),
                    _ => None,
                })
            } else {
                &&& held(after, hash) == held(shards, hash)
                &&& after[own].revision == shards[own].revision
                &&& out_of_use is None
            }
            &&& other != hash ==> after[s].entries.contains_key(other)
                == shards[s].entries.contains_key(other) && after[s].entries[other]
                == shards[s].entries[other]
            &&& s != own ==> after[s] == shards[s]
        }),
{
}

/// A deleted hash can be written again: an address that is as new as the deletion or newer is found
/// once it is inserted, and inserting it returns nothing.
pub proof fn law_deleted_hash_can_be_written_again(
    shards: Seq<ShardView>,
    sequence: Sequence,
    entry: HashedEntryAddress,
)
    requires
        shards.len() > 0,
        at_home(shards),
        not_older(shards, entry.hash, sequence),
        entry.address.sequence >= sequence,
    ensures
        ({
            let deleted = model::after_tombstone(shards, entry.hash, sequence);
            let written = model::after_insert(deleted, seq![entry]);
            &&& model::located(deleted, entry.hash) is None
            &&& model::located(written, entry.hash) == Some(entry.address)
            &&& model::displaced_below(deleted, seq![entry], deleted.len() as int).len() == 0
        }),
{
    broadcast use vstd::seq_lib::group_to_multiset_ensures;

    let hash = entry.hash;
    let batch = seq![entry];
    let deleted = model::after_tombstone(shards, hash, sequence);
    let written = model::after_insert(deleted, batch);
    law_deletion_is_held(shards, hash, sequence, hash, home(hash, shards.len() as int));
    assert(batch[0].hash == hash);
    law_insert_keeps_the_newest(deleted, batch, hash);
    assert forall|s: int, other: u64|
        0 <= s < deleted.len() && #[trigger] deleted[s].entries.contains_key(other) implies home(
        other,
        deleted.len() as int,
    ) == s by {
        law_deletion_is_held(shards, hash, sequence, other, s);
        assert(other != hash ==> shards[s].entries.contains_key(other));
        if other == hash && s != home(hash, shards.len() as int) {
            assert(shards[s].entries.contains_key(hash));
        }
    }
    let olds = model::displaced_below(deleted, batch, deleted.len() as int);
    if olds.len() > 0 {
        let old_entry = olds[0];
        assert(olds.contains(old_entry));
        law_insert_returns_what_goes_out_of_use(deleted, batch, old_entry);
        assert(olds.to_multiset().count(old_entry) > 0);
        law_insert_keeps_the_newest(deleted, batch, old_entry.hash);
        assert(batch == Seq::<HashedEntryAddress>::empty().push(entry));
        assert(batch.to_multiset() == Seq::<HashedEntryAddress>::empty().to_multiset().insert(
            entry,
        ));
    }
}

/// Removing a hash takes away its address, if one is held, moves the revision of its shard then,
/// and touches nothing else. A deletion stays held.
pub proof fn law_removal_takes_away_an_address(
    shards: Seq<ShardView>,
    hash: u64,
    other: u64,
    s: int,
)
    requires
        0 <= s < shards.len(),
    ensures
        ({
            let after = model::after_delete(shards, hash);
            let own = home(hash, shards.len() as int);
            &&& after.len() == shards.len()
            &&& match held(shards, hash) {
                Some(Index::Address(address)) => {
                    &&& held(after, hash) is None
                    &&& after[own].revision == shards[own].revision.wrapping_add(1)
                },
                _ => after[own] == shards[own],
            }
            &&& other != hash ==> after[s].entries.contains_key(other)
                == shards[s].entries.contains_key(other) && after[s].entries[other]
                == shards[s].entries[other]
            &&& s != own ==> after[s] == shards[s]
        }),
{
}

/// Removing a batch takes away what is held for a hash exactly if some request for the hash is not
/// older, be it an address or a deletion, and leaves everything else as it is.
pub proof fn law_batch_removal_takes_away_what_is_not_newer(
    shards: Seq<ShardView>,
    batch: Seq<(u64, Sequence)>,
    hash: u64,
)
    requires
        shards.len() > 0,
    ensures
        ({
            let after = model::after_remove(shards, batch);
            &&& after.len() == shards.len()
            &&& held(after, hash) == (if exists|i: int|
                0 <= i < batch.len() && (#[trigger] batch[i]).0 == hash && not_older(
                    shards,
                    hash,
                    batch[i].1,
                ) {
                None
            } else {
                held(shards, hash)
            })
        }),
{
    index_laws::law_batch_removal_keeps_newer(shards, batch, hash);
    let after = model::after_remove(shards, batch);
    assert(held(shards, hash) == model::lookup(shards, hash));
    assert(held(after, hash) == model::lookup(after, hash));
    if held(shards, hash) is Some {
        assert(forall|i: int|
            0 <= i < batch.len() && (#[trigger] batch[i]).0 == hash ==> (not_older(
                shards,
                hash,
                batch[i].1,
            ) <==> batch[i].1 >= held(shards, hash)->0.version()));
    }
}

/// Removing a batch keeps every hash in its home.
pub proof fn law_batch_removal_keeps_hashes_at_home(
    shards: Seq<ShardView>,
    batch: Seq<(u64, Sequence)>,
)
    requires
        at_home(shards),
    ensures
        at_home(model::after_remove(shards, batch)),
{
    assert(model::well_placed(shards));
    indexer::lemma_remove_placed(shards, batch);
    let after = model::after_remove(shards, batch);
    assert forall|s: int, hash: u64|
        0 <= s < after.len() && #[trigger] after[s].entries.contains_key(hash) implies home(
        hash,
        after.len() as int,
    ) == s by {
        assert(model::shard_of(hash, after.len() as int) == s);
    }
}

/// Removing a batch returns exactly the addresses that it takes away, each once.
pub proof fn law_batch_removal_returns_what_it_takes_away(
    shards: Seq<ShardView>,
    batch: Seq<(u64, Sequence)>,
    entry: HashedEntryAddress,
)
    requires
        shards.len() > 0,
        at_home(shards),
    ensures
        model::dropped_below(shards, batch, shards.len() as int).to_multiset().count(entry)
            == one_if(
            holds(shards, entry) && !holds(model::after_remove(shards, batch), entry),
        ),
{
    broadcast use vstd::multiset::group_multiset_axioms;

    let after = model::after_remove(shards, batch);
    let olds = model::dropped_below(shards, batch, shards.len() as int);
    index_laws::law_batch_removal_accounts_for_every_address(shards, batch);
    law_batch_removal_keeps_hashes_at_home(shards, batch);
    lemma_snapshot_count(shards, entry);
    lemma_snapshot_count(after, entry);
    law_batch_removal_takes_away_what_is_not_newer(shards, batch, entry.hash);
    let right = model::all_live(after).to_multiset().add(olds.to_multiset());
    assert(model::all_live(shards).to_multiset().count(entry) == right.count(entry));
}

/// The revision of a shard moves by one when the removal of a batch takes an address away from it,
/// and does not move otherwise.
pub proof fn law_batch_removal_moves_revision(
    shards: Seq<ShardView>,
    batch: Seq<(u64, Sequence)>,
    s: int,
)
    requires
        0 <= s < shards.len(),
        at_home(shards),
    ensures
        model::after_remove(shards, batch)[s].revision == (if exists|i: int|
            0 <= i < batch.len() && home((#[trigger] batch[i]).0, shards.len() as int) == s && (
            held(shards, batch[i].0) matches Some(Index::Address(address)) && address.sequence
                <= batch[i].1) {
            shards[s].revision.wrapping_add(1)
        } else {
            shards[s].revision
        }),
{
    broadcast use vstd::seq_lib::group_filter_ensures;

    let n = shards.len() as int;
    let own = model::group(batch, n, s);
    let mine = |item: (u64, Sequence)| model::shard_of(item.key_hash(), n) == s;
    assert(own == batch.filter(mine));
    lemma_any_dropped(shards[s].entries, own);
    if model::all_dropped(shards[s].entries, own).len() > 0 {
        let k = choose|k: int|
            0 <= k < own.len() && model::dropped_address(
                shards[s].entries,
                (#[trigger] own[k]).0,
                own[k].1,
            ) is Some;
        assert(mine(own[k]));
        batch.lemma_filter_contains_rev(mine, own[k]);
        let i = batch.index_of(own[k]);
        assert(home(batch[i].0, n) == s);
    }
    if exists|i: int|
        0 <= i < batch.len() && home((#[trigger] batch[i]).0, n) == s && (held(
            shards,
            batch[i].0,
        ) matches Some(Index::Address(address)) && address.sequence <= batch[i].1) {
        let i = choose|i: int|
            0 <= i < batch.len() && home((#[trigger] batch[i]).0, n) == s && (held(
                shards,
                batch[i].0,
            ) matches Some(Index::Address(address)) && address.sequence <= batch[i].1);
        assert(mine(batch[i]));
        assert(own.contains(batch[i]));
        let k = own.index_of(batch[i]);
        assert(own[k] == batch[i]);
        assert(model::dropped_address(shards[s].entries, own[k].0, own[k].1) is Some);
    }
}

/// Requests take some address away exactly if one of them alone would.
proof fn lemma_any_dropped(entries: Map<u64, Index>, batch: Seq<(u64, Sequence)>)
    ensures
        model::all_dropped(entries, batch).len() > 0 <==> exists|i: int|
            0 <= i < batch.len() && model::dropped_address(
                entries,
                (#[trigger] batch[i]).0,
                batch[i].1,
            ) is Some,
    decreases batch.len(),
{
    if batch.len() > 0 {
        let rest = batch.drop_last();
        lemma_any_dropped(entries, rest);
        let (hash, sequence) = batch.last();
        assert(batch[batch.len() - 1] == batch.last());
        if model::all_dropped(entries, rest).len() > 0 {
            let i = choose|i: int|
                0 <= i < rest.len() && model::dropped_address(
                    entries,
                    (#[trigger] rest[i]).0,
                    rest[i].1,
                ) is Some;
            assert(batch[i] == rest[i]);
        } else {
            index_laws::lemma_none_dropped(entries, rest);
            let middle = model::drop_all(entries, rest);
            assert(model::live_entry(middle, hash) == model::live_entry(entries, hash));
            index_laws::lemma_drop_all_at(entries, rest, hash);
            assert(model::dropped_address(middle, hash, sequence) is Some
                <==> model::dropped_address(entries, hash, sequence) is Some);
            assert forall|i: int| 0 <= i < rest.len() implies model::dropped_address(
                entries,
                (#[trigger] batch[i]).0,
                batch[i].1,
            ) is None by {
                assert(rest[i] == batch[i]);
            }
        }
    }
}

/// Clearing leaves nothing in any shard, and moves the revision of those that held something.
pub proof fn law_clearing_leaves_nothing(shards: Seq<ShardView>, s: int, hash: u64)
    requires
        0 <= s < shards.len(),
    ensures
        ({
            let after = model::after_clear(shards);
            &&& after.len() == shards.len()
            &&& !after[s].entries.contains_key(hash)
            &&& shards[s].entries.contains_key(hash) ==> after[s].revision
                == shards[s].revision.wrapping_add(1)
            &&& (forall|any: u64| !shards[s].entries.contains_key(any)) ==> after[s].revision
                == shards[s].revision
        }),
{
    if shards[s].entries.contains_key(hash) {
        assert(shards[s].entries != Map::<u64, Index>::empty());
    }
    if forall|any: u64| !shards[s].entries.contains_key(any) {
        assert(shards[s].entries =~= Map::<u64, Index>::empty());
    }
}

/// The listing of a shard holds each address of the shard, and nothing else, by ascending hash.
pub proof fn law_listing_of_a_shard(entries: Map<u64, Index>, entry: HashedEntryAddress)
    ensures
        model::live(entries).contains(entry) <==> entries.contains_key(entry.hash)
            && entries[entry.hash] == Index::Address(entry.address),
        forall|i: int, j: int|
            0 <= i < j < model::live(entries).len() ==> (#[trigger] model::live(entries)[i]).hash
                < (#[trigger] model::live(entries)[j]).hash,
{
    index_laws::law_live_below_lists_live_entries(entries, model::hash_count());
    let listed = model::live(entries);
    if listed.contains(entry) {
        let i = listed.index_of(entry);
        assert(model::live_entry(entries, listed[i].hash) == Some(listed[i]));
    }
    if entries.contains_key(entry.hash) && entries[entry.hash] == Index::Address(entry.address) {
        assert(entry.hash < model::hash_count());
        assert(model::live_entry(entries, entry.hash) == Some(entry));
    }
}

/// The snapshot of a whole index holds each address that is held, and nothing else, each once:
/// shard by shard, and by ascending hash within a shard.
pub proof fn law_snapshot_lists_what_is_held(shards: Seq<ShardView>, entry: HashedEntryAddress)
    requires
        shards.len() > 0,
        at_home(shards),
    ensures
        model::all_live(shards).contains(entry) <==> holds(shards, entry),
        forall|i: int, j: int|
            0 <= i < j < model::all_live(shards).len() ==> {
                let a = (#[trigger] model::all_live(shards)[i]).hash;
                let b = (#[trigger] model::all_live(shards)[j]).hash;
                home(a, shards.len() as int) < home(b, shards.len() as int) || (home(
                    a,
                    shards.len() as int,
                ) == home(b, shards.len() as int) && a < b)
            },
{
    assert(model::well_placed(shards));
    index_laws::law_snapshot_agrees_with_locate(shards, entry);
    lemma_snapshot_order(shards, shards.len() as int);
}

proof fn lemma_snapshot_order(shards: Seq<ShardView>, s: int)
    requires
        at_home(shards),
        0 <= s <= shards.len(),
    ensures
        forall|i: int|
            0 <= i < model::live_in_shards(shards, s).len() ==> 0 <= home(
                (#[trigger] model::live_in_shards(shards, s)[i]).hash,
                shards.len() as int,
            ) < s,
        forall|i: int, j: int|
            0 <= i < j < model::live_in_shards(shards, s).len() ==> {
                let a = (#[trigger] model::live_in_shards(shards, s)[i]).hash;
                let b = (#[trigger] model::live_in_shards(shards, s)[j]).hash;
                home(a, shards.len() as int) < home(b, shards.len() as int) || (home(
                    a,
                    shards.len() as int,
                ) == home(b, shards.len() as int) && a < b)
            },
    decreases s,
{
    if s > 0 {
        lemma_snapshot_order(shards, s - 1);
        let n = shards.len() as int;
        let before = model::live_in_shards(shards, s - 1);
        let own = model::live(shards[s - 1].entries);
        let all = model::live_in_shards(shards, s);
        assert(all == before + own);
        assert forall|k: int| 0 <= k < own.len() implies home((#[trigger] own[k]).hash, n) == s
            - 1 by {
            law_listing_of_a_shard(shards[s - 1].entries, own[k]);
            assert(own.contains(own[k]));
            assert(shards[s - 1].entries.contains_key(own[k].hash));
        }
        assert forall|i: int| 0 <= i < all.len() implies 0 <= home((#[trigger] all[i]).hash, n)
            < s by {
            if i < before.len() {
                assert(all[i] == before[i]);
            } else {
                assert(all[i] == own[i - before.len()]);
            }
        }
        assert forall|i: int, j: int| 0 <= i < j < all.len() implies {
            let a = (#[trigger] all[i]).hash;
            let b = (#[trigger] all[j]).hash;
            home(a, n) < home(b, n) || (home(a, n) == home(b, n) && a < b)
        } by {
            if j < before.len() {
                assert(all[i] == before[i] && all[j] == before[j]);
            } else if i < before.len() {
                assert(all[i] == before[i] && all[j] == own[j - before.len()]);
            } else {
                let k = i - before.len();
                let m = j - before.len();
                assert(all[i] == own[k] && all[j] == own[m]);
                law_listing_of_a_shard(shards[s - 1].entries, own[k]);
                assert(own[k].hash < own[m].hash);
            }
        }
    }
}

/// A page of a listing shows the items that follow the first `offset`, in order, as many as there
/// are up to `limit`.
pub proof fn law_page_of_a_listing<T>(items: Seq<T>, offset: int, limit: int, i: int)
    requires
        0 <= offset,
        0 <= limit,
    ensures
        ({
            let page = model::window(items, offset, limit);
            &&& page.len() <= limit
            &&& offset >= items.len() ==> page.len() == 0
            &&& offset + limit <= items.len() ==> page.len() == limit
            &&& offset <= items.len() <= offset + limit ==> page.len() == items.len() - offset
            &&& 0 <= i < page.len() ==> page[i] == items[offset + i]
        }),
{
}

/// A snapshot of an address has its block, offset, length, sequence and time of insertion, and the
/// time of the last access that the counters hold for it.
pub proof fn law_snapshot_of_an_address(address: EntryAddress, counters: CountersView)
    ensures
        ({
            let snapshot = crate::engine::address_snapshot(address, counters);
            let time = address.last_accessed_at_unix_micros@;
            &&& snapshot.block == address.block
            &&& snapshot.offset == address.offset
            &&& snapshot.len == address.len
            &&& snapshot.sequence == address.sequence
            &&& snapshot.inserted_at_unix_micros == address.inserted_at_unix_micros
            &&& counters.values.contains_key(time) ==> snapshot.last_accessed_at_unix_micros
                == counters.values[time]
            &&& !counters.values.contains_key(time) ==> snapshot.last_accessed_at_unix_micros == 0
        }),
{
}

/// A page shows nothing if the shard of its cursor changed since. Otherwise it shows the addresses
/// of the shard that follow those behind the cursor, by ascending hash and field by field, as many
/// as there are up to the limit.
pub proof fn law_page_shows_what_is_held(
    shards: Seq<ShardView>,
    counters: CountersView,
    position: CursorPosition,
    limit: int,
    i: int,
)
    requires
        0 <= position.shard < shards.len(),
        0 <= position.offset,
        0 < limit,
    ensures
        ({
            let shard = shards[position.shard];
            let listed = model::live(shard.entries);
            let page = model::page_entries(shards, counters, position, limit);
            if position.revision != shard.revision {
                page.len() == 0
            } else {
                &&& page.len() <= limit
                &&& position.offset >= listed.len() ==> page.len() == 0
                &&& position.offset <= listed.len() && page.len() < limit ==> page.len()
                    == listed.len() - position.offset
                &&& 0 <= i < page.len() ==> {
                    let shown = page[i];
                    &&& shown.hash == listed[position.offset + i].hash
                    &&& shard.entries.contains_key(shown.hash)
                    &&& at_home(shards) ==> model::located(shards, shown.hash) == (
                    match shard.entries[shown.hash] {
                        Index::Address(address) => Some(address),
                        Index::Tombstone(_) => None,
                    })
                    &&& match shard.entries[shown.hash] {
                        Index::Address(address) => {
                            let time = address.last_accessed_at_unix_micros@;
                            &&& shown.address.block == address.block
                            &&& shown.address.offset == address.offset
                            &&& shown.address.len == address.len
                            &&& shown.address.sequence == address.sequence
                            &&& shown.address.inserted_at_unix_micros
                                == address.inserted_at_unix_micros
                            &&& shown.address.last_accessed_at_unix_micros == (
                            if counters.values.contains_key(time) {
                                counters.values[time]
                            } else {
                                0
                            })
                        },
                        Index::Tombstone(_) => false,
                    }
                }
            }
        }),
{
    let shard = shards[position.shard];
    let listed = model::live(shard.entries);
    let page = model::page_entries(shards, counters, position, limit);
    if position.revision == shard.revision {
        let shown = model::window(listed, position.offset, limit);
        law_page_of_a_listing(listed, position.offset, limit, i);
        if 0 <= i < page.len() {
            assert(page[i] == model::raw_entry(shown[i], counters));
            law_listing_of_a_shard(shard.entries, shown[i]);
            assert(listed.contains(listed[position.offset + i]));
            law_snapshot_of_an_address(shown[i].address, counters);
        }
    }
}

/// A scan goes back to the beginning of a shard that changed, on with the rest of a shard, on to
/// the next shard at its present revision, and ends after the last. It starts at the beginning of
/// the first shard.
pub proof fn law_scan_goes_on(shards: Seq<ShardView>, position: CursorPosition, limit: int)
    requires
        0 <= position.shard < shards.len(),
        0 <= position.offset,
        0 < limit,
    ensures
        ({
            let shard = shards[position.shard];
            let listed = model::live(shard.entries);
            let start = model::cursor_position(shards, None);
            &&& start.shard == 0 && start.offset == 0 && start.revision == shards[0].revision
            &&& match model::next_position(shards, position, limit) {
                Some(next) => {
                    if position.revision != shard.revision {
                        &&& next.shard == position.shard
                        &&& next.revision == shard.revision
                        &&& next.offset == 0
                    } else if position.offset + limit < listed.len() {
                        &&& next.shard == position.shard
                        &&& next.revision == position.revision
                        &&& next.offset == position.offset + limit
                    } else {
                        &&& next.shard == position.shard + 1
                        &&& next.shard < shards.len()
                        &&& next.revision == shards[next.shard].revision
                        &&& next.offset == 0
                    }
                },
                None => {
                    &&& position.revision == shard.revision
                    &&& position.offset + limit >= listed.len()
                    &&& position.shard + 1 == shards.len()
                },
            }
        }),
{
}

/// An access sets the counter of the time of the address that is held for the hash, and no other.
pub proof fn law_access_is_noted(
    shards: Seq<ShardView>,
    counters: CountersView,
    hash: u64,
    now: u64,
)
    requires
        shards.len() > 0,
    ensures
        ({
            let after = model::after_access(shards, counters, hash, now);
            match held(shards, hash) {
                Some(Index::Address(address)) => {
                    &&& after.values == counters.values.insert(
                        address.last_accessed_at_unix_micros@,
                        now,
                    )
                    &&& after.created == counters.created
                },
                _ => after == counters,
            }
        }),
{
}

/// A load of a held address is due to be reported exactly if its bucket is later than the one that
/// the counters hold, and it is noted then.
pub proof fn law_load_is_reported_once(
    shards: Seq<ShardView>,
    counters: CountersView,
    hash: u64,
    bucket: u64,
)
    requires
        shards.len() > 0,
    ensures
        ({
            let due = model::report_due(shards, counters, hash, bucket);
            let after = model::after_report(shards, counters, hash, bucket);
            &&& match held(shards, hash) {
                Some(Index::Address(address)) => {
                    let last = address.last_access_report_bucket@;
                    let reported = if counters.values.contains_key(last) {
                        counters.values[last]
                    } else {
                        0
                    };
                    &&& due <==> bucket > reported
                    &&& due ==> after.values == counters.values.insert(last, bucket)
                        && after.created == counters.created
                },
                _ => !due,
            }
            &&& !due ==> after == counters
            &&& due ==> !model::report_due(shards, after, hash, bucket)
        }),
{
}

/// A scan with a cursor stands where its cursor does.
pub proof fn law_cursor_tells_where_a_scan_stands(shards: Seq<ShardView>, cursor: DiskIndexCursor)
    ensures
        model::cursor_position(shards, Some(cursor)) == cursor@,
        model::optional_position(Some(cursor)) == Some(cursor@),
        model::optional_position(None) is None,
{
}

/// In a valid index every hash is in its home, and an index in which every hash is in its home is
/// valid.
pub proof fn law_valid_index_keeps_hashes_at_home(shards: Seq<ShardView>)
    ensures
        model::well_placed(shards) <==> at_home(shards),
{
    if model::well_placed(shards) {
        assert forall|s: int, hash: u64|
            0 <= s < shards.len() && #[trigger] shards[s].entries.contains_key(hash) implies home(
            hash,
            shards.len() as int,
        ) == s by {
            assert(model::shard_of(hash, shards.len() as int) == s);
        }
    }
}

/// The sequence of a version is that of the address or the deletion.
pub proof fn law_version_has_its_sequence(address: EntryAddress, sequence: Sequence)
    ensures
        Index::Address(address).version() == address.sequence,
        Index::Tombstone(sequence).version() == sequence,
{
}

/// Two addresses are equal exactly if they have the same block, offset, length and sequence.
pub proof fn law_equal_addresses_locate_the_same(a: EntryAddress, b: EntryAddress)
    ensures
        vstd::std_specs::cmp::PartialEqSpec::eq_spec(&a, &b) <==> a.block == b.block && a.offset
            == b.offset && a.len == b.len && a.sequence == b.sequence,
{
}

/// Items that are all in shard `s` stay when those of shard `t` are picked out, if the two are the
/// same, and go otherwise.
proof fn lemma_pick_shard(items: Seq<HashedEntryAddress>, n: int, s: int, t: int)
    requires
        forall|i: int| 0 <= i < items.len() ==> home((#[trigger] items[i]).hash, n) == s,
    ensures
        items.filter(|item: HashedEntryAddress| home(item.hash, n) == t) == (if s == t {
            items
        } else {
            Seq::empty()
        }),
    decreases items.len(),
{
    reveal(Seq::filter);
    if items.len() > 0 {
        let rest = items.drop_last();
        assert forall|i: int| 0 <= i < rest.len() implies home((#[trigger] rest[i]).hash, n) == s by {
            assert(items[i] == rest[i]);
        }
        lemma_pick_shard(rest, n, s, t);
        assert(items[items.len() - 1] == items.last());
        assert(items == rest.push(items.last()));
    }
}

/// What goes out of use in a shard belongs to it.
proof fn lemma_displaced_at_home(
    entries: Map<u64, Index>,
    batch: Seq<HashedEntryAddress>,
    n: int,
    s: int,
)
    requires
        forall|i: int| 0 <= i < batch.len() ==> home((#[trigger] batch[i]).hash, n) == s,
    ensures
        forall|i: int|
            0 <= i < model::all_displaced(entries, batch).len() ==> home(
                (#[trigger] model::all_displaced(entries, batch)[i]).hash,
                n,
            ) == s,
    decreases batch.len(),
{
    if batch.len() > 0 {
        let rest = batch.drop_last();
        assert forall|i: int| 0 <= i < rest.len() implies home((#[trigger] rest[i]).hash, n) == s by {
            assert(batch[i] == rest[i]);
        }
        lemma_displaced_at_home(entries, rest, n, s);
        assert(batch[batch.len() - 1] == batch.last());
        let before = model::all_displaced(entries, rest);
        let all = model::all_displaced(entries, batch);
        assert forall|i: int| 0 <= i < all.len() implies home((#[trigger] all[i]).hash, n) == s by {
            if i < before.len() {
                assert(all[i] == before[i]);
            }
        }
    }
}

proof fn lemma_dropped_at_home(
    entries: Map<u64, Index>,
    batch: Seq<(u64, Sequence)>,
    n: int,
    s: int,
)
    requires
        forall|i: int| 0 <= i < batch.len() ==> home((#[trigger] batch[i]).0, n) == s,
    ensures
        forall|i: int|
            0 <= i < model::all_dropped(entries, batch).len() ==> home(
                (#[trigger] model::all_dropped(entries, batch)[i]).hash,
                n,
            ) == s,
    decreases batch.len(),
{
    if batch.len() > 0 {
        let rest = batch.drop_last();
        assert forall|i: int| 0 <= i < rest.len() implies home((#[trigger] rest[i]).0, n) == s by {
            assert(batch[i] == rest[i]);
        }
        lemma_dropped_at_home(entries, rest, n, s);
        assert(batch[batch.len() - 1] == batch.last());
        let before = model::all_dropped(entries, rest);
        let all = model::all_dropped(entries, batch);
        assert forall|i: int| 0 <= i < all.len() implies home((#[trigger] all[i]).hash, n) == s by {
            if i < before.len() {
                assert(all[i] == before[i]);
            }
        }
    }
}

/// What goes out of use in one shard when a batch is inserted into an index.
proof fn lemma_displaced_in_shard(
    shards: Seq<ShardView>,
    batch: Seq<HashedEntryAddress>,
    s: int,
    k: int,
)
    requires
        0 <= s < shards.len(),
        0 <= k <= shards.len(),
    ensures
        model::displaced_below(shards, batch, k).filter(
            |item: HashedEntryAddress| home(item.hash, shards.len() as int) == s,
        ) == (if s < k {
            model::all_displaced(
                shards[s].entries,
                model::group(batch, shards.len() as int, s),
            )
        } else {
            Seq::empty()
        }),
    decreases k,
{
    broadcast use vstd::seq_lib::group_filter_ensures;

    let n = shards.len() as int;
    let mine = |item: HashedEntryAddress| home(item.hash, n) == s;
    if k <= 0 {
        reveal(Seq::filter);
    } else {
        lemma_displaced_in_shard(shards, batch, s, k - 1);
        let own = model::group(batch, n, k - 1);
        let picked = |item: HashedEntryAddress| model::shard_of(item.key_hash(), n) == k - 1;
        assert(own == batch.filter(picked));
        assert forall|i: int| 0 <= i < own.len() implies home((#[trigger] own[i]).hash, n) == k
            - 1 by {
            assert(picked(own[i]));
        }
        let last = model::all_displaced(shards[k - 1].entries, own);
        lemma_displaced_at_home(shards[k - 1].entries, own, n, k - 1);
        lemma_pick_shard(last, n, k - 1, s);
        let before = model::displaced_below(shards, batch, k - 1);
        Seq::filter_distributes_over_add(before, last, mine);
        assert(before.filter(mine) + last.filter(mine) =~= (if s < k {
            model::all_displaced(shards[s].entries, model::group(batch, n, s))
        } else {
            Seq::empty()
        }));
    }
}

proof fn lemma_dropped_in_shard(
    shards: Seq<ShardView>,
    batch: Seq<(u64, Sequence)>,
    s: int,
    k: int,
)
    requires
        0 <= s < shards.len(),
        0 <= k <= shards.len(),
    ensures
        model::dropped_below(shards, batch, k).filter(
            |item: HashedEntryAddress| home(item.hash, shards.len() as int) == s,
        ) == (if s < k {
            model::all_dropped(shards[s].entries, model::group(batch, shards.len() as int, s))
        } else {
            Seq::empty()
        }),
    decreases k,
{
    broadcast use vstd::seq_lib::group_filter_ensures;

    let n = shards.len() as int;
    let mine = |item: HashedEntryAddress| home(item.hash, n) == s;
    if k <= 0 {
        reveal(Seq::filter);
    } else {
        lemma_dropped_in_shard(shards, batch, s, k - 1);
        let own = model::group(batch, n, k - 1);
        let picked = |item: (u64, Sequence)| model::shard_of(item.key_hash(), n) == k - 1;
        assert(own == batch.filter(picked));
        assert forall|i: int| 0 <= i < own.len() implies home((#[trigger] own[i]).0, n) == k
            - 1 by {
            assert(picked(own[i]));
        }
        let last = model::all_dropped(shards[k - 1].entries, own);
        lemma_dropped_at_home(shards[k - 1].entries, own, n, k - 1);
        lemma_pick_shard(last, n, k - 1, s);
        let before = model::dropped_below(shards, batch, k - 1);
        Seq::filter_distributes_over_add(before, last, mine);
        assert(before.filter(mine) + last.filter(mine) =~= (if s < k {
            model::all_dropped(shards[s].entries, model::group(batch, n, s))
        } else {
            Seq::empty()
        }));
    }
}

proof fn lemma_put_all_join(
    entries: Map<u64, Index>,
    a: Seq<HashedEntryAddress>,
    b: Seq<HashedEntryAddress>,
)
    ensures
        model::put_all(entries, a + b) == model::put_all(model::put_all(entries, a), b),
        model::all_displaced(entries, a + b) == model::all_displaced(entries, a)
            + model::all_displaced(model::put_all(entries, a), b),
    decreases b.len(),
{
    if b.len() == 0 {
        assert(a + b =~= a);
        assert(model::all_displaced(entries, a) + model::all_displaced(
            model::put_all(entries, a),
            b,
        ) =~= model::all_displaced(entries, a));
    } else {
        lemma_put_all_join(entries, a, b.drop_last());
        assert((a + b).drop_last() =~= a + b.drop_last());
        assert((a + b).last() == b.last());
        assert(model::all_displaced(entries, a + b) =~= model::all_displaced(entries, a)
            + model::all_displaced(model::put_all(entries, a), b));
    }
}

proof fn lemma_drop_all_join(
    entries: Map<u64, Index>,
    a: Seq<(u64, Sequence)>,
    b: Seq<(u64, Sequence)>,
)
    ensures
        model::drop_all(entries, a + b) == model::drop_all(model::drop_all(entries, a), b),
        model::all_dropped(entries, a + b) == model::all_dropped(entries, a) + model::all_dropped(
            model::drop_all(entries, a),
            b,
        ),
    decreases b.len(),
{
    if b.len() == 0 {
        assert(a + b =~= a);
        assert(model::all_dropped(entries, a) + model::all_dropped(model::drop_all(entries, a), b)
            =~= model::all_dropped(entries, a));
    } else {
        lemma_drop_all_join(entries, a, b.drop_last());
        assert((a + b).drop_last() =~= a + b.drop_last());
        assert((a + b).last() == b.last());
        assert(model::all_dropped(entries, a + b) =~= model::all_dropped(entries, a)
            + model::all_dropped(model::drop_all(entries, a), b));
    }
}

/// Two batches can be inserted as one: the index holds the same, and for each shard the same
/// addresses are returned in the same order.
pub proof fn law_insertions_join(
    shards: Seq<ShardView>,
    a: Seq<HashedEntryAddress>,
    b: Seq<HashedEntryAddress>,
    s: int,
)
    requires
        0 <= s < shards.len(),
    ensures
        ({
            let n = shards.len() as int;
            let in_shard = |item: HashedEntryAddress| home(item.hash, n) == s;
            let middle = model::after_insert(shards, a);
            &&& model::after_insert(middle, b)[s].entries == model::after_insert(
                shards,
                a + b,
            )[s].entries
            &&& model::displaced_below(shards, a + b, n).filter(in_shard)
                == model::displaced_below(shards, a, n).filter(in_shard) + model::displaced_below(
                middle,
                b,
                n,
            ).filter(in_shard)
        }),
{
    let n = shards.len() as int;
    let middle = model::after_insert(shards, a);
    let mine = |item: HashedEntryAddress| model::shard_of(item.key_hash(), n) == s;
    Seq::filter_distributes_over_add(a, b, mine);
    assert(model::group(a + b, n, s) == model::group(a, n, s) + model::group(b, n, s));
    lemma_put_all_join(shards[s].entries, model::group(a, n, s), model::group(b, n, s));
    lemma_displaced_in_shard(shards, a + b, s, n);
    lemma_displaced_in_shard(shards, a, s, n);
    lemma_displaced_in_shard(middle, b, s, n);
}

/// Two batches can be removed as one: the index holds the same, and for each shard the same
/// addresses are returned in the same order.
pub proof fn law_removals_join(
    shards: Seq<ShardView>,
    a: Seq<(u64, Sequence)>,
    b: Seq<(u64, Sequence)>,
    s: int,
)
    requires
        0 <= s < shards.len(),
    ensures
        ({
            let n = shards.len() as int;
            let in_shard = |item: HashedEntryAddress| home(item.hash, n) == s;
            let middle = model::after_remove(shards, a);
            &&& model::after_remove(middle, b)[s].entries == model::after_remove(
                shards,
                a + b,
            )[s].entries
            &&& model::dropped_below(shards, a + b, n).filter(in_shard) == model::dropped_below(
                shards,
                a,
                n,
            ).filter(in_shard) + model::dropped_below(middle, b, n).filter(in_shard)
        }),
{
    let n = shards.len() as int;
    let middle = model::after_remove(shards, a);
    let mine = |item: (u64, Sequence)| model::shard_of(item.key_hash(), n) == s;
    Seq::filter_distributes_over_add(a, b, mine);
    assert(model::group(a + b, n, s) == model::group(a, n, s) + model::group(b, n, s));
    lemma_drop_all_join(shards[s].entries, model::group(a, n, s), model::group(b, n, s));
    lemma_dropped_in_shard(shards, a + b, s, n);
    lemma_dropped_in_shard(shards, a, s, n);
    lemma_dropped_in_shard(middle, b, s, n);
}

} // verus!
