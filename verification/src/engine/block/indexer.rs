//! The index of live entry addresses, by key hash.
use crate::engine::block::model;
use crate::engine::block::model::ShardView;
use crate::clock;
use crate::counter::{Counter, Counters};
use crate::engine::block::index_laws;
use crate::engine::block::manager::BlockId;
use crate::engine::{DiskIndexCursor, DiskIndexEntry, DiskIndexPage, EntryAddressSnapshot};
use itertools::Itertools;
use std::collections::{BTreeMap, HashMap};
use std::time::SystemTime;
use vstd::prelude::*;

verus! {

/// The version counter of the entries.
pub type Sequence = u64;

/// What is known of a key hash: where its entry lies, or that it was deleted.
#[derive(Debug, Clone, Copy)]
pub enum Index {
    Address(EntryAddress),
    Tombstone(Sequence),
}

impl Index {
    /// The sequence of this version.
    pub open spec fn version(self) -> Sequence {
        match self {
            Index::Address(address) => address.sequence,
            Index::Tombstone(sequence) => sequence,
        }
    }

    /// The address of this version, unless it is a deletion.
    pub open spec fn live_address(self) -> Option<EntryAddress> {
        match self {
            Index::Address(address) => Some(address),
            Index::Tombstone(_) => None,
        }
    }

    /// The sequence of this version.
    pub fn sequence(&self) -> (sequence: Sequence)
        ensures
            sequence == self.version(),
    {
        match self {
            Index::Address(address) => address.sequence,
            Index::Tombstone(sequence) => *sequence,
        }
    }
}

/// Something that belongs to a key hash.
pub trait Hashed {
    /// The key hash.
    spec fn key_hash(&self) -> u64;

    /// The key hash.
    fn hash(&self) -> (hash: u64)
        ensures
            hash == self.key_hash(),
    ;
}

/// A key hash and an address of its entry.
#[derive(Debug, Clone, Copy, PartialEq, Eq)]
pub struct HashedEntryAddress {
    pub hash: u64,
    pub address: EntryAddress,
}

impl Hashed for HashedEntryAddress {
    open spec fn key_hash(&self) -> u64 {
        self.hash
    }

    fn hash(&self) -> (hash: u64) {
        self.hash
    }
}

impl Hashed for (u64, Sequence) {
    open spec fn key_hash(&self) -> u64 {
        self.0
    }

    fn hash(&self) -> (hash: u64) {
        self.0
    }
}

/// Where an entry lies, which version it is, and when it was used.
///
/// When it was last used is counted: all copies of an address share its counters, so that an address
/// that was taken out of an index follows later use of the entry.
#[derive(Debug, Clone, Copy)]
pub struct EntryAddress {
    pub block: BlockId,
    pub offset: u32,
    pub len: u32,
    pub sequence: Sequence,
    pub inserted_at_unix_micros: u64,
    pub last_accessed_at_unix_micros: Counter,
    pub last_access_report_bucket: Counter,
}

impl EntryAddress {
    /// Whether two addresses locate the same version of an entry. The times of use do not matter.
    pub open spec fn same_place(self, other: Self) -> bool {
        &&& self.block == other.block
        &&& self.offset == other.offset
        &&& self.len == other.len
        &&& self.sequence == other.sequence
    }
}

impl PartialEq for EntryAddress {
    fn eq(&self, other: &Self) -> (equal: bool) {
        self.block == other.block && self.offset == other.offset && self.len == other.len
            && self.sequence == other.sequence
    }
}

impl vstd::std_specs::cmp::PartialEqSpecImpl for EntryAddress {
    open spec fn obeys_eq_spec() -> bool {
        true
    }

    open spec fn eq_spec(&self, other: &Self) -> bool {
        self.same_place(*other)
    }
}

impl Eq for EntryAddress {

}

/// The order of the hashes in a shard is that of the numbers.
spec fn hashes_ordered() -> bool {
    &&& vstd::laws_cmp::obeys_cmp::<u64>()
    &&& vstd::std_specs::btree::key_obeys_cmp_spec::<u64>()
}

proof fn lemma_hashes_ordered()
    ensures
        hashes_ordered(),
{
    broadcast use {
        vstd::laws_cmp::group_laws_cmp,
        vstd::std_specs::btree::axiom_key_obeys_cmp_spec_meaning,
    };

}

/// `pairs` are the pairs of `entries`, by ascending hash.
spec fn lists(pairs: Seq<(&u64, &Index)>, entries: Map<u64, Index>) -> bool {
    &&& forall|i: int, j: int| 0 <= i < j < pairs.len() ==> *pairs[i].0 < *pairs[j].0
    &&& forall|i: int|
        0 <= i < pairs.len() ==> entries.contains_key(*(#[trigger] pairs[i]).0)
            && entries[*pairs[i].0] == *pairs[i].1
    &&& forall|hash: u64| #[trigger]
        entries.contains_key(hash) ==> exists|i: int| 0 <= i < pairs.len() && *(#[trigger] pairs[i]).0 == hash
}

/// An increasing sequence of hashes is strictly ascending.
proof fn lemma_ascending(hashes: Seq<u64>)
    requires
        vstd::std_specs::btree::increasing_seq(hashes),
    ensures
        forall|i: int, j: int| 0 <= i < j < hashes.len() ==> hashes[i] < hashes[j],
{
    lemma_hashes_ordered();
    vstd::std_specs::btree::axiom_increasing_seq_meaning(hashes);
    assert forall|i: int, j: int| 0 <= i < j < hashes.len() implies hashes[i] < hashes[j] by {
        assert(vstd::std_specs::cmp::OrdSpec::cmp_spec(&hashes[i], &hashes[j]) is Less);
    }
}

/// A walk over a map in ascending order lists it.
proof fn lemma_lists(pairs: Seq<(&u64, &Index)>, entries: &BTreeMap<u64, Index>)
    requires
        pairs == vstd::std_specs::iter::IteratorSpec::remaining(
            &vstd::std_specs::btree::spec_btree_map_iter(entries),
        ),
        vstd::std_specs::btree::increasing_seq(pairs.map_values(|kv: (&u64, &Index)| *kv.0)),
    ensures
        lists(pairs, entries@),
        pairs.len() <= usize::MAX,
{
    broadcast use vstd::std_specs::btree::group_btree_axioms;

    lemma_hashes_ordered();
    lemma_ascending(pairs.map_values(|kv: (&u64, &Index)| *kv.0));
    let hashes = pairs.map_values(|kv: (&u64, &Index)| *kv.0);
    assert forall|i: int, j: int| 0 <= i < j < pairs.len() implies *pairs[i].0 < *pairs[j].0 by {
        assert(hashes[i] < hashes[j]);
    }
    assert forall|hash: u64| #[trigger] entries@.contains_key(hash) implies exists|i: int|
        0 <= i < pairs.len() && *(#[trigger] pairs[i]).0 == hash by {
        assert(pairs.contains((&hash, &entries@[hash])));
        let i = choose|i: int| 0 <= i < pairs.len() && pairs[i] == (&hash, &entries@[hash]);
        assert(*pairs[i].0 == hash);
    }
    assert(pairs.len() == entries.len());
}

/// No live entry lies between two bounds that have no live hash between them.
proof fn lemma_live_gap(entries: Map<u64, Index>, low: nat, high: nat)
    requires
        low <= high <= model::hash_count(),
        forall|hash: u64|
            low <= hash < high ==> (#[trigger] model::live_entry(entries, hash)) is None,
    ensures
        model::live_below(entries, low) == model::live_below(entries, high),
    decreases high - low,
{
    if low < high {
        lemma_live_gap(entries, low, (high - 1) as nat);
        assert(model::live_entry(entries, (high - 1) as u64) is None);
    }
}

/// The live entries below a bound are the first of those below a higher bound.
proof fn lemma_live_prefix(entries: Map<u64, Index>, low: nat, high: nat)
    requires
        low <= high,
    ensures
        model::live_below(entries, low).len() <= model::live_below(entries, high).len(),
        model::live_below(entries, high).subrange(
            0,
            model::live_below(entries, low).len() as int,
        ) == model::live_below(entries, low),
    decreases high - low,
{
    if low < high {
        lemma_live_prefix(entries, low, (high - 1) as nat);
        let before = model::live_below(entries, (high - 1) as nat);
        let n = model::live_below(entries, low).len() as int;
        assert(model::live_below(entries, high).subrange(0, n) == before.subrange(0, n));
    } else {
        assert(model::live_below(entries, high).subrange(
            0,
            model::live_below(entries, low).len() as int,
        ) == model::live_below(entries, low));
    }
}

/// The bound on the hashes of the first `n` pairs of a walk in ascending order.
spec fn walked_to(pairs: Seq<(&u64, &Index)>, n: int) -> nat {
    if n <= 0 {
        0
    } else {
        (*pairs[n - 1].0 + 1) as nat
    }
}

/// One more pair of a walk adds its live entry.
proof fn lemma_next_live(pairs: Seq<(&u64, &Index)>, entries: Map<u64, Index>, n: int)
    requires
        lists(pairs, entries),
        0 <= n < pairs.len(),
    ensures
        model::live_below(entries, walked_to(pairs, n + 1)) == match *pairs[n].1 {
            Index::Address(address) => model::live_below(entries, walked_to(pairs, n)).push(
                HashedEntryAddress { hash: *pairs[n].0, address },
            ),
            Index::Tombstone(_) => model::live_below(entries, walked_to(pairs, n)),
        },
{
    let low = walked_to(pairs, n);
    let hash = *pairs[n].0;
    assert(low <= hash) by {
        if n > 0 {
            assert(*pairs[n - 1].0 < *pairs[n].0);
        }
    }
    assert forall|other: u64| low <= other < hash implies (#[trigger] model::live_entry(
        entries,
        other,
    )) is None by {
        if entries.contains_key(other) {
            let i = choose|i: int| 0 <= i < pairs.len() && *(#[trigger] pairs[i]).0 == other;
            if i < n {
                assert(i < n - 1 ==> *pairs[i].0 < *pairs[n - 1].0);
            } else {
                assert(n < i ==> *pairs[n].0 < *pairs[i].0);
            }
        }
    }
    lemma_live_gap(entries, low, hash as nat);
}

/// What one more item adds to a window.
proof fn lemma_window_push<T>(items: Seq<T>, item: T, offset: int, limit: int)
    requires
        0 <= offset,
        0 <= limit,
    ensures
        model::window(items.push(item), offset, limit) == if items.len() >= offset && model::window(
            items,
            offset,
            limit,
        ).len() < limit {
            model::window(items, offset, limit).push(item)
        } else {
            model::window(items, offset, limit)
        },
{
    let after = model::window(items.push(item), offset, limit);
    let before = model::window(items, offset, limit);
    if items.len() >= offset && before.len() < limit {
        assert(after == before.push(item));
    } else {
        assert(after == before);
    }
}

/// One shard of the index. The entries are kept by ascending hash, so that the position of a live
/// entry among the live entries does not depend on accesses to it.
#[derive(Debug)]
struct IndexerShard {
    entries: BTreeMap<u64, Index>,
    revision: u64,
}

impl View for IndexerShard {
    type V = ShardView;

    closed spec fn view(&self) -> ShardView {
        ShardView { entries: self.entries@, revision: self.revision }
    }
}

impl IndexerShard {
    fn new() -> (shard: Self)
        ensures
            shard@ == (ShardView { entries: Map::empty(), revision: 0 }),
    {
        IndexerShard { entries: BTreeMap::new(), revision: 0 }
    }

    /// The entry stored for `hash`.
    fn lookup(&self, hash: u64) -> (index: Option<Index>)
        ensures
            index == (if self@.entries.contains_key(hash) {
                Some(self@.entries[hash])
            } else {
                None
            }),
    {
        broadcast use vstd::std_specs::btree::group_btree_axioms;

        proof {
            lemma_hashes_ordered();
        }
        match self.entries.get(&hash) {
            Some(index) => Some(*index),
            None => None,
        }
    }

    /// The at most `limit` live entries that follow the first `offset` ones.
    fn live_window(&self, offset: usize, limit: usize) -> (found: Vec<HashedEntryAddress>)
        ensures
            found@ == model::window(model::live(self@.entries), offset as int, limit as int),
    {
        broadcast use vstd::std_specs::btree::group_btree_axioms;

        proof {
            lemma_hashes_ordered();
        }
        let ghost entries = self.entries@;
        let mut found: Vec<HashedEntryAddress> = Vec::new();
        let mut position: usize = 0;
        let ghost mut bound: nat = 0;
        let walk = self.entries.iter();
        proof {
            lemma_lists(vstd::std_specs::iter::IteratorSpec::remaining(&walk), &self.entries);
        }
        for (hash, index) in it: walk
            invariant
                entries == self.entries@,
                lists(it.seq(), entries),
                it.seq().len() <= usize::MAX,
                bound == walked_to(it.seq(), it.index() as int),
                bound <= model::hash_count(),
                position == model::live_below(entries, bound).len(),
                position <= it.index(),
                found@ == model::window(
                    model::live_below(entries, bound),
                    offset as int,
                    limit as int,
                ),
        {
            if found.len() == limit {
                proof {
                    lemma_live_prefix(entries, bound, model::hash_count());
                    assert(found@ == model::window(
                        model::live(entries),
                        offset as int,
                        limit as int,
                    ));
                }
                return found;
            }
            proof {
                assert(it.seq()[it.index() as int] == (hash, index));
                lemma_next_live(it.seq(), entries, it.index() as int);
                lemma_window_push(
                    model::live_below(entries, bound),
                    HashedEntryAddress { hash: *hash, address: index->Address_0 },
                    offset as int,
                    limit as int,
                );
                bound = (*hash + 1) as nat;
            }
            match index {
                Index::Address(address) => {
                    if position >= offset {
                        found.push(HashedEntryAddress { hash: *hash, address: *address });
                    }
                    position = position + 1;
                },
                Index::Tombstone(_) => {},
            }
        }
        proof {
            assert forall|hash: u64| bound <= hash < model::hash_count() implies (
            #[trigger] model::live_entry(entries, hash)) is None by {}
            lemma_live_gap(entries, bound, model::hash_count());
        }
        found
    }

    /// The number of live entries fits into a `usize`.
    proof fn lemma_live_fits(&self)
        ensures
            model::live(self@.entries).len() <= usize::MAX,
    {
        broadcast use vstd::std_specs::btree::group_btree_axioms;

        lemma_hashes_ordered();
        let entries = self.entries@;
        let listed = model::live(entries);
        index_laws::law_live_below_lists_live_entries(entries, model::hash_count());
        let hashes = listed.map_values(|entry: HashedEntryAddress| entry.hash);
        assert(hashes.no_duplicates());
        hashes.unique_seq_to_set();
        assert(hashes.to_set().subset_of(entries.dom()));
        vstd::set_lib::lemma_len_subset(hashes.to_set(), entries.dom());
        assert(self.entries.len() == entries.dom().len());
    }

    /// The number of live entries.
    fn live_count(&self) -> (count: usize)
        ensures
            count == model::live(self@.entries).len(),
    {
        broadcast use vstd::std_specs::btree::group_btree_axioms;

        proof {
            lemma_hashes_ordered();
        }
        let ghost entries = self.entries@;
        let mut count: usize = 0;
        let ghost mut bound: nat = 0;
        let walk = self.entries.iter();
        proof {
            lemma_lists(vstd::std_specs::iter::IteratorSpec::remaining(&walk), &self.entries);
        }
        for (hash, index) in it: walk
            invariant
                entries == self.entries@,
                lists(it.seq(), entries),
                it.seq().len() <= usize::MAX,
                bound == walked_to(it.seq(), it.index() as int),
                bound <= model::hash_count(),
                count == model::live_below(entries, bound).len(),
                count <= it.index(),
        {
            proof {
                assert(it.seq()[it.index() as int] == (hash, index));
                lemma_next_live(it.seq(), entries, it.index() as int);
                bound = (*hash + 1) as nat;
            }
            match index {
                Index::Address(_) => {
                    count = count + 1;
                },
                Index::Tombstone(_) => {},
            }
        }
        proof {
            lemma_live_gap(entries, bound, model::hash_count());
        }
        count
    }

    /// Whether a version of `hash` with `sequence` would be accepted.
    fn accepts(&self, hash: u64, sequence: Sequence) -> (accepted: bool)
        ensures
            accepted == model::accepts(self@.entries, hash, sequence),
    {
        match self.lookup(hash) {
            Some(index) => sequence >= index.sequence(),
            None => true,
        }
    }

    /// Count a change of the live entries.
    fn bump(&mut self, changed: bool)
        ensures
            final(self)@ == (ShardView {
                revision: model::bumped(old(self)@.revision, changed),
                ..old(self)@
            }),
    {
        if changed {
            self.revision = self.revision.wrapping_add(1);
        }
    }

    /// Offer a version, and return the address that goes out of use.
    fn insert_inner(&mut self, hash: u64, index: Index) -> (old_address: Option<EntryAddress>)
        ensures
            final(self)@ == (ShardView {
                entries: model::put(old(self)@.entries, hash, index),
                ..old(self)@
            }),
            old_address == model::displaced(old(self)@.entries, hash, index),
    {
        proof {
            lemma_hashes_ordered();
        }
        match self.lookup(hash) {
            Some(stored) => {
                // `>` for updates.
                // '=' for reinsertions.
                if index.sequence() >= stored.sequence() {
                    self.entries.insert(hash, index);
                    extract_address(stored)
                } else {
                    extract_address(index)
                }
            },
            None => {
                self.entries.insert(hash, index);
                None
            },
        }
    }

    /// Offer the addresses of `batch` one after the other, and append those that go out of use.
    fn insert_group(
        &mut self,
        batch: &Vec<HashedEntryAddress>,
        olds: &mut Vec<HashedEntryAddress>,
    )
        ensures
            final(self)@ == (ShardView {
                entries: model::put_all(old(self)@.entries, batch@),
                revision: model::bumped(
                    old(self)@.revision,
                    model::any_accepted(old(self)@.entries, batch@),
                ),
            }),
            final(olds)@ == old(olds)@ + model::all_displaced(old(self)@.entries, batch@),
    {
        let mut changed = false;
        let ghost before = self@;
        let ghost olds_before = olds@;
        assert(batch@.take(0) == Seq::<HashedEntryAddress>::empty());
        for i in 0..batch.len()
            invariant
                self@.revision == before.revision,
                self@.entries == model::put_all(before.entries, batch@.take(i as int)),
                changed == model::any_accepted(before.entries, batch@.take(i as int)),
                olds@ == olds_before + model::all_displaced(before.entries, batch@.take(i as int)),
        {
            assert(batch@.take(i + 1).drop_last() == batch@.take(i as int));
            let haddr = batch[i];
            if self.accepts(haddr.hash, haddr.address.sequence) {
                changed = true;
            }
            match self.insert_inner(haddr.hash, Index::Address(haddr.address)) {
                Some(old_address) => {
                    olds.push(HashedEntryAddress { hash: haddr.hash, address: old_address });
                },
                None => {},
            }
        }
        assert(batch@.take(batch@.len() as int) == batch@);
        self.bump(changed);
    }

    /// Drop the live entry of `hash`, if there is one.
    fn remove(&mut self, hash: u64) -> (removed: Option<EntryAddress>)
        ensures
            removed == (match model::live_entry(old(self)@.entries, hash) {
                Some(entry) => Some(entry.address),
                None => None,
            }),
            final(self)@ == model::shard_after_delete(old(self)@, hash),
    {
        broadcast use vstd::std_specs::btree::group_btree_axioms;

        proof {
            lemma_hashes_ordered();
        }
        let removed = match self.lookup(hash) {
            Some(index) => extract_address(index),
            None => None,
        };
        if removed.is_some() {
            self.entries.remove(&hash);
        }
        self.bump(removed.is_some());
        removed
    }

    /// Drop the versions that `batch` asks for one after the other, and append their addresses.
    fn remove_group(
        &mut self,
        batch: &Vec<(u64, Sequence)>,
        olds: &mut Vec<HashedEntryAddress>,
    )
        ensures
            final(self)@ == (ShardView {
                entries: model::drop_all(old(self)@.entries, batch@),
                revision: model::bumped(
                    old(self)@.revision,
                    model::all_dropped(old(self)@.entries, batch@).len() > 0,
                ),
            }),
            final(olds)@ == old(olds)@ + model::all_dropped(old(self)@.entries, batch@),
    {
        broadcast use vstd::std_specs::btree::group_btree_axioms;

        proof {
            lemma_hashes_ordered();
        }
        let mut changed = false;
        let ghost before = self@;
        let ghost olds_before = olds@;
        assert(batch@.take(0) == Seq::<(u64, Sequence)>::empty());
        for i in 0..batch.len()
            invariant
                hashes_ordered(),
                self@.revision == before.revision,
                self@.entries == model::drop_all(before.entries, batch@.take(i as int)),
                changed == (model::all_dropped(before.entries, batch@.take(i as int)).len() > 0),
                olds@ == olds_before + model::all_dropped(before.entries, batch@.take(i as int)),
        {
            assert(batch@.take(i + 1).drop_last() == batch@.take(i as int));
            let (hash, sequence) = batch[i];
            match self.lookup(hash) {
                Some(stored) => {
                    if sequence >= stored.sequence() {
                        self.entries.remove(&hash);
                        match extract_address(stored) {
                            Some(address) => {
                                olds.push(HashedEntryAddress { hash, address });
                                changed = true;
                            },
                            None => {},
                        }
                    }
                },
                None => {
                    assert(self@.entries.remove(hash) == self@.entries);
                },
            }
        }
        assert(batch@.take(batch@.len() as int) == batch@);
        self.bump(changed);
    }

    /// Drop everything.
    fn clear(&mut self)
        ensures
            final(self)@ == model::shard_after_clear(old(self)@),
    {
        if !self.entries.is_empty() {
            self.entries.clear();
            self.bump(true);
        }
    }
}

/// The address of a version, unless it is a deletion.
fn extract_address(index: Index) -> (address: Option<EntryAddress>)
    ensures
        address == index.live_address(),
{
    match index {
        Index::Address(address) => Some(address),
        Index::Tombstone(_) => None,
    }
}

/// The shard that `hash` belongs to.
fn shard_of(hash: u64, shards: usize) -> (shard: usize)
    requires
        shards > 0,
    ensures
        shard == model::shard_of(hash, shards as int),
        shard < shards,
{
    hash as usize % shards
}

/// Calls `Itertools::into_group_map_by` with the shard of an item as its key. The claim is that a
/// shard is a key of the result exactly if some item belongs to it, and that it leads to the items
/// that belong to it, in the order in which they were given.
#[verifier::external_body]
fn group_by_shard<T: Hashed>(batch: Vec<T>, shards: usize) -> (groups: HashMap<usize, Vec<T>>)
    requires
        shards > 0 || batch@.len() == 0,
    ensures
        forall|s: usize| #[trigger]
            groups@.contains_key(s) <==> model::group(batch@, shards as int, s as int).len() > 0,
        forall|s: usize| #[trigger]
            groups@.contains_key(s) ==> groups@[s]@ == model::group(
                batch@,
                shards as int,
                s as int,
            ),
{
    batch.into_iter().into_group_map_by(|item| shard_of(item.hash(), shards))
}

/// The live entries of some shards are the first of those of more shards.
proof fn lemma_live_in_shards_prefix(shards: Seq<ShardView>, low: int, high: int)
    requires
        low <= high,
    ensures
        model::live_in_shards(shards, low).len() <= model::live_in_shards(shards, high).len(),
    decreases high - low,
{
    if low < high {
        lemma_live_in_shards_prefix(shards, low, high - 1);
    }
}

/// What appended items add to a window.
proof fn lemma_window_add<T>(items: Seq<T>, more: Seq<T>, offset: int, limit: int)
    requires
        0 <= offset,
        0 <= limit,
    ensures
        model::window(items, offset, limit).len() <= limit,
        model::window(items + more, offset, limit) == model::window(items, offset, limit)
            + model::window(
            more,
            if offset > items.len() {
                offset - items.len()
            } else {
                0
            },
            limit - model::window(items, offset, limit).len(),
        ),
{
}

/// The items of a group belong to its shard.
proof fn lemma_group_members<T: Hashed>(batch: Seq<T>, shards: int, s: int)
    ensures
        forall|i: int|
            0 <= i < model::group(batch, shards, s).len() ==> model::shard_of(
                (#[trigger] model::group(batch, shards, s)[i]).key_hash(),
                shards,
            ) == s,
{
    broadcast use vstd::seq_lib::group_filter_ensures;

}

/// Offering addresses adds no hash but theirs.
proof fn lemma_put_all_hashes(entries: Map<u64, Index>, batch: Seq<HashedEntryAddress>, hash: u64)
    requires
        model::put_all(entries, batch).contains_key(hash),
    ensures
        entries.contains_key(hash) || exists|i: int|
            0 <= i < batch.len() && (#[trigger] batch[i]).hash == hash,
    decreases batch.len(),
{
    if batch.len() > 0 {
        if model::put_all(entries, batch.drop_last()).contains_key(hash) {
            lemma_put_all_hashes(entries, batch.drop_last(), hash);
            if !entries.contains_key(hash) {
                let i = choose|i: int|
                    0 <= i < batch.drop_last().len() && (#[trigger] batch.drop_last()[i]).hash
                        == hash;
                assert(batch[i].hash == hash);
            }
        } else {
            assert(batch[batch.len() - 1].hash == hash);
        }
    }
}

/// Inserting a batch keeps every hash in its shard.
pub proof fn lemma_insert_placed(shards: Seq<ShardView>, batch: Seq<HashedEntryAddress>)
    requires
        model::well_placed(shards),
    ensures
        model::well_placed(model::after_insert(shards, batch)),
{
    let after = model::after_insert(shards, batch);
    let n = shards.len() as int;
    assert forall|s: int, hash: u64|
        0 <= s < n && #[trigger] after[s].entries.contains_key(hash) implies model::shard_of(
        hash,
        n,
    ) == s by {
        let own = model::group(batch, n, s);
        lemma_put_all_hashes(shards[s].entries, own, hash);
        if !shards[s].entries.contains_key(hash) {
            lemma_group_members(batch, n, s);
            let i = choose|i: int| 0 <= i < own.len() && (#[trigger] own[i]).hash == hash;
            assert(own[i].key_hash() == hash);
        }
    }
}

/// Dropping versions adds no hash.
proof fn lemma_drop_all_hashes(entries: Map<u64, Index>, batch: Seq<(u64, Sequence)>, hash: u64)
    requires
        model::drop_all(entries, batch).contains_key(hash),
    ensures
        entries.contains_key(hash),
    decreases batch.len(),
{
    if batch.len() > 0 {
        lemma_drop_all_hashes(entries, batch.drop_last(), hash);
    }
}

/// Removing a batch keeps every hash in its shard.
pub proof fn lemma_remove_placed(shards: Seq<ShardView>, batch: Seq<(u64, Sequence)>)
    requires
        model::well_placed(shards),
    ensures
        model::well_placed(model::after_remove(shards, batch)),
{
    let after = model::after_remove(shards, batch);
    let n = shards.len() as int;
    assert forall|s: int, hash: u64|
        0 <= s < n && #[trigger] after[s].entries.contains_key(hash) implies model::shard_of(
        hash,
        n,
    ) == s by {
        lemma_drop_all_hashes(shards[s].entries, model::group(batch, n, s), hash);
    }
}

/// [`Indexer`] records key hash to entry address on fs.
#[derive(Debug)]
pub struct Indexer {
    shards: Vec<IndexerShard>,
}

impl View for Indexer {
    type V = Seq<ShardView>;

    closed spec fn view(&self) -> Seq<ShardView> {
        self.shards@.map_values(|shard: IndexerShard| shard@)
    }
}

impl Indexer {
    /// Every hash is stored in the shard that it belongs to.
    pub open spec fn wf(&self) -> bool {
        model::well_placed(self@)
    }

    /// Create an index with the given number of shards and no entries.
    pub fn new(shards: usize) -> (indexer: Self)
        ensures
            indexer.wf(),
            indexer@ == Seq::new(
                shards as nat,
                |s: int| ShardView { entries: Map::empty(), revision: 0 },
            ),
    {
        let mut all: Vec<IndexerShard> = Vec::new();
        for s in 0..shards
            invariant
                all@.len() == s,
                forall|i: int|
                    0 <= i < s ==> (#[trigger] all@[i])@ == (ShardView {
                        entries: Map::empty(),
                        revision: 0,
                    }),
        {
            all.push(IndexerShard::new());
        }
        let indexer = Indexer { shards: all };
        assert(indexer@ == Seq::new(
            shards as nat,
            |s: int| ShardView { entries: Map::empty(), revision: 0 },
        ));
        indexer
    }

    /// Record that `hash` was deleted at `sequence`, and return the address that this takes out of
    /// use.
    pub fn insert_tombstone(&mut self, hash: u64, sequence: Sequence) -> (old_address: Option<
        EntryAddress,
    >)
        requires
            old(self).wf(),
            old(self)@.len() > 0,
        ensures
            final(self).wf(),
            final(self)@ == model::after_tombstone(old(self)@, hash, sequence),
            old_address == model::displaced(
                old(self)@[model::shard_of(hash, old(self)@.len() as int)].entries,
                hash,
                Index::Tombstone(sequence),
            ),
    {
        let s: usize = shard_of(hash, self.shards.len());
        let changed = self.shards[s].accepts(hash, sequence);
        let old_address = self.shards[s].insert_inner(hash, Index::Tombstone(sequence));
        self.shards[s].bump(changed);
        assert(self@ == model::after_tombstone(old(self)@, hash, sequence));
        old_address
    }

    /// Record new addresses, and return those that go out of use: for an address that is accepted
    /// the one it replaces, for one that is older than what is stored itself.
    pub fn insert_batch(&mut self, batch: Vec<HashedEntryAddress>) -> (olds: Vec<
        HashedEntryAddress,
    >)
        requires
            old(self).wf(),
            old(self)@.len() > 0 || batch@.len() == 0,
        ensures
            final(self).wf(),
            final(self)@ == model::after_insert(old(self)@, batch@),
            olds@ == model::displaced_below(old(self)@, batch@, old(self)@.len() as int),
    {
        broadcast use vstd::std_specs::hash::group_hash_axioms;

        let shards: usize = self.shards.len();
        let ghost before = self@;
        let ghost items = batch@;
        let mut groups = group_by_shard(batch, shards);
        let ghost grouped = groups@;
        let mut olds: Vec<HashedEntryAddress> = Vec::new();
        for s in 0..shards
            invariant
                shards == before.len(),
                self@.len() == shards,
                self.shards@.len() == shards,
                forall|i: int|
                    0 <= i < s ==> #[trigger] self@[i] == model::shard_after_insert(
                        before,
                        items,
                        i,
                    ),
                forall|i: int| s <= i < shards ==> #[trigger] self@[i] == before[i],
                olds@ == model::displaced_below(before, items, s as int),
                forall|i: usize|
                    s <= i < shards ==> (#[trigger] groups@.contains_key(i) <==> model::group(
                        items,
                        shards as int,
                        i as int,
                    ).len() > 0),
                forall|i: usize|
                    s <= i < shards && #[trigger] groups@.contains_key(i) ==> groups@[i]@
                        == model::group(items, shards as int, i as int),
        {
            let ghost own = model::group(items, shards as int, s as int);
            let ghost previous = self@;
            assert(self@[s as int] == before[s as int]);
            match groups.remove(&s) {
                Some(group) => {
                    self.shards[s].insert_group(&group, &mut olds);
                },
                None => {
                    assert(own.len() == 0);
                },
            }
            assert(self@ == previous.update(
                s as int,
                model::shard_after_insert(before, items, s as int),
            ));
        }
        assert(self@ == model::after_insert(before, items));
        proof {
            lemma_insert_placed(before, items);
        }
        olds
    }

    /// The live entry address of `hash`, marked as accessed at `now`.
    pub fn get_at(&self, counters: &mut Counters, hash: u64, now: u64) -> (address: Option<
        EntryAddress,
    >)
        requires
            self@.len() > 0,
        ensures
            address == model::located(self@, hash),
            final(counters)@ == model::after_access(self@, old(counters)@, hash, now),
    {
        let address = self.locate(hash);
        if let Some(address) = address {
            counters.store(address.last_accessed_at_unix_micros, now);
        }
        address
    }

    /// The live entry address of `hash`, marked as accessed now.
    pub fn get(&self, counters: &mut Counters, hash: u64) -> (address: Option<EntryAddress>)
        requires
            self@.len() > 0,
        ensures
            address == model::located(self@, hash),
            exists|time: SystemTime|
                final(counters)@ == model::after_access(
                    self@,
                    old(counters)@,
                    hash,
                    #[trigger] clock::reading_timestamp(time),
                ),
    {
        let now: u64 = clock::unix_micros();
        self.get_at(counters, hash, now)
    }

    /// Advance the reported access bucket of the live entry of `hash`, returning whether an event
    /// should be emitted.
    pub fn advance_access_report_bucket(
        &self,
        counters: &mut Counters,
        hash: u64,
        bucket: u64,
    ) -> (due: bool)
        requires
            self@.len() > 0,
        ensures
            due == model::report_due(self@, old(counters)@, hash, bucket),
            final(counters)@ == model::after_report(self@, old(counters)@, hash, bucket),
    {
        match self.locate(hash) {
            Some(address) => counters.advance(address.last_access_report_bucket, bucket),
            None => false,
        }
    }

    /// Locate the live entry address currently indexed for `hash`.
    pub fn locate(&self, hash: u64) -> (address: Option<EntryAddress>)
        requires
            self@.len() > 0,
        ensures
            address == model::located(self@, hash),
    {
        let s: usize = shard_of(hash, self.shards.len());
        match self.shards[s].lookup(hash) {
            Some(index) => extract_address(index),
            None => None,
        }
    }

    /// The number of live entries, or `None` if it does not fit.
    pub fn live_entries(&self) -> (count: Option<usize>)
        ensures
            match count {
                Some(count) => count == model::all_live(self@).len(),
                None => model::all_live(self@).len() > usize::MAX,
            },
    {
        let mut total: usize = 0;
        for s in 0..self.shards.len()
            invariant
                self@.len() == self.shards@.len(),
                total == model::live_in_shards(self@, s as int).len(),
        {
            proof {
                lemma_live_in_shards_prefix(self@, s + 1, self@.len() as int);
            }
            match total.checked_add(self.shards[s].live_count()) {
                Some(sum) => {
                    total = sum;
                },
                None => {
                    return None;
                },
            }
        }
        Some(total)
    }

    /// Snapshot a bounded page of live entry addresses without cloning skipped entries.
    pub fn snapshot_page(&self, offset: usize, limit: usize) -> (page: (
        usize,
        Vec<HashedEntryAddress>,
    ))
        requires
            model::all_live(self@).len() <= usize::MAX,
        ensures
            page.0 == model::all_live(self@).len(),
            page.1@ == model::window(model::all_live(self@), offset as int, limit as int),
    {
        let mut total: usize = 0;
        let mut entries: Vec<HashedEntryAddress> = Vec::new();
        for s in 0..self.shards.len()
            invariant
                model::all_live(self@).len() <= usize::MAX,
                self@.len() == self.shards@.len(),
                total == model::live_in_shards(self@, s as int).len(),
                entries@ == model::window(
                    model::live_in_shards(self@, s as int),
                    offset as int,
                    limit as int,
                ),
        {
            let ghost before = model::live_in_shards(self@, s as int);
            let ghost own = model::live(self@[s as int].entries);
            proof {
                lemma_live_in_shards_prefix(self@, s + 1, self@.len() as int);
                lemma_window_add(before, own, offset as int, limit as int);
            }
            let skip: usize = if offset > total {
                offset - total
            } else {
                0
            };
            let mut found = self.shards[s].live_window(skip, limit - entries.len());
            entries.append(&mut found);
            total = total + self.shards[s].live_count();
        }
        (total, entries)
    }

    /// Snapshot a bounded page from one shard and detect structural mutations between pages.
    ///
    /// A page that asks for a retry holds no entries: the shard was changed since the cursor was
    /// made, and the scan goes back to its beginning.
    pub fn snapshot_cursor(
        &self,
        counters: &Counters,
        cursor: Option<DiskIndexCursor>,
        limit: usize,
    ) -> (page: DiskIndexPage)
        requires
            0 < limit,
            self@.len() > 0,
            cursor matches Some(c) ==> c@.shard < self@.len(),
        ensures
            page.shard == model::cursor_position(self@, cursor).shard,
            page.revision == self@[page.shard as int].revision,
            page.retry_shard == (model::cursor_position(self@, cursor).revision != page.revision),
            page.entries@ == model::page_entries(
                self@,
                counters@,
                model::cursor_position(self@, cursor),
                limit as int,
            ),
            model::optional_position(page.next_cursor) == model::next_position(
                self@,
                model::cursor_position(self@, cursor),
                limit as int,
            ),
    {
        let cursor = match cursor {
            Some(cursor) => cursor,
            None => DiskIndexCursor { shard: 0, revision: self.shards[0].revision, offset: 0 },
        };
        let shards: usize = self.shards.len();
        let shard = &self.shards[cursor.shard];
        let ghost entries_before = self@[cursor.shard as int].entries;
        let revision: u64 = shard.revision;
        if cursor.revision != revision {
            return DiskIndexPage {
                shard: cursor.shard,
                revision,
                entries: Vec::new(),
                next_cursor: Some(DiskIndexCursor { shard: cursor.shard, revision, offset: 0 }),
                retry_shard: true,
            };
        }
        let ghost live = model::live(entries_before);
        proof {
            shard.lemma_live_fits();
        }
        // No shard has more than `usize::MAX` live entries, so with that limit none is left over.
        let found = shard.live_window(cursor.offset, limit.saturating_add(1));
        let has_more = found.len() > limit;
        let taken: usize = if has_more {
            limit
        } else {
            found.len()
        };
        let ghost shown = model::window(live, cursor.offset as int, limit as int);
        assert(shown == found@.take(taken as int));
        let mut entries: Vec<DiskIndexEntry> = Vec::new();
        for i in 0..taken
            invariant
                taken <= found@.len(),
                entries@ == found@.take(i as int).map_values(
                    |entry: HashedEntryAddress| model::raw_entry(entry, counters@),
                ),
        {
            let entry = found[i];
            entries.push(
                DiskIndexEntry {
                    hash: entry.hash,
                    address: EntryAddressSnapshot::from((entry.address, counters)),
                },
            );
            assert(found@.take(i + 1) == found@.take(i as int).push(entry));
        }
        let next_cursor = if has_more {
            Some(
                DiskIndexCursor {
                    shard: cursor.shard,
                    revision,
                    offset: cursor.offset + entries.len(),
                },
            )
        } else if cursor.shard + 1 < shards {
            let next_shard: usize = cursor.shard + 1;
            Some(
                DiskIndexCursor {
                    shard: next_shard,
                    revision: self.shards[next_shard].revision,
                    offset: 0,
                },
            )
        } else {
            None
        };
        DiskIndexPage { shard: cursor.shard, revision, entries, next_cursor, retry_shard: false }
    }

    /// Whether a cursor points at one of the shards. A cursor of another index may not.
    pub fn has_shard_of(&self, cursor: &DiskIndexCursor) -> (found: bool)
        ensures
            found == (cursor@.shard < self@.len()),
    {
        cursor.shard < self.shards.len()
    }

    /// Snapshot all live entry addresses currently indexed in `block`.
    pub fn snapshot_block(&self, block: BlockId) -> (entries: Vec<HashedEntryAddress>)
        ensures
            entries@ == model::all_live(self@).filter(
                |entry: HashedEntryAddress| entry.address.block == block,
            ),
    {
        let all = self.snapshot_all();
        let ghost in_block = |entry: HashedEntryAddress| entry.address.block == block;
        let mut entries: Vec<HashedEntryAddress> = Vec::new();
        assert(all@.take(0).filter(in_block) == entries@) by {
            reveal(Seq::filter);
        }
        for i in 0..all.len()
            invariant
                in_block == (|entry: HashedEntryAddress| entry.address.block == block),
                entries@ == all@.take(i as int).filter(in_block),
        {
            let entry = all[i];
            assert(all@.take(i + 1).filter(in_block) == if in_block(entry) {
                entries@.push(entry)
            } else {
                entries@
            }) by {
                reveal(Seq::filter);
                assert(all@.take(i + 1).drop_last() == all@.take(i as int));
            }
            if entry.address.block == block {
                entries.push(entry);
            }
        }
        assert(all@.take(all@.len() as int) == all@);
        entries
    }

    /// Snapshot all live entry addresses currently held by the indexer.
    pub fn snapshot_all(&self) -> (entries: Vec<HashedEntryAddress>)
        ensures
            entries@ == model::all_live(self@),
    {
        let mut entries: Vec<HashedEntryAddress> = Vec::new();
        for s in 0..self.shards.len()
            invariant
                self@.len() == self.shards@.len(),
                entries@ == model::live_in_shards(self@, s as int),
        {
            let mut found = self.shards[s].live_window(0, usize::MAX);
            proof {
                self.shards[s as int].lemma_live_fits();
                let live = model::live(self@[s as int].entries);
                assert(model::window(live, 0, usize::MAX as int) == live);
            }
            entries.append(&mut found);
        }
        entries
    }

    /// Drop the live entry of `hash` and return its address. A tombstone stays.
    pub fn remove(&mut self, hash: u64) -> (removed: Option<EntryAddress>)
        requires
            old(self).wf(),
            old(self)@.len() > 0,
        ensures
            final(self).wf(),
            final(self)@ == model::after_delete(old(self)@, hash),
            removed == model::located(old(self)@, hash),
    {
        let s: usize = shard_of(hash, self.shards.len());
        let removed = self.shards[s].remove(hash);
        assert(self@ == model::after_delete(old(self)@, hash));
        removed
    }

    /// Drop, for every pair of a hash and a sequence, the version of the hash unless it is newer,
    /// and return the addresses that this takes out of use.
    pub fn remove_batch(&mut self, batch: Vec<(u64, Sequence)>) -> (addresses: Vec<EntryAddress>)
        requires
            old(self).wf(),
            old(self)@.len() > 0 || batch@.len() == 0,
        ensures
            final(self).wf(),
            final(self)@ == model::after_remove(old(self)@, batch@),
            addresses@ == model::dropped_below(
                old(self)@,
                batch@,
                old(self)@.len() as int,
            ).map_values(|entry: HashedEntryAddress| entry.address),
    {
        let entries = self.remove_batch_hashed(batch);
        let mut addresses: Vec<EntryAddress> = Vec::new();
        for i in 0..entries.len()
            invariant
                addresses@ == entries@.take(i as int).map_values(
                    |entry: HashedEntryAddress| entry.address,
                ),
        {
            addresses.push(entries[i].address);
            assert(entries@.take(i + 1) == entries@.take(i as int).push(entries@[i as int]));
        }
        assert(entries@.take(entries@.len() as int) == entries@);
        addresses
    }

    /// Drop, for every pair of a hash and a sequence, the version of the hash unless it is newer,
    /// and return the entries that this takes out of use.
    pub fn remove_batch_hashed(&mut self, batch: Vec<(u64, Sequence)>) -> (olds: Vec<
        HashedEntryAddress,
    >)
        requires
            old(self).wf(),
            old(self)@.len() > 0 || batch@.len() == 0,
        ensures
            final(self).wf(),
            final(self)@ == model::after_remove(old(self)@, batch@),
            olds@ == model::dropped_below(old(self)@, batch@, old(self)@.len() as int),
    {
        broadcast use vstd::std_specs::hash::group_hash_axioms;

        let shards: usize = self.shards.len();
        let ghost before = self@;
        let ghost items = batch@;
        let mut groups = group_by_shard(batch, shards);
        let mut olds: Vec<HashedEntryAddress> = Vec::new();
        for s in 0..shards
            invariant
                shards == before.len(),
                self@.len() == shards,
                self.shards@.len() == shards,
                forall|i: int|
                    0 <= i < s ==> #[trigger] self@[i] == model::shard_after_remove(
                        before,
                        items,
                        i,
                    ),
                forall|i: int| s <= i < shards ==> #[trigger] self@[i] == before[i],
                olds@ == model::dropped_below(before, items, s as int),
                forall|i: usize|
                    s <= i < shards ==> (#[trigger] groups@.contains_key(i) <==> model::group(
                        items,
                        shards as int,
                        i as int,
                    ).len() > 0),
                forall|i: usize|
                    s <= i < shards && #[trigger] groups@.contains_key(i) ==> groups@[i]@
                        == model::group(items, shards as int, i as int),
        {
            let ghost own = model::group(items, shards as int, s as int);
            let ghost previous = self@;
            assert(self@[s as int] == before[s as int]);
            match groups.remove(&s) {
                Some(group) => {
                    self.shards[s].remove_group(&group, &mut olds);
                },
                None => {
                    assert(own.len() == 0);
                },
            }
            assert(self@ == previous.update(
                s as int,
                model::shard_after_remove(before, items, s as int),
            ));
        }
        assert(self@ == model::after_remove(before, items));
        proof {
            lemma_remove_placed(before, items);
        }
        olds
    }

    /// Drop all entries and tombstones.
    pub fn clear(&mut self)
        requires
            old(self).wf(),
        ensures
            final(self).wf(),
            final(self)@ == model::after_clear(old(self)@),
    {
        let shards: usize = self.shards.len();
        let ghost before = self@;
        for s in 0..shards
            invariant
                shards == before.len(),
                self@.len() == shards,
                self.shards@.len() == shards,
                forall|i: int|
                    0 <= i < s ==> #[trigger] self@[i] == model::shard_after_clear(before[i]),
                forall|i: int| s <= i < shards ==> #[trigger] self@[i] == before[i],
        {
            let ghost previous = self@;
            self.shards[s].clear();
            assert(self@ == previous.update(
                s as int,
                model::shard_after_clear(previous[s as int]),
            ));
        }
        assert(self@ == before.map_values(|shard: ShardView| model::shard_after_clear(shard)));
    }
}

} // verus!
