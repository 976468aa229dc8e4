//! The records of the memory tier.
use crate::clock;
use std::time::SystemTime;
use vstd::prelude::*;

verus! {

/// The places that hold a record.
#[derive(Debug, Clone, Copy, PartialEq, Eq, Structural, PartialOrd, Ord, Hash)]
pub struct Flags {
    bits: u64,
}

impl View for Flags {
    type V = u64;

    closed spec fn view(&self) -> u64 {
        self.bits
    }
}

impl Flags {
    /// No flags.
    pub fn empty() -> (flags: Self)
        ensures
            flags@ == 0,
    {
        Flags { bits: 0 }
    }

    /// The flags with the given bits, whatever they mean.
    pub fn from_bits_retain(bits: u64) -> (flags: Self)
        ensures
            flags@ == bits,
    {
        Flags { bits }
    }

    /// The record is in the indexer.
    pub fn in_indexer() -> (flags: Self)
        ensures
            flags@ == 0b01,
    {
        Flags { bits: 0b01 }
    }

    /// The record is in the eviction container.
    pub fn in_eviction() -> (flags: Self)
        ensures
            flags@ == 0b10,
    {
        Flags { bits: 0b10 }
    }

    /// The flags that are in `self` or in `other`.
    pub fn union(self, other: Self) -> (flags: Self)
        ensures
            flags@ == self@ | other@,
    {
        Flags { bits: self.bits | other.bits }
    }

    /// The bits of the flags.
    pub fn bits(&self) -> (bits: u64)
        ensures
            bits == self@,
    {
        self.bits
    }
}

/// An eviction algorithm: the entries it works on, and the state that it keeps for each of them.
pub trait Eviction {
    type Key;

    type Value;

    type Properties;

    type State: Default;
}

/// The cached entry of a record.
pub struct Data<E> where E: Eviction {
    pub key: E::Key,
    pub value: E::Value,
    pub properties: E::Properties,
    pub hash: u64,
    pub weight: usize,
}

/// [`Record`] holds the information of the cached entry.
pub struct Record<E> where E: Eviction {
    data: Data<E>,
    state: E::State,
    residency_sequence: u64,
    inserted_at_unix_micros: u64,
    last_accessed_at_unix_micros: u64,
    last_access_report_bucket: u64,
    /// Reference count used in the in-memory cache.
    refs: usize,
    flags: u64,
}

/// What a [`Record`] holds.
pub struct RecordView<E> where E: Eviction {
    pub data: Data<E>,
    pub state: E::State,
    pub residency_sequence: u64,
    pub inserted_at_unix_micros: u64,
    pub last_accessed_at_unix_micros: u64,
    pub last_access_report_bucket: u64,
    pub refs: usize,
    pub flags: u64,
}

impl<E> View for Record<E> where E: Eviction {
    type V = RecordView<E>;

    closed spec fn view(&self) -> RecordView<E> {
        RecordView {
            data: self.data,
            state: self.state,
            residency_sequence: self.residency_sequence,
            inserted_at_unix_micros: self.inserted_at_unix_micros,
            last_accessed_at_unix_micros: self.last_accessed_at_unix_micros,
            last_access_report_bucket: self.last_access_report_bucket,
            refs: self.refs,
            flags: self.flags,
        }
    }
}

/// The flags after those in `bits` are set or cleared.
pub open spec fn flags_after(flags: u64, bits: u64, val: bool) -> u64 {
    if val {
        flags | bits
    } else {
        flags & !bits
    }
}

/// Whether all of the flags in `bits` are set.
pub open spec fn has_flags(flags: u64, bits: u64) -> bool {
    flags & bits == bits
}

/// The last reported bucket after an access in `bucket`: only a later bucket is reported.
pub open spec fn bucket_after(current: u64, bucket: u64) -> u64 {
    if bucket > current {
        bucket
    } else {
        current
    }
}

/// The buckets that are reported of a number of accesses, where `current` was the last one before.
pub open spec fn reported(current: u64, buckets: Seq<u64>) -> Seq<u64>
    decreases buckets.len(),
{
    if buckets.len() == 0 {
        Seq::empty()
    } else {
        let rest = reported(bucket_after(current, buckets[0]), buckets.drop_first());
        if buckets[0] > current {
            seq![buckets[0]] + rest
        } else {
            rest
        }
    }
}

impl<E> RecordView<E> where E: Eviction {
    /// The record with so many more references.
    pub open spec fn referenced(self, val: usize) -> Self {
        RecordView { refs: (self.refs + val) as usize, ..self }
    }

    /// The record with so many references less.
    pub open spec fn released(self, val: usize) -> Self {
        RecordView { refs: (self.refs - val) as usize, ..self }
    }

    /// A record that was made at `now`, is referenced by nobody and is held nowhere.
    pub open spec fn fresh(
        self,
        data: Data<E>,
        residency_sequence: u64,
        now: u64,
    ) -> bool {
        &&& self.data == data
        &&& call_ensures(<E::State as Default>::default, (), self.state)
        &&& self.residency_sequence == residency_sequence
        &&& self.inserted_at_unix_micros == now
        &&& self.last_accessed_at_unix_micros == now
        &&& self.last_access_report_bucket == 0
        &&& self.refs == 0
        &&& self.flags == 0
    }
}

impl<E> Record<E> where E: Eviction {
    /// Create a record with data and no assigned cache residency sequence.
    pub fn new(data: Data<E>) -> (record: Self)
        ensures
            exists|time: SystemTime|
                record@.fresh(data, 0, #[trigger] clock::reading_timestamp(time)),
    {
        Self::new_with_residency_sequence(data, 0)
    }

    /// Create a record with data and a process-local cache residency sequence.
    pub fn new_with_residency_sequence(data: Data<E>, residency_sequence: u64) -> (record: Self)
        ensures
            exists|time: SystemTime|
                record@.fresh(
                    data,
                    residency_sequence,
                    #[trigger] clock::reading_timestamp(time),
                ),
    {
        let now: u64 = clock::unix_micros();
        Self::new_at(data, residency_sequence, now)
    }

    /// Create a record with data and a process-local cache residency sequence at a given time.
    pub fn new_at(data: Data<E>, residency_sequence: u64, now: u64) -> (record: Self)
        ensures
            record@.fresh(data, residency_sequence, now),
    {
        Record {
            data,
            state: Default::default(),
            residency_sequence,
            inserted_at_unix_micros: now,
            last_accessed_at_unix_micros: now,
            last_access_report_bucket: 0,
            refs: 0,
            flags: 0,
        }
    }

    /// Get the immutable reference of the record key.
    pub fn key(&self) -> (key: &E::Key)
        ensures
            *key == self@.data.key,
    {
        &self.data.key
    }

    /// Get the immutable reference of the record value.
    pub fn value(&self) -> (value: &E::Value)
        ensures
            *value == self@.data.value,
    {
        &self.data.value
    }

    /// Get the immutable reference of the record properties.
    pub fn properties(&self) -> (properties: &E::Properties)
        ensures
            *properties == self@.data.properties,
    {
        &self.data.properties
    }

    /// Get the record hash.
    pub fn hash(&self) -> (hash: u64)
        ensures
            hash == self@.data.hash,
    {
        self.data.hash
    }

    /// Get the record weight.
    pub fn weight(&self) -> (weight: usize)
        ensures
            weight == self@.data.weight,
    {
        self.data.weight
    }

    /// Get the process-local sequence for this memory residency.
    pub fn residency_sequence(&self) -> (sequence: u64)
        ensures
            sequence == self@.residency_sequence,
    {
        self.residency_sequence
    }

    /// Get the wall-clock time when the record was created.
    pub fn inserted_at_unix_micros(&self) -> (timestamp: u64)
        ensures
            timestamp == self@.inserted_at_unix_micros,
    {
        self.inserted_at_unix_micros
    }

    /// Get the wall-clock time when the record was last accessed.
    pub fn last_accessed_at_unix_micros(&self) -> (timestamp: u64)
        ensures
            timestamp == self@.last_accessed_at_unix_micros,
    {
        self.last_accessed_at_unix_micros
    }

    /// Update the wall-clock time when the record was last accessed.
    pub fn touch_access_time(&mut self) -> (now: u64)
        ensures
            exists|time: SystemTime| now == #[trigger] clock::reading_timestamp(time),
            final(self)@ == (RecordView { last_accessed_at_unix_micros: now, ..old(self)@ }),
    {
        let now: u64 = clock::unix_micros();
        self.touch_access_time_at(now);
        now
    }

    /// Set the wall-clock time when the record was last accessed.
    pub fn touch_access_time_at(&mut self, now: u64)
        ensures
            final(self)@ == (RecordView { last_accessed_at_unix_micros: now, ..old(self)@ }),
    {
        self.last_accessed_at_unix_micros = now;
    }

    /// Advance the reported access bucket, returning whether an event should be emitted.
    pub fn advance_access_report_bucket(&mut self, bucket: u64) -> (advanced: bool)
        ensures
            advanced == (bucket > old(self)@.last_access_report_bucket),
            final(self)@ == (RecordView {
                last_access_report_bucket: bucket_after(
                    old(self)@.last_access_report_bucket,
                    bucket,
                ),
                ..old(self)@
            }),
    {
        if bucket > self.last_access_report_bucket {
            self.last_access_report_bucket = bucket;
            true
        } else {
            false
        }
    }

    /// Get the state that the eviction algorithm keeps for the record.
    pub fn state(&self) -> (state: &E::State)
        ensures
            *state == self@.state,
    {
        &self.state
    }

    /// Get the state that the eviction algorithm keeps for the record, to change it.
    pub fn state_mut(&mut self) -> (state: &mut E::State)
        ensures
            *state == old(self)@.state,
            final(self)@ == (RecordView { state: *final(state), ..old(self)@ }),
    {
        &mut self.state
    }

    /// Set in eviction flag.
    pub fn set_in_eviction(&mut self, val: bool)
        ensures
            final(self)@ == (RecordView {
                flags: flags_after(old(self)@.flags, 0b10, val),
                ..old(self)@
            }),
    {
        self.set_flags(Flags::in_eviction(), val);
    }

    /// Get in eviction flag.
    pub fn is_in_eviction(&self) -> (val: bool)
        ensures
            val == has_flags(self@.flags, 0b10),
    {
        self.get_flags(Flags::in_eviction())
    }

    /// Set in indexer flag.
    pub fn set_in_indexer(&mut self, val: bool)
        ensures
            final(self)@ == (RecordView {
                flags: flags_after(old(self)@.flags, 0b01, val),
                ..old(self)@
            }),
    {
        self.set_flags(Flags::in_indexer(), val);
    }

    /// Get in indexer flag.
    pub fn is_in_indexer(&self) -> (val: bool)
        ensures
            val == has_flags(self@.flags, 0b01),
    {
        self.get_flags(Flags::in_indexer())
    }

    /// Set or clear all of the given flags.
    pub fn set_flags(&mut self, flags: Flags, val: bool)
        ensures
            final(self)@ == (RecordView {
                flags: flags_after(old(self)@.flags, flags@, val),
                ..old(self)@
            }),
    {
        if val {
            self.flags = self.flags | flags.bits();
        } else {
            self.flags = self.flags & !flags.bits();
        }
    }

    /// Whether all of the given flags are set.
    pub fn get_flags(&self, flags: Flags) -> (val: bool)
        ensures
            val == has_flags(self@.flags, flags@),
    {
        self.flags & flags.bits() == flags.bits()
    }

    /// Get the reference count.
    pub fn refs(&self) -> (refs: usize)
        ensures
            refs == self@.refs,
    {
        self.refs
    }

    /// Increase the reference count.
    ///
    /// This function returns the new reference count after the op.
    pub fn inc_refs(&mut self, val: usize) -> (refs: usize)
        requires
            old(self)@.refs + val <= usize::MAX,
        ensures
            refs == old(self)@.refs + val,
            final(self)@ == old(self)@.referenced(val),
    {
        self.refs = self.refs + val;
        self.refs
    }

    /// Decrease the reference count.
    ///
    /// This function returns the new reference count after the op.
    pub fn dec_refs(&mut self, val: usize) -> (refs: usize)
        requires
            val <= old(self)@.refs,
        ensures
            refs == old(self)@.refs - val,
            final(self)@ == old(self)@.released(val),
    {
        self.refs = self.refs - val;
        self.refs
    }
}

/// A flag reads as it was last set, and setting flags leaves the others as they were.
pub proof fn law_flags_read_as_set(flags: u64, bits: u64, other: u64, val: bool)
    requires
        bits != 0,
        bits & other == 0,
    ensures
        has_flags(flags_after(flags, bits, val), bits) == val,
        has_flags(flags_after(flags, bits, val), other) == has_flags(flags, other),
{
    assert((flags | bits) & bits == bits) by (bit_vector);
    assert((flags & !bits) & bits == 0) by (bit_vector);
    assert((flags | bits) & other == flags & other) by (bit_vector)
        requires
            bits & other == 0,
    ;
    assert((flags & !bits) & other == flags & other) by (bit_vector)
        requires
            bits & other == 0,
    ;
}

/// Whether a record is in the indexer and whether it is in the eviction container are kept apart.
pub proof fn law_places_are_independent(flags: u64, val: bool)
    ensures
        has_flags(flags_after(flags, 0b01, val), 0b01) == val,
        has_flags(flags_after(flags, 0b01, val), 0b10) == has_flags(flags, 0b10),
        has_flags(flags_after(flags, 0b10, val), 0b10) == val,
        has_flags(flags_after(flags, 0b10, val), 0b01) == has_flags(flags, 0b01),
{
    assert(0b01u64 & 0b10u64 == 0) by (bit_vector);
    assert(0b10u64 & 0b01u64 == 0) by (bit_vector);
    law_flags_read_as_set(flags, 0b01, 0b10, val);
    law_flags_read_as_set(flags, 0b10, 0b01, val);
}

/// Giving up as many references as were taken leaves a record as it was.
pub proof fn law_releasing_undoes_referencing<E>(record: RecordView<E>, val: usize) where
    E: Eviction,

    requires
        record.refs + val <= usize::MAX,
    ensures
        record.referenced(val).released(val) == record,
{
}

/// Accesses are reported in ascending buckets, at most once for each bucket, and every access in a
/// bucket later than those before it is reported.
pub proof fn law_each_bucket_is_reported_once(current: u64, buckets: Seq<u64>)
    ensures
        ({
            let reports = reported(current, buckets);
            &&& forall|i: int, j: int|
                0 <= i < j < reports.len() ==> #[trigger] reports[i] < #[trigger] reports[j]
            &&& forall|i: int|
                0 <= i < reports.len() ==> current < #[trigger] reports[i] && buckets.contains(
                    reports[i],
                )
            &&& forall|i: int|
                0 <= i < buckets.len() && is_latest(current, buckets, i) ==> reports.contains(
                    #[trigger] buckets[i],
                )
        }),
    decreases buckets.len(),
{
    if buckets.len() > 0 {
        let first = buckets[0];
        let next = bucket_after(current, first);
        let rest = buckets.drop_first();
        law_each_bucket_is_reported_once(next, rest);
        let later = reported(next, rest);
        let reports = reported(current, buckets);
        assert forall|i: int| 0 <= i < later.len() implies buckets.contains(
            #[trigger] later[i],
        ) by {
            let k = rest.index_of(later[i]);
            assert(buckets[k + 1] == later[i]);
        }
        assert(buckets[0] == first);
        if first > current {
            assert forall|i: int| 0 <= i < reports.len() implies current < #[trigger] reports[i]
                && buckets.contains(reports[i]) by {
                if i > 0 {
                    assert(reports[i] == later[i - 1]);
                }
            }
        }
        assert forall|i: int|
            0 <= i < buckets.len() && is_latest(current, buckets, i) implies reports.contains(
            #[trigger] buckets[i],
        ) by {
            if i == 0 {
                assert(reports[0] == first);
            } else {
                assert(rest[i - 1] == buckets[i]);
                assert(is_latest(next, rest, i - 1)) by {
                    assert forall|j: int| 0 <= j < i - 1 implies #[trigger] rest[j] < rest[i
                        - 1] by {
                        assert(rest[j] == buckets[j + 1]);
                    }
                }
                let k = later.index_of(rest[i - 1]);
                assert(later.contains(rest[i - 1]));
                assert(reports[if first > current { k + 1 } else { k }] == buckets[i]);
            }
        }
    }
}

/// Whether bucket `i` is later than `current` and all buckets before it.
pub open spec fn is_latest(current: u64, buckets: Seq<u64>, i: int) -> bool {
    &&& buckets[i] > current
    &&& forall|j: int| 0 <= j < i ==> #[trigger] buckets[j] < buckets[i]
}

/// Setting flags sets their bits, clearing flags clears them, and flags are set if all of their
/// bits are.
pub proof fn law_flags_are_bits(flags: u64, bits: u64)
    ensures
        flags_after(flags, bits, true) == flags | bits,
        flags_after(flags, bits, false) == flags & !bits,
        has_flags(flags, bits) <==> flags & bits == bits,
{
}

/// A new record holds what it is given and was inserted and last accessed at the same time. No
/// access to it was reported, nobody refers to it, and it is in no place.
pub proof fn law_new_record_is_unused<E>(
    record: RecordView<E>,
    data: Data<E>,
    residency_sequence: u64,
    now: u64,
) where E: Eviction,

    requires
        record.fresh(data, residency_sequence, now),
    ensures
        record.data == data,
        call_ensures(<E::State as Default>::default, (), record.state),
        record.residency_sequence == residency_sequence,
        record.inserted_at_unix_micros == now,
        record.last_accessed_at_unix_micros == now,
        record.last_access_report_bucket == 0,
        record.refs == 0,
        record.flags == 0,
{
}

/// References are counted, and nothing else changes with them.
pub proof fn law_references_are_counted<E>(record: RecordView<E>, val: usize) where
    E: Eviction,

    requires
        record.refs + val <= usize::MAX,
    ensures
        record.referenced(val).refs == record.refs + val,
        record.referenced(val) == (RecordView { refs: record.referenced(val).refs, ..record }),
        val <= record.refs ==> record.released(val).refs == record.refs - val,
        record.released(val) == (RecordView { refs: record.released(val).refs, ..record }),
{
}

/// The bucket that was reported last is the latest one.
pub proof fn law_bucket_is_the_latest(current: u64, bucket: u64)
    ensures
        bucket_after(current, bucket) >= current,
        bucket_after(current, bucket) >= bucket,
        bucket_after(current, bucket) == current || bucket_after(current, bucket) == bucket,
{
}

} // verus!
