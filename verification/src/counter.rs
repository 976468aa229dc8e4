//! Counters that are shared by all who hold them.
use std::collections::HashMap;
use vstd::prelude::*;

verus! {

/// A counter. All copies of it are the same counter: its value is kept once, in [`Counters`].
#[derive(Debug, Clone, Copy, PartialEq, Eq, Structural)]
pub struct Counter {
    id: u64,
}

impl View for Counter {
    type V = u64;

    closed spec fn view(&self) -> u64 {
        self.id
    }
}

/// The values of counters.
///
/// A counter belongs to the values that it was created in.
#[derive(Debug)]
pub struct Counters {
    created: u64,
    values: HashMap<u64, u64>,
}

/// How many counters were created, and the values of those that were not released.
#[verifier::ext_equal]
pub struct CountersView {
    pub created: u64,
    pub values: Map<u64, u64>,
}

impl View for Counters {
    type V = CountersView;

    closed spec fn view(&self) -> CountersView {
        CountersView { created: self.created, values: self.values@ }
    }
}

impl CountersView {
    /// The value of a counter. One that was released is at zero.
    pub open spec fn value(self, counter: Counter) -> u64 {
        if self.values.contains_key(counter@) {
            self.values[counter@]
        } else {
            0
        }
    }

    /// The values after a counter is set.
    pub open spec fn stored(self, counter: Counter, value: u64) -> Self {
        CountersView { values: self.values.insert(counter@, value), ..self }
    }

    /// The values after a counter is advanced to a value, if that is greater.
    pub open spec fn advanced(self, counter: Counter, value: u64) -> Self {
        if value > self.value(counter) {
            self.stored(counter, value)
        } else {
            self
        }
    }

    /// The values after a counter is released.
    pub open spec fn released(self, counter: Counter) -> Self {
        CountersView { values: self.values.remove(counter@), ..self }
    }
}

impl Counters {
    /// No counters.
    pub fn new() -> (counters: Self)
        ensures
            counters@ == (CountersView { created: 0, values: Map::empty() }),
    {
        broadcast use vstd::std_specs::hash::group_hash_axioms;

        Counters { created: 0, values: HashMap::new() }
    }

    /// Create a counter.
    pub fn create(&mut self, value: u64) -> (counter: Counter)
        requires
            old(self)@.created < u64::MAX,
        ensures
            counter@ == old(self)@.created,
            final(self)@ == (CountersView {
                created: (old(self)@.created + 1) as u64,
                ..old(self)@.stored(counter, value)
            }),
    {
        broadcast use vstd::std_specs::hash::group_hash_axioms;

        let counter = Counter { id: self.created };
        self.created = self.created + 1;
        self.values.insert(counter.id, value);
        counter
    }

    /// How many counters were created.
    pub fn created(&self) -> (created: u64)
        ensures
            created == self@.created,
    {
        self.created
    }

    /// The value of a counter.
    pub fn load(&self, counter: Counter) -> (value: u64)
        ensures
            value == self@.value(counter),
    {
        broadcast use vstd::std_specs::hash::group_hash_axioms;

        match self.values.get(&counter.id) {
            Some(value) => *value,
            None => 0,
        }
    }

    /// Set a counter.
    pub fn store(&mut self, counter: Counter, value: u64)
        ensures
            final(self)@ == old(self)@.stored(counter, value),
    {
        broadcast use vstd::std_specs::hash::group_hash_axioms;

        self.values.insert(counter.id, value);
    }

    /// Set a counter to a value if that is greater, and return whether it is.
    pub fn advance(&mut self, counter: Counter, value: u64) -> (advanced: bool)
        ensures
            advanced == (value > old(self)@.value(counter)),
            final(self)@ == old(self)@.advanced(counter, value),
    {
        if value > self.load(counter) {
            self.store(counter, value);
            true
        } else {
            false
        }
    }

    /// Give back the memory of a counter that nobody needs any more. It is at zero then.
    pub fn release(&mut self, counter: Counter)
        ensures
            final(self)@ == old(self)@.released(counter),
    {
        broadcast use vstd::std_specs::hash::group_hash_axioms;

        self.values.remove(&counter.id);
    }
}

/// A counter reads as it was last set, whichever copy of it is read, and setting or releasing it
/// leaves the others as they were.
pub proof fn law_copies_share_a_value(
    counters: CountersView,
    counter: Counter,
    copy: Counter,
    other: Counter,
    value: u64,
)
    requires
        copy@ == counter@,
        other@ != counter@,
    ensures
        counters.stored(counter, value).value(copy) == value,
        counters.stored(counter, value).value(other) == counters.value(other),
        counters.released(counter).value(other) == counters.value(other),
{
}

/// A counter is at the value that is kept for it, or at zero if none is kept. Setting it keeps the
/// value, advancing it keeps the greater of two values, and releasing it keeps none. No other value
/// is touched by that, and no counter is created.
pub proof fn law_values_are_kept(counters: CountersView, counter: Counter, value: u64)
    ensures
        counters.values.contains_key(counter@) ==> counters.value(counter)
            == counters.values[counter@],
        !counters.values.contains_key(counter@) ==> counters.value(counter) == 0,
        counters.stored(counter, value).values == counters.values.insert(counter@, value),
        counters.stored(counter, value).created == counters.created,
        counters.advanced(counter, value).value(counter) == (if value > counters.value(counter) {
            value
        } else {
            counters.value(counter)
        }),
        value <= counters.value(counter) ==> counters.advanced(counter, value) == counters,
        value > counters.value(counter) ==> counters.advanced(counter, value).values
            == counters.values.insert(counter@, value),
        counters.advanced(counter, value).created == counters.created,
        counters.released(counter).values == counters.values.remove(counter@),
        counters.released(counter).created == counters.created,
        counters.released(counter).value(counter) == 0,
{
}

} // verus!
