//! Time management. The kernel keeps a registry of clock sources; a clock
//! source is an object able to provide the current timestamp.

use vstd::prelude::*;

verus! {

/// Type representing a timestamp.
pub type Timestamp = u64;

/// The scale of a timestamp.
#[derive(Copy, Clone, Debug, Eq, PartialEq, Structural)]
pub enum TimestampScale {
    /// Whole seconds.
    Second,
    /// Milliseconds.
    Millisecond,
    /// Microseconds.
    Microsecond,
    /// Nanoseconds.
    Nanosecond,
}

/// A timestamp in nanoseconds, converted to the given scale.
pub open spec fn spec_from_nano(ts: Timestamp, scale: TimestampScale) -> Timestamp {
    match scale {
        TimestampScale::Second => (ts / 1_000_000_000) as Timestamp,
        TimestampScale::Millisecond => (ts / 1_000_000) as Timestamp,
        TimestampScale::Microsecond => (ts / 1_000) as Timestamp,
        TimestampScale::Nanosecond => ts,
    }
}

/// Converts a timestamp in nanoseconds to the given scale.
pub fn from_nano(ts: Timestamp, scale: TimestampScale) -> (r: Timestamp)
    ensures
        r == spec_from_nano(ts, scale),
{
    match scale {
        TimestampScale::Second => ts / 1_000_000_000,
        TimestampScale::Millisecond => ts / 1_000_000,
        TimestampScale::Microsecond => ts / 1_000,
        TimestampScale::Nanosecond => ts,
    }
}

/// Trait representing a source able to provide the current timestamp,
/// implemented by the drivers of hardware clocks. The values it returns
/// come from hardware, so nothing is promised of them.
pub trait ClockSource: Sized {
    /// Returns the name of the source.
    fn get_name(&self) -> &Vec<u8>;

    /// Returns the current timestamp at the given scale.
    fn get_time(&mut self, scale: TimestampScale) -> Timestamp;
}

/// Index of the first name of `names` equal to `name`, searching from
/// position `i` on.
pub open spec fn first_name_at(names: Seq<Seq<u8>>, name: Seq<u8>, i: int) -> Option<int>
    decreases names.len() - i,
{
    if i < 0 || i >= names.len() {
        Option::None
    } else if names[i] == name {
        Option::Some(i)
    } else {
        first_name_at(names, name, i + 1)
    }
}

/// The registry of the clock sources available to the kernel. Each source
/// is registered under the name its driver reports.
pub struct ClockSources<T: ClockSource> {
    /// The sources' names, in registration order.
    names: Vec<Vec<u8>>,
    /// The registered sources, in the same order.
    sources: Vec<T>,
}

impl<T: ClockSource> ClockSources<T> {
    /// The registered names, as seen by contracts.
    pub closed spec fn spec_names(self) -> Seq<Seq<u8>> {
        self.names@.map_values(|n: Vec<u8>| n@)
    }

    /// The registered sources, as seen by contracts.
    pub closed spec fn spec_sources(self) -> Seq<T> {
        self.sources@
    }

    /// One name per source.
    pub closed spec fn wf(self) -> bool {
        self.names@.len() == self.sources@.len()
    }

    /// Creates an empty registry.
    pub fn new() -> (r: ClockSources<T>)
        ensures
            r.wf(),
            r.spec_names() == Seq::<Seq<u8>>::empty(),
            r.spec_sources() == Seq::<T>::empty(),
    {
        let r = ClockSources { names: Vec::new(), sources: Vec::new() };
        proof {
            assert(r.spec_names() =~= Seq::<Seq<u8>>::empty());
            assert(r.spec_sources() =~= Seq::<T>::empty());
        }
        r
    }

    /// Returns the list of clock sources.
    pub fn get_clock_sources(&self) -> (r: &Vec<T>)
        ensures
            r@ == self.spec_sources(),
    {
        &self.sources
    }

    /// Adds the new clock source to the registry, under the given name.
    pub fn add_clock_source(&mut self, name: Vec<u8>, source: T)
        requires
            old(self).wf(),
            old(self).spec_sources().len() < usize::MAX,
        ensures
            final(self).wf(),
            final(self).spec_names() == old(self).spec_names().push(name@),
            final(self).spec_sources() == old(self).spec_sources().push(source),
    {
        let ghost nv = name@;
        self.names.push(name);
        self.sources.push(source);
        proof {
            assert(self.spec_names() =~= old(self).spec_names().push(nv));
        }
    }

    /// Removes the first clock source registered under the given name. If
    /// no source has the name, the function does nothing.
    pub fn remove_clock_source(&mut self, name: &Vec<u8>)
        requires
            old(self).wf(),
        ensures
            final(self).wf(),
            match first_name_at(old(self).spec_names(), name@, 0) {
                Option::None => final(self).spec_names() == old(self).spec_names()
                    && final(self).spec_sources() == old(self).spec_sources(),
                Option::Some(i) => final(self).spec_names() == old(self).spec_names().remove(i)
                    && final(self).spec_sources() == old(self).spec_sources().remove(i),
            },
    {
        let n = self.names.len();
        let mut i: usize = 0;
        while i < n
            invariant
                n == self.names@.len(),
                i <= n,
                *self == *old(self),
                self.wf(),
                first_name_at(self.spec_names(), name@, 0) == first_name_at(
                    self.spec_names(),
                    name@,
                    i as int,
                ),
                forall|j: int| 0 <= j < i as int ==> self.spec_names()[j] != name@,
            decreases n - i,
        {
            if names_eq(&self.names[i], name) {
                self.names.remove(i);
                self.sources.remove(i);
                proof {
                    assert(self.spec_names() =~= old(self).spec_names().remove(i as int));
                }
                return ;
            }
            i = i + 1;
        }
    }

    /// Returns the current timestamp from the preferred clock source at
    /// the given scale, or `None` when no source is registered. Reading
    /// the clock may update the source's own state; the rest of the
    /// registry is untouched.
    pub fn get(&mut self, scale: TimestampScale) -> (r: Option<Timestamp>)
        requires
            old(self).wf(),
        ensures
            final(self).wf(),
            r is Some <==> old(self).spec_sources().len() > 0,
            final(self).spec_names() == old(self).spec_names(),
            final(self).spec_sources().len() == old(self).spec_sources().len(),
            forall|j: int|
                1 <= j < old(self).spec_sources().len() ==> final(self).spec_sources()[j]
                    == old(self).spec_sources()[j],
    {
        if self.sources.len() == 0 {
            return Option::None;
        }
        let mut src = self.sources.remove(0);
        let ts = src.get_time(scale);
        self.sources.insert(0, src);
        proof {
            assert forall|j: int| 1 <= j < old(self).spec_sources().len()
                implies final(self).spec_sources()[j] == old(self).spec_sources()[j] by {
                assert(old(self).sources@.remove(0)[j - 1] == old(self).sources@[j]);
            }
        }
        Option::Some(ts)
    }

    /// Returns the current timestamp at the given scale, read in
    /// nanoseconds from the preferred source and converted. Returns `None`
    /// when no source is registered.
    pub fn get_struct(&mut self, scale: TimestampScale) -> (r: Option<Timestamp>)
        requires
            old(self).wf(),
        ensures
            final(self).wf(),
            r is Some <==> old(self).spec_sources().len() > 0,
            final(self).spec_sources().len() == old(self).spec_sources().len(),
    {
        match self.get(TimestampScale::Nanosecond) {
            Option::Some(ts) => Option::Some(from_nano(ts, scale)),
            Option::None => Option::None,
        }
    }
}

/// Compares two names byte for byte.
fn names_eq(a: &Vec<u8>, b: &Vec<u8>) -> (r: bool)
    ensures
        r == (a@ == b@),
{
    let n = a.len();
    if n != b.len() {
        proof {
            assert(a@.len() != b@.len());
        }
        return false;
    }
    let mut i: usize = 0;
    while i < n
        invariant
            n == a@.len(),
            a@.len() == b@.len(),
            i <= n,
            forall|j: int| 0 <= j < i as int ==> a@[j] == b@[j],
        decreases n - i,
    {
        if a[i] != b[i] {
            return false;
        }
        i = i + 1;
    }
    proof {
        assert(a@ =~= b@);
    }
    true
}

} // verus!
