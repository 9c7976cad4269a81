//! Tests of the clock-source registry and the timestamp conversions.

use maestro::time::{from_nano, ClockSource, ClockSources, TimestampScale};

struct FixedClock {
    name: Vec<u8>,
    now: u64,
}

impl ClockSource for FixedClock {
    fn get_name(&self) -> &Vec<u8> {
        &self.name
    }

    fn get_time(&mut self, _scale: TimestampScale) -> u64 {
        self.now
    }
}

/// Registers the source under the name its driver reports.
fn register(clocks: &mut ClockSources<FixedClock>, source: FixedClock) {
    let name = source.get_name().clone();
    clocks.add_clock_source(name, source);
}

#[test]
fn from_nano_values() {
    assert_eq!(from_nano(1_500_000_000, TimestampScale::Second), 1);
    assert_eq!(from_nano(1_500_000_000, TimestampScale::Millisecond), 1500);
    assert_eq!(from_nano(1_500_000_000, TimestampScale::Microsecond), 1_500_000);
    assert_eq!(from_nano(1_500_000_000, TimestampScale::Nanosecond), 1_500_000_000);
}

#[test]
fn clock_registry_prefers_the_first_source() {
    let mut clocks: ClockSources<FixedClock> = ClockSources::new();
    assert_eq!(clocks.get(TimestampScale::Second), None);
    register(&mut clocks, FixedClock { name: b"rtc".to_vec(), now: 2_000_000_000 });
    register(&mut clocks, FixedClock { name: b"pit".to_vec(), now: 7 });
    assert_eq!(clocks.get_clock_sources().len(), 2);
    assert_eq!(clocks.get(TimestampScale::Nanosecond), Some(2_000_000_000));
    assert_eq!(clocks.get_struct(TimestampScale::Second), Some(2));
    // Removing an unknown name does nothing; removing the first source
    // promotes the next one.
    clocks.remove_clock_source(&b"hpet".to_vec());
    assert_eq!(clocks.get_clock_sources().len(), 2);
    clocks.remove_clock_source(&b"rtc".to_vec());
    assert_eq!(clocks.get_clock_sources().len(), 1);
    assert_eq!(clocks.get(TimestampScale::Nanosecond), Some(7));
}
