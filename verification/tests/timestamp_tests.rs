use legion_prof_viewer::timestamp::{
    Interval, Timestamp, TimestampDisplay, TimestampParseError, TimestampUnits,
};

fn units_of_timestamp(ns: i64) -> TimestampUnits {
    TimestampUnits::from_timestamp(Timestamp(ns))
}

fn units_of_interval(start: i64, stop: i64) -> TimestampUnits {
    TimestampUnits::from_interval(Interval::new(Timestamp(start), Timestamp(stop)))
}

#[test]
fn test_s() {
    assert_eq!(Timestamp::parse("123.4 s"), Ok(Timestamp(123_400_000_000)));
    assert_eq!(
        units_of_timestamp(123_456_789_012),
        TimestampUnits { divisor: 1_000_000_000, unit_name: "s", digits_after_separator: 3 }
    );
    assert_eq!(
        units_of_interval(0, 123_456_789_012),
        TimestampUnits { divisor: 1_000_000_000, unit_name: "s", digits_after_separator: 3 }
    );
    assert_eq!(&Timestamp(123_456_789_012).display(), "123.456 s");
    let i0 = Interval::new(Timestamp(0), Timestamp(123_456_789_012));
    assert_eq!(&i0.display(), "from 0.000 to 123.456 s (duration: 123.456 s)");
}

#[test]
fn timestamp_test_s() {
    assert_eq!(Timestamp::parse("123.4 s"), Ok(Timestamp(123_400_000_000)));
    assert_eq!(
        units_of_timestamp(123_456_789_012),
        TimestampUnits { divisor: 1_000_000_000, unit_name: "s", digits_after_separator: 3 }
    );
    assert_eq!(
        units_of_interval(0, 123_456_789_012),
        TimestampUnits { divisor: 1_000_000_000, unit_name: "s", digits_after_separator: 3 }
    );
    assert_eq!(&Timestamp(123_456_789_012).display(), "123.456 s");
    let i0 = Interval::new(Timestamp(0), Timestamp(123_456_789_012));
    assert_eq!(&i0.display(), "from 0.000 to 123.456 s (duration: 123.456 s)");
}

#[test]
fn test_ms() {
    assert_eq!(Timestamp::parse("234.5 ms"), Ok(Timestamp(234_500_000)));
    assert_eq!(
        units_of_timestamp(123_456_789),
        TimestampUnits { divisor: 1_000_000, unit_name: "ms", digits_after_separator: 3 }
    );
    assert_eq!(
        units_of_interval(0, 123_456_789),
        TimestampUnits { divisor: 1_000_000, unit_name: "ms", digits_after_separator: 3 }
    );
    assert_eq!(&Timestamp(123_456_789).display(), "123.456 ms");
    let i0 = Interval::new(Timestamp(0), Timestamp(123_456_789));
    assert_eq!(&i0.display(), "from 0.000 to 123.456 ms (duration: 123.456 ms)");
}

#[test]
fn timestamp_test_ms() {
    assert_eq!(Timestamp::parse("234.5 ms"), Ok(Timestamp(234_500_000)));
    assert_eq!(
        units_of_timestamp(123_456_789),
        TimestampUnits { divisor: 1_000_000, unit_name: "ms", digits_after_separator: 3 }
    );
    assert_eq!(
        units_of_interval(0, 123_456_789),
        TimestampUnits { divisor: 1_000_000, unit_name: "ms", digits_after_separator: 3 }
    );
    assert_eq!(&Timestamp(123_456_789).display(), "123.456 ms");
    let i0 = Interval::new(Timestamp(0), Timestamp(123_456_789));
    assert_eq!(&i0.display(), "from 0.000 to 123.456 ms (duration: 123.456 ms)");
}

#[test]
fn test_us() {
    assert_eq!(Timestamp::parse("345.6 us"), Ok(Timestamp(345_600)));
    assert_eq!(
        units_of_timestamp(123_456),
        TimestampUnits { divisor: 1_000, unit_name: "us", digits_after_separator: 3 }
    );
    assert_eq!(
        units_of_interval(0, 123_456),
        TimestampUnits { divisor: 1_000, unit_name: "us", digits_after_separator: 3 }
    );
    assert_eq!(&Timestamp(123_456).display(), "123.456 us");
    let i0 = Interval::new(Timestamp(0), Timestamp(123_456));
    assert_eq!(&i0.display(), "from 0.000 to 123.456 us (duration: 123.456 us)");
}

#[test]
fn timestamp_test_us() {
    assert_eq!(Timestamp::parse("345.6 us"), Ok(Timestamp(345_600)));
    assert_eq!(
        units_of_timestamp(123_456),
        TimestampUnits { divisor: 1_000, unit_name: "us", digits_after_separator: 3 }
    );
    assert_eq!(
        units_of_interval(0, 123_456),
        TimestampUnits { divisor: 1_000, unit_name: "us", digits_after_separator: 3 }
    );
    assert_eq!(&Timestamp(123_456).display(), "123.456 us");
    let i0 = Interval::new(Timestamp(0), Timestamp(123_456));
    assert_eq!(&i0.display(), "from 0.000 to 123.456 us (duration: 123.456 us)");
}

#[test]
fn test_ns() {
    assert_eq!(Timestamp::parse("567.0 ns"), Ok(Timestamp(567)));
    assert_eq!(
        units_of_timestamp(123),
        TimestampUnits { divisor: 1, unit_name: "ns", digits_after_separator: 0 }
    );
    assert_eq!(
        units_of_interval(123, 456),
        TimestampUnits { divisor: 1, unit_name: "ns", digits_after_separator: 0 }
    );
    assert_eq!(&Timestamp(123).display(), "123 ns");
    let i0 = Interval::new(Timestamp(0), Timestamp(123));
    assert_eq!(&i0.display(), "from 0 to 123 ns (duration: 123 ns)");
}

#[test]
fn timestamp_test_ns() {
    assert_eq!(Timestamp::parse("567.0 ns"), Ok(Timestamp(567)));
    assert_eq!(
        units_of_timestamp(123),
        TimestampUnits { divisor: 1, unit_name: "ns", digits_after_separator: 0 }
    );
    assert_eq!(
        units_of_interval(123, 456),
        TimestampUnits { divisor: 1, unit_name: "ns", digits_after_separator: 0 }
    );
    assert_eq!(&Timestamp(123).display(), "123 ns");
    let i0 = Interval::new(Timestamp(0), Timestamp(123));
    assert_eq!(&i0.display(), "from 0 to 123 ns (duration: 123 ns)");
}

#[test]
fn test_s_upper() {
    assert_eq!(Timestamp::parse("123.4 S"), Ok(Timestamp(123_400_000_000)));
}

#[test]
fn test_ms_upper() {
    assert_eq!(Timestamp::parse("234.5 MS"), Ok(Timestamp(234_500_000)));
}

#[test]
fn test_us_upper() {
    assert_eq!(Timestamp::parse("345.6 US"), Ok(Timestamp(345_600)));
}

#[test]
fn test_ns_upper() {
    assert_eq!(Timestamp::parse("567.0 NS"), Ok(Timestamp(567)));
}

#[test]
fn test_s_nospace() {
    assert_eq!(Timestamp::parse("123.4s"), Ok(Timestamp(123_400_000_000)));
}

#[test]
fn test_ms_nospace() {
    assert_eq!(Timestamp::parse("234.5ms"), Ok(Timestamp(234_500_000)));
}

#[test]
fn test_us_nospace() {
    assert_eq!(Timestamp::parse("345.6us"), Ok(Timestamp(345_600)));
}

#[test]
fn test_ns_nospace() {
    assert_eq!(Timestamp::parse("567.0ns"), Ok(Timestamp(567)));
}

#[test]
fn test_s_spaces() {
    assert_eq!(Timestamp::parse("  123.4  s  "), Ok(Timestamp(123_400_000_000)));
}

#[test]
fn test_ms_spaces() {
    assert_eq!(Timestamp::parse("  234.5  ms  "), Ok(Timestamp(234_500_000)));
}

#[test]
fn test_us_spaces() {
    assert_eq!(Timestamp::parse("  345.6  us  "), Ok(Timestamp(345_600)));
}

#[test]
fn test_ns_spaces() {
    assert_eq!(Timestamp::parse("  567.0  ns  "), Ok(Timestamp(567)));
}

#[test]
fn test_no_unit() {
    assert_eq!(Timestamp::parse("500.0"), Err(TimestampParseError::NoUnit));
}

#[test]
fn test_no_value() {
    assert_eq!(Timestamp::parse("ms"), Err(TimestampParseError::InvalidValue));
}

#[test]
fn test_invalid_unit() {
    assert_eq!(Timestamp::parse("500.0 foo"), Err(TimestampParseError::InvalidUnit));
}

#[test]
fn test_invalid_value() {
    assert_eq!(Timestamp::parse("foo ms"), Err(TimestampParseError::InvalidValue));
}

#[test]
fn test_invalid_value2() {
    assert_eq!(Timestamp::parse("500.0.0 ms"), Err(TimestampParseError::InvalidValue));
}

#[test]
fn test_invalid_value3() {
    assert_eq!(Timestamp::parse("500.0.0"), Err(TimestampParseError::NoUnit));
}

#[test]
fn test_extra() {
    assert_eq!(Timestamp::parse("500.0 ms asdfadf"), Err(TimestampParseError::InvalidUnit));
}

#[test]
fn test_center() {
    let i0 = Interval::new(Timestamp(0), Timestamp(10));
    let i1 = Interval::new(Timestamp(0), Timestamp(0));
    assert_eq!(i0.center(), Timestamp(5));
    assert_eq!(i1.center(), Timestamp(0));
}

#[test]
fn test_duration_ns() {
    let i0 = Interval::new(Timestamp(0), Timestamp(10));
    let i1 = Interval::new(Timestamp(0), Timestamp(0));
    assert_eq!(i0.duration_ns(), 10);
    assert_eq!(i1.duration_ns(), 0);
}

#[test]
fn test_contains() {
    let i0 = Interval::new(Timestamp(2), Timestamp(4));
    assert!(!i0.contains(Timestamp(1)));
    assert!(i0.contains(Timestamp(2)));
    assert!(i0.contains(Timestamp(3)));
    assert!(!i0.contains(Timestamp(4)));
    assert!(!i0.contains(Timestamp(5)));
}

#[test]
fn test_overlap() {
    let i0 = Interval::new(Timestamp(0), Timestamp(1));
    let i1 = Interval::new(Timestamp(1), Timestamp(2));
    assert!(!i0.overlaps(i1));
    assert!(!i1.overlaps(i0));

    let i2 = Interval::new(Timestamp(0), Timestamp(2));
    let i3 = Interval::new(Timestamp(1), Timestamp(3));
    assert!(i2.overlaps(i3));
    assert!(i3.overlaps(i2));

    assert!(i2.overlaps(i2));
    assert!(i3.overlaps(i3));

    let i4 = Interval::new(Timestamp(4), Timestamp(4));
    assert!(!i4.overlaps(i4));
}

#[test]
fn test_intersection() {
    let i0 = Interval::new(Timestamp(0), Timestamp(10));
    let i1 = Interval::new(Timestamp(5), Timestamp(15));
    assert_eq!(i0.intersection(i1), Interval::new(Timestamp(5), Timestamp(10)));
    assert_eq!(i1.intersection(i0), Interval::new(Timestamp(5), Timestamp(10)));
}

#[test]
fn test_union() {
    let i0 = Interval::new(Timestamp(0), Timestamp(10));
    let i1 = Interval::new(Timestamp(5), Timestamp(15));
    assert_eq!(i0.union(i1), Interval::new(Timestamp(0), Timestamp(15)));
    assert_eq!(i1.union(i0), Interval::new(Timestamp(0), Timestamp(15)));
}

#[test]
fn test_grow() {
    let i0 = Interval::new(Timestamp(5), Timestamp(10));
    let i1 = Interval::new(Timestamp(20), Timestamp(20));
    assert_eq!(i0.grow(2), Interval::new(Timestamp(3), Timestamp(12)));
    assert_eq!(i1.grow(2), Interval::new(Timestamp(18), Timestamp(22)));
}

#[test]
fn test_translate() {
    let origin = Interval::new(Timestamp(1000), Timestamp(2000));
    let expect = Interval::new(Timestamp(1250), Timestamp(2250));
    assert_eq!(origin.translate(250), expect);

    let expect = Interval::new(Timestamp(750), Timestamp(1750));
    assert_eq!(origin.translate(-250), expect);
}

#[test]
fn test_s_duration_ms() {
    // A sub-second span of milliseconds shows the endpoints down to
    // the nanosecond and the duration at the same precision.
    assert_eq!(
        units_of_interval(123_000_000_000, 123_456_789_012),
        TimestampUnits { divisor: 1_000_000_000, unit_name: "s", digits_after_separator: 9 }
    );
    let i0 = Interval::new(Timestamp(123_000_000_000), Timestamp(123_456_789_012));
    assert_eq!(
        &i0.display(),
        "from 123.000 000 000 to 123.456 789 012 s (duration: 456.789 012 ms)"
    );
}

#[test]
fn timestamp_test_s_duration_ms() {
    assert_eq!(
        units_of_interval(123_000_000_000, 123_456_789_012),
        TimestampUnits { divisor: 1_000_000_000, unit_name: "s", digits_after_separator: 9 }
    );
    let i0 = Interval::new(Timestamp(123_000_000_000), Timestamp(123_456_789_012));
    assert_eq!(
        &i0.display(),
        "from 123.000 000 000 to 123.456 789 012 s (duration: 456.789 012 ms)"
    );
}

#[test]
fn test_s_duration_us() {
    assert_eq!(
        units_of_interval(123_456_000_000, 123_456_789_012),
        TimestampUnits { divisor: 1_000_000_000, unit_name: "s", digits_after_separator: 6 }
    );
    let i0 = Interval::new(Timestamp(123_456_000_000), Timestamp(123_456_789_012));
    assert_eq!(&i0.display(), "from 123.456 000 to 123.456 789 s (duration: 789.012 us)");
}

#[test]
fn timestamp_test_s_duration_us() {
    assert_eq!(
        units_of_interval(123_456_000_000, 123_456_789_012),
        TimestampUnits { divisor: 1_000_000_000, unit_name: "s", digits_after_separator: 6 }
    );
    let i0 = Interval::new(Timestamp(123_456_000_000), Timestamp(123_456_789_012));
    assert_eq!(&i0.display(), "from 123.456 000 to 123.456 789 s (duration: 789.012 us)");
}

#[test]
fn test_s_duration_ns() {
    assert_eq!(
        units_of_interval(123_456_789_000, 123_456_789_012),
        TimestampUnits { divisor: 1_000_000_000, unit_name: "s", digits_after_separator: 9 }
    );
    let i0 = Interval::new(Timestamp(123_456_789_000), Timestamp(123_456_789_012));
    assert_eq!(
        &i0.display(),
        "from 123.456 789 000 to 123.456 789 012 s (duration: 12 ns)"
    );
}

#[test]
fn timestamp_test_s_duration_ns() {
    assert_eq!(
        units_of_interval(123_456_789_000, 123_456_789_012),
        TimestampUnits { divisor: 1_000_000_000, unit_name: "s", digits_after_separator: 9 }
    );
    let i0 = Interval::new(Timestamp(123_456_789_000), Timestamp(123_456_789_012));
    assert_eq!(
        &i0.display(),
        "from 123.456 789 000 to 123.456 789 012 s (duration: 12 ns)"
    );
}

#[test]
fn test_ms_duration_us() {
    assert_eq!(
        units_of_interval(123_000_000, 123_456_789),
        TimestampUnits { divisor: 1_000_000, unit_name: "ms", digits_after_separator: 3 }
    );
    let i0 = Interval::new(Timestamp(123_000_000), Timestamp(123_456_789));
    assert_eq!(&i0.display(), "from 123.000 to 123.456 ms (duration: 456.789 us)");
}

#[test]
fn timestamp_test_ms_duration_us() {
    assert_eq!(
        units_of_interval(123_000_000, 123_456_789),
        TimestampUnits { divisor: 1_000_000, unit_name: "ms", digits_after_separator: 3 }
    );
    let i0 = Interval::new(Timestamp(123_000_000), Timestamp(123_456_789));
    assert_eq!(&i0.display(), "from 123.000 to 123.456 ms (duration: 456.789 us)");
}

#[test]
fn test_ms_duration_ns() {
    assert_eq!(
        units_of_interval(123_456_000, 123_456_789),
        TimestampUnits { divisor: 1_000_000, unit_name: "ms", digits_after_separator: 6 }
    );
    let i0 = Interval::new(Timestamp(123_456_000), Timestamp(123_456_789));
    assert_eq!(&i0.display(), "from 123.456 000 to 123.456 789 ms (duration: 789 ns)");
}

#[test]
fn timestamp_test_ms_duration_ns() {
    assert_eq!(
        units_of_interval(123_456_000, 123_456_789),
        TimestampUnits { divisor: 1_000_000, unit_name: "ms", digits_after_separator: 6 }
    );
    let i0 = Interval::new(Timestamp(123_456_000), Timestamp(123_456_789));
    assert_eq!(&i0.display(), "from 123.456 000 to 123.456 789 ms (duration: 789 ns)");
}

#[test]
fn grouped_digits_round_trip() {
    // Grouped digits parse back to the exact nanosecond values, and
    // the interval formats with the full grouping again.
    let start = Timestamp::parse("123.000 000 000 s").unwrap();
    let stop = Timestamp::parse("123.456 789 012 s").unwrap();
    assert_eq!(start, Timestamp(123_000_000_000));
    assert_eq!(stop, Timestamp(123_456_789_012));
    let i0 = Interval::new(start, stop);
    assert_eq!(
        &i0.display(),
        "from 123.000 000 000 to 123.456 789 012 s (duration: 456.789 012 ms)"
    );
}

#[test]
fn parse_saturates_huge_values() {
    assert_eq!(
        Timestamp::parse("99999999999999999999999999 s"),
        Ok(Timestamp(i64::MAX))
    );
}

#[test]
fn parse_fraction_truncates() {
    assert_eq!(Timestamp::parse("123.4567 us"), Ok(Timestamp(123_456)));
    assert_eq!(Timestamp::parse("0.5 ns"), Ok(Timestamp(0)));
}

#[test]
fn display_negative_times() {
    assert_eq!(&Timestamp(-5).display(), "-5 ns");
    let i0 = Interval::new(Timestamp(-5), Timestamp(2_000_000_000));
    assert_eq!(&i0.display(), "from -0.000 to 2.000 s (duration: 2.000 s)");
}

#[test]
fn display_with_explicit_units() {
    let d = TimestampDisplay {
        timestamp: Timestamp(123_456_789),
        units: TimestampUnits { divisor: 1_000_000, unit_name: "ms", digits_after_separator: 3 },
        include_units: false,
    };
    assert_eq!(&d.display(), "123.456");
}
