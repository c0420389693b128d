use jbm::clock::{
    format_time, monotonic_time_ns, reading_to_millis, reading_to_nanoseconds, time_now, to_millis,
    to_nanoseconds,
};

#[test]
fn lengths_of_time_are_converted() {
    assert_eq!(to_millis(3, 141_592_653), 3_141);
    assert_eq!(to_nanoseconds(3, 141_592_653), 3_141_592_653);
    assert_eq!(to_millis(u64::MAX, 0), 18_446_744_073_709_550_616);
    assert_eq!(to_nanoseconds(18_446_744_074, 0), 290_448_384);
}

#[test]
fn readings_of_clocks_are_converted() {
    assert_eq!(reading_to_millis(Some((3, 141_592_653))), 3_141);
    assert_eq!(reading_to_nanoseconds(Some((3, 141_592_653))), 3_141_592_653);
    assert_eq!(reading_to_millis(None), 0);
    assert_eq!(reading_to_nanoseconds(None), 0);
}

#[test]
fn clocks_run() {
    let first = monotonic_time_ns();
    let second = monotonic_time_ns();
    assert!(first > 0);
    assert!(first <= second);
    // Later than September 2020.
    assert!(time_now() > 1_600_000_000_000);
}

#[test]
fn times_are_shown_in_their_zone_to_the_second() {
    assert_eq!(format_time(0, 0), "1970-01-01 00:00:00");
    assert_eq!(format_time(1_600_000_000_999, 0), "2020-09-13 12:26:40");
    assert_eq!(format_time(1_600_000_000_999, 9 * 3600), "2020-09-13 21:26:40");
    assert_eq!(format_time(1_600_000_000_999, -13 * 3600), "2020-09-12 23:26:40");
    assert_eq!(format_time(u64::MAX, 0), "1969-12-31 23:59:59");
}

#[test]
fn the_ends_of_the_calendar_are_shown() {
    assert_eq!(
        format_time(8_210_266_876_799_999, 0),
        "+262142-12-31 23:59:59"
    );
    assert_eq!(
        format_time((-8_334_601_228_800_000i64) as u64, 0),
        "-262143-01-01 00:00:00"
    );
    assert_eq!(
        format_time(8_210_266_876_799_999, 86_399),
        "+262143-01-01 23:59:58"
    );
    assert_eq!(
        format_time((-8_334_601_228_800_000i64) as u64, -86_399),
        "-262144-12-31 00:00:01"
    );
}
