use adthand::clock::{
    current_day, format_clock, format_time_difference, format_time_difference_at, u64_to_string,
    MAX_DAY, SECS_PER_DAY,
};

#[test]
fn decimal_rendering() {
    assert_eq!(u64_to_string(0), "0");
    assert_eq!(u64_to_string(7), "7");
    assert_eq!(u64_to_string(10), "10");
    assert_eq!(u64_to_string(1234567890), "1234567890");
    assert_eq!(u64_to_string(u64::MAX), "18446744073709551615");
}

#[test]
fn twelve_hour_clock() {
    assert_eq!(format_clock(5 * 3600 + 30 * 60), "05:30 am");
    assert_eq!(format_clock(0), "12:00 am");
    assert_eq!(format_clock(12 * 3600), "12:00 pm");
    assert_eq!(format_clock(17 * 3600 + 45 * 60), "05:45 pm");
    assert_eq!(format_clock(23 * 3600 + 59 * 60 + 59), "11:59 pm");
    // The date part of the instant does not change the clock face.
    assert_eq!(format_clock(1000 * SECS_PER_DAY + 5 * 3600 + 30 * 60), "05:30 am");
}

#[test]
fn relative_time_now() {
    assert_eq!(format_time_difference_at(12345, 12345), "now");
    assert_eq!(format_time_difference_at(12345, 12000), "now");
}

#[test]
fn relative_time_minutes() {
    assert_eq!(format_time_difference_at(0, 125), "in 2 mins");
}

#[test]
fn relative_time_hours() {
    assert_eq!(format_time_difference_at(0, 3600), "in 1 hours");
}

#[test]
fn relative_time_hours_and_minutes() {
    assert_eq!(format_time_difference_at(0, 3725), "in 1 hours and 2 mins");
}

#[test]
fn relative_time_against_the_real_clock() {
    // The far future is after any instant the clock can report.
    let s = format_time_difference(u64::MAX);
    assert!(s.starts_with("in "), "got {s}");
}

#[test]
fn the_clock_reports_a_recent_day() {
    let day = current_day();
    // Day 700000 of the common era fell in the year 1917.
    assert!(day > 700000);
    assert!(day <= MAX_DAY);
}
