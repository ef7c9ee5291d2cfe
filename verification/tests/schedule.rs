use adthand::prayer::{next_day, PrayerRetrievalError, Prayers};
use adthand::clock::{MAX_DAY, SECS_PER_DAY};

fn pairs(raw: &[(&str, &str)]) -> Vec<(String, String)> {
    raw.iter().map(|(n, t)| (n.to_string(), t.to_string())).collect()
}

// A day far enough in the future that its events lie after the real clock.
const DAY: u64 = 3_000_000;

#[test]
fn toronto_canada_prayers() {
    let r = Prayers::build(
        String::from("Toronto"),
        String::from("Canada"),
        DAY,
        pairs(&[("Fajr", "05:30"), ("Dhuhr", "12:15")]),
        DAY * SECS_PER_DAY,
    );
    assert!(r.is_ok());
}

#[test]
fn build_sorts_and_filters() {
    let now = DAY * SECS_PER_DAY + 6 * 3600; // 06:00
    let s = Prayers::build(
        String::from("Toronto"),
        String::from("Canada"),
        DAY,
        pairs(&[("Dhuhr", "12:15"), ("Fajr", "05:30"), ("Asr", "15:45")]),
        now,
    )
    .expect("builds");
    // The full day is sorted ascending by time, past events included.
    let day: Vec<String> = s.prayers.iter().map(|p| p.name.clone()).collect();
    assert_eq!(day, ["Fajr", "Dhuhr", "Asr"]);
    // The queue holds only events after `now`, in the same order.
    let queued: Vec<String> = s.prayer_que.iter().map(|p| p.name.clone()).collect();
    assert_eq!(queued, ["Dhuhr", "Asr"]);
    assert!(s.prayer_que.iter().all(|p| p.time > now));
    assert!(s.next.is_none());
}

#[test]
fn full_day_view_renders_clock_times() {
    let s = Prayers::build(
        String::from("Toronto"),
        String::from("Canada"),
        DAY,
        pairs(&[("Fajr", "05:30"), ("Maghrib", "18:12")]),
        DAY * SECS_PER_DAY,
    )
    .expect("builds");
    let view = s.build_full_day_view();
    assert_eq!(view.len(), 2);
    assert_eq!(view[0], ("Fajr".to_string(), "05:30 am".to_string()));
    assert_eq!(view[1], ("Maghrib".to_string(), "06:12 pm".to_string()));
}

#[test]
fn malformed_time_names_the_event() {
    let r = Prayers::build(
        String::from("Toronto"),
        String::from("Canada"),
        DAY,
        pairs(&[("Fajr", "05:30"), ("Broken", "5h30")]),
        DAY * SECS_PER_DAY,
    );
    assert_eq!(r.unwrap_err(), PrayerRetrievalError::Redaction(String::from("Broken")));
}

#[test]
fn out_of_range_time_is_refused() {
    let r = Prayers::build(
        String::from("Toronto"),
        String::from("Canada"),
        DAY,
        pairs(&[("Fajr", "25:30")]),
        DAY * SECS_PER_DAY,
    );
    assert_eq!(r.unwrap_err(), PrayerRetrievalError::Redaction(String::from("Fajr")));
}

#[test]
fn colliding_times_are_refused() {
    let r = Prayers::build(
        String::from("Toronto"),
        String::from("Canada"),
        DAY,
        pairs(&[("Fajr", "05:30"), ("Shadow", "05:30")]),
        DAY * SECS_PER_DAY,
    );
    assert_eq!(r.unwrap_err(), PrayerRetrievalError::Unknown);
}

#[test]
fn popping_drains_in_ascending_order() {
    let now = DAY * SECS_PER_DAY;
    let mut s = Prayers::build(
        String::from("Toronto"),
        String::from("Canada"),
        DAY,
        pairs(&[("Dhuhr", "12:15"), ("Fajr", "05:30")]),
        now,
    )
    .expect("builds");
    let d1 = s.get_next_prayer_duration().expect("first pop");
    let first = s.next.as_ref().expect("next set").name.clone();
    let t1 = s.next.as_ref().unwrap().time;
    let d2 = s.get_next_prayer_duration().expect("second pop");
    let second = s.next.as_ref().expect("next set").name.clone();
    let t2 = s.next.as_ref().unwrap().time;
    assert_eq!(first, "Fajr");
    assert_eq!(second, "Dhuhr");
    assert!(t1 < t2);
    assert!(d1 <= t1);
    assert!(d2 <= t2);
    // Popping past the last element signals that a refresh is owed.
    let r = s.get_next_prayer_duration();
    assert_eq!(r.unwrap_err(), PrayerRetrievalError::Empty);
    assert!(s.next.is_none());
}

#[test]
fn refresh_replaces_the_day_wholesale() {
    let now = DAY * SECS_PER_DAY + 13 * 3600;
    let mut s = Prayers::build(
        String::from("Toronto"),
        String::from("Canada"),
        DAY,
        pairs(&[("Fajr", "05:30")]),
        now,
    )
    .expect("builds");
    let body = "{\"data\":{\"timings\":{\"Dhuhr\":\"12:15\",\"Fajr\":\"05:30\"}}}";
    let next = next_day(now);
    assert_eq!(next, DAY + 1);
    s.refresh(next, body, now).expect("refreshes");
    assert_eq!(s.day, DAY + 1);
    assert_eq!(s.city, "Toronto");
    assert_eq!(s.country, "Canada");
    // The new day's events all lie on day + 1 and are all future.
    let queued: Vec<String> = s.prayer_que.iter().map(|p| p.name.clone()).collect();
    assert_eq!(queued, ["Fajr", "Dhuhr"]);
    assert!(s.prayer_que.iter().all(|p| p.time > now));
}

#[test]
fn refresh_on_bad_body_leaves_the_day_standing() {
    let now = DAY * SECS_PER_DAY;
    let mut s = Prayers::build(
        String::from("Toronto"),
        String::from("Canada"),
        DAY,
        pairs(&[("Fajr", "05:30")]),
        now,
    )
    .expect("builds");
    let r = s.refresh(DAY + 1, "not json at all", now);
    assert_eq!(r.unwrap_err(), PrayerRetrievalError::Unknown);
    assert_eq!(s.day, DAY);
    assert_eq!(s.prayers.len(), 1);
}

#[test]
fn document_without_timings_is_refused() {
    let r = Prayers::new_with_body(
        String::from("Toronto"),
        String::from("Canada"),
        DAY,
        "{\"data\":{}}",
        DAY * SECS_PER_DAY,
    );
    assert_eq!(r.unwrap_err(), PrayerRetrievalError::Unknown);
}

#[test]
fn document_with_timings_builds_the_day() {
    let body = "{\"data\":{\"timings\":{\"Fajr\":\"05:30\"}}}";
    let s = Prayers::new_with_body(
        String::from("Toronto"),
        String::from("Canada"),
        DAY,
        body,
        DAY * SECS_PER_DAY,
    )
    .expect("builds");
    let view = s.build_full_day_view();
    assert_eq!(view, [("Fajr".to_string(), "05:30 am".to_string())]);
}

#[test]
fn a_day_without_events_pops_straight_to_empty() {
    let mut s = Prayers::build(
        String::from("Toronto"),
        String::from("Canada"),
        DAY,
        pairs(&[]),
        DAY * SECS_PER_DAY,
    )
    .expect("builds");
    assert!(s.prayers.is_empty());
    assert!(s.prayer_que.is_empty());
    assert_eq!(s.get_next_prayer_duration().unwrap_err(), PrayerRetrievalError::Empty);
}

#[test]
fn the_largest_day_still_builds() {
    let s = Prayers::build(
        String::from("Toronto"),
        String::from("Canada"),
        MAX_DAY,
        pairs(&[("Isha", "23:59")]),
        MAX_DAY * SECS_PER_DAY,
    )
    .expect("builds");
    assert_eq!(s.prayers[0].time, MAX_DAY * SECS_PER_DAY + 23 * 3600 + 59 * 60);
}

#[test]
fn next_day_advances_by_one() {
    assert_eq!(next_day(10 * SECS_PER_DAY + 5), 11);
    assert_eq!(next_day(0), 1);
}
