use adthand::clock::SECS_PER_DAY;
use adthand::codec::encode_request;
use adthand::daemon::{daemon_step, DaemonAction, DaemonEvent, DaemonState, RetryPolicy};
use adthand::dispatch::{dispatch_at, handle_frame, handle_frame_at, HandleOutcome};
use adthand::parser::Adthand;
use adthand::prayer::Prayers;
use adthand::waybar::Waybar;
use adthand::{Answer, Request};

fn pairs(raw: &[(&str, &str)]) -> Vec<(String, String)> {
    raw.iter().map(|(n, t)| (n.to_string(), t.to_string())).collect()
}

const DAY: u64 = 3_000_000;

fn sample_schedule() -> Prayers {
    Prayers::build(
        String::from("Toronto"),
        String::from("Canada"),
        DAY,
        pairs(&[("Fajr", "05:30"), ("Dhuhr", "12:15")]),
        DAY * SECS_PER_DAY,
    )
    .expect("builds")
}

#[test]
fn ping_is_acknowledged() {
    let s = sample_schedule();
    let frame = encode_request(&Request::Ping);
    match handle_frame_at(&frame, &s, DAY * SECS_PER_DAY) {
        HandleOutcome::Reply(Answer::Ping) => {}
        other => panic!("wrong outcome: {:?}", outcome_name(&other)),
    }
}

#[test]
fn kill_signals_shutdown() {
    let s = sample_schedule();
    let frame = encode_request(&Request::Kill);
    assert!(matches!(
        handle_frame_at(&frame, &s, DAY * SECS_PER_DAY),
        HandleOutcome::Shutdown
    ));
}

#[test]
fn next_before_first_pop_is_not_ready() {
    let s = sample_schedule();
    let frame = encode_request(&Request::Next);
    assert!(matches!(
        handle_frame_at(&frame, &s, DAY * SECS_PER_DAY),
        HandleOutcome::NotReady
    ));
}

#[test]
fn next_names_the_popped_event() {
    let mut s = sample_schedule();
    s.get_next_prayer_duration().expect("pops");
    let now = DAY * SECS_PER_DAY + 5 * 3600; // 05:00, half an hour early
    match dispatch_at(Request::Next, &s, now) {
        HandleOutcome::Reply(Answer::Next(name, shown, rel)) => {
            assert_eq!(name, "Fajr");
            assert_eq!(shown, "05:30 am");
            assert_eq!(rel, "in 30 mins");
        }
        other => panic!("wrong outcome: {:?}", outcome_name(&other)),
    }
}

#[test]
fn all_lists_the_whole_day() {
    let s = sample_schedule();
    let frame = encode_request(&Request::All);
    match handle_frame_at(&frame, &s, DAY * SECS_PER_DAY) {
        HandleOutcome::Reply(Answer::All(list)) => {
            assert_eq!(
                list,
                [
                    ("Fajr".to_string(), "05:30 am".to_string()),
                    ("Dhuhr".to_string(), "12:15 pm".to_string()),
                ]
            );
        }
        other => panic!("wrong outcome: {:?}", outcome_name(&other)),
    }
}

#[test]
fn waybar_unites_next_and_all() {
    let mut s = sample_schedule();
    s.get_next_prayer_duration().expect("pops");
    let now = DAY * SECS_PER_DAY + 5 * 3600;
    match dispatch_at(Request::Waybar, &s, now) {
        HandleOutcome::Reply(Answer::Waybar(name, shown, rel, list)) => {
            assert_eq!(name, "Fajr");
            assert_eq!(shown, "05:30 am");
            assert_eq!(rel, "in 30 mins");
            assert_eq!(list.len(), 2);
        }
        other => panic!("wrong outcome: {:?}", outcome_name(&other)),
    }
}

#[test]
fn garbage_frames_abort_only_the_connection() {
    let s = sample_schedule();
    assert!(matches!(handle_frame(&[9, 9, 9, 9], &s), HandleOutcome::Malformed));
    assert!(matches!(handle_frame(&[], &s), HandleOutcome::Malformed));
}

// Queries fired around a refresh see one day's schedule in full, never a
// mixture of the two days.
#[test]
fn queries_see_one_day_wholly() {
    let now = DAY * SECS_PER_DAY;
    let mut s = Prayers::build(
        String::from("Toronto"),
        String::from("Canada"),
        DAY,
        pairs(&[("Fajr", "05:30"), ("Dhuhr", "12:15")]),
        now,
    )
    .expect("builds");
    s.get_next_prayer_duration().expect("pops");
    let day_one: Vec<String> = s.prayers.iter().map(|p| p.name.clone()).collect();

    let observe = |s: &Prayers, names: &[String]| {
        for _ in 0..8 {
            if let HandleOutcome::Reply(Answer::Next(name, shown, rel)) =
                dispatch_at(Request::Next, s, now)
            {
                assert!(names.contains(&name), "{name} not of this day");
                assert!(!shown.is_empty() && !rel.is_empty());
            } else {
                panic!("expected a Next reply");
            }
        }
    };
    observe(&s, &day_one);

    let body = "{\"data\":{\"timings\":{\"Asr\":\"15:45\",\"Isha\":\"21:01\"}}}";
    s.refresh(DAY + 1, body, now).expect("refreshes");
    s.get_next_prayer_duration().expect("pops the new day");
    let day_two: Vec<String> = s.prayers.iter().map(|p| p.name.clone()).collect();
    assert!(day_one.iter().all(|n| !day_two.contains(n)));
    observe(&s, &day_two);
}

fn outcome_name(o: &HandleOutcome) -> &'static str {
    match o {
        HandleOutcome::Reply(_) => "Reply",
        HandleOutcome::Shutdown => "Shutdown",
        HandleOutcome::NotReady => "NotReady",
        HandleOutcome::Malformed => "Malformed",
    }
}

#[test]
fn waybar_renders_the_status_line() {
    let a = Answer::Waybar(
        String::from("Fajr"),
        String::from("05:30 am"),
        String::from("in 2 mins"),
        vec![(String::from("Fajr"), String::from("05:30 am"))],
    );
    let w = Waybar::new(a).expect("waybar answer");
    assert_eq!(
        w.render(),
        "{\"text\": \"Fajr in 2 mins\",\"tooltip\": \"Fajr: 05:30 am \\n\", \"alt\": \"Fajr at 05:30 am\"}"
    );
}

#[test]
fn waybar_refuses_other_answers() {
    assert!(Waybar::new(Answer::Ping).is_none());
}

#[test]
fn commands_map_onto_requests() {
    assert_eq!(Adthand::Init.to_request(), None);
    assert_eq!(Adthand::Ping.to_request(), Some(Request::Ping));
    assert_eq!(Adthand::Kill.to_request(), Some(Request::Kill));
    assert_eq!(Adthand::Next { relative: true }.to_request(), Some(Request::Next));
    assert_eq!(Adthand::Next { relative: false }.to_request(), Some(Request::Next));
    assert_eq!(Adthand::Waybar.to_request(), Some(Request::Waybar));
    assert_eq!(Adthand::All.to_request(), Some(Request::All));
}

#[test]
fn daemon_retries_a_stale_bind_once() {
    let start = DaemonState::Starting { retried: false };
    let (s1, a1) = daemon_step(start, DaemonEvent::BindFailed { addr_in_use: true });
    assert_eq!(s1, DaemonState::Starting { retried: true });
    assert_eq!(a1, DaemonAction::RemoveAndRebind);
    let (s2, a2) = daemon_step(s1, DaemonEvent::BindFailed { addr_in_use: true });
    assert_eq!(s2, DaemonState::Terminated);
    assert_eq!(a2, DaemonAction::Abort);
}

#[test]
fn daemon_aborts_on_any_other_bind_failure() {
    let start = DaemonState::Starting { retried: false };
    let (s, a) = daemon_step(start, DaemonEvent::BindFailed { addr_in_use: false });
    assert_eq!(s, DaemonState::Terminated);
    assert_eq!(a, DaemonAction::Abort);
}

#[test]
fn daemon_runs_shuts_down_and_exits() {
    let (s1, a1) = daemon_step(DaemonState::Starting { retried: false }, DaemonEvent::BindOk);
    assert_eq!((s1, a1), (DaemonState::Running, DaemonAction::Serve));
    let (s2, a2) = daemon_step(s1, DaemonEvent::Shutdown);
    assert_eq!((s2, a2), (DaemonState::ShuttingDown, DaemonAction::Cleanup));
    let (s3, a3) = daemon_step(s2, DaemonEvent::Cleaned);
    assert_eq!((s3, a3), (DaemonState::Terminated, DaemonAction::Exit));
    // A duplicate shutdown signal is a harmless no-op.
    let (s4, a4) = daemon_step(s3, DaemonEvent::Shutdown);
    assert_eq!((s4, a4), (DaemonState::Terminated, DaemonAction::Ignore));
}

#[test]
fn retry_policy_ships_with_five_seconds() {
    assert_eq!(RetryPolicy::default().delay_secs, 5);
}
