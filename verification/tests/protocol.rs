use adthand::codec::{decode_answer, decode_request, encode_answer, encode_request, REQUEST_FRAME_LEN};
use adthand::{Answer, Request};

#[test]
fn it_works() {
    assert_eq!(4, REQUEST_FRAME_LEN);
    assert_eq!(4, encode_request(&Request::Ping).len());
}

#[test]
fn request_next_round_trip() {
    let frame = encode_request(&Request::Next);
    assert_eq!(decode_request(&frame), Some(Request::Next));
}

#[test]
fn every_request_round_trips() {
    for r in [Request::Kill, Request::Ping, Request::Next, Request::Waybar, Request::All] {
        let frame = encode_request(&r);
        assert_eq!(frame.len(), REQUEST_FRAME_LEN);
        assert_eq!(decode_request(&frame), Some(r));
    }
}

#[test]
fn bad_request_frames_are_refused() {
    assert_eq!(decode_request(&[]), None);
    assert_eq!(decode_request(&[0, 0, 0]), None);
    assert_eq!(decode_request(&[5, 0, 0, 0]), None);
    assert_eq!(decode_request(&[0, 1, 0, 0]), None);
    assert_eq!(decode_request(&[0, 0, 0, 0, 0]), None);
}

#[test]
fn answer_all_round_trip() {
    let a = Answer::All(vec![(String::from("Fajr"), String::from("05:30 am"))]);
    let bytes = encode_answer(&a);
    let back = decode_answer(&bytes).expect("decodes");
    match back {
        Answer::All(list) => {
            assert_eq!(list.len(), 1);
            assert_eq!(list[0].0, "Fajr");
            assert_eq!(list[0].1, "05:30 am");
        }
        other => panic!("wrong variant: {:?}", other),
    }
}

#[test]
fn answer_ping_round_trip() {
    let bytes = encode_answer(&Answer::Ping);
    assert_eq!(decode_answer(&bytes), Some(Answer::Ping));
}

#[test]
fn answer_next_round_trip() {
    let a = Answer::Next(
        String::from("Maghrib"),
        String::from("06:12 pm"),
        String::from("in 3 hours and 7 mins"),
    );
    let bytes = encode_answer(&a);
    assert_eq!(decode_answer(&bytes), Some(a));
}

#[test]
fn answer_waybar_round_trip() {
    let a = Answer::Waybar(
        String::from("Isha"),
        String::from("09:01 pm"),
        String::from("now"),
        vec![
            (String::from("Fajr"), String::from("05:30 am")),
            (String::from("Isha"), String::from("09:01 pm")),
        ],
    );
    let bytes = encode_answer(&a);
    assert_eq!(decode_answer(&bytes), Some(a));
}

#[test]
fn answer_round_trip_keeps_non_ascii_names() {
    let a = Answer::Next(
        String::from("Fajr \u{0641}\u{062c}\u{0631}"),
        String::from("05:30 am"),
        String::from("now"),
    );
    let bytes = encode_answer(&a);
    assert_eq!(decode_answer(&bytes), Some(a));
}

#[test]
fn malformed_answer_frames_are_refused() {
    assert_eq!(decode_answer(&[]), None);
    assert_eq!(decode_answer(&[9]), None);
    // Ping with trailing bytes is not one answer.
    assert_eq!(decode_answer(&[0, 0]), None);
    // A truncated Next frame.
    let bytes = encode_answer(&Answer::Next(
        String::from("Asr"),
        String::from("03:45 pm"),
        String::from("in 5 mins"),
    ));
    assert_eq!(decode_answer(&bytes[..bytes.len() - 1]), None);
    // A Next frame with trailing garbage.
    let mut long = bytes.clone();
    long.push(0);
    assert_eq!(decode_answer(&long), None);
}
