use video_presenter::time::{ParseError, Time};

fn tc(hours: u8, minutes: u8, seconds: u8, frames: u8) -> Time {
    Time { hours, minutes, seconds, frames }
}

#[test]
fn test_time_parse() {
    assert_eq!("00:00:00:00".parse::<Time>().unwrap(), tc(0, 0, 0, 0));
    assert_eq!("00:15".parse::<Time>().unwrap(), tc(0, 0, 0, 15));
    assert_eq!("12".parse::<Time>().unwrap(), tc(0, 0, 0, 12));
    assert_eq!("00:05:00:00".parse::<Time>().unwrap(), tc(0, 5, 0, 0));
}

#[test]
fn time_test_time_parse() {
    assert_eq!("00:00:00:00".parse::<Time>().unwrap(), tc(0, 0, 0, 0));
    assert_eq!("00:15".parse::<Time>().unwrap(), tc(0, 0, 0, 15));
    assert_eq!("12".parse::<Time>().unwrap(), tc(0, 0, 0, 12));
    assert_eq!("00:05:00:00".parse::<Time>().unwrap(), tc(0, 5, 0, 0));
}

#[test]
fn test_time_macro() {
    assert_eq!(tc(0, 0, 12, 0), Time::parse("00:00:12:00").unwrap());
}

#[test]
fn time_test_time_macro() {
    assert_eq!(tc(0, 0, 12, 0), Time::parse("00:00:12:00").unwrap());
}

#[test]
fn test_as_frames() {
    assert_eq!(tc(0, 0, 0, 0).as_frames(24), 0);
    assert_eq!(tc(0, 0, 10, 15).as_frames(30), 315);
    assert_eq!(tc(12, 34, 56, 78).as_frames(24), 1087182);
}

#[test]
fn time_test_as_frames() {
    assert_eq!(tc(0, 0, 0, 0).as_frames(24), 0);
    assert_eq!(tc(0, 0, 10, 15).as_frames(30), 315);
    assert_eq!(tc(12, 34, 56, 78).as_frames(24), 1087182);
}

#[test]
fn test_from_duration() {
    assert_eq!(Time::from_millis(0, 24), tc(0, 0, 0, 0));
    assert_eq!(Time::from_millis(10_000, 30), tc(0, 0, 10, 0));
    assert_eq!(Time::from_millis(500, 24), tc(0, 0, 0, 12));
}

#[test]
fn time_test_from_duration() {
    assert_eq!(Time::from_millis(0, 24), tc(0, 0, 0, 0));
    assert_eq!(Time::from_millis(10_000, 30), tc(0, 0, 10, 0));
    assert_eq!(Time::from_millis(500, 24), tc(0, 0, 0, 12));
}

#[test]
fn test_parse_accepts_plus_sign() {
    assert_eq!("+12".parse::<Time>().unwrap(), tc(0, 0, 0, 12));
}

#[test]
fn test_parse_rejects_bad_fields() {
    assert_eq!("".parse::<Time>(), Err(ParseError::BadField));
    assert_eq!("ab".parse::<Time>(), Err(ParseError::BadField));
    assert_eq!("1:x:3:4".parse::<Time>(), Err(ParseError::BadField));
    assert_eq!("256".parse::<Time>(), Err(ParseError::BadField));
    assert_eq!("-1".parse::<Time>(), Err(ParseError::BadField));
    assert_eq!("1:".parse::<Time>(), Err(ParseError::BadField));
}

#[test]
fn test_parse_rejects_too_many_fields() {
    assert_eq!("1:2:3:4:5".parse::<Time>(), Err(ParseError::TooManyFields));
}

#[test]
fn test_to_text_zero_pads() {
    assert_eq!(tc(1, 2, 3, 4).to_text(), "01:02:03:04");
    assert_eq!(tc(0, 0, 0, 0).to_text(), "00:00:00:00");
    assert_eq!(tc(12, 34, 56, 78).to_text(), "12:34:56:78");
    assert_eq!(tc(255, 255, 255, 255).to_text(), "255:255:255:255");
}

#[test]
fn test_format_then_parse_round_trip() {
    let samples = [
        tc(0, 0, 0, 0),
        tc(0, 0, 4, 57),
        tc(1, 2, 3, 4),
        tc(0, 0, 0, 255),
        tc(255, 255, 255, 255),
        tc(23, 59, 59, 119),
    ];
    for t in samples {
        assert_eq!(t.to_text().parse::<Time>().unwrap(), t);
    }
}

#[test]
fn test_is_end() {
    assert!(Time::end().is_end());
    assert!(tc(255, 255, 255, 255).is_end());
    assert!(!tc(0, 0, 0, 0).is_end());
    assert!(!tc(255, 255, 255, 254).is_end());
}

#[test]
fn test_order_matches_seconds() {
    let earlier = tc(0, 0, 4, 57);
    let later = tc(0, 0, 21, 31);
    assert!(earlier.le(&later));
    assert!(!later.le(&earlier));
    assert!(earlier.as_frames(60) <= later.as_frames(60));
}

#[test]
fn test_from_millis_keeps_raw_minutes() {
    // The minutes field holds the full minute count of the whole-second
    // part; an hour in, that is 60.
    assert_eq!(Time::from_millis(3_600_000, 30), tc(1, 60, 0, 0));
}
