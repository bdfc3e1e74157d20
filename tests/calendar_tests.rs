use fleet_router::calendar::{intervals_cover, parse_duration, Calendar};
use fleet_router::error::RouterError;

const WEEKDAYS: &str = "DTSTART:20221020T180000Z;DURATION:PT14H\nRRULE:FREQ=WEEKLY;BYDAY=MO,TU,WE,TH,FR";
// 2022-10-20 (a Thursday) 00:00:00 UTC.
const THURSDAY: i64 = 1_666_224_000;
const HOUR: i64 = 3600;

#[test]
fn durations_are_read_in_seconds() {
    assert_eq!(parse_duration(b"PT14H"), Some(14 * 3600));
    assert_eq!(parse_duration(b"P1D"), Some(86400));
    assert_eq!(parse_duration(b"P2W"), Some(2 * 604800));
    assert_eq!(parse_duration(b"P1DT2H3M4S"), Some(86400 + 7200 + 180 + 4));
    assert_eq!(parse_duration(b"PT90M"), Some(5400));
}

#[test]
fn malformed_durations_are_refused() {
    assert_eq!(parse_duration(b"P"), None);
    assert_eq!(parse_duration(b"PT"), None);
    assert_eq!(parse_duration(b"14H"), None);
    assert_eq!(parse_duration(b"P1Y"), None);
    assert_eq!(parse_duration(b"PT5"), None);
    assert_eq!(parse_duration(b"P1H"), None);
    assert_eq!(parse_duration(b"PT99999999999S"), None);
}

#[test]
fn weekday_calendar_covers_its_hours() {
    let cal = Calendar::parse(WEEKDAYS).unwrap();
    // Thursday 19:00 to 20:00: inside the 18:00 + 14 h occurrence.
    assert!(cal.is_available_between(THURSDAY + 19 * HOUR, THURSDAY + 20 * HOUR));
    // Thursday 17:00 to 19:00: starts before the occurrence.
    assert!(!cal.is_available_between(THURSDAY + 17 * HOUR, THURSDAY + 19 * HOUR));
    // Friday 07:00 to 09:00: runs past the end of Thursday's occurrence.
    assert!(!cal.is_available_between(THURSDAY + 31 * HOUR, THURSDAY + 33 * HOUR));
    // Saturday 19:00 to 20:00: no occurrence on Saturdays.
    assert!(!cal.is_available_between(THURSDAY + 2 * 24 * HOUR + 19 * HOUR, THURSDAY + 2 * 24 * HOUR + 20 * HOUR));
}

#[test]
fn adjacent_blocks_cover_together() {
    let text = "DTSTART:20221020T000000Z;DURATION:PT12H\nRRULE:FREQ=DAILY\nDTSTART:20221020T120000Z;DURATION:PT12H\nRRULE:FREQ=DAILY\n";
    let cal = Calendar::parse(text).unwrap();
    assert!(cal.is_available_between(THURSDAY + 10 * HOUR, THURSDAY + 14 * HOUR));
    assert!(cal.is_available_between(THURSDAY + 23 * HOUR, THURSDAY + 25 * HOUR));
}

#[test]
fn empty_calendar_places_no_restriction() {
    let cal = Calendar::parse("").unwrap();
    assert!(cal.is_available_between(0, 1_000_000));
    assert!(Calendar::always_available().is_available_between(THURSDAY, THURSDAY + HOUR));
}

#[test]
fn malformed_calendars_are_refused() {
    assert_eq!(Calendar::parse("DTSTART:20221020T180000Z;DURATION:PT14H").err(), Some(RouterError::InvalidArgument));
    assert_eq!(Calendar::parse("DTSTART:20221020T180000;DURATION:PT14H\nRRULE:FREQ=DAILY").err(), Some(RouterError::InvalidArgument));
    assert_eq!(Calendar::parse("DTSTART:20221020T180000Z;DURATION:PT14H\nRULE:FREQ=DAILY").err(), Some(RouterError::InvalidArgument));
    assert_eq!(Calendar::parse("DTSTART:20221020T180000Z;DURATION:14H\nRRULE:FREQ=DAILY").err(), Some(RouterError::InvalidArgument));
    assert_eq!(Calendar::parse("DTSTART:20221020T180000Z;DURATION:PT14H\nRRULE:FREQ=SOMETIMES").err(), Some(RouterError::InvalidArgument));
    assert_eq!(Calendar::parse("DTSTART:20221020T180000Z;DURATION:PT14H\nRRULE:FREQ=DAILY\u{e9}").err(), Some(RouterError::InvalidArgument));
}

#[test]
fn coverage_of_intervals() {
    let ivs = vec![(0, 10), (5, 20), (30, 40)];
    assert!(intervals_cover(&ivs, 0, 20));
    assert!(intervals_cover(&ivs, 2, 18));
    assert!(!intervals_cover(&ivs, 15, 31));
    assert!(intervals_cover(&ivs, 25, 25));
    assert!(!intervals_cover(&vec![], 0, 1));
    assert!(!intervals_cover(&ivs, 19, 21));
}

#[test]
fn instants_outside_the_rule_years_are_not_covered() {
    let cal = Calendar::parse(WEEKDAYS).unwrap();
    assert!(!cal.is_available_between(-500_000_000_000, -499_999_000_000));
    assert!(!cal.is_available_between(300_000_000_000, 300_000_003_600));
    // An empty interval is always covered.
    assert!(cal.is_available_between(THURSDAY + 20 * HOUR, THURSDAY + 20 * HOUR));
}
