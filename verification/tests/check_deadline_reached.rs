#![allow(deprecated)]

use chrono::{Datelike, Duration, Local};
use travel_planner::check_deadline_reached::{Deadline, ImportantEvent};

#[test]
fn in_past() {
    let event = ImportantEvent {
        what: String::from("friend's birthday"),
        when: (Local::today() - Duration::hours(25)).naive_local().num_days_from_ce(),
    };

    assert!(event.is_passed())
}

#[test]
fn in_future() {
    let event = ImportantEvent {
        what: String::from("friend's birthday"),
        when: (Local::today() + Duration::hours(25)).naive_local().num_days_from_ce(),
    };

    assert!(!event.is_passed())
}

#[test]
fn due_today_is_passed() {
    let first = ImportantEvent::new(
        String::from("tax return"),
        Local::today().naive_local().num_days_from_ce(),
    );
    let second = ImportantEvent::new(
        String::from("tax return"),
        Local::today().naive_local().num_days_from_ce(),
    );
    // Midnight may fall between the two readings of the clock, never twice.
    assert!(first.is_passed() || second.is_passed());
}

#[test]
fn passed_on_a_given_day() {
    let event = ImportantEvent::new(String::from("launch"), 738_000);
    assert_eq!(event.what, "launch");
    assert_eq!(event.when, 738_000);
    assert!(!event.is_passed_on(737_999));
    assert!(event.is_passed_on(738_000));
    assert!(event.is_passed_on(738_001));
    assert!(event.is_passed_on(i32::MAX));
    assert!(!event.is_passed_on(i32::MIN));
}
