//! Events with a day by which something is due.

use vstd::prelude::*;

verus! {

/// Something that is due on a day. Days are counted as the calendar counts
/// them from the first of January of the year 1, which is day 1.
pub struct ImportantEvent {
    pub what: String,
    pub when: i32,
}

/// Something that can be due.
pub trait Deadline {
    /// Whether it is due by now.
    fn is_passed(&self) -> bool;
}

/// `chrono::Local::today`, then the date's day number as
/// `Datelike::num_days_from_ce` counts it. The contract promises nothing of
/// the day: it depends on the clock and on the time zone of the machine.
#[verifier::external_body]
#[allow(deprecated)]
fn today() -> (day: i32) {
    chrono::Datelike::num_days_from_ce(&chrono::Local::today().naive_local())
}

impl ImportantEvent {
    /// An event due on the day `when`.
    pub fn new(what: String, when: i32) -> (event: ImportantEvent)
        ensures
            event.what == what,
            event.when == when,
    {
        ImportantEvent { what, when }
    }

    /// The event is due on the day `today`: that day is its day, or a later
    /// one.
    pub open spec fn passed_on(&self, today: i32) -> bool {
        today >= self.when
    }

    /// Whether the event is due on the day `today`.
    pub fn is_passed_on(&self, today: i32) -> (passed: bool)
        ensures
            passed == self.passed_on(today),
    {
        today >= self.when
    }
}

impl Deadline for ImportantEvent {
    /// Whether the event is due today, by the clock of the machine.
    fn is_passed(&self) -> (passed: bool)
        ensures
            exists|day: i32| passed == self.passed_on(day),
    {
        let day = today();
        let passed = self.is_passed_on(day);
        assert(passed == self.passed_on(day));
        passed
    }
}

} // verus!
