//! The call into `icalendar` that reads a calendar.

use chrono::Datelike;
use icalendar::Component;
use vstd::prelude::*;

use crate::calendar::{CalendarEntry, CalendarEntryView};
use crate::clock::{valid_day, CalendarDay};

verus! {

/// What icalendar reads of iCalendar text: `None` where `Calendar`'s
/// `FromStr` reports an error; otherwise, for each component of the
/// calendar in order, the summary, start day and description of an event,
/// or `None` for a component that is not an event. A function of the text
/// alone.
pub uninterp spec fn ical_components(text: Seq<char>) -> Option<Seq<Option<CalendarEntryView>>>;

/// What a component read holds.
pub open spec fn component_view(c: Option<CalendarEntry>) -> Option<CalendarEntryView> {
    match c {
        Some(e) => Some(e@),
        None => None,
    }
}

/// What the components read hold.
pub open spec fn component_views(v: Seq<Option<CalendarEntry>>) -> Seq<Option<CalendarEntryView>> {
    v.map_values(|c: Option<CalendarEntry>| component_view(c))
}

/// Whether every event's start day is one that chrono represents.
pub open spec fn components_well_formed(cs: Seq<Option<CalendarEntryView>>) -> bool {
    forall|i: int|
        0 <= i < cs.len() ==> ((#[trigger] cs[i]) matches Some(e) ==> (e.start matches Some(d)
            ==> valid_day(d)))
}

/// Reads iCalendar text with `icalendar::Calendar`'s `FromStr` and, for each
/// component in order, an event's `get_summary`, the day of `get_start`
/// (`DatePerhapsTime::date_naive`) and `get_description`, or `None` for a
/// component that is not an event. Claimed of icalendar: the result is a
/// function of the text alone (`ical_components`); of chrono: the start
/// days are days it represents. Which texts parse and what they hold is not
/// stated.
#[verifier::external_body]
pub(crate) fn read_calendar(text: &str) -> (r: Option<Vec<Option<CalendarEntry>>>)
    ensures
        r matches Some(v) ==> ical_components(text@) == Some(component_views(v@)),
        r is None ==> ical_components(text@) is None,
        r matches Some(v) ==> components_well_formed(component_views(v@)),
{
    let cal = text.parse::<icalendar::Calendar>().ok()?;
    Some(cal.components.iter().map(|c| match c {
        icalendar::CalendarComponent::Event(e) => Some(CalendarEntry {
            summary: e.get_summary().map(|s| s.to_string()),
            start: e.get_start().map(|s| s.date_naive()).map(|d| CalendarDay { year: d.year(), month: d.month(), day: d.day() }),
            description: e.get_description().map(|s| s.to_string()),
        }),
        _ => None,
    }).collect())
}

} // verus!
