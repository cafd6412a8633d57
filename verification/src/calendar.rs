//! Calendars: the events still to come, read from iCalendar text.

use vstd::prelude::*;

use crate::ical::{component_view, component_views, components_well_formed, ical_components, read_calendar};
use crate::clock::{day_after, day_month_year, day_month_year_text, is_day_after, valid_day, CalendarDay};

verus! {

/// A calendar to show: its name and the address of its iCalendar export.
#[derive(Clone, Debug)]
pub struct CalendarStruct {
    pub name: String,
    pub url: String,
}

/// An event as the board lists it: its title, its first day written as
/// `%d.%m.%Y`, and its description.
#[derive(Clone, Debug)]
pub struct Event {
    pub title: String,
    pub start: String,
    pub description: Option<String>,
}

/// What a `Event` holds, as plain values.
pub struct EventView {
    pub title: Seq<char>,
    pub start: Seq<char>,
    pub description: Option<Seq<char>>,
}

impl View for Event {
    type V = EventView;

    open spec fn view(&self) -> EventView {
        EventView {
            title: self.title@,
            start: self.start@,
            description: match self.description {
                Some(d) => Some(d@),
                None => None,
            },
        }
    }
}

/// What a sequence of events holds.
pub open spec fn event_views(v: Seq<Event>) -> Seq<EventView> {
    v.map_values(|e: Event| e@)
}

/// What the board reads of an event of a calendar: its summary, the day it
/// starts (where its start can be read) and its description.
#[derive(Clone, Debug)]
pub struct CalendarEntry {
    pub summary: Option<String>,
    pub start: Option<CalendarDay>,
    pub description: Option<String>,
}

/// What a `CalendarEntry` holds, as plain values.
pub struct CalendarEntryView {
    pub summary: Option<Seq<char>>,
    pub start: Option<CalendarDay>,
    pub description: Option<Seq<char>>,
}

/// The characters of an optional string.
pub open spec fn text_view(s: Option<String>) -> Option<Seq<char>> {
    match s {
        Some(t) => Some(t@),
        None => None,
    }
}

impl View for CalendarEntry {
    type V = CalendarEntryView;

    open spec fn view(&self) -> CalendarEntryView {
        CalendarEntryView {
            summary: text_view(self.summary),
            start: self.start,
            description: text_view(self.description),
        }
    }
}

/// What a sequence of entries holds.
pub open spec fn entry_views(v: Seq<CalendarEntry>) -> Seq<CalendarEntryView> {
    v.map_values(|e: CalendarEntry| e@)
}

/// The entries of the events among `components`, in order: `None` stands
/// for a component that is not an event.
pub open spec fn event_entries(components: Seq<Option<CalendarEntryView>>) -> Seq<
    CalendarEntryView,
>
    decreases components.len(),
{
    if components.len() == 0 {
        Seq::empty()
    } else {
        let prev = event_entries(components.drop_last());
        match components.last() {
            Some(e) => prev.push(e),
            None => prev,
        }
    }
}

/// What the board reads of the events of iCalendar text, where icalendar
/// parses it.
pub open spec fn ical_entries(text: Seq<char>) -> Option<Seq<CalendarEntryView>> {
    match ical_components(text) {
        Some(cs) => Some(event_entries(cs)),
        None => None,
    }
}

/// Whether every entry has a start.
pub open spec fn all_started(entries: Seq<CalendarEntryView>) -> bool {
    forall|i: int| 0 <= i < entries.len() ==> (#[trigger] entries[i]).start is Some
}

/// Why a calendar could not be read.
#[derive(Clone, Copy, Debug, PartialEq, Eq)]
pub enum CalendarError {
    /// The text is not an iCalendar calendar.
    Unparsable,
    /// An event has no start that can be read.
    MissingStart,
}

/// Whether every entry that has a start has one that chrono can represent.
pub open spec fn entries_well_formed(entries: Seq<CalendarEntryView>) -> bool {
    forall|i: int|
        0 <= i < entries.len() ==> ((#[trigger] entries[i]).start matches Some(d) ==> valid_day(d))
}

/// The listed form of an entry that starts on `start`: an event without
/// summary gets an empty title.
pub open spec fn listed(e: CalendarEntryView, start: CalendarDay) -> EventView {
    EventView {
        title: match e.summary {
            Some(s) => s,
            None => Seq::empty(),
        },
        start: day_month_year_text(start),
        description: e.description,
    }
}

/// The events of `entries` that start after `today`, in order; the first
/// event without a start gives the error, whatever its place.
pub open spec fn upcoming(entries: Seq<CalendarEntryView>, today: CalendarDay) -> Result<
    Seq<EventView>,
    CalendarError,
>
    decreases entries.len(),
{
    if entries.len() == 0 {
        Ok(Seq::empty())
    } else {
        match upcoming(entries.drop_last(), today) {
            Err(e) => Err(e),
            Ok(prev) => match entries.last().start {
                None => Err(CalendarError::MissingStart),
                Some(d) => Ok(
                    if day_after(d, today) {
                        prev.push(listed(entries.last(), d))
                    } else {
                        prev
                    },
                ),
            },
        }
    }
}

proof fn lemma_upcoming_error(entries: Seq<CalendarEntryView>, today: CalendarDay, k: int)
    requires
        0 <= k <= entries.len(),
        upcoming(entries.take(k), today) is Err,
    ensures
        upcoming(entries, today) == upcoming(entries.take(k), today),
    decreases entries.len() - k,
{
    if k < entries.len() {
        assert(entries.take(k + 1).drop_last() =~= entries.take(k));
        lemma_upcoming_error(entries, today, k + 1);
    } else {
        assert(entries.take(k) =~= entries);
    }
}

/// An owned copy of an optional string.
fn copy_text(s: &Option<String>) -> (r: Option<String>)
    ensures
        match (s, r) {
            (Some(a), Some(b)) => a@ == b@,
            (None, None) => true,
            _ => false,
        },
{
    match s {
        Some(t) => Some(t.clone()),
        None => None,
    }
}

/// The events that start after `today`, as the board lists them.
pub fn upcoming_events(entries: &Vec<CalendarEntry>, today: &CalendarDay) -> (r: Result<
    Vec<Event>,
    CalendarError,
>)
    requires
        entries_well_formed(entry_views(entries@)),
    ensures
        match r {
            Ok(v) => upcoming(entry_views(entries@), *today) == Ok::<
                Seq<EventView>,
                CalendarError,
            >(event_views(v@)),
            Err(e) => upcoming(entry_views(entries@), *today) == Err::<
                Seq<EventView>,
                CalendarError,
            >(e),
        },
{
    let ghost all = entry_views(entries@);
    let mut events: Vec<Event> = Vec::new();
    let mut i: usize = 0;
    assert(all.take(0) =~= Seq::<CalendarEntryView>::empty());
    assert(event_views(events@) =~= Seq::<EventView>::empty());
    while i < entries.len()
        invariant
            0 <= i <= entries.len(),
            all == entry_views(entries@),
            entries_well_formed(all),
            upcoming(all.take(i as int), *today) == Ok::<Seq<EventView>, CalendarError>(
                event_views(events@),
            ),
        decreases entries.len() - i,
    {
        let entry = &entries[i];
        proof {
            assert(all.take(i + 1).drop_last() =~= all.take(i as int));
            assert(all.take(i + 1).last() == all[i as int]);
            assert(all[i as int] == entry@);
        }
        match &entry.start {
            None => {
                proof {
                    lemma_upcoming_error(all, *today, i + 1);
                }
                return Err(CalendarError::MissingStart);
            },
            Some(day) => {
                if is_day_after(day, today) {
                    assert(valid_day(*day));
                    let title = match &entry.summary {
                        Some(s) => s.clone(),
                        None => String::new(),
                    };
                    let start = day_month_year(day);
                    let description = copy_text(&entry.description);
                    let event = Event { title, start, description };
                    let ghost before = event_views(events@);
                    events.push(event);
                    assert(event_views(events@) =~= before.push(listed(entry@, *day)));
                }
            },
        }
        i = i + 1;
    }
    assert(all.take(i as int) =~= all);
    Ok(events)
}

/// Reads the events of iCalendar text: for each component that is an
/// event, in order, its summary, the day it starts and its description.
/// The entries come exactly when icalendar parses the text, and are what
/// it reads (`ical_entries`); the only error is text that does not parse.
pub fn calendar_entries(text: &str) -> (r: Result<Vec<CalendarEntry>, CalendarError>)
    ensures
        r matches Ok(v) ==> entries_well_formed(entry_views(v@)),
        r matches Ok(v) ==> ical_entries(text@) == Some(entry_views(v@)),
        r matches Err(e) ==> e == CalendarError::Unparsable,
        r is Err <==> ical_entries(text@) is None,
{
    let mut parts = match read_calendar(text) {
        Some(c) => c,
        None => return Err(CalendarError::Unparsable),
    };
    let ghost all = component_views(parts@);
    let mut entries: Vec<CalendarEntry> = Vec::new();
    let ghost mut k: int = 0;
    assert(all.take(0) =~= Seq::<Option<CalendarEntryView>>::empty());
    assert(entry_views(entries@) =~= Seq::<CalendarEntryView>::empty());
    assert(component_views(parts@) =~= all.skip(0));
    while parts.len() > 0
        invariant
            0 <= k <= all.len(),
            ical_components(text@) == Some(all),
            components_well_formed(all),
            component_views(parts@) == all.skip(k),
            entry_views(entries@) == event_entries(all.take(k)),
            entries_well_formed(entry_views(entries@)),
        decreases parts.len(),
    {
        let ghost before_parts = parts@;
        assert(component_views(before_parts).len() == before_parts.len());
        assert(k < all.len());
        let part = parts.remove(0);
        assert(component_views(before_parts)[0] == all.skip(k)[0]);
        assert(all.take(k + 1).drop_last() =~= all.take(k));
        assert(all.take(k + 1).last() == all[k]);
        assert(component_view(part) == all[k]);
        match part {
            Some(entry) => {
                let ghost before = entry_views(entries@);
                entries.push(entry);
                assert(entry_views(entries@) =~= before.push(entry@));
                assert(all[k] matches Some(e) && (e.start matches Some(d) ==> valid_day(d)));
            },
            None => {},
        }
        assert(component_views(parts@) =~= component_views(before_parts).skip(1));
        assert(all.skip(k).skip(1) =~= all.skip(k + 1));
        proof {
            k = k + 1;
        }
    }
    assert(all.take(k) =~= all);
    Ok(entries)
}

/// The events still to come in iCalendar text, as the board lists them:
/// those of the entries icalendar reads (`ical_entries`) that start after
/// today's date in UTC. Unparsable text gives `Unparsable`; an event
/// without a start gives `MissingStart`, whatever the day.
pub fn upcoming_calendar_events(text: &str) -> (r: Result<Vec<Event>, CalendarError>)
    ensures
        r matches Ok(v) ==> exists|today: CalendarDay|
            valid_day(today) && ical_entries(text@) is Some && #[trigger] upcoming(
                ical_entries(text@).unwrap(),
                today,
            ) == Ok::<Seq<EventView>, CalendarError>(event_views(v@)),
        (r matches Err(e) && e == CalendarError::Unparsable) <==> ical_entries(text@) is None,
        (r matches Err(e) && e == CalendarError::MissingStart) <==> (ical_entries(text@) is Some
            && !all_started(ical_entries(text@).unwrap())),
{
    let entries = match calendar_entries(text) {
        Ok(v) => v,
        Err(e) => return Err(e),
    };
    let today = crate::clock::utc_today();
    let r = upcoming_events(&entries, &today);
    proof {
        lemma_upcoming_fails_without_start(entry_views(entries@), today);
    }
    assert(ical_entries(text@).unwrap() == entry_views(entries@));
    assert(valid_day(today));
    assert(upcoming(ical_entries(text@).unwrap(), today) == upcoming(entry_views(entries@), today));
    r
}

/// The events fail to list exactly when an entry has no start, and then
/// with `MissingStart`.
pub proof fn lemma_upcoming_fails_without_start(entries: Seq<CalendarEntryView>, today: CalendarDay)
    ensures
        upcoming(entries, today) is Err <==> !all_started(entries),
        upcoming(entries, today) matches Err(e) ==> e == CalendarError::MissingStart,
    decreases entries.len(),
{
    if entries.len() > 0 {
        let init = entries.drop_last();
        lemma_upcoming_fails_without_start(init, today);
        if !all_started(init) {
            let i = choose|i: int| 0 <= i < init.len() && (#[trigger] init[i]).start is None;
            assert(entries[i] == init[i]);
        }
        if all_started(init) && entries.last().start is Some {
            assert forall|i: int| 0 <= i < entries.len() implies (#[trigger] entries[i]).start is Some by {
                if i < init.len() {
                    assert(entries[i] == init[i]);
                }
            }
        }
    }
}

/// Every event that the board lists is an event of the calendar that
/// starts after today, listed as `listed` writes it, and the list is no
/// longer than the calendar.
pub proof fn lemma_upcoming_start_after_today(entries: Seq<CalendarEntryView>, today: CalendarDay)
    ensures
        upcoming(entries, today) matches Ok(s) ==> {
            &&& s.len() <= entries.len()
            &&& forall|i: int|
                0 <= i < s.len() ==> exists|j: int, d: CalendarDay|
                    0 <= j < entries.len() && entries[j].start == Some(d) && day_after(d, today)
                        && #[trigger] s[i] == listed(entries[j], d)
        },
    decreases entries.len(),
{
    if entries.len() > 0 {
        let init = entries.drop_last();
        lemma_upcoming_start_after_today(init, today);
        if let Ok(s) = upcoming(entries, today) {
            let prev = upcoming(init, today)->Ok_0;
            assert forall|i: int| 0 <= i < s.len() implies exists|j: int, d: CalendarDay|
                0 <= j < entries.len() && entries[j].start == Some(d) && day_after(d, today)
                    && #[trigger] s[i] == listed(entries[j], d) by {
                if i < prev.len() {
                    assert(s[i] == prev[i]);
                    let (j, d) = choose|j: int, d: CalendarDay|
                        0 <= j < init.len() && init[j].start == Some(d) && day_after(d, today)
                            && #[trigger] prev[i] == listed(init[j], d);
                    assert(entries[j] == init[j]);
                } else {
                    let j = entries.len() - 1;
                    assert(entries[j] == entries.last());
                }
            }
        }
    }
}

/// The list misses no event: every entry that starts after today is
/// listed, whatever its summary or description.
pub proof fn lemma_upcoming_complete(entries: Seq<CalendarEntryView>, today: CalendarDay, j: int)
    requires
        0 <= j < entries.len(),
        entries[j].start is Some,
        day_after(entries[j].start->Some_0, today),
        upcoming(entries, today) is Ok,
    ensures
        upcoming(entries, today)->Ok_0.contains(listed(entries[j], entries[j].start->Some_0)),
    decreases entries.len(),
{
    let init = entries.drop_last();
    let s = upcoming(entries, today)->Ok_0;
    let x = listed(entries[j], entries[j].start->Some_0);
    if j == entries.len() - 1 {
        assert(entries.last() == entries[j]);
        assert(s[s.len() - 1] == x);
    } else {
        assert(init[j] == entries[j]);
        lemma_upcoming_complete(init, today, j);
        let prev = upcoming(init, today)->Ok_0;
        let k = choose|k: int| 0 <= k < prev.len() && prev[k] == x;
        assert(s[k] == prev[k]);
    }
}

/// Whether an entry starts after `today`.
pub open spec fn starts_after(e: CalendarEntryView, today: CalendarDay) -> bool {
    e.start is Some && day_after(e.start->Some_0, today)
}

/// Where every entry has a start, the list holds one event for each entry
/// that starts after today, in the order of the entries.
pub proof fn lemma_upcoming_counts(entries: Seq<CalendarEntryView>, today: CalendarDay)
    requires
        all_started(entries),
    ensures
        upcoming(entries, today) is Ok,
        upcoming(entries, today)->Ok_0 == entries.filter(|e: CalendarEntryView| starts_after(e, today))
            .map_values(|e: CalendarEntryView| listed(e, e.start->Some_0)),
    decreases entries.len(),
{
    let pred = |e: CalendarEntryView| starts_after(e, today);
    let f = |e: CalendarEntryView| listed(e, e.start->Some_0);
    reveal(Seq::filter);
    if entries.len() == 0 {
        assert(entries.filter(pred) =~= Seq::<CalendarEntryView>::empty());
        assert(entries.filter(pred).map_values(f) =~= Seq::<EventView>::empty());
    } else {
        let init = entries.drop_last();
        assert forall|i: int| 0 <= i < init.len() implies (#[trigger] init[i]).start is Some by {
            assert(init[i] == entries[i]);
        }
        lemma_upcoming_counts(init, today);
        assert(entries.last() == entries[entries.len() - 1]);
        let prev = init.filter(pred);
        assert(entries.filter(pred) == if pred(entries.last()) {
            prev.push(entries.last())
        } else {
            prev
        });
        if pred(entries.last()) {
            assert(prev.push(entries.last()).map_values(f) =~= prev.map_values(f).push(
                f(entries.last()),
            ));
        }
    }
}

/// An event is listed under its summary (an empty title without one), its
/// first day written as `%d.%m.%Y`, and its description as given, present
/// or not.
pub proof fn lemma_listed_fields(e: CalendarEntryView, start: CalendarDay)
    ensures
        e.summary matches Some(t) ==> listed(e, start).title == t,
        e.summary is None ==> listed(e, start).title.len() == 0,
        listed(e, start).start == day_month_year_text(start),
        listed(e, start).description == e.description,
{
}

} // verus!
