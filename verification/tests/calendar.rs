use fscs_monitor_plus::calendar::{
    calendar_entries, upcoming_calendar_events, upcoming_events, CalendarEntry, CalendarError,
    CalendarStruct,
};
use fscs_monitor_plus::clock::{is_day_after, CalendarDay};

fn day(year: i32, month: u32, day: u32) -> CalendarDay {
    CalendarDay { year, month, day }
}

fn entry(summary: Option<&str>, start: Option<CalendarDay>) -> CalendarEntry {
    CalendarEntry {
        summary: summary.map(|s| s.to_string()),
        start,
        description: Some("Raum 25.12".to_string()),
    }
}

const ICS: &str = "BEGIN:VCALENDAR\r\nVERSION:2.0\r\nPRODID:test\r\nBEGIN:VEVENT\r\nUID:1\r\nSUMMARY:Spieleabend\r\nDTSTART:29990105T180000Z\r\nDESCRIPTION:Bring Spiele mit\r\nEND:VEVENT\r\nBEGIN:VEVENT\r\nUID:2\r\nSUMMARY:Altes Treffen\r\nDTSTART;VALUE=DATE:20000101\r\nEND:VEVENT\r\nBEGIN:VTODO\r\nUID:3\r\nSUMMARY:Aufgabe\r\nEND:VTODO\r\nEND:VCALENDAR\r\n";

#[test]
fn calendar_struct_holds_its_address() {
    let c = CalendarStruct { name: "FSCS Kalender".to_string(), url: "https://example.org/cal.ics".to_string() };
    assert_eq!(c.clone().url, c.url);
}

#[test]
fn days_compare_by_year_month_day() {
    assert!(is_day_after(&day(2025, 1, 1), &day(2024, 12, 31)));
    assert!(is_day_after(&day(2024, 3, 1), &day(2024, 2, 29)));
    assert!(is_day_after(&day(2024, 3, 6), &day(2024, 3, 5)));
    assert!(!is_day_after(&day(2024, 3, 5), &day(2024, 3, 5)));
    assert!(!is_day_after(&day(2023, 12, 31), &day(2024, 1, 1)));
}

#[test]
fn upcoming_lists_later_events() {
    let today = day(2025, 3, 5);
    let entries = vec![
        entry(Some("Heute"), Some(day(2025, 3, 5))),
        entry(Some("Morgen"), Some(day(2025, 3, 6))),
        entry(None, Some(day(2026, 1, 9))),
        entry(Some("Gestern"), Some(day(2025, 3, 4))),
    ];
    let events = upcoming_events(&entries, &today).unwrap();
    assert_eq!(events.len(), 2);
    assert_eq!(events[0].title, "Morgen");
    assert_eq!(events[0].start, "06.03.2025");
    assert_eq!(events[0].description, Some("Raum 25.12".to_string()));
    assert_eq!(events[1].title, "");
    assert_eq!(events[1].start, "09.01.2026");
}

#[test]
fn years_outside_four_digits() {
    let events = upcoming_events(&vec![entry(Some("a"), Some(day(12345, 7, 1))), entry(Some("b"), Some(day(987, 7, 1)))], &day(-5, 1, 1)).unwrap();
    assert_eq!(events[0].start, "01.07.+12345");
    assert_eq!(events[1].start, "01.07.0987");
    let events = upcoming_events(&vec![entry(Some("c"), Some(day(-44, 3, 15)))], &day(-100, 1, 1)).unwrap();
    assert_eq!(events[0].start, "15.03.-0044");
}

#[test]
fn event_without_start_fails() {
    let entries = vec![entry(Some("Vorbei"), Some(day(2000, 1, 1))), entry(Some("?"), None)];
    assert_eq!(upcoming_events(&entries, &day(2025, 3, 5)).unwrap_err(), CalendarError::MissingStart);
}

#[test]
fn reads_ical_text() {
    let entries = calendar_entries(ICS).unwrap();
    assert_eq!(entries.len(), 2);
    assert_eq!(entries[0].summary, Some("Spieleabend".to_string()));
    assert_eq!(entries[0].start, Some(day(2999, 1, 5)));
    assert_eq!(entries[0].description, Some("Bring Spiele mit".to_string()));
    assert_eq!(entries[1].start, Some(day(2000, 1, 1)));
    assert_eq!(entries[1].description, None);
    let events = upcoming_calendar_events(ICS).unwrap();
    assert_eq!(events.len(), 1);
    assert_eq!(events[0].title, "Spieleabend");
    assert_eq!(events[0].start, "05.01.2999");
}

#[test]
fn unparsable_text() {
    assert_eq!(
        calendar_entries("BEGIN:VCALENDAR\r\nBEGIN:VEVENT\r\nEND:VCALENDAR\r\n").unwrap_err(),
        CalendarError::Unparsable
    );
    assert_eq!(
        upcoming_calendar_events("BEGIN:VCALENDAR\r\nEND:VTODO\r\n").unwrap_err(),
        CalendarError::Unparsable
    );
}
