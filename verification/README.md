# fscs_monitor_plus

A departure monitor for a university's student council room: the next
trains at four stops, today's canteen menu and the upcoming events of the
council's calendar.

- `src/` is the verified library (Verus):
  - `text`: decimal numerals, reading `i32` numerals, searching, trimming
    and cutting strings, and the order of strings.
  - `clock`: calendar days, seconds since 1970, and the calls into `chrono`
    that read the clock and read and write dates.
  - `trains`: the timetable request, the board's entry for a departure, its
    order (by departure, then line; stable) and its selection (at most ten
    trains, more than five minutes away).
  - `mensa`: the day whose menu is shown (the local clock read up to three
    times; less than two days before and four after the instant, and a
    Monday to Friday where the zone's offset stays the same meanwhile),
    the menu page's address, and the dishes read from the counters of that
    day's block: `scraper` parses the page and reports the block's elements
    as plain values, and the counters, their lists and pictures are found
    among them by verified code.
  - `calendar`: the events still to come, read from iCalendar text (through
    `icalendar`, in the private module `ical`).
- `app/` fetches the pages over HTTP, parses the timetable's JSON and prints
  the board every five seconds.
- `tests/` runs the library on concrete values.
