//! The canteen's menu: which day to show, the page to ask for, and the
//! dishes read from the counters of that day.

use scraper::{Html, Selector};
use vstd::prelude::*;

use crate::clock::{
    day_holds, day_month_year, day_month_year_text, day_number, first_second, last_second, local_time_at,
    reads_at, valid_day, weekday_of, year_text, zero_padded, CalendarDay, LocalTime,
};
use crate::text::{
    all_digits, blank, contains, contains_text, decimal_text, is_blank, is_digit, lemma_decimal_digits, strip_prefix, strip_suffix, without_prefix,
    without_suffix,
};

verus! {

/// A canteen and its menu.
#[derive(Clone, Debug)]
pub struct Mensa {
    pub name: String,
    pub speiseplan: Vec<Essen>,
    pub id: String,
}

/// A dish: its name, whether it is vegan, and the address of its picture.
#[derive(Clone, Debug)]
pub struct Essen {
    pub name: String,
    pub vegan: bool,
    pub thumbnail: String,
}

/// What an `Essen` holds, as plain values.
pub struct EssenView {
    pub name: Seq<char>,
    pub vegan: bool,
    pub thumbnail: Seq<char>,
}

impl View for Essen {
    type V = EssenView;

    open spec fn view(&self) -> EssenView {
        EssenView { name: self.name@, vegan: self.vegan, thumbnail: self.thumbnail@ }
    }
}

/// What a sequence of dishes holds.
pub open spec fn essen_views(v: Seq<Essen>) -> Seq<EssenView> {
    v.map_values(|e: Essen| e@)
}

impl Mensa {
    /// A canteen with no name, no id and an empty menu.
    pub fn default() -> (m: Mensa)
        ensures
            m.name@ == Seq::<char>::empty(),
            m.speiseplan@ == Seq::<Essen>::empty(),
            m.id@ == Seq::<char>::empty(),
    {
        Mensa { name: String::new(), speiseplan: Vec::new(), id: String::new() }
    }
}

/// What the menu page shows of one counter: for each child element of the
/// counter that holds a list, the text pieces of its first list; and the
/// `style` of the counter's first picture, where it has one.
#[derive(Clone, Debug)]
pub struct CounterTable {
    pub menu_texts: Vec<Vec<String>>,
    pub thumbnail_style: Option<String>,
}

/// Why the menu could not be read.
#[derive(Clone, Copy, Debug, PartialEq, Eq)]
pub enum MensaError {
    /// A counter's list has fewer than two text pieces, so no dish name.
    MissingName,
    /// A picture's style is not of the form `background-image: url(...)`.
    BadThumbnail,
    /// A CSS selector could not be parsed.
    BadSelector,
    /// The clock cannot tell the day.
    ClockOutOfRange,
}

/// The text that a dish's picture style starts with.
pub open spec fn thumbnail_prefix() -> Seq<char> {
    "background-image: url("@
}

/// The characters of a sequence of strings.
pub open spec fn texts_view(v: Seq<String>) -> Seq<Seq<char>> {
    v.map_values(|s: String| s@)
}

/// The characters of a sequence of lists of strings.
pub open spec fn lists_view(v: Seq<Vec<String>>) -> Seq<Seq<Seq<char>>> {
    v.map_values(|l: Vec<String>| texts_view(l@))
}

/// The characters of an optional string.
pub open spec fn style_view(s: Option<String>) -> Option<Seq<char>> {
    match s {
        Some(t) => Some(t@),
        None => None,
    }
}

/// What a `CounterTable` holds, as plain values.
pub struct CounterTableView {
    pub menu_texts: Seq<Seq<Seq<char>>>,
    pub thumbnail_style: Option<Seq<char>>,
}

impl View for CounterTable {
    type V = CounterTableView;

    open spec fn view(&self) -> CounterTableView {
        CounterTableView {
            menu_texts: lists_view(self.menu_texts@),
            thumbnail_style: style_view(self.thumbnail_style),
        }
    }
}

/// What a sequence of counters holds.
pub open spec fn counter_views(v: Seq<CounterTable>) -> Seq<CounterTableView> {
    v.map_values(|c: CounterTable| c@)
}

/// Whether every list of texts names a dish: it has a second text piece.
pub open spec fn lists_named(lists: Seq<Seq<Seq<char>>>) -> bool {
    forall|i: int| 0 <= i < lists.len() ==> (#[trigger] lists[i]).len() >= 2
}

/// Whether every text piece that is not blank carries the vegan mark `[V]`.
pub open spec fn all_marked_vegan(texts: Seq<Seq<char>>) -> bool {
    forall|j: int|
        0 <= j < texts.len() ==> !is_blank(#[trigger] texts[j]) ==> contains_text(texts[j], "[V]"@)
}

/// The picture address in a style `background-image: url(ADDRESS)`; an
/// empty address where there is no style.
pub open spec fn thumbnail_of(style: Option<Seq<char>>) -> Option<Seq<char>> {
    match style {
        None => Some(Seq::empty()),
        Some(s) => match without_prefix(s, thumbnail_prefix()) {
            None => None,
            Some(t) => without_suffix(t, ")"@),
        },
    }
}

/// The dish of a counter: named by the second text piece of its last list,
/// vegan when every piece of that list that is not blank carries `[V]`; a
/// counter without lists gives an unnamed vegan dish.
pub open spec fn essen_of(c: CounterTableView) -> Result<EssenView, MensaError> {
    let lists = c.menu_texts;
    if !lists_named(lists) {
        Err(MensaError::MissingName)
    } else {
        match thumbnail_of(c.thumbnail_style) {
            None => Err(MensaError::BadThumbnail),
            Some(thumbnail) => Ok(
                EssenView {
                    name: if lists.len() == 0 {
                        Seq::empty()
                    } else {
                        lists.last()[1]
                    },
                    vegan: if lists.len() == 0 {
                        true
                    } else {
                        all_marked_vegan(lists.last())
                    },
                    thumbnail,
                },
            ),
        }
    }
}

/// A dish is vegan exactly when no piece of text of its counter's last list,
/// at any position, is both not blank and without the mark `[V]`.
pub proof fn lemma_vegan_marks(c: CounterTableView)
    requires
        essen_of(c) is Ok,
        c.menu_texts.len() > 0,
    ensures
        essen_of(c)->Ok_0.vegan <==> !exists|j: int|
            0 <= j < c.menu_texts.last().len() && !is_blank(#[trigger] c.menu_texts.last()[j])
                && !contains_text(c.menu_texts.last()[j], "[V]"@),
{
}

/// A dish is named by the second piece of text of its counter's last list,
/// and a counter without a picture gives it no picture address.
pub proof fn lemma_dish_name(c: CounterTableView)
    requires
        essen_of(c) is Ok,
    ensures
        c.menu_texts.len() > 0 ==> c.menu_texts.last().len() >= 2 && essen_of(c)->Ok_0.name
            == c.menu_texts.last()[1],
        c.menu_texts.len() == 0 ==> essen_of(c)->Ok_0.name.len() == 0 && essen_of(c)->Ok_0.vegan,
        c.thumbnail_style is None ==> essen_of(c)->Ok_0.thumbnail.len() == 0,
{
    if c.menu_texts.len() > 0 {
        assert(c.menu_texts.last() == c.menu_texts[c.menu_texts.len() - 1]);
    }
}

/// A picture styled `background-image: url(ADDRESS)` gives the dish the
/// address `ADDRESS`, whatever it holds.
pub proof fn lemma_thumbnail_address(address: Seq<char>)
    ensures
        thumbnail_of(Some("background-image: url("@ + address + ")"@)) == Some(address),
{
    reveal_strlit("background-image: url(");
    reveal_strlit(")");
    let p = "background-image: url("@;
    let s = p + address + ")"@;
    assert(s.take(p.len() as int) =~= p);
    let t = s.skip(p.len() as int);
    assert(t =~= address + ")"@);
    assert(t.skip(t.len() - 1) =~= ")"@);
    assert(t.take(t.len() - 1) =~= address);
}

/// Whether every non-blank text piece carries `[V]`.
fn marked_vegan(texts: &Vec<String>) -> (r: bool)
    ensures
        r == all_marked_vegan(texts_view(texts@)),
{
    let ghost tv = texts_view(texts@);
    let mut i: usize = 0;
    while i < texts.len()
        invariant
            0 <= i <= texts.len(),
            tv == texts_view(texts@),
            forall|j: int|
                0 <= j < i ==> !is_blank(#[trigger] tv[j]) ==> contains_text(tv[j], "[V]"@),
        decreases texts.len() - i,
    {
        assert(tv[i as int] == texts@[i as int]@);
        if !blank(texts[i].as_str()) && !contains(texts[i].as_str(), "[V]") {
            return false;
        }
        i = i + 1;
    }
    true
}

/// The dish that a counter shows.
pub fn essen_from_counter(c: &CounterTable) -> (r: Result<Essen, MensaError>)
    ensures
        match r {
            Ok(e) => essen_of(c@) == Ok::<EssenView, MensaError>(e@),
            Err(err) => essen_of(c@) == Err::<EssenView, MensaError>(err),
        },
{
    let ghost lists = c@.menu_texts;
    let mut name = String::new();
    let mut vegan = true;
    let mut i: usize = 0;
    let n = c.menu_texts.len();
    while i < n
        invariant
            n == c.menu_texts@.len(),
            lists == c@.menu_texts,
            0 <= i <= n,
            forall|k: int| 0 <= k < i ==> (#[trigger] lists[k]).len() >= 2,
            i == 0 ==> name@ == Seq::<char>::empty() && vegan,
            i > 0 ==> name@ == lists[i - 1][1] && vegan == all_marked_vegan(lists[i - 1]),
        decreases n - i,
    {
        let texts = &c.menu_texts[i];
        assert(lists[i as int] == texts_view(texts@));
        if texts.len() < 2 {
            assert(!lists_named(lists));
            return Err(MensaError::MissingName);
        }
        name = texts[1].clone();
        vegan = marked_vegan(texts);
        i = i + 1;
    }
    let thumbnail = match &c.thumbnail_style {
        None => String::new(),
        Some(style) => {
            proof {
                reveal_strlit("background-image: url(");
            }
            match strip_prefix(style.as_str(), "background-image: url(") {
                None => return Err(MensaError::BadThumbnail),
                Some(inner) => match strip_suffix(inner.as_str(), ")") {
                    None => return Err(MensaError::BadThumbnail),
                    Some(address) => address,
                },
            }
        },
    };
    Ok(Essen { name, vegan, thumbnail })
}

/// The dishes of the counters, in their order; the first counter that
/// cannot be read gives the error.
pub open spec fn menu_of(counters: Seq<CounterTableView>) -> Result<Seq<EssenView>, MensaError>
    decreases counters.len(),
{
    if counters.len() == 0 {
        Ok(Seq::empty())
    } else {
        match menu_of(counters.drop_last()) {
            Err(e) => Err(e),
            Ok(prev) => match essen_of(counters.last()) {
                Err(e) => Err(e),
                Ok(d) => Ok(prev.push(d)),
            },
        }
    }
}

proof fn lemma_menu_error(counters: Seq<CounterTableView>, k: int)
    requires
        0 <= k <= counters.len(),
        menu_of(counters.take(k)) is Err,
    ensures
        menu_of(counters) == menu_of(counters.take(k)),
    decreases counters.len() - k,
{
    if k < counters.len() {
        assert(counters.take(k + 1).drop_last() =~= counters.take(k));
        lemma_menu_error(counters, k + 1);
    } else {
        assert(counters.take(k) =~= counters);
    }
}

/// The menu that the counters show.
pub fn menu_from_counters(counters: &Vec<CounterTable>) -> (r: Result<Vec<Essen>, MensaError>)
    ensures
        match r {
            Ok(v) => menu_of(counter_views(counters@)) == Ok::<Seq<EssenView>, MensaError>(
                essen_views(v@),
            ),
            Err(e) => menu_of(counter_views(counters@)) == Err::<Seq<EssenView>, MensaError>(e),
        },
{
    let ghost cv = counter_views(counters@);
    let mut menu: Vec<Essen> = Vec::new();
    let mut i: usize = 0;
    assert(cv.take(0) =~= Seq::<CounterTableView>::empty());
    assert(essen_views(menu@) =~= Seq::<EssenView>::empty());
    while i < counters.len()
        invariant
            0 <= i <= counters.len(),
            cv == counter_views(counters@),
            menu_of(cv.take(i as int)) == Ok::<Seq<EssenView>, MensaError>(essen_views(menu@)),
        decreases counters.len() - i,
    {
        proof {
            assert(cv.take(i + 1).drop_last() =~= cv.take(i as int));
            assert(cv.take(i + 1).last() == counters@[i as int]@);
        }
        match essen_from_counter(&counters[i]) {
            Ok(e) => {
                let ghost before = essen_views(menu@);
                menu.push(e);
                assert(essen_views(menu@) =~= before.push(e@));
            },
            Err(err) => {
                proof {
                    lemma_menu_error(cv, i + 1);
                }
                return Err(err);
            },
        }
        i = i + 1;
    }
    assert(cv.take(i as int) =~= cv);
    Ok(menu)
}

/// The address of the menu page of canteen `id`.
pub open spec fn menu_url_text(id: Seq<char>) -> Seq<char> {
    "https://www.stw-d.de/en/speiseplaene/"@ + id + "/"@
}

/// The address of the menu page of a canteen.
pub fn menu_url(id: &str) -> (r: String)
    ensures
        r@ == menu_url_text(id@),
{
    let mut url = String::from_str("https://www.stw-d.de/en/speiseplaene/");
    url.append(id);
    url.append("/");
    url
}

/// The CSS selector of the block of day `label` on the menu page.
pub open spec fn day_selector_text(label: Seq<char>) -> Seq<char> {
    "div[data-date=\""@ + label + "\"]"@
}

/// The CSS selector of the block of a day on the menu page.
pub fn day_selector(label: &str) -> (r: String)
    ensures
        r@ == day_selector_text(label@),
{
    let mut sel = String::from_str("div[data-date=\"");
    sel.append(label);
    sel.append("\"]");
    sel
}

/// Days to skip because the canteen has closed for today: one from 14:30
/// on, read as the hour being at least 14 and the minute at least 30.
pub open spec fn closing_shift(hour: u32, minute: u32) -> int {
    if hour >= 14 && minute >= 30 {
        1
    } else {
        0
    }
}

/// Days to skip a weekend: two from a Saturday or a Sunday (weekday 5 or 6
/// counted from Monday).
pub open spec fn weekend_shift(weekday: u32) -> int {
    if weekday == 5 || weekday == 6 {
        2
    } else {
        0
    }
}

/// The days to skip because the canteen has closed for today.
pub fn closing_shift_days(hour: u32, minute: u32) -> (r: i64)
    ensures
        r == closing_shift(hour, minute),
{
    if hour >= 14 && minute >= 30 {
        1
    } else {
        0
    }
}

/// The days to skip over a weekend.
pub fn weekend_shift_days(weekday: u32) -> (r: i64)
    ensures
        r == weekend_shift(weekday),
{
    if weekday == 5 || weekday == 6 {
        2
    } else {
        0
    }
}

/// `t` moved by `days` days of 86400 seconds, where that fits an `i64`.
pub open spec fn shifted(t: int, days: int) -> Option<i64> {
    if i64::MIN <= t + days * 86400 <= i64::MAX {
        Some((t + days * 86400) as i64)
    } else {
        None
    }
}

/// The instant to read the menu's day at, given the local reading of `now`:
/// a day later once the canteen has closed.
pub fn closing_instant(now: i64, reading: &LocalTime) -> (r: Option<i64>)
    ensures
        r == shifted(now as int, closing_shift(reading.hour, reading.minute)),
{
    let days = closing_shift_days(reading.hour, reading.minute);
    now.checked_add(days * 86400)
}

/// The instant to read the menu's day at, given the local reading of `t`:
/// two days later where `t` falls on a weekend.
pub fn weekend_instant(t: i64, reading: &LocalTime) -> (r: Option<i64>)
    ensures
        r == shifted(t as int, weekend_shift(reading.weekday)),
{
    let days = weekend_shift_days(reading.weekday);
    t.checked_add(days * 86400)
}

/// Whether `d` is the day shown at `now` after these readings of the local
/// clock: `first` of `now` in a zone `o1` seconds ahead of UTC; `second` of
/// `later`, a day after `now` once the canteen has closed by `first`, at
/// offset `o2`; and the day of `shown`, two days after `later` where
/// `second` falls on a weekend, at offset `o3`.
pub open spec fn menu_day_reading(
    now: int,
    d: CalendarDay,
    first: LocalTime,
    o1: int,
    second: LocalTime,
    o2: int,
    o3: int,
) -> bool {
    let later = now + closing_shift(first.hour, first.minute) * 86400;
    let shown = later + weekend_shift(second.weekday) * 86400;
    &&& reads_at(first, now, o1)
    &&& reads_at(second, later, o2)
    &&& day_holds(d, shown, o3)
}

/// Whether `d` is a day that the menu can show at `now`: a day of chrono's
/// range reached from `now` by some readings of the local clock.
pub open spec fn is_menu_day(now: int, d: CalendarDay) -> bool {
    &&& valid_day(d)
    &&& exists|first: LocalTime, o1: int, second: LocalTime, o2: int, o3: int|
        #[trigger] menu_day_reading(now, d, first, o1, second, o2, o3)
}

/// The day whose menu is shown, at the instant `now` seconds after
/// 1970-01-01 UTC: the local clock is read at `now`; `closing_instant` of
/// that reading is read again; `weekend_instant` of the second reading is
/// read a third time, and its day is shown. The day is found whenever `now`
/// lies a day inside chrono's range and four days before its end; it is
/// missing whenever `now` lies outside that range, or the day read falls
/// outside it. The day lies less than two days before `now` and less than
/// four after it.
pub fn menu_day(now: i64) -> (r: Result<CalendarDay, MensaError>)
    ensures
        r matches Ok(d) ==> is_menu_day(now as int, d),
        r matches Ok(d) ==> now - 2 * 86400 < day_number(d) * 86400 < now + 4 * 86400,
        r matches Err(e) ==> e == MensaError::ClockOutOfRange,
        first_second() + 86400 <= now <= last_second() - 4 * 86400 ==> r is Ok,
        !(first_second() <= now <= last_second()) ==> r is Err,
{
    let first = match local_time_at(now) {
        Some(t) => t,
        None => return Err(MensaError::ClockOutOfRange),
    };
    let ghost o1 = choose|o: int| reads_at(first, now as int, o);
    let later = match closing_instant(now, &first) {
        Some(t) => t,
        None => return Err(MensaError::ClockOutOfRange),
    };
    let second = match local_time_at(later) {
        Some(t) => t,
        None => return Err(MensaError::ClockOutOfRange),
    };
    let ghost o2 = choose|o: int| reads_at(second, later as int, o);
    let shown = match weekend_instant(later, &second) {
        Some(t) => t,
        None => return Err(MensaError::ClockOutOfRange),
    };
    match local_time_at(shown) {
        Some(t) => if -262143 <= t.date.year && t.date.year <= 262142 {
            let ghost o3 = choose|o: int| reads_at(t, shown as int, o);
            proof {
                lemma_reading_day(t, shown as int, o3);
                assert(menu_day_reading(now as int, t.date, first, o1, second, o2, o3));
            }
            Ok(t.date)
        } else {
            Err(MensaError::ClockOutOfRange)
        },
        None => Err(MensaError::ClockOutOfRange),
    }
}

/// The day of a reading holds the instant read.
proof fn lemma_reading_day(t: LocalTime, x: int, o: int)
    requires
        reads_at(t, x, o),
    ensures
        day_holds(t.date, x, o),
{
    assert(t.hour * 3600 + t.minute * 60 <= 86340);
}

/// Days that hold instants `k` days apart at one offset are `k` days apart.
proof fn lemma_days_apart(d1: CalendarDay, d2: CalendarDay, x: int, o: int, k: int)
    requires
        day_holds(d1, x, o),
        day_holds(d2, x + k * 86400, o),
    ensures
        day_number(d2) == day_number(d1) + k,
{
    let n1 = day_number(d1);
    let n2 = day_number(d2);
    assert((n2 - k) * 86400 <= x + o < (n2 - k) * 86400 + 86400);
    if n2 - k < n1 {
        assert((n2 - k) * 86400 + 86400 <= n1 * 86400);
    } else if n2 - k > n1 {
        assert(n1 * 86400 + 86400 <= (n2 - k) * 86400);
    }
}

/// The weekday of a day `k` days later moves by `k`.
proof fn lemma_weekday_after(d1: CalendarDay, d2: CalendarDay, k: int)
    requires
        day_number(d2) == day_number(d1) + k,
    ensures
        weekday_of(d2) == (weekday_of(d1) + k) % 7,
{
    vstd::arithmetic::div_mod::lemma_add_mod_noop_right(k, day_number(d1) + 3, 7);
    assert(day_number(d2) + 3 == k + (day_number(d1) + 3));
}

/// Where the zone's offset is the same at the second and the third reading,
/// the day shown is a Monday to a Friday: a Saturday moves to a Monday, a
/// Sunday to a Tuesday.
pub proof fn lemma_menu_day_weekday(
    now: int,
    d: CalendarDay,
    first: LocalTime,
    o1: int,
    second: LocalTime,
    o2: int,
)
    requires
        menu_day_reading(now, d, first, o1, second, o2, o2),
    ensures
        0 <= weekday_of(d) < 5,
{
    let later = now + closing_shift(first.hour, first.minute) * 86400;
    let s = weekend_shift(second.weekday);
    lemma_reading_day(second, later, o2);
    lemma_days_apart(second.date, d, later, o2, s);
    lemma_weekday_after(second.date, d, s);
}

/// The canteen closes for the day at 14:30: a reading whose hour is 14 or
/// later and whose minute is 30 or later skips one day, any other none.
pub proof fn lemma_closing_shift_values(hour: u32, minute: u32)
    ensures
        closing_shift(hour, minute) == 1 <==> (14 <= hour && 30 <= minute),
        closing_shift(hour, minute) == 0 <==> !(14 <= hour && 30 <= minute),
{
}

/// Where the offset is the same at the first and the second reading, the
/// second reading falls on the day after the local day of `now` once the
/// hour is 14 or later and the minute 30 or later, and on that same day
/// otherwise.
pub proof fn lemma_closing_moves_a_day(
    now: int,
    d: CalendarDay,
    first: LocalTime,
    second: LocalTime,
    o: int,
    o3: int,
)
    requires
        menu_day_reading(now, d, first, o, second, o, o3),
    ensures
        14 <= first.hour && 30 <= first.minute ==> day_number(second.date) == day_number(first.date)
            + 1,
        !(14 <= first.hour && 30 <= first.minute) ==> day_number(second.date) == day_number(
            first.date,
        ),
{
    let c = closing_shift(first.hour, first.minute);
    lemma_reading_day(first, now, o);
    lemma_reading_day(second, now + c * 86400, o);
    lemma_days_apart(first.date, second.date, now, o, c);
}

/// With one offset for all three readings, the day shown is the local day
/// of `now`, one day later once the canteen has closed (14:30), two more
/// where that day is a Saturday or a Sunday.
pub proof fn lemma_menu_day_steps(now: int, d: CalendarDay, first: LocalTime, second: LocalTime, o: int)
    requires
        menu_day_reading(now, d, first, o, second, o, o),
    ensures
        second.weekday == (weekday_of(first.date) + closing_shift(first.hour, first.minute)) % 7,
        day_number(d) == day_number(first.date) + closing_shift(first.hour, first.minute)
            + weekend_shift(second.weekday),
{
    let c = closing_shift(first.hour, first.minute);
    let later = now + c * 86400;
    let s = weekend_shift(second.weekday);
    lemma_reading_day(first, now, o);
    lemma_reading_day(second, later, o);
    lemma_days_apart(first.date, second.date, now, o, c);
    lemma_weekday_after(first.date, second.date, c);
    lemma_days_apart(second.date, d, later, o, s);
}

proof fn lemma_plain_day_selector(label: Seq<char>)
    ensures
        date_label_chars(label) ==> plain_day_selector(day_selector_text(label)),
{
    reveal_strlit("div[data-date=\"");
    reveal_strlit("\"]");
    let css = day_selector_text(label);
    if date_label_chars(label) {
        assert(css.take(15) =~= "div[data-date=\""@);
        assert(css.skip(css.len() - 2) =~= "\"]"@);
        assert(css.subrange(15, css.len() - 2) =~= label);
    }
}

/// Whether `scraper::Selector::parse` accepts `css`: a function of the text
/// alone.
pub uninterp spec fn css_selector_parses(css: Seq<char>) -> bool;

/// Whether every character of `s` is a digit, a dot or a sign, and there is
/// one.
pub open spec fn date_label_chars(s: Seq<char>) -> bool {
    s.len() > 0 && forall|i: int|
        0 <= i < s.len() ==> is_digit(#[trigger] s[i]) || s[i] == '.' || s[i] == '+' || s[i] == '-'
}

/// Whether `css` is `div[data-date="VALUE"]` with a value of digits, dots
/// and signs.
pub open spec fn plain_day_selector(css: Seq<char>) -> bool {
    &&& css.len() >= 17
    &&& css.take(15) == "div[data-date=\""@
    &&& css.skip(css.len() - 2) == "\"]"@
    &&& date_label_chars(css.subrange(15, css.len() - 2))
}

/// The selectors of the page that are given: a counter, a list, a picture.
pub open spec fn known_selector(css: Seq<char>) -> bool {
    css == "div.counter-table"@ || css == "ul"@ || css == "div.thumbnail"@
}

/// What the menu page shows of one element of the day's block.
#[derive(Clone, Debug)]
pub struct PageElement {
    /// The number of elements in its subtree, itself included.
    pub size: usize,
    /// The text pieces below it, in document order.
    pub texts: Vec<String>,
    /// The value of the attribute asked for (the `style`).
    pub style: Option<String>,
    /// Whether it matches the counter selector.
    pub is_counter: bool,
    /// Whether it matches the list selector.
    pub is_list: bool,
    /// Whether it matches the picture selector.
    pub is_picture: bool,
}

/// What a `PageElement` holds, as plain values.
pub struct PageElementView {
    pub size: usize,
    pub texts: Seq<Seq<char>>,
    pub style: Option<Seq<char>>,
    pub is_counter: bool,
    pub is_list: bool,
    pub is_picture: bool,
}

impl View for PageElement {
    type V = PageElementView;

    open spec fn view(&self) -> PageElementView {
        PageElementView {
            size: self.size,
            texts: texts_view(self.texts@),
            style: style_view(self.style),
            is_counter: self.is_counter,
            is_list: self.is_list,
            is_picture: self.is_picture,
        }
    }
}

/// What the elements of a block hold.
pub open spec fn block_view(b: Seq<PageElement>) -> Seq<PageElementView> {
    b.map_values(|e: PageElement| e@)
}

/// What scraper reads of HTML text: `None` where one of the selectors does
/// not parse; `Some(None)` where no element matches `day`; otherwise the
/// elements of the first element that `scraper::Html::select` gives for
/// `day`, its whole subtree in document order (itself first), each with
/// the size of its subtree, its text pieces, its attribute `attr` and
/// whether it matches `counter`, `list` and `picture`. A function of the
/// arguments alone.
pub uninterp spec fn page_day_block(
    html: Seq<char>,
    day: Seq<char>,
    counter: Seq<char>,
    list: Seq<char>,
    picture: Seq<char>,
    attr: Seq<char>,
) -> Option<Option<Seq<PageElementView>>>;

/// Parses an HTML fragment with `scraper::Html::parse_fragment`, the
/// selectors with `scraper::Selector::parse`, takes the first element of
/// `Html::select(day)` and reads each element of its subtree
/// (`descendent_elements`, itself first): the count of its own
/// `descendent_elements`, its `text()` pieces, its `attr(attr)`, and
/// whether `Selector::matches` holds for `counter`, `list` and `picture`.
/// Claimed of scraper: the result is a function of the arguments
/// (`page_day_block`); it is `None` exactly when a selector does not parse
/// (`css_selector_parses`); a type with a class (`div.counter-table`,
/// `div.thumbnail`), a bare type (`ul`) and an attribute equal to a quoted
/// value of digits, dots and signs (`div[data-date="05.03.2025"]`) parse; an empty
/// text parses to a document whose one element is its `html` root, where
/// such a `div` selector finds no block. What a page holds is not stated.
#[verifier::external_body]
fn read_day_block(
    html: &str,
    day: &str,
    counter: &str,
    list: &str,
    picture: &str,
    attr: &str,
) -> (r: Option<Option<Vec<PageElement>>>)
    ensures
        r is Some <==> (css_selector_parses(day@) && css_selector_parses(counter@)
            && css_selector_parses(list@) && css_selector_parses(picture@)),
        known_selector(counter@) && known_selector(list@) && known_selector(picture@) ==> (r is Some
            <==> css_selector_parses(day@)),
        known_selector(counter@) && known_selector(list@) && known_selector(picture@)
            && plain_day_selector(day@) ==> r is Some,
        r is Some && plain_day_selector(day@) && html@.len() == 0 ==> r == Some(
            None::<Vec<PageElement>>,
        ),
        page_day_block(html@, day@, counter@, list@, picture@, attr@) == match r {
            None => None,
            Some(None) => Some(None),
            Some(Some(b)) => Some(Some(block_view(b@))),
        },
{
    let (d, c) = (Selector::parse(day).ok()?, Selector::parse(counter).ok()?);
    let (l, p) = (Selector::parse(list).ok()?, Selector::parse(picture).ok()?);
    let doc = Html::parse_fragment(html);
    Some(doc.select(&d).next().map(|b| b.descendent_elements().map(|e| PageElement {
        size: e.descendent_elements().count(),
        texts: e.text().map(String::from).collect(),
        style: e.attr(attr).map(String::from),
        is_counter: c.matches(&e),
        is_list: l.matches(&e),
        is_picture: p.matches(&e),
    }).collect()))
}

/// Which selector a search looks for.
#[derive(Clone, Copy, Debug, PartialEq, Eq)]
pub enum Probe {
    Counter,
    List,
    Picture,
}

/// Whether an element matches the selector of `k`.
pub open spec fn flagged(e: PageElementView, k: Probe) -> bool {
    match k {
        Probe::Counter => e.is_counter,
        Probe::List => e.is_list,
        Probe::Picture => e.is_picture,
    }
}

/// The end of the subtree of element `p` of a block: the position after
/// its last descendant (a subtree holds at least the element itself).
pub open spec fn subtree_end(b: Seq<PageElementView>, p: int) -> int {
    let size: int = if b[p].size == 0 {
        1
    } else {
        b[p].size as int
    };
    if p + size > b.len() {
        b.len() as int
    } else {
        p + size
    }
}

/// The first position from `from` before `to` whose element matches `k`,
/// or `to`: the first element that `select` gives there.
pub open spec fn first_flagged(b: Seq<PageElementView>, from: int, to: int, k: Probe) -> int
    decreases to - from,
{
    if from >= to {
        to
    } else if flagged(b[from], k) {
        from
    } else {
        first_flagged(b, from + 1, to, k)
    }
}

/// For the child elements of a counter from position `c` up to `end`, the
/// text pieces of each child's first list, for the children that hold one.
pub open spec fn child_lists(b: Seq<PageElementView>, c: int, end: int) -> Seq<Seq<Seq<char>>>
    decreases b.len() - c,
{
    if c >= end || c < 0 || c >= b.len() {
        Seq::empty()
    } else {
        let child_end = subtree_end(b, c);
        let u = first_flagged(b, c + 1, child_end, Probe::List);
        let here: Seq<Seq<Seq<char>>> = if u < child_end {
            seq![b[u].texts]
        } else {
            Seq::empty()
        };
        here + child_lists(b, child_end, end)
    }
}

/// The counter at position `p` of a block: the lists of its children and
/// the style of its first picture.
pub open spec fn counter_at(b: Seq<PageElementView>, p: int) -> CounterTableView {
    let end = subtree_end(b, p);
    let t = first_flagged(b, p + 1, end, Probe::Picture);
    CounterTableView {
        menu_texts: child_lists(b, p + 1, end),
        thumbnail_style: if t < end {
            b[t].style
        } else {
            None
        },
    }
}

/// The counters among the positions from `q` up to `end`, in order.
pub open spec fn counters_from(b: Seq<PageElementView>, q: int, end: int) -> Seq<CounterTableView>
    decreases end - q,
{
    if q >= end || q < 0 || q >= b.len() {
        Seq::empty()
    } else {
        let here: Seq<CounterTableView> = if b[q].is_counter {
            seq![counter_at(b, q)]
        } else {
            Seq::empty()
        };
        here + counters_from(b, q + 1, end)
    }
}

/// The counters inside a day's block (the block itself not counted).
pub open spec fn block_counters(b: Seq<PageElementView>) -> Seq<CounterTableView> {
    if b.len() == 0 {
        Seq::empty()
    } else {
        counters_from(b, 1, subtree_end(b, 0))
    }
}

/// What scraper reads of the first block of day `label` on a page, with
/// the selectors of the menu page.
pub open spec fn day_block(html: Seq<char>, label: Seq<char>) -> Option<Option<Seq<PageElementView>>> {
    page_day_block(
        html,
        day_selector_text(label),
        "div.counter-table"@,
        "ul"@,
        "div.thumbnail"@,
        "style"@,
    )
}

/// The counters that a menu page shows for day `label`: `None` where a
/// selector does not parse, none where the page has no block for the day.
pub open spec fn page_counters(html: Seq<char>, label: Seq<char>) -> Option<Seq<CounterTableView>> {
    match day_block(html, label) {
        None => None,
        Some(None) => Some(Seq::empty()),
        Some(Some(b)) => Some(block_counters(b)),
    }
}

/// The end of the subtree of element `p`.
fn subtree_end_of(b: &Vec<PageElement>, p: usize) -> (r: usize)
    requires
        p < b.len(),
    ensures
        r == subtree_end(block_view(b@), p as int),
        p < r <= b.len(),
{
    let size = if b[p].size == 0 {
        1
    } else {
        b[p].size
    };
    if size > b.len() - p {
        b.len()
    } else {
        p + size
    }
}

/// The first position from `from` before `to` whose element matches `k`.
fn first_flagged_at(b: &Vec<PageElement>, from: usize, to: usize, k: Probe) -> (r: usize)
    requires
        from <= to <= b.len(),
    ensures
        r == first_flagged(block_view(b@), from as int, to as int, k),
        from <= r <= to,
{
    let ghost bv = block_view(b@);
    let mut i = from;
    while i < to
        invariant
            from <= i <= to <= b.len(),
            bv == block_view(b@),
            first_flagged(bv, i as int, to as int, k) == first_flagged(bv, from as int, to as int, k),
        decreases to - i,
    {
        let e = &b[i];
        let hit = match k {
            Probe::Counter => e.is_counter,
            Probe::List => e.is_list,
            Probe::Picture => e.is_picture,
        };
        assert(bv[i as int] == e@);
        if hit {
            return i;
        }
        i = i + 1;
    }
    i
}

/// An owned copy of a sequence of strings.
fn copy_texts(v: &Vec<String>) -> (r: Vec<String>)
    ensures
        texts_view(r@) == texts_view(v@),
{
    let mut r: Vec<String> = Vec::new();
    let mut i: usize = 0;
    while i < v.len()
        invariant
            0 <= i <= v.len(),
            r@.len() == i,
            forall|j: int| 0 <= j < i ==> (#[trigger] r@[j])@ == v@[j]@,
        decreases v.len() - i,
    {
        r.push(v[i].clone());
        i = i + 1;
    }
    assert(texts_view(r@) =~= texts_view(v@));
    r
}

/// The lists of the children of a counter, from position `c0` up to `end`.
fn child_lists_of(b: &Vec<PageElement>, c0: usize, end: usize) -> (r: Vec<Vec<String>>)
    requires
        c0 <= end <= b.len(),
    ensures
        lists_view(r@) == child_lists(
            block_view(b@),
            c0 as int,
            end as int,
        ),
{
    let ghost bv = block_view(b@);
    let mut lists: Vec<Vec<String>> = Vec::new();
    let mut c = c0;
    assert(lists_view(lists@) =~= Seq::<Seq<Seq<char>>>::empty());
    while c < end
        invariant
            c0 <= end <= b.len(),
            bv == block_view(b@),
            c <= b.len(),
            lists_view(lists@) + child_lists(bv, c as int, end as int)
                == child_lists(bv, c0 as int, end as int),
        decreases b.len() - c,
    {
        let child_end = subtree_end_of(b, c);
        let u = first_flagged_at(b, c + 1, child_end, Probe::List);
        let ghost before = lists_view(lists@);
        if u < child_end {
            let texts = copy_texts(&b[u].texts);
            lists.push(texts);
            assert(bv[u as int] == b@[u as int]@);
            assert(lists_view(lists@) =~= before + seq![
                bv[u as int].texts,
            ]);
        } else {
            assert(lists_view(lists@) =~= before);
        }
        assert(before + child_lists(bv, c as int, end as int) =~= lists@.map_values(
            |v: Vec<String>| texts_view(v@),
        ) + child_lists(bv, child_end as int, end as int));
        c = child_end;
    }
    assert(child_lists(bv, c as int, end as int) =~= Seq::<Seq<Seq<char>>>::empty());
    assert(lists_view(lists@) + Seq::<Seq<Seq<char>>>::empty()
        =~= lists_view(lists@));
    lists
}

/// The counter at position `p` of a block.
fn counter_of(b: &Vec<PageElement>, p: usize) -> (r: CounterTable)
    requires
        p < b.len(),
    ensures
        r@ == counter_at(block_view(b@), p as int),
{
    let end = subtree_end_of(b, p);
    let menu_texts = child_lists_of(b, p + 1, end);
    let t = first_flagged_at(b, p + 1, end, Probe::Picture);
    let thumbnail_style = if t < end {
        match &b[t].style {
            Some(s) => Some(s.clone()),
            None => None,
        }
    } else {
        None
    };
    proof {
        if t < end {
            assert(block_view(b@)[t as int] == b@[t as int]@);
        }
    }
    CounterTable { menu_texts, thumbnail_style }
}

/// The counters inside a day's block, as `read_day_block` gives the block:
/// each element after the first and inside its subtree that matches the
/// counter selector, in document order, read as `counter_at` describes.
pub fn counters_of_block(b: &Vec<PageElement>) -> (r: Vec<CounterTable>)
    ensures
        counter_views(r@) == block_counters(block_view(b@)),
{
    let ghost bv = block_view(b@);
    let mut counters: Vec<CounterTable> = Vec::new();
    if b.len() == 0 {
        assert(counter_views(counters@) =~= Seq::<CounterTableView>::empty());
        return counters;
    }
    let end = subtree_end_of(b, 0);
    let mut q: usize = 1;
    assert(counter_views(counters@) =~= Seq::<CounterTableView>::empty());
    while q < end
        invariant
            1 <= q,
            end <= b.len(),
            bv == block_view(b@),
            b.len() > 0,
            end == subtree_end(bv, 0),
            counter_views(counters@) + counters_from(bv, q as int, end as int) == counters_from(
                bv,
                1,
                end as int,
            ),
        decreases end - q,
    {
        let ghost before = counter_views(counters@);
        assert(bv[q as int] == b@[q as int]@);
        if b[q].is_counter {
            let c = counter_of(b, q);
            counters.push(c);
            assert(counter_views(counters@) =~= before + seq![counter_at(bv, q as int)]);
        } else {
            assert(counter_views(counters@) =~= before);
        }
        assert(before + counters_from(bv, q as int, end as int) =~= counter_views(counters@)
            + counters_from(bv, q + 1, end as int));
        q = q + 1;
    }
    assert(counters_from(bv, q as int, end as int) =~= Seq::<CounterTableView>::empty());
    assert(counter_views(counters@) + Seq::<CounterTableView>::empty() =~= counter_views(
        counters@,
    ));
    counters
}

/// Reads the counters of day `day_label` (such as `05.03.2025`) from a menu
/// page, as `page_counters` describes them: the first block marked with
/// that date, each counter inside it in document order, for each child
/// element of a counter that holds a list the text pieces of its first
/// list, and the style of the counter's first picture. No block for the
/// day gives no counters, and neither does an empty page. Only the
/// selector of the day can fail: exactly when scraper does not parse it,
/// and never for a label of digits, dots and signs.
pub fn counters_on(html: &str, day_label: &str) -> (r: Result<Vec<CounterTable>, MensaError>)
    ensures
        r matches Err(e) ==> e == MensaError::BadSelector,
        r is Ok <==> css_selector_parses(day_selector_text(day_label@)),
        r matches Ok(v) ==> page_counters(html@, day_label@) == Some(counter_views(v@)),
        r is Err ==> page_counters(html@, day_label@) is None,
        date_label_chars(day_label@) ==> r is Ok,
        date_label_chars(day_label@) && html@.len() == 0 ==> (r matches Ok(v) && v@.len() == 0),
{
    let day_text = day_selector(day_label);
    proof {
        lemma_plain_day_selector(day_label@);
    }
    match read_day_block(html, day_text.as_str(), "div.counter-table", "ul", "div.thumbnail", "style") {
        None => Err(MensaError::BadSelector),
        Some(None) => {
            let counters: Vec<CounterTable> = Vec::new();
            assert(counter_views(counters@) =~= Seq::<CounterTableView>::empty());
            Ok(counters)
        },
        Some(Some(block)) => Ok(counters_of_block(&block)),
    }
}

/// The menu that a page shows for day `d`: the dishes of the counters of
/// the day's block, `BadSelector` where the day's selector does not parse.
pub open spec fn page_menu(html: Seq<char>, d: CalendarDay) -> Result<Seq<EssenView>, MensaError> {
    match page_counters(html, day_month_year_text(d)) {
        None => Err(MensaError::BadSelector),
        Some(counters) => menu_of(counters),
    }
}

/// The menu that a page shows for a day: the counters of the day, written
/// as `%d.%m.%Y`, read with `counters_on` and turned into dishes. The
/// selector of a day always parses, and an empty page shows no dishes.
pub fn menu_on_day(html: &str, day: &CalendarDay) -> (r: Result<Vec<Essen>, MensaError>)
    requires
        valid_day(*day),
    ensures
        match r {
            Ok(v) => page_menu(html@, *day) == Ok::<Seq<EssenView>, MensaError>(essen_views(v@)),
            Err(e) => page_menu(html@, *day) == Err::<Seq<EssenView>, MensaError>(e),
        },
        r matches Err(e) ==> e == MensaError::MissingName || e == MensaError::BadThumbnail,
        html@.len() == 0 ==> (r matches Ok(v) && v@.len() == 0),
{
    let label = day_month_year(day);
    proof {
        lemma_day_label_chars(*day);
    }
    let counters = match counters_on(html, label.as_str()) {
        Ok(c) => c,
        Err(e) => return Err(e),
    };
    let r = menu_from_counters(&counters);
    proof {
        lemma_menu_errors(counter_views(counters@));
        if counters@.len() == 0 {
            assert(counter_views(counters@) =~= Seq::<CounterTableView>::empty());
            if r is Ok {
                assert(essen_views(r->Ok_0@).len() == r->Ok_0@.len());
            }
        }
    }
    r
}

/// The menu that a page shows at the instant `now` seconds after
/// 1970-01-01 UTC: the menu of the day that `menu_day` gives.
pub fn menu_of_page(html: &str, now: i64) -> (r: Result<Vec<Essen>, MensaError>)
    ensures
        r matches Ok(v) ==> exists|d: CalendarDay|
            #[trigger] is_menu_day(now as int, d) && page_menu(html@, d) == Ok::<
                Seq<EssenView>,
                MensaError,
            >(essen_views(v@)),
        r matches Err(e) ==> (e != MensaError::ClockOutOfRange ==> exists|d: CalendarDay|
            #[trigger] is_menu_day(now as int, d) && page_menu(html@, d) == Err::<
                Seq<EssenView>,
                MensaError,
            >(e)),
        first_second() + 86400 <= now <= last_second() - 4 * 86400 ==> !(r matches Err(e) && e
            == MensaError::ClockOutOfRange),
        !(first_second() <= now <= last_second()) ==> r == Err::<Vec<Essen>, MensaError>(
            MensaError::ClockOutOfRange,
        ),
        r != Err::<Vec<Essen>, MensaError>(MensaError::BadSelector),
        html@.len() == 0 ==> (r matches Ok(v) ==> v@.len() == 0),
{
    let day = match menu_day(now) {
        Ok(d) => d,
        Err(e) => return Err(e),
    };
    menu_on_day(html, &day)
}

/// Markup outside the day's block does not matter: two pages whose first
/// block for day `d` reads the same show the same menu for `d`.
pub proof fn lemma_page_menu_block(html1: Seq<char>, html2: Seq<char>, d: CalendarDay)
    requires
        day_block(html1, day_month_year_text(d)) == day_block(html2, day_month_year_text(d)),
    ensures
        page_menu(html1, d) == page_menu(html2, d),
{
}

/// A page without a block for day `d` shows no dishes for it.
pub proof fn lemma_page_menu_no_block(html: Seq<char>, d: CalendarDay)
    requires
        day_block(html, day_month_year_text(d)) == Some(None::<Seq<PageElementView>>),
    ensures
        page_menu(html, d) == Ok::<Seq<EssenView>, MensaError>(Seq::empty()),
{
}

/// A menu fails only for a missing name or a bad picture style.
proof fn lemma_menu_errors(counters: Seq<CounterTableView>)
    ensures
        menu_of(counters) matches Err(e) ==> e == MensaError::MissingName || e
            == MensaError::BadThumbnail,
    decreases counters.len(),
{
    if counters.len() > 0 {
        lemma_menu_errors(counters.drop_last());
    }
}

proof fn lemma_zero_padded_digits(n: nat, w: nat)
    ensures
        all_digits(zero_padded(n, w)),
        zero_padded(n, w).len() > 0,
{
    lemma_decimal_digits(n);
    let t = decimal_text(n);
    if t.len() < w {
        let z = zero_padded(n, w);
        let pad = Seq::new((w - t.len()) as nat, |i: int| '0');
        assert forall|i: int| 0 <= i < z.len() implies is_digit(#[trigger] z[i]) by {
            if i < pad.len() {
                assert(z[i] == '0');
            } else {
                assert(z[i] == t[i - pad.len()]);
            }
        }
    }
}

/// The label of a day is made of digits, dots and a sign.
proof fn lemma_day_label_chars(d: CalendarDay)
    ensures
        date_label_chars(day_month_year_text(d)),
{
    lemma_zero_padded_digits(d.day as nat, 2);
    lemma_zero_padded_digits(d.month as nat, 2);
    let y = d.year as int;
    let a = zero_padded(d.day as nat, 2);
    let b = zero_padded(d.month as nat, 2);
    let c = year_text(y);
    let digits = if y < 0 {
        zero_padded((-y) as nat, 4)
    } else {
        zero_padded(y as nat, 4)
    };
    lemma_zero_padded_digits(if y < 0 { (-y) as nat } else { y as nat }, 4);
    assert forall|i: int| 0 <= i < c.len() implies is_digit(#[trigger] c[i]) || c[i] == '+' || c[i]
        == '-' by {
        if 0 <= y <= 9999 {
            assert(c[i] == digits[i]);
        } else if i > 0 {
            assert(c[i] == digits[i - 1]);
        }
    }
    let s = day_month_year_text(d);
    assert(s =~= a + seq!['.'] + b + seq!['.'] + c);
    assert forall|i: int| 0 <= i < s.len() implies is_digit(#[trigger] s[i]) || s[i] == '.' || s[i]
        == '+' || s[i] == '-' by {
        if i < a.len() {
            assert(s[i] == a[i]);
        } else if i == a.len() {
        } else if i < a.len() + 1 + b.len() {
            assert(s[i] == b[i - a.len() - 1]);
        } else if i == a.len() + 1 + b.len() {
        } else {
            assert(s[i] == c[i - a.len() - 2 - b.len()]);
        }
    }
}

} // verus!
