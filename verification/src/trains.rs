//! Departures of a stop: the request for the timetable service, and the
//! list of trains shown from its answer.

use vstd::prelude::*;

use crate::clock::{civil_seconds, days_from_civil, naive_seconds, valid_date};
use crate::text::{
    decimal_text, i32_from_text, lemma_first_group_cut, lemma_text_lt_asymmetric, lemma_text_lt_total,
    lemma_text_lt_transitive, parse_i32,
    remove_first_group, text_less, text_lt, u64_to_decimal, without_first_group,
};

verus! {

/// A stop whose departures are shown.
#[derive(Clone, Debug)]
pub struct TrainStation {
    pub name: String,
    pub id: u64,
}

/// A departure as shown on the board.
#[derive(Clone, Debug)]
pub struct Train {
    pub line: String,
    pub direction: String,
    pub minutes_till_departure: u64,
    pub delay: Option<u64>,
}

/// What a `Train` shows, as plain values.
pub struct TrainView {
    pub line: Seq<char>,
    pub direction: Seq<char>,
    pub minutes_till_departure: u64,
    pub delay: Option<u64>,
}

impl View for Train {
    type V = TrainView;

    open spec fn view(&self) -> TrainView {
        TrainView {
            line: self.line@,
            direction: self.direction@,
            minutes_till_departure: self.minutes_till_departure,
            delay: self.delay,
        }
    }
}

/// A date and time as the timetable service writes it: each field a
/// decimal numeral.
#[derive(Clone, Debug)]
pub struct DateTimeFields {
    pub year: String,
    pub month: String,
    pub day: String,
    pub hour: String,
    pub minute: String,
}

/// The line that serves a departure.
#[derive(Clone, Debug)]
pub struct ServingLine {
    pub number: String,
    pub direction: String,
}

/// One entry of the service's departure list: the line, the planned time
/// and, where the service has one, the expected time.
#[derive(Clone, Debug)]
pub struct Departure {
    pub serving_line: ServingLine,
    pub date_time: DateTimeFields,
    pub real_date_time: Option<DateTimeFields>,
}

/// Why a departure list could not be read.
#[derive(Clone, Copy, Debug, PartialEq, Eq)]
pub enum TrainError {
    /// A date or time field is not a decimal numeral that fits an `i32`.
    BadNumber,
    /// The fields do not name a date and time.
    BadDate,
}

/// How many trains the board shows at most.
pub const MAX_TRAINS: usize = 10;

/// The fields of `f` read as numbers, in the order year, month, day, hour,
/// minute; `None` where one of them is not a numeral.
pub open spec fn field_numbers(f: DateTimeFields) -> Option<(i32, i32, i32, i32, i32)> {
    match (
        i32_from_text(f.year@),
        i32_from_text(f.month@),
        i32_from_text(f.day@),
        i32_from_text(f.hour@),
        i32_from_text(f.minute@),
    ) {
        (Some(y), Some(m), Some(d), Some(h), Some(mi)) => Some((y, m, d, h, mi)),
        _ => None,
    }
}

/// Whether the numbers name a date and time that the service's format
/// reads back (years up to 9999).
pub open spec fn fields_name_time(y: i32, m: i32, d: i32, h: i32, mi: i32) -> bool {
    y <= 9999 && valid_date(y as int, m as int, d as int) && 0 <= h <= 23 && 0 <= mi <= 59
}

/// The time that `f` names, in seconds since 1970-01-01 00:00 of the
/// local clock.
pub open spec fn field_seconds(f: DateTimeFields) -> Result<int, TrainError> {
    match field_numbers(f) {
        None => Err(TrainError::BadNumber),
        Some((y, m, d, h, mi)) => if fields_name_time(y, m, d, h, mi) {
            Ok(civil_seconds(y as int, m as int, d as int, h as int, mi as int))
        } else {
            Err(TrainError::BadDate)
        },
    }
}

/// Whole minutes in `secs` seconds, rounded toward zero (`num_minutes`).
pub open spec fn whole_minutes(secs: int) -> int {
    if secs >= 0 {
        secs / 60
    } else {
        -((-secs) / 60)
    }
}

/// `x as u64` for a value `x` of `i64`: negative values wrap around.
pub open spec fn wrap_u64(x: int) -> u64 {
    if x >= 0 {
        x as u64
    } else {
        (x + 0x1_0000_0000_0000_0000) as u64
    }
}

/// The delay in minutes that the board shows: none below five minutes.
pub open spec fn shown_delay(delay: Option<u64>) -> Option<u64> {
    match delay {
        Some(d) => if d < 5 {
            None
        } else {
            Some(d)
        },
        None => None,
    }
}

/// The board's entry for departure `dep`, the local clock reading `now`
/// seconds since 1970-01-01.
pub open spec fn train_of(dep: Departure, now: int) -> Result<TrainView, TrainError> {
    match field_seconds(dep.date_time) {
        Err(e) => Err(e),
        Ok(planned) => {
            let minutes = wrap_u64(whole_minutes(planned - now));
            let delay: Result<Option<u64>, TrainError> = match dep.real_date_time {
                None => Ok(None),
                Some(f) => match field_seconds(f) {
                    Err(e) => Err(e),
                    Ok(actual) => Ok(Some(wrap_u64(whole_minutes(actual - planned)))),
                },
            };
            match delay {
                Err(e) => Err(e),
                Ok(delay) => Ok(
                    TrainView {
                        line: without_first_group(dep.serving_line.number@),
                        direction: dep.serving_line.direction@,
                        minutes_till_departure: minutes,
                        delay: shown_delay(delay),
                    },
                ),
            }
        },
    }
}

/// Reads the fields of `f` as a time, in seconds since 1970-01-01 00:00.
fn read_seconds(f: &DateTimeFields) -> (r: Result<i64, TrainError>)
    ensures
        match r {
            Ok(s) => field_seconds(*f) == Ok::<int, TrainError>(s as int),
            Err(e) => field_seconds(*f) == Err::<int, TrainError>(e),
        },
{
    let y = parse_i32(f.year.as_str());
    let m = parse_i32(f.month.as_str());
    let d = parse_i32(f.day.as_str());
    let h = parse_i32(f.hour.as_str());
    let mi = parse_i32(f.minute.as_str());
    match (y, m, d, h, mi) {
        (Some(y), Some(m), Some(d), Some(h), Some(mi)) => match naive_seconds(y, m, d, h, mi) {
            Some(s) => Ok(s),
            None => Err(TrainError::BadDate),
        },
        _ => Err(TrainError::BadNumber),
    }
}

/// Whole minutes from `from` to `to` seconds, as `u64` wrapping negative
/// values around.
fn minutes_between(from: i64, to: i64) -> (r: u64)
    ensures
        r == wrap_u64(whole_minutes(to - from)),
{
    let diff: i128 = to as i128 - from as i128;
    let m: i128 = if diff >= 0 {
        diff / 60
    } else {
        -((-diff) / 60)
    };
    if m >= 0 {
        m as u64
    } else {
        (m + 0x1_0000_0000_0000_0000i128) as u64
    }
}

/// The board's entry for one departure, `now` being the local clock in
/// seconds since 1970-01-01 read as UTC.
pub fn train_from_departure(dep: &Departure, now: i64) -> (r: Result<Train, TrainError>)
    ensures
        match r {
            Ok(t) => train_of(*dep, now as int) == Ok::<TrainView, TrainError>(t@),
            Err(e) => train_of(*dep, now as int) == Err::<TrainView, TrainError>(e),
        },
{
    let planned = match read_seconds(&dep.date_time) {
        Ok(s) => s,
        Err(e) => return Err(e),
    };
    let minutes = minutes_between(now, planned);
    let delay = match &dep.real_date_time {
        None => None,
        Some(f) => match read_seconds(f) {
            Ok(actual) => Some(minutes_between(planned, actual)),
            Err(e) => return Err(e),
        },
    };
    let delay = match delay {
        Some(d) => if d < 5 {
            None
        } else {
            Some(d)
        },
        None => None,
    };
    let line = remove_first_group(dep.serving_line.number.as_str());
    let direction = dep.serving_line.direction.clone();
    Ok(Train { line, direction, minutes_till_departure: minutes, delay })
}


/// What a sequence of trains shows.
pub open spec fn views(v: Seq<Train>) -> Seq<TrainView> {
    v.map_values(|t: Train| t@)
}

/// Whether train `a` is listed before `b`: it leaves sooner, or at the same
/// minute on a line whose name comes first.
pub open spec fn departs_before(a: TrainView, b: TrainView) -> bool {
    ||| a.minutes_till_departure < b.minutes_till_departure
    ||| a.minutes_till_departure == b.minutes_till_departure && text_lt(a.line, b.line)
}

/// `s` with `x` put in front of the first train that `x` departs before,
/// and at the end where there is none.
pub open spec fn insert_in_order(s: Seq<TrainView>, x: TrainView) -> Seq<TrainView>
    decreases s.len(),
{
    if s.len() == 0 {
        seq![x]
    } else if departs_before(x, s[0]) {
        seq![x] + s
    } else {
        seq![s[0]] + insert_in_order(s.drop_first(), x)
    }
}

/// The trains of `s` in the order of the board: by departure, then line;
/// trains that compare equal keep their order (a stable sort).
pub open spec fn in_departure_order(s: Seq<TrainView>) -> Seq<TrainView>
    decreases s.len(),
{
    if s.len() == 0 {
        s
    } else {
        insert_in_order(in_departure_order(s.drop_last()), s.last())
    }
}

/// Inserting in order puts `x` at the first position whose train it departs
/// before.
proof fn lemma_insert_at(s: Seq<TrainView>, x: TrainView, j: int)
    requires
        0 <= j <= s.len(),
        forall|k: int| 0 <= k < j ==> !departs_before(x, #[trigger] s[k]),
        j == s.len() || departs_before(x, s[j]),
    ensures
        insert_in_order(s, x) == s.insert(j, x),
    decreases s.len(),
{
    if s.len() == 0 {
        assert(s.insert(j, x) =~= seq![x]);
    } else if j == 0 {
        assert(s.insert(j, x) =~= seq![x] + s);
    } else {
        let t = s.drop_first();
        assert forall|k: int| 0 <= k < j - 1 implies !departs_before(x, #[trigger] t[k]) by {
            assert(t[k] == s[k + 1]);
        }
        lemma_insert_at(t, x, j - 1);
        assert(s.insert(j, x) =~= seq![s[0]] + t.insert(j - 1, x));
    }
}

/// Whether `a` is listed before `b`.
fn train_precedes(a: &Train, b: &Train) -> (r: bool)
    ensures
        r == departs_before(a@, b@),
{
    a.minutes_till_departure < b.minutes_till_departure || (a.minutes_till_departure
        == b.minutes_till_departure && text_less(a.line.as_str(), b.line.as_str()))
}

/// Sorts trains by departure, then line, keeping the order of trains that
/// compare equal: what `sort_by` does with the board's comparison.
pub fn sort_trains(trains: Vec<Train>) -> (r: Vec<Train>)
    ensures
        views(r@) == in_departure_order(views(trains@)),
{
    let ghost all = views(trains@);
    let mut rest = trains;
    let mut sorted: Vec<Train> = Vec::new();
    let ghost mut k: int = 0;
    assert(all.take(0) =~= Seq::<TrainView>::empty());
    assert(views(rest@) =~= all.skip(0));
    while rest.len() > 0
        invariant
            0 <= k <= all.len(),
            views(rest@) == all.skip(k),
            views(sorted@) == in_departure_order(all.take(k)),
        decreases rest.len(),
    {
        let ghost rest_before = rest@;
        let x = rest.remove(0);
        let ghost xv = x@;
        assert(views(rest_before).len() == rest_before.len());
        assert(k < all.len());
        assert(views(rest_before)[0] == rest_before[0]@);
        assert(views(rest_before)[0] == all.skip(k)[0]);
        assert(xv == all[k]);
        let mut j: usize = 0;
        while j < sorted.len() && !train_precedes(&x, &sorted[j])
            invariant
                0 <= j <= sorted.len(),
                0 <= k < all.len(),
                xv == all[k],
                xv == x@,
                views(rest_before) == all.skip(k),
                rest@ == rest_before.remove(0),
                rest_before.len() > 0,
                views(sorted@) == in_departure_order(all.take(k)),
                forall|i: int| 0 <= i < j ==> !departs_before(x@, #[trigger] views(sorted@)[i]),
            decreases sorted.len() - j,
        {
            j = j + 1;
        }
        let ghost before = views(sorted@);
        proof {
            lemma_insert_at(before, xv, j as int);
            assert(all.take(k + 1).drop_last() =~= all.take(k));
            assert(all.take(k + 1).last() == xv);
        }
        sorted.insert(j, x);
        assert(views(sorted@) =~= before.insert(j as int, xv));
        proof {
            k = k + 1;
        }
        assert(views(rest@) =~= views(rest_before).skip(1));
        assert(views(rest_before).skip(1) =~= all.skip(k));
    }
    assert(all.take(k) =~= all);
    sorted
}

/// Whether the board keeps a train: it leaves in more than five minutes
/// (trains long gone wrap around to huge values and stay out unless they
/// left more than 101 minutes ago).
pub open spec fn kept(t: TrainView) -> bool {
    5 < t.minutes_till_departure && t.minutes_till_departure < u64::MAX - 100
}

/// The entries of `deps` that the board keeps, in the order of `deps`; the
/// first departure that cannot be read gives the error.
pub open spec fn kept_trains(deps: Seq<Departure>, now: int) -> Result<Seq<TrainView>, TrainError>
    decreases deps.len(),
{
    if deps.len() == 0 {
        Ok(Seq::empty())
    } else {
        match kept_trains(deps.drop_last(), now) {
            Err(e) => Err(e),
            Ok(prev) => match train_of(deps.last(), now) {
                Err(e) => Err(e),
                Ok(t) => Ok(
                    if kept(t) {
                        prev.push(t)
                    } else {
                        prev
                    },
                ),
            },
        }
    }
}

/// At most the first `MAX_TRAINS` trains of `s`.
pub open spec fn first_shown(s: Seq<TrainView>) -> Seq<TrainView> {
    if s.len() > MAX_TRAINS {
        s.take(MAX_TRAINS as int)
    } else {
        s
    }
}

/// The board for the departure list `deps` at local clock `now`: the kept
/// trains in departure order, at most ten of them.
pub open spec fn board(deps: Seq<Departure>, now: int) -> Result<Seq<TrainView>, TrainError> {
    match kept_trains(deps, now) {
        Err(e) => Err(e),
        Ok(s) => Ok(first_shown(in_departure_order(s))),
    }
}

/// The trains shown for a departure list, `now` being the local clock in
/// seconds since 1970-01-01 read as UTC.
pub fn trains_from_departures(departures: &Vec<Departure>, now: i64) -> (r: Result<
    Vec<Train>,
    TrainError,
>)
    ensures
        match r {
            Ok(v) => board(departures@, now as int) == Ok::<Seq<TrainView>, TrainError>(views(v@)),
            Err(e) => board(departures@, now as int) == Err::<Seq<TrainView>, TrainError>(e),
        },
{
    let mut trains: Vec<Train> = Vec::new();
    let mut i: usize = 0;
    assert(departures@.take(0) =~= Seq::<Departure>::empty());
    assert(views(trains@) =~= Seq::<TrainView>::empty());
    while i < departures.len()
        invariant
            0 <= i <= departures.len(),
            kept_trains(departures@.take(i as int), now as int) == Ok::<
                Seq<TrainView>,
                TrainError,
            >(views(trains@)),
        decreases departures.len() - i,
    {
        proof {
            assert(departures@.take(i + 1).drop_last() =~= departures@.take(i as int));
            assert(departures@.take(i + 1).last() == departures@[i as int]);
        }
        let t = match train_from_departure(&departures[i], now) {
            Ok(t) => t,
            Err(e) => {
                proof {
                    lemma_kept_trains_error(departures@, now as int, i + 1);
                }
                return Err(e);
            },
        };
        if 5 < t.minutes_till_departure && t.minutes_till_departure < u64::MAX - 100 {
            let ghost before = views(trains@);
            trains.push(t);
            assert(views(trains@) =~= before.push(t@));
        }
        i = i + 1;
    }
    assert(departures@.take(i as int) =~= departures@);
    let mut sorted = sort_trains(trains);
    let ghost full = views(sorted@);
    sorted.truncate(MAX_TRAINS);
    assert(views(sorted@) =~= first_shown(full));
    Ok(sorted)
}

/// An error in the first `k` departures is the error of the whole list.
proof fn lemma_kept_trains_error(deps: Seq<Departure>, now: int, k: int)
    requires
        0 <= k <= deps.len(),
        kept_trains(deps.take(k), now) is Err,
    ensures
        kept_trains(deps, now) == kept_trains(deps.take(k), now),
    decreases deps.len() - k,
{
    if k < deps.len() {
        assert(deps.take(k + 1).drop_last() =~= deps.take(k));
        lemma_kept_trains_error(deps, now, k + 1);
    } else {
        assert(deps.take(k) =~= deps);
    }
}


/// The request for the departures of stop `id`, at most `limit` of them,
/// from the VRR timetable service, answered as JSON with real-time data.
pub open spec fn departures_url_text(id: u64, limit: u64) -> Seq<char> {
    "https://app.vrr.de/vrrstd/XML_DM_REQUEST?outputFormat=JSON&commonMacro=dm&type_dm=any&name_dm="@
        + decimal_text(id as nat)
        + "&language=de&useRealtime=1&lsShowTrainsExplicit=1&mode=direct&typeInfo_dm=stopID&limit="@
        + decimal_text(limit as nat)
}

/// The address that asks the timetable service for the departures of a stop.
pub fn departures_url(id: u64, limit: u64) -> (r: String)
    ensures
        r@ == departures_url_text(id, limit),
{
    let mut url = String::from_str(
        "https://app.vrr.de/vrrstd/XML_DM_REQUEST?outputFormat=JSON&commonMacro=dm&type_dm=any&name_dm=",
    );
    let id_text = u64_to_decimal(id);
    url.append(id_text.as_str());
    url.append(
        "&language=de&useRealtime=1&lsShowTrainsExplicit=1&mode=direct&typeInfo_dm=stopID&limit=",
    );
    let limit_text = u64_to_decimal(limit);
    url.append(limit_text.as_str());
    url
}

/// How the board writes the time left: `12m`, or `(+7) 12m` with a delay.
pub open spec fn departure_label(t: TrainView) -> Seq<char> {
    match t.delay {
        None => decimal_text(t.minutes_till_departure as nat) + seq!['m'],
        Some(d) => seq!['(', '+'] + decimal_text(d as nat) + seq![')', ' '] + decimal_text(
            t.minutes_till_departure as nat,
        ) + seq!['m'],
    }
}

impl Train {
    /// The time left as the board writes it: `12m`, or `(+7) 12m` with a delay.
    pub fn departure_text(&self) -> (r: String)
        ensures
            r@ == departure_label(self@),
    {
        let minutes = u64_to_decimal(self.minutes_till_departure);
        match self.delay {
            None => {
                let r = minutes.concat("m");
                proof {
                    reveal_strlit("m");
                }
                assert(r@ =~= departure_label(self@));
                r
            },
            Some(d) => {
                let mut r = String::from_str("(+");
                let delay = u64_to_decimal(d);
                r.append(delay.as_str());
                r.append(") ");
                r.append(minutes.as_str());
                r.append("m");
                proof {
                    reveal_strlit("(+");
                    reveal_strlit(") ");
                    reveal_strlit("m");
                }
                assert(r@ =~= departure_label(self@));
                r
            },
        }
    }
}


/// Whether no train of `s` departs before a train listed ahead of it.
pub open spec fn in_order(s: Seq<TrainView>) -> bool {
    forall|i: int, j: int| 0 <= i < j < s.len() ==> !departs_before(#[trigger] s[j], #[trigger] s[i])
}

proof fn lemma_departs_before_asymmetric(a: TrainView, b: TrainView)
    ensures
        departs_before(a, b) ==> !departs_before(b, a),
{
    lemma_text_lt_asymmetric(a.line, b.line);
}

proof fn lemma_departs_before_transitive(a: TrainView, b: TrainView, c: TrainView)
    requires
        departs_before(a, b),
        departs_before(b, c),
    ensures
        departs_before(a, c),
{
    if a.minutes_till_departure == b.minutes_till_departure && b.minutes_till_departure
        == c.minutes_till_departure {
        lemma_text_lt_transitive(a.line, b.line, c.line);
    }
}

/// Where `insert_in_order` puts `x`.
spec fn insert_pos(s: Seq<TrainView>, x: TrainView) -> int
    decreases s.len(),
{
    if s.len() == 0 {
        0
    } else if departs_before(x, s[0]) {
        0
    } else {
        1 + insert_pos(s.drop_first(), x)
    }
}

proof fn lemma_insert_pos(s: Seq<TrainView>, x: TrainView)
    ensures
        0 <= insert_pos(s, x) <= s.len(),
        forall|k: int| 0 <= k < insert_pos(s, x) ==> !departs_before(x, #[trigger] s[k]),
        insert_pos(s, x) == s.len() || departs_before(x, s[insert_pos(s, x)]),
        insert_in_order(s, x) == s.insert(insert_pos(s, x), x),
    decreases s.len(),
{
    if s.len() > 0 && !departs_before(x, s[0]) {
        let t = s.drop_first();
        lemma_insert_pos(t, x);
        assert forall|k: int| 0 <= k < insert_pos(s, x) implies !departs_before(
            x,
            #[trigger] s[k],
        ) by {
            if k > 0 {
                assert(s[k] == t[k - 1]);
            }
        }
    }
    lemma_insert_at(s, x, insert_pos(s, x));
}

proof fn lemma_insert_in_order(s: Seq<TrainView>, x: TrainView)
    requires
        in_order(s),
    ensures
        in_order(insert_in_order(s, x)),
        insert_in_order(s, x).to_multiset() == s.to_multiset().insert(x),
{
    broadcast use vstd::seq_lib::group_to_multiset_ensures;

    lemma_insert_pos(s, x);
    let p = insert_pos(s, x);
    let r = s.insert(p, x);
    assert forall|i: int, j: int| 0 <= i < j < r.len() implies !departs_before(
        #[trigger] r[j],
        #[trigger] r[i],
    ) by {
        if i < p && j == p {
        } else if i == p && j > p {
            assert(r[j] == s[j - 1]);
            lemma_departs_before_asymmetric(s[p], s[j - 1]);
            if departs_before(s[j - 1], x) {
                lemma_departs_before_transitive(s[j - 1], x, s[p]);
                lemma_departs_before_asymmetric(x, s[p]);
            }
        } else if i < p && j > p {
            assert(r[j] == s[j - 1]);
        } else if i > p {
            assert(r[i] == s[i - 1] && r[j] == s[j - 1]);
        }
    }
}

/// The board's order is sorted: no train departs before one listed ahead
/// of it.
pub proof fn lemma_departure_order_sorted(s: Seq<TrainView>)
    ensures
        in_order(in_departure_order(s)),
    decreases s.len(),
{
    if s.len() > 0 {
        lemma_departure_order_sorted(s.drop_last());
        lemma_insert_in_order(in_departure_order(s.drop_last()), s.last());
    }
}

/// The board's order lists each train of `s` as often as `s` does: it is a
/// permutation.
pub proof fn lemma_departure_order_permutes(s: Seq<TrainView>)
    ensures
        in_departure_order(s).to_multiset() == s.to_multiset(),
    decreases s.len(),
{
    broadcast use vstd::seq_lib::group_to_multiset_ensures;

    if s.len() > 0 {
        lemma_departure_order_permutes(s.drop_last());
        lemma_departure_order_sorted(s.drop_last());
        lemma_insert_in_order(in_departure_order(s.drop_last()), s.last());
        assert(s =~= s.drop_last().push(s.last()));
    } else {
        assert(s.to_multiset() =~= vstd::multiset::Multiset::empty());
    }
}


/// Whether two trains compare equal in the board's order: same minute,
/// same line.
pub open spec fn same_key(a: TrainView, b: TrainView) -> bool {
    a.minutes_till_departure == b.minutes_till_departure && a.line == b.line
}

/// The trains of `s` that compare equal to `k`, in their order in `s`.
pub open spec fn with_key(s: Seq<TrainView>, k: TrainView) -> Seq<TrainView>
    decreases s.len(),
{
    if s.len() == 0 {
        s
    } else if same_key(s[0], k) {
        seq![s[0]] + with_key(s.drop_first(), k)
    } else {
        with_key(s.drop_first(), k)
    }
}

proof fn lemma_with_key_add(a: Seq<TrainView>, b: Seq<TrainView>, k: TrainView)
    ensures
        with_key(a + b, k) == with_key(a, k) + with_key(b, k),
    decreases a.len(),
{
    if a.len() == 0 {
        assert(a + b =~= b);
        assert(with_key(a, k) + with_key(b, k) =~= with_key(b, k));
    } else {
        assert((a + b).drop_first() =~= a.drop_first() + b);
        lemma_with_key_add(a.drop_first(), b, k);
        if same_key(a[0], k) {
            assert(seq![a[0]] + (with_key(a.drop_first(), k) + with_key(b, k)) =~= (seq![a[0]]
                + with_key(a.drop_first(), k)) + with_key(b, k));
        }
    }
}

proof fn lemma_with_key_none(s: Seq<TrainView>, k: TrainView)
    requires
        forall|i: int| 0 <= i < s.len() ==> !same_key(#[trigger] s[i], k),
    ensures
        with_key(s, k) == Seq::<TrainView>::empty(),
    decreases s.len(),
{
    if s.len() > 0 {
        assert(!same_key(s[0], k));
        assert forall|i: int| 0 <= i < s.drop_first().len() implies !same_key(
            #[trigger] s.drop_first()[i],
            k,
        ) by {
            assert(s.drop_first()[i] == s[i + 1]);
        }
        lemma_with_key_none(s.drop_first(), k);
    }
}

/// `x` alone where it compares equal to `k`, and nothing otherwise.
pub open spec fn key_part(x: TrainView, k: TrainView) -> Seq<TrainView> {
    if same_key(x, k) {
        seq![x]
    } else {
        Seq::empty()
    }
}

proof fn lemma_with_key_insert(s: Seq<TrainView>, x: TrainView, k: TrainView)
    requires
        in_order(s),
    ensures
        with_key(insert_in_order(s, x), k) == with_key(s, k) + key_part(x, k),
    decreases s.len(),
{
    if s.len() == 0 {
        assert(with_key(seq![x], k) =~= key_part(x, k)) by {
            assert(seq![x].drop_first() =~= Seq::<TrainView>::empty());
            assert(with_key(Seq::<TrainView>::empty(), k) == Seq::<TrainView>::empty());
            assert(seq![x][0] == x);
        }
        assert(with_key(s, k) + key_part(x, k) =~= key_part(x, k));
    } else if departs_before(x, s[0]) {
        assert((seq![x] + s).drop_first() =~= s);
        assert((seq![x] + s)[0] == x);
        if same_key(x, k) {
            assert forall|i: int| 0 <= i < s.len() implies !same_key(#[trigger] s[i], k) by {
                if same_key(s[i], k) {
                    if i == 0 {
                        lemma_departs_before_asymmetric(s[0], s[0]);
                    } else {
                        assert(!departs_before(s[i], s[0]));
                    }
                }
            }
            lemma_with_key_none(s, k);
            assert(with_key(seq![x] + s, k) =~= seq![x]);
            assert(with_key(s, k) + key_part(x, k) =~= seq![x]);
        } else {
            assert(with_key(s, k) + key_part(x, k) =~= with_key(s, k));
        }
    } else {
        let t = s.drop_first();
        assert forall|i: int, j: int| 0 <= i < j < t.len() implies !departs_before(
            #[trigger] t[j],
            #[trigger] t[i],
        ) by {
            assert(t[i] == s[i + 1] && t[j] == s[j + 1]);
        }
        lemma_with_key_insert(t, x, k);
        let r = seq![s[0]] + insert_in_order(t, x);
        assert(r.drop_first() =~= insert_in_order(t, x));
        assert(r[0] == s[0]);
        if same_key(s[0], k) {
            assert(with_key(r, k) =~= with_key(s, k) + key_part(x, k));
        } else {
            assert(with_key(r, k) =~= with_key(s, k) + key_part(x, k));
        }
    }
}

/// The board's order is stable: trains that compare equal (same minute,
/// same line) keep the order they had in the list.
pub proof fn lemma_departure_order_stable(s: Seq<TrainView>, k: TrainView)
    ensures
        with_key(in_departure_order(s), k) == with_key(s, k),
    decreases s.len(),
{
    if s.len() > 0 {
        let init = s.drop_last();
        lemma_departure_order_stable(init, k);
        lemma_departure_order_sorted(init);
        lemma_with_key_insert(in_departure_order(init), s.last(), k);
        assert(s =~= init + seq![s.last()]);
        lemma_with_key_add(init, seq![s.last()], k);
        assert(with_key(seq![s.last()], k) =~= key_part(s.last(), k)) by {
            assert(seq![s.last()].drop_first() =~= Seq::<TrainView>::empty());
            assert(with_key(Seq::<TrainView>::empty(), k) == Seq::<TrainView>::empty());
            assert(seq![s.last()][0] == s.last());
        }
    }
}

proof fn lemma_kept_trains_kept(deps: Seq<Departure>, now: int)
    ensures
        kept_trains(deps, now) matches Ok(s) ==> forall|i: int| 0 <= i < s.len() ==> kept(#[trigger] s[i]),
    decreases deps.len(),
{
    if deps.len() > 0 {
        lemma_kept_trains_kept(deps.drop_last(), now);
    }
}

/// The board shows at most ten trains, each leaving in more than five
/// minutes, sorted by departure and then by line, and each of them one of
/// the departures that the list holds.
pub proof fn lemma_board_shape(deps: Seq<Departure>, now: int)
    ensures
        board(deps, now) matches Ok(s) ==> {
            &&& s.len() <= MAX_TRAINS
            &&& in_order(s)
            &&& forall|i: int| 0 <= i < s.len() ==> kept(#[trigger] s[i])
            &&& kept_trains(deps, now) matches Ok(all) && s.to_multiset().subset_of(all.to_multiset())
        },
{
    broadcast use vstd::seq_lib::group_to_multiset_ensures;

    if let Ok(all) = kept_trains(deps, now) {
        let sorted = in_departure_order(all);
        lemma_departure_order_sorted(all);
        lemma_departure_order_permutes(all);
        lemma_kept_trains_kept(deps, now);
        let s = first_shown(sorted);
        assert forall|i: int| 0 <= i < s.len() implies kept(#[trigger] s[i]) by {
            assert(s[i] == sorted[i]);
            assert(sorted.contains(sorted[i]));
            assert(sorted.to_multiset().count(sorted[i]) > 0);
            assert(all.to_multiset().count(sorted[i]) > 0);
            assert(all.contains(sorted[i]));
            let k = choose|k: int| 0 <= k < all.len() && all[k] == sorted[i];
            assert(kept(all[k]));
        }
        assert forall|i: int, j: int| 0 <= i < j < s.len() implies !departs_before(
            #[trigger] s[j],
            #[trigger] s[i],
        ) by {
            assert(s[i] == sorted[i] && s[j] == sorted[j]);
        }
        if sorted.len() > MAX_TRAINS {
            let rest = sorted.skip(MAX_TRAINS as int);
            assert(sorted =~= s + rest);
            vstd::seq_lib::lemma_multiset_commutative(s, rest);
            assert(sorted.to_multiset() =~= s.to_multiset().add(rest.to_multiset()));
        }
    }
}


/// Every departure whose entry leaves in more than five minutes (and not so
/// long ago that its minutes wrap around) is among the kept trains, whatever
/// its delay.
proof fn lemma_kept_trains_has(deps: Seq<Departure>, now: int, j: int)
    requires
        0 <= j < deps.len(),
        kept_trains(deps, now) is Ok,
        train_of(deps[j], now) is Ok,
        5 < train_of(deps[j], now)->Ok_0.minutes_till_departure,
        train_of(deps[j], now)->Ok_0.minutes_till_departure < u64::MAX - 100,
    ensures
        kept_trains(deps, now)->Ok_0.contains(train_of(deps[j], now)->Ok_0),
    decreases deps.len(),
{
    let init = deps.drop_last();
    let t = train_of(deps[j], now)->Ok_0;
    let all = kept_trains(deps, now)->Ok_0;
    if j == deps.len() - 1 {
        assert(deps.last() == deps[j]);
        assert(all[all.len() - 1] == t);
    } else {
        assert(init[j] == deps[j]);
        lemma_kept_trains_has(init, now, j);
        let prev = kept_trains(init, now)->Ok_0;
        let k = choose|k: int| 0 <= k < prev.len() && prev[k] == t;
        assert(all[k] == prev[k]);
    }
}

/// The board misses no train: every departure whose entry leaves in more
/// than five minutes (and not so long ago that its minutes wrap around) is
/// on the board, delayed or not, unless the board is full with ten trains
/// none of which it departs before.
pub proof fn lemma_board_complete(deps: Seq<Departure>, now: int, j: int)
    requires
        0 <= j < deps.len(),
        board(deps, now) is Ok,
        train_of(deps[j], now) is Ok,
        5 < train_of(deps[j], now)->Ok_0.minutes_till_departure,
        train_of(deps[j], now)->Ok_0.minutes_till_departure < u64::MAX - 100,
    ensures
        board(deps, now)->Ok_0.contains(train_of(deps[j], now)->Ok_0) || (board(deps, now)->Ok_0.len()
            == 10 && forall|i: int|
            0 <= i < 10 ==> !departs_before(
                train_of(deps[j], now)->Ok_0,
                #[trigger] board(deps, now)->Ok_0[i],
            )),
{
    broadcast use vstd::seq_lib::group_to_multiset_ensures;

    let t = train_of(deps[j], now)->Ok_0;
    lemma_kept_trains_has(deps, now, j);
    let all = kept_trains(deps, now)->Ok_0;
    let sorted = in_departure_order(all);
    lemma_departure_order_permutes(all);
    lemma_departure_order_sorted(all);
    assert(all.to_multiset().count(t) > 0);
    assert(sorted.to_multiset().count(t) > 0);
    assert(sorted.contains(t));
    let k = choose|k: int| 0 <= k < sorted.len() && sorted[k] == t;
    let s = board(deps, now)->Ok_0;
    assert(s == first_shown(sorted));
    if k < s.len() {
        assert(s[k] == sorted[k]);
    } else {
        assert forall|i: int| 0 <= i < 10 implies !departs_before(t, #[trigger] s[i]) by {
            assert(s[i] == sorted[i]);
        }
    }
}

/// The delay shown is the time from the planned to the real departure in
/// whole minutes, whatever hour or day lies between; a delay below five
/// minutes is not shown.
pub proof fn lemma_delay_minutes(dep: Departure, now: int, k: int)
    requires
        0 <= k,
        field_seconds(dep.date_time) is Ok,
        dep.real_date_time is Some,
        field_seconds(dep.real_date_time->Some_0) == Ok::<int, TrainError>(
            field_seconds(dep.date_time)->Ok_0 + 60 * k,
        ),
    ensures
        train_of(dep, now) is Ok,
        train_of(dep, now)->Ok_0.delay == (if k < 5 {
            None::<u64>
        } else {
            Some(k as u64)
        }),
        k < 5 || train_of(dep, now)->Ok_0.delay->Some_0 == k,
{
    let p = field_seconds(dep.date_time)->Ok_0;
    lemma_field_seconds_bounds(dep.date_time);
    lemma_field_seconds_bounds(dep.real_date_time->Some_0);
    assert(whole_minutes(60 * k) == k);
    assert(k < 0x1_0000_0000_0000_0000);
}

/// The minutes till departure are the whole minutes from `now` to the
/// planned time, whatever hour or day lies between.
pub proof fn lemma_minutes_till_departure(dep: Departure, now: i64, k: int)
    requires
        0 <= k,
        field_seconds(dep.date_time) == Ok::<int, TrainError>(now + 60 * k),
        train_of(dep, now as int) is Ok,
    ensures
        train_of(dep, now as int)->Ok_0.minutes_till_departure == k,
{
    lemma_field_seconds_bounds(dep.date_time);
    assert(whole_minutes(60 * k) == k);
}

/// The board names a departure by its direction as given and by its line
/// number `a(g)b` cut to `ab`, where `a` holds no `(` and `g` no `)`.
pub proof fn lemma_train_names(dep: Departure, now: int, a: Seq<char>, g: Seq<char>, b: Seq<char>)
    requires
        train_of(dep, now) is Ok,
        dep.serving_line.number@ == a + seq!['('] + g + seq![')'] + b,
        forall|i: int| 0 <= i < a.len() ==> a[i] != '(',
        forall|i: int| 0 <= i < g.len() ==> g[i] != ')',
    ensures
        train_of(dep, now)->Ok_0.line == a + b,
        train_of(dep, now)->Ok_0.direction == dep.serving_line.direction@,
{
    lemma_first_group_cut(a, g, b);
}

/// Whether departure `d` gives an entry that leaves in more than five
/// minutes and not so long ago that its minutes wrap around.
pub open spec fn leaves_soon(d: Departure, now: int) -> bool {
    &&& train_of(d, now) is Ok
    &&& 5 < train_of(d, now)->Ok_0.minutes_till_departure
    &&& train_of(d, now)->Ok_0.minutes_till_departure < u64::MAX - 100
}

/// The board is drawn from exactly the departures that leave soon, one
/// entry each in the order of the list, delayed or not: the board is their
/// first ten in departure order.
pub proof fn lemma_board_draws_from(deps: Seq<Departure>, now: int)
    requires
        board(deps, now) is Ok,
    ensures
        kept_trains(deps, now) == Ok::<Seq<TrainView>, TrainError>(
            deps.filter(|d: Departure| leaves_soon(d, now)).map_values(
                |d: Departure| train_of(d, now)->Ok_0,
            ),
        ),
        board(deps, now)->Ok_0 == first_shown(
            in_departure_order(
                deps.filter(|d: Departure| leaves_soon(d, now)).map_values(
                    |d: Departure| train_of(d, now)->Ok_0,
                ),
            ),
        ),
    decreases deps.len(),
{
    let pred = |d: Departure| leaves_soon(d, now);
    let f = |d: Departure| train_of(d, now)->Ok_0;
    reveal(Seq::filter);
    if deps.len() == 0 {
        assert(deps.filter(pred) =~= Seq::<Departure>::empty());
        assert(deps.filter(pred).map_values(f) =~= Seq::<TrainView>::empty());
    } else {
        let init = deps.drop_last();
        lemma_kept_trains_ok_prefix(deps, now);
        lemma_board_draws_from(init, now);
        let prev = init.filter(pred);
        if pred(deps.last()) {
            assert(prev.push(deps.last()).map_values(f) =~= prev.map_values(f).push(
                f(deps.last()),
            ));
        }
    }
}

/// A list whose board can be read has a readable board without its last
/// departure.
proof fn lemma_kept_trains_ok_prefix(deps: Seq<Departure>, now: int)
    requires
        deps.len() > 0,
        kept_trains(deps, now) is Ok,
    ensures
        kept_trains(deps.drop_last(), now) is Ok,
        board(deps.drop_last(), now) is Ok,
{
}

/// A time that the fields name lies within ten thousand years of 1970 on
/// the one side and a million on the other.
proof fn lemma_field_seconds_bounds(f: DateTimeFields)
    ensures
        field_seconds(f) matches Ok(s) ==> -100_000_000_000_000 < s < 1_000_000_000_000,
{
    if let Some((y, m, d, h, mi)) = field_numbers(f) {
        if fields_name_time(y, m, d, h, mi) {
            let days = days_from_civil(y as int, m as int, d as int);
            assert(-1_000_000_000 < days < 10_000_000);
        }
    }
}

/// Whether no two trains of `s` compare equal.
pub open spec fn distinct_keys(s: Seq<TrainView>) -> bool {
    forall|i: int, j: int| 0 <= i < j < s.len() ==> !same_key(#[trigger] s[i], #[trigger] s[j])
}

proof fn lemma_departs_before_total(a: TrainView, b: TrainView)
    ensures
        departs_before(a, b) || departs_before(b, a) || same_key(a, b),
{
    lemma_text_lt_total(a.line, b.line);
}

/// Two lists in the board's order that hold the same trains, no two of
/// which compare equal, are the same list.
proof fn lemma_in_order_unique(a: Seq<TrainView>, b: Seq<TrainView>)
    requires
        in_order(a),
        in_order(b),
        distinct_keys(a),
        a.to_multiset() == b.to_multiset(),
    ensures
        a == b,
    decreases a.len(),
{
    broadcast use vstd::seq_lib::group_to_multiset_ensures;

    if a.len() == 0 {
        assert(b.len() == 0);
        assert(a =~= b);
    } else {
        assert(a.to_multiset().len() == a.len());
        assert(b.to_multiset().len() == b.len());
        assert(b.len() == a.len());
        assert(a.to_multiset().count(a[0]) > 0);
        assert(b.contains(a[0]));
        assert(b.to_multiset().count(b[0]) > 0);
        assert(a.contains(b[0]));
        let k = choose|k: int| 0 <= k < b.len() && b[k] == a[0];
        let m = choose|m: int| 0 <= m < a.len() && a[m] == b[0];
        if m != 0 {
            assert(!departs_before(a[m], a[0]));
            assert(!same_key(a[0], a[m]));
            lemma_departs_before_total(a[0], a[m]);
            if k != 0 {
                assert(!departs_before(b[k], b[0]));
                lemma_departs_before_asymmetric(a[0], a[m]);
            }
        }
        assert(a[0] == b[0]);
        let a1 = a.drop_first();
        let b1 = b.drop_first();
        assert(a1 =~= a.remove(0));
        assert(b1 =~= b.remove(0));
        assert(a.remove(0).to_multiset() == a.to_multiset().remove(a[0]));
        assert(b.remove(0).to_multiset() == b.to_multiset().remove(b[0]));
        assert forall|i: int, j: int| 0 <= i < j < a1.len() implies !departs_before(
            #[trigger] a1[j],
            #[trigger] a1[i],
        ) by {
            assert(a1[i] == a[i + 1] && a1[j] == a[j + 1]);
        }
        assert forall|i: int, j: int| 0 <= i < j < b1.len() implies !departs_before(
            #[trigger] b1[j],
            #[trigger] b1[i],
        ) by {
            assert(b1[i] == b[i + 1] && b1[j] == b[j + 1]);
        }
        assert forall|i: int, j: int| 0 <= i < j < a1.len() implies !same_key(
            #[trigger] a1[i],
            #[trigger] a1[j],
        ) by {
            assert(a1[i] == a[i + 1] && a1[j] == a[j + 1]);
        }
        lemma_in_order_unique(a1, b1);
        assert(a =~= seq![a[0]] + a1);
        assert(b =~= seq![b[0]] + b1);
    }
}

/// The kept trains of two lists one after the other are those of the
/// first, then those of the second; the first error decides.
pub proof fn lemma_kept_trains_concat(a: Seq<Departure>, b: Seq<Departure>, now: int)
    ensures
        kept_trains(a + b, now) == match kept_trains(a, now) {
            Err(e) => Err(e),
            Ok(x) => match kept_trains(b, now) {
                Err(e) => Err(e),
                Ok(y) => Ok(x + y),
            },
        },
    decreases b.len(),
{
    if b.len() == 0 {
        assert(a + b =~= a);
        if let Ok(x) = kept_trains(a, now) {
            assert(x + Seq::<TrainView>::empty() =~= x);
        }
    } else {
        lemma_kept_trains_concat(a, b.drop_last(), now);
        assert((a + b).drop_last() =~= a + b.drop_last());
        assert((a + b).last() == b.last());
        if let (Ok(x), Ok(y)) = (kept_trains(a, now), kept_trains(b.drop_last(), now)) {
            if let Ok(t) = train_of(b.last(), now) {
                assert((x + y).push(t) =~= x + y.push(t));
            }
        }
    }
}

/// The kept trains of a single departure.
proof fn lemma_kept_trains_single(d: Departure, now: int)
    ensures
        kept_trains(seq![d], now) == match train_of(d, now) {
            Err(e) => Err(e),
            Ok(t) => Ok::<Seq<TrainView>, TrainError>(
                if kept(t) {
                    seq![t]
                } else {
                    Seq::empty()
                },
            ),
        },
{
    assert(seq![d].drop_last() =~= Seq::<Departure>::empty());
    assert(seq![d].last() == d);
    assert(kept_trains(Seq::<Departure>::empty(), now) == Ok::<Seq<TrainView>, TrainError>(
        Seq::empty(),
    ));
    assert(Seq::<TrainView>::empty().push(train_of(d, now)->Ok_0) =~= seq![
        train_of(d, now)->Ok_0,
    ]);
}

/// Taking out the departure at `i` of `d2` leaves the rest in order.
proof fn lemma_split_at(d2: Seq<Departure>, i: int)
    requires
        0 <= i < d2.len(),
    ensures
        d2 == d2.take(i) + seq![d2[i]] + d2.skip(i + 1),
        (d2.take(i) + d2.skip(i + 1)).to_multiset() == d2.to_multiset().remove(d2[i]),
{
    broadcast use vstd::seq_lib::group_to_multiset_ensures;

    assert(d2 =~= d2.take(i) + seq![d2[i]] + d2.skip(i + 1));
    assert(d2.take(i) + d2.skip(i + 1) =~= d2.remove(i));
}

/// Reordering a readable departure list keeps the same trains, as often.
#[verifier::rlimit(60)]
proof fn lemma_kept_trains_permuted(d1: Seq<Departure>, d2: Seq<Departure>, now: int)
    requires
        d1.to_multiset() == d2.to_multiset(),
        kept_trains(d1, now) is Ok,
    ensures
        kept_trains(d2, now) is Ok,
        kept_trains(d2, now)->Ok_0.to_multiset() == kept_trains(d1, now)->Ok_0.to_multiset(),
    decreases d1.len(),
{
    if d1.len() == 0 {
        assert(d2.len() == 0) by {
            broadcast use vstd::seq_lib::group_to_multiset_ensures;

            assert(d1.to_multiset().len() == d1.len());
            assert(d2.to_multiset().len() == d2.len());
        }
        assert(d2 =~= d1);
    } else {
        let x = d1.last();
        let init = d1.drop_last();
        let i = choose|i: int| 0 <= i < d2.len() && d2[i] == x;
        assert(exists|i: int| 0 <= i < d2.len() && d2[i] == x) by {
            broadcast use vstd::seq_lib::group_to_multiset_ensures;

            assert(d1 =~= init.push(x));
            assert(d1.to_multiset().count(x) > 0);
            assert(d2.contains(x));
        }
        let p = d2.take(i);
        let q = d2.skip(i + 1);
        lemma_split_at(d2, i);
        assert(init.to_multiset() == (p + q).to_multiset()) by {
            broadcast use vstd::seq_lib::group_to_multiset_ensures;

            assert(d1 =~= init.push(x));
            assert(d1.to_multiset() == init.to_multiset().insert(x));
            assert(init.to_multiset() =~= d1.to_multiset().remove(x));
        }
        lemma_kept_trains_concat(init, seq![x], now);
        assert(init + seq![x] =~= d1);
        lemma_kept_trains_single(x, now);
        lemma_kept_trains_permuted(init, p + q, now);
        lemma_kept_trains_concat(p, q, now);
        lemma_kept_trains_concat(p, seq![x], now);
        lemma_kept_trains_concat(p + seq![x], q, now);
        let kp = kept_trains(p, now)->Ok_0;
        let kq = kept_trains(q, now)->Ok_0;
        let kx = kept_trains(seq![x], now)->Ok_0;
        let ki = kept_trains(init, now)->Ok_0;
        assert(kept_trains(d1, now)->Ok_0 == ki + kx);
        assert(kept_trains(d2, now)->Ok_0 == (kp + kx) + kq);
        assert(((kp + kx) + kq).to_multiset() =~= (ki + kx).to_multiset()) by {
            vstd::seq_lib::lemma_multiset_commutative(kp, kq);
            vstd::seq_lib::lemma_multiset_commutative(kp, kx);
            vstd::seq_lib::lemma_multiset_commutative(kp + kx, kq);
            vstd::seq_lib::lemma_multiset_commutative(ki, kx);
        }
    }
}

/// The order of the departure list does not change the board: a list
/// holding the same departures, as often, gives the same board, where the
/// list can be read and no two of its kept trains compare equal.
pub proof fn lemma_board_ignores_list_order(d1: Seq<Departure>, d2: Seq<Departure>, now: int)
    requires
        d1.to_multiset() == d2.to_multiset(),
        kept_trains(d1, now) is Ok,
        distinct_keys(kept_trains(d1, now)->Ok_0),
    ensures
        board(d2, now) == board(d1, now),
{
    broadcast use vstd::seq_lib::group_to_multiset_ensures;

    lemma_kept_trains_permuted(d1, d2, now);
    let k1 = kept_trains(d1, now)->Ok_0;
    let k2 = kept_trains(d2, now)->Ok_0;
    lemma_departure_order_sorted(k1);
    lemma_departure_order_sorted(k2);
    lemma_departure_order_permutes(k1);
    lemma_departure_order_permutes(k2);
    let s1 = in_departure_order(k1);
    let s2 = in_departure_order(k2);
    assert forall|i: int, j: int| 0 <= i < j < s1.len() implies !same_key(
        #[trigger] s1[i],
        #[trigger] s1[j],
    ) by {
        lemma_distinct_keys_of_permutation(k1, s1, i, j);
    }
    lemma_in_order_unique(s1, s2);
}

proof fn lemma_distinct_keys_of_permutation(k: Seq<TrainView>, s: Seq<TrainView>, i: int, j: int)
    requires
        distinct_keys(k),
        s.to_multiset() == k.to_multiset(),
        0 <= i < j < s.len(),
    ensures
        !same_key(s[i], s[j]),
{
    broadcast use vstd::seq_lib::group_to_multiset_ensures;

    if same_key(s[i], s[j]) {
        if s[i] == s[j] {
            let a = s.remove(j);
            assert(a[i] == s[i]);
            assert(a.to_multiset().count(s[i]) > 0);
            assert(a.to_multiset() == s.to_multiset().remove(s[j]));
            assert(k.to_multiset().count(s[i]) >= 2);
            let x = choose|x: int| 0 <= x < k.len() && k[x] == s[i];
            let kr = k.remove(x);
            assert(kr.to_multiset() == k.to_multiset().remove(s[i]));
            assert(kr.to_multiset().count(s[i]) > 0);
            assert(kr.contains(s[i]));
            let y = choose|y: int| 0 <= y < kr.len() && kr[y] == s[i];
            if y < x {
                assert(kr[y] == k[y]);
            } else {
                assert(kr[y] == k[y + 1]);
            }
        } else {
            assert(s.to_multiset().count(s[i]) > 0);
            assert(s.to_multiset().count(s[j]) > 0);
            assert(k.contains(s[i]));
            assert(k.contains(s[j]));
            let x = choose|x: int| 0 <= x < k.len() && k[x] == s[i];
            let y = choose|y: int| 0 <= y < k.len() && k[y] == s[j];
            assert(x != y);
        }
    }
}

/// A departure that the board does not keep (five minutes or less away,
/// or just gone) changes nothing, wherever it stands in the list.
pub proof fn lemma_board_ignores_dropped_train(
    a: Seq<Departure>,
    b: Seq<Departure>,
    d: Departure,
    now: int,
)
    requires
        train_of(d, now) is Ok,
        !kept(train_of(d, now)->Ok_0),
    ensures
        board(a + seq![d] + b, now) == board(a + b, now),
        kept_trains(a + seq![d] + b, now) == kept_trains(a + b, now),
{
    lemma_kept_trains_concat(a, seq![d], now);
    lemma_kept_trains_concat(a + seq![d], b, now);
    lemma_kept_trains_concat(a, b, now);
    lemma_kept_trains_single(d, now);
    if let Ok(x) = kept_trains(a, now) {
        assert(x + Seq::<TrainView>::empty() =~= x);
    }
}

} // verus!
