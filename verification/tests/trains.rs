use fscs_monitor_plus::trains::{
    departures_url, sort_trains, train_from_departure, trains_from_departures, DateTimeFields,
    Departure, ServingLine, Train, TrainError, TrainStation, MAX_TRAINS,
};

const NOON: i64 = 1709640000; // 2024-03-05 12:00 on the local clock

fn fields(y: &str, mo: &str, d: &str, h: &str, mi: &str) -> DateTimeFields {
    DateTimeFields {
        year: y.to_string(),
        month: mo.to_string(),
        day: d.to_string(),
        hour: h.to_string(),
        minute: mi.to_string(),
    }
}

fn departure(line: &str, minute: &str, real_minute: Option<&str>) -> Departure {
    Departure {
        serving_line: ServingLine { number: line.to_string(), direction: "Düsseldorf Hbf".to_string() },
        date_time: fields("2024", "3", "5", "12", minute),
        real_date_time: real_minute.map(|m| fields("2024", "3", "5", "12", m)),
    }
}

fn train(line: &str, minutes: u64) -> Train {
    Train { line: line.to_string(), direction: String::new(), minutes_till_departure: minutes, delay: None }
}

#[test]
fn url_of_a_stop() {
    let station = TrainStation { name: "Uni Ost".to_string(), id: 20018296 };
    assert_eq!(
        departures_url(station.id, 200),
        "https://app.vrr.de/vrrstd/XML_DM_REQUEST?outputFormat=JSON&commonMacro=dm&type_dm=any&name_dm=20018296&language=de&useRealtime=1&lsShowTrainsExplicit=1&mode=direct&typeInfo_dm=stopID&limit=200"
    );
}

#[test]
fn minutes_and_delay() {
    let t = train_from_departure(&departure("U79 (D-Nord)", "10", Some("17")), NOON).unwrap();
    assert_eq!(t.line, "U79 ");
    assert_eq!(t.direction, "Düsseldorf Hbf");
    assert_eq!(t.minutes_till_departure, 10);
    assert_eq!(t.delay, Some(7));
    assert_eq!(t.departure_text(), "(+7) 10m");
}

#[test]
fn small_delay_is_not_shown() {
    let t = train_from_departure(&departure("735", "10", Some("14")), NOON).unwrap();
    assert_eq!(t.delay, None);
    assert_eq!(t.departure_text(), "10m");
    let t = train_from_departure(&departure("735", "10", Some("15")), NOON).unwrap();
    assert_eq!(t.delay, Some(5));
}

#[test]
fn early_train_wraps_its_delay() {
    let t = train_from_departure(&departure("735", "10", Some("08")), NOON).unwrap();
    assert_eq!(t.delay, Some(u64::MAX - 1));
}

#[test]
fn minutes_round_toward_zero() {
    let t = train_from_departure(&departure("S1", "10", None), NOON + 59).unwrap();
    assert_eq!(t.minutes_till_departure, 9);
    let t = train_from_departure(&departure("S1", "00", None), NOON + 59).unwrap();
    assert_eq!(t.minutes_till_departure, 0);
    let t = train_from_departure(&departure("S1", "00", None), NOON + 60).unwrap();
    assert_eq!(t.minutes_till_departure, u64::MAX);
}

#[test]
fn unreadable_fields() {
    let mut d = departure("S1", "10", None);
    d.date_time.minute = "ten".to_string();
    assert_eq!(train_from_departure(&d, NOON).unwrap_err(), TrainError::BadNumber);
    let mut d = departure("S1", "10", None);
    d.date_time.day = "30".to_string();
    d.date_time.month = "2".to_string();
    assert_eq!(train_from_departure(&d, NOON).unwrap_err(), TrainError::BadDate);
    let mut d = departure("S1", "10", None);
    d.date_time.hour = "24".to_string();
    assert_eq!(train_from_departure(&d, NOON).unwrap_err(), TrainError::BadDate);
    let mut d = departure("S1", "10", None);
    d.date_time.year = "10000".to_string();
    assert_eq!(train_from_departure(&d, NOON).unwrap_err(), TrainError::BadDate);
    let d = departure("S1", "10", Some("6O"));
    assert_eq!(train_from_departure(&d, NOON).unwrap_err(), TrainError::BadNumber);
}

#[test]
fn leap_day_and_epoch() {
    let d = Departure {
        serving_line: ServingLine { number: "S1".to_string(), direction: "X".to_string() },
        date_time: fields("2000", "02", "29", "23", "59"),
        real_date_time: None,
    };
    let t = train_from_departure(&d, 951868740 - 600).unwrap();
    assert_eq!(t.minutes_till_departure, 10);
    let d = Departure {
        serving_line: ServingLine { number: "S1".to_string(), direction: "X".to_string() },
        date_time: fields("1970", "1", "1", "0", "7"),
        real_date_time: None,
    };
    assert_eq!(train_from_departure(&d, 0).unwrap().minutes_till_departure, 7);
}

#[test]
fn sort_by_departure_then_line() {
    let sorted = sort_trains(vec![train("U79", 12), train("S1", 7), train("U75", 12), train("735", 7), train("U79", 9)]);
    let keys: Vec<(u64, String)> = sorted.iter().map(|t| (t.minutes_till_departure, t.line.clone())).collect();
    assert_eq!(
        keys,
        vec![(7, "735".to_string()), (7, "S1".to_string()), (9, "U79".to_string()), (12, "U75".to_string()), (12, "U79".to_string())]
    );
}

#[test]
fn sort_is_stable() {
    let mut a = train("U79", 12);
    a.direction = "first".to_string();
    let mut b = train("U79", 12);
    b.direction = "second".to_string();
    let sorted = sort_trains(vec![a, train("S1", 3), b]);
    assert_eq!(sorted[1].direction, "first");
    assert_eq!(sorted[2].direction, "second");
}

#[test]
fn board_keeps_at_most_ten_later_trains() {
    let mut deps = Vec::new();
    for m in 0..15 {
        deps.push(departure(&format!("L{}", 14 - m), &format!("{:02}", 2 * m), None));
    }
    let board = trains_from_departures(&deps, NOON).unwrap();
    assert_eq!(board.len(), MAX_TRAINS);
    let minutes: Vec<u64> = board.iter().map(|t| t.minutes_till_departure).collect();
    assert_eq!(minutes, vec![6, 8, 10, 12, 14, 16, 18, 20, 22, 24]);
}

#[test]
fn board_drops_near_and_recent_trains() {
    let deps = vec![
        departure("A", "05", None),
        departure("B", "06", None),
        departure("C", "00", None),
    ];
    let board = trains_from_departures(&deps, NOON).unwrap();
    assert_eq!(board.len(), 1);
    assert_eq!(board[0].line, "B");
    // A train that left more than 101 minutes ago wraps around and stays.
    let old = Departure {
        serving_line: ServingLine { number: "Z".to_string(), direction: "X".to_string() },
        date_time: fields("2024", "3", "5", "9", "00"),
        real_date_time: None,
    };
    let board = trains_from_departures(&vec![old, departure("B", "06", None)], NOON).unwrap();
    assert_eq!(board.len(), 2);
    assert_eq!(board[0].line, "B");
    assert_eq!(board[1].minutes_till_departure, u64::MAX - 179);
}

#[test]
fn board_reports_the_first_error() {
    let mut bad_number = departure("A", "10", None);
    bad_number.date_time.year = "x".to_string();
    let mut bad_date = departure("B", "10", None);
    bad_date.date_time.month = "13".to_string();
    let deps = vec![departure("C", "20", None), bad_date, bad_number];
    assert_eq!(trains_from_departures(&deps, NOON).unwrap_err(), TrainError::BadDate);
    assert_eq!(trains_from_departures(&Vec::new(), NOON).unwrap().len(), 0);
}

#[test]
fn board_ignores_list_order() {
    let a = vec![departure("U79", "12", None), departure("S1", "20", Some("27")), departure("735", "08", None)];
    let b = vec![departure("735", "08", None), departure("U79", "12", None), departure("S1", "20", Some("27"))];
    let board_a = trains_from_departures(&a, NOON).unwrap();
    let board_b = trains_from_departures(&b, NOON).unwrap();
    let keys = |v: &Vec<Train>| v.iter().map(|t| (t.minutes_till_departure, t.line.clone(), t.delay)).collect::<Vec<_>>();
    assert_eq!(keys(&board_a), keys(&board_b));
    assert_eq!(keys(&board_a)[0], (8, "735".to_string(), None));
}

#[test]
fn board_ignores_near_train() {
    let a = vec![departure("U79", "12", None), departure("S1", "20", None)];
    let b = vec![departure("U79", "12", None), departure("704", "03", None), departure("S1", "20", None)];
    let lines = |v: Vec<Train>| v.into_iter().map(|t| t.line).collect::<Vec<_>>();
    assert_eq!(lines(trains_from_departures(&a, NOON).unwrap()), lines(trains_from_departures(&b, NOON).unwrap()));
}
