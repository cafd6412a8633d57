use chrono::TimeZone;
use fscs_monitor_plus::mensa::{
    closing_shift_days, counters_of_block, counters_on, day_selector, essen_from_counter, menu_day, menu_from_counters,
    menu_of_page, menu_on_day,
    menu_url, weekend_shift_days, CounterTable, Mensa, MensaError, PageElement,
};

fn texts(pieces: &[&str]) -> Vec<String> {
    pieces.iter().map(|s| s.to_string()).collect()
}

#[test]
fn default_mensa_is_empty() {
    let m = Mensa::default();
    assert_eq!(m.name, "");
    assert_eq!(m.id, "");
    assert!(m.speiseplan.is_empty());
}

#[test]
fn addresses() {
    assert_eq!(
        menu_url("essenausgabe-sued-duesseldorf"),
        "https://www.stw-d.de/en/speiseplaene/essenausgabe-sued-duesseldorf/"
    );
    assert_eq!(day_selector("05.03.2025"), "div[data-date=\"05.03.2025\"]");
}

#[test]
fn shifts() {
    assert_eq!(closing_shift_days(14, 30), 1);
    assert_eq!(closing_shift_days(20, 45), 1);
    assert_eq!(closing_shift_days(15, 10), 0);
    assert_eq!(closing_shift_days(13, 59), 0);
    assert_eq!(weekend_shift_days(5), 2);
    assert_eq!(weekend_shift_days(6), 2);
    assert_eq!(weekend_shift_days(0), 0);
    assert_eq!(weekend_shift_days(4), 0);
}

#[test]
fn menu_day_now_is_a_day() {
    let (now, _) = fscs_monitor_plus::clock::now_seconds();
    let day = menu_day(now).unwrap();
    assert!((1..=12).contains(&day.month));
    assert_eq!(menu_day(i64::MAX).unwrap_err(), MensaError::ClockOutOfRange);
}

#[test]
fn dish_of_a_counter() {
    let c = CounterTable {
        menu_texts: vec![texts(&["\n", "Linsensuppe [V]", "  ", "Brot [V]"])],
        thumbnail_style: Some("background-image: url(https://x/y.jpg)".to_string()),
    };
    let e = essen_from_counter(&c).unwrap();
    assert_eq!(e.name, "Linsensuppe [V]");
    assert!(e.vegan);
    assert_eq!(e.thumbnail, "https://x/y.jpg");
}

#[test]
fn last_list_names_the_dish() {
    let c = CounterTable {
        menu_texts: vec![texts(&["", "Salat [V]"]), texts(&["", "Schnitzel", "Pommes [V]"])],
        thumbnail_style: None,
    };
    let e = essen_from_counter(&c).unwrap();
    assert_eq!(e.name, "Schnitzel");
    assert!(!e.vegan);
    assert_eq!(e.thumbnail, "");
}

#[test]
fn counter_without_lists() {
    let c = CounterTable { menu_texts: vec![], thumbnail_style: None };
    let e = essen_from_counter(&c).unwrap();
    assert_eq!(e.name, "");
    assert!(e.vegan);
}

#[test]
fn counter_errors() {
    let c = CounterTable { menu_texts: vec![texts(&["only"]), texts(&["a", "b"])], thumbnail_style: None };
    assert_eq!(essen_from_counter(&c).unwrap_err(), MensaError::MissingName);
    let c = CounterTable { menu_texts: vec![], thumbnail_style: Some("color: red".to_string()) };
    assert_eq!(essen_from_counter(&c).unwrap_err(), MensaError::BadThumbnail);
    let c = CounterTable { menu_texts: vec![], thumbnail_style: Some("background-image: url(x".to_string()) };
    assert_eq!(essen_from_counter(&c).unwrap_err(), MensaError::BadThumbnail);
    let good = CounterTable { menu_texts: vec![], thumbnail_style: None };
    let bad = CounterTable { menu_texts: vec![texts(&["x"])], thumbnail_style: None };
    assert_eq!(menu_from_counters(&vec![good.clone(), bad]).unwrap_err(), MensaError::MissingName);
    assert_eq!(menu_from_counters(&vec![good.clone(), good]).unwrap().len(), 2);
}

#[test]
fn menu_page() {
    let html = r#"
        <div data-date="04.03.2025"><div class="counter-table"><div><ul><li>Gestern</li></ul></div></div></div>
        <div data-date="05.03.2025">
          <div class="counter-table">
            <div class="name"><ul> <li>Linsensuppe [V]</li><li>Brot [V]</li></ul></div>
            <div class="thumbnail" style="background-image: url(https://x/suppe.jpg)"></div>
          </div>
          <div class="counter-table">
            <div class="name"><ul> <li>Currywurst</li><li>Pommes [V]</li></ul></div>
          </div>
        </div>"#;
    let counters = counters_on(html, "05.03.2025").unwrap();
    assert_eq!(counters.len(), 2);
    let menu = menu_from_counters(&counters).unwrap();
    assert_eq!(menu[0].name, "Linsensuppe [V]");
    assert!(menu[0].vegan);
    assert_eq!(menu[0].thumbnail, "https://x/suppe.jpg");
    assert_eq!(menu[1].name, "Currywurst");
    assert!(!menu[1].vegan);
    assert_eq!(menu[1].thumbnail, "");
    assert!(counters_on(html, "06.03.2025").unwrap().is_empty());
    assert_eq!(counters_on(html, "\"]]").unwrap_err(), MensaError::BadSelector);
}

fn local_instant(y: i32, m: u32, d: u32, h: u32, mi: u32) -> i64 {
    chrono::Local.with_ymd_and_hms(y, m, d, h, mi, 0).unwrap().timestamp()
}

fn calendar_day(year: i32, month: u32, day: u32) -> fscs_monitor_plus::clock::CalendarDay {
    fscs_monitor_plus::clock::CalendarDay { year, month, day }
}

#[test]
fn menu_day_rules() {
    // Tuesday morning: that day.
    assert_eq!(menu_day(local_instant(2024, 1, 9, 10, 0)).unwrap(), calendar_day(2024, 1, 9));
    // Saturday: the Monday after.
    assert_eq!(menu_day(local_instant(2024, 1, 13, 10, 0)).unwrap(), calendar_day(2024, 1, 15));
    // Sunday: the Tuesday after (two days on).
    assert_eq!(menu_day(local_instant(2024, 1, 14, 10, 0)).unwrap(), calendar_day(2024, 1, 16));
    // Friday 14:30: the next day is a Saturday, so Monday.
    assert_eq!(menu_day(local_instant(2024, 1, 12, 14, 30)).unwrap(), calendar_day(2024, 1, 15));
    // Wednesday 14:45: Thursday.
    assert_eq!(menu_day(local_instant(2024, 1, 10, 14, 45)).unwrap(), calendar_day(2024, 1, 11));
    // Wednesday 15:10: the minute is below 30, so that day.
    assert_eq!(menu_day(local_instant(2024, 1, 10, 15, 10)).unwrap(), calendar_day(2024, 1, 10));
}

#[test]
fn menu_of_page_on_saturday_reads_monday() {
    let html = r#"<div data-date="15.01.2024"><div class="counter-table"><div><ul><li>[V]</li><li>Tofu [V]</li></ul></div><div class="thumbnail" style="background-image: url(a.jpg)"></div></div></div>"#;
    let menu = menu_of_page(html, local_instant(2024, 1, 13, 10, 0)).unwrap();
    assert_eq!(menu.len(), 1);
    assert_eq!(menu[0].name, "Tofu [V]");
    assert!(menu[0].vegan);
    assert_eq!(menu[0].thumbnail, "a.jpg");
}

#[test]
fn menu_of_page_ignores_other_days() {
    let html = r#"<div data-date="08.01.2024"><div class="counter-table"><div><ul><li>A</li><li>Soup</li></ul></div></div></div>"#;
    let menu = menu_of_page(html, local_instant(2024, 1, 9, 10, 0)).unwrap();
    assert!(menu.is_empty());
}

#[test]
fn menu_on_day_reads_the_days_block() {
    let html = r#"<div data-date="15.01.2024"><div class="counter-table"><div><ul><li>[V]</li><li>Tofu [V]</li></ul></div><div class="thumbnail" style="background-image: url(a.jpg)"></div></div></div>"#;
    let menu = menu_on_day(html, &calendar_day(2024, 1, 15)).unwrap();
    assert_eq!(menu.len(), 1);
    assert_eq!(menu[0].name, "Tofu [V]");
    assert!(menu[0].vegan);
    assert_eq!(menu[0].thumbnail, "a.jpg");
    assert!(menu_on_day(html, &calendar_day(2024, 1, 16)).unwrap().is_empty());
}

#[test]
fn menu_on_day_of_an_empty_page() {
    assert!(menu_on_day("", &calendar_day(2024, 1, 15)).unwrap().is_empty());
}

#[test]
fn menu_on_day_ignores_markup_outside_the_block() {
    let block = r#"<div data-date="15.01.2024"><div class="counter-table"><div><ul><li>x</li><li>Reis</li></ul></div></div></div>"#;
    let other = format!(
        r#"<p>Willkommen</p><div class="counter-table"><ul><li>a</li><li>Falsch</li></ul></div>{}<div data-date="16.01.2024"></div>"#,
        block
    );
    let a = menu_on_day(block, &calendar_day(2024, 1, 15)).unwrap();
    let b = menu_on_day(&other, &calendar_day(2024, 1, 15)).unwrap();
    assert_eq!(a.len(), 1);
    assert_eq!(b.len(), 1);
    assert_eq!(a[0].name, "Reis");
    assert_eq!(b[0].name, "Reis");
    assert_eq!(a[0].vegan, b[0].vegan);
    assert_eq!(a[0].thumbnail, b[0].thumbnail);
}

#[test]
fn menu_on_day_errors() {
    let unnamed = r#"<div data-date="15.01.2024"><div class="counter-table"><div><ul><li>nur eins</li></ul></div></div></div>"#;
    assert_eq!(menu_on_day(unnamed, &calendar_day(2024, 1, 15)).unwrap_err(), MensaError::MissingName);
    let bad_picture = r#"<div data-date="15.01.2024"><div class="counter-table"><div class="thumbnail" style="color: red"></div></div></div>"#;
    assert_eq!(menu_on_day(bad_picture, &calendar_day(2024, 1, 15)).unwrap_err(), MensaError::BadThumbnail);
}

#[test]
fn counter_reads_first_list_of_each_child() {
    let html = r#"<div data-date="01.02.2024"><section><div class="counter-table">
        <div><ul><li>a</li><li>Erste</li></ul><ul><li>b</li><li>Zweite</li></ul></div>
        <div><p>kein Gericht</p></div>
        <div><span><ul><li>c</li><li>Dritte [V]</li></ul></span></div>
        <div class="thumbnail" style="background-image: url(p.png)"></div>
        <div class="thumbnail" style="background-image: url(q.png)"></div>
    </div></section></div>"#;
    let counters = counters_on(html, "01.02.2024").unwrap();
    assert_eq!(counters.len(), 1);
    assert_eq!(counters[0].menu_texts, vec![texts(&["a", "Erste"]), texts(&["c", "Dritte [V]"])]);
    assert_eq!(counters[0].thumbnail_style, Some("background-image: url(p.png)".to_string()));
    let menu = menu_from_counters(&counters).unwrap();
    assert_eq!(menu[0].name, "Dritte [V]");
    assert!(!menu[0].vegan);
    assert_eq!(menu[0].thumbnail, "p.png");
}

#[test]
fn menu_day_is_a_weekday_near_now() {
    for (y, m, d) in [(2024, 1, 8), (2024, 1, 10), (2024, 1, 12), (2024, 1, 13), (2024, 1, 14)] {
        for (h, mi) in [(0, 0), (9, 15), (14, 30), (23, 59)] {
            let now = local_instant(y, m, d, h, mi);
            let day = menu_day(now).unwrap();
            let shown = chrono::NaiveDate::from_ymd_opt(day.year, day.month, day.day).unwrap();
            let today = chrono::NaiveDate::from_ymd_opt(y, m, d).unwrap();
            let ahead = (shown - today).num_days();
            assert!((0..=3).contains(&ahead));
            assert!(chrono::Datelike::weekday(&shown).num_days_from_monday() < 5);
        }
    }
}

fn element(size: usize, texts_of: &[&str], style: Option<&str>, flags: (bool, bool, bool)) -> PageElement {
    PageElement {
        size,
        texts: texts(texts_of),
        style: style.map(|s| s.to_string()),
        is_counter: flags.0,
        is_list: flags.1,
        is_picture: flags.2,
    }
}

#[test]
fn counters_of_a_read_block() {
    let none = (false, false, false);
    let block = vec![
        element(7, &["[V]", "Tofu [V]"], None, none),
        element(6, &["[V]", "Tofu [V]"], None, (true, false, false)),
        element(4, &["[V]", "Tofu [V]"], None, none),
        element(3, &["[V]", "Tofu [V]"], None, (false, true, false)),
        element(1, &["[V]"], None, none),
        element(1, &["Tofu [V]"], None, none),
        element(1, &[], Some("background-image: url(a.jpg)"), (false, false, true)),
    ];
    let counters = counters_of_block(&block);
    assert_eq!(counters.len(), 1);
    assert_eq!(counters[0].menu_texts, vec![texts(&["[V]", "Tofu [V]"])]);
    assert_eq!(counters[0].thumbnail_style, Some("background-image: url(a.jpg)".to_string()));
    assert!(counters_of_block(&Vec::new()).is_empty());
    // The block itself is no counter of its own, whatever its flags.
    let lone = vec![element(1, &[], None, (true, false, false))];
    assert!(counters_of_block(&lone).is_empty());
}

#[test]
fn menu_of_an_empty_page_is_empty() {
    assert!(menu_of_page("", local_instant(2024, 1, 10, 9, 0)).unwrap().is_empty());
    assert!(counters_on("", "10.01.2024").unwrap().is_empty());
}
