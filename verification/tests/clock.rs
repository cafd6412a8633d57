use fscs_monitor_plus::clock::now_seconds;

#[test]
fn local_clock_is_within_a_day_of_utc() {
    let (utc, local) = now_seconds();
    assert!((local - utc).abs() < 86400);
    assert!(utc > 1_700_000_000);
}
