use board::schedule::{minutes_until, recalculate_and_filter_at};
use board::{format_time, recalculate_and_filter, Arrival};

fn arrival(dest: &str, time_ms: i64, route: &str) -> Arrival {
    Arrival {
        destination: dest.to_string(),
        arrival_time_ms: time_ms,
        minutes: 0,
        route_id: route.to_string(),
        route_label: route.to_string(),
        route_color: [1, 2, 3],
        trip_id: format!("trip-{}", time_ms),
        stop_id: "1_100".to_string(),
    }
}

fn summary(v: &[Arrival]) -> Vec<(String, i64, i64)> {
    v.iter()
        .map(|a| (a.trip_id.clone(), a.arrival_time_ms, a.minutes))
        .collect()
}

const NOW: i64 = 1_700_000_000_000;

#[test]
fn format_time_now_for_due_buses() {
    assert_eq!(format_time(0), "Now");
    assert_eq!(format_time(-1), "Now");
    assert_eq!(format_time(i64::MIN), "Now");
}

#[test]
fn format_time_minutes() {
    assert_eq!(format_time(1), "1m");
    assert_eq!(format_time(9), "9m");
    assert_eq!(format_time(10), "10m");
    assert_eq!(format_time(45), "45m");
    assert_eq!(format_time(i64::MAX), "9223372036854775807m");
}

#[test]
fn minutes_round_toward_zero() {
    assert_eq!(minutes_until(NOW + 119_999, NOW as i128), 1);
    assert_eq!(minutes_until(NOW + 120_000, NOW as i128), 2);
    assert_eq!(minutes_until(NOW - 59_999, NOW as i128), 0);
    assert_eq!(minutes_until(NOW - 60_000, NOW as i128), -1);
    assert_eq!(minutes_until(NOW - 119_999, NOW as i128), -1);
    assert_eq!(minutes_until(i64::MAX, i64::MIN as i128), 307445734561825);
}

#[test]
fn recalculates_minutes_with_clock_offset() {
    let mut v = vec![arrival("A", NOW + 10 * 60_000, "r1")];
    recalculate_and_filter_at(&mut v, NOW - 5 * 60_000, 5 * 60_000);
    assert_eq!(v[0].minutes, 10);
    let mut w = vec![arrival("A", NOW + 10 * 60_000, "r1")];
    recalculate_and_filter_at(&mut w, NOW, 3 * 60_000);
    assert_eq!(w[0].minutes, 7);
}

#[test]
fn sorts_by_arrival_time_stably() {
    let mut v = vec![
        arrival("C", NOW + 30 * 60_000, "r3"),
        arrival("A", NOW + 5 * 60_000, "r1"),
        arrival("B1", NOW + 20 * 60_000, "r2"),
        arrival("B2", NOW + 20 * 60_000, "r4"),
    ];
    v[2].trip_id = "first".to_string();
    v[3].trip_id = "second".to_string();
    recalculate_and_filter_at(&mut v, NOW, 0);
    let dests: Vec<&str> = v.iter().map(|a| a.destination.as_str()).collect();
    assert_eq!(dests, vec!["A", "B1", "B2", "C"]);
    assert_eq!(v[1].trip_id, "first");
    assert_eq!(v[2].trip_id, "second");
}

#[test]
fn keeps_only_the_window() {
    let mut v = vec![
        arrival("past2", NOW - 2 * 60_000, "r"),
        arrival("past1", NOW - 60_000, "r"),
        arrival("now", NOW, "s"),
        arrival("edge", NOW + 45 * 60_000 + 59_999, "t"),
        arrival("late", NOW + 46 * 60_000, "u"),
    ];
    recalculate_and_filter_at(&mut v, NOW, 0);
    let dests: Vec<&str> = v.iter().map(|a| a.destination.as_str()).collect();
    assert_eq!(dests, vec!["past1", "now", "edge"]);
    assert_eq!(v[0].minutes, -1);
    assert_eq!(v[2].minutes, 45);
}

#[test]
fn drops_repeated_departures() {
    let mut v = vec![
        arrival("Downtown", NOW + 5 * 60_000, "r1"),
        arrival("Downtown", NOW + 5 * 60_000 + 1_000, "r1"),
        arrival("Downtown", NOW + 5 * 60_000 + 2_000, "r2"),
        arrival("Downtown", NOW + 5 * 60_000 + 3_000, "r1"),
        arrival("Uptown", NOW + 5 * 60_000 + 4_000, "r1"),
        arrival("Uptown", NOW + 6 * 60_000, "r1"),
    ];
    recalculate_and_filter_at(&mut v, NOW, 0);
    let s = summary(&v);
    let trips: Vec<&str> = s.iter().map(|t| t.0.as_str()).collect();
    assert_eq!(
        trips,
        vec![
            "trip-1700000300000",
            "trip-1700000302000",
            "trip-1700000303000",
            "trip-1700000304000",
            "trip-1700000360000",
        ]
    );
}

#[test]
fn repeats_are_only_dropped_between_neighbours() {
    let mut v = vec![
        arrival("X", NOW + 60_000, "r1"),
        arrival("Y", NOW + 60_000 + 1, "r1"),
        arrival("X", NOW + 60_000 + 2, "r1"),
    ];
    recalculate_and_filter_at(&mut v, NOW, 0);
    assert_eq!(v.len(), 3);
}

#[test]
fn listing_twice_changes_nothing() {
    let mut v = vec![
        arrival("C", NOW + 30 * 60_000, "r3"),
        arrival("A", NOW + 5 * 60_000, "r1"),
        arrival("A", NOW + 5 * 60_000 + 10, "r1"),
        arrival("Z", NOW + 90 * 60_000, "r9"),
        arrival("B", NOW - 30_000, "r2"),
    ];
    recalculate_and_filter_at(&mut v, NOW, 1234);
    let once = summary(&v);
    recalculate_and_filter_at(&mut v, NOW, 1234);
    assert_eq!(summary(&v), once);
    assert_eq!(once.len(), 3);
}

#[test]
fn listing_is_sorted_and_in_window() {
    let mut v: Vec<Arrival> = (0..40)
        .map(|i| arrival("D", NOW + ((i * 7919) % 60) * 60_000 - 3 * 60_000, "r"))
        .collect();
    recalculate_and_filter_at(&mut v, NOW, 0);
    for w in v.windows(2) {
        assert!(w[0].arrival_time_ms <= w[1].arrival_time_ms);
        assert!(!(w[0].minutes == w[1].minutes
            && w[0].route_id == w[1].route_id
            && w[0].destination == w[1].destination));
    }
    for a in &v {
        assert!(a.minutes >= -1 && a.minutes <= 45);
    }
}

#[test]
fn empty_list_stays_empty() {
    let mut v: Vec<Arrival> = Vec::new();
    recalculate_and_filter_at(&mut v, NOW, 0);
    assert!(v.is_empty());
}

#[test]
fn recalculate_with_the_system_clock() {
    let local = std::time::SystemTime::now()
        .duration_since(std::time::UNIX_EPOCH)
        .unwrap()
        .as_millis() as i64;
    let mut v = vec![
        arrival("soon", local + 10 * 60_000 + 30_000, "r1"),
        arrival("far", local + 600 * 60_000, "r2"),
    ];
    recalculate_and_filter(&mut v, 0);
    assert_eq!(v.len(), 1);
    assert_eq!(v[0].destination, "soon");
    assert!(v[0].minutes == 10 || v[0].minutes == 9);
}

#[test]
fn sort_only_keeps_minutes() {
    let mut v = vec![
        arrival("C", NOW + 30 * 60_000, "r3"),
        arrival("A", NOW + 5 * 60_000, "r1"),
        arrival("B", NOW + 90 * 60_000, "r1"),
    ];
    v[0].minutes = 77;
    board::schedule::sort_by_arrival_time(&mut v);
    let dests: Vec<&str> = v.iter().map(|a| a.destination.as_str()).collect();
    assert_eq!(dests, vec!["A", "C", "B"]);
    assert_eq!(v[1].minutes, 77);
}

#[test]
fn moving_clock_and_times_together_moves_the_listing() {
    let base = vec![
        arrival("C", NOW + 30 * 60_000 + 17, "r3"),
        arrival("A", NOW + 5 * 60_000, "r1"),
        arrival("A", NOW + 5 * 60_000 + 10, "r1"),
        arrival("Z", NOW + 90 * 60_000, "r9"),
        arrival("B", NOW - 30_000, "r2"),
    ];
    let (d, e, off) = (123_456_789i64, -4_321i64, 777i64);
    let mut a = base.clone();
    recalculate_and_filter_at(&mut a, NOW, off);
    let mut b: Vec<Arrival> = base
        .iter()
        .map(|x| {
            let mut y = x.clone();
            y.arrival_time_ms += d;
            y
        })
        .collect();
    recalculate_and_filter_at(&mut b, NOW + e, off + d - e);
    let expected: Vec<(String, i64, i64)> =
        summary(&a).into_iter().map(|(t, ms, m)| (t, ms + d, m)).collect();
    assert_eq!(summary(&b), expected);
}
