use board::clock::{local_time_ms, unix_seconds_from_http_date, ClockSyncError};
use board::display::{display_rows, is_refresh_tick, plan_row_edits, take_stop_result, ArrivalCache};
use board::reminder::{reminder_due, reminder_stop, request_path, sound_path};
use board::Arrival;

fn arrival(dest: &str, minutes: i64) -> Arrival {
    Arrival {
        destination: dest.to_string(),
        arrival_time_ms: 1_000 + minutes,
        minutes,
        route_id: "1_45".to_string(),
        route_label: "45".to_string(),
        route_color: [9, 8, 7],
        trip_id: "t".to_string(),
        stop_id: "s".to_string(),
    }
}

fn dests(v: &[Arrival]) -> Vec<String> {
    v.iter().map(|a| a.destination.clone()).collect()
}

#[test]
fn http_date_to_unix_seconds() {
    assert_eq!(unix_seconds_from_http_date("Mon, 16 Feb 2026 01:11:59 GMT"), Ok(1771204319));
    assert_eq!(unix_seconds_from_http_date("Thu, 01 Jan 1970 00:00:00 GMT"), Ok(0));
    assert_eq!(unix_seconds_from_http_date("Mon, 16 Feb 2026 01:11:59 +0100"), Ok(1771204319 - 3600));
}

#[test]
fn http_date_rejects_garbage() {
    assert_eq!(unix_seconds_from_http_date("yesterday"), Err(ClockSyncError::UnreadableDate));
    assert_eq!(unix_seconds_from_http_date(""), Err(ClockSyncError::UnreadableDate));
}

#[test]
fn local_clock_is_after_the_epoch() {
    let ms = local_time_ms().unwrap();
    assert!(ms > 1_600_000_000_000);
}

#[test]
fn reminder_stop_names() {
    assert_eq!(reminder_stop(b"  12ab \n"), Some("12ab".to_string()));
    assert_eq!(reminder_stop("\u{a0}Bahnhöfe ".as_bytes()), Some("Bahnhöfe".to_string()));
    // ten characters, but eleven bytes
    assert_eq!(reminder_stop("Bahnhöfe12".as_bytes()), None);
    assert_eq!(reminder_stop("Straße".as_bytes()), Some("Straße".to_string()));
    assert_eq!(reminder_stop(b"0123456789"), Some("0123456789".to_string()));
    assert_eq!(reminder_stop(b"01234567890"), None);
    assert_eq!(reminder_stop(b"ab-c"), None);
    assert_eq!(reminder_stop(b"a b"), None);
    assert_eq!(reminder_stop(b"ab\xffc"), None);
    assert_eq!(reminder_stop(b""), Some(String::new()));
}

#[test]
fn reminder_paths() {
    assert_eq!(request_path("45"), "45.req");
    assert_eq!(sound_path("E"), "E.wav");
}

#[test]
fn reminder_due_window() {
    let now = 1_000_000;
    assert!(!reminder_due(now + 300_000, now));
    assert!(reminder_due(now + 300_001, now));
    assert!(reminder_due(now + 419_999, now));
    assert!(!reminder_due(now + 420_000, now));
}

#[test]
fn cache_read_after_write() {
    let mut cache = ArrivalCache::new();
    assert!(cache.get("a").is_none());
    cache.insert("a", &vec![arrival("x", 1)]);
    cache.insert("b", &vec![arrival("y", 2), arrival("z", 3)]);
    cache.insert("a", &vec![arrival("w", 4)]);
    assert_eq!(dests(&cache.get("a").unwrap()), vec!["w"]);
    assert_eq!(dests(&cache.get("b").unwrap()), vec!["y", "z"]);
    assert!(cache.get("c").is_none());
}

#[test]
fn a_failed_fetch_falls_back_to_the_cache() {
    let mut cache = ArrivalCache::new();
    let mut offset = 0i64;
    let mut all = Vec::new();
    take_stop_result(&mut cache, &mut offset, &mut all, "a", Some((vec![arrival("x", 1)], 42)));
    assert_eq!(offset, 42);
    take_stop_result(&mut cache, &mut offset, &mut all, "b", None);
    assert_eq!(dests(&all), vec!["x"]);
    take_stop_result(&mut cache, &mut offset, &mut all, "a", None);
    assert_eq!(offset, 42);
    assert_eq!(dests(&all), vec!["x", "x"]);
}

#[test]
fn rows_show_arrivals() {
    let rows = display_rows(&vec![arrival("Northgate", 0), arrival("Lynnwood", 12)]);
    assert_eq!(rows.len(), 2);
    assert_eq!(rows[0].destination, "Northgate");
    assert_eq!(rows[0].time, "Now");
    assert_eq!(rows[1].time, "12m");
    assert_eq!(rows[1].route_color, [9, 8, 7]);
    assert_eq!(rows[1].route_label, "45");
}

#[test]
fn row_edits() {
    let e = plan_row_edits(3, 5);
    assert_eq!((e.overwrite, e.add, e.remove), (3, 2, 0));
    let e = plan_row_edits(5, 2);
    assert_eq!((e.overwrite, e.add, e.remove), (2, 0, 3));
    let e = plan_row_edits(0, 0);
    assert_eq!((e.overwrite, e.add, e.remove), (0, 0, 0));
}

#[test]
fn refresh_every_ten_ticks() {
    assert!(is_refresh_tick(0));
    assert!(!is_refresh_tick(9));
    assert!(is_refresh_tick(10));
    assert!(is_refresh_tick(4294967290));
}
