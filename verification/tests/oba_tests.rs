use board::oba::{
    after_attempt, arrivals_url, clean_destination_of, find_route, response_cuts_char_in, ApiData,
    ApiEntry, ApiReferences, ApiRoute, ArrivalDeparture, RetryStep,
};
use board::{arrivals_from_response, ApiResponse};

fn route(id: &str, short: &str, color: &str) -> ApiRoute {
    ApiRoute { id: id.to_string(), short_name: short.to_string(), color: color.to_string() }
}

fn entry(pred: i64, sched: i64, head: &str, route: &str, trip: &str, predicted: Option<bool>) -> ArrivalDeparture {
    ArrivalDeparture {
        predicted_arrival_time: pred,
        scheduled_arrival_time: sched,
        trip_headsign: head.to_string(),
        route_id: route.to_string(),
        trip_id: trip.to_string(),
        predicted,
    }
}

fn response(now: i64, entries: Vec<ArrivalDeparture>, routes: Vec<ApiRoute>) -> ApiResponse {
    ApiResponse {
        current_time: now,
        data: ApiData {
            entry: ApiEntry { arrivals_and_departures: entries },
            references: ApiReferences { routes },
        },
    }
}

const NOW: i64 = 1_771_204_319_000;

#[test]
fn builds_predicted_arrivals_only() {
    let r = response(
        NOW,
        vec![
            entry(NOW + 5 * 60_000, NOW + 4 * 60_000, "Northgate", "1_45", "t1", Some(true)),
            entry(NOW + 6 * 60_000, NOW + 6 * 60_000, "Skipped", "1_45", "t2", Some(false)),
            entry(NOW + 7 * 60_000, NOW + 7 * 60_000, "Skipped", "1_45", "t3", None),
            entry(0, NOW + 12 * 60_000 + 30_000, "Seattle City Center", "1_E", "t4", Some(true)),
        ],
        vec![route("1_45", "45 Express", "#00ff00"), route("1_E", "", "zz")],
    );
    let (arrivals, offset) = arrivals_from_response(&r, "1_100", NOW - 2_500);
    assert_eq!(offset, 2_500);
    assert_eq!(arrivals.len(), 2);
    let a = &arrivals[0];
    assert_eq!(a.destination, "Northgate");
    assert_eq!(a.arrival_time_ms, NOW + 5 * 60_000);
    assert_eq!(a.minutes, 5);
    assert_eq!(a.route_id, "1_45");
    assert_eq!(a.route_label, "45");
    assert_eq!(a.route_color, [0, 255, 0]);
    assert_eq!(a.trip_id, "t1");
    assert_eq!(a.stop_id, "1_100");
    let b = &arrivals[1];
    assert_eq!(b.destination, "Seattle");
    assert_eq!(b.arrival_time_ms, NOW + 12 * 60_000 + 30_000);
    assert_eq!(b.minutes, 12);
    assert_eq!(b.route_label, "?");
    assert_eq!(b.route_color, [0x80, 0x80, 0x80]);
}

#[test]
fn unknown_route_gets_defaults() {
    let r = response(
        NOW,
        vec![entry(NOW - 90_000, 0, "Int'l Dist/Chinatown Downtown", "1_X", "t", Some(true))],
        vec![route("1_Y", "Y", "#123456")],
    );
    let (arrivals, offset) = arrivals_from_response(&r, "s", NOW);
    assert_eq!(offset, 0);
    assert_eq!(arrivals[0].route_label, "?");
    assert_eq!(arrivals[0].route_color, [0x80, 0x80, 0x80]);
    assert_eq!(arrivals[0].minutes, -1);
    assert_eq!(arrivals[0].destination, "Int'l District");
}

#[test]
fn first_matching_route_wins() {
    let routes = vec![route("a", "1", "#000001"), route("b", "2", "#000002"), route("b", "3", "#000003")];
    assert_eq!(find_route(&routes, &"b".to_string()), Some(1));
    assert_eq!(find_route(&routes, &"c".to_string()), None);
    let r = response(NOW, vec![entry(NOW, 0, "h", "b", "t", Some(true))], routes);
    let (arrivals, _) = arrivals_from_response(&r, "s", NOW);
    assert_eq!(arrivals[0].route_label, "2");
    assert_eq!(arrivals[0].route_color, [0, 0, 2]);
}

#[test]
fn detects_colours_that_would_be_cut() {
    let bad = response(NOW, vec![entry(NOW, 0, "h", "b", "t", Some(true))], vec![route("b", "2", "aéabc")]);
    assert!(response_cuts_char_in(&bad));
    let unused = response(NOW, vec![entry(NOW, 0, "h", "b", "t", Some(false))], vec![route("b", "2", "aéabc")]);
    assert!(!response_cuts_char_in(&unused));
}

#[test]
fn destinations_are_cleaned() {
    assert_eq!(clean_destination_of("Seattle City Center"), "Seattle");
    assert_eq!(clean_destination_of("Bellevue Downtown"), "Bellevue");
    assert_eq!(clean_destination_of("Seattle Downtown City Center"), "Seattle");
    assert_eq!(clean_destination_of("Seattle City Center Downtown"), "Seattle City Center");
    assert_eq!(clean_destination_of("Int'l Dist/Chinatown"), "Int'l District");
    assert_eq!(clean_destination_of("Int'l Dist/Chinatown Station"), "Int'l District Station");
}

#[test]
fn url_for_a_stop() {
    assert_eq!(
        arrivals_url("1_75403", "KEY123"),
        "https://api.pugetsound.onebusaway.org/api/where/arrivals-and-departures-for-stop/1_75403.json?key=KEY123"
    );
}

#[test]
fn retries_twice_then_gives_up() {
    assert_eq!(after_attempt(0, true), RetryStep::Done);
    assert_eq!(after_attempt(0, false), RetryStep::WaitThenRetry);
    assert_eq!(after_attempt(1, false), RetryStep::WaitThenRetry);
    assert_eq!(after_attempt(2, false), RetryStep::GiveUp);
    assert_eq!(after_attempt(2, true), RetryStep::Done);
}
