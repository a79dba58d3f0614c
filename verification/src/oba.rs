//! OneBusAway "arrivals and departures for stop" responses, and how the board
//! turns one into its list of arrivals.

use vstd::prelude::*;
use vstd::utf8::encode_utf8;

use crate::arrival::{views, Arrival, ArrivalView};
use crate::color::{color_cuts_char, hex_color, hex_color_cuts_char, parse_hex_color};
use crate::schedule::{lemma_filter_unfold, minutes_between, minutes_until};
use crate::text::{
    first_word, first_word_of, replace_all, replace_within, trim_end_all, trim_end_len, chars_of,
};

verus! {

/// The parts of a response that the board reads.
pub struct ApiResponse {
    /// The server's clock, in milliseconds since the Unix epoch.
    pub current_time: i64,
    pub data: ApiData,
}

pub struct ApiData {
    pub entry: ApiEntry,
    pub references: ApiReferences,
}

pub struct ApiReferences {
    pub routes: Vec<ApiRoute>,
}

pub struct ApiRoute {
    pub id: String,
    pub short_name: String,
    pub color: String,
}

pub struct ApiEntry {
    pub arrivals_and_departures: Vec<ArrivalDeparture>,
}

pub struct ArrivalDeparture {
    pub predicted_arrival_time: i64,
    pub scheduled_arrival_time: i64,
    pub trip_headsign: String,
    pub route_id: String,
    pub trip_id: String,
    pub predicted: Option<bool>,
}

/// Colour of a route whose colour is missing or unreadable: mid grey.
pub open spec fn default_color() -> Seq<u8> {
    seq![0x80u8, 0x80u8, 0x80u8]
}

/// The index of the first route with identifier `id`, looking from `k` on.
pub open spec fn route_index_from(routes: Seq<ApiRoute>, id: Seq<char>, k: int) -> Option<int>
    decreases routes.len() - k,
{
    if k < 0 || k >= routes.len() {
        None
    } else if routes[k].id@ == id {
        Some(k)
    } else {
        route_index_from(routes, id, k + 1)
    }
}

/// A route found from `k` on is at or after `k`, in range, and has the
/// identifier looked for.
pub proof fn lemma_route_index_from(routes: Seq<ApiRoute>, id: Seq<char>, k: int)
    ensures
        route_index_from(routes, id, k) matches Some(j) ==> k <= j < routes.len() && routes[j].id@
            == id,
    decreases routes.len() - k,
{
    if 0 <= k < routes.len() && routes[k].id@ != id {
        lemma_route_index_from(routes, id, k + 1);
    }
}

/// The index of the first route with identifier `id`.
pub open spec fn route_index(routes: Seq<ApiRoute>, id: Seq<char>) -> Option<int> {
    route_index_from(routes, id, 0)
}

/// The label of route `id`: the first word of its short name, or `?` when the
/// route is unknown or its short name is blank.
pub open spec fn route_label_of(routes: Seq<ApiRoute>, id: Seq<char>) -> Seq<char> {
    match route_index(routes, id) {
        Some(k) => match first_word(routes[k].short_name@) {
            Some(w) => w,
            None => seq!['?'],
        },
        None => seq!['?'],
    }
}

/// The colour of route `id`, grey when the route is unknown or its colour
/// unreadable.
pub open spec fn route_color_of(routes: Seq<ApiRoute>, id: Seq<char>) -> Seq<u8> {
    match route_index(routes, id) {
        Some(k) => match hex_color(encode_utf8(routes[k].color@)) {
            Some(c) => c,
            None => default_color(),
        },
        None => default_color(),
    }
}

/// Reading the colour of route `id` would cut its text inside a character.
pub open spec fn route_color_cuts_char(routes: Seq<ApiRoute>, id: Seq<char>) -> bool {
    match route_index(routes, id) {
        Some(k) => hex_color_cuts_char(encode_utf8(routes[k].color@)),
        None => false,
    }
}

/// A headsign as the board shows it: without trailing " City Center" and then
/// " Downtown", and with "Int'l Dist/Chinatown" shortened to "Int'l District".
pub open spec fn clean_destination(headsign: Seq<char>) -> Seq<char> {
    replace_all(
        trim_end_all(trim_end_all(headsign, " City Center"@), " Downtown"@),
        "Int'l Dist/Chinatown"@,
        "Int'l District"@,
    )
}

/// The predicted arrival time when there is one, the scheduled one otherwise.
pub open spec fn chosen_time(e: ArrivalDeparture) -> i64 {
    if e.predicted_arrival_time > 0 {
        e.predicted_arrival_time
    } else {
        e.scheduled_arrival_time
    }
}

/// Only arrivals with a real-time prediction are listed.
pub open spec fn is_predicted(e: ArrivalDeparture) -> bool {
    e.predicted == Some(true)
}

pub open spec fn predicted_pred() -> spec_fn(ArrivalDeparture) -> bool {
    |e: ArrivalDeparture| is_predicted(e)
}

/// The arrival the board makes of entry `e` of a response for stop
/// `stop_id` whose server clock read `server_now`.
pub open spec fn arrival_from_entry(
    e: ArrivalDeparture,
    routes: Seq<ApiRoute>,
    server_now: i64,
    stop_id: Seq<char>,
) -> ArrivalView {
    ArrivalView {
        destination: clean_destination(e.trip_headsign@),
        arrival_time_ms: chosen_time(e),
        minutes: minutes_between(chosen_time(e) as int, server_now as int) as i64,
        route_id: e.route_id@,
        route_label: route_label_of(routes, e.route_id@),
        route_color: route_color_of(routes, e.route_id@),
        trip_id: e.trip_id@,
        stop_id: stop_id,
    }
}

pub open spec fn entry_fn(routes: Seq<ApiRoute>, server_now: i64, stop_id: Seq<char>) -> spec_fn(
    ArrivalDeparture,
) -> ArrivalView {
    |e: ArrivalDeparture| arrival_from_entry(e, routes, server_now, stop_id)
}

/// The arrivals the board makes of `response` for stop `stop_id`: one per
/// predicted entry, in response order.
pub open spec fn arrivals_of(response: ApiResponse, stop_id: Seq<char>) -> Seq<ArrivalView> {
    response.data.entry.arrivals_and_departures@.filter(predicted_pred()).map_values(
        entry_fn(response.data.references.routes@, response.current_time, stop_id),
    )
}

/// Building the arrivals of `response` reads a route colour that would be cut
/// inside a character.
pub open spec fn response_cuts_char(response: ApiResponse) -> bool {
    exists|i: int|
        0 <= i < response.data.entry.arrivals_and_departures@.len() && is_predicted(
            #[trigger] response.data.entry.arrivals_and_departures@[i],
        ) && route_color_cuts_char(
            response.data.references.routes@,
            response.data.entry.arrivals_and_departures@[i].route_id@,
        )
}

/// The index of the first route with identifier `id`.
pub fn find_route(routes: &Vec<ApiRoute>, id: &String) -> (k: Option<usize>)
    ensures
        match k {
            Some(k) => route_index(routes@, id@) == Some(k as int),
            None => route_index(routes@, id@) is None,
        },
{
    let mut k: usize = 0;
    while k < routes.len()
        invariant
            k <= routes@.len(),
            route_index(routes@, id@) == route_index_from(routes@, id@, k as int),
        decreases routes.len() - k,
    {
        if routes[k].id == *id {
            return Some(k);
        }
        k = k + 1;
    }
    None
}

/// A headsign as the board shows it.
pub fn clean_destination_of(headsign: &str) -> (d: String)
    ensures
        d@ == clean_destination(headsign@),
{
    let c = chars_of(headsign);
    proof {
        reveal_strlit(" City Center");
        reveal_strlit(" Downtown");
        reveal_strlit("Int'l Dist/Chinatown");
        assert(c@.take(c@.len() as int) =~= headsign@);
    }
    let k1 = trim_end_len(&c, c.len(), " City Center");
    let k2 = trim_end_len(&c, k1, " Downtown");
    assert(c@.take(k2 as int) == headsign@.take(k2 as int));
    replace_within(headsign, k2, "Int'l Dist/Chinatown", "Int'l District")
}

/// The label of the route at `k` (or of an unknown route when `k` is `None`).
fn route_label(routes: &Vec<ApiRoute>, k: Option<usize>, id: &String) -> (label: String)
    requires
        match k {
            Some(k) => route_index(routes@, id@) == Some(k as int),
            None => route_index(routes@, id@) is None,
        },
    ensures
        label@ == route_label_of(routes@, id@),
{
    proof {
        reveal_strlit("?");
        lemma_route_index_from(routes@, id@, 0);
    }
    match k {
        Some(k) => match first_word_of(routes[k].short_name.as_str()) {
            Some(w) => w,
            None => String::from_str("?"),
        },
        None => String::from_str("?"),
    }
}

/// The colour of the route at `k` (or of an unknown route when `k` is `None`).
fn route_color(routes: &Vec<ApiRoute>, k: Option<usize>, id: &String) -> (color: [u8; 3])
    requires
        match k {
            Some(k) => route_index(routes@, id@) == Some(k as int),
            None => route_index(routes@, id@) is None,
        },
        !route_color_cuts_char(routes@, id@),
    ensures
        color@ == route_color_of(routes@, id@),
{
    proof {
        lemma_route_index_from(routes@, id@, 0);
    }
    let gray: [u8; 3] = [0x80, 0x80, 0x80];
    assert(gray@ =~= default_color());
    match k {
        Some(k) => match parse_hex_color(routes[k].color.as_str()) {
            Some(c) => c,
            None => gray,
        },
        None => gray,
    }
}

/// Whether building the arrivals of `response` would read a route colour cut
/// inside a character.
pub fn response_cuts_char_in(response: &ApiResponse) -> (cuts: bool)
    ensures
        cuts == response_cuts_char(*response),
{
    let entries = &response.data.entry.arrivals_and_departures;
    let routes = &response.data.references.routes;
    let mut i: usize = 0;
    while i < entries.len()
        invariant
            entries == &response.data.entry.arrivals_and_departures,
            routes == &response.data.references.routes,
            i <= entries@.len(),
            forall|j: int|
                0 <= j < i && is_predicted(#[trigger] entries@[j]) ==> !route_color_cuts_char(
                    routes@,
                    entries@[j].route_id@,
                ),
        decreases entries.len() - i,
    {
        let e = &entries[i];
        if let Some(true) = e.predicted {
            if let Some(k) = find_route(routes, &e.route_id) {
                proof {
                    lemma_route_index_from(routes@, e.route_id@, 0);
                }
                if color_cuts_char(routes[k].color.as_str()) {
                    assert(is_predicted(entries@[i as int]));
                    return true;
                }
            }
        }
        i = i + 1;
    }
    false
}

/// Turns a response for stop `stop_id` into the board's arrivals, and gives
/// the clock offset (server time minus `local_ms`, the local clock in
/// milliseconds since the Unix epoch) that corrects for a drifting local
/// clock.
pub fn arrivals_from_response(response: &ApiResponse, stop_id: &str, local_ms: i64) -> (res: (
    Vec<Arrival>,
    i64,
))
    requires
        i64::MIN <= response.current_time - local_ms <= i64::MAX,
        !response_cuts_char(*response),
    ensures
        views(res.0@) == arrivals_of(*response, stop_id@),
        res.1 == response.current_time - local_ms,
{
    let clock_offset = response.current_time - local_ms;
    let server_now = response.current_time;
    let entries = &response.data.entry.arrivals_and_departures;
    let routes = &response.data.references.routes;
    let ghost f = entry_fn(routes@, server_now, stop_id@);
    let ghost pred = predicted_pred();
    let mut out: Vec<Arrival> = Vec::new();
    let mut i: usize = 0;
    assert(entries@.take(0).filter(pred) =~= Seq::<ArrivalDeparture>::empty()) by {
        reveal_with_fuel(Seq::filter, 1);
    }
    assert(views(out@) =~= entries@.take(0).filter(pred).map_values(f));
    while i < entries.len()
        invariant
            entries == &response.data.entry.arrivals_and_departures,
            routes == &response.data.references.routes,
            server_now == response.current_time,
            f == entry_fn(routes@, server_now, stop_id@),
            pred == predicted_pred(),
            !response_cuts_char(*response),
            i <= entries@.len(),
            views(out@) == entries@.take(i as int).filter(pred).map_values(f),
        decreases entries.len() - i,
    {
        let e = &entries[i];
        let ghost prefix = entries@.take(i as int);
        let ghost next = entries@.take(i + 1);
        assert(next.drop_last() =~= prefix);
        assert(next.last() == *e);
        proof {
            lemma_filter_unfold(next, pred);
        }
        if let Some(true) = e.predicted {
            assert(is_predicted(entries@[i as int]));
            let arrival_time = if e.predicted_arrival_time > 0 {
                e.predicted_arrival_time
            } else {
                e.scheduled_arrival_time
            };
            let minutes = minutes_until(arrival_time, server_now as i128);
            let destination = clean_destination_of(e.trip_headsign.as_str());
            let k = find_route(routes, &e.route_id);
            let route_label = route_label(routes, k, &e.route_id);
            let route_color = route_color(routes, k, &e.route_id);
            let a = Arrival {
                destination,
                arrival_time_ms: arrival_time,
                minutes,
                route_id: e.route_id.clone(),
                route_label,
                route_color,
                trip_id: e.trip_id.clone(),
                stop_id: String::from_str(stop_id),
            };
            assert(a@ == f(*e));
            let ghost old_out = views(out@);
            out.push(a);
            assert(views(out@) =~= old_out.push(a@));
            assert(next.filter(pred) == prefix.filter(pred).push(*e));
            assert(next.filter(pred).map_values(f) =~= prefix.filter(pred).map_values(f).push(
                f(*e),
            ));
        } else {
            assert(!pred(*e));
        }
        i = i + 1;
    }
    assert(entries@.take(entries@.len() as int) =~= entries@);
    (out, clock_offset)
}

/// The address of the arrivals-and-departures query for `stop_id` made with
/// API key `key`.
pub fn arrivals_url(stop_id: &str, key: &str) -> (url: String)
    ensures
        url@ == "https://api.pugetsound.onebusaway.org/api/where/arrivals-and-departures-for-stop/"@
            + stop_id@ + ".json?key="@ + key@,
{
    let mut url = String::from_str(
        "https://api.pugetsound.onebusaway.org/api/where/arrivals-and-departures-for-stop/",
    );
    url.append(stop_id);
    url.append(".json?key=");
    url.append(key);
    url
}

// ---------------------------------------------------------------------------
// Retrying a fetch
// ---------------------------------------------------------------------------

/// A fetch is tried at most this many times.
pub const MAX_FETCH_ATTEMPTS: u32 = 3;

/// Pause before trying a failed fetch again, in milliseconds.
pub const RETRY_DELAY_MS: u64 = 500;

/// What to do after an attempt at fetching.
#[derive(Debug, PartialEq, Eq, Structural)]
pub enum RetryStep {
    /// The attempt succeeded: hand its result back.
    Done,
    /// The attempt failed: wait `RETRY_DELAY_MS` and try again.
    WaitThenRetry,
    /// The last allowed attempt failed: hand its error back.
    GiveUp,
}

pub open spec fn retry_step(attempt: int, succeeded: bool) -> RetryStep {
    if succeeded {
        RetryStep::Done
    } else if attempt < MAX_FETCH_ATTEMPTS - 1 {
        RetryStep::WaitThenRetry
    } else {
        RetryStep::GiveUp
    }
}

/// The step after attempt number `attempt` (counting from 0) succeeded or
/// failed.
pub fn after_attempt(attempt: u32, succeeded: bool) -> (step: RetryStep)
    requires
        attempt < MAX_FETCH_ATTEMPTS,
    ensures
        step == retry_step(attempt as int, succeeded),
{
    if succeeded {
        RetryStep::Done
    } else if attempt < MAX_FETCH_ATTEMPTS - 1 {
        RetryStep::WaitThenRetry
    } else {
        RetryStep::GiveUp
    }
}

/// How many attempts a fetch makes, from attempt `k` on, when attempt `i`
/// succeeds exactly if `outcomes[i]` (missing outcomes are failures).
pub open spec fn attempts_from(outcomes: Seq<bool>, k: nat) -> nat
    decreases MAX_FETCH_ATTEMPTS - k,
{
    if k >= MAX_FETCH_ATTEMPTS {
        0
    } else {
        let ok = k < outcomes.len() && outcomes[k as int];
        match retry_step(k as int, ok) {
            RetryStep::WaitThenRetry => 1 + attempts_from(outcomes, k + 1),
            _ => 1,
        }
    }
}

/// A fetch stops at its first success and never makes more than three
/// attempts; it gives up only after three failures in a row.
pub proof fn lemma_retry_attempts(outcomes: Seq<bool>)
    ensures
        1 <= attempts_from(outcomes, 0) <= MAX_FETCH_ATTEMPTS,
        forall|i: int|
            0 <= i < attempts_from(outcomes, 0) - 1 ==> !(i < outcomes.len() && outcomes[i]),
        attempts_from(outcomes, 0) < MAX_FETCH_ATTEMPTS ==> {
            let last = attempts_from(outcomes, 0) - 1;
            last < outcomes.len() && outcomes[last]
        },
{
    reveal_with_fuel(attempts_from, 4);
}

} // verus!

verus! {

/// The place, among the arrivals built from a response, of the one built from
/// entry `i`: the number of predicted entries before it.
pub open spec fn listed_index(entries: Seq<ArrivalDeparture>, i: int) -> int {
    entries.take(i).filter(predicted_pred()).len() as int
}

proof fn lemma_filter_index<A>(s: Seq<A>, p: spec_fn(A) -> bool, i: int)
    requires
        0 <= i < s.len(),
        p(s[i]),
    ensures
        s.take(i).filter(p).len() < s.filter(p).len(),
        s.filter(p)[s.take(i).filter(p).len() as int] == s[i],
{
    let t = s.take(i + 1);
    assert(s =~= t + s.skip(i + 1));
    Seq::filter_distributes_over_add(t, s.skip(i + 1), p);
    assert(t.drop_last() =~= s.take(i));
    assert(t.last() == s[i]);
    lemma_filter_unfold(t, p);
}

/// Every entry with a real-time prediction gives an arrival, in response
/// order: it is due at the predicted time when that is positive and at the
/// scheduled time otherwise, its wait is the whole minutes from the server's
/// clock to that time (toward zero), and it keeps the entry's route and trip
/// and the stop asked for. Entries without a prediction give none.
pub proof fn lemma_predicted_entry_listed(response: ApiResponse, stop_id: Seq<char>, i: int)
    requires
        0 <= i < response.data.entry.arrivals_and_departures@.len(),
        response.data.entry.arrivals_and_departures@[i].predicted == Some(true),
    ensures
        arrivals_of(response, stop_id).len() == response.data.entry.arrivals_and_departures@.filter(
            |e: ArrivalDeparture| e.predicted == Some(true),
        ).len(),
        listed_index(response.data.entry.arrivals_and_departures@, i) < arrivals_of(
            response,
            stop_id,
        ).len(),
        ({
            let e = response.data.entry.arrivals_and_departures@[i];
            let a = arrivals_of(response, stop_id)[listed_index(
                response.data.entry.arrivals_and_departures@,
                i,
            )];
            let now = response.current_time;
            &&& e.predicted_arrival_time > 0 ==> a.arrival_time_ms == e.predicted_arrival_time
            &&& e.predicted_arrival_time <= 0 ==> a.arrival_time_ms == e.scheduled_arrival_time
            &&& a.arrival_time_ms >= now ==> 0 <= a.minutes && a.minutes * 60000
                <= a.arrival_time_ms - now < (a.minutes + 1) * 60000
            &&& a.arrival_time_ms < now ==> a.minutes <= 0 && (a.minutes - 1) * 60000
                < a.arrival_time_ms - now <= a.minutes * 60000
            &&& a.route_id == e.route_id@
            &&& a.trip_id == e.trip_id@
            &&& a.stop_id == stop_id
        }),
{
    let entries = response.data.entry.arrivals_and_departures@;
    let pred = predicted_pred();
    assert(pred == (|e: ArrivalDeparture| e.predicted == Some(true)));
    lemma_filter_index(entries, pred, i);
    let e = entries[i];
    let t = if e.predicted_arrival_time > 0 {
        e.predicted_arrival_time
    } else {
        e.scheduled_arrival_time
    };
    crate::schedule::lemma_minutes_between_counts_whole_minutes(
        t as int,
        response.current_time as int,
    );
}

} // verus!
