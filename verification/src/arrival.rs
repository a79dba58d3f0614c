//! The departure record the board works with, and its mathematical view.

use vstd::prelude::*;

verus! {

/// One predicted arrival of a bus at a stop.
#[derive(Debug, Clone)]
pub struct Arrival {
    pub destination: String,
    pub arrival_time_ms: i64,
    pub minutes: i64,
    pub route_id: String,
    pub route_label: String,
    pub route_color: [u8; 3],
    pub trip_id: String,
    pub stop_id: String,
}

/// An [`Arrival`] with its strings taken as character sequences.
pub struct ArrivalView {
    pub destination: Seq<char>,
    pub arrival_time_ms: i64,
    pub minutes: i64,
    pub route_id: Seq<char>,
    pub route_label: Seq<char>,
    pub route_color: Seq<u8>,
    pub trip_id: Seq<char>,
    pub stop_id: Seq<char>,
}

impl ArrivalView {
    /// The same arrival with its `minutes` replaced.
    pub open spec fn with_minutes(self, minutes: i64) -> ArrivalView {
        ArrivalView {
            destination: self.destination,
            arrival_time_ms: self.arrival_time_ms,
            minutes: minutes,
            route_id: self.route_id,
            route_label: self.route_label,
            route_color: self.route_color,
            trip_id: self.trip_id,
            stop_id: self.stop_id,
        }
    }

    /// The same arrival with its `arrival_time_ms` replaced.
    pub open spec fn with_time(self, arrival_time_ms: i64) -> ArrivalView {
        ArrivalView {
            destination: self.destination,
            arrival_time_ms: arrival_time_ms,
            minutes: self.minutes,
            route_id: self.route_id,
            route_label: self.route_label,
            route_color: self.route_color,
            trip_id: self.trip_id,
            stop_id: self.stop_id,
        }
    }
}

impl View for Arrival {
    type V = ArrivalView;

    open spec fn view(&self) -> ArrivalView {
        ArrivalView {
            destination: self.destination@,
            arrival_time_ms: self.arrival_time_ms,
            minutes: self.minutes,
            route_id: self.route_id@,
            route_label: self.route_label@,
            route_color: self.route_color@,
            trip_id: self.trip_id@,
            stop_id: self.stop_id@,
        }
    }
}

/// The views of a sequence of arrivals, in order.
pub open spec fn views(s: Seq<Arrival>) -> Seq<ArrivalView> {
    s.map_values(|a: Arrival| a@)
}

/// A copy of `a` with the same view.
pub fn copy_arrival(a: &Arrival) -> (c: Arrival)
    ensures
        c@ == a@,
{
    Arrival {
        destination: a.destination.clone(),
        arrival_time_ms: a.arrival_time_ms,
        minutes: a.minutes,
        route_id: a.route_id.clone(),
        route_label: a.route_label.clone(),
        route_color: a.route_color,
        trip_id: a.trip_id.clone(),
        stop_id: a.stop_id.clone(),
    }
}

} // verus!
