//! Arrival board logic: turning OneBusAway responses into the list of
//! departures a board shows, and the small decisions around fetching,
//! clock synchronisation, reminders and the screen.

pub mod arrival;
pub mod clock;
pub mod color;
pub mod display;
pub mod oba;
pub mod reminder;
pub mod schedule;
pub mod text;

pub use arrival::Arrival;
pub use color::parse_hex_color;
pub use oba::{arrivals_from_response, ApiResponse};
pub use schedule::{recalculate_and_filter, recalculate_and_filter_at};
pub use text::format_time;
