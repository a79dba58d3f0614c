# board

A transit departure board for OneBusAway stops, with its logic written in
Verus and proved against its contracts.

- `src/` is the verified library:
  - `schedule.rs`: re-timing arrivals against the corrected clock, stable
    ordering by arrival time, the display window and the removal of repeated
    departures, with the properties of the resulting listing;
  - `oba.rs`: building arrivals from an API response, the request address and
    the retry policy;
  - `text.rs`, `color.rs`: whitespace, trimming, replacing, decimal rendering
    and hexadecimal colours;
  - `clock.rs`: the local clock and HTTP `Date` headers;
  - `reminder.rs`: reminder requests and when they sound;
  - `display.rs`: the per-stop cache, screen rows and row edits.
- `app/` is the program around it: HTTP, JSON, the Slint window, timers,
  files, sounds and setting the system clock.
- `tests/` exercises the library on concrete values.

The debug listing of the raw and filtered arrivals runs when the program is
started under the name `debug_arrivals` (for instance through a link to it).
