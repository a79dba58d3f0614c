//! What the board keeps between fetches and what it puts on screen: the last
//! arrivals fetched for each stop, the rows of the display, and how the
//! display's row list is brought up to date.

use vstd::prelude::*;

use crate::arrival::{copy_arrival, views, Arrival, ArrivalView};
use crate::text::{format_time, time_label};

verus! {

/// Arrivals are fetched this often, in seconds.
pub const FETCH_PERIOD_SECS: u64 = 60;

/// The clock on screen ticks this often, in seconds.
pub const TICK_SECS: u64 = 1;

/// The arrival list is redrawn every this many ticks.
pub const TICKS_PER_REFRESH: u32 = 10;

// ---------------------------------------------------------------------------
// The last arrivals fetched for each stop
// ---------------------------------------------------------------------------

struct CacheEntry {
    stop_id: String,
    arrivals: Vec<Arrival>,
}

/// The arrivals last fetched for each stop, kept for when a fetch fails.
pub struct ArrivalCache {
    entries: Vec<CacheEntry>,
}

spec fn key_index_from(entries: Seq<CacheEntry>, stop: Seq<char>, j: int) -> Option<int>
    decreases entries.len() - j,
{
    if j < 0 || j >= entries.len() {
        None
    } else if entries[j].stop_id@ == stop {
        Some(j)
    } else {
        key_index_from(entries, stop, j + 1)
    }
}

proof fn lemma_key_index_bounds(entries: Seq<CacheEntry>, stop: Seq<char>, j: int)
    ensures
        key_index_from(entries, stop, j) matches Some(i) ==> j <= i < entries.len()
            && entries[i].stop_id@ == stop,
    decreases entries.len() - j,
{
    if 0 <= j < entries.len() && entries[j].stop_id@ != stop {
        lemma_key_index_bounds(entries, stop, j + 1);
    }
}

/// Lookups only depend on the keys.
proof fn lemma_key_index_same_keys(a: Seq<CacheEntry>, b: Seq<CacheEntry>, stop: Seq<char>, j: int)
    requires
        a.len() == b.len(),
        forall|i: int| 0 <= i < a.len() ==> #[trigger] a[i].stop_id@ == b[i].stop_id@,
    ensures
        key_index_from(a, stop, j) == key_index_from(b, stop, j),
    decreases a.len() - j,
{
    if 0 <= j < a.len() {
        lemma_key_index_same_keys(a, b, stop, j + 1);
    }
}

/// Lookups in a sequence with one more entry at the end.
proof fn lemma_key_index_push(a: Seq<CacheEntry>, e: CacheEntry, stop: Seq<char>, j: int)
    requires
        0 <= j <= a.len(),
    ensures
        key_index_from(a.push(e), stop, j) == match key_index_from(a, stop, j) {
            Some(i) => Some(i),
            None => if e.stop_id@ == stop {
                Some(a.len() as int)
            } else {
                None
            },
        },
    decreases a.len() - j,
{
    if j < a.len() {
        assert(a.push(e)[j] == a[j]);
        lemma_key_index_push(a, e, stop, j + 1);
    } else {
        assert(a.push(e)[j] == e);
        reveal_with_fuel(key_index_from, 2);
    }
}

impl ArrivalCache {
    /// The arrivals cached for `stop`, if any.
    pub closed spec fn cached(&self, stop: Seq<char>) -> Option<Seq<ArrivalView>> {
        match key_index_from(self.entries@, stop, 0) {
            Some(i) => Some(views(self.entries@[i].arrivals@)),
            None => None,
        }
    }

    /// An empty cache.
    pub fn new() -> (cache: ArrivalCache)
        ensures
            forall|stop: Seq<char>| #[trigger] cache.cached(stop) is None,
    {
        ArrivalCache { entries: Vec::new() }
    }

    fn find(&self, stop: &String) -> (i: Option<usize>)
        ensures
            match i {
                Some(i) => key_index_from(self.entries@, stop@, 0) == Some(i as int),
                None => key_index_from(self.entries@, stop@, 0) is None,
            },
    {
        let mut i: usize = 0;
        while i < self.entries.len()
            invariant
                i <= self.entries@.len(),
                key_index_from(self.entries@, stop@, 0) == key_index_from(
                    self.entries@,
                    stop@,
                    i as int,
                ),
            decreases self.entries.len() - i,
        {
            if self.entries[i].stop_id == *stop {
                return Some(i);
            }
            i = i + 1;
        }
        None
    }

    /// A copy of the arrivals cached for `stop`.
    pub fn get(&self, stop: &str) -> (found: Option<Vec<Arrival>>)
        ensures
            match found {
                Some(v) => self.cached(stop@) == Some(views(v@)),
                None => self.cached(stop@) is None,
            },
    {
        let key = String::from_str(stop);
        match self.find(&key) {
            Some(i) => {
                proof {
                    lemma_key_index_bounds(self.entries@, stop@, 0);
                }
                Some(copy_arrivals(&self.entries[i].arrivals))
            },
            None => None,
        }
    }

    /// Caches (copies of) `arrivals` for `stop`, in place of what was cached
    /// for it before; what is cached for other stops stays.
    pub fn insert(&mut self, stop: &str, arrivals: &Vec<Arrival>)
        ensures
            final(self).cached(stop@) == Some(views(arrivals@)),
            forall|other: Seq<char>|
                other != stop@ ==> #[trigger] final(self).cached(other) == old(self).cached(other),
    {
        let key = String::from_str(stop);
        let entry = CacheEntry { stop_id: key.clone(), arrivals: copy_arrivals(arrivals) };
        let ghost before = self.entries@;
        match self.find(&key) {
            Some(i) => {
                proof {
                    lemma_key_index_bounds(before, stop@, 0);
                }
                self.entries.set(i, entry);
                proof {
                    assert forall|other: Seq<char>| #[trigger]
                        key_index_from(self.entries@, other, 0) == key_index_from(
                            before,
                            other,
                            0,
                        ) by {
                        lemma_key_index_same_keys(self.entries@, before, other, 0);
                    }
                    assert forall|other: Seq<char>|
                        other != stop@ implies #[trigger] self.cached(other) == old(self).cached(
                            other,
                        ) by {
                        assert(key_index_from(self.entries@, other, 0) == key_index_from(
                            before,
                            other,
                            0,
                        ));
                        lemma_key_index_bounds(before, other, 0);
                        if let Some(j) = key_index_from(before, other, 0) {
                            assert(j != i);
                        }
                    }
                }
            },
            None => {
                self.entries.push(entry);
                proof {
                    assert forall|other: Seq<char>| #[trigger]
                        key_index_from(self.entries@, other, 0) == match key_index_from(
                            before,
                            other,
                            0,
                        ) {
                            Some(j) => Some(j),
                            None => if entry.stop_id@ == other {
                                Some(before.len() as int)
                            } else {
                                None
                            },
                        } by {
                        lemma_key_index_push(before, entry, other, 0);
                    }
                    assert forall|other: Seq<char>|
                        other != stop@ implies #[trigger] self.cached(other) == old(self).cached(
                            other,
                        ) by {
                        lemma_key_index_bounds(before, other, 0);
                        if let Some(j) = key_index_from(before, other, 0) {
                            assert(self.entries@[j] == before[j]);
                        }
                    }
                }
            },
        }
    }
}

/// Copies of `v`.
pub fn copy_arrivals(v: &Vec<Arrival>) -> (c: Vec<Arrival>)
    ensures
        views(c@) == views(v@),
{
    let mut c: Vec<Arrival> = Vec::new();
    let mut i: usize = 0;
    while i < v.len()
        invariant
            i <= v@.len(),
            views(c@) == views(v@).take(i as int),
        decreases v.len() - i,
    {
        let a = copy_arrival(&v[i]);
        let ghost before = views(c@);
        c.push(a);
        assert(views(c@) =~= before.push(a@));
        assert(views(v@).take(i + 1) =~= views(v@).take(i as int).push(v@[i as int]@));
        i = i + 1;
    }
    assert(views(v@).take(v@.len() as int) =~= views(v@));
    c
}

/// One stop's turn in a round of fetches. A successful fetch (`fetched` holds
/// its arrivals and clock offset) sets the clock offset, is cached for the
/// stop and adds its arrivals to `all`; a failed one (`None`) adds whatever
/// was cached for the stop.
pub fn take_stop_result(
    cache: &mut ArrivalCache,
    clock_offset_ms: &mut i64,
    all: &mut Vec<Arrival>,
    stop_id: &str,
    fetched: Option<(Vec<Arrival>, i64)>,
)
    ensures
        match fetched {
            Some(result) => {
                &&& *final(clock_offset_ms) == result.1
                &&& final(cache).cached(stop_id@) == Some(views(result.0@))
                &&& forall|other: Seq<char>|
                    other != stop_id@ ==> #[trigger] final(cache).cached(other) == old(
                        cache,
                    ).cached(other)
                &&& views(final(all)@) == views(old(all)@) + views(result.0@)
            },
            None => {
                &&& *final(clock_offset_ms) == *old(clock_offset_ms)
                &&& *final(cache) == *old(cache)
                &&& views(final(all)@) == views(old(all)@) + match old(cache).cached(stop_id@) {
                    Some(c) => c,
                    None => Seq::<ArrivalView>::empty(),
                }
            },
        },
{
    let ghost all_before = all@;
    match fetched {
        Some((arrivals, offset)) => {
            *clock_offset_ms = offset;
            cache.insert(stop_id, &arrivals);
            let mut arrivals = arrivals;
            let ghost added = arrivals@;
            all.append(&mut arrivals);
            assert(views(all@) =~= views(all_before) + views(added));
        },
        None => {
            match cache.get(stop_id) {
                Some(cached) => {
                    let mut cached = cached;
                    let ghost added = cached@;
                    all.append(&mut cached);
                    assert(views(all@) =~= views(all_before) + views(added));
                },
                None => {
                    assert(views(all@) =~= views(all_before) + Seq::<ArrivalView>::empty());
                },
            }
        },
    }
}

// ---------------------------------------------------------------------------
// Rows on screen
// ---------------------------------------------------------------------------

/// One row of the arrival list on screen.
pub struct DisplayRow {
    pub destination: String,
    pub time: String,
    pub route_color: [u8; 3],
    pub route_label: String,
}

/// The row that shows arrival `a`.
pub open spec fn shows(row: DisplayRow, a: ArrivalView) -> bool {
    &&& row.destination@ == a.destination
    &&& row.time@ == time_label(a.minutes as int)
    &&& row.route_color@ == a.route_color
    &&& row.route_label@ == a.route_label
}

/// The rows that show `arrivals`, one per arrival, in order.
pub fn display_rows(arrivals: &Vec<Arrival>) -> (rows: Vec<DisplayRow>)
    ensures
        rows@.len() == arrivals@.len(),
        forall|i: int| 0 <= i < rows@.len() ==> shows(#[trigger] rows@[i], arrivals@[i]@),
{
    let mut rows: Vec<DisplayRow> = Vec::new();
    let mut i: usize = 0;
    while i < arrivals.len()
        invariant
            i <= arrivals@.len(),
            rows@.len() == i,
            forall|j: int| 0 <= j < i ==> shows(#[trigger] rows@[j], arrivals@[j]@),
        decreases arrivals.len() - i,
    {
        let a = &arrivals[i];
        let row = DisplayRow {
            destination: a.destination.clone(),
            time: format_time(a.minutes),
            route_color: a.route_color,
            route_label: a.route_label.clone(),
        };
        rows.push(row);
        i = i + 1;
    }
    rows
}

/// How to bring a list of `current` rows to `wanted` rows: overwrite the
/// first `overwrite`, then add `add` at the end, then drop `remove` from the
/// end.
pub struct RowEdits {
    pub overwrite: usize,
    pub add: usize,
    pub remove: usize,
}

/// The edits that turn a list of `current` rows into one of `wanted` rows,
/// rows already there being overwritten rather than replaced.
pub fn plan_row_edits(current: usize, wanted: usize) -> (edits: RowEdits)
    ensures
        edits.overwrite == if current < wanted { current } else { wanted },
        edits.add == wanted - edits.overwrite,
        edits.remove == current - edits.overwrite,
        current + edits.add - edits.remove == wanted,
{
    if current < wanted {
        RowEdits { overwrite: current, add: wanted - current, remove: 0 }
    } else {
        RowEdits { overwrite: wanted, add: 0, remove: current - wanted }
    }
}

/// Whether the arrival list is redrawn at clock tick `tick`.
pub fn is_refresh_tick(tick: u32) -> (redraw: bool)
    ensures
        redraw == (tick % TICKS_PER_REFRESH == 0),
{
    tick % TICKS_PER_REFRESH == 0
}

} // verus!
