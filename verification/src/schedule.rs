//! What the board shows: arrivals re-timed against the corrected clock,
//! ordered by arrival time, limited to the next three quarters of an hour,
//! with repeated departures shown once.

use vstd::prelude::*;

use crate::arrival::{views, Arrival, ArrivalView};

verus! {

/// The earliest wait (in minutes) still shown: a bus that left a minute ago.
pub const EARLIEST_SHOWN_MINUTES: i64 = -1;

/// The latest wait (in minutes) shown.
pub const LATEST_SHOWN_MINUTES: i64 = 45;

// ---------------------------------------------------------------------------
// Mathematical model
// ---------------------------------------------------------------------------

/// Whole minutes from `now_ms` until `arrival_ms`, rounded toward zero as
/// integer division does.
pub open spec fn minutes_between(arrival_ms: int, now_ms: int) -> int {
    let d = arrival_ms - now_ms;
    if d >= 0 {
        d / 60000
    } else {
        -((-d) / 60000)
    }
}

/// `minutes_between` counts the whole minutes between the two times, toward
/// zero: a wait of `m` minutes means at least `m` and less than `m + 1` full
/// minutes ahead (for a bus still to come), or at least `m - 1` exclusive and
/// at most `m` for one already gone; between 64-bit times it fits 64 bits.
pub proof fn lemma_minutes_between_counts_whole_minutes(arrival_ms: int, now_ms: int)
    ensures
        arrival_ms >= now_ms ==> {
            let m = minutes_between(arrival_ms, now_ms);
            &&& 0 <= m
            &&& m * 60000 <= arrival_ms - now_ms < (m + 1) * 60000
        },
        arrival_ms < now_ms ==> {
            let m = minutes_between(arrival_ms, now_ms);
            &&& m <= 0
            &&& (m - 1) * 60000 < arrival_ms - now_ms <= m * 60000
        },
        i64::MIN <= arrival_ms <= i64::MAX && i64::MIN <= now_ms <= i64::MAX ==> i64::MIN
            <= minutes_between(arrival_ms, now_ms) <= i64::MAX,
{
    let d = arrival_ms - now_ms;
    if d >= 0 {
        assert(0 <= d / 60000 && (d / 60000) * 60000 <= d < (d / 60000 + 1) * 60000)
            by (nonlinear_arith)
            requires
                d >= 0,
        ;
        assert(d <= 0x1_0000_0000_0000_0000 ==> d / 60000 <= 0x1_0000_0000_0000_0000)
            by (nonlinear_arith)
            requires
                d >= 0,
        ;
    } else {
        let e = -d;
        assert(0 <= e / 60000 && (e / 60000) * 60000 <= e < (e / 60000 + 1) * 60000)
            by (nonlinear_arith)
            requires
                e > 0,
        ;
        assert(e <= 0x1_0000_0000_0000_0000 ==> e / 60000 <= 0x1_0000_0000_0000_0000)
            by (nonlinear_arith)
            requires
                e > 0,
        ;
    }
}

/// Every arrival with its minutes recomputed against `now_ms`.
pub open spec fn retimed(s: Seq<ArrivalView>, now_ms: int) -> Seq<ArrivalView> {
    s.map_values(|a: ArrivalView| a.with_minutes(minutes_between(a.arrival_time_ms as int, now_ms) as i64))
}

/// Arrival times never decrease along `s`.
pub open spec fn sorted_by_time(s: Seq<ArrivalView>) -> bool {
    forall|i: int, j: int| 0 <= i <= j < s.len() ==> s[i].arrival_time_ms <= s[j].arrival_time_ms
}

/// The arrivals of `s` due at time `t`, in their order in `s`.
pub open spec fn due_at(s: Seq<ArrivalView>, t: i64) -> Seq<ArrivalView> {
    s.filter(|a: ArrivalView| a.arrival_time_ms == t)
}

/// `out` is `s` ordered by arrival time, arrivals due at the same time
/// keeping their order in `s` (a stable sort).
pub open spec fn is_stable_sort_of(out: Seq<ArrivalView>, s: Seq<ArrivalView>) -> bool {
    &&& sorted_by_time(out)
    &&& forall|t: i64| #[trigger] due_at(out, t) == due_at(s, t)
}

/// `s` stably sorted by arrival time (there is exactly one such order:
/// see `lemma_stable_sort_unique` and `lemma_stable_sort_exists`).
pub open spec fn sort_by_time(s: Seq<ArrivalView>) -> Seq<ArrivalView> {
    choose|out: Seq<ArrivalView>| is_stable_sort_of(out, s)
}

/// The board shows arrivals due from one minute ago up to 45 minutes ahead.
pub open spec fn in_window(a: ArrivalView) -> bool {
    EARLIEST_SHOWN_MINUTES <= a.minutes <= LATEST_SHOWN_MINUTES
}

/// `in_window` as a predicate value.
pub open spec fn window_pred() -> spec_fn(ArrivalView) -> bool {
    |a: ArrivalView| in_window(a)
}

/// The arrivals of `s` that the board shows, in order.
pub open spec fn shown(s: Seq<ArrivalView>) -> Seq<ArrivalView> {
    s.filter(window_pred())
}

/// Two arrivals that look the same on the board: same wait, route and
/// destination.
pub open spec fn same_departure(a: ArrivalView, b: ArrivalView) -> bool {
    &&& a.minutes == b.minutes
    &&& a.route_id == b.route_id
    &&& a.destination == b.destination
}

/// `s` with every arrival dropped that looks the same as the one before it.
pub open spec fn dedup_runs(s: Seq<ArrivalView>) -> Seq<ArrivalView>
    decreases s.len(),
{
    if s.len() <= 1 {
        s
    } else {
        let rest = dedup_runs(s.drop_last());
        if same_departure(s[s.len() - 2], s.last()) {
            rest
        } else {
            rest.push(s.last())
        }
    }
}

/// No two neighbours of `s` look the same on the board.
pub open spec fn no_repeated_neighbours(s: Seq<ArrivalView>) -> bool {
    forall|i: int| 0 <= i < s.len() - 1 ==> !same_departure(#[trigger] s[i], s[i + 1])
}

/// What the board lists for the arrivals `s` when the corrected clock reads
/// `now_ms`.
pub open spec fn board_listing(s: Seq<ArrivalView>, now_ms: int) -> Seq<ArrivalView> {
    dedup_runs(shown(sort_by_time(retimed(s, now_ms))))
}

// ---------------------------------------------------------------------------
// Lemmas on filters
// ---------------------------------------------------------------------------

proof fn lemma_filter_single(x: ArrivalView, pred: spec_fn(ArrivalView) -> bool)
    ensures
        seq![x].filter(pred) == (if pred(x) { seq![x] } else { Seq::<ArrivalView>::empty() }),
{
    reveal_with_fuel(Seq::filter, 2);
    assert(seq![x].drop_last() =~= Seq::<ArrivalView>::empty());
}

proof fn lemma_filter_none(s: Seq<ArrivalView>, pred: spec_fn(ArrivalView) -> bool)
    requires
        forall|i: int| 0 <= i < s.len() ==> !pred(#[trigger] s[i]),
    ensures
        s.filter(pred) == Seq::<ArrivalView>::empty(),
    decreases s.len(),
{
    reveal_with_fuel(Seq::filter, 1);
    if s.len() > 0 {
        lemma_filter_none(s.drop_last(), pred);
        assert(!pred(s[s.len() - 1]));
    }
}

proof fn lemma_filter_all(s: Seq<ArrivalView>, pred: spec_fn(ArrivalView) -> bool)
    requires
        forall|i: int| 0 <= i < s.len() ==> pred(#[trigger] s[i]),
    ensures
        s.filter(pred) == s,
    decreases s.len(),
{
    reveal_with_fuel(Seq::filter, 1);
    if s.len() > 0 {
        lemma_filter_all(s.drop_last(), pred);
        assert(pred(s[s.len() - 1]));
        assert(s.drop_last().push(s.last()) =~= s);
    }
}

/// Every element of a filter satisfies the predicate and comes from the
/// filtered sequence.
proof fn lemma_filter_member(s: Seq<ArrivalView>, pred: spec_fn(ArrivalView) -> bool, i: int)
    requires
        0 <= i < s.filter(pred).len(),
    ensures
        pred(s.filter(pred)[i]),
        s.contains(s.filter(pred)[i]),
{
    broadcast use Seq::lemma_filter_pred, Seq::lemma_filter_contains_rev;

    assert(s.filter(pred).contains(s.filter(pred)[i]));
}

// ---------------------------------------------------------------------------
// Stable sorting
// ---------------------------------------------------------------------------

/// Inserting `x` just before the first arrival not earlier than it extends a
/// stable sort of `s` to one of `[x] + s`.
proof fn lemma_insert_step(out: Seq<ArrivalView>, s: Seq<ArrivalView>, x: ArrivalView, p: int)
    requires
        is_stable_sort_of(out, s),
        0 <= p <= out.len(),
        forall|i: int| 0 <= i < p ==> #[trigger] out[i].arrival_time_ms < x.arrival_time_ms,
        p < out.len() ==> x.arrival_time_ms <= out[p].arrival_time_ms,
    ensures
        is_stable_sort_of(out.insert(p, x), seq![x] + s),
{
    let res = out.insert(p, x);
    let front = out.take(p);
    let back = out.skip(p);
    assert(out =~= front + back);
    assert(res =~= front + seq![x] + back);
    assert forall|i: int, j: int| 0 <= i <= j < res.len() implies res[i].arrival_time_ms
        <= res[j].arrival_time_ms by {
        if j < p {
        } else if j == p {
        } else if i < p {
            assert(out[i].arrival_time_ms < x.arrival_time_ms);
            assert(x.arrival_time_ms <= out[p].arrival_time_ms);
            assert(out[p].arrival_time_ms <= out[j - 1].arrival_time_ms);
        } else if i == p {
            assert(x.arrival_time_ms <= out[p].arrival_time_ms);
            assert(out[p].arrival_time_ms <= out[j - 1].arrival_time_ms);
        } else {
            assert(out[i - 1].arrival_time_ms <= out[j - 1].arrival_time_ms);
        }
    }
    assert forall|t: i64| #[trigger] due_at(res, t) == due_at(seq![x] + s, t) by {
        let pred = |a: ArrivalView| a.arrival_time_ms == t;
        Seq::filter_distributes_over_add(front + seq![x], back, pred);
        Seq::filter_distributes_over_add(front, seq![x], pred);
        Seq::filter_distributes_over_add(front, back, pred);
        Seq::filter_distributes_over_add(seq![x], s, pred);
        lemma_filter_single(x, pred);
        assert(due_at(out, t) == due_at(s, t));
        if t == x.arrival_time_ms {
            assert forall|i: int| 0 <= i < front.len() implies !pred(#[trigger] front[i]) by {
                assert(out[i].arrival_time_ms < x.arrival_time_ms);
            }
            lemma_filter_none(front, pred);
            assert(front.filter(pred) + seq![x] + back.filter(pred) =~= seq![x] + back.filter(pred));
            assert(front.filter(pred) + back.filter(pred) =~= back.filter(pred));
        } else {
            assert(front.filter(pred) + Seq::<ArrivalView>::empty() =~= front.filter(pred));
            assert(Seq::<ArrivalView>::empty() + s.filter(pred) =~= s.filter(pred));
        }
    }
}

/// A position before which every arrival of a sorted `out` is earlier than
/// `t`, and from which none is.
proof fn split_point(out: Seq<ArrivalView>, t: i64) -> (p: int)
    requires
        sorted_by_time(out),
    ensures
        0 <= p <= out.len(),
        forall|i: int| 0 <= i < p ==> #[trigger] out[i].arrival_time_ms < t,
        forall|i: int| p <= i < out.len() ==> t <= #[trigger] out[i].arrival_time_ms,
    decreases out.len(),
{
    if out.len() == 0 {
        0
    } else if out.last().arrival_time_ms < t {
        out.len() as int
    } else {
        let p = split_point(out.drop_last(), t);
        assert forall|i: int| p <= i < out.len() implies t <= #[trigger] out[i].arrival_time_ms by {
            if i < out.len() - 1 {
                assert(out.drop_last()[i] == out[i]);
            }
        }
        assert forall|i: int| 0 <= i < p implies #[trigger] out[i].arrival_time_ms < t by {
            assert(out.drop_last()[i] == out[i]);
        }
        p
    }
}

/// Every sequence of arrivals has a stable sort by arrival time.
pub proof fn lemma_stable_sort_exists(s: Seq<ArrivalView>)
    ensures
        exists|out: Seq<ArrivalView>| is_stable_sort_of(out, s),
        is_stable_sort_of(sort_by_time(s), s),
    decreases s.len(),
{
    if s.len() == 0 {
        assert(is_stable_sort_of(s, s));
    } else {
        let rest = s.drop_first();
        lemma_stable_sort_exists(rest);
        let o = sort_by_time(rest);
        let p = split_point(o, s[0].arrival_time_ms);
        lemma_insert_step(o, rest, s[0], p);
        assert(seq![s[0]] + rest =~= s);
        assert(is_stable_sort_of(o.insert(p, s[0]), s));
    }
}

/// Sorting keeps every arrival, as often as it occurs, and nothing else.
pub proof fn lemma_sort_keeps_arrivals(s: Seq<ArrivalView>)
    ensures
        sort_by_time(s).to_multiset() == s.to_multiset(),
        sort_by_time(s).len() == s.len(),
    decreases s.len(),
{
    broadcast use vstd::seq_lib::to_multiset_len;

    lemma_stable_sort_exists(s);
    if s.len() == 0 {
        assert(is_stable_sort_of(s, s));
        lemma_stable_sort_unique(sort_by_time(s), s, s);
    } else {
        let rest = s.drop_first();
        lemma_sort_keeps_arrivals(rest);
        lemma_stable_sort_exists(rest);
        let o = sort_by_time(rest);
        let p = split_point(o, s[0].arrival_time_ms);
        lemma_insert_step(o, rest, s[0], p);
        assert(seq![s[0]] + rest =~= s);
        lemma_stable_sort_unique(sort_by_time(s), o.insert(p, s[0]), s);
        vstd::seq_lib::to_multiset_insert(o, p, s[0]);
        vstd::seq_lib::to_multiset_insert(rest, 0, s[0]);
        assert(rest.insert(0, s[0]) =~= s);
    }
}

/// A filter keeps the last element exactly when it passes, after filtering
/// all but the last.
pub proof fn lemma_filter_unfold<A>(s: Seq<A>, pred: spec_fn(A) -> bool)
    requires
        s.len() > 0,
    ensures
        s.filter(pred) == (if pred(s.last()) {
            s.drop_last().filter(pred).push(s.last())
        } else {
            s.drop_last().filter(pred)
        }),
{
    reveal_with_fuel(Seq::filter, 1);
}

/// Two stable sorts of the same arrivals are the same sequence.
pub proof fn lemma_stable_sort_unique(a: Seq<ArrivalView>, b: Seq<ArrivalView>, s: Seq<ArrivalView>)
    requires
        is_stable_sort_of(a, s),
        is_stable_sort_of(b, s),
    ensures
        a == b,
{
    lemma_same_filters_same_sorted(a, b);
}

proof fn lemma_nonempty_filter_has_member(s: Seq<ArrivalView>, t: i64)
    requires
        due_at(s, t).len() > 0,
    ensures
        exists|i: int| 0 <= i < s.len() && #[trigger] s[i].arrival_time_ms == t,
{
    let pred = |a: ArrivalView| a.arrival_time_ms == t;
    lemma_filter_member(s, pred, 0);
    let x = s.filter(pred)[0];
    let i = choose|i: int| 0 <= i < s.len() && s[i] == x;
    assert(s[i].arrival_time_ms == t);
}

proof fn lemma_same_filters_same_sorted(a: Seq<ArrivalView>, b: Seq<ArrivalView>)
    requires
        sorted_by_time(a),
        sorted_by_time(b),
        forall|t: i64| #[trigger] due_at(a, t) == due_at(b, t),
    ensures
        a == b,
    decreases a.len() + b.len(),
{
    if a.len() == 0 && b.len() == 0 {
        assert(a =~= b);
    } else if a.len() == 0 {
        let t = b.last().arrival_time_ms;
        let pred = |x: ArrivalView| x.arrival_time_ms == t;
        lemma_filter_unfold(b, pred);
        assert(due_at(b, t).len() > 0);
        assert(due_at(a, t) == due_at(b, t));
        assert(a.filter(pred) =~= a);
    } else if b.len() == 0 {
        let t = a.last().arrival_time_ms;
        let pred = |x: ArrivalView| x.arrival_time_ms == t;
        lemma_filter_unfold(a, pred);
        assert(due_at(a, t) == due_at(b, t));
        assert(b.filter(pred) =~= b);
    } else {
        let ta = a.last().arrival_time_ms;
        let tb = b.last().arrival_time_ms;
        let pa = |x: ArrivalView| x.arrival_time_ms == ta;
        let pb = |x: ArrivalView| x.arrival_time_ms == tb;
        lemma_filter_unfold(a, pa);
        lemma_filter_unfold(b, pb);
        assert(due_at(a, ta) == due_at(b, ta));
        assert(due_at(a, tb) == due_at(b, tb));
        lemma_nonempty_filter_has_member(b, ta);
        lemma_nonempty_filter_has_member(a, tb);
        let ib = choose|i: int| 0 <= i < b.len() && #[trigger] b[i].arrival_time_ms == ta;
        let ia = choose|i: int| 0 <= i < a.len() && #[trigger] a[i].arrival_time_ms == tb;
        assert(b[ib].arrival_time_ms <= b[b.len() - 1].arrival_time_ms);
        assert(a[ia].arrival_time_ms <= a[a.len() - 1].arrival_time_ms);
        assert(ta == tb);
        lemma_filter_unfold(a, pa);
        lemma_filter_unfold(b, pa);
        assert(a.last() == due_at(a, ta).last());
        assert(b.last() == due_at(b, ta).last());
        let a2 = a.drop_last();
        let b2 = b.drop_last();
        assert forall|t: i64| #[trigger] due_at(a2, t) == due_at(b2, t) by {
            let p = |x: ArrivalView| x.arrival_time_ms == t;
            lemma_filter_unfold(a, p);
            lemma_filter_unfold(b, p);
            assert(due_at(a, t) == due_at(b, t));
            if t == ta {
                assert(due_at(a, t).drop_last() =~= a2.filter(p));
                assert(due_at(b, t).drop_last() =~= b2.filter(p));
            }
        }
        lemma_same_filters_same_sorted(a2, b2);
        assert(a =~= a2.push(a.last()));
        assert(b =~= b2.push(b.last()));
    }
}

// ---------------------------------------------------------------------------
// Properties of the listing
// ---------------------------------------------------------------------------

proof fn lemma_filter_sorted(s: Seq<ArrivalView>, pred: spec_fn(ArrivalView) -> bool)
    requires
        sorted_by_time(s),
    ensures
        sorted_by_time(s.filter(pred)),
    decreases s.len(),
{
    reveal_with_fuel(Seq::filter, 1);
    if s.len() > 0 {
        let d = s.drop_last();
        lemma_filter_sorted(d, pred);
        if pred(s.last()) {
            let f = d.filter(pred);
            assert forall|i: int| 0 <= i < f.len() implies #[trigger] f[i].arrival_time_ms
                <= s.last().arrival_time_ms by {
                lemma_filter_member(d, pred, i);
                let j = choose|j: int| 0 <= j < d.len() && d[j] == f[i];
                assert(s[j] == d[j]);
            }
        }
    }
}

proof fn lemma_dedup_members(s: Seq<ArrivalView>)
    ensures
        forall|i: int| 0 <= i < dedup_runs(s).len() ==> s.contains(#[trigger] dedup_runs(s)[i]),
    decreases s.len(),
{
    if s.len() > 1 {
        let d = s.drop_last();
        lemma_dedup_members(d);
        assert forall|i: int| 0 <= i < dedup_runs(s).len() implies s.contains(
            #[trigger] dedup_runs(s)[i],
        ) by {
            if i < dedup_runs(d).len() {
                assert(d.contains(dedup_runs(d)[i]));
                let j = choose|j: int| 0 <= j < d.len() && d[j] == dedup_runs(d)[i];
                assert(s[j] == d[j]);
            } else {
                assert(s[s.len() - 1] == s.last());
            }
        }
    }
}

proof fn lemma_dedup_sorted(s: Seq<ArrivalView>)
    requires
        sorted_by_time(s),
    ensures
        sorted_by_time(dedup_runs(s)),
    decreases s.len(),
{
    if s.len() > 1 {
        let d = s.drop_last();
        lemma_dedup_sorted(d);
        lemma_dedup_members(d);
        let r = dedup_runs(d);
        assert forall|i: int| 0 <= i < r.len() implies #[trigger] r[i].arrival_time_ms
            <= s.last().arrival_time_ms by {
            assert(d.contains(r[i]));
            let j = choose|j: int| 0 <= j < d.len() && d[j] == r[i];
            assert(s[j] == d[j]);
        }
    }
}

/// The last arrival kept from a non-empty `s` looks the same as the last
/// arrival of `s`, and no two neighbours of the result look the same.
proof fn lemma_dedup_no_repeats(s: Seq<ArrivalView>)
    ensures
        no_repeated_neighbours(dedup_runs(s)),
        s.len() > 0 ==> dedup_runs(s).len() > 0 && same_departure(dedup_runs(s).last(), s.last()),
    decreases s.len(),
{
    if s.len() > 1 {
        let d = s.drop_last();
        lemma_dedup_no_repeats(d);
        let r = dedup_runs(d);
        assert(s[s.len() - 2] == d.last());
        if !same_departure(s[s.len() - 2], s.last()) {
            let t = r.push(s.last());
            assert forall|i: int| 0 <= i < t.len() - 1 implies !same_departure(
                #[trigger] t[i],
                t[i + 1],
            ) by {
                if i < r.len() - 1 {
                    assert(t[i] == r[i] && t[i + 1] == r[i + 1]);
                } else {
                    assert(t[i] == r.last());
                }
            }
        }
    }
}

proof fn lemma_dedup_keeps_distinct(s: Seq<ArrivalView>)
    requires
        no_repeated_neighbours(s),
    ensures
        dedup_runs(s) == s,
    decreases s.len(),
{
    if s.len() > 1 {
        let d = s.drop_last();
        assert forall|i: int| 0 <= i < d.len() - 1 implies !same_departure(#[trigger] d[i], d[i + 1]) by {
            assert(d[i] == s[i] && d[i + 1] == s[i + 1]);
        }
        lemma_dedup_keeps_distinct(d);
        assert(!same_departure(s[s.len() - 2], s[s.len() - 1]));
        assert(d.push(s.last()) =~= s);
    }
}

proof fn lemma_stable_sort_members(out: Seq<ArrivalView>, s: Seq<ArrivalView>, i: int)
    requires
        is_stable_sort_of(out, s),
        0 <= i < out.len(),
    ensures
        s.contains(out[i]),
{
    broadcast use Seq::lemma_filter_contains, Seq::lemma_filter_contains_rev;

    let t = out[i].arrival_time_ms;
    let pred = |a: ArrivalView| a.arrival_time_ms == t;
    assert(out.filter(pred).contains(out[i]));
    assert(due_at(out, t) == due_at(s, t));
    assert(s.filter(pred).contains(out[i]));
}

/// An arrival is listed only if it is one of the given arrivals with its
/// minutes recomputed for `now_ms`, and that wait is in the window.
pub proof fn lemma_listing_members(s: Seq<ArrivalView>, now_ms: int, i: int)
    requires
        0 <= i < board_listing(s, now_ms).len(),
    ensures
        retimed(s, now_ms).contains(board_listing(s, now_ms)[i]),
        in_window(board_listing(s, now_ms)[i]),
        board_listing(s, now_ms)[i].minutes == minutes_between(
            board_listing(s, now_ms)[i].arrival_time_ms as int,
            now_ms,
        ) as i64,
{
    let r = retimed(s, now_ms);
    let sorted = sort_by_time(r);
    let w = shown(sorted);
    let l = board_listing(s, now_ms);
    lemma_stable_sort_exists(r);
    lemma_dedup_members(w);
    assert(w.contains(l[i]));
    let j = choose|j: int| 0 <= j < w.len() && w[j] == l[i];
    lemma_filter_member(sorted, window_pred(), j);
    let k = choose|k: int| 0 <= k < sorted.len() && sorted[k] == w[j];
    lemma_stable_sort_members(sorted, r, k);
    let m = choose|m: int| 0 <= m < r.len() && r[m] == sorted[k];
    assert(r[m] == s[m].with_minutes(minutes_between(s[m].arrival_time_ms as int, now_ms) as i64));
}

/// Every listed wait counts the whole minutes (toward zero) from the
/// corrected clock `now_ms` to the arrival, and lies from -1 to 45.
pub proof fn lemma_listing_waits(s: Seq<ArrivalView>, now_ms: int, i: int)
    requires
        0 <= i < board_listing(s, now_ms).len(),
        i64::MIN <= now_ms <= i64::MAX,
    ensures
        ({
            let a = board_listing(s, now_ms)[i];
            &&& -1 <= a.minutes <= 45
            &&& a.arrival_time_ms >= now_ms ==> a.minutes * 60000 <= a.arrival_time_ms - now_ms
                < (a.minutes + 1) * 60000
            &&& a.arrival_time_ms < now_ms ==> (a.minutes - 1) * 60000 < a.arrival_time_ms - now_ms
                <= a.minutes * 60000
        }),
{
    let a = board_listing(s, now_ms)[i];
    lemma_listing_members(s, now_ms, i);
    lemma_minutes_between_counts_whole_minutes(a.arrival_time_ms as int, now_ms);
}

/// The listing is ordered by arrival time.
pub proof fn lemma_listing_sorted(s: Seq<ArrivalView>, now_ms: int)
    ensures
        sorted_by_time(board_listing(s, now_ms)),
{
    let r = retimed(s, now_ms);
    lemma_stable_sort_exists(r);
    lemma_filter_sorted(sort_by_time(r), window_pred());
    lemma_dedup_sorted(shown(sort_by_time(r)));
}

/// No two neighbours in the listing show the same wait, route and
/// destination.
pub proof fn lemma_listing_no_repeats(s: Seq<ArrivalView>, now_ms: int)
    ensures
        no_repeated_neighbours(board_listing(s, now_ms)),
{
    lemma_dedup_no_repeats(shown(sort_by_time(retimed(s, now_ms))));
}

/// Listing an already listed board again, at the same corrected time,
/// changes nothing.
pub proof fn lemma_listing_idempotent(s: Seq<ArrivalView>, now_ms: int)
    ensures
        board_listing(board_listing(s, now_ms), now_ms) == board_listing(s, now_ms),
{
    let l = board_listing(s, now_ms);
    lemma_listing_sorted(s, now_ms);
    lemma_listing_no_repeats(s, now_ms);
    assert forall|i: int| 0 <= i < l.len() implies #[trigger] retimed(l, now_ms)[i] == l[i] && in_window(l[i]) by {
        lemma_listing_members(s, now_ms, i);
    }
    assert(retimed(l, now_ms) =~= l);
    assert(is_stable_sort_of(l, l));
    lemma_stable_sort_exists(l);
    lemma_stable_sort_unique(sort_by_time(l), l, l);
    assert forall|i: int| 0 <= i < l.len() implies #[trigger] window_pred()(l[i]) by {
        lemma_listing_members(s, now_ms, i);
    }
    lemma_filter_all(l, window_pred());
    lemma_dedup_keeps_distinct(l);
}

// ---------------------------------------------------------------------------
// Moving the clock and every arrival time together
// ---------------------------------------------------------------------------

/// Moves an arrival's time by `d` milliseconds.
pub open spec fn shift_fn(d: int) -> spec_fn(ArrivalView) -> ArrivalView {
    |a: ArrivalView| a.with_time((a.arrival_time_ms + d) as i64)
}

/// `s` with every arrival time moved by `d` milliseconds.
pub open spec fn shifted(s: Seq<ArrivalView>, d: int) -> Seq<ArrivalView> {
    s.map_values(shift_fn(d))
}

/// Moving every arrival time of `s` by `d` keeps it a 64-bit time.
pub open spec fn shift_fits(s: Seq<ArrivalView>, d: int) -> bool {
    forall|i: int|
        0 <= i < s.len() ==> i64::MIN <= #[trigger] s[i].arrival_time_ms + d <= i64::MAX
}

/// Filtering the images of `s` under `f` by `p` is filtering `s` by `q` and
/// taking images, where `q` and `p` after `f` agree on `s`.
proof fn lemma_map_filter<A, B>(
    s: Seq<A>,
    f: spec_fn(A) -> B,
    p: spec_fn(B) -> bool,
    q: spec_fn(A) -> bool,
)
    requires
        forall|i: int| 0 <= i < s.len() ==> q(#[trigger] s[i]) == p(f(s[i])),
    ensures
        s.map_values(f).filter(p) == s.filter(q).map_values(f),
    decreases s.len(),
{
    reveal_with_fuel(Seq::filter, 1);
    if s.len() > 0 {
        let m = s.map_values(f);
        let d = s.drop_last();
        assert(m.drop_last() =~= d.map_values(f));
        assert forall|i: int| 0 <= i < d.len() implies q(#[trigger] d[i]) == p(f(d[i])) by {
            assert(d[i] == s[i]);
        }
        lemma_map_filter(d, f, p, q);
        lemma_filter_unfold(m, p);
        lemma_filter_unfold(s, q);
        assert(m.last() == f(s.last()));
        assert(q(s[s.len() - 1]) == p(f(s[s.len() - 1])));
        assert(d.filter(q).push(s.last()).map_values(f) =~= d.filter(q).map_values(f).push(
            f(s.last()),
        ));
    } else {
        assert(s.map_values(f) =~= Seq::<B>::empty());
        assert(s.filter(q).map_values(f) =~= Seq::<B>::empty());
    }
}

/// Filters by predicates that agree on `s` are equal.
proof fn lemma_filter_agree<A>(s: Seq<A>, p: spec_fn(A) -> bool, q: spec_fn(A) -> bool)
    requires
        forall|i: int| 0 <= i < s.len() ==> p(#[trigger] s[i]) == q(s[i]),
    ensures
        s.filter(p) == s.filter(q),
    decreases s.len(),
{
    reveal_with_fuel(Seq::filter, 1);
    if s.len() > 0 {
        let d = s.drop_last();
        assert forall|i: int| 0 <= i < d.len() implies p(#[trigger] d[i]) == q(d[i]) by {
            assert(d[i] == s[i]);
        }
        lemma_filter_agree(d, p, q);
        lemma_filter_unfold(s, p);
        lemma_filter_unfold(s, q);
        assert(p(s[s.len() - 1]) == q(s[s.len() - 1]));
    }
}

proof fn lemma_retimed_shift(s: Seq<ArrivalView>, now_ms: int, d: int)
    requires
        shift_fits(s, d),
    ensures
        retimed(shifted(s, d), now_ms + d) == shifted(retimed(s, now_ms), d),
        shift_fits(retimed(s, now_ms), d),
{
    let l = retimed(shifted(s, d), now_ms + d);
    let r = shifted(retimed(s, now_ms), d);
    assert forall|i: int| 0 <= i < s.len() implies #[trigger] l[i] == r[i] by {
        let a = s[i];
        assert(i64::MIN <= a.arrival_time_ms + d <= i64::MAX);
        assert(minutes_between(a.arrival_time_ms + d, now_ms + d) == minutes_between(
            a.arrival_time_ms as int,
            now_ms,
        ));
    }
    assert(l =~= r);
    assert forall|i: int| 0 <= i < s.len() implies i64::MIN <= #[trigger] retimed(
        s,
        now_ms,
    )[i].arrival_time_ms + d <= i64::MAX by {
        assert(s[i].arrival_time_ms + d <= i64::MAX);
    }
}

/// The arrivals due at `t` after the shift are those due at `t - d` before
/// it, shifted.
proof fn lemma_due_at_shift(o: Seq<ArrivalView>, x: Seq<ArrivalView>, d: int, t: i64)
    requires
        shift_fits(o, d),
        shift_fits(x, d),
        forall|u: i64| #[trigger] due_at(o, u) == due_at(x, u),
    ensures
        due_at(shifted(o, d), t) == due_at(shifted(x, d), t),
{
    let p = |a: ArrivalView| a.arrival_time_ms == t;
    let q = |a: ArrivalView| a.arrival_time_ms + d == t;
    assert forall|i: int| 0 <= i < o.len() implies q(#[trigger] o[i]) == p(shift_fn(d)(o[i])) by {
        assert(i64::MIN <= o[i].arrival_time_ms + d <= i64::MAX);
    }
    assert forall|i: int| 0 <= i < x.len() implies q(#[trigger] x[i]) == p(shift_fn(d)(x[i])) by {
        assert(i64::MIN <= x[i].arrival_time_ms + d <= i64::MAX);
    }
    lemma_map_filter(o, shift_fn(d), p, q);
    lemma_map_filter(x, shift_fn(d), p, q);
    if i64::MIN <= t - d <= i64::MAX {
        let u = (t - d) as i64;
        let pu = |a: ArrivalView| a.arrival_time_ms == u;
        lemma_filter_agree(o, q, pu);
        lemma_filter_agree(x, q, pu);
        assert(due_at(o, u) == due_at(x, u));
    } else {
        assert forall|i: int| 0 <= i < o.len() implies !q(#[trigger] o[i]) by {}
        assert forall|i: int| 0 <= i < x.len() implies !q(#[trigger] x[i]) by {}
        lemma_filter_none(o, q);
        lemma_filter_none(x, q);
    }
}

proof fn lemma_sort_shift(x: Seq<ArrivalView>, d: int)
    requires
        shift_fits(x, d),
    ensures
        sort_by_time(shifted(x, d)) == shifted(sort_by_time(x), d),
{
    lemma_stable_sort_exists(x);
    let o = sort_by_time(x);
    assert forall|i: int| 0 <= i < o.len() implies i64::MIN <= #[trigger] o[i].arrival_time_ms + d
        <= i64::MAX by {
        lemma_stable_sort_members(o, x, i);
        let j = choose|j: int| 0 <= j < x.len() && x[j] == o[i];
        assert(i64::MIN <= x[j].arrival_time_ms + d <= i64::MAX);
    }
    let so = shifted(o, d);
    let sx = shifted(x, d);
    assert forall|i: int, j: int| 0 <= i <= j < so.len() implies so[i].arrival_time_ms
        <= so[j].arrival_time_ms by {
        assert(o[i].arrival_time_ms <= o[j].arrival_time_ms);
        assert(i64::MIN <= o[i].arrival_time_ms + d <= i64::MAX);
        assert(i64::MIN <= o[j].arrival_time_ms + d <= i64::MAX);
    }
    assert forall|t: i64| #[trigger] due_at(so, t) == due_at(sx, t) by {
        lemma_due_at_shift(o, x, d, t);
    }
    assert(is_stable_sort_of(so, sx));
    lemma_stable_sort_exists(sx);
    lemma_stable_sort_unique(sort_by_time(sx), so, sx);
}

proof fn lemma_shown_shift(y: Seq<ArrivalView>, d: int)
    ensures
        shown(shifted(y, d)) == shifted(shown(y), d),
{
    lemma_map_filter(y, shift_fn(d), window_pred(), window_pred());
}

proof fn lemma_dedup_shift(z: Seq<ArrivalView>, d: int)
    ensures
        dedup_runs(shifted(z, d)) == shifted(dedup_runs(z), d),
    decreases z.len(),
{
    let sz = shifted(z, d);
    if z.len() <= 1 {
    } else {
        let dl = z.drop_last();
        assert(sz.drop_last() =~= shifted(dl, d));
        lemma_dedup_shift(dl, d);
        assert(sz[sz.len() - 2] == shift_fn(d)(z[z.len() - 2]));
        assert(sz.last() == shift_fn(d)(z.last()));
        let r = dedup_runs(dl);
        assert(shifted(r.push(z.last()), d) =~= shifted(r, d).push(shift_fn(d)(z.last())));
    }
}

/// Moving the corrected clock and every arrival time by the same `d`
/// milliseconds moves the listing's arrival times by `d` and changes nothing
/// else: the listing depends on the clock only through the corrected time,
/// and on arrival times only through how far ahead they are. (A call at local
/// time `L + e` with offset `offset + d - e` on arrivals moved by `d` is such
/// a move of a call at local time `L` with offset `offset`.)
pub proof fn lemma_listing_time_shift(s: Seq<ArrivalView>, now_ms: int, d: int)
    requires
        shift_fits(s, d),
    ensures
        board_listing(shifted(s, d), now_ms + d) == shifted(board_listing(s, now_ms), d),
{
    let r = retimed(s, now_ms);
    lemma_retimed_shift(s, now_ms, d);
    lemma_sort_shift(r, d);
    lemma_shown_shift(sort_by_time(r), d);
    lemma_dedup_shift(shown(sort_by_time(r)), d);
}

// ---------------------------------------------------------------------------
// Executable pipeline
// ---------------------------------------------------------------------------

/// Whole minutes from `now_ms` until `arrival_ms`, rounded toward zero.
pub fn minutes_until(arrival_ms: i64, now_ms: i128) -> (m: i64)
    requires
        -0x1_0000_0000_0000_0000 <= now_ms <= 0x1_0000_0000_0000_0000,
    ensures
        m == minutes_between(arrival_ms as int, now_ms as int),
{
    let d: i128 = arrival_ms as i128 - now_ms;
    if d >= 0 {
        assert(d / 60000 <= 0x1_0000_0000_0000_0000);
        (d / 60000) as i64
    } else {
        let e: i128 = -d;
        assert(e / 60000 <= 0x1_0000_0000_0000_0000);
        -((e / 60000) as i64)
    }
}

/// `s` with minutes recomputed against `now_ms` when there is one.
pub open spec fn maybe_retimed(s: Seq<ArrivalView>, now_ms: Option<i128>) -> Seq<ArrivalView> {
    match now_ms {
        Some(n) => retimed(s, n as int),
        None => s,
    }
}

/// Moves the arrivals of `v` into a new vector ordered by arrival time, equal
/// times keeping their order, with minutes recomputed against `now_ms` when
/// it is given.
fn sort_maybe_retimed(v: Vec<Arrival>, now_ms: Option<i128>) -> (out: Vec<Arrival>)
    requires
        now_ms matches Some(n) ==> -0x1_0000_0000_0000_0000 <= n <= 0x1_0000_0000_0000_0000,
    ensures
        is_stable_sort_of(views(out@), maybe_retimed(views(v@), now_ms)),
{
    let ghost all = maybe_retimed(views(v@), now_ms);
    let mut v = v;
    let mut out: Vec<Arrival> = Vec::new();
    assert(all.skip(all.len() as int) =~= Seq::<ArrivalView>::empty());
    assert(is_stable_sort_of(views(out@), all.skip(all.len() as int))) by {
        assert(views(out@) =~= Seq::<ArrivalView>::empty());
    }
    while v.len() > 0
        invariant
            now_ms matches Some(n) ==> -0x1_0000_0000_0000_0000 <= n <= 0x1_0000_0000_0000_0000,
            v.len() <= all.len(),
            maybe_retimed(views(v@), now_ms) == all.take(v.len() as int),
            is_stable_sort_of(views(out@), all.skip(v.len() as int)),
        decreases v.len(),
    {
        let ghost k = v.len() as int;
        let ghost before = v@;
        let mut x = v.pop().unwrap();
        assert(maybe_retimed(views(v@), now_ms) =~= all.take(k - 1)) by {
            assert(v@ =~= before.drop_last());
            assert forall|i: int| 0 <= i < k - 1 implies maybe_retimed(views(v@), now_ms)[i]
                == #[trigger] all.take(k - 1)[i] by {
                assert(maybe_retimed(views(before), now_ms)[i] == all.take(k)[i]);
            }
        }
        assert(maybe_retimed(views(before), now_ms)[k - 1] == all.take(k)[k - 1]);
        if let Some(n) = now_ms {
            x.minutes = minutes_until(x.arrival_time_ms, n);
        }
        assert(x@ == all[k - 1]);
        let mut p: usize = 0;
        while p < out.len() && out[p].arrival_time_ms < x.arrival_time_ms
            invariant
                p <= out.len(),
                forall|i: int| 0 <= i < p ==> #[trigger] views(out@)[i].arrival_time_ms < x.arrival_time_ms,
            decreases out.len() - p,
        {
            p = p + 1;
        }
        let ghost old_out = views(out@);
        out.insert(p, x);
        assert(views(out@) =~= old_out.insert(p as int, x@));
        proof {
            lemma_insert_step(old_out, all.skip(k), x@, p as int);
            assert(seq![x@] + all.skip(k) =~= all.skip(k - 1));
        }
    }
    assert(all.skip(0) =~= all);
    out
}

/// Orders `arrivals` by arrival time, arrivals due at the same time keeping
/// their order.
pub fn sort_by_arrival_time(arrivals: &mut Vec<Arrival>)
    ensures
        views(final(arrivals)@) == sort_by_time(views(old(arrivals)@)),
{
    let mut taken: Vec<Arrival> = Vec::new();
    std::mem::swap(arrivals, &mut taken);
    let sorted = sort_maybe_retimed(taken, None);
    proof {
        let s = views(old(arrivals)@);
        lemma_stable_sort_exists(s);
        lemma_stable_sort_unique(views(sorted@), sort_by_time(s), s);
    }
    *arrivals = sorted;
}

proof fn lemma_dedup_push(s: Seq<ArrivalView>, x: ArrivalView)
    ensures
        dedup_runs(s.push(x)) == (if s.len() > 0 && same_departure(s.last(), x) {
            dedup_runs(s)
        } else {
            dedup_runs(s).push(x)
        }),
{
    let t = s.push(x);
    assert(t.drop_last() =~= s);
    if s.len() == 0 {
        assert(dedup_runs(t) == t);
        assert(t =~= s.push(x));
    } else {
        assert(t[t.len() - 2] == s.last());
    }
}

/// Keeps, in order, the arrivals of `v` in the display window, dropping each
/// one that looks the same as the last one kept.
fn keep_shown_once(v: Vec<Arrival>) -> (out: Vec<Arrival>)
    ensures
        views(out@) == dedup_runs(shown(views(v@))),
{
    let ghost all = views(v@);
    let ghost pred = window_pred();
    let mut v = v;
    let mut out: Vec<Arrival> = Vec::new();
    let n = v.len();
    let mut i: usize = 0;
    assert(all.take(0).filter(pred) =~= Seq::<ArrivalView>::empty());
    assert(views(out@) =~= Seq::<ArrivalView>::empty());
    while i < n
        invariant
            n == all.len(),
            i <= n,
            pred == window_pred(),
            views(v@) == all.skip(i as int),
            views(out@) == dedup_runs(all.take(i as int).filter(pred)),
            all.take(i as int).filter(pred).len() > 0 ==> out@.len() > 0 && same_departure(
                out@.last()@,
                all.take(i as int).filter(pred).last(),
            ),
        decreases n - i,
    {
        let ghost before = v@;
        assert(views(v@).len() == v@.len());
        assert(all.skip(i as int).len() == n - i);
        let x = v.remove(0);
        assert(x@ == all[i as int]) by {
            assert(views(before)[0] == all.skip(i as int)[0]);
        }
        assert(views(v@) =~= all.skip(i + 1)) by {
            assert forall|j: int| 0 <= j < views(v@).len() implies views(v@)[j]
                == #[trigger] all.skip(i + 1)[j] by {
                assert(views(before)[j + 1] == all.skip(i as int)[j + 1]);
            }
        }
        let ghost prefix = all.take(i as int);
        let ghost next = all.take(i + 1);
        assert(next.drop_last() =~= prefix);
        assert(next.last() == x@);
        assert(pred(x@) == in_window(x@));
        proof {
            lemma_filter_unfold(next, pred);
        }
        if EARLIEST_SHOWN_MINUTES <= x.minutes && x.minutes <= LATEST_SHOWN_MINUTES {
            assert(next.filter(pred) == prefix.filter(pred).push(x@));
            proof {
                lemma_dedup_push(prefix.filter(pred), x@);
            }
            let repeat = out.len() > 0 && {
                let last = &out[out.len() - 1];
                last.minutes == x.minutes && last.route_id == x.route_id && last.destination
                    == x.destination
            };
            if repeat {
                assert(same_departure(out@.last()@, x@));
            } else {
                let ghost old_out = views(out@);
                out.push(x);
                assert(views(out@) =~= old_out.push(x@));
            }
        } else {
            assert(next.filter(pred) == prefix.filter(pred));
        }
        i = i + 1;
    }
    assert(all.take(n as int) =~= all);
    out
}

/// Recomputes `minutes` of every arrival for the clock reading `local_ms`
/// corrected by `clock_offset_ms` (server time minus local time), then orders
/// the arrivals by arrival time, keeps those from one minute ago to 45
/// minutes ahead, and drops each that repeats the wait, route and destination
/// of the one before it.
pub fn recalculate_and_filter_at(arrivals: &mut Vec<Arrival>, local_ms: i64, clock_offset_ms: i64)
    ensures
        views(final(arrivals)@) == board_listing(
            views(old(arrivals)@),
            local_ms + clock_offset_ms,
        ),
{
    let now_ms: i128 = local_ms as i128 + clock_offset_ms as i128;
    let mut taken: Vec<Arrival> = Vec::new();
    std::mem::swap(arrivals, &mut taken);
    let sorted = sort_maybe_retimed(taken, Some(now_ms));
    proof {
        let r = retimed(views(old(arrivals)@), now_ms as int);
        lemma_stable_sort_exists(r);
        lemma_stable_sort_unique(views(sorted@), sort_by_time(r), r);
    }
    let shown_once = keep_shown_once(sorted);
    *arrivals = shown_once;
}


/// Recalculate `minutes` using local time + clock offset, then sort, filter,
/// and dedup. `clock_offset_ms` is server_time - local_time, learned from the
/// API's `currentTime` field to correct for drift on devices without NTP.
///
/// The arrivals become the listing of `recalculate_and_filter_at` for the
/// local clock's reading at the call, in milliseconds since the Unix epoch; a
/// clock reading before the epoch is taken as the epoch itself (0).
pub fn recalculate_and_filter(arrivals: &mut Vec<Arrival>, clock_offset_ms: i64)
    ensures
        exists|local_ms: i64|
            views(final(arrivals)@) == #[trigger] board_listing(
                views(old(arrivals)@),
                local_ms + clock_offset_ms,
            ),
{
    let local_ms: i64 = match crate::clock::local_time_ms() {
        Some(ms) => ms,
        None => 0,
    };
    recalculate_and_filter_at(arrivals, local_ms, clock_offset_ms);
}

} // verus!
