//! The cache of order-book snapshots: for each side, timestamp to ladder,
//! updated by deltas and trimmed to a retention window.

use vstd::prelude::*;

use rbtree::RBTree;

use crate::ladder::{apply_deltas, levels_from, total_quantity, Order, PriceLadder};
use crate::timestamp::{parse_rfc3339_seconds, rfc3339_seconds};
use crate::tree::{
    snapshots_first_key, snapshots_get, snapshots_keys, snapshots_last_key, snapshots_new,
    snapshots_of, snapshots_pop_first, snapshots_upsert,
};

verus! {

/// An order-book update for one instrument: the time it was taken at, as
/// RFC 3339 text, and the bid and ask levels it carries.
pub struct Booked {
    pub symbol: String,
    pub timestamp: String,
    pub bids: Vec<Order>,
    pub asks: Vec<Order>,
}

/// Why an update was not taken as a whole.
#[derive(Clone, Copy, Debug, PartialEq, Eq, Structural)]
pub enum HistoryError {
    /// The update's timestamp is not RFC 3339; nothing was changed.
    InvalidTimestamp,
    /// The update evicted a snapshot of the asks but none of the bids.
    AsksOnlyEvicted,
    /// The update evicted a snapshot of the bids but none of the asks.
    BidsOnlyEvicted,
}

/// `t` is the largest timestamp of `s`.
pub open spec fn is_max(s: Set<i64>, t: i64) -> bool {
    s.contains(t) && forall|k: i64| #[trigger] s.contains(k) ==> k <= t
}

/// `t` is the smallest timestamp of `s`.
pub open spec fn is_min(s: Set<i64>, t: i64) -> bool {
    s.contains(t) && forall|k: i64| #[trigger] s.contains(k) ==> t <= k
}

/// The newest timestamp of a side that has one.
pub open spec fn latest_time(h: Map<i64, Map<i64, u64>>) -> i64 {
    choose|t: i64| is_max(h.dom(), t)
}

/// The oldest timestamp of a side that has one.
pub open spec fn oldest_time(h: Map<i64, Map<i64, u64>>) -> i64 {
    choose|t: i64| is_min(h.dom(), t)
}

/// A side once an update's levels are stored under `t`: the payload as it
/// is on an empty side, else the newest ladder with the deltas applied. A
/// snapshot already at `t` is replaced.
pub open spec fn with_update(h: Map<i64, Map<i64, u64>>, t: i64, orders: Seq<Order>) -> Map<
    i64,
    Map<i64, u64>,
> {
    if h.dom() == Set::<i64>::empty() {
        h.insert(t, levels_from(orders))
    } else {
        h.insert(t, apply_deltas(h[latest_time(h)], orders))
    }
}

/// The span from the oldest to the newest timestamp exceeds the window.
pub open spec fn overflows(h: Map<i64, Map<i64, u64>>, window: int) -> bool {
    h.dom() != Set::<i64>::empty() && latest_time(h) - oldest_time(h) > window
}

/// A side after the eviction that an overflow calls for: the oldest
/// snapshot goes, and no other.
pub open spec fn after_eviction(h: Map<i64, Map<i64, u64>>, window: int) -> Map<
    i64,
    Map<i64, u64>,
> {
    if overflows(h, window) {
        h.remove(oldest_time(h))
    } else {
        h
    }
}

/// The part of a side whose timestamps lie in `[start, end]`.
pub open spec fn in_window(h: Map<i64, Map<i64, u64>>, start: i64, end: i64) -> Map<
    i64,
    Map<i64, u64>,
> {
    h.restrict(h.dom().filter(|t: i64| start <= t <= end))
}

/// The newest snapshot of a side, or timestamp 0 and no levels for an empty
/// side.
pub open spec fn latest_or_empty(h: Map<i64, Map<i64, u64>>) -> (i64, Map<i64, u64>) {
    if h.dom() == Set::<i64>::empty() {
        (0, Map::empty())
    } else {
        (latest_time(h), h[latest_time(h)])
    }
}

/// The timestamps of a list of totals.
pub open spec fn times_of(s: Seq<(i64, u128)>) -> Seq<i64> {
    s.map_values(|e: (i64, u128)| e.0)
}

/// `s` lists, in ascending order of time, each snapshot of `h` taken in
/// `[start, end]` with the total of its quantities.
pub open spec fn integrates(h: Map<i64, Map<i64, u64>>, start: i64, end: i64, s: Seq<(i64, u128)>) -> bool {
    &&& times_of(s).to_set() == in_window(h, start, end).dom()
    &&& forall|i: int, j: int| 0 <= i < j < s.len() ==> s[i].0 < s[j].0
    &&& forall|i: int| 0 <= i < s.len() ==> #[trigger] s[i].1 == total_quantity(h[s[i].0])
}

/// `s` lists the timestamps of `h` in ascending order.
pub open spec fn lists_times(h: Map<i64, Map<i64, u64>>, s: Seq<i64>) -> bool {
    &&& s.to_set() == h.dom()
    &&& forall|i: int, j: int| 0 <= i < j < s.len() ==> s[i] < s[j]
}

/// The newest timestamp is the only one that is newest.
pub proof fn lemma_latest_time(h: Map<i64, Map<i64, u64>>, t: i64)
    requires
        h.contains_key(t),
        forall|k: i64| #[trigger] h.contains_key(k) ==> k <= t,
    ensures
        latest_time(h) == t,
{
    assert(is_max(h.dom(), t));
    let c = latest_time(h);
    assert(is_max(h.dom(), c));
    assert(c <= t && t <= c);
}

/// The oldest timestamp is the only one that is oldest.
pub proof fn lemma_oldest_time(h: Map<i64, Map<i64, u64>>, t: i64)
    requires
        h.contains_key(t),
        forall|k: i64| #[trigger] h.contains_key(k) ==> t <= k,
    ensures
        oldest_time(h) == t,
{
    assert(is_min(h.dom(), t));
    let c = oldest_time(h);
    assert(is_min(h.dom(), c));
    assert(c <= t && t <= c);
}

/// Stores an update's levels in one side under `time`, then evicts the
/// oldest snapshot if the span now exceeds the window.
fn update_side(side: &mut RBTree<i64, PriceLadder>, window: usize, time: i64, orders: &Vec<Order>) -> (r: Option<(i64, PriceLadder)>)
    ensures
        snapshots_of(*final(side)) == after_eviction(with_update(snapshots_of(*old(side)), time, orders@), window as int),
        r is Some <==> overflows(with_update(snapshots_of(*old(side)), time, orders@), window as int),
        r matches Some((t, l)) ==> t == oldest_time(with_update(snapshots_of(*old(side)), time, orders@))
            && is_min(with_update(snapshots_of(*old(side)), time, orders@).dom(), t)
            && l@ == with_update(snapshots_of(*old(side)), time, orders@)[t],
{
    let ghost h0 = snapshots_of(*side);
    let ghost h1 = with_update(h0, time, orders@);
    match snapshots_last_key(side) {
        None => {
            snapshots_upsert(side, time, PriceLadder::from_orders(orders));
        },
        Some(last) => {
            proof {
                lemma_latest_time(h0, last);
            }
            let latest = match snapshots_get(side, last) {
                Some(l) => l.duplicate(),
                None => PriceLadder::new(),
            };
            let mut latest = latest;
            latest.apply_deltas(orders);
            snapshots_upsert(side, time, latest);
        },
    }
    assert(snapshots_of(*side) == h1);
    let first = snapshots_first_key(side);
    let newest = snapshots_last_key(side);
    match (first, newest) {
        (Some(f), Some(n)) => {
            proof {
                lemma_oldest_time(h1, f);
                lemma_latest_time(h1, n);
            }
            if (n as i128) - (f as i128) > window as i128 {
                snapshots_pop_first(side)
            } else {
                None
            }
        },
        _ => None,
    }
}

/// The timestamps of one side, ascending.
fn side_times(side: &RBTree<i64, PriceLadder>) -> (r: Vec<i64>)
    ensures
        lists_times(snapshots_of(*side), r@),
{
    let r = snapshots_keys(side);
    proof {
        lemma_ascending(r@);
    }
    r
}

/// Adjacent timestamps that ascend make every pair ascend.
proof fn lemma_ascending(s: Seq<i64>)
    requires
        forall|j: int| 0 < j < s.len() ==> #[trigger] s[j] > s[j - 1],
    ensures
        forall|i: int, j: int| 0 <= i < j < s.len() ==> s[i] < s[j],
    decreases s.len(),
{
    if s.len() > 0 {
        let t = s.drop_last();
        assert forall|j: int| 0 < j < t.len() implies #[trigger] t[j] > t[j - 1] by {
            assert(t[j] == s[j] && t[j - 1] == s[j - 1]);
        }
        lemma_ascending(t);
        assert forall|i: int, j: int| 0 <= i < j < s.len() implies s[i] < s[j] by {
            if j < s.len() - 1 {
                assert(t[i] == s[i] && t[j] == s[j]);
            } else if i < j - 1 {
                assert(t[i] == s[i] && t[j - 1] == s[j - 1]);
            }
        }
    }
}

/// A timestamp of the list stands at some index.
proof fn lemma_time_index(s: Seq<i64>, t: i64)
    requires
        s.to_set().contains(t),
    ensures
        exists|k: int| 0 <= k < s.len() && #[trigger] s[k] == t,
{
    assert(s.contains(t));
}

/// The snapshots of one side in `[start, end]`, each totalled.
fn integrate_side(side: &RBTree<i64, PriceLadder>, start: i64, end: i64) -> (r: Vec<(i64, u128)>)
    ensures
        integrates(snapshots_of(*side), start, end, r@),
{
    let ghost h = snapshots_of(*side);
    let times = side_times(side);
    let mut r: Vec<(i64, u128)> = Vec::new();
    let mut i: usize = 0;
    while i < times.len()
        invariant
            i <= times@.len(),
            lists_times(h, times@),
            h == snapshots_of(*side),
            forall|k: int| 0 <= k < r@.len() ==> #[trigger] r@[k].1 == total_quantity(h[r@[k].0]),
            forall|a: int, b: int| 0 <= a < b < r@.len() ==> r@[a].0 < r@[b].0,
            forall|k: int| #![trigger r@[k]] 0 <= k < r@.len() ==> exists|m: int| 0 <= m < i && #[trigger] times@[m] == r@[k].0,
            forall|t: i64|
                #[trigger] times_of(r@).to_set().contains(t) <==> (start <= t <= end
                    && exists|m: int| 0 <= m < i && #[trigger] times@[m] == t),
        decreases times@.len() - i,
    {
        let t = times[i];
        assert(h.contains_key(t)) by {
            assert(times@.to_set().contains(t));
        }
        if start <= t && t <= end {
            let total = match snapshots_get(side, t) {
                Some(l) => l.total(),
                None => 0,
            };
            let ghost before = r@;
            r.push((t, total));
            proof {
                assert forall|k: int| #![trigger r@[k]] 0 <= k < r@.len() implies exists|m: int| 0 <= m < i + 1 && #[trigger] times@[m] == r@[k].0 by {
                    if k < before.len() {
                        assert(r@[k] == before[k]);
                    } else {
                        assert(times@[i as int] == r@[k].0);
                    }
                }
                assert forall|a: int, b: int| 0 <= a < b < r@.len() implies r@[a].0 < r@[b].0 by {
                    if b == before.len() {
                        assert(r@[a] == before[a]);
                        let m = choose|m: int| 0 <= m < i && #[trigger] times@[m] == before[a].0;
                        assert(times@[m] < times@[i as int]);
                    } else {
                        assert(r@[a] == before[a] && r@[b] == before[b]);
                    }
                }
                assert forall|t2: i64|
                    #[trigger] times_of(r@).to_set().contains(t2) <==> (start <= t2 <= end
                        && exists|m: int| 0 <= m < i + 1 && #[trigger] times@[m] == t2) by {
                    let ks = times_of(r@);
                    let kb = times_of(before);
                    assert(ks =~= kb.push(t));
                    if ks.to_set().contains(t2) {
                        let k = choose|k: int| 0 <= k < ks.len() && ks[k] == t2;
                        if k < kb.len() {
                            assert(kb[k] == t2);
                            assert(kb.to_set().contains(t2));
                        }
                    }
                    if start <= t2 <= end && exists|m: int| 0 <= m < i + 1 && #[trigger] times@[m] == t2 {
                        let m = choose|m: int| 0 <= m < i + 1 && #[trigger] times@[m] == t2;
                        if m < i {
                            assert(kb.to_set().contains(t2));
                            let k = choose|k: int| 0 <= k < kb.len() && kb[k] == t2;
                            assert(ks[k] == t2);
                        } else {
                            assert(ks[ks.len() - 1] == t2);
                        }
                    }
                }
            }
        } else {
            proof {
                assert forall|t2: i64|
                    #[trigger] times_of(r@).to_set().contains(t2) <==> (start <= t2 <= end
                        && exists|m: int| 0 <= m < i + 1 && #[trigger] times@[m] == t2) by {
                    if start <= t2 <= end && exists|m: int| 0 <= m < i + 1 && #[trigger] times@[m] == t2 {
                        let m = choose|m: int| 0 <= m < i + 1 && #[trigger] times@[m] == t2;
                        assert(m < i);
                    }
                }
            }
        }
        i = i + 1;
    }
    proof {
        let ks = times_of(r@);
        assert forall|t: i64| #[trigger] ks.to_set().contains(t) <==> in_window(h, start, end).dom().contains(t) by {
            if h.contains_key(t) {
                lemma_time_index(times@, t);
            }
            if exists|m: int| 0 <= m < i && #[trigger] times@[m] == t {
                let m = choose|m: int| 0 <= m < i && #[trigger] times@[m] == t;
                assert(times@.to_set().contains(times@[m]));
            }
        }
        assert(ks.to_set() =~= in_window(h, start, end).dom());
    }
    r
}

/// An independent copy of the snapshots of one side in `[start, end]`.
fn extract_side(side: &RBTree<i64, PriceLadder>, start: i64, end: i64) -> (r: RBTree<i64, PriceLadder>)
    ensures
        snapshots_of(r) == in_window(snapshots_of(*side), start, end),
{
    let ghost h = snapshots_of(*side);
    let times = side_times(side);
    let mut r = snapshots_new();
    let mut i: usize = 0;
    while i < times.len()
        invariant
            i <= times@.len(),
            lists_times(h, times@),
            h == snapshots_of(*side),
            forall|t: i64| #[trigger] snapshots_of(r).contains_key(t) <==> (start <= t <= end
                && exists|m: int| 0 <= m < i && #[trigger] times@[m] == t),
            forall|t: i64| #[trigger] snapshots_of(r).contains_key(t) ==> snapshots_of(r)[t] == h[t],
        decreases times@.len() - i,
    {
        let t = times[i];
        assert(h.contains_key(t)) by {
            assert(times@.to_set().contains(t));
        }
        if start <= t && t <= end {
            match snapshots_get(side, t) {
                Some(l) => {
                    snapshots_upsert(&mut r, t, l.duplicate());
                },
                None => {},
            }
        }
        proof {
            assert forall|t2: i64| #[trigger] snapshots_of(r).contains_key(t2) <==> (start <= t2 <= end
                && exists|m: int| 0 <= m < i + 1 && #[trigger] times@[m] == t2) by {
                if start <= t2 <= end && exists|m: int| 0 <= m < i + 1 && #[trigger] times@[m] == t2 {
                    let m = choose|m: int| 0 <= m < i + 1 && #[trigger] times@[m] == t2;
                    if m == i {
                        assert(t2 == t);
                    }
                }
            }
        }
        i = i + 1;
    }
    proof {
        assert forall|t: i64| #[trigger] snapshots_of(r).contains_key(t) <==> in_window(h, start, end).contains_key(t) by {
            if h.contains_key(t) {
                lemma_time_index(times@, t);
            }
            if exists|m: int| 0 <= m < i && #[trigger] times@[m] == t {
                let m = choose|m: int| 0 <= m < i && #[trigger] times@[m] == t;
                assert(times@.to_set().contains(times@[m]));
            }
        }
        assert(snapshots_of(r) =~= in_window(h, start, end));
    }
    r
}

/// Two sides that hold snapshots at the same timestamps and take an update
/// at the same time overflow together, evict the same timestamp, and still
/// hold the same timestamps afterwards: eviction is symmetric.
pub proof fn lemma_eviction_in_lockstep(
    asks: Map<i64, Map<i64, u64>>,
    bids: Map<i64, Map<i64, u64>>,
    time: i64,
    ask_orders: Seq<Order>,
    bid_orders: Seq<Order>,
    window: int,
)
    requires
        asks.dom() == bids.dom(),
    ensures
        overflows(with_update(asks, time, ask_orders), window) == overflows(
            with_update(bids, time, bid_orders),
            window,
        ),
        oldest_time(with_update(asks, time, ask_orders)) == oldest_time(
            with_update(bids, time, bid_orders),
        ),
        after_eviction(with_update(asks, time, ask_orders), window).dom() == after_eviction(
            with_update(bids, time, bid_orders),
            window,
        ).dom(),
{
    let a1 = with_update(asks, time, ask_orders);
    let b1 = with_update(bids, time, bid_orders);
    assert(a1.dom() =~= b1.dom());
    assert(after_eviction(a1, window).dom() =~= after_eviction(b1, window).dom());
}

/// The smaller of two integers.
pub open spec fn min_int(a: int, b: int) -> int {
    if a <= b { a } else { b }
}

/// The bids and asks of one instrument over a retention window, each side a
/// series of ladders keyed by whole seconds since the epoch.
pub struct BookHistory {
    window_seconds: usize,
    asks: RBTree<i64, PriceLadder>,
    bids: RBTree<i64, PriceLadder>,
}

/// An update at `time` with `asks` and `bids` took `before` to `after` and
/// returned `r`: each side stored its levels and evicted its oldest snapshot
/// (the smallest timestamp left, and only that one) if its span overflowed;
/// the evicted snapshots come back when both sides evicted, and an error
/// names the side that evicted alone.
pub open spec fn update_done(
    before: BookHistory,
    after: BookHistory,
    time: i64,
    asks: Seq<Order>,
    bids: Seq<Order>,
    r: Result<Option<((i64, PriceLadder), (i64, PriceLadder))>, HistoryError>,
) -> bool {
    let a1 = with_update(before.ask_history(), time, asks);
    let b1 = with_update(before.bid_history(), time, bids);
    let w = before.window() as int;
    &&& after.window() == before.window()
    &&& after.ask_history() == after_eviction(a1, w)
    &&& after.bid_history() == after_eviction(b1, w)
    &&& match r {
        Ok(Some((ea, eb))) => overflows(a1, w) && overflows(b1, w) && ea.0 == oldest_time(a1)
            && is_min(a1.dom(), ea.0) && ea.1@ == a1[ea.0] && eb.0 == oldest_time(b1) && is_min(
            b1.dom(),
            eb.0,
        ) && eb.1@ == b1[eb.0],
        Ok(None) => !overflows(a1, w) && !overflows(b1, w),
        Err(e) => (e == HistoryError::AsksOnlyEvicted && overflows(a1, w) && !overflows(b1, w)) || (
        e == HistoryError::BidsOnlyEvicted && !overflows(a1, w) && overflows(b1, w)),
    }
}

/// A history whose sides hold snapshots at the same timestamps takes an
/// update without error (either both sides evict or neither does) and
/// still holds the same timestamps on both sides afterwards.
pub proof fn lemma_update_in_lockstep(
    before: BookHistory,
    after: BookHistory,
    time: i64,
    asks: Seq<Order>,
    bids: Seq<Order>,
    r: Result<Option<((i64, PriceLadder), (i64, PriceLadder))>, HistoryError>,
)
    requires
        before.ask_history().dom() == before.bid_history().dom(),
        update_done(before, after, time, asks, bids, r),
    ensures
        r is Ok,
        after.ask_history().dom() == after.bid_history().dom(),
{
    lemma_eviction_in_lockstep(
        before.ask_history(),
        before.bid_history(),
        time,
        asks,
        bids,
        before.window() as int,
    );
}

impl BookHistory {
    /// The ask snapshots: timestamp to ladder.
    pub closed spec fn ask_history(&self) -> Map<i64, Map<i64, u64>> {
        snapshots_of(self.asks)
    }

    /// The bid snapshots: timestamp to ladder.
    pub closed spec fn bid_history(&self) -> Map<i64, Map<i64, u64>> {
        snapshots_of(self.bids)
    }

    /// The span of time, in seconds, that the history keeps.
    pub closed spec fn window(&self) -> usize {
        self.window_seconds
    }

    /// The span of time, in seconds, that the history keeps.
    pub fn time_window_in_seconds(&self) -> (r: usize)
        ensures
            r == self.window(),
    {
        self.window_seconds
    }

    /// An empty history that keeps `time_window_in_seconds` of span.
    pub fn new(time_window_in_seconds: usize) -> (r: BookHistory)
        ensures
            r.window() == time_window_in_seconds,
            r.ask_history().dom() == Set::<i64>::empty(),
            r.bid_history().dom() == Set::<i64>::empty(),
    {
        BookHistory { window_seconds: time_window_in_seconds, asks: snapshots_new(), bids: snapshots_new() }
    }

    /// Takes an update whose time is already known, in whole seconds since
    /// the epoch: each side stores it under `time` (the payload itself on an
    /// empty side, else its newest ladder with the deltas applied), then
    /// evicts its oldest snapshot if its span exceeds the window.
    pub fn update_at(&mut self, time: i64, booked: &Booked) -> (r: Result<
        Option<((i64, PriceLadder), (i64, PriceLadder))>,
        HistoryError,
    >)
        ensures
            update_done(*old(self), *final(self), time, booked.asks@, booked.bids@, r),
    {
        let w = self.window_seconds;
        let evicted_asks = update_side(&mut self.asks, w, time, &booked.asks);
        let evicted_bids = update_side(&mut self.bids, w, time, &booked.bids);
        match (evicted_asks, evicted_bids) {
            (Some(a), Some(b)) => Ok(Some((a, b))),
            (Some(_), None) => Err(HistoryError::AsksOnlyEvicted),
            (None, Some(_)) => Err(HistoryError::BidsOnlyEvicted),
            (None, None) => Ok(None),
        }
    }

    /// Takes an update: its RFC 3339 timestamp is read as whole seconds
    /// since the epoch and the update is stored as `update_at` does. An
    /// unreadable timestamp changes nothing.
    pub fn update(&mut self, booked: Booked) -> (r: Result<
        Option<((i64, PriceLadder), (i64, PriceLadder))>,
        HistoryError,
    >)
        ensures
            rfc3339_seconds(booked.timestamp@) is None ==> r == Err::<
                Option<((i64, PriceLadder), (i64, PriceLadder))>,
                HistoryError,
            >(HistoryError::InvalidTimestamp) && final(self).ask_history() == old(self).ask_history()
                && final(self).bid_history() == old(self).bid_history()
                && final(self).window() == old(self).window(),
            rfc3339_seconds(booked.timestamp@) matches Some(t) ==> update_done(
                *old(self),
                *final(self),
                t,
                booked.asks@,
                booked.bids@,
                r,
            ),
    {
        match parse_rfc3339_seconds(booked.timestamp.as_str()) {
            Ok(t) => self.update_at(t, &booked),
            Err(_) => Err(HistoryError::InvalidTimestamp),
        }
    }

    /// The newest snapshot of each side, asks first; an empty side gives
    /// timestamp 0 and an empty ladder.
    pub fn get_latest_book(&self) -> (r: ((i64, PriceLadder), (i64, PriceLadder)))
        ensures
            (r.0.0, r.0.1@) == latest_or_empty(self.ask_history()),
            (r.1.0, r.1.1@) == latest_or_empty(self.bid_history()),
    {
        (latest_of(&self.asks), latest_of(&self.bids))
    }

    /// For each side, asks first, the total quantity of every snapshot taken
    /// in `[start, end]`, in ascending order of time.
    pub fn integrate_window(&self, start: i64, end: i64) -> (r: (Vec<(i64, u128)>, Vec<(i64, u128)>))
        ensures
            integrates(self.ask_history(), start, end, r.0@),
            integrates(self.bid_history(), start, end, r.1@),
    {
        (integrate_side(&self.asks, start, end), integrate_side(&self.bids, start, end))
    }

    /// An independent copy holding the snapshots taken in `[start, end]`,
    /// whose own window is the width of that range (at most `usize::MAX`).
    pub fn extract_window(&self, start: i64, end: i64) -> (r: BookHistory)
        ensures
            r.window() == min_int(
                if end >= start { end - start } else { start - end },
                usize::MAX as int,
            ),
            r.ask_history() == in_window(self.ask_history(), start, end),
            r.bid_history() == in_window(self.bid_history(), start, end),
    {
        let width: i128 = if end >= start {
            end as i128 - start as i128
        } else {
            start as i128 - end as i128
        };
        BookHistory {
            window_seconds: if width > usize::MAX as i128 {
                usize::MAX
            } else {
                width as usize
            },
            asks: extract_side(&self.asks, start, end),
            bids: extract_side(&self.bids, start, end),
        }
    }

    /// The lowest bid price over every retained snapshot, if any bid level
    /// is held.
    pub fn lowest_bid(&self) -> (r: Option<i64>)
        ensures
            r matches Some(p) ==> is_lowest_price(self.bid_history(), p),
            r is None ==> has_no_levels(self.bid_history()),
    {
        lowest_price_of(&self.bids)
    }

    /// The highest ask price over every retained snapshot, if any ask level
    /// is held.
    pub fn highest_ask(&self) -> (r: Option<i64>)
        ensures
            r matches Some(p) ==> is_highest_price(self.ask_history(), p),
            r is None ==> has_no_levels(self.ask_history()),
    {
        highest_price_of(&self.asks)
    }

    /// The timestamps of the ask snapshots, ascending.
    pub fn ask_times(&self) -> (r: Vec<i64>)
        ensures
            lists_times(self.ask_history(), r@),
    {
        side_times(&self.asks)
    }

    /// The timestamps of the bid snapshots, ascending.
    pub fn bid_times(&self) -> (r: Vec<i64>)
        ensures
            lists_times(self.bid_history(), r@),
    {
        side_times(&self.bids)
    }

    /// A copy of the ask ladder taken at `time`, if there is one.
    pub fn ask_snapshot(&self, time: i64) -> (r: Option<PriceLadder>)
        ensures
            r is Some <==> self.ask_history().contains_key(time),
            r matches Some(l) ==> l@ == self.ask_history()[time],
    {
        match snapshots_get(&self.asks, time) {
            Some(l) => Some(l.duplicate()),
            None => None,
        }
    }

    /// A copy of the bid ladder taken at `time`, if there is one.
    pub fn bid_snapshot(&self, time: i64) -> (r: Option<PriceLadder>)
        ensures
            r is Some <==> self.bid_history().contains_key(time),
            r matches Some(l) ==> l@ == self.bid_history()[time],
    {
        match snapshots_get(&self.bids, time) {
            Some(l) => Some(l.duplicate()),
            None => None,
        }
    }
}

/// `p` is a price of some snapshot of `h`, and no snapshot has a lower one.
pub open spec fn is_lowest_price(h: Map<i64, Map<i64, u64>>, p: i64) -> bool {
    &&& exists|t: i64| h.contains_key(t) && #[trigger] h[t].contains_key(p)
    &&& forall|t: i64, q: i64| h.contains_key(t) && #[trigger] h[t].contains_key(q) ==> p <= q
}

/// `p` is a price of some snapshot of `h`, and no snapshot has a higher one.
pub open spec fn is_highest_price(h: Map<i64, Map<i64, u64>>, p: i64) -> bool {
    &&& exists|t: i64| h.contains_key(t) && #[trigger] h[t].contains_key(p)
    &&& forall|t: i64, q: i64| h.contains_key(t) && #[trigger] h[t].contains_key(q) ==> q <= p
}

/// No snapshot of `h` holds a price level.
pub open spec fn has_no_levels(h: Map<i64, Map<i64, u64>>) -> bool {
    forall|t: i64, q: i64| h.contains_key(t) ==> !#[trigger] h[t].contains_key(q)
}

/// The lowest price over every snapshot of one side, if any has a level.
fn lowest_price_of(side: &RBTree<i64, PriceLadder>) -> (r: Option<i64>)
    ensures
        r matches Some(p) ==> is_lowest_price(snapshots_of(*side), p),
        r is None ==> has_no_levels(snapshots_of(*side)),
{
    let ghost h = snapshots_of(*side);
    let times = side_times(side);
    let mut best: Option<i64> = None;
    let mut i: usize = 0;
    while i < times.len()
        invariant
            i <= times@.len(),
            lists_times(h, times@),
            h == snapshots_of(*side),
            best matches Some(p) ==> exists|t: i64| h.contains_key(t) && #[trigger] h[t].contains_key(p),
            best matches Some(p) ==> forall|m: int, q: i64|
                0 <= m < i && #[trigger] h[times@[m]].contains_key(q) ==> p <= q,
            best is None ==> forall|m: int, q: i64| 0 <= m < i ==> !#[trigger] h[times@[m]].contains_key(q),
        decreases times@.len() - i,
    {
        let t = times[i];
        assert(h.contains_key(t)) by {
            assert(times@.to_set().contains(t));
        }
        match snapshots_get(side, t) {
            Some(l) => match l.lowest() {
                Some((p, _)) => {
                    assert(h[t].contains_key(p));
                    let ghost prev = best;
                    best = match best {
                        Some(b) => if p < b { Some(p) } else { Some(b) },
                        None => Some(p),
                    };
                    proof {
                        if best != Some(p) {
                            assert(best == prev);
                        }
                        let b = best->Some_0;
                        assert(exists|t2: i64| h.contains_key(t2) && #[trigger] h[t2].contains_key(b));
                    }
                },
                None => {
                    assert(forall|q: i64| !h[t].contains_key(q));
                },
            },
            None => {},
        }
        i = i + 1;
    }
    proof {
        assert forall|t: i64, q: i64| h.contains_key(t) && #[trigger] h[t].contains_key(q) implies
            (best matches Some(p) ==> p <= q) && best is Some by {
            lemma_time_index(times@, t);
            let m = choose|m: int| 0 <= m < times@.len() && #[trigger] times@[m] == t;
            assert(h[times@[m]].contains_key(q));
        }
    }
    best
}

/// The highest price over every snapshot of one side, if any has a level.
fn highest_price_of(side: &RBTree<i64, PriceLadder>) -> (r: Option<i64>)
    ensures
        r matches Some(p) ==> is_highest_price(snapshots_of(*side), p),
        r is None ==> has_no_levels(snapshots_of(*side)),
{
    let ghost h = snapshots_of(*side);
    let times = side_times(side);
    let mut best: Option<i64> = None;
    let mut i: usize = 0;
    while i < times.len()
        invariant
            i <= times@.len(),
            lists_times(h, times@),
            h == snapshots_of(*side),
            best matches Some(p) ==> exists|t: i64| h.contains_key(t) && #[trigger] h[t].contains_key(p),
            best matches Some(p) ==> forall|m: int, q: i64|
                0 <= m < i && #[trigger] h[times@[m]].contains_key(q) ==> q <= p,
            best is None ==> forall|m: int, q: i64| 0 <= m < i ==> !#[trigger] h[times@[m]].contains_key(q),
        decreases times@.len() - i,
    {
        let t = times[i];
        assert(h.contains_key(t)) by {
            assert(times@.to_set().contains(t));
        }
        match snapshots_get(side, t) {
            Some(l) => match l.highest() {
                Some((p, _)) => {
                    assert(h[t].contains_key(p));
                    let ghost prev = best;
                    best = match best {
                        Some(b) => if p > b { Some(p) } else { Some(b) },
                        None => Some(p),
                    };
                    proof {
                        if best != Some(p) {
                            assert(best == prev);
                        }
                        let b = best->Some_0;
                        assert(exists|t2: i64| h.contains_key(t2) && #[trigger] h[t2].contains_key(b));
                    }
                },
                None => {
                    assert(forall|q: i64| !h[t].contains_key(q));
                },
            },
            None => {},
        }
        i = i + 1;
    }
    proof {
        assert forall|t: i64, q: i64| h.contains_key(t) && #[trigger] h[t].contains_key(q) implies
            (best matches Some(p) ==> q <= p) && best is Some by {
            lemma_time_index(times@, t);
            let m = choose|m: int| 0 <= m < times@.len() && #[trigger] times@[m] == t;
            assert(h[times@[m]].contains_key(q));
        }
    }
    best
}

/// The newest snapshot of one side, or timestamp 0 and an empty ladder.
fn latest_of(side: &RBTree<i64, PriceLadder>) -> (r: (i64, PriceLadder))
    ensures
        (r.0, r.1@) == latest_or_empty(snapshots_of(*side)),
{
    match snapshots_last_key(side) {
        Some(t) => {
            proof {
                lemma_latest_time(snapshots_of(*side), t);
            }
            match snapshots_get(side, t) {
                Some(l) => (t, l.duplicate()),
                None => (0, PriceLadder::new()),
            }
        },
        None => {
            let l = PriceLadder::new();
            assert(l@ =~= Map::<i64, u64>::empty());
            (0, l)
        },
    }
}

} // verus!
