//! The render grid: the time and price ranges that the plots cover, and how
//! many cells each axis is cut into.

use vstd::prelude::*;

use crate::history::{
    is_highest_price, is_lowest_price, latest_time, lemma_latest_time, BookHistory,
};
use crate::timestamp::now_seconds;

verus! {

/// The axes that one render cycle draws on: a time range in whole seconds
/// and a price range in ticks, each with its number of cells.
#[derive(Clone, Copy, Debug, PartialEq, Eq)]
pub struct RenderGrid {
    pub number_time_values: usize,
    pub time_range: (i64, i64),
    pub number_price_values: usize,
    pub price_range: (i64, i64),
}

/// Derives a render grid from a history: the visual window ends at the
/// newest snapshot, and the price range runs from the lowest bid to the
/// highest ask.
pub struct GenerateGrid {
    pub time_window_in_seconds: u64,
    pub number_time_values: usize,
    pub number_price_values: usize,
}

/// The newest timestamp over both sides, or `now` when both are empty.
pub open spec fn newest_of(history: BookHistory, now: i64) -> i64 {
    let a = history.ask_history();
    let b = history.bid_history();
    if a.dom() == Set::<i64>::empty() && b.dom() == Set::<i64>::empty() {
        now
    } else if a.dom() == Set::<i64>::empty() {
        latest_time(b)
    } else if b.dom() == Set::<i64>::empty() {
        latest_time(a)
    } else if latest_time(a) >= latest_time(b) {
        latest_time(a)
    } else {
        latest_time(b)
    }
}

/// The lowest bid price of the history, or 0 when it holds no bid level.
pub open spec fn lowest_bid_or_zero(history: BookHistory) -> i64 {
    if exists|p: i64| is_lowest_price(history.bid_history(), p) {
        choose|p: i64| is_lowest_price(history.bid_history(), p)
    } else {
        0
    }
}

/// The highest ask price of the history, or 0 when it holds no ask level.
pub open spec fn highest_ask_or_zero(history: BookHistory) -> i64 {
    if exists|p: i64| is_highest_price(history.ask_history(), p) {
        choose|p: i64| is_highest_price(history.ask_history(), p)
    } else {
        0
    }
}

/// `t` less `w`, or the least `i64` where that would fall below it.
pub open spec fn minus_saturating(t: i64, w: u64) -> i64 {
    if t - w < i64::MIN {
        i64::MIN
    } else {
        (t - w) as i64
    }
}

/// The grid for a history, with `now` standing for the newest time when
/// both sides are empty. Every retained snapshot bounds the price range.
pub open spec fn planned_grid(g: GenerateGrid, history: BookHistory, now: i64) -> RenderGrid {
    let newest = newest_of(history, now);
    RenderGrid {
        number_time_values: g.number_time_values,
        time_range: (minus_saturating(newest, g.time_window_in_seconds), newest),
        number_price_values: g.number_price_values,
        price_range: (lowest_bid_or_zero(history), highest_ask_or_zero(history)),
    }
}

impl GenerateGrid {
    /// The grid for `history`, taking `now` as the newest time when both
    /// sides are empty. The time range is the visual window that ends at
    /// the newest snapshot of either side; the price range runs from the
    /// lowest bid to the highest ask of any retained snapshot, 0 standing
    /// for a side with no level.
    pub fn grid_at(&self, history: &BookHistory, now: i64) -> (r: RenderGrid)
        ensures
            r == planned_grid(*self, *history, now),
    {
        let ask_times = history.ask_times();
        let bid_times = history.bid_times();
        let newest: i64 = if ask_times.len() == 0 && bid_times.len() == 0 {
            now
        } else if ask_times.len() == 0 {
            newest_listed(&bid_times)
        } else if bid_times.len() == 0 {
            newest_listed(&ask_times)
        } else {
            let a = newest_listed(&ask_times);
            let b = newest_listed(&bid_times);
            if a >= b {
                a
            } else {
                b
            }
        };
        proof {
            let ha = history.ask_history();
            let hb = history.bid_history();
            if ask_times@.len() > 0 {
                lemma_newest_listed(ha, ask_times@);
            } else {
                assert(ha.dom() =~= Set::<i64>::empty());
            }
            if bid_times@.len() > 0 {
                lemma_newest_listed(hb, bid_times@);
            } else {
                assert(hb.dom() =~= Set::<i64>::empty());
            }
        }
        let low: i64 = if (newest as i128) - (self.time_window_in_seconds as i128) < i64::MIN as i128 {
            i64::MIN
        } else {
            ((newest as i128) - (self.time_window_in_seconds as i128)) as i64
        };
        let price_low = match history.lowest_bid() {
            Some(p) => {
                proof {
                    lemma_unique_lowest(history.bid_history(), p);
                }
                p
            },
            None => 0,
        };
        let price_high = match history.highest_ask() {
            Some(p) => {
                proof {
                    lemma_unique_highest(history.ask_history(), p);
                }
                p
            },
            None => 0,
        };
        RenderGrid {
            number_time_values: self.number_time_values,
            time_range: (low, newest),
            number_price_values: self.number_price_values,
            price_range: (price_low, price_high),
        }
    }

    /// The grid for `history`, reading the wall clock for the newest time
    /// when both sides are empty; otherwise the clock plays no part.
    pub fn grid(&self, history: &BookHistory) -> (r: RenderGrid)
        ensures
            exists|now: i64| r == planned_grid(*self, *history, now),
            history.ask_history().dom() != Set::<i64>::empty() || history.bid_history().dom()
                != Set::<i64>::empty() ==> r == planned_grid(*self, *history, 0),
    {
        let now = now_seconds();
        self.grid_at(history, now)
    }
}

/// The last of an ascending list of timestamps.
fn newest_listed(times: &Vec<i64>) -> (r: i64)
    requires
        times@.len() > 0,
    ensures
        r == times@.last(),
{
    times[times.len() - 1]
}

/// The last of the ascending list of a side's timestamps is its newest.
proof fn lemma_newest_listed(h: Map<i64, Map<i64, u64>>, times: Seq<i64>)
    requires
        times.len() > 0,
        times.to_set() == h.dom(),
        forall|i: int, j: int| 0 <= i < j < times.len() ==> times[i] < times[j],
    ensures
        latest_time(h) == times.last(),
        h.dom() != Set::<i64>::empty(),
{
    assert(times.to_set().contains(times.last()));
    assert forall|k: i64| #[trigger] h.contains_key(k) implies k <= times.last() by {
        assert(times.to_set().contains(k));
        let m = choose|m: int| 0 <= m < times.len() && times[m] == k;
        if m < times.len() - 1 {
            assert(times[m] < times[times.len() - 1]);
        }
    }
    lemma_latest_time(h, times.last());
}

/// Only one price is the lowest.
proof fn lemma_unique_lowest(h: Map<i64, Map<i64, u64>>, p: i64)
    requires
        is_lowest_price(h, p),
    ensures
        (choose|q: i64| is_lowest_price(h, q)) == p,
{
    let c = choose|q: i64| is_lowest_price(h, q);
    assert(is_lowest_price(h, c));
    let t = choose|t: i64| h.contains_key(t) && #[trigger] h[t].contains_key(c);
    let u = choose|t: i64| h.contains_key(t) && #[trigger] h[t].contains_key(p);
    assert(h[t].contains_key(c) && h[u].contains_key(p));
}

/// Only one price is the highest.
proof fn lemma_unique_highest(h: Map<i64, Map<i64, u64>>, p: i64)
    requires
        is_highest_price(h, p),
    ensures
        (choose|q: i64| is_highest_price(h, q)) == p,
{
    let c = choose|q: i64| is_highest_price(h, q);
    assert(is_highest_price(h, c));
    let t = choose|t: i64| h.contains_key(t) && #[trigger] h[t].contains_key(c);
    let u = choose|t: i64| h.contains_key(t) && #[trigger] h[t].contains_key(p);
    assert(h[t].contains_key(c) && h[u].contains_key(p));
}

} // verus!
