//! One render cycle: a grid for the history, and the samples that each of
//! the three plots splats onto it.

use vstd::prelude::*;

use crate::grid::{planned_grid, GenerateGrid, RenderGrid};
use crate::ladder::lemma_key_index;
use crate::history::{in_window, integrates, latest_or_empty, BookHistory};

verus! {

/// `s` lists the levels of `m` in ascending order of price.
pub open spec fn lists_levels(m: Map<i64, u64>, s: Seq<(i64, u64)>) -> bool {
    &&& m.dom() == s.map_values(|e: (i64, u64)| e.0).to_set()
    &&& forall|i: int, j: int| 0 <= i < j < s.len() ==> s[i].0 < s[j].0
    &&& forall|i: int| 0 <= i < s.len() ==> #[trigger] m[s[i].0] == s[i].1
}

/// `s` lists every `(time, price, quantity)` level of the snapshots of `h`,
/// ordered by time and then by price.
pub open spec fn lists_blocks(h: Map<i64, Map<i64, u64>>, s: Seq<(i64, i64, u64)>) -> bool {
    &&& forall|k: int|
        0 <= k < s.len() ==> h.contains_key(#[trigger] s[k].0) && h[s[k].0].contains_key(s[k].1)
            && h[s[k].0][s[k].1] == s[k].2
    &&& forall|t: i64, p: i64|
        h.contains_key(t) && #[trigger] h[t].contains_key(p) ==> exists|k: int|
            0 <= k < s.len() && #[trigger] s[k] == (t, p, h[t][p])
    &&& forall|i: int, j: int|
        0 <= i < j < s.len() ==> s[i].0 < s[j].0 || (s[i].0 == s[j].0 && s[i].1 < s[j].1)
}

/// One side of the history: the asks, or the bids.
pub open spec fn side_history(history: BookHistory, asks: bool) -> Map<i64, Map<i64, u64>> {
    if asks {
        history.ask_history()
    } else {
        history.bid_history()
    }
}

/// The samples of the depth plot.
pub struct SplatDepth {}

impl SplatDepth {
    /// The levels of the newest ladder of each side, asks first, each in
    /// ascending order of price; an empty side gives none.
    pub fn samples(history: &BookHistory) -> (r: (Vec<(i64, u64)>, Vec<(i64, u64)>))
        ensures
            lists_levels(latest_or_empty(history.ask_history()).1, r.0@),
            lists_levels(latest_or_empty(history.bid_history()).1, r.1@),
    {
        let ((_, asks), (_, bids)) = history.get_latest_book();
        (asks.entries(), bids.entries())
    }
}

/// The samples of the volume plot.
pub struct SplatVolume {}

impl SplatVolume {
    /// For each side, asks first, the total quantity of each snapshot in
    /// the grid's time range, in ascending order of time.
    pub fn samples(grid: &RenderGrid, history: &BookHistory) -> (r: (Vec<(i64, u128)>, Vec<(i64, u128)>))
        ensures
            integrates(history.ask_history(), grid.time_range.0, grid.time_range.1, r.0@),
            integrates(history.bid_history(), grid.time_range.0, grid.time_range.1, r.1@),
    {
        history.integrate_window(grid.time_range.0, grid.time_range.1)
    }
}

/// The samples of the heatmap.
pub struct SplatBlocks {}

impl SplatBlocks {
    /// For each side, asks first, every `(time, price, quantity)` level of
    /// the snapshots in the grid's time range, by time and then price.
    pub fn samples(grid: &RenderGrid, history: &BookHistory) -> (r: (
        Vec<(i64, i64, u64)>,
        Vec<(i64, i64, u64)>,
    ))
        ensures
            lists_blocks(in_window(history.ask_history(), grid.time_range.0, grid.time_range.1), r.0@),
            lists_blocks(in_window(history.bid_history(), grid.time_range.0, grid.time_range.1), r.1@),
    {
        (
            side_blocks(history, true, grid.time_range.0, grid.time_range.1),
            side_blocks(history, false, grid.time_range.0, grid.time_range.1),
        )
    }
}

/// Appends `(t, price, quantity)` for each of the levels `e`, in order.
fn push_levels(r: &mut Vec<(i64, i64, u64)>, t: i64, e: &Vec<(i64, u64)>)
    ensures
        final(r)@.len() == old(r)@.len() + e@.len(),
        forall|k: int| 0 <= k < old(r)@.len() ==> #[trigger] final(r)@[k] == old(r)@[k],
        forall|k: int| 0 <= k < e@.len() ==> #[trigger] final(r)@[old(r)@.len() + k] == (t, e@[k].0, e@[k].1),
{
    let ghost r0 = r@;
    let mut j: usize = 0;
    while j < e.len()
        invariant
            j <= e@.len(),
            r@.len() == r0.len() + j,
            forall|k: int| 0 <= k < r0.len() ==> #[trigger] r@[k] == r0[k],
            forall|k: int| 0 <= k < j ==> #[trigger] r@[r0.len() + k] == (t, e@[k].0, e@[k].1),
        decreases e@.len() - j,
    {
        let (p, q) = e[j];
        r.push((t, p, q));
        proof {
            assert(r@[r0.len() + j] == (t, e@[j as int].0, e@[j as int].1));
        }
        j = j + 1;
    }
}

/// Every entry of `s` is a level of `h`.
pub open spec fn blocks_sound(h: Map<i64, Map<i64, u64>>, s: Seq<(i64, i64, u64)>) -> bool {
    forall|k: int|
        0 <= k < s.len() ==> h.contains_key(#[trigger] s[k].0) && h[s[k].0].contains_key(s[k].1)
            && h[s[k].0][s[k].1] == s[k].2
}

/// Every level of `h` at the first `i` timestamps of `times` is in `s`.
#[verifier::opaque]
spec fn blocks_cover(h: Map<i64, Map<i64, u64>>, times: Seq<i64>, i: int, s: Seq<(i64, i64, u64)>) -> bool {
    forall|m: int, p: i64|
        0 <= m < i && h.contains_key(times[m]) && #[trigger] h[times[m]].contains_key(p) ==> exists|k: int|
            0 <= k < s.len() && (#[trigger] s[k]).0 == times[m] && s[k].1 == p
}

/// `s` is ordered by time and then by price.
pub open spec fn blocks_ordered(s: Seq<(i64, i64, u64)>) -> bool {
    forall|i: int, j: int|
        0 <= i < j < s.len() ==> s[i].0 < s[j].0 || (s[i].0 == s[j].0 && s[i].1 < s[j].1)
}

/// Appending the levels of the snapshot at `times[i]` extends the cover to
/// the first `i + 1` timestamps, keeps every entry a level, and keeps the
/// order.
proof fn lemma_blocks_step(
    h: Map<i64, Map<i64, u64>>,
    times: Seq<i64>,
    i: int,
    r0: Seq<(i64, i64, u64)>,
    r1: Seq<(i64, i64, u64)>,
    e: Seq<(i64, u64)>,
)
    requires
        0 <= i < times.len(),
        blocks_cover(h, times, i, r0),
        blocks_sound(h, r0),
        blocks_ordered(r0),
        forall|k: int| 0 <= k < r0.len() ==> #[trigger] r0[k].0 < times[i],
        h.contains_key(times[i]),
        h[times[i]].dom() == e.map_values(|x: (i64, u64)| x.0).to_set(),
        forall|a: int, b: int| 0 <= a < b < e.len() ==> e[a].0 < e[b].0,
        forall|a: int| 0 <= a < e.len() ==> #[trigger] h[times[i]][e[a].0] == e[a].1,
        r1.len() == r0.len() + e.len(),
        forall|k: int| 0 <= k < r0.len() ==> #[trigger] r1[k] == r0[k],
        forall|k: int| 0 <= k < e.len() ==> #[trigger] r1[r0.len() + k] == (times[i], e[k].0, e[k].1),
    ensures
        blocks_cover(h, times, i + 1, r1),
        blocks_sound(h, r1),
        blocks_ordered(r1),
        forall|k: int| 0 <= k < r1.len() ==> #[trigger] r1[k].0 <= times[i],
{
    let t = times[i];
    assert forall|k: int| 0 <= k < r1.len() implies #[trigger] r1[k].0 <= t && h.contains_key(r1[k].0)
        && h[r1[k].0].contains_key(r1[k].1) && h[r1[k].0][r1[k].1] == r1[k].2 by {
        if k < r0.len() {
            assert(r1[k] == r0[k]);
        } else {
            let a = k - r0.len();
            assert(r1[r0.len() + a] == (t, e[a].0, e[a].1));
            assert(e.map_values(|x: (i64, u64)| x.0)[a] == e[a].0);
            assert(e.map_values(|x: (i64, u64)| x.0).to_set().contains(e[a].0));
        }
    }
    assert forall|a: int, b: int| 0 <= a < b < r1.len() implies r1[a].0 < r1[b].0 || (r1[a].0 == r1[b].0
        && r1[a].1 < r1[b].1) by {
        if b < r0.len() {
            assert(r1[a] == r0[a] && r1[b] == r0[b]);
        } else if a < r0.len() {
            assert(r1[a] == r0[a]);
            assert(r1[r0.len() + (b - r0.len())] == (t, e[b - r0.len()].0, e[b - r0.len()].1));
        } else {
            assert(r1[r0.len() + (a - r0.len())] == (t, e[a - r0.len()].0, e[a - r0.len()].1));
            assert(r1[r0.len() + (b - r0.len())] == (t, e[b - r0.len()].0, e[b - r0.len()].1));
        }
    }
    reveal(blocks_cover);
    assert forall|m: int, p: i64|
        0 <= m < i + 1 && h.contains_key(times[m]) && #[trigger] h[times[m]].contains_key(p) implies exists|k: int|
            0 <= k < r1.len() && (#[trigger] r1[k]).0 == times[m] && r1[k].1 == p by {
        if m == i {
            lemma_key_index(e, p);
            let a = choose|a: int| 0 <= a < e.len() && #[trigger] e[a].0 == p;
            assert(r1[r0.len() + a] == (t, e[a].0, e[a].1));
        } else {
            let k = choose|k: int| 0 <= k < r0.len() && (#[trigger] r0[k]).0 == times[m] && r0[k].1 == p;
            assert(r1[k] == r0[k]);
        }
    }
}

/// Skipping a timestamp that `h` does not hold extends the cover.
proof fn lemma_blocks_skip(h: Map<i64, Map<i64, u64>>, times: Seq<i64>, i: int, r: Seq<(i64, i64, u64)>)
    requires
        0 <= i < times.len(),
        blocks_cover(h, times, i, r),
        !h.contains_key(times[i]),
    ensures
        blocks_cover(h, times, i + 1, r),
{
    reveal(blocks_cover);
    assert forall|m: int, p: i64|
        0 <= m < i + 1 && h.contains_key(times[m]) && #[trigger] h[times[m]].contains_key(p) implies exists|k: int|
            0 <= k < r.len() && (#[trigger] r[k]).0 == times[m] && r[k].1 == p by {
        assert(m < i);
    }
}

/// A cover of every listed timestamp of `h` lists every level of `h`.
proof fn lemma_blocks_done(h: Map<i64, Map<i64, u64>>, hw: Map<i64, Map<i64, u64>>, times: Seq<i64>, r: Seq<(i64, i64, u64)>)
    requires
        blocks_cover(hw, times, times.len() as int, r),
        blocks_sound(hw, r),
        blocks_ordered(r),
        times.to_set() == h.dom(),
        hw.dom().subset_of(h.dom()),
    ensures
        lists_blocks(hw, r),
{
    reveal(blocks_cover);
    assert forall|t: i64, p: i64| hw.contains_key(t) && #[trigger] hw[t].contains_key(p) implies exists|k: int|
        0 <= k < r.len() && #[trigger] r[k] == (t, p, hw[t][p]) by {
        assert(times.to_set().contains(t));
        let m = choose|m: int| 0 <= m < times.len() && times[m] == t;
        assert(hw[times[m]].contains_key(p));
        let k = choose|k: int| 0 <= k < r.len() && (#[trigger] r[k]).0 == times[m] && r[k].1 == p;
        assert(r[k] == (t, p, hw[t][p]));
    }
}

/// Every level of the snapshots of one side taken in `[start, end]`.
fn side_blocks(history: &BookHistory, asks: bool, start: i64, end: i64) -> (r: Vec<(i64, i64, u64)>)
    ensures
        lists_blocks(in_window(side_history(*history, asks), start, end), r@),
{
    let ghost h = side_history(*history, asks);
    let ghost hw = in_window(h, start, end);
    let times = if asks {
        history.ask_times()
    } else {
        history.bid_times()
    };
    let mut r: Vec<(i64, i64, u64)> = Vec::new();
    let mut i: usize = 0;
    proof {
        reveal(blocks_cover);
    }
    while i < times.len()
        invariant
            i <= times@.len(),
            times@.to_set() == h.dom(),
            forall|a: int, b: int| 0 <= a < b < times@.len() ==> times@[a] < times@[b],
            hw == in_window(h, start, end),
            h == side_history(*history, asks),
            blocks_cover(hw, times@, i as int, r@),
            blocks_sound(hw, r@),
            blocks_ordered(r@),
            i < times@.len() ==> forall|k: int| 0 <= k < r@.len() ==> #[trigger] r@[k].0 < times@[i as int],
        decreases times@.len() - i,
    {
        let t = times[i];
        assert(h.contains_key(t)) by {
            assert(times@.to_set().contains(t));
        }
        let ghost r0 = r@;
        let snapshot = if start <= t && t <= end {
            if asks {
                history.ask_snapshot(t)
            } else {
                history.bid_snapshot(t)
            }
        } else {
            None
        };
        match snapshot {
            Some(l) => {
                let e = l.entries();
                push_levels(&mut r, t, &e);
                proof {
                    lemma_blocks_step(hw, times@, i as int, r0, r@, e@);
                }
            },
            None => {
                proof {
                    lemma_blocks_skip(hw, times@, i as int, r@);
                }
            },
        }
        proof {
            if i + 1 < times@.len() {
                assert forall|k: int| 0 <= k < r@.len() implies #[trigger] r@[k].0 < times@[i + 1] by {
                    assert(r@[k].0 <= times@[i as int]);
                    assert(times@[i as int] < times@[i + 1]);
                }
            }
        }
        i = i + 1;
    }
    proof {
        lemma_blocks_done(h, hw, times@, r@);
    }
    r
}

/// A render cycle's planner: the grid that the three plots share.
pub struct Pipeline {
    grid_generator: GenerateGrid,
}

/// The grid of a cycle and the samples of its three plots: depth, volume
/// and heatmap, each with its asks first.
pub struct RenderSamples {
    pub grid: RenderGrid,
    pub depth: (Vec<(i64, u64)>, Vec<(i64, u64)>),
    pub volumes: (Vec<(i64, u128)>, Vec<(i64, u128)>),
    pub blocks: (Vec<(i64, i64, u64)>, Vec<(i64, i64, u64)>),
}

impl Pipeline {
    /// The grid generator of this pipeline.
    pub closed spec fn generator(&self) -> GenerateGrid {
        self.grid_generator
    }

    /// A pipeline whose grids cover `time_window_in_seconds` of time in
    /// `number_time_values` cells and the price range in
    /// `number_price_values` cells.
    pub fn new(time_window_in_seconds: u64, number_time_values: usize, number_price_values: usize) -> (r: Pipeline)
        ensures
            r.generator().time_window_in_seconds == time_window_in_seconds,
            r.generator().number_time_values == number_time_values,
            r.generator().number_price_values == number_price_values,
    {
        Pipeline {
            grid_generator: GenerateGrid {
                time_window_in_seconds,
                number_time_values,
                number_price_values,
            },
        }
    }

    /// A copy of this pipeline, for a cycle run elsewhere.
    pub fn duplicate(&self) -> (r: Pipeline)
        ensures
            r.generator() == self.generator(),
    {
        Pipeline::new(
            self.grid_generator.time_window_in_seconds,
            self.grid_generator.number_time_values,
            self.grid_generator.number_price_values,
        )
    }

    /// The grid of a cycle over `history`, taking `now` as the newest time
    /// when the history is empty, and the samples of the three plots on it.
    pub fn samples_at(&self, history: &BookHistory, now: i64) -> (r: RenderSamples)
        ensures
            r.grid == planned_grid(self.generator(), *history, now),
            lists_levels(latest_or_empty(history.ask_history()).1, r.depth.0@),
            lists_levels(latest_or_empty(history.bid_history()).1, r.depth.1@),
            integrates(history.ask_history(), r.grid.time_range.0, r.grid.time_range.1, r.volumes.0@),
            integrates(history.bid_history(), r.grid.time_range.0, r.grid.time_range.1, r.volumes.1@),
            lists_blocks(in_window(history.ask_history(), r.grid.time_range.0, r.grid.time_range.1), r.blocks.0@),
            lists_blocks(in_window(history.bid_history(), r.grid.time_range.0, r.grid.time_range.1), r.blocks.1@),
    {
        let grid = self.grid_generator.grid_at(history, now);
        self.collect(grid, history)
    }

    /// The grid of a cycle over `history`, reading the wall clock when the
    /// history is empty, and the samples of the three plots on it.
    pub fn samples(&self, history: &BookHistory) -> (r: RenderSamples)
        ensures
            exists|now: i64| r.grid == planned_grid(self.generator(), *history, now),
            lists_levels(latest_or_empty(history.ask_history()).1, r.depth.0@),
            lists_levels(latest_or_empty(history.bid_history()).1, r.depth.1@),
            integrates(history.ask_history(), r.grid.time_range.0, r.grid.time_range.1, r.volumes.0@),
            integrates(history.bid_history(), r.grid.time_range.0, r.grid.time_range.1, r.volumes.1@),
            lists_blocks(in_window(history.ask_history(), r.grid.time_range.0, r.grid.time_range.1), r.blocks.0@),
            lists_blocks(in_window(history.bid_history(), r.grid.time_range.0, r.grid.time_range.1), r.blocks.1@),
    {
        let grid = self.grid_generator.grid(history);
        let r = self.collect(grid, history);
        proof {
            let now = choose|now: i64| grid == planned_grid(self.grid_generator, *history, now);
            assert(r.grid == planned_grid(self.generator(), *history, now));
        }
        r
    }

    /// The samples of the three plots on `grid`.
    fn collect(&self, grid: RenderGrid, history: &BookHistory) -> (r: RenderSamples)
        ensures
            r.grid == grid,
            lists_levels(latest_or_empty(history.ask_history()).1, r.depth.0@),
            lists_levels(latest_or_empty(history.bid_history()).1, r.depth.1@),
            integrates(history.ask_history(), grid.time_range.0, grid.time_range.1, r.volumes.0@),
            integrates(history.bid_history(), grid.time_range.0, grid.time_range.1, r.volumes.1@),
            lists_blocks(in_window(history.ask_history(), grid.time_range.0, grid.time_range.1), r.blocks.0@),
            lists_blocks(in_window(history.bid_history(), grid.time_range.0, grid.time_range.1), r.blocks.1@),
    {
        let depth = SplatDepth::samples(history);
        let volumes = SplatVolume::samples(&grid, history);
        let blocks = SplatBlocks::samples(&grid, history);
        RenderSamples { grid, depth, volumes, blocks }
    }
}

} // verus!
