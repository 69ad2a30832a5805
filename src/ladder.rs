//! A price ladder: one side of the book at an instant, price to resting
//! quantity, and the deltas that change it.

use vstd::prelude::*;
use vstd::seq_lib::seq_to_set_is_finite;

use rbtree::RBTree;

use crate::tree::{
    levels_clone, levels_entries, levels_first, levels_last, levels_new, levels_of, levels_upsert,
};

verus! {

/// A change to one price level (or one level of an initial payload). Prices
/// are in ticks and quantities in lots of the instrument.
#[derive(Clone, Copy, Debug, PartialEq, Eq, Structural)]
pub struct Order {
    pub price: i64,
    pub quantity: u64,
}

/// The levels of `m` whose quantity is not zero.
pub open spec fn without_zeros(m: Map<i64, u64>) -> Map<i64, u64> {
    m.restrict(m.dom().filter(|p: i64| m[p] != 0))
}

/// One delta: the price is set to the quantity, then every level left at
/// zero is dropped (so a zero quantity removes the price).
pub open spec fn apply_delta(m: Map<i64, u64>, o: Order) -> Map<i64, u64> {
    without_zeros(m.insert(o.price, o.quantity))
}

/// The deltas of `s`, applied in order.
pub open spec fn apply_deltas(m: Map<i64, u64>, s: Seq<Order>) -> Map<i64, u64>
    decreases s.len(),
{
    if s.len() == 0 {
        m
    } else {
        apply_delta(apply_deltas(m, s.drop_last()), s.last())
    }
}

/// A payload taken as it is: each order sets its price, a later order for a
/// price replacing an earlier one.
pub open spec fn levels_from(s: Seq<Order>) -> Map<i64, u64>
    decreases s.len(),
{
    if s.len() == 0 {
        Map::empty()
    } else {
        levels_from(s.drop_last()).insert(s.last().price, s.last().quantity)
    }
}

/// The sum of the quantities of a finite ladder.
pub open spec fn total_quantity(m: Map<i64, u64>) -> int
    decreases m.dom().len(),
{
    if m.dom().finite() && exists|p: i64| m.contains_key(p) {
        let p = choose|p: i64| m.contains_key(p);
        m[p] + total_quantity(m.remove(p))
    } else {
        0
    }
}

/// Taking out any one level first gives the same total.
pub proof fn lemma_total_remove(m: Map<i64, u64>, p: i64)
    requires
        m.dom().finite(),
        m.contains_key(p),
    ensures
        total_quantity(m) == m[p] + total_quantity(m.remove(p)),
    decreases m.dom().len(),
{
    let q = choose|q: i64| m.contains_key(q);
    if q != p {
        let mq = m.remove(q);
        let mp = m.remove(p);
        assert(mq.dom().len() < m.dom().len());
        lemma_total_remove(mq, p);
        lemma_total_remove(mp, q);
        assert(mq.remove(p) =~= mp.remove(q));
    }
}

/// Every level of an empty ladder total is zero.
pub proof fn lemma_total_empty(m: Map<i64, u64>)
    requires
        m.dom() == Set::<i64>::empty(),
    ensures
        total_quantity(m) == 0,
{
    if exists|p: i64| m.contains_key(p) {
        let p = choose|p: i64| m.contains_key(p);
        assert(m.dom().contains(p));
    }
}

/// A zero-quantity delta leaves its price out of the ladder, whether or not
/// the price was there before.
pub proof fn lemma_zero_delta_removes(m: Map<i64, u64>, price: i64)
    ensures
        !apply_delta(m, Order { price, quantity: 0 }).contains_key(price),
{
}

/// One side's resting quantities at an instant, keyed by price.
pub struct PriceLadder {
    levels: RBTree<i64, u64>,
}

impl View for PriceLadder {
    type V = Map<i64, u64>;

    closed spec fn view(&self) -> Map<i64, u64> {
        levels_of(self.levels)
    }
}

impl PriceLadder {
    /// An empty ladder.
    pub fn new() -> (r: PriceLadder)
        ensures
            r@ == Map::<i64, u64>::empty(),
    {
        let r = PriceLadder { levels: levels_new() };
        assert(r@ =~= Map::<i64, u64>::empty());
        r
    }

    /// The ladder of a payload taken as it is (zero quantities included).
    pub fn from_orders(orders: &Vec<Order>) -> (r: PriceLadder)
        ensures
            r@ == levels_from(orders@),
    {
        let mut r = PriceLadder::new();
        let mut i: usize = 0;
        while i < orders.len()
            invariant
                i <= orders@.len(),
                r@ == levels_from(orders@.take(i as int)),
            decreases orders@.len() - i,
        {
            let o = orders[i];
            levels_upsert(&mut r.levels, o.price, o.quantity);
            assert(orders@.take(i as int + 1).drop_last() =~= orders@.take(i as int));
            i = i + 1;
        }
        assert(orders@.take(i as int) =~= orders@);
        r
    }

    /// An independent copy of this ladder.
    pub fn duplicate(&self) -> (r: PriceLadder)
        ensures
            r@ == self@,
    {
        match levels_first(&self.levels) {
            Some(_) => PriceLadder { levels: levels_clone(&self.levels) },
            None => {
                let r = PriceLadder::new();
                assert(r@ =~= self@);
                r
            },
        }
    }

    /// Every level, in ascending order of price.
    pub fn entries(&self) -> (r: Vec<(i64, u64)>)
        ensures
            self@.dom() == r@.map_values(|e: (i64, u64)| e.0).to_set(),
            forall|i: int, j: int| 0 <= i < j < r@.len() ==> r@[i].0 < r@[j].0,
            forall|i: int| 0 <= i < r@.len() ==> #[trigger] self@[r@[i].0] == r@[i].1,
    {
        let r = levels_entries(&self.levels);
        proof {
            lemma_ascending_pairs(r@);
        }
        r
    }

    /// The number of price levels.
    pub fn len(&self) -> (r: usize)
        ensures
            r == self@.dom().len(),
            self@.dom().finite(),
    {
        let e = self.entries();
        proof {
            lemma_distinct_keys_len(e@);
        }
        e.len()
    }

    /// The level with the lowest price, if any.
    pub fn lowest(&self) -> (r: Option<(i64, u64)>)
        ensures
            r is None <==> self@.dom() == Set::<i64>::empty(),
            r matches Some((p, q)) ==> self@.contains_key(p) && self@[p] == q
                && forall|j: i64| #[trigger] self@.contains_key(j) ==> p <= j,
    {
        levels_first(&self.levels)
    }

    /// The level with the highest price, if any.
    pub fn highest(&self) -> (r: Option<(i64, u64)>)
        ensures
            r is None <==> self@.dom() == Set::<i64>::empty(),
            r matches Some((p, q)) ==> self@.contains_key(p) && self@[p] == q
                && forall|j: i64| #[trigger] self@.contains_key(j) ==> j <= p,
    {
        levels_last(&self.levels)
    }

    /// Drops every level whose quantity is zero.
    fn drop_zeros(&mut self)
        ensures
            final(self)@ == without_zeros(old(self)@),
    {
        let ghost m = self@;
        let e = levels_entries(&self.levels);
        let mut kept = levels_new();
        let mut i: usize = 0;
        while i < e.len()
            invariant
                i <= e@.len(),
                m.dom() == e@.map_values(|x: (i64, u64)| x.0).to_set(),
                forall|k: int| 0 <= k < e@.len() ==> #[trigger] m[e@[k].0] == e@[k].1,
                forall|p: i64|
                    #[trigger] levels_of(kept).contains_key(p) <==> (m.contains_key(p) && m[p]
                        != 0 && exists|k: int| 0 <= k < i && e@[k].0 == p),
                forall|p: i64| #[trigger] levels_of(kept).contains_key(p) ==> levels_of(kept)[p] == m[p],
            decreases e@.len() - i,
        {
            let (p, q) = e[i];
            proof {
                assert(e@.map_values(|x: (i64, u64)| x.0)[i as int] == p);
                assert(m.contains_key(p));
            }
            if q != 0 {
                levels_upsert(&mut kept, p, q);
            }
            i = i + 1;
        }
        proof {
            let w = without_zeros(m);
            assert forall|p: i64| w.contains_key(p) implies #[trigger] levels_of(kept).contains_key(p) by {
                lemma_key_index(e@, p);
            }
            assert(levels_of(kept) =~= w);
        }
        self.levels = kept;
    }

    /// Applies one delta: the price is set to the quantity and every level left
    /// at zero is dropped.
    pub fn apply_delta(&mut self, order: Order)
        ensures
            final(self)@ == apply_delta(old(self)@, order),
    {
        levels_upsert(&mut self.levels, order.price, order.quantity);
        self.drop_zeros();
    }

    /// Applies the deltas in order.
    pub fn apply_deltas(&mut self, orders: &Vec<Order>)
        ensures
            final(self)@ == apply_deltas(old(self)@, orders@),
    {
        let ghost m = self@;
        let mut i: usize = 0;
        while i < orders.len()
            invariant
                i <= orders@.len(),
                self@ == apply_deltas(m, orders@.take(i as int)),
            decreases orders@.len() - i,
        {
            self.apply_delta(orders[i]);
            assert(orders@.take(i as int + 1).drop_last() =~= orders@.take(i as int));
            i = i + 1;
        }
        assert(orders@.take(i as int) =~= orders@);
    }

    /// The sum of the resting quantities.
    pub fn total(&self) -> (r: u128)
        ensures
            r == total_quantity(self@),
    {
        let ghost m = self@;
        let e = self.entries();
        let mut sum: u128 = 0;
        let mut i: usize = 0;
        let ghost mut rest = m;
        proof {
            seq_to_set_is_finite(e@.map_values(|x: (i64, u64)| x.0));
        }
        while i < e.len()
            invariant
                i <= e@.len(),
                m.dom() == e@.map_values(|x: (i64, u64)| x.0).to_set(),
                forall|a: int, b: int| 0 <= a < b < e@.len() ==> e@[a].0 < e@[b].0,
                forall|k: int| 0 <= k < e@.len() ==> #[trigger] m[e@[k].0] == e@[k].1,
                rest.dom().finite(),
                forall|p: i64| #[trigger] rest.contains_key(p) <==> (m.contains_key(p)
                    && forall|k: int| 0 <= k < i ==> e@[k].0 != p),
                forall|p: i64| #[trigger] rest.contains_key(p) ==> rest[p] == m[p],
                sum + total_quantity(rest) == total_quantity(m),
                sum <= i * 0xffff_ffff_ffff_ffff,
            decreases e@.len() - i,
        {
            let (p, q) = e[i];
            proof {
                assert(e@.map_values(|x: (i64, u64)| x.0)[i as int] == p);
                assert(rest.contains_key(p));
                lemma_total_remove(rest, p);
                rest = rest.remove(p);
                assert(i < 0x1_0000_0000_0000_0000) by {
                    assert(i <= usize::MAX);
                }
                assert(sum + q <= (i + 1) * 0xffff_ffff_ffff_ffff) by (nonlinear_arith)
                    requires
                        sum <= i * 0xffff_ffff_ffff_ffff,
                        q <= 0xffff_ffff_ffff_ffff,
                ;
                assert((i + 1) * 0xffff_ffff_ffff_ffff <= 0x1_0000_0000_0000_0000 * 0xffff_ffff_ffff_ffff) by (nonlinear_arith)
                    requires
                        i < 0x1_0000_0000_0000_0000,
                ;
            }
            sum = sum + q as u128;
            i = i + 1;
        }
        proof {
            assert forall|p: i64| !rest.contains_key(p) by {
                if rest.contains_key(p) {
                    lemma_key_index(e@, p);
                }
            }
            assert(rest.dom() =~= Set::<i64>::empty());
            lemma_total_empty(rest);
        }
        sum
    }
}

/// A key of the entries stands at some index.
pub proof fn lemma_key_index(s: Seq<(i64, u64)>, p: i64)
    requires
        s.map_values(|e: (i64, u64)| e.0).to_set().contains(p),
    ensures
        exists|k: int| 0 <= k < s.len() && #[trigger] s[k].0 == p,
{
    let keys = s.map_values(|e: (i64, u64)| e.0);
    assert(keys.contains(p));
    let k = choose|k: int| 0 <= k < keys.len() && keys[k] == p;
    assert(s[k].0 == p);
}

/// Adjacent keys that ascend make every pair ascend.
proof fn lemma_ascending_pairs(s: Seq<(i64, u64)>)
    requires
        forall|j: int| 0 < j < s.len() ==> #[trigger] s[j].0 > s[j - 1].0,
    ensures
        forall|i: int, j: int| 0 <= i < j < s.len() ==> s[i].0 < s[j].0,
    decreases s.len(),
{
    if s.len() > 0 {
        let t = s.drop_last();
        assert forall|j: int| 0 < j < t.len() implies #[trigger] t[j].0 > t[j - 1].0 by {
            assert(t[j] == s[j] && t[j - 1] == s[j - 1]);
        }
        lemma_ascending_pairs(t);
        assert forall|i: int, j: int| 0 <= i < j < s.len() implies s[i].0 < s[j].0 by {
            if j < s.len() - 1 {
                assert(t[i] == s[i] && t[j] == s[j]);
            } else if i < j - 1 {
                assert(t[i] == s[i] && t[j - 1] == s[j - 1]);
            }
        }
    }
}

/// Entries with distinct keys have as many keys as entries.
proof fn lemma_distinct_keys_len(s: Seq<(i64, u64)>)
    requires
        forall|i: int, j: int| 0 <= i < j < s.len() ==> s[i].0 < s[j].0,
    ensures
        s.map_values(|e: (i64, u64)| e.0).to_set().len() == s.len(),
        s.map_values(|e: (i64, u64)| e.0).to_set().finite(),
{
    let keys = s.map_values(|e: (i64, u64)| e.0);
    assert forall|i: int, j: int| 0 <= i < keys.len() && 0 <= j < keys.len() && i != j implies keys[i] != keys[j] by {
        if i < j {
            assert(s[i].0 < s[j].0);
        } else {
            assert(s[j].0 < s[i].0);
        }
    }
    assert(keys.no_duplicates());
    keys.unique_seq_to_set();
    seq_to_set_is_finite(keys);
}

} // verus!
