use bookedblocks::ladder::{Order, PriceLadder};

#[test]
fn zero_quantity_delta_removes_an_existing_price() {
    let mut ladder = PriceLadder::from_orders(&vec![
        Order { price: 10, quantity: 3 },
        Order { price: 11, quantity: 4 },
    ]);
    ladder.apply_delta(Order { price: 10, quantity: 0 });
    assert_eq!(ladder.entries(), vec![(11, 4)]);
}

#[test]
fn zero_quantity_delta_on_an_absent_price_changes_nothing() {
    let mut ladder = PriceLadder::from_orders(&vec![Order { price: 11, quantity: 4 }]);
    ladder.apply_delta(Order { price: 10, quantity: 0 });
    assert_eq!(ladder.entries(), vec![(11, 4)]);
}

#[test]
fn delta_upserts_a_price() {
    let mut ladder = PriceLadder::from_orders(&vec![Order { price: 11, quantity: 4 }]);
    ladder.apply_delta(Order { price: 11, quantity: 9 });
    ladder.apply_delta(Order { price: -2, quantity: 1 });
    assert_eq!(ladder.entries(), vec![(-2, 1), (11, 9)]);
}

#[test]
fn initial_payload_is_taken_as_it_is() {
    let ladder = PriceLadder::from_orders(&vec![
        Order { price: 3, quantity: 0 },
        Order { price: 1, quantity: 5 },
        Order { price: 1, quantity: 6 },
    ]);
    assert_eq!(ladder.entries(), vec![(1, 6), (3, 0)]);
    assert_eq!(ladder.len(), 2);
}

#[test]
fn a_delta_drops_zero_levels_of_an_initial_payload() {
    let mut ladder = PriceLadder::from_orders(&vec![
        Order { price: 3, quantity: 0 },
        Order { price: 1, quantity: 5 },
    ]);
    ladder.apply_delta(Order { price: 2, quantity: 1 });
    assert_eq!(ladder.entries(), vec![(1, 5), (2, 1)]);
}

#[test]
fn deltas_apply_in_order() {
    let mut ladder = PriceLadder::new();
    ladder.apply_deltas(&vec![
        Order { price: 4, quantity: 1 },
        Order { price: 4, quantity: 0 },
        Order { price: 5, quantity: 2 },
        Order { price: 4, quantity: 3 },
    ]);
    assert_eq!(ladder.entries(), vec![(4, 3), (5, 2)]);
    let mut untouched = PriceLadder::from_orders(&vec![Order { price: 3, quantity: 0 }]);
    untouched.apply_deltas(&vec![]);
    assert_eq!(untouched.entries(), vec![(3, 0)]);
}

#[test]
fn total_sums_every_level() {
    let ladder = PriceLadder::from_orders(&vec![
        Order { price: 5, quantity: 6 },
        Order { price: 7, quantity: 8 },
    ]);
    assert_eq!(ladder.total(), 14);
    assert_eq!(PriceLadder::new().total(), 0);
}

#[test]
fn total_does_not_overflow() {
    let ladder = PriceLadder::from_orders(&vec![
        Order { price: 1, quantity: u64::MAX },
        Order { price: 2, quantity: u64::MAX },
        Order { price: 3, quantity: u64::MAX },
    ]);
    assert_eq!(ladder.total(), 3 * (u64::MAX as u128));
}

#[test]
fn lowest_and_highest_levels() {
    let ladder = PriceLadder::from_orders(&vec![
        Order { price: 7, quantity: 8 },
        Order { price: -5, quantity: 6 },
        Order { price: 2, quantity: 1 },
    ]);
    assert_eq!(ladder.lowest(), Some((-5, 6)));
    assert_eq!(ladder.highest(), Some((7, 8)));
    assert_eq!(PriceLadder::new().lowest(), None);
    assert_eq!(PriceLadder::new().highest(), None);
}

#[test]
fn duplicate_is_independent() {
    let ladder = PriceLadder::from_orders(&vec![Order { price: 7, quantity: 8 }]);
    let mut copy = ladder.duplicate();
    copy.apply_delta(Order { price: 7, quantity: 0 });
    assert_eq!(ladder.entries(), vec![(7, 8)]);
    assert_eq!(copy.len(), 0);
}
