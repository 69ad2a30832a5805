use bookedblocks::grid::{GenerateGrid, RenderGrid};
use bookedblocks::history::{BookHistory, Booked};
use bookedblocks::ladder::Order;

fn filled_history(times: std::ops::Range<i64>) -> BookHistory {
    let mut history = BookHistory::new(600);
    for t in times {
        let booked = Booked {
            symbol: "ETH/EUR".to_string(),
            timestamp: String::new(),
            asks: vec![Order { price: 5, quantity: 6 }, Order { price: 7, quantity: 8 }],
            bids: vec![Order { price: 1, quantity: 2 }, Order { price: 3, quantity: 4 }],
        };
        assert!(history.update_at(t, &booked).is_ok());
    }
    history
}

fn generator(window: u64) -> GenerateGrid {
    GenerateGrid {
        time_window_in_seconds: window,
        number_time_values: 10,
        number_price_values: 20,
    }
}

#[test]
fn grid_ends_at_the_newest_snapshot() {
    let history = filled_history(0..60);
    let grid = generator(45).grid_at(&history, 1000);
    assert_eq!(
        grid,
        RenderGrid {
            number_time_values: 10,
            time_range: (14, 59),
            number_price_values: 20,
            price_range: (1, 7),
        }
    );
}

#[test]
fn grid_of_an_empty_history_ends_now() {
    let history = BookHistory::new(60);
    let grid = generator(45).grid_at(&history, 1000);
    assert_eq!(grid.time_range, (955, 1000));
    assert_eq!(grid.price_range, (0, 0));
}

#[test]
fn grid_time_range_saturates() {
    let history = filled_history(i64::MIN + 5..i64::MIN + 6);
    let grid = generator(10).grid_at(&history, 0);
    assert_eq!(grid.time_range, (i64::MIN, i64::MIN + 5));
}

#[test]
fn grid_reads_the_clock_only_for_an_empty_history() {
    let empty = BookHistory::new(60);
    let grid = generator(45).grid(&empty);
    assert_eq!(grid.time_range.1 - grid.time_range.0, 45);
    assert!(grid.time_range.1 > 1_600_000_000);
    let history = filled_history(0..3);
    assert_eq!(generator(45).grid(&history).time_range, (-43, 2));
}

#[test]
fn grid_price_range_covers_every_snapshot() {
    let mut history = filled_history(0..2);
    let wider = Booked {
        symbol: "ETH/EUR".to_string(),
        timestamp: String::new(),
        asks: vec![Order { price: 7, quantity: 0 }],
        bids: vec![Order { price: 1, quantity: 0 }],
    };
    assert!(history.update_at(2, &wider).is_ok());
    let grid = generator(1).grid_at(&history, 0);
    assert_eq!(grid.price_range, (1, 7));
}
