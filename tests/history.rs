use bookedblocks::history::{BookHistory, Booked, HistoryError};
use bookedblocks::ladder::Order;

use chrono::DateTime;

fn at(seconds: i64) -> String {
    DateTime::from_timestamp(seconds, 0).unwrap().to_rfc3339()
}

fn generic_booked_case() -> Booked {
    Booked {
        symbol: "ETH/EUR".to_string(),
        timestamp: at(0),
        asks: vec![
            Order { price: 5, quantity: 6 },
            Order { price: 7, quantity: 8 },
        ],
        bids: vec![
            Order { price: 1, quantity: 2 },
            Order { price: 3, quantity: 4 },
        ],
    }
}

fn booked_at(seconds: i64) -> Booked {
    let mut booked = generic_booked_case();
    booked.timestamp = at(seconds);
    booked
}

#[test]
fn test_empty_history() {
    let history = BookHistory::new(60);

    let latest = history.get_latest_book();
    assert_eq!(latest.0 .0, 0);
    assert_eq!(latest.1 .0, 0);

    assert_eq!(latest.0 .1.len(), 0);
    assert_eq!(latest.1 .1.len(), 0);

    let integrated = history.integrate_window(0, 60);
    assert_eq!(integrated.0.len(), 0);
    assert_eq!(integrated.1.len(), 0);

    let extracted = history.extract_window(0, 45);
    assert_eq!(extracted.time_window_in_seconds(), 45);

    assert_eq!(extracted.ask_times().len(), 0);
    assert_eq!(extracted.bid_times().len(), 0);
}

#[test]
fn test_book_updates() {
    let mut history = BookHistory::new(60);

    let updated = history.update(generic_booked_case());
    assert!(updated.is_ok());
    assert!(!updated.unwrap().is_some());

    assert_eq!(history.ask_times(), vec![0]);
    assert_eq!(history.bid_times(), vec![0]);

    let asks = history.ask_snapshot(0);
    let bids = history.bid_snapshot(0);
    assert!(asks.is_some());
    assert!(bids.is_some());

    let asks = asks.unwrap();
    let bids = bids.unwrap();
    assert_eq!(asks.len(), 2);
    assert_eq!(bids.len(), 2);

    assert_eq!(asks.entries(), vec![(5, 6), (7, 8)]);
    assert_eq!(bids.entries(), vec![(1, 2), (3, 4)]);
}

#[test]
fn test_bad_timestamped_update() {
    let mut history = BookHistory::new(60);

    let mut booked = generic_booked_case();
    booked.timestamp = "Bad Timestamp".to_string();

    let updated = history.update(booked);
    assert!(updated.is_err());
    assert_eq!(updated.err(), Some(HistoryError::InvalidTimestamp));
    assert_eq!(history.ask_times().len(), 0);
    assert_eq!(history.bid_times().len(), 0);
}

#[test]
fn test_latest_book() {
    let mut history = BookHistory::new(60);

    let _ = history.update(generic_booked_case());

    let ((asks_time, asks), (bids_time, bids)) = history.get_latest_book();

    assert_eq!(asks_time, 0);
    assert_eq!(bids_time, 0);

    assert_eq!(asks.len(), 2);
    assert_eq!(bids.len(), 2);

    assert_eq!(asks.entries(), vec![(5, 6), (7, 8)]);
    assert_eq!(bids.entries(), vec![(1, 2), (3, 4)]);
}

#[test]
fn test_book_multiple_book_updates() {
    let mut history = BookHistory::new(60);

    let updated = history.update(generic_booked_case());
    assert!(updated.is_ok());
    assert!(!updated.unwrap().is_some());
    assert_eq!(history.ask_times().len(), 1);
    assert_eq!(history.bid_times().len(), 1);

    let updated = history.update(booked_at(60));
    assert!(updated.is_ok());
    assert!(!updated.unwrap().is_some());
    assert_eq!(history.ask_times().len(), 2);
    assert_eq!(history.bid_times().len(), 2);

    let updated = history.update(booked_at(61));
    assert!(updated.is_ok());
    let updated_option = updated.unwrap();
    assert!(updated_option.is_some());

    let ((time_asks, _), (time_bids, _)) = updated_option.unwrap();
    assert_eq!(time_asks, 0);
    assert_eq!(time_bids, 0);

    assert_eq!(history.ask_times().len(), 2);
    assert_eq!(history.bid_times().len(), 2);
}

#[test]
fn test_integrate_window() {
    let mut history = BookHistory::new(60);

    for i_time in 0..60 {
        let updated = history.update(booked_at(i_time));
        assert!(updated.is_ok());
        assert!(!updated.unwrap().is_some());
    }

    let latest = history.get_latest_book();
    assert_eq!(latest.0 .0, 59);
    assert_eq!(latest.1 .0, 59);

    let (integrated_asks, integrated_bids) = history.integrate_window(10, 40);
    assert_eq!(
        integrated_asks,
        (10..41).map(|time| (time, 14u128)).collect::<Vec<_>>()
    );
    assert_eq!(
        integrated_bids,
        (10..41).map(|time| (time, 6u128)).collect::<Vec<_>>()
    );

    let extracted = history.extract_window(15, 35);
    assert_eq!(extracted.time_window_in_seconds(), 20);
    assert_eq!(extracted.ask_times(), (15..36).collect::<Vec<i64>>());
    assert_eq!(extracted.bid_times(), (15..36).collect::<Vec<i64>>());
}

#[test]
fn evicted_snapshots_carry_their_ladders() {
    let mut history = BookHistory::new(60);
    let _ = history.update(booked_at(0));
    let _ = history.update(booked_at(60));
    let evicted = history.update(booked_at(61)).unwrap().unwrap();
    assert_eq!(evicted.0 .1.entries(), vec![(5, 6), (7, 8)]);
    assert_eq!(evicted.1 .1.entries(), vec![(1, 2), (3, 4)]);
    assert_eq!(history.ask_times(), vec![60, 61]);
    assert_eq!(history.bid_times(), vec![60, 61]);
}

#[test]
fn eviction_takes_only_the_oldest_snapshot() {
    let mut history = BookHistory::new(10);
    for t in 0..5 {
        let _ = history.update(booked_at(t));
    }
    let evicted = history.update(booked_at(100)).unwrap().unwrap();
    assert_eq!(evicted.0 .0, 0);
    assert_eq!(evicted.1 .0, 0);
    assert_eq!(history.ask_times(), vec![1, 2, 3, 4, 100]);
}

#[test]
fn deltas_apply_to_the_newest_ladder() {
    let mut history = BookHistory::new(60);
    let _ = history.update(generic_booked_case());
    let delta = Booked {
        symbol: "ETH/EUR".to_string(),
        timestamp: at(1),
        asks: vec![Order { price: 5, quantity: 0 }, Order { price: 9, quantity: 1 }],
        bids: vec![Order { price: 3, quantity: 10 }],
    };
    let updated = history.update(delta);
    assert!(updated.is_ok());
    assert!(updated.unwrap().is_none());
    assert_eq!(history.ask_snapshot(1).unwrap().entries(), vec![(7, 8), (9, 1)]);
    assert_eq!(history.bid_snapshot(1).unwrap().entries(), vec![(1, 2), (3, 10)]);
    assert_eq!(history.ask_snapshot(0).unwrap().entries(), vec![(5, 6), (7, 8)]);
}

#[test]
fn update_at_the_same_time_replaces_the_snapshot() {
    let mut history = BookHistory::new(60);
    let _ = history.update(booked_at(5));
    let again = Booked {
        symbol: "ETH/EUR".to_string(),
        timestamp: at(5),
        asks: vec![Order { price: 7, quantity: 1 }],
        bids: vec![],
    };
    let _ = history.update(again);
    assert_eq!(history.ask_times(), vec![5]);
    assert_eq!(history.ask_snapshot(5).unwrap().entries(), vec![(5, 6), (7, 1)]);
    assert_eq!(history.bid_snapshot(5).unwrap().entries(), vec![(1, 2), (3, 4)]);
}

#[test]
fn update_reads_the_timestamp_in_seconds() {
    let mut history = BookHistory::new(60);
    let mut booked = generic_booked_case();
    booked.timestamp = "1970-01-01T00:01:40+00:00".to_string();
    assert!(history.update(booked).is_ok());
    assert_eq!(history.ask_times(), vec![100]);
}

#[test]
fn update_at_takes_a_known_time() {
    let mut history = BookHistory::new(60);
    let booked = generic_booked_case();
    assert!(history.update_at(-7, &booked).is_ok());
    assert_eq!(history.ask_times(), vec![-7]);
    assert_eq!(history.bid_times(), vec![-7]);
}

#[test]
fn one_sided_payloads_still_evict_together() {
    let mut history = BookHistory::new(10);
    let asks_only = Booked {
        symbol: "ETH/EUR".to_string(),
        timestamp: at(0),
        asks: vec![Order { price: 5, quantity: 6 }],
        bids: vec![],
    };
    assert!(history.update_at(0, &asks_only).is_ok());
    assert_eq!(history.bid_times(), vec![0]);
    let later = generic_booked_case();
    assert!(history.update_at(5, &later).unwrap().is_none());
    let evicted = history.update_at(20, &later).unwrap().unwrap();
    assert_eq!((evicted.0 .0, evicted.1 .0), (0, 0));
    assert_eq!(evicted.0 .1.entries(), vec![(5, 6)]);
    assert_eq!(evicted.1 .1.len(), 0);
    assert_eq!(history.ask_times(), vec![5, 20]);
    assert_eq!(history.bid_times(), vec![5, 20]);
}

#[test]
fn integrate_window_skips_snapshots_outside_the_range() {
    let mut history = BookHistory::new(100);
    for t in [0, 10, 20, 30] {
        let _ = history.update(booked_at(t));
    }
    let (asks, bids) = history.integrate_window(5, 20);
    assert_eq!(asks, vec![(10, 14), (20, 14)]);
    assert_eq!(bids, vec![(10, 6), (20, 6)]);
    let (asks, _) = history.integrate_window(20, 5);
    assert_eq!(asks, vec![]);
}

#[test]
fn extract_window_is_independent_of_the_source() {
    let mut history = BookHistory::new(100);
    for t in [0, 10, 20] {
        let _ = history.update(booked_at(t));
    }
    assert_eq!(history.extract_window(20, 0).ask_times(), vec![]);
    assert_eq!(history.extract_window(20, 0).time_window_in_seconds(), 20);
    let extracted = history.extract_window(0, 20);
    let _ = history.update(booked_at(15));
    assert_eq!(extracted.ask_times(), vec![0, 10, 20]);
    assert_eq!(history.ask_times(), vec![0, 10, 15, 20]);
}

#[test]
fn extract_window_width_saturates() {
    let history = BookHistory::new(1);
    let extracted = history.extract_window(i64::MIN, i64::MAX);
    assert_eq!(extracted.time_window_in_seconds(), usize::MAX);
    let extracted = history.extract_window(0, i64::MAX);
    assert_eq!(extracted.time_window_in_seconds(), i64::MAX as usize);
}

#[test]
fn latest_book_of_one_empty_side() {
    let mut history = BookHistory::new(60);
    let asks_only = Booked {
        symbol: "ETH/EUR".to_string(),
        timestamp: at(3),
        asks: vec![Order { price: 5, quantity: 6 }],
        bids: vec![],
    };
    let _ = history.update(asks_only);
    let ((asks_time, asks), (bids_time, bids)) = history.get_latest_book();
    assert_eq!(asks_time, 3);
    assert_eq!(asks.entries(), vec![(5, 6)]);
    assert_eq!(bids_time, 3);
    assert_eq!(bids.len(), 0);
    let empty = BookHistory::new(60);
    let ((asks_time, _), (bids_time, _)) = empty.get_latest_book();
    assert_eq!((asks_time, bids_time), (0, 0));
}

#[test]
fn lowest_bid_and_highest_ask_span_every_snapshot() {
    let mut history = BookHistory::new(100);
    assert_eq!(history.lowest_bid(), None);
    assert_eq!(history.highest_ask(), None);
    let _ = history.update(booked_at(0));
    let widen = Booked {
        symbol: "ETH/EUR".to_string(),
        timestamp: at(1),
        asks: vec![Order { price: 7, quantity: 0 }, Order { price: 6, quantity: 1 }],
        bids: vec![Order { price: 1, quantity: 0 }],
    };
    let _ = history.update(widen);
    assert_eq!(history.lowest_bid(), Some(1));
    assert_eq!(history.highest_ask(), Some(7));
    assert_eq!(history.ask_snapshot(1).unwrap().entries(), vec![(5, 6), (6, 1)]);
}
