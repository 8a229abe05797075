use order_book_dex::ledger::OpenOrders;
use order_book_dex::market::{initialize_market, set_fees, set_pause};
use order_book_dex::types::{ErrorCode, DEFAULT_MIN_BASE_QTY, DEFAULT_MIN_NOTIONAL, PROGRAM_VERSION};

#[test]
fn market_defaults_and_fields() {
    let m = initialize_market(10, 20, 5, 100, None, None).unwrap();
    assert_eq!(m.version, PROGRAM_VERSION);
    assert_eq!(m.order_sequence_number, 0);
    assert_eq!(m.maker_fee_bps, 10);
    assert_eq!(m.taker_fee_bps, 20);
    assert!(!m.paused);
    assert_eq!(m.tick_size, 5);
    assert_eq!(m.base_lot_size, 100);
    assert_eq!(m.min_base_qty, DEFAULT_MIN_BASE_QTY);
    assert_eq!(m.min_notional, DEFAULT_MIN_NOTIONAL);

    let m2 = initialize_market(0, 0, 1, 1, Some(7), Some(9)).unwrap();
    assert_eq!(m2.min_base_qty, 7);
    assert_eq!(m2.min_notional, 9);
}

#[test]
fn market_rejects_bad_fees_and_params() {
    assert_eq!(
        initialize_market(10_001, 10_001, 1, 1, None, None),
        Err(ErrorCode::InvalidFee)
    );
    assert_eq!(
        initialize_market(0, 10_001, 1, 1, None, None),
        Err(ErrorCode::InvalidFee)
    );
    // A maker rate above the taker rate would let the rebate go negative.
    assert_eq!(
        initialize_market(30, 20, 1, 1, None, None),
        Err(ErrorCode::InvalidFee)
    );
    assert_eq!(
        initialize_market(0, 0, 0, 1, None, None),
        Err(ErrorCode::InvalidMarketParams)
    );
    assert_eq!(
        initialize_market(0, 0, 1, 0, None, None),
        Err(ErrorCode::InvalidMarketParams)
    );
}

#[test]
fn set_fees_validates_like_creation() {
    let mut m = initialize_market(10, 20, 1, 1, None, None).unwrap();
    assert_eq!(set_fees(&mut m, 30, 20), Err(ErrorCode::InvalidFee));
    assert_eq!(m.maker_fee_bps, 10);
    set_fees(&mut m, 5, 15).unwrap();
    assert_eq!((m.maker_fee_bps, m.taker_fee_bps), (5, 15));
}

#[test]
fn pause_flag_toggles() {
    let mut m = initialize_market(0, 0, 1, 1, None, None).unwrap();
    set_pause(&mut m, true);
    assert!(m.paused);
    set_pause(&mut m, false);
    assert!(!m.paused);
}

#[test]
fn open_orders_slots_fill_and_free() {
    let mut e = OpenOrders::new(9);
    assert_eq!(e.owner, 9);
    assert_eq!(e.find_free_slot(), Some(0));
    for i in 0..16u64 {
        e.add_order(100 + i).unwrap();
    }
    assert_eq!(e.find_free_slot(), None);
    assert_eq!(e.add_order(999), Err(ErrorCode::OpenOrdersFull));
    assert!(e.contains_order(107));
    e.remove_order(107).unwrap();
    assert!(!e.contains_order(107));
    assert_eq!(e.find_free_slot(), Some(7));
    // Removing the same id again fails.
    assert_eq!(e.remove_order(107), Err(ErrorCode::OrderNotFoundInOpenOrders));
    assert!(e.has_open_orders());
}
