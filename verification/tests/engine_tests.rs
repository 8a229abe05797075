use order_book_dex::book::OrderBook;
use order_book_dex::engine::{
    cancel_limit_order, close_open_orders, match_orders, new_limit_order, required_collateral,
    settle_funds, Trade,
};
use order_book_dex::ledger::Ledger;
use order_book_dex::market::{initialize_market, set_pause};
use order_book_dex::types::{ErrorCode, Order, Side};

struct World {
    market: order_book_dex::market::Market,
    bids: OrderBook,
    asks: OrderBook,
    ledger: Ledger,
}

fn world(maker_fee_bps: u16, taker_fee_bps: u16, tick: u64, lot: u64) -> World {
    World {
        market: initialize_market(maker_fee_bps, taker_fee_bps, tick, lot, None, None).unwrap(),
        bids: OrderBook::initialize(64, true),
        asks: OrderBook::initialize(64, false),
        ledger: Ledger::new(),
    }
}

fn balances(ledger: &Ledger, owner: u64) -> (u64, u64, u64, u64) {
    let i = ledger.find_entry(owner).unwrap();
    let e = &ledger.entries[i];
    (
        e.base_token_free,
        e.quote_token_free,
        e.base_token_locked,
        e.quote_token_locked,
    )
}

fn submit(w: &mut World, owner: u64, side: Side, price: u64, qty: u64) -> Result<u64, ErrorCode> {
    new_limit_order(&mut w.market, &mut w.bids, &mut w.asks, &mut w.ledger, owner, side, price, qty)
        .map(|r| r.order_id)
}

fn run_match(w: &mut World, limit: u64) -> Vec<Trade> {
    let report = match_orders(&w.market, &mut w.bids, &mut w.asks, &mut w.ledger, limit);
    assert!(report.error.is_none());
    report.trades
}

#[test]
fn price_time_priority_scenario() {
    // Book capacity 64, tick 1, lot 1. Two bids at 100, then a crossing ask.
    let mut w = world(0, 0, 1, 1);
    let id1 = submit(&mut w, 1, Side::Bid, 100, 10).unwrap();
    let id2 = submit(&mut w, 2, Side::Bid, 100, 5).unwrap();
    assert_eq!(id1, 1);
    assert_eq!(id2, 2);
    assert_eq!(w.bids.get_best_price_order().unwrap().order_id, 1);

    let id3 = submit(&mut w, 3, Side::Ask, 100, 8).unwrap();
    assert_eq!(id3, 3);

    let trades = run_match(&mut w, 1);
    assert_eq!(trades.len(), 1);
    let t = &trades[0];
    assert!(t.maker_is_bid); // id 1 < id 3
    assert_eq!(t.price, 100);
    assert_eq!(t.base_qty, 8);

    // The bid is partially filled in place: still at the head, qty 2.
    let best = w.bids.get_best_price_order().unwrap();
    assert_eq!(best.order_id, 1);
    assert_eq!(best.base_qty, 2);
    // The ask is fully filled and removed; its book is empty.
    assert!(w.asks.get_best_price_order().is_none());
    assert_eq!(w.asks.count, 0);
}

#[test]
fn tick_alignment_rejected() {
    // price 101 with tick 10 is not on the grid.
    let mut w = world(0, 0, 10, 1);
    let r = submit(&mut w, 1, Side::Bid, 101, 5);
    assert_eq!(r, Err(ErrorCode::InvalidTickSize));
    assert_eq!(w.bids.count, 0);
    assert_eq!(w.market.order_sequence_number, 0);
}

#[test]
fn lot_alignment_and_zero_inputs_rejected() {
    let mut w = world(0, 0, 1, 10);
    assert_eq!(submit(&mut w, 1, Side::Ask, 5, 11), Err(ErrorCode::InvalidLotSize));
    assert_eq!(submit(&mut w, 1, Side::Ask, 0, 10), Err(ErrorCode::InvalidOrderInput));
    assert_eq!(submit(&mut w, 1, Side::Ask, 5, 0), Err(ErrorCode::InvalidOrderInput));
    assert_eq!(submit(&mut w, 1, Side::Ask, 5, 10), Ok(1));
}

#[test]
fn paused_market_rejects_orders() {
    let mut w = world(0, 0, 1, 1);
    set_pause(&mut w.market, true);
    assert_eq!(submit(&mut w, 1, Side::Bid, 100, 1), Err(ErrorCode::Paused));
    set_pause(&mut w.market, false);
    assert!(submit(&mut w, 1, Side::Bid, 100, 1).is_ok());
}

#[test]
fn bid_submission_locks_notional_plus_taker_fee() {
    // price 2.0 (scaled by 1e6), qty 3_000_000: notional 6_000_000;
    // taker fee at 20 bps: 12_000. Locked: 6_012_000.
    let mut w = world(10, 20, 1, 1);
    let receipt = new_limit_order(
        &mut w.market, &mut w.bids, &mut w.asks, &mut w.ledger,
        1, Side::Bid, 2_000_000, 3_000_000,
    )
    .unwrap();
    assert_eq!(receipt.collateral_locked, 6_012_000);
    assert_eq!(balances(&w.ledger, 1), (0, 0, 0, 6_012_000));
}

#[test]
fn ask_submission_locks_base_quantity() {
    let mut w = world(10, 20, 1, 1);
    let receipt = new_limit_order(
        &mut w.market, &mut w.bids, &mut w.asks, &mut w.ledger,
        2, Side::Ask, 2_000_000, 3_000_000,
    )
    .unwrap();
    assert_eq!(receipt.collateral_locked, 3_000_000);
    assert_eq!(balances(&w.ledger, 2), (0, 0, 3_000_000, 0));
}

#[test]
fn match_settles_conservation_exactly() {
    // Maker bid at 2.0 for 3_000_000 base; taker ask at the same price.
    // Notional 6_000_000; maker fee 10 bps = 6_000; taker fee 20 bps = 12_000.
    let mut w = world(10, 20, 1, 1);
    submit(&mut w, 1, Side::Bid, 2_000_000, 3_000_000).unwrap();
    submit(&mut w, 2, Side::Ask, 2_000_000, 3_000_000).unwrap();

    let trades = run_match(&mut w, 10);
    assert_eq!(trades.len(), 1);
    let t = &trades[0];
    assert!(t.maker_is_bid);
    assert_eq!(t.price, 2_000_000);
    assert_eq!(t.base_qty, 3_000_000);
    assert_eq!(t.quote_qty, 6_000_000);
    assert_eq!(t.maker_fee, 6_000);
    assert_eq!(t.taker_fee, 12_000);

    // Taker (asker): base locked fell by the traded quantity; proceeds net
    // of its fee landed in free quote.
    assert_eq!(balances(&w.ledger, 2), (0, 5_988_000, 0, 0));
    // Maker (bidder): everything it reserved was consumed; the rebate is the
    // fee difference, 12_000 reserved minus 6_000 charged.
    assert_eq!(balances(&w.ledger, 1), (3_000_000, 6_000, 0, 0));

    // Both books are empty; both open-order sets are clear.
    assert!(w.bids.get_best_price_order().is_none());
    assert!(w.asks.get_best_price_order().is_none());
}

#[test]
fn maker_price_improvement_is_refunded() {
    // Maker bid quoted 3.0 but trades at the taker's 2.0: the quote
    // difference comes back on top of the fee difference.
    // Reserved: 9_000_000 + 18_000. Consumed: 6_000_000 + 6_000.
    let mut w = world(10, 20, 1, 1);
    submit(&mut w, 1, Side::Bid, 3_000_000, 3_000_000).unwrap();
    submit(&mut w, 2, Side::Ask, 2_000_000, 3_000_000).unwrap();

    let trades = run_match(&mut w, 10);
    assert_eq!(trades.len(), 1);
    assert_eq!(trades[0].price, 2_000_000);
    let rebate = 9_018_000u64 - 6_000_000 - 6_000;
    assert_eq!(balances(&w.ledger, 1), (3_000_000, rebate, 0, 0));
}

#[test]
fn taker_bid_pays_notional_plus_fee() {
    // The resting ask is the maker (smaller id); the trade executes at the
    // taker's price, 3.0, which is better than the 2.0 the maker quoted.
    // Notional 9_000_000; maker fee 10 bps = 9_000; taker fee 20 bps = 18_000.
    let mut w = world(10, 20, 1, 1);
    submit(&mut w, 2, Side::Ask, 2_000_000, 3_000_000).unwrap();
    submit(&mut w, 1, Side::Bid, 3_000_000, 3_000_000).unwrap();

    let trades = run_match(&mut w, 10);
    assert_eq!(trades.len(), 1);
    let t = &trades[0];
    assert!(!t.maker_is_bid);
    assert_eq!(t.price, 3_000_000);
    assert_eq!(t.quote_qty, 9_000_000);
    // Taker bid locked 9_000_000 + 18_000 at placement and paid exactly
    // notional + taker fee: its locked quote goes to zero.
    assert_eq!(balances(&w.ledger, 1), (3_000_000, 0, 0, 0));
    // Maker ask: quantity released from base locked, proceeds net of the
    // maker fee credited to free quote.
    assert_eq!(balances(&w.ledger, 2), (0, 8_991_000, 0, 0));
}

#[test]
fn partial_fill_keeps_priority_and_iterates() {
    let mut w = world(0, 0, 1, 1);
    submit(&mut w, 1, Side::Bid, 2_000_000, 5_000_000).unwrap();
    submit(&mut w, 2, Side::Ask, 2_000_000, 2_000_000).unwrap();
    submit(&mut w, 3, Side::Ask, 2_000_000, 2_000_000).unwrap();

    let trades = run_match(&mut w, 10);
    assert_eq!(trades.len(), 2);
    assert_eq!(trades[0].base_qty, 2_000_000);
    assert_eq!(trades[1].base_qty, 2_000_000);
    let best = w.bids.get_best_price_order().unwrap();
    assert_eq!(best.order_id, 1);
    assert_eq!(best.base_qty, 1_000_000);
    assert!(w.asks.get_best_price_order().is_none());
}

#[test]
fn match_limit_bounds_work() {
    let mut w = world(0, 0, 1, 1);
    submit(&mut w, 1, Side::Bid, 2_000_000, 4_000_000).unwrap();
    submit(&mut w, 2, Side::Ask, 2_000_000, 2_000_000).unwrap();
    submit(&mut w, 3, Side::Ask, 2_000_000, 2_000_000).unwrap();
    let trades = run_match(&mut w, 1);
    assert_eq!(trades.len(), 1);
    // One crossing is still open; a second call finishes it.
    let trades = run_match(&mut w, 1);
    assert_eq!(trades.len(), 1);
    let trades = run_match(&mut w, 1);
    assert_eq!(trades.len(), 0);
}

#[test]
fn spread_means_no_trade() {
    let mut w = world(0, 0, 1, 1);
    submit(&mut w, 1, Side::Bid, 1_000_000, 1_000_000).unwrap();
    submit(&mut w, 2, Side::Ask, 2_000_000, 1_000_000).unwrap();
    let trades = run_match(&mut w, 10);
    assert_eq!(trades.len(), 0);
    assert_eq!(w.bids.count, 1);
    assert_eq!(w.asks.count, 1);
}

#[test]
fn self_trade_is_refused_not_skipped() {
    let mut w = world(0, 0, 1, 1);
    submit(&mut w, 1, Side::Bid, 2_000_000, 1_000_000).unwrap();
    submit(&mut w, 1, Side::Ask, 2_000_000, 1_000_000).unwrap();
    let r = match_orders(&w.market, &mut w.bids, &mut w.asks, &mut w.ledger, 10);
    assert_eq!(r.error, Some(ErrorCode::SelfTradeForbidden));
    // Nothing was committed.
    assert_eq!(r.trades.len(), 0);
    assert_eq!(w.bids.count, 1);
    assert_eq!(w.asks.count, 1);
    assert_eq!(balances(&w.ledger, 1), (0, 0, 1_000_000, 2_000_000));
}

#[test]
fn error_keeps_earlier_trades_committed() {
    // The first crossing settles; the second is a self-trade and stops the
    // loop. The report carries the committed trade beside the error.
    let mut w = world(0, 0, 1, 1);
    submit(&mut w, 1, Side::Bid, 2_000_000, 2_000_000).unwrap();
    submit(&mut w, 3, Side::Bid, 2_000_000, 1_000_000).unwrap();
    submit(&mut w, 2, Side::Ask, 2_000_000, 2_000_000).unwrap();
    submit(&mut w, 3, Side::Ask, 2_000_000, 1_000_000).unwrap();

    let r = match_orders(&w.market, &mut w.bids, &mut w.asks, &mut w.ledger, 10);
    assert_eq!(r.error, Some(ErrorCode::SelfTradeForbidden));
    assert_eq!(r.trades.len(), 1);
    assert_eq!(r.trades[0].base_qty, 2_000_000);
    // The first trade's settlement persists; the colliding orders rest.
    assert_eq!(balances(&w.ledger, 1), (2_000_000, 0, 0, 0));
    assert_eq!(w.bids.count, 1);
    assert_eq!(w.asks.count, 1);
}

#[test]
fn unknown_maker_account_is_refused() {
    let mut w = world(0, 0, 1, 1);
    // Orders placed directly into the books, for owners the ledger never saw.
    w.bids
        .add_order(Order { owner_account: 7, order_id: 1, price: 100, base_qty: 1 })
        .unwrap();
    w.asks
        .add_order(Order { owner_account: 8, order_id: 2, price: 100, base_qty: 1 })
        .unwrap();
    let r = match_orders(&w.market, &mut w.bids, &mut w.asks, &mut w.ledger, 10);
    assert_eq!(r.error, Some(ErrorCode::InvalidMakerAccount));
    assert_eq!(r.trades.len(), 0);
}

#[test]
fn cancel_bid_unlocks_collateral() {
    let mut w = world(10, 20, 1, 1);
    let id = submit(&mut w, 1, Side::Bid, 2_000_000, 3_000_000).unwrap();
    assert_eq!(balances(&w.ledger, 1), (0, 0, 0, 6_012_000));
    cancel_limit_order(&w.market, &mut w.bids, &mut w.asks, &mut w.ledger, 1, id).unwrap();
    assert_eq!(balances(&w.ledger, 1), (0, 6_012_000, 0, 0));
    assert_eq!(w.bids.count, 0);
}

#[test]
fn cancel_ask_unlocks_base() {
    let mut w = world(10, 20, 1, 1);
    let id = submit(&mut w, 2, Side::Ask, 2_000_000, 3_000_000).unwrap();
    cancel_limit_order(&w.market, &mut w.bids, &mut w.asks, &mut w.ledger, 2, id).unwrap();
    assert_eq!(balances(&w.ledger, 2), (3_000_000, 0, 0, 0));
    assert_eq!(w.asks.count, 0);
}

#[test]
fn cancel_twice_fails_second_time_and_changes_nothing() {
    let mut w = world(0, 0, 1, 1);
    submit(&mut w, 1, Side::Bid, 100, 10).unwrap();
    let id = submit(&mut w, 1, Side::Bid, 200, 5).unwrap();
    cancel_limit_order(&w.market, &mut w.bids, &mut w.asks, &mut w.ledger, 1, id).unwrap();
    let count_after_first = w.bids.count;
    let best_after_first = w.bids.get_best_price_order();
    let balances_after_first = balances(&w.ledger, 1);

    let second = cancel_limit_order(&w.market, &mut w.bids, &mut w.asks, &mut w.ledger, 1, id);
    assert_eq!(second, Err(ErrorCode::OrderNotFound));
    assert_eq!(w.bids.count, count_after_first);
    assert_eq!(w.bids.get_best_price_order(), best_after_first);
    assert_eq!(balances(&w.ledger, 1), balances_after_first);
}

#[test]
fn cancel_checks_ownership() {
    let mut w = world(0, 0, 1, 1);
    let id = submit(&mut w, 1, Side::Bid, 100, 10).unwrap();
    let r = cancel_limit_order(&w.market, &mut w.bids, &mut w.asks, &mut w.ledger, 2, id);
    assert_eq!(r, Err(ErrorCode::Unauthorized));
    assert_eq!(w.bids.count, 1);
}

#[test]
fn cancel_unknown_id_is_not_found() {
    let mut w = world(0, 0, 1, 1);
    submit(&mut w, 1, Side::Bid, 100, 10).unwrap();
    let r = cancel_limit_order(&w.market, &mut w.bids, &mut w.asks, &mut w.ledger, 1, 99);
    assert_eq!(r, Err(ErrorCode::OrderNotFound));
}

#[test]
fn cancel_order_missing_from_open_set() {
    let mut w = world(0, 0, 1, 1);
    submit(&mut w, 1, Side::Bid, 100, 10).unwrap();
    // An order of the same owner smuggled into the book without being
    // listed on the ledger entry.
    w.asks
        .add_order(Order { owner_account: 1, order_id: 50, price: 500, base_qty: 1 })
        .unwrap();
    let r = cancel_limit_order(&w.market, &mut w.bids, &mut w.asks, &mut w.ledger, 1, 50);
    assert_eq!(r, Err(ErrorCode::OrderNotFoundInOpenOrders));
}

#[test]
fn open_orders_capacity_is_sixteen() {
    let mut w = world(0, 0, 1, 1);
    for i in 0..16u64 {
        submit(&mut w, 1, Side::Bid, 100 + i, 1).unwrap();
    }
    let r = submit(&mut w, 1, Side::Bid, 200, 1);
    assert_eq!(r, Err(ErrorCode::OpenOrdersFull));
    // Another participant is unaffected.
    assert!(submit(&mut w, 2, Side::Bid, 300, 1).is_ok());
}

#[test]
fn submission_overflow_is_rejected() {
    let mut w = world(0, 0, 1, 1);
    let r = submit(&mut w, 1, Side::Bid, u64::MAX, u64::MAX);
    assert_eq!(r, Err(ErrorCode::MathOverflow));
    assert_eq!(w.bids.count, 0);
    assert_eq!(w.market.order_sequence_number, 0);
}

#[test]
fn required_collateral_names_the_reservation() {
    let w = world(10, 20, 1, 1);
    assert_eq!(
        required_collateral(&w.market, Side::Bid, 2_000_000, 3_000_000),
        Ok(6_012_000)
    );
    assert_eq!(
        required_collateral(&w.market, Side::Ask, 2_000_000, 3_000_000),
        Ok(3_000_000)
    );
    assert_eq!(
        required_collateral(&w.market, Side::Bid, u64::MAX, u64::MAX),
        Err(ErrorCode::MathOverflow)
    );
}

#[test]
fn settle_funds_pays_out_free_balances() {
    let mut w = world(10, 20, 1, 1);
    submit(&mut w, 1, Side::Bid, 2_000_000, 3_000_000).unwrap();
    submit(&mut w, 2, Side::Ask, 2_000_000, 3_000_000).unwrap();
    run_match(&mut w, 10);

    let (base, quote) = settle_funds(&mut w.ledger, 2);
    assert_eq!((base, quote), (0, 5_988_000));
    assert_eq!(balances(&w.ledger, 2), (0, 0, 0, 0));
    // A second settlement finds nothing left.
    assert_eq!(settle_funds(&mut w.ledger, 2), (0, 0));
    // An unknown owner settles nothing.
    assert_eq!(settle_funds(&mut w.ledger, 99), (0, 0));
}

#[test]
fn close_open_orders_requires_empty_entry() {
    let mut w = world(10, 20, 1, 1);
    submit(&mut w, 1, Side::Bid, 2_000_000, 3_000_000).unwrap();
    submit(&mut w, 2, Side::Ask, 2_000_000, 3_000_000).unwrap();
    run_match(&mut w, 10);

    // Owner 2 still holds free quote.
    assert_eq!(
        close_open_orders(&mut w.ledger, 2),
        Err(ErrorCode::OpenOrdersAccountNotEmpty)
    );
    settle_funds(&mut w.ledger, 2);
    assert_eq!(close_open_orders(&mut w.ledger, 2), Ok(()));
    assert!(w.ledger.find_entry(2).is_none());
    // Unknown owners cannot be closed.
    assert_eq!(close_open_orders(&mut w.ledger, 2), Err(ErrorCode::OrderNotFound));
}

#[test]
fn close_open_orders_refuses_while_orders_rest() {
    let mut w = world(0, 0, 1, 1);
    // Lock-free world (zero notional at these sizes), but an order rests.
    submit(&mut w, 1, Side::Bid, 100, 10).unwrap();
    assert_eq!(
        close_open_orders(&mut w.ledger, 1),
        Err(ErrorCode::OpenOrdersAccountNotEmpty)
    );
}
