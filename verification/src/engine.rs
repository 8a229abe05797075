//! The matching engine and the order lifecycle around it: submission with
//! collateral locking, cancellation with unlocking, best-bid/best-ask
//! crossing with fee and rebate settlement, and fund withdrawal.

use vstd::prelude::*;
use vstd::arithmetic::div_mod::lemma_div_is_ordered;
use vstd::arithmetic::mul::lemma_mul_inequality;
use crate::types::{ErrorCode, Order, Side, BPS_DENOMINATOR, PRICE_SCALE, SENTINEL};
use crate::book::{insert_pos, OrderBook};
use crate::ledger::{Ledger, OpenOrders};
use crate::market::Market;

verus! {

/// Quote value of a fill: `floor(price * qty / PRICE_SCALE)`.
pub open spec fn notional_of(price: u64, qty: u64) -> int {
    (price as int) * (qty as int) / (PRICE_SCALE as int)
}

/// Fee on a realized amount at a rate in basis points.
pub open spec fn fee_of(amount: int, bps: u16) -> int {
    amount * (bps as int) / (BPS_DENOMINATOR as int)
}

/// Quote collateral a resting bid reserves for `qty` at its own price: the
/// notional plus the taker fee it would owe if it later crossed.
pub open spec fn bid_lock_amount(price: u64, qty: u64, taker_fee_bps: u16) -> int {
    notional_of(price, qty) + fee_of(notional_of(price, qty), taker_fee_bps)
}

/// Collateral an order of either side reserves: quote for a bid, the base
/// quantity itself for an ask.
pub open spec fn lock_amount(side: Side, price: u64, qty: u64, taker_fee_bps: u16) -> int {
    if side == Side::Bid {
        bid_lock_amount(price, qty, taker_fee_bps)
    } else {
        qty as int
    }
}

/// Wide multiply-then-scale, exact per `notional_of`.
fn notional_wide(price: u64, qty: u64) -> (r: u128)
    ensures
        r as int == notional_of(price, qty),
        r as int <= (u64::MAX as int) * (u64::MAX as int) / (PRICE_SCALE as int),
{
    proof {
        assert((price as int) * (qty as int) <= (u64::MAX as int) * (u64::MAX as int))
            by (nonlinear_arith)
            requires 0 <= price as int <= u64::MAX as int && 0 <= qty as int <= u64::MAX as int;
        lemma_div_is_ordered((price as int) * (qty as int),
            (u64::MAX as int) * (u64::MAX as int), PRICE_SCALE as int);
    }
    (price as u128) * (qty as u128) / (PRICE_SCALE as u128)
}

/// Wide fee computation, exact per `fee_of`; never more than the amount when
/// the rate is at most 100%.
fn fee_wide(amount: u128, bps: u16) -> (r: u128)
    requires
        amount as int <= (u64::MAX as int) * (u64::MAX as int) / (PRICE_SCALE as int),
        bps as int <= BPS_DENOMINATOR as int,
    ensures
        r as int == fee_of(amount as int, bps),
        r <= amount,
{
    proof {
        assert((amount as int) * (bps as int) <= u128::MAX as int) by (nonlinear_arith)
            requires
                amount as int <= (u64::MAX as int) * (u64::MAX as int) / (PRICE_SCALE as int),
                bps as int <= BPS_DENOMINATOR as int,
                amount as int >= 0;
        assert(fee_of(amount as int, bps) <= amount as int) by (nonlinear_arith)
            requires amount as int >= 0 && 0 <= bps as int <= BPS_DENOMINATOR as int;
    }
    amount * (bps as u128) / (BPS_DENOMINATOR as u128)
}

/// The verdict of input validation at submission, in check order.
pub open spec fn submit_input_error(market: Market, price: u64, quantity: u64) -> Option<ErrorCode> {
    if market.paused {
        Some(ErrorCode::Paused)
    } else if price == 0 || quantity == 0 {
        Some(ErrorCode::InvalidOrderInput)
    } else if price % market.tick_size != 0 {
        Some(ErrorCode::InvalidTickSize)
    } else if quantity % market.base_lot_size != 0 {
        Some(ErrorCode::InvalidLotSize)
    } else {
        None
    }
}

/// Every order id in the books and on the ledger was drawn from the market's
/// sequence, so the next draw is fresh everywhere.
pub open spec fn ids_bounded(seq: u64, bids: &OrderBook, asks: &OrderBook, ledger: &Ledger) -> bool {
    &&& forall|k: int| 0 <= k < bids.orders().len()
            ==> (#[trigger] bids.orders()[k]).order_id <= seq
    &&& forall|k: int| 0 <= k < asks.orders().len()
            ==> (#[trigger] asks.orders()[k]).order_id <= seq
    &&& forall|i: int, x: u64| 0 <= i < ledger.len() && #[trigger] ledger.entry(i).holds_id(x)
            ==> x <= seq
}

/// No order id lives in both books at once.
pub open spec fn books_ids_disjoint(bids: &OrderBook, asks: &OrderBook) -> bool {
    forall|k1: int, k2: int| 0 <= k1 < bids.orders().len() && 0 <= k2 < asks.orders().len()
        ==> (#[trigger] bids.orders()[k1]).order_id != (#[trigger] asks.orders()[k2]).order_id
}

/// The well-formedness every engine call expects of its world: a valid
/// market, a bid book and an ask book sharing no order id, and a ledger of
/// unique owners.
pub open spec fn world_wf(market: Market, bids: &OrderBook, asks: &OrderBook, ledger: &Ledger) -> bool {
    &&& market.wf()
    &&& bids.wf()
    &&& asks.wf()
    &&& bids.is_bids
    &&& !asks.is_bids
    &&& books_ids_disjoint(bids, asks)
    &&& ledger.wf()
}

/// What the host must move into custody after a successful submission.
#[derive(Clone, Copy, Debug, PartialEq, Eq, Structural)]
pub struct OrderReceipt {
    pub order_id: u64,
    pub collateral_locked: u64,
}

impl Ledger {
    /// Index of the owner's entry; meaningful only when `has_owner`.
    pub open spec fn index_of_owner(&self, owner: u64) -> int {
        choose|i: int| 0 <= i < self.len() && (#[trigger] self.entry(i)).owner == owner
    }

    /// The owner's entry; meaningful only when `has_owner`.
    pub open spec fn entry_of(&self, owner: u64) -> OpenOrders {
        self.entry(self.index_of_owner(owner))
    }

    /// Collateral already locked for this owner on the given side's asset;
    /// zero when the owner has no entry yet.
    pub open spec fn locked_of(&self, owner: u64, side: Side) -> u64 {
        if self.has_owner(owner) {
            if side == Side::Bid {
                self.entry_of(owner).quote_token_locked
            } else {
                self.entry_of(owner).base_token_locked
            }
        } else {
            0
        }
    }

    /// Does the owner's open-order set exist and have no room left?
    pub open spec fn entry_full(&self, owner: u64) -> bool {
        self.has_owner(owner)
            && forall|s: int| 0 <= s < self.entry_of(owner).slots() ==> self.entry_of(owner).active(s)
    }

    /// Free base balance of the owner; zero when the owner has no entry yet.
    pub open spec fn free_base_of(&self, owner: u64) -> u64 {
        if self.has_owner(owner) { self.entry_of(owner).base_token_free } else { 0 }
    }

    /// Free quote balance of the owner; zero when the owner has no entry yet.
    pub open spec fn free_quote_of(&self, owner: u64) -> u64 {
        if self.has_owner(owner) { self.entry_of(owner).quote_token_free } else { 0 }
    }

    /// Does the owner's entry list `id` among its open orders?
    pub open spec fn holds_of(&self, owner: u64, id: u64) -> bool {
        self.has_owner(owner) && self.entry_of(owner).holds_id(id)
    }
}

/// The verdict of the whole submission path, in check order: input
/// validation, collateral arithmetic, book capacity, open-order capacity.
pub open spec fn submit_error(
    market: Market,
    book_len: int,
    book_cap: int,
    locked: u64,
    entry_full: bool,
    side: Side,
    price: u64,
    quantity: u64,
) -> Option<ErrorCode> {
    match submit_input_error(market, price, quantity) {
        Some(e) => Some(e),
        None => {
            if lock_amount(side, price, quantity, market.taker_fee_bps) + locked as int
                > u64::MAX as int {
                Some(ErrorCode::MathOverflow)
            } else if book_len == book_cap {
                Some(ErrorCode::OrderBookFull)
            } else if entry_full {
                Some(ErrorCode::OpenOrdersFull)
            } else {
                None
            }
        },
    }
}

/// Do the two best orders cross?
pub open spec fn crossing(bid: Order, ask: Order) -> bool {
    bid.price >= ask.price
}

/// The earlier-submitted of the two crossing orders is the maker.
pub open spec fn maker_bid(bid: Order, ask: Order) -> bool {
    bid.order_id < ask.order_id
}

/// A trade executes at the taker's price, which is no worse for the maker
/// than its own quote.
pub open spec fn trade_price(bid: Order, ask: Order) -> u64 {
    if maker_bid(bid, ask) {
        ask.price
    } else {
        bid.price
    }
}

/// A trade fills the smaller of the two remaining quantities.
pub open spec fn trade_qty(bid: Order, ask: Order) -> u64 {
    if bid.base_qty <= ask.base_qty {
        bid.base_qty
    } else {
        ask.base_qty
    }
}

/// Quote value of the trade.
pub open spec fn trade_notional(bid: Order, ask: Order) -> int {
    notional_of(trade_price(bid, ask), trade_qty(bid, ask))
}

/// What a maker bid reserved covers what the trade consumes: the trade price
/// is no higher than the maker's own price and the maker fee rate no higher
/// than the taker rate it reserved for, so the rebate is non-negative.
pub proof fn lemma_rebate_nonnegative(maker_price: u64, px: u64, qty: u64, maker_bps: u16, taker_bps: u16)
    requires
        px <= maker_price,
        maker_bps <= taker_bps,
        taker_bps as int <= BPS_DENOMINATOR as int,
    ensures
        bid_lock_amount(maker_price, qty, taker_bps)
            >= notional_of(px, qty) + fee_of(notional_of(px, qty), maker_bps),
        notional_of(px, qty) >= 0,
        fee_of(notional_of(px, qty), maker_bps) >= 0,
{
    let nt = notional_of(px, qty);
    let nm = notional_of(maker_price, qty);
    lemma_mul_inequality(px as int, maker_price as int, qty as int);
    lemma_div_is_ordered((px as int) * (qty as int), (maker_price as int) * (qty as int),
        PRICE_SCALE as int);
    lemma_div_is_ordered(0, (px as int) * (qty as int), PRICE_SCALE as int);
    assert((px as int) * (qty as int) >= 0) by (nonlinear_arith)
        requires px as int >= 0 && qty as int >= 0;
    assert(0 <= nt <= nm);
    assert(nt * (maker_bps as int) <= nm * (taker_bps as int)) by (nonlinear_arith)
        requires 0 <= nt <= nm && 0 <= maker_bps as int <= taker_bps as int;
    assert(nt * (maker_bps as int) >= 0) by (nonlinear_arith)
        requires nt >= 0 && maker_bps as int >= 0;
    lemma_div_is_ordered(nt * (maker_bps as int), nm * (taker_bps as int), BPS_DENOMINATOR as int);
    lemma_div_is_ordered(0, nt * (maker_bps as int), BPS_DENOMINATOR as int);
}

/// Does one settlement step leave the machine range anywhere? Read with the
/// taker and maker roles fixed by `maker_bid`; every sum must land in 64
/// bits and every subtraction must stay non-negative.
pub open spec fn match_overflows(bid: Order, ask: Order, bidder: OpenOrders, asker: OpenOrders, maker_fee_bps: u16, taker_fee_bps: u16) -> bool {
    let q = trade_qty(bid, ask);
    let n = trade_notional(bid, ask);
    let mf = fee_of(n, maker_fee_bps);
    let tf = fee_of(n, taker_fee_bps);
    if maker_bid(bid, ask) {
        let orig = bid_lock_amount(bid.price, q, taker_fee_bps);
        ||| n > u64::MAX as int
        ||| mf + tf > u64::MAX as int
        ||| (asker.base_token_locked as int) < q as int
        ||| asker.quote_token_free as int + (n - tf) > u64::MAX as int
        ||| bidder.base_token_free as int + q as int > u64::MAX as int
        ||| orig > u64::MAX as int
        ||| (bidder.quote_token_locked as int) < orig
        ||| bidder.quote_token_free as int + (orig - n - mf) > u64::MAX as int
    } else {
        ||| n > u64::MAX as int
        ||| mf + tf > u64::MAX as int
        ||| n + tf > u64::MAX as int
        ||| (bidder.quote_token_locked as int) < n + tf
        ||| bidder.base_token_free as int + q as int > u64::MAX as int
        ||| (asker.base_token_locked as int) < q as int
        ||| asker.quote_token_free as int + (n - mf) > u64::MAX as int
    }
}

/// The verdict of one matching step once both books are non-empty and the
/// best orders cross, in check order: the self-trade guard, the two ledger
/// lookups, the settlement arithmetic, and the open-order listings of any
/// fully filled order.
pub open spec fn match_one_error(market: Market, bids: &OrderBook, asks: &OrderBook, ledger: &Ledger) -> Option<ErrorCode> {
    let bid = bids.orders()[0];
    let ask = asks.orders()[0];
    if bid.owner_account == ask.owner_account {
        Some(ErrorCode::SelfTradeForbidden)
    } else if !ledger.has_owner(bid.owner_account) || !ledger.has_owner(ask.owner_account) {
        Some(ErrorCode::InvalidMakerAccount)
    } else if match_overflows(bid, ask, ledger.entry_of(bid.owner_account),
        ledger.entry_of(ask.owner_account), market.maker_fee_bps, market.taker_fee_bps) {
        Some(ErrorCode::MathOverflow)
    } else if (trade_qty(bid, ask) == bid.base_qty
            && !ledger.entry_of(bid.owner_account).holds_id(bid.order_id))
        || (trade_qty(bid, ask) == ask.base_qty
            && !ledger.entry_of(ask.owner_account).holds_id(ask.order_id)) {
        Some(ErrorCode::OrderNotFoundInOpenOrders)
    } else {
        None
    }
}

/// One committed crossing, as reported to the host: who traded, at what
/// terms, and what fees the host must sweep to its fee destination.
#[derive(Clone, Copy, Debug, PartialEq, Eq, Structural)]
pub struct Trade {
    pub maker_is_bid: bool,
    pub bid_owner: u64,
    pub ask_owner: u64,
    pub bid_order_id: u64,
    pub ask_order_id: u64,
    pub price: u64,
    pub base_qty: u64,
    pub quote_qty: u64,
    pub maker_fee: u64,
    pub taker_fee: u64,
}

/// One committed crossing as a relation between the world before (`b0`,
/// `a0`, `l0`) and after (`b1`, `a1`, `l1`): the books were non-empty and
/// crossed, no step error applied, the trade's terms are fixed by the two
/// best orders, each book shrinks by its filled best order or writes the
/// reduced quantity back in place, and the two participants' entries settle
/// exactly — the taker's locked collateral falls by precisely what its leg
/// costs, the maker's by precisely what it reserved at placement, the
/// difference refunded to its free balance. This is `match_one`'s success
/// postcondition, and chains into `match_steps` for the whole loop.
pub open spec fn match_step(
    market: Market,
    b0: OrderBook,
    a0: OrderBook,
    l0: Ledger,
    t: Trade,
    b1: OrderBook,
    a1: OrderBook,
    l1: Ledger,
) -> bool {
    let bid = b0.orders()[0];
    let ask = a0.orders()[0];
    let q = trade_qty(bid, ask);
    let n = trade_notional(bid, ask);
    let mf = fee_of(n, market.maker_fee_bps);
    let tf = fee_of(n, market.taker_fee_bps);
    let jb = l1.index_of_owner(bid.owner_account);
    let ja = l1.index_of_owner(ask.owner_account);
    let b0e = l0.entry_of(bid.owner_account);
    let a0e = l0.entry_of(ask.owner_account);
    let b1e = l1.entry(jb);
    let a1e = l1.entry(ja);
    &&& b0.orders().len() > 0
    &&& a0.orders().len() > 0
    &&& crossing(bid, ask)
    &&& match_one_error(market, &b0, &a0, &l0) is None
    &&& t == (Trade {
            maker_is_bid: maker_bid(bid, ask),
            bid_owner: bid.owner_account,
            ask_owner: ask.owner_account,
            bid_order_id: bid.order_id,
            ask_order_id: ask.order_id,
            price: trade_price(bid, ask),
            base_qty: q,
            quote_qty: n as u64,
            maker_fee: mf as u64,
            taker_fee: tf as u64,
        })
    &&& (bid.base_qty == q ==> b1.orders() == b0.orders().remove(0)
            && (forall|x: u64| b1e.holds_id(x) <==> (b0e.holds_id(x) && x != bid.order_id)))
    &&& (bid.base_qty != q ==> b1.orders() == b0.orders().update(0,
                (Order { base_qty: (bid.base_qty - q) as u64, ..bid }))
            && (forall|x: u64| b1e.holds_id(x) <==> b0e.holds_id(x)))
    &&& (ask.base_qty == q ==> a1.orders() == a0.orders().remove(0)
            && (forall|x: u64| a1e.holds_id(x) <==> (a0e.holds_id(x) && x != ask.order_id)))
    &&& (ask.base_qty != q ==> a1.orders() == a0.orders().update(0,
                (Order { base_qty: (ask.base_qty - q) as u64, ..ask }))
            && (forall|x: u64| a1e.holds_id(x) <==> a0e.holds_id(x)))
    &&& l1.has_owner(bid.owner_account)
    &&& l1.has_owner(ask.owner_account)
    &&& l1.len() == l0.len()
    &&& forall|i: int| 0 <= i < l1.len() && i != jb && i != ja
            ==> #[trigger] l1.entry(i) == l0.entry(i)
    &&& b1e.owner == bid.owner_account
    &&& a1e.owner == ask.owner_account
    &&& b1e.base_token_free as int == b0e.base_token_free as int + q as int
    &&& b1e.base_token_locked == b0e.base_token_locked
    &&& a1e.base_token_locked as int == a0e.base_token_locked as int - q as int
    &&& a1e.base_token_free == a0e.base_token_free
    &&& a1e.quote_token_locked == a0e.quote_token_locked
    &&& (maker_bid(bid, ask) ==> ({
            let orig = bid_lock_amount(bid.price, q, market.taker_fee_bps);
            &&& a1e.quote_token_free as int == a0e.quote_token_free as int + n - tf
            &&& b1e.quote_token_locked as int == b0e.quote_token_locked as int - orig
            &&& b1e.quote_token_free as int == b0e.quote_token_free as int + (orig - n - mf)
            &&& orig - n - mf >= 0
        }))
    &&& (!maker_bid(bid, ask) ==> {
            &&& a1e.quote_token_free as int == a0e.quote_token_free as int + n - mf
            &&& b1e.quote_token_locked as int == b0e.quote_token_locked as int - (n + tf)
            &&& b1e.quote_token_free == b0e.quote_token_free
        })
}

/// A whole run of the matching loop: the listed trades, in order, lead from
/// the first world to the second by successive committed crossings; an empty
/// list means nothing changed.
pub open spec fn match_steps(
    market: Market,
    b0: OrderBook,
    a0: OrderBook,
    l0: Ledger,
    trades: Seq<Trade>,
    b1: OrderBook,
    a1: OrderBook,
    l1: Ledger,
) -> bool
    decreases trades.len(),
{
    if trades.len() == 0 {
        b1 == b0 && a1 == a0 && l1 == l0
    } else {
        exists|bm: OrderBook, am: OrderBook, lm: Ledger|
            #[trigger] match_step(market, b0, a0, l0, trades[0], bm, am, lm)
                && match_steps(market, bm, am, lm, trades.drop_first(), b1, a1, l1)
    }
}

/// Appending one committed crossing to a run extends the run.
proof fn lemma_match_steps_snoc(
    market: Market,
    b0: OrderBook,
    a0: OrderBook,
    l0: Ledger,
    trades: Seq<Trade>,
    bm: OrderBook,
    am: OrderBook,
    lm: Ledger,
    t: Trade,
    b1: OrderBook,
    a1: OrderBook,
    l1: Ledger,
)
    requires
        match_steps(market, b0, a0, l0, trades, bm, am, lm),
        match_step(market, bm, am, lm, t, b1, a1, l1),
    ensures
        match_steps(market, b0, a0, l0, trades.push(t), b1, a1, l1),
    decreases trades.len(),
{
    let ts = trades.push(t);
    if trades.len() == 0 {
        assert(ts[0] == t);
        assert(ts.drop_first() =~= Seq::<Trade>::empty());
        assert(match_step(market, b0, a0, l0, ts[0], b1, a1, l1));
        assert(match_steps(market, b1, a1, l1, ts.drop_first(), b1, a1, l1));
    } else {
        let (bw, aw, lw) = choose|bw: OrderBook, aw: OrderBook, lw: Ledger|
            #[trigger] match_step(market, b0, a0, l0, trades[0], bw, aw, lw)
                && match_steps(market, bw, aw, lw, trades.drop_first(), bm, am, lm);
        lemma_match_steps_snoc(market, bw, aw, lw, trades.drop_first(), bm, am, lm, t, b1, a1, l1);
        assert(ts[0] == trades[0]);
        assert(ts.drop_first() =~= trades.drop_first().push(t));
        assert(match_step(market, b0, a0, l0, ts[0], bw, aw, lw));
        assert(match_steps(market, bw, aw, lw, ts.drop_first(), b1, a1, l1));
    }
}

/// Does the book hold a live order with this id?
pub open spec fn book_has_id(book: &OrderBook, id: u64) -> bool {
    exists|k: int| 0 <= k < book.orders().len() && (#[trigger] book.orders()[k]).order_id == id
}

/// Position of the order with this id; meaningful only when `book_has_id`.
pub open spec fn book_id_pos(book: &OrderBook, id: u64) -> int {
    choose|k: int| 0 <= k < book.orders().len() && (#[trigger] book.orders()[k]).order_id == id
}

/// The order with this id; meaningful only when `book_has_id`.
pub open spec fn book_order_of(book: &OrderBook, id: u64) -> Order {
    book.orders()[book_id_pos(book, id)]
}

/// Would unlocking this order's collateral leave the owner's balances
/// outside the machine range? A bid reserved quote at its own price plus the
/// taker-fee allowance; an ask reserved its base quantity.
pub open spec fn cancel_unlock_overflows(side: Side, order: Order, e: OpenOrders, taker_bps: u16) -> bool {
    if side == Side::Bid {
        let total = bid_lock_amount(order.price, order.base_qty, taker_bps);
        total > u64::MAX as int
            || (e.quote_token_locked as int) < total
            || e.quote_token_free as int + total > u64::MAX as int
    } else {
        (e.base_token_locked as int) < order.base_qty as int
            || e.base_token_free as int + order.base_qty as int > u64::MAX as int
    }
}

/// The verdict of the cancellation path, in check order: the order is looked
/// up in the bid book first, then the ask book; then ownership, then the
/// owner's open-order listing, then the unlock arithmetic.
pub open spec fn cancel_error(
    market: Market,
    bids: &OrderBook,
    asks: &OrderBook,
    ledger: &Ledger,
    owner: u64,
    order_id: u64,
) -> Option<ErrorCode> {
    if !book_has_id(bids, order_id) && !book_has_id(asks, order_id) {
        Some(ErrorCode::OrderNotFound)
    } else {
        let order = if book_has_id(bids, order_id) {
            book_order_of(bids, order_id)
        } else {
            book_order_of(asks, order_id)
        };
        let side = if book_has_id(bids, order_id) { Side::Bid } else { Side::Ask };
        if order.owner_account != owner {
            Some(ErrorCode::Unauthorized)
        } else if !ledger.holds_of(owner, order_id) {
            Some(ErrorCode::OrderNotFoundInOpenOrders)
        } else if cancel_unlock_overflows(side, order, ledger.entry_of(owner), market.taker_fee_bps) {
            Some(ErrorCode::MathOverflow)
        } else {
            None
        }
    }
}

/// Collateral a submission of these terms must reserve — what the host must
/// take into custody alongside the placement. `MathOverflow` when the
/// reservation exceeds the machine range.
pub fn required_collateral(market: &Market, side: Side, price: u64, quantity: u64) -> (r: Result<u64, ErrorCode>)
    requires
        market.wf(),
    ensures
        match r {
            Result::Ok(v) => v as int == lock_amount(side, price, quantity, market.taker_fee_bps),
            Result::Err(e) => e == ErrorCode::MathOverflow
                && lock_amount(side, price, quantity, market.taker_fee_bps) > u64::MAX as int,
        },
{
    if side == Side::Bid {
        let nw = notional_wide(price, quantity);
        let fw = fee_wide(nw, market.taker_fee_bps);
        let total = nw + fw;
        if total > u64::MAX as u128 {
            return Err(ErrorCode::MathOverflow);
        }
        Ok(total as u64)
    } else {
        Ok(quantity)
    }
}

/// Validates a limit order, locks its collateral on the submitter's ledger
/// entry (created lazily on first use), draws a fresh order id and inserts
/// the order into the side's book at price/time priority. The receipt tells
/// the host how much collateral to take into custody. On any error nothing
/// is changed — submission is atomic.
#[verifier::rlimit(100)]
pub fn new_limit_order(
    market: &mut Market,
    bids: &mut OrderBook,
    asks: &mut OrderBook,
    ledger: &mut Ledger,
    owner: u64,
    side: Side,
    price: u64,
    quantity: u64,
) -> (r: Result<OrderReceipt, ErrorCode>)
    requires
        world_wf(*old(market), old(bids), old(asks), old(ledger)),
        old(market).order_sequence_number < u64::MAX,
        ids_bounded(old(market).order_sequence_number, old(bids), old(asks), old(ledger)),
    ensures
        world_wf(*final(market), final(bids), final(asks), final(ledger)),
        ids_bounded(final(market).order_sequence_number, final(bids), final(asks), final(ledger)),
        ({
            let book_len = if side == Side::Bid { old(bids).orders().len() as int } else { old(asks).orders().len() as int };
            let book_cap = if side == Side::Bid { old(bids).capacity() } else { old(asks).capacity() };
            let verdict = submit_error(*old(market), book_len, book_cap,
                old(ledger).locked_of(owner, side), old(ledger).entry_full(owner),
                side, price, quantity);
            match r {
                Result::Err(e) => {
                    &&& verdict == Some(e)
                    &&& *final(market) == *old(market)
                    &&& *final(bids) == *old(bids)
                    &&& *final(asks) == *old(asks)
                    &&& *final(ledger) == *old(ledger)
                },
                Result::Ok(receipt) => {
                    let oid = (old(market).order_sequence_number + 1) as u64;
                    let order = (Order { owner_account: owner, order_id: oid, price, base_qty: quantity });
                    let j = final(ledger).index_of_owner(owner);
                    &&& verdict is None
                    &&& receipt.order_id == oid
                    &&& receipt.collateral_locked as int
                        == lock_amount(side, price, quantity, old(market).taker_fee_bps)
                    &&& *final(market) == (Market { order_sequence_number: oid, ..*old(market) })
                    &&& (side == Side::Bid ==> final(bids).orders()
                            == old(bids).orders().insert(insert_pos(true, old(bids).orders(), order), order)
                            && *final(asks) == *old(asks))
                    &&& (side == Side::Ask ==> final(asks).orders()
                            == old(asks).orders().insert(insert_pos(false, old(asks).orders(), order), order)
                            && *final(bids) == *old(bids))
                    &&& final(ledger).has_owner(owner)
                    &&& final(ledger).len()
                        == old(ledger).len() + (if old(ledger).has_owner(owner) { 0int } else { 1int })
                    &&& forall|i: int| 0 <= i < final(ledger).len() && i != j
                            ==> #[trigger] final(ledger).entry(i) == old(ledger).entry(i)
                    &&& final(ledger).entry(j).owner == owner
                    &&& final(ledger).entry(j).quote_token_locked as int
                        == old(ledger).locked_of(owner, Side::Bid) as int
                            + (if side == Side::Bid { lock_amount(side, price, quantity, old(market).taker_fee_bps) } else { 0int })
                    &&& final(ledger).entry(j).base_token_locked as int
                        == old(ledger).locked_of(owner, Side::Ask) as int
                            + (if side == Side::Ask { quantity as int } else { 0int })
                    &&& final(ledger).entry(j).base_token_free == old(ledger).free_base_of(owner)
                    &&& final(ledger).entry(j).quote_token_free == old(ledger).free_quote_of(owner)
                    &&& forall|x: u64| final(ledger).entry(j).holds_id(x)
                            <==> (old(ledger).holds_of(owner, x) || x == oid)
                },
            }
        }),
{
    if market.paused {
        return Err(ErrorCode::Paused);
    }
    if price == 0 || quantity == 0 {
        return Err(ErrorCode::InvalidOrderInput);
    }
    if price % market.tick_size != 0 {
        return Err(ErrorCode::InvalidTickSize);
    }
    if quantity % market.base_lot_size != 0 {
        return Err(ErrorCode::InvalidLotSize);
    }

    // Collateral this order must reserve.
    let lock: u64;
    if side == Side::Bid {
        let nw = notional_wide(price, quantity);
        let fw = fee_wide(nw, market.taker_fee_bps);
        let total = nw + fw;
        if total > u64::MAX as u128 {
            return Err(ErrorCode::MathOverflow);
        }
        lock = total as u64;
    } else {
        lock = quantity;
    }

    // Every remaining failure is checked before anything mutates.
    let existing = ledger.find_entry(owner);
    let locked_now: u64 = match existing {
        Some(i) => {
            if side == Side::Bid {
                ledger.entries[i].quote_token_locked
            } else {
                ledger.entries[i].base_token_locked
            }
        },
        None => 0,
    };
    proof {
        if old(ledger).has_owner(owner) {
            let io = old(ledger).index_of_owner(owner);
            if let Some(i) = existing {
                assert(old(ledger).entry(i as int).owner == old(ledger).entry(io).owner);
                assert(i as int == io);
            }
        }
        assert(locked_now == old(ledger).locked_of(owner, side));
    }
    if locked_now > u64::MAX - lock {
        return Err(ErrorCode::MathOverflow);
    }

    let book_full = if side == Side::Bid {
        bids.free_list_head == SENTINEL
    } else {
        asks.free_list_head == SENTINEL
    };
    if book_full {
        proof {
            if side == Side::Bid {
                assert(bids.orders().len() == bids.capacity());
            } else {
                assert(asks.orders().len() == asks.capacity());
            }
        }
        return Err(ErrorCode::OrderBookFull);
    }
    proof {
        if side == Side::Bid {
            assert(bids.free@.len() > 0);
            assert(bids.orders().len() < bids.capacity());
        } else {
            assert(asks.free@.len() > 0);
            assert(asks.orders().len() < asks.capacity());
        }
    }

    let ghost mut free_slot_w: int = 0;
    if let Some(i) = existing {
        let e = &ledger.entries[i];
        proof {
            let io = ledger.index_of_owner(owner);
            assert(ledger.entry(i as int).owner == ledger.entry(io).owner);
            assert(io == i as int);
        }
        match e.find_free_slot() {
            None => {
                proof { assert(ledger.entry_full(owner)); }
                return Err(ErrorCode::OpenOrdersFull);
            },
            Some(s) => {
                proof { free_slot_w = s as int; }
            },
        }
    }
    proof { assert(!ledger.entry_full(owner)); }

    // Commit: nothing below can fail.
    market.order_sequence_number = market.order_sequence_number + 1;
    let order_id = market.order_sequence_number;
    let new_order = Order { owner_account: owner, order_id, price, base_qty: quantity };

    let idx = ledger.find_or_create(owner);
    let ghost mid_ledger = *ledger;
    proof {
        assert(mid_ledger.wf());
        assert(mid_ledger.entry(idx as int).wf());
        if old(ledger).has_owner(owner) {
            let io = old(ledger).index_of_owner(owner);
            assert(mid_ledger.entry(idx as int).owner == owner);
            assert(old(ledger).entry(io).owner == owner);
            assert(mid_ledger.entry(io) == old(ledger).entry(io));
            assert(idx as int == io);
            assert(mid_ledger.entry(idx as int) == old(ledger).entry_of(owner));
        } else {
            free_slot_w = 0;
        }
        assert(!mid_ledger.entry(idx as int).holds_id(order_id)) by {
            if mid_ledger.entry(idx as int).holds_id(order_id) {
                assert(old(ledger).has_owner(owner));
                assert(old(ledger).entry(old(ledger).index_of_owner(owner)).holds_id(order_id));
            }
        };
        // The slot found (or any slot of a fresh entry) is still free.
        assert(0 <= free_slot_w < mid_ledger.entry(idx as int).slots());
        assert(!mid_ledger.entry(idx as int).active(free_slot_w));
    }
    let entry = ledger.entry_mut(idx);
    if side == Side::Bid {
        entry.quote_token_locked = entry.quote_token_locked + lock;
    } else {
        entry.base_token_locked = entry.base_token_locked + lock;
    }
    let ghost mid_entry = *entry;
    proof {
        assert(mid_entry.is_initialized@ == mid_ledger.entry(idx as int).is_initialized@);
        assert(mid_entry.order_ids@ == mid_ledger.entry(idx as int).order_ids@);
        crate::ledger::lemma_same_slots(mid_ledger.entry(idx as int), mid_entry);
        assert(mid_entry.wf());
        assert(!mid_entry.holds_id(order_id));
        assert(!mid_entry.active(free_slot_w));
    }
    let add_res = entry.add_order(order_id);
    let ghost final_entry = *entry;
    proof {
        assert(add_res is Ok);
    }

    proof {
        assert(ledger.entries@ == mid_ledger.entries@.update(idx as int, final_entry));
        assert forall|a: int| 0 <= a < ledger.len()
            implies (#[trigger] ledger.entry(a)).wf() by {
            if a != idx as int {
                assert(ledger.entry(a) == mid_ledger.entry(a));
            }
        }
        assert forall|a: int, b: int| 0 <= a < b < ledger.len()
            implies (#[trigger] ledger.entry(a)).owner != (#[trigger] ledger.entry(b)).owner by {
            if a != idx as int {
                assert(ledger.entry(a) == mid_ledger.entry(a));
            }
            if b != idx as int {
                assert(ledger.entry(b) == mid_ledger.entry(b));
            }
            assert(mid_ledger.entry(a).owner != mid_ledger.entry(b).owner);
        }
        assert(ledger.wf());
        assert(ledger.entry(idx as int).owner == owner);
        let j = ledger.index_of_owner(owner);
        assert(ledger.has_owner(owner));
        assert(ledger.entry(j).owner == owner);
        assert(j == idx as int);
        assert(ledger.entry(j) == final_entry);

        // The updated open-order set is the old one plus the fresh id.
        assert forall|x: u64| final_entry.holds_id(x)
            implies (old(ledger).holds_of(owner, x) || x == order_id) by {
            if x != order_id {
                assert(mid_entry.holds_id(x));
                assert(mid_ledger.entry(idx as int).holds_id(x));
                assert(old(ledger).has_owner(owner));
            }
        }
        assert forall|x: u64| old(ledger).holds_of(owner, x)
            implies final_entry.holds_id(x) by {
            assert(mid_ledger.entry(idx as int).holds_id(x));
            assert(mid_entry.holds_id(x));
        }

        // Ledger part of the id bound: nothing on any entry exceeds the new id.
        assert forall|i: int, x: u64|
            0 <= i < ledger.len() && #[trigger] ledger.entry(i).holds_id(x)
            implies x <= order_id by {
            if i == idx as int {
                if x != order_id {
                    assert(old(ledger).holds_of(owner, x));
                    assert(old(ledger).entry(old(ledger).index_of_owner(owner)).holds_id(x));
                }
            } else {
                assert(ledger.entry(i) == mid_ledger.entry(i));
                assert(mid_ledger.entry(i) == old(ledger).entry(i));
                assert(old(ledger).entry(i).holds_id(x));
            }
        }
    }

    let book_res = if side == Side::Bid {
        proof {
            assert(forall|k: int| 0 <= k < bids.orders().len()
                ==> (#[trigger] bids.orders()[k]).order_id != order_id);
        }
        bids.add_order(new_order)
    } else {
        proof {
            assert(forall|k: int| 0 <= k < asks.orders().len()
                ==> (#[trigger] asks.orders()[k]).order_id != order_id);
        }
        asks.add_order(new_order)
    };
    proof {
        assert(book_res is Ok);
        // Book part of the id bound: the one new order carries the new id.
        if side == Side::Bid {
            let olds = old(bids).orders();
            let pos = insert_pos(true, olds, new_order);
            crate::book::lemma_insert_pos_range(true, olds, new_order);
            olds.insert_ensures(pos, new_order);
            assert forall|k: int| 0 <= k < bids.orders().len()
                implies (#[trigger] bids.orders()[k]).order_id <= order_id by {
                if k < pos {
                    assert(bids.orders()[k] == olds[k]);
                } else if k > pos {
                    assert(bids.orders()[k] == olds[k - 1]);
                }
            }
            assert forall|k: int| 0 <= k < asks.orders().len()
                implies (#[trigger] asks.orders()[k]).order_id <= order_id by {
                assert(old(asks).orders()[k].order_id <= old(market).order_sequence_number);
            }
            assert forall|k1: int, k2: int|
                0 <= k1 < bids.orders().len() && 0 <= k2 < asks.orders().len()
                implies (#[trigger] bids.orders()[k1]).order_id
                    != (#[trigger] asks.orders()[k2]).order_id by {
                assert(old(asks).orders()[k2].order_id <= old(market).order_sequence_number);
                if k1 < pos {
                    assert(bids.orders()[k1] == olds[k1]);
                    assert(old(bids).orders()[k1].order_id != old(asks).orders()[k2].order_id);
                } else if k1 > pos {
                    assert(bids.orders()[k1] == olds[k1 - 1]);
                    assert(old(bids).orders()[k1 - 1].order_id != old(asks).orders()[k2].order_id);
                }
            }
        } else {
            let olds = old(asks).orders();
            let pos = insert_pos(false, olds, new_order);
            crate::book::lemma_insert_pos_range(false, olds, new_order);
            olds.insert_ensures(pos, new_order);
            assert forall|k: int| 0 <= k < asks.orders().len()
                implies (#[trigger] asks.orders()[k]).order_id <= order_id by {
                if k < pos {
                    assert(asks.orders()[k] == olds[k]);
                } else if k > pos {
                    assert(asks.orders()[k] == olds[k - 1]);
                }
            }
            assert forall|k: int| 0 <= k < bids.orders().len()
                implies (#[trigger] bids.orders()[k]).order_id <= order_id by {
                assert(old(bids).orders()[k].order_id <= old(market).order_sequence_number);
            }
            assert forall|k1: int, k2: int|
                0 <= k1 < bids.orders().len() && 0 <= k2 < asks.orders().len()
                implies (#[trigger] bids.orders()[k1]).order_id
                    != (#[trigger] asks.orders()[k2]).order_id by {
                assert(old(bids).orders()[k1].order_id <= old(market).order_sequence_number);
                if k2 < pos {
                    assert(asks.orders()[k2] == olds[k2]);
                    assert(old(bids).orders()[k1].order_id != old(asks).orders()[k2].order_id);
                } else if k2 > pos {
                    assert(asks.orders()[k2] == olds[k2 - 1]);
                    assert(old(bids).orders()[k1].order_id != old(asks).orders()[k2 - 1].order_id);
                }
            }
        }
    }

    Ok(OrderReceipt { order_id, collateral_locked: lock })
}

/// Cancels a resting order: verifies ownership, removes the order from its
/// book, moves the collateral it reserved from locked back to free, and
/// strikes the id from the owner's open-order set. On any error nothing is
/// changed, so a second cancel of the same id fails with `OrderNotFound` and
/// leaves every structure exactly as the first cancel left it.
#[verifier::rlimit(100)]
pub fn cancel_limit_order(
    market: &Market,
    bids: &mut OrderBook,
    asks: &mut OrderBook,
    ledger: &mut Ledger,
    owner: u64,
    order_id: u64,
) -> (r: Result<(), ErrorCode>)
    requires
        world_wf(*market, old(bids), old(asks), old(ledger)),
    ensures
        world_wf(*market, final(bids), final(asks), final(ledger)),
        ({
            let verdict = cancel_error(*market, old(bids), old(asks), old(ledger), owner, order_id);
            match r {
                Result::Err(e) => {
                    &&& verdict == Some(e)
                    &&& *final(bids) == *old(bids)
                    &&& *final(asks) == *old(asks)
                    &&& *final(ledger) == *old(ledger)
                },
                Result::Ok(()) => {
                    let in_bids = book_has_id(old(bids), order_id);
                    let order = if in_bids {
                        book_order_of(old(bids), order_id)
                    } else {
                        book_order_of(old(asks), order_id)
                    };
                    let side = if in_bids { Side::Bid } else { Side::Ask };
                    let total = lock_amount(side, order.price, order.base_qty, market.taker_fee_bps);
                    let j = final(ledger).index_of_owner(owner);
                    &&& verdict is None
                    &&& order.owner_account == owner
                    &&& (in_bids ==> final(bids).orders()
                            == old(bids).orders().remove(book_id_pos(old(bids), order_id))
                            && *final(asks) == *old(asks))
                    &&& (!in_bids ==> final(asks).orders()
                            == old(asks).orders().remove(book_id_pos(old(asks), order_id))
                            && *final(bids) == *old(bids))
                    &&& !book_has_id(final(bids), order_id)
                    &&& !book_has_id(final(asks), order_id)
                    &&& final(ledger).len() == old(ledger).len()
                    &&& final(ledger).has_owner(owner)
                    &&& forall|i: int| 0 <= i < final(ledger).len() && i != j
                            ==> #[trigger] final(ledger).entry(i) == old(ledger).entry(i)
                    &&& final(ledger).entry(j).owner == owner
                    &&& (side == Side::Bid ==> {
                            &&& final(ledger).entry(j).quote_token_locked as int
                                == old(ledger).entry_of(owner).quote_token_locked as int - total
                            &&& final(ledger).entry(j).quote_token_free as int
                                == old(ledger).entry_of(owner).quote_token_free as int + total
                            &&& final(ledger).entry(j).base_token_locked
                                == old(ledger).entry_of(owner).base_token_locked
                            &&& final(ledger).entry(j).base_token_free
                                == old(ledger).entry_of(owner).base_token_free
                        })
                    &&& (side == Side::Ask ==> {
                            &&& final(ledger).entry(j).base_token_locked as int
                                == old(ledger).entry_of(owner).base_token_locked as int - total
                            &&& final(ledger).entry(j).base_token_free as int
                                == old(ledger).entry_of(owner).base_token_free as int + total
                            &&& final(ledger).entry(j).quote_token_locked
                                == old(ledger).entry_of(owner).quote_token_locked
                            &&& final(ledger).entry(j).quote_token_free
                                == old(ledger).entry_of(owner).quote_token_free
                        })
                    &&& forall|x: u64| final(ledger).entry(j).holds_id(x)
                            <==> (old(ledger).holds_of(owner, x) && x != order_id)
                },
            }
        }),
{
    // Locate the order: bid book first, then ask book.
    let bid_hit = bids.find_order_by_id(order_id);
    let (node_index, order, side) = match bid_hit {
        Some((i, o)) => {
            proof { assert(book_has_id(bids, order_id)); }
            (i, o, Side::Bid)
        },
        None => {
            match asks.find_order_by_id(order_id) {
                Some((i, o)) => {
                    proof {
                        assert(!book_has_id(bids, order_id));
                        assert(book_has_id(asks, order_id));
                    }
                    (i, o, Side::Ask)
                },
                None => {
                    proof {
                        assert(!book_has_id(bids, order_id));
                        assert(!book_has_id(asks, order_id));
                    }
                    return Err(ErrorCode::OrderNotFound);
                },
            }
        },
    };
    let ghost the_book = if side == Side::Bid { *bids } else { *asks };
    let ghost kfound = choose|k: int| 0 <= k < the_book.orders().len()
        && #[trigger] the_book.live@[k] == node_index as int
        && the_book.orders()[k] == order;
    proof {
        // The found order is the one the verdict speaks of: ids are unique.
        let kp = book_id_pos(&the_book, order_id);
        assert(the_book.orders()[kp].order_id == order_id);
        assert(kp == kfound);
        assert(book_order_of(&the_book, order_id) == order);
        assert(the_book.live@.contains(node_index as int));
    }

    if order.owner_account != owner {
        return Err(ErrorCode::Unauthorized);
    }

    let eidx = match ledger.find_entry(owner) {
        Some(i) => i,
        None => {
            proof { assert(!ledger.holds_of(owner, order_id)); }
            return Err(ErrorCode::OrderNotFoundInOpenOrders);
        },
    };
    proof {
        let io = ledger.index_of_owner(owner);
        assert(ledger.entry(eidx as int).owner == ledger.entry(io).owner);
        assert(io == eidx as int);
        assert(ledger.entry_of(owner) == ledger.entry(eidx as int));
    }

    // Every remaining failure is checked before anything mutates.
    let total: u64;
    {
        let e = &ledger.entries[eidx];
        if !e.contains_order(order_id) {
            return Err(ErrorCode::OrderNotFoundInOpenOrders);
        }
        if side == Side::Bid {
            let nw = notional_wide(order.price, order.base_qty);
            let fw = fee_wide(nw, market.taker_fee_bps);
            let wide = nw + fw;
            if wide > u64::MAX as u128 {
                return Err(ErrorCode::MathOverflow);
            }
            total = wide as u64;
            if e.quote_token_locked < total || e.quote_token_free > u64::MAX - total {
                return Err(ErrorCode::MathOverflow);
            }
        } else {
            total = order.base_qty;
            if e.base_token_locked < total || e.base_token_free > u64::MAX - total {
                return Err(ErrorCode::MathOverflow);
            }
        }
    }

    // Commit: nothing below can fail.
    let book_res = if side == Side::Bid {
        bids.remove_order(node_index)
    } else {
        asks.remove_order(node_index)
    };
    proof {
        assert(book_res is Ok);
        // Removal happened at the position of the cancelled id.
        if side == Side::Bid {
            let kr = choose|k: int| 0 <= k < the_book.orders().len()
                && #[trigger] the_book.live@[k] == node_index as int
                && bids.orders() == the_book.orders().remove(k);
            assert(the_book.live@[kr] == the_book.live@[kfound]);
            assert(kr == kfound);
            assert(bids.orders() == the_book.orders().remove(book_id_pos(&the_book, order_id)));
        } else {
            let kr = choose|k: int| 0 <= k < the_book.orders().len()
                && #[trigger] the_book.live@[k] == node_index as int
                && asks.orders() == the_book.orders().remove(k);
            assert(the_book.live@[kr] == the_book.live@[kfound]);
            assert(kr == kfound);
            assert(asks.orders() == the_book.orders().remove(book_id_pos(&the_book, order_id)));
        }
    }

    let ghost mid_ledger = *ledger;
    let entry = ledger.entry_mut(eidx);
    if side == Side::Bid {
        entry.quote_token_locked = entry.quote_token_locked - total;
        entry.quote_token_free = entry.quote_token_free + total;
    } else {
        entry.base_token_locked = entry.base_token_locked - total;
        entry.base_token_free = entry.base_token_free + total;
    }
    let ghost mid_entry = *entry;
    proof {
        crate::ledger::lemma_same_slots(mid_ledger.entry(eidx as int), mid_entry);
        assert(mid_entry.wf());
        assert(mid_entry.holds_id(order_id));
    }
    let rm_res = entry.remove_order(order_id);
    let ghost final_entry = *entry;
    proof { assert(rm_res is Ok); }

    proof {
        assert(ledger.entries@ == mid_ledger.entries@.update(eidx as int, final_entry));
        assert forall|a: int| 0 <= a < ledger.len()
            implies (#[trigger] ledger.entry(a)).wf() by {
            if a != eidx as int {
                assert(ledger.entry(a) == mid_ledger.entry(a));
            }
        }
        assert forall|a: int, b: int| 0 <= a < b < ledger.len()
            implies (#[trigger] ledger.entry(a)).owner != (#[trigger] ledger.entry(b)).owner by {
            if a != eidx as int {
                assert(ledger.entry(a) == mid_ledger.entry(a));
            }
            if b != eidx as int {
                assert(ledger.entry(b) == mid_ledger.entry(b));
            }
            assert(mid_ledger.entry(a).owner != mid_ledger.entry(b).owner);
        }
        assert(ledger.wf());
        let j = ledger.index_of_owner(owner);
        assert(ledger.entry(eidx as int).owner == owner);
        assert(ledger.has_owner(owner));
        assert(ledger.entry(j).owner == owner);
        assert(j == eidx as int);
        assert(ledger.entry(j) == final_entry);
        assert forall|x: u64| final_entry.holds_id(x)
            implies (old(ledger).holds_of(owner, x) && x != order_id) by {
            assert(mid_entry.holds_id(x));
            assert(mid_ledger.entry(eidx as int).holds_id(x));
        }
        assert forall|x: u64| old(ledger).holds_of(owner, x) && x != order_id
            implies final_entry.holds_id(x) by {
            assert(mid_ledger.entry(eidx as int).holds_id(x));
            assert(mid_entry.holds_id(x));
        }

        // The cancelled id is gone from both books, and the books still
        // share no id: the surviving orders are a subset of the old ones.
        let kp = book_id_pos(&the_book, order_id);
        the_book.orders().remove_ensures(kp);
        if side == Side::Bid {
            assert forall|k: int| 0 <= k < bids.orders().len()
                implies (#[trigger] bids.orders()[k]).order_id != order_id by {
                if k < kp {
                    assert(bids.orders()[k] == the_book.orders()[k]);
                } else {
                    assert(bids.orders()[k] == the_book.orders()[k + 1]);
                }
            }
            assert(!book_has_id(bids, order_id));
            assert forall|k1: int, k2: int|
                0 <= k1 < bids.orders().len() && 0 <= k2 < asks.orders().len()
                implies (#[trigger] bids.orders()[k1]).order_id
                    != (#[trigger] asks.orders()[k2]).order_id by {
                if k1 < kp {
                    assert(bids.orders()[k1] == the_book.orders()[k1]);
                    assert(old(bids).orders()[k1].order_id != old(asks).orders()[k2].order_id);
                } else {
                    assert(bids.orders()[k1] == the_book.orders()[k1 + 1]);
                    assert(old(bids).orders()[k1 + 1].order_id != old(asks).orders()[k2].order_id);
                }
            }
            assert(!book_has_id(asks, order_id)) by {
                if book_has_id(asks, order_id) {
                    let k2 = choose|k: int| 0 <= k < asks.orders().len()
                        && (#[trigger] asks.orders()[k]).order_id == order_id;
                    assert(old(bids).orders()[kp].order_id != old(asks).orders()[k2].order_id);
                }
            };
        } else {
            assert forall|k: int| 0 <= k < asks.orders().len()
                implies (#[trigger] asks.orders()[k]).order_id != order_id by {
                if k < kp {
                    assert(asks.orders()[k] == the_book.orders()[k]);
                } else {
                    assert(asks.orders()[k] == the_book.orders()[k + 1]);
                }
            }
            assert(!book_has_id(asks, order_id));
            assert forall|k1: int, k2: int|
                0 <= k1 < bids.orders().len() && 0 <= k2 < asks.orders().len()
                implies (#[trigger] bids.orders()[k1]).order_id
                    != (#[trigger] asks.orders()[k2]).order_id by {
                if k2 < kp {
                    assert(asks.orders()[k2] == the_book.orders()[k2]);
                    assert(old(bids).orders()[k1].order_id != old(asks).orders()[k2].order_id);
                } else {
                    assert(asks.orders()[k2] == the_book.orders()[k2 + 1]);
                    assert(old(bids).orders()[k1].order_id != old(asks).orders()[k2 + 1].order_id);
                }
            }
            assert(!book_has_id(bids, order_id));
        }
    }

    Ok(())
}

/// Writes one settled trade into the two ledger entries: the new balances,
/// and the striking of any fully filled order id. Cannot fail; every check
/// was made before.
#[verifier::rlimit(100)]
fn apply_settlement(
    ledger: &mut Ledger,
    bidx: usize,
    aidx: usize,
    b_quote_locked: u64,
    b_quote_free: u64,
    b_base_free: u64,
    a_base_locked: u64,
    a_quote_free: u64,
    bid_remove: Option<u64>,
    ask_remove: Option<u64>,
)
    requires
        old(ledger).wf(),
        bidx < old(ledger).len(),
        aidx < old(ledger).len(),
        bidx != aidx,
        bid_remove matches Some(id) ==> old(ledger).entry(bidx as int).holds_id(id),
        ask_remove matches Some(id) ==> old(ledger).entry(aidx as int).holds_id(id),
    ensures
        final(ledger).wf(),
        final(ledger).len() == old(ledger).len(),
        forall|i: int| 0 <= i < final(ledger).len() && i != bidx as int && i != aidx as int
            ==> #[trigger] final(ledger).entry(i) == old(ledger).entry(i),
        ({
            let b0 = old(ledger).entry(bidx as int);
            let b1 = final(ledger).entry(bidx as int);
            &&& b1.owner == b0.owner
            &&& b1.quote_token_locked == b_quote_locked
            &&& b1.quote_token_free == b_quote_free
            &&& b1.base_token_free == b_base_free
            &&& b1.base_token_locked == b0.base_token_locked
            &&& match bid_remove {
                    Some(id) => forall|x: u64| b1.holds_id(x) <==> (b0.holds_id(x) && x != id),
                    None => forall|x: u64| b1.holds_id(x) <==> b0.holds_id(x),
                }
        }),
        ({
            let a0 = old(ledger).entry(aidx as int);
            let a1 = final(ledger).entry(aidx as int);
            &&& a1.owner == a0.owner
            &&& a1.base_token_locked == a_base_locked
            &&& a1.quote_token_free == a_quote_free
            &&& a1.base_token_free == a0.base_token_free
            &&& a1.quote_token_locked == a0.quote_token_locked
            &&& match ask_remove {
                    Some(id) => forall|x: u64| a1.holds_id(x) <==> (a0.holds_id(x) && x != id),
                    None => forall|x: u64| a1.holds_id(x) <==> a0.holds_id(x),
                }
        }),
{
    {
        let bentry = ledger.entry_mut(bidx);
        bentry.quote_token_locked = b_quote_locked;
        bentry.quote_token_free = b_quote_free;
        bentry.base_token_free = b_base_free;
        let ghost mid_b = *bentry;
        proof {
            crate::ledger::lemma_same_slots(old(ledger).entry(bidx as int), mid_b);
            assert(mid_b.wf());
        }
        if let Some(id) = bid_remove {
            proof { assert(mid_b.holds_id(id)); }
            let rb = bentry.remove_order(id);
            proof { assert(rb is Ok); }
        }
    }
    let ghost mid_ledger = *ledger;
    proof {
        assert(mid_ledger.entry(aidx as int) == old(ledger).entry(aidx as int));
        assert forall|a: int| 0 <= a < mid_ledger.len()
            implies (#[trigger] mid_ledger.entry(a)).wf() by {
            if a != bidx as int {
                assert(mid_ledger.entry(a) == old(ledger).entry(a));
            }
        }
        assert forall|a: int, b: int| 0 <= a < b < mid_ledger.len()
            implies (#[trigger] mid_ledger.entry(a)).owner != (#[trigger] mid_ledger.entry(b)).owner by {
            if a != bidx as int {
                assert(mid_ledger.entry(a) == old(ledger).entry(a));
            }
            if b != bidx as int {
                assert(mid_ledger.entry(b) == old(ledger).entry(b));
            }
            assert(old(ledger).entry(a).owner != old(ledger).entry(b).owner);
        }
        assert(mid_ledger.wf());
    }
    {
        let aentry = ledger.entry_mut(aidx);
        aentry.base_token_locked = a_base_locked;
        aentry.quote_token_free = a_quote_free;
        let ghost mid_a = *aentry;
        proof {
            crate::ledger::lemma_same_slots(old(ledger).entry(aidx as int), mid_a);
            assert(mid_a.wf());
        }
        if let Some(id) = ask_remove {
            proof { assert(mid_a.holds_id(id)); }
            let ra = aentry.remove_order(id);
            proof { assert(ra is Ok); }
        }
    }
    proof {
        assert forall|a: int| 0 <= a < ledger.len()
            implies (#[trigger] ledger.entry(a)).wf() by {
            if a != aidx as int {
                assert(ledger.entry(a) == mid_ledger.entry(a));
            }
        }
        assert forall|a: int, b: int| 0 <= a < b < ledger.len()
            implies (#[trigger] ledger.entry(a)).owner != (#[trigger] ledger.entry(b)).owner by {
            if a != aidx as int {
                assert(ledger.entry(a) == mid_ledger.entry(a));
            }
            if b != aidx as int {
                assert(ledger.entry(b) == mid_ledger.entry(b));
            }
            assert(mid_ledger.entry(a).owner != mid_ledger.entry(b).owner);
        }
        assert(ledger.wf());
    }
}

/// One step of the matching loop. `Ok(None)` is the normal stop: a side is
/// empty or the spread is open, and nothing changed. A committed trade
/// settles both participants' balances exactly as the returned `Trade` says:
/// the taker's locked collateral falls by precisely what its leg costs, the
/// maker's by precisely what it reserved at placement, with the difference
/// refunded to its free balance. On any error nothing is changed — one step
/// is atomic.
#[verifier::rlimit(100)]
pub fn match_one(
    market: &Market,
    bids: &mut OrderBook,
    asks: &mut OrderBook,
    ledger: &mut Ledger,
) -> (r: Result<Option<Trade>, ErrorCode>)
    requires
        world_wf(*market, old(bids), old(asks), old(ledger)),
    ensures
        world_wf(*market, final(bids), final(asks), final(ledger)),
        final(ledger).len() == old(ledger).len(),
        match r {
            Result::Ok(opt) => match opt {
                Option::None => {
                    &&& *final(bids) == *old(bids)
                    &&& *final(asks) == *old(asks)
                    &&& *final(ledger) == *old(ledger)
                    &&& (old(bids).orders().len() == 0 || old(asks).orders().len() == 0
                            || !crossing(old(bids).orders()[0], old(asks).orders()[0]))
                },
                Option::Some(t) => match_step(*market, *old(bids), *old(asks), *old(ledger),
                    t, *final(bids), *final(asks), *final(ledger)),
            },
            Result::Err(e) => {
                &&& *final(bids) == *old(bids)
                &&& *final(asks) == *old(asks)
                &&& *final(ledger) == *old(ledger)
                &&& old(bids).orders().len() > 0
                &&& old(asks).orders().len() > 0
                &&& crossing(old(bids).orders()[0], old(asks).orders()[0])
                &&& Some(e) == match_one_error(*market, old(bids), old(asks), old(ledger))
            },
        },
{
    let best_bid = match bids.get_best_price_order() {
        Some(o) => o,
        None => {
            return Ok(None);
        },
    };
    let best_ask = match asks.get_best_price_order() {
        Some(o) => o,
        None => {
            return Ok(None);
        },
    };
    if best_bid.price < best_ask.price {
        return Ok(None);
    }

    if best_bid.owner_account == best_ask.owner_account {
        return Err(ErrorCode::SelfTradeForbidden);
    }

    let bidx = match ledger.find_entry(best_bid.owner_account) {
        Some(i) => i,
        None => {
            return Err(ErrorCode::InvalidMakerAccount);
        },
    };
    let aidx = match ledger.find_entry(best_ask.owner_account) {
        Some(i) => i,
        None => {
            return Err(ErrorCode::InvalidMakerAccount);
        },
    };
    proof {
        let iob = ledger.index_of_owner(best_bid.owner_account);
        assert(ledger.entry(bidx as int).owner == ledger.entry(iob).owner);
        assert(iob == bidx as int);
        assert(ledger.entry_of(best_bid.owner_account) == ledger.entry(bidx as int));
        let ioa = ledger.index_of_owner(best_ask.owner_account);
        assert(ledger.entry(aidx as int).owner == ledger.entry(ioa).owner);
        assert(ioa == aidx as int);
        assert(ledger.entry_of(best_ask.owner_account) == ledger.entry(aidx as int));
        assert(bidx != aidx);
    }

    // Trade terms, then every balance movement, checked before any commit.
    let maker_is_bid = best_bid.order_id < best_ask.order_id;
    let px = if maker_is_bid { best_ask.price } else { best_bid.price };
    let q = if best_bid.base_qty <= best_ask.base_qty { best_bid.base_qty } else { best_ask.base_qty };
    proof {
        assert(px == trade_price(best_bid, best_ask));
        assert(q == trade_qty(best_bid, best_ask));
    }
    let nw = notional_wide(px, q);
    if nw > u64::MAX as u128 {
        return Err(ErrorCode::MathOverflow);
    }
    let n: u64 = nw as u64;
    let mfw = fee_wide(nw, market.maker_fee_bps);
    let tfw = fee_wide(nw, market.taker_fee_bps);
    let maker_fee: u64 = mfw as u64;
    let taker_fee: u64 = tfw as u64;
    if maker_fee > u64::MAX - taker_fee {
        return Err(ErrorCode::MathOverflow);
    }

    let b_quote_locked0 = ledger.entries[bidx].quote_token_locked;
    let b_quote_free0 = ledger.entries[bidx].quote_token_free;
    let b_base_free0 = ledger.entries[bidx].base_token_free;
    let a_base_locked0 = ledger.entries[aidx].base_token_locked;
    let a_quote_free0 = ledger.entries[aidx].quote_token_free;

    let b_quote_locked1: u64;
    let b_quote_free1: u64;
    let a_quote_free1: u64;
    if maker_is_bid {
        // The asker takes; the resting bid is the maker and is reconciled
        // against what it reserved at its own quoted price.
        if a_base_locked0 < q {
            return Err(ErrorCode::MathOverflow);
        }
        let a_gain = n - taker_fee;
        if a_quote_free0 > u64::MAX - a_gain {
            return Err(ErrorCode::MathOverflow);
        }
        a_quote_free1 = a_quote_free0 + a_gain;
        if b_base_free0 > u64::MAX - q {
            return Err(ErrorCode::MathOverflow);
        }
        let onw = notional_wide(best_bid.price, q);
        let ofw = fee_wide(onw, market.taker_fee_bps);
        let ow = onw + ofw;
        if ow > u64::MAX as u128 {
            return Err(ErrorCode::MathOverflow);
        }
        let orig = ow as u64;
        if b_quote_locked0 < orig {
            return Err(ErrorCode::MathOverflow);
        }
        b_quote_locked1 = b_quote_locked0 - orig;
        proof {
            lemma_rebate_nonnegative(best_bid.price, px, q, market.maker_fee_bps,
                market.taker_fee_bps);
        }
        let rebate = orig - n - maker_fee;
        if b_quote_free0 > u64::MAX - rebate {
            return Err(ErrorCode::MathOverflow);
        }
        b_quote_free1 = b_quote_free0 + rebate;
    } else {
        // The bidder takes at the resting ask's terms; the ask reserved its
        // base quantity outright, so no reconciliation arithmetic is needed.
        if n > u64::MAX - taker_fee {
            return Err(ErrorCode::MathOverflow);
        }
        let paid = n + taker_fee;
        if b_quote_locked0 < paid {
            return Err(ErrorCode::MathOverflow);
        }
        b_quote_locked1 = b_quote_locked0 - paid;
        if b_base_free0 > u64::MAX - q {
            return Err(ErrorCode::MathOverflow);
        }
        b_quote_free1 = b_quote_free0;
        if a_base_locked0 < q {
            return Err(ErrorCode::MathOverflow);
        }
        let a_gain = n - maker_fee;
        if a_quote_free0 > u64::MAX - a_gain {
            return Err(ErrorCode::MathOverflow);
        }
        a_quote_free1 = a_quote_free0 + a_gain;
    }

    let bid_filled = best_bid.base_qty == q;
    let ask_filled = best_ask.base_qty == q;
    if bid_filled {
        let e = &ledger.entries[bidx];
        if !e.contains_order(best_bid.order_id) {
            return Err(ErrorCode::OrderNotFoundInOpenOrders);
        }
    }
    if ask_filled {
        let e = &ledger.entries[aidx];
        if !e.contains_order(best_ask.order_id) {
            return Err(ErrorCode::OrderNotFoundInOpenOrders);
        }
    }
    proof {
        assert(match_one_error(*market, old(bids), old(asks), old(ledger)) is None);
    }

    // Commit: nothing below can fail.
    if bid_filled {
        let h = bids.head;
        proof { assert(bids.live@.contains(h as int)); }
        let r1 = bids.remove_order(h);
        proof {
            assert(r1 is Ok);
            let kr = choose|k: int| 0 <= k < old(bids).orders().len()
                && #[trigger] old(bids).live@[k] == h as int
                && bids.orders() == old(bids).orders().remove(k);
            assert(old(bids).live@[kr] == old(bids).live@[0]);
            assert(kr == 0);
        }
    } else {
        let r1 = bids.update_best_order(Order {
            owner_account: best_bid.owner_account,
            order_id: best_bid.order_id,
            price: best_bid.price,
            base_qty: best_bid.base_qty - q,
        });
        proof { assert(r1 is Ok); }
    }
    if ask_filled {
        let h = asks.head;
        proof { assert(asks.live@.contains(h as int)); }
        let r2 = asks.remove_order(h);
        proof {
            assert(r2 is Ok);
            let kr = choose|k: int| 0 <= k < old(asks).orders().len()
                && #[trigger] old(asks).live@[k] == h as int
                && asks.orders() == old(asks).orders().remove(k);
            assert(old(asks).live@[kr] == old(asks).live@[0]);
            assert(kr == 0);
        }
    } else {
        let r2 = asks.update_best_order(Order {
            owner_account: best_ask.owner_account,
            order_id: best_ask.order_id,
            price: best_ask.price,
            base_qty: best_ask.base_qty - q,
        });
        proof { assert(r2 is Ok); }
    }

    apply_settlement(ledger, bidx, aidx, b_quote_locked1, b_quote_free1, b_base_free0 + q,
        a_base_locked0 - q, a_quote_free1,
        if bid_filled { Some(best_bid.order_id) } else { None },
        if ask_filled { Some(best_ask.order_id) } else { None });

    proof {
        // The owners' entries are where they were; the books kept their ids
        // apart because every surviving id was already there before.
        let jb = ledger.index_of_owner(best_bid.owner_account);
        assert(ledger.entry(bidx as int).owner == best_bid.owner_account);
        assert(ledger.entry(jb).owner == ledger.entry(bidx as int).owner);
        assert(jb == bidx as int);
        let ja = ledger.index_of_owner(best_ask.owner_account);
        assert(ledger.entry(aidx as int).owner == best_ask.owner_account);
        assert(ledger.entry(ja).owner == ledger.entry(aidx as int).owner);
        assert(ja == aidx as int);

        if bid_filled {
            old(bids).orders().remove_ensures(0);
        }
        if ask_filled {
            old(asks).orders().remove_ensures(0);
        }
        assert forall|k1: int, k2: int|
            0 <= k1 < bids.orders().len() && 0 <= k2 < asks.orders().len()
            implies (#[trigger] bids.orders()[k1]).order_id
                != (#[trigger] asks.orders()[k2]).order_id by {
            let ob1: int = if bid_filled { k1 + 1 } else { k1 };
            let ob2: int = if ask_filled { k2 + 1 } else { k2 };
            assert(bids.orders()[k1].order_id == old(bids).orders()[ob1].order_id);
            assert(asks.orders()[k2].order_id == old(asks).orders()[ob2].order_id);
            assert(old(bids).orders()[ob1].order_id != old(asks).orders()[ob2].order_id);
        }
    }

    Ok(Some(Trade {
        maker_is_bid,
        bid_owner: best_bid.owner_account,
        ask_owner: best_ask.owner_account,
        bid_order_id: best_bid.order_id,
        ask_order_id: best_ask.order_id,
        price: px,
        base_qty: q,
        quote_qty: n,
        maker_fee,
        taker_fee,
    }))
}

/// What one call of the matching loop did: the trades it committed, in
/// order, and the error that stopped it early, if any. Work committed by
/// earlier iterations of an erring call stays committed, and the report
/// carries those trades, so the host can sweep every settled trade's fees.
pub struct MatchReport {
    pub trades: Vec<Trade>,
    pub error: Option<ErrorCode>,
}

/// Runs the matching loop, at most `match_limit` crossings. The final world
/// is exactly the reported trades applied in order to the initial one
/// (`match_steps`); in particular, no trades means no change, and each
/// trade's terms and settlement are pinned by `match_step`. Without an error
/// the loop stopped only at the limit, an emptied side, or an open spread;
/// with one, the loop stopped at a state whose step verdict is that error —
/// a self-trade, a missing maker entry, settlement arithmetic leaving the
/// machine range, or a filled order missing from its owner's open set. The
/// host sweeps each trade's `maker_fee + taker_fee` (always a sound u64 sum)
/// to its fee destination.
pub fn match_orders(
    market: &Market,
    bids: &mut OrderBook,
    asks: &mut OrderBook,
    ledger: &mut Ledger,
    match_limit: u64,
) -> (r: MatchReport)
    requires
        world_wf(*market, old(bids), old(asks), old(ledger)),
    ensures
        world_wf(*market, final(bids), final(asks), final(ledger)),
        final(ledger).len() == old(ledger).len(),
        r.trades@.len() <= match_limit,
        match_steps(*market, *old(bids), *old(asks), *old(ledger), r.trades@,
            *final(bids), *final(asks), *final(ledger)),
        match r.error {
            Option::None => r.trades@.len() == match_limit
                || final(bids).orders().len() == 0
                || final(asks).orders().len() == 0
                || !crossing(final(bids).orders()[0], final(asks).orders()[0]),
            Option::Some(e) => {
                &&& r.trades@.len() < match_limit
                &&& final(bids).orders().len() > 0
                &&& final(asks).orders().len() > 0
                &&& crossing(final(bids).orders()[0], final(asks).orders()[0])
                &&& Some(e) == match_one_error(*market, final(bids), final(asks), final(ledger))
            },
        },
{
    let mut trades: Vec<Trade> = Vec::new();
    let mut i: u64 = 0;
    while i < match_limit
        invariant
            world_wf(*market, bids, asks, ledger),
            ledger.len() == old(ledger).len(),
            i <= match_limit,
            trades@.len() == i,
            match_steps(*market, *old(bids), *old(asks), *old(ledger), trades@,
                *bids, *asks, *ledger),
        decreases match_limit - i,
    {
        let ghost bpre = *bids;
        let ghost apre = *asks;
        let ghost lpre = *ledger;
        let ghost tpre = trades@;
        match match_one(market, bids, asks, ledger) {
            Ok(None) => {
                return MatchReport { trades, error: None };
            },
            Ok(Some(t)) => {
                proof {
                    lemma_match_steps_snoc(*market, *old(bids), *old(asks), *old(ledger),
                        tpre, bpre, apre, lpre, t, *bids, *asks, *ledger);
                }
                trades.push(t);
            },
            Err(e) => {
                // The failed step changed nothing, so its verdict reads off
                // the final state.
                return MatchReport { trades, error: Some(e) };
            },
        }
        i += 1;
    }
    MatchReport { trades, error: None }
}

/// Withdraws a participant's settled funds: zeroes both free balances and
/// returns them as `(base_amount, quote_amount)` for the host to pay out.
/// An owner without an entry has nothing to settle.
pub fn settle_funds(ledger: &mut Ledger, owner: u64) -> (r: (u64, u64))
    requires
        old(ledger).wf(),
    ensures
        final(ledger).wf(),
        final(ledger).len() == old(ledger).len(),
        !old(ledger).has_owner(owner) ==> r == (0u64, 0u64) && *final(ledger) == *old(ledger),
        old(ledger).has_owner(owner) ==> ({
            let j = old(ledger).index_of_owner(owner);
            let e0 = old(ledger).entry(j);
            let e1 = final(ledger).entry(j);
            &&& r == (e0.base_token_free, e0.quote_token_free)
            &&& e1 == (OpenOrders { base_token_free: 0, quote_token_free: 0, ..e0 })
            &&& forall|i: int| 0 <= i < final(ledger).len() && i != j
                    ==> #[trigger] final(ledger).entry(i) == old(ledger).entry(i)
        }),
{
    let idx = match ledger.find_entry(owner) {
        Some(i) => i,
        None => {
            return (0, 0);
        },
    };
    proof {
        let io = ledger.index_of_owner(owner);
        assert(ledger.entry(idx as int).owner == ledger.entry(io).owner);
        assert(io == idx as int);
    }
    let entry = ledger.entry_mut(idx);
    let base_amount = entry.base_token_free;
    let quote_amount = entry.quote_token_free;
    entry.base_token_free = 0;
    entry.quote_token_free = 0;
    proof {
        crate::ledger::lemma_same_slots(old(ledger).entry(idx as int), *entry);
        assert forall|a: int| 0 <= a < ledger.len()
            implies (#[trigger] ledger.entry(a)).wf() by {
            if a != idx as int {
                assert(ledger.entry(a) == old(ledger).entry(a));
            }
        }
        assert forall|a: int, b: int| 0 <= a < b < ledger.len()
            implies (#[trigger] ledger.entry(a)).owner != (#[trigger] ledger.entry(b)).owner by {
            if a != idx as int {
                assert(ledger.entry(a) == old(ledger).entry(a));
            }
            if b != idx as int {
                assert(ledger.entry(b) == old(ledger).entry(b));
            }
            assert(old(ledger).entry(a).owner != old(ledger).entry(b).owner);
        }
    }
    (base_amount, quote_amount)
}

/// Retires a participant's ledger entry. It must be empty: all four balances
/// zero and no open orders — else `OpenOrdersAccountNotEmpty`; an owner
/// without an entry is `OrderNotFound`. On success the entry is gone.
pub fn close_open_orders(ledger: &mut Ledger, owner: u64) -> (r: Result<(), ErrorCode>)
    requires
        old(ledger).wf(),
    ensures
        final(ledger).wf(),
        match r {
            Result::Ok(()) => {
                &&& old(ledger).has_owner(owner)
                // Only an empty entry can be retired: nothing free, nothing
                // locked, no order still open.
                &&& ({
                        let e0 = old(ledger).entry_of(owner);
                        &&& e0.base_token_free == 0
                        &&& e0.quote_token_free == 0
                        &&& e0.base_token_locked == 0
                        &&& e0.quote_token_locked == 0
                        &&& forall|s: int| 0 <= s < e0.slots() ==> !e0.active(s)
                    })
                &&& !final(ledger).has_owner(owner)
                &&& final(ledger).entries@
                    == old(ledger).entries@.remove(old(ledger).index_of_owner(owner))
            },
            Result::Err(e) => {
                &&& *final(ledger) == *old(ledger)
                &&& (e == ErrorCode::OrderNotFound <==> !old(ledger).has_owner(owner))
                &&& (e == ErrorCode::OpenOrdersAccountNotEmpty <==> old(ledger).has_owner(owner)
                        && ({
                            let e0 = old(ledger).entry_of(owner);
                            e0.base_token_free != 0 || e0.quote_token_free != 0
                                || e0.base_token_locked != 0 || e0.quote_token_locked != 0
                                || exists|s: int| 0 <= s < e0.slots() && e0.active(s)
                        }))
                &&& (e == ErrorCode::OrderNotFound || e == ErrorCode::OpenOrdersAccountNotEmpty)
            },
        },
{
    let idx = match ledger.find_entry(owner) {
        Some(i) => i,
        None => {
            return Err(ErrorCode::OrderNotFound);
        },
    };
    proof {
        let io = ledger.index_of_owner(owner);
        assert(ledger.entry(idx as int).owner == ledger.entry(io).owner);
        assert(io == idx as int);
        assert(ledger.entry_of(owner) == ledger.entry(idx as int));
    }
    let not_empty = {
        let e = &ledger.entries[idx];
        e.base_token_free != 0 || e.quote_token_free != 0 || e.base_token_locked != 0
            || e.quote_token_locked != 0 || e.has_open_orders()
    };
    if not_empty {
        return Err(ErrorCode::OpenOrdersAccountNotEmpty);
    }
    let _ = ledger.entries.remove(idx);
    proof {
        old(ledger).entries@.remove_ensures(idx as int);
        assert forall|a: int| 0 <= a < ledger.len()
            implies (#[trigger] ledger.entry(a)).wf() by {
            if a < idx as int {
                assert(ledger.entry(a) == old(ledger).entry(a));
            } else {
                assert(ledger.entry(a) == old(ledger).entry(a + 1));
            }
        }
        assert forall|a: int, b: int| 0 <= a < b < ledger.len()
            implies (#[trigger] ledger.entry(a)).owner != (#[trigger] ledger.entry(b)).owner by {
            let a0: int = if a < idx as int { a } else { a + 1 };
            let b0: int = if b < idx as int { b } else { b + 1 };
            assert(ledger.entry(a) == old(ledger).entry(a0));
            assert(ledger.entry(b) == old(ledger).entry(b0));
            assert(old(ledger).entry(a0).owner != old(ledger).entry(b0).owner);
        }
        assert(!ledger.has_owner(owner)) by {
            if ledger.has_owner(owner) {
                let w = choose|w: int| 0 <= w < ledger.len()
                    && (#[trigger] ledger.entry(w)).owner == owner;
                let w0: int = if w < idx as int { w } else { w + 1 };
                assert(ledger.entry(w) == old(ledger).entry(w0));
                assert(old(ledger).entry(w0).owner != old(ledger).entry(idx as int).owner);
            }
        };
    }
    Ok(())
}

} // verus!
