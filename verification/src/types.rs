//! Shared data model: orders, arena nodes, sides and the error taxonomy.

use vstd::prelude::*;

verus! {

/// Largest number of orders a single book can hold.
pub const MAX_ORDERS_PER_BOOK: usize = 64;

/// Largest number of open orders a single participant can hold.
pub const MAX_OPEN_ORDERS_PER_USER: usize = 16;

/// Reserved index meaning "no node"; never a valid arena slot.
pub const SENTINEL: u32 = u32::MAX;

/// Data-model version recorded in every market.
pub const PROGRAM_VERSION: u8 = 2;

/// Default minimum base quantity for a new market.
pub const DEFAULT_MIN_BASE_QTY: u64 = 1;

/// Default minimum notional value for a new market.
pub const DEFAULT_MIN_NOTIONAL: u64 = 1;

/// Fixed-point scale for prices: a notional is `price * qty / PRICE_SCALE`.
pub const PRICE_SCALE: u64 = 1_000_000;

/// Fee rates are in basis points; 10_000 bps is 100%.
pub const BPS_DENOMINATOR: u64 = 10_000;

/// Which side of the market an order rests on.
#[derive(Clone, Copy, Debug, PartialEq, Eq, Structural)]
pub enum Side {
    Bid,
    Ask,
}

/// Kind of a limit order. The core algorithm treats every order as `Limit`;
/// post-only crossing prevention is outside its scope.
#[derive(Clone, Copy, Debug, PartialEq, Eq, Structural)]
pub enum OrderType {
    Limit,
    PostOnly,
}

/// The immutable economic terms of a resting request. `owner_account` is an
/// opaque handle to the owner's ledger entry, supplied by the host.
#[derive(Clone, Copy, Debug, PartialEq, Eq, Structural)]
pub struct Order {
    pub owner_account: u64,
    pub order_id: u64,
    pub price: u64,
    pub base_qty: u64,
}

/// State of an arena slot.
#[derive(Clone, Copy, Debug, PartialEq, Eq, Structural)]
pub enum NodeTag {
    Uninitialized,
    FreeNode,
    OrderNode,
}

impl Default for NodeTag {
    fn default() -> (r: Self)
        ensures
            r == NodeTag::Uninitialized,
    {
        NodeTag::Uninitialized
    }
}

/// One arena slot: an order plus the doubly-linked-list pointers.
#[derive(Clone, Copy, Debug, PartialEq, Eq, Structural)]
pub struct OrderNode {
    pub order: Order,
    pub next: u32,
    pub prev: u32,
    pub tag: NodeTag,
}

/// Everything that can go wrong in the core.
#[derive(Clone, Copy, Debug, PartialEq, Eq, Structural)]
pub enum ErrorCode {
    OrderBookFull,
    OrderNotFound,
    NodeNotFound,
    Unauthorized,
    InvalidOrderInput,
    OrderWouldCross,
    SelfTradeForbidden,
    MathOverflow,
    InvalidFee,
    OrderBookEmpty,
    InvalidMakerAccount,
    Paused,
    InvalidTickSize,
    InvalidLotSize,
    BelowMinBaseQty,
    BelowMinNotional,
    InvalidMint,
    InvalidVault,
    InvalidMarketParams,
    OpenOrdersFull,
    OrderNotFoundInOpenOrders,
    OpenOrdersAccountNotEmpty,
}

} // verus!
