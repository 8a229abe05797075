//! Market configuration: tick/lot alignment rules, fee rates, the pause flag
//! and the monotonic order-id sequence. Host-side addresses (mints, vaults,
//! authority) live with the host; the core never reads them.

use vstd::prelude::*;
use crate::types::{
    DEFAULT_MIN_BASE_QTY, DEFAULT_MIN_NOTIONAL, ErrorCode, BPS_DENOMINATOR, PROGRAM_VERSION,
};

verus! {

/// Configuration and mutable counters of one market.
#[derive(Clone, Copy, Debug, PartialEq, Eq, Structural)]
pub struct Market {
    pub version: u8,
    pub order_sequence_number: u64,
    pub maker_fee_bps: u16,
    pub taker_fee_bps: u16,
    pub paused: bool,
    pub tick_size: u64,
    pub base_lot_size: u64,
    pub min_base_qty: u64,
    pub min_notional: u64,
}

impl Market {
    /// A market is well configured when both rates are at most 100% and the
    /// maker rate does not exceed the taker rate — the rebate a maker gets
    /// back at settlement is non-negative only under that ordering — and the
    /// alignment units are positive.
    pub open spec fn wf(&self) -> bool {
        &&& self.maker_fee_bps as int <= self.taker_fee_bps as int
        &&& self.taker_fee_bps as int <= BPS_DENOMINATOR as int
        &&& self.tick_size > 0
        &&& self.base_lot_size > 0
    }

    pub open spec fn fees_valid(maker_fee_bps: u16, taker_fee_bps: u16) -> bool {
        maker_fee_bps as int <= taker_fee_bps as int
            && taker_fee_bps as int <= BPS_DENOMINATOR as int
    }
}

/// Creates a market. Fee rates above 100%, or a maker rate above the taker
/// rate, are rejected as `InvalidFee`; a zero tick or lot size as
/// `InvalidMarketParams`. Omitted minimums fall back to the defaults.
pub fn initialize_market(
    maker_fee_bps: u16,
    taker_fee_bps: u16,
    tick_size: u64,
    base_lot_size: u64,
    min_base_qty: Option<u64>,
    min_notional: Option<u64>,
) -> (r: Result<Market, ErrorCode>)
    ensures
        match r {
            Result::Ok(m) => {
                &&& Market::fees_valid(maker_fee_bps, taker_fee_bps)
                &&& tick_size > 0 && base_lot_size > 0
                &&& m.wf()
                &&& m.version == PROGRAM_VERSION
                &&& m.order_sequence_number == 0
                &&& m.maker_fee_bps == maker_fee_bps
                &&& m.taker_fee_bps == taker_fee_bps
                &&& !m.paused
                &&& m.tick_size == tick_size
                &&& m.base_lot_size == base_lot_size
                &&& m.min_base_qty == if min_base_qty is Some { min_base_qty->0 } else { DEFAULT_MIN_BASE_QTY }
                &&& m.min_notional == if min_notional is Some { min_notional->0 } else { DEFAULT_MIN_NOTIONAL }
            },
            Result::Err(e) => {
                &&& (e == ErrorCode::InvalidFee <==> !Market::fees_valid(maker_fee_bps, taker_fee_bps))
                &&& (e == ErrorCode::InvalidMarketParams
                        <==> Market::fees_valid(maker_fee_bps, taker_fee_bps)
                            && (tick_size == 0 || base_lot_size == 0))
                &&& (e == ErrorCode::InvalidFee || e == ErrorCode::InvalidMarketParams)
            },
        },
{
    if maker_fee_bps as u64 > BPS_DENOMINATOR
        || taker_fee_bps as u64 > BPS_DENOMINATOR
        || maker_fee_bps > taker_fee_bps
    {
        return Err(ErrorCode::InvalidFee);
    }
    if tick_size == 0 || base_lot_size == 0 {
        return Err(ErrorCode::InvalidMarketParams);
    }
    let min_base = match min_base_qty {
        Some(v) => v,
        None => DEFAULT_MIN_BASE_QTY,
    };
    let min_not = match min_notional {
        Some(v) => v,
        None => DEFAULT_MIN_NOTIONAL,
    };
    Ok(Market {
        version: PROGRAM_VERSION,
        order_sequence_number: 0,
        maker_fee_bps,
        taker_fee_bps,
        paused: false,
        tick_size,
        base_lot_size,
        min_base_qty: min_base,
        min_notional: min_not,
    })
}

/// Pauses or resumes trading on the market.
pub fn set_pause(market: &mut Market, paused: bool)
    ensures
        *final(market) == (Market { paused, ..*old(market) }),
{
    market.paused = paused;
}

/// Replaces the fee rates, under the same validity rule as market creation.
pub fn set_fees(market: &mut Market, maker_fee_bps: u16, taker_fee_bps: u16) -> (r: Result<(), ErrorCode>)
    ensures
        match r {
            Result::Ok(()) => {
                &&& Market::fees_valid(maker_fee_bps, taker_fee_bps)
                &&& *final(market) == (Market { maker_fee_bps, taker_fee_bps, ..*old(market) })
            },
            Result::Err(e) => {
                &&& e == ErrorCode::InvalidFee
                &&& !Market::fees_valid(maker_fee_bps, taker_fee_bps)
                &&& *final(market) == *old(market)
            },
        },
{
    if maker_fee_bps as u64 > BPS_DENOMINATOR
        || taker_fee_bps as u64 > BPS_DENOMINATOR
        || maker_fee_bps > taker_fee_bps
    {
        return Err(ErrorCode::InvalidFee);
    }
    market.maker_fee_bps = maker_fee_bps;
    market.taker_fee_bps = taker_fee_bps;
    Ok(())
}

} // verus!
