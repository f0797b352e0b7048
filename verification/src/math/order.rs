//! The price, the resting state and the expiry of an order.

use vstd::prelude::*;

use crate::math::auction::{get_auction_price, is_auction_complete};
use crate::types::{OraclePriceData, Order, OrderStatus, OrderType, PositionDirection};

verus! {

/// For how long past its `max_ts` a limit order still counts as live where the
/// buffer is enforced.
pub const EXPIRY_BUFFER: i64 = 15;

/// Whether `order` is priced by its auction in `slot`.
pub open spec fn auction_priced(order: Order, slot: u64) -> bool {
    !crate::math::auction::auction_complete(order, slot) && (order.auction_start_price != 0
        || order.auction_end_price != 0)
}

/// The price of `order`: that of its running auction, else the oracle price
/// moved by the offset, else the limit, else the fallback.
pub open spec fn limit_price(
    order: Order,
    oracle: OraclePriceData,
    slot: u64,
    fallback: Option<u64>,
) -> Option<int> {
    if auction_priced(order, slot) {
        Some(crate::math::auction::auction_price(order, slot, oracle.price))
    } else if order.oracle_price_offset != 0 {
        Some(oracle.price + order.oracle_price_offset)
    } else if order.price != 0 {
        Some(order.price as int)
    } else {
        match fallback {
            Some(price) => Some(price as int),
            None => None,
        }
    }
}

/// Whether `order` has a price, and one that an unsigned number can hold.
pub open spec fn has_limit_price(
    order: Order,
    oracle: OraclePriceData,
    slot: u64,
    fallback: Option<u64>,
) -> bool {
    match limit_price(order, oracle, slot, fallback) {
        Some(price) => 0 <= price <= u64::MAX,
        None => false,
    }
}

/// Whether `order` rests on the book in `slot`, so that it can be a maker.
pub open spec fn resting(order: Order, slot: u64) -> bool {
    if order.order_type == OrderType::TriggerLimit {
        &&& order.direction == PositionDirection::Long ==> order.trigger_price >= order.price
        &&& order.direction == PositionDirection::Short ==> order.trigger_price <= order.price
        &&& crate::math::auction::auction_complete(order, slot)
    } else {
        &&& order.order_type == OrderType::Limit
        &&& order.post_only || crate::math::auction::auction_complete(order, slot)
    }
}

/// Whether `order` can expire at all: it is open, waits for no trigger and has
/// a time limit.
pub open spec fn can_expire(order: Order) -> bool {
    !order.trigger_kind() && order.status == OrderStatus::Open && order.max_ts != 0
}

/// The last time at which `order` is live.
pub open spec fn last_live_ts(order: Order, enforce_buffer: bool) -> int {
    if order.limit_kind() && enforce_buffer {
        order.max_ts + EXPIRY_BUFFER
    } else {
        order.max_ts as int
    }
}

/// Whether `order` is expired at `ts`.
pub open spec fn expired(order: Order, ts: i64, enforce_buffer: bool) -> bool {
    can_expire(order) && ts > last_live_ts(order, enforce_buffer)
}

/// Whether the last live time of `order` is a time that can be written down.
pub open spec fn expiry_in_range(order: Order, enforce_buffer: bool) -> bool {
    can_expire(order) ==> last_live_ts(order, enforce_buffer) <= i64::MAX
}

/// The price does not depend on how much of the order is filled.
pub proof fn lemma_price_ignores_fills(
    order: Order,
    other: Order,
    oracle: OraclePriceData,
    slot: u64,
    fallback: Option<u64>,
)
    requires
        order.same_terms(other),
    ensures
        limit_price(order, oracle, slot, fallback) == limit_price(other, oracle, slot, fallback),
        resting(order, slot) == resting(other, slot),
{
}

/// An order that rests goes on resting in every later slot.
pub proof fn lemma_resting_is_stable(order: Order, slot: u64, later: u64)
    requires
        resting(order, slot),
        slot <= later,
    ensures
        resting(order, later),
{
}

/// Enforcing the buffer only ever puts the expiry off.
pub proof fn lemma_buffer_delays_expiry(order: Order, ts: i64)
    requires
        expired(order, ts, true),
    ensures
        expired(order, ts, false),
{
}

/// Gives the price of `order`, or nothing where it has none or one that does
/// not fit.
pub fn checked_limit_price(
    order: &Order,
    oracle_price_data: &OraclePriceData,
    slot: u64,
    fallback_price: Option<u64>,
) -> (price: Option<u64>)
    ensures
        price is Some == has_limit_price(*order, *oracle_price_data, slot, fallback_price),
        price matches Some(p) ==> limit_price(*order, *oracle_price_data, slot, fallback_price)
            == Some(p as int),
{
    if has_auction_price(order, slot) {
        to_price(get_auction_price(order, slot, oracle_price_data.price))
    } else if order.oracle_price_offset != 0 {
        to_price(oracle_price_data.price as i128 + order.oracle_price_offset as i128)
    } else if order.price == 0 {
        fallback_price
    } else {
        Some(order.price)
    }
}

/// Gives the price of `order`, which must have one.
pub fn get_limit_price(
    order: &Order,
    oracle_price_data: &OraclePriceData,
    slot: u64,
    fallback_price: Option<u64>,
) -> (price: u64)
    requires
        has_limit_price(*order, *oracle_price_data, slot, fallback_price),
    ensures
        limit_price(*order, *oracle_price_data, slot, fallback_price) == Some(price as int),
{
    match checked_limit_price(order, oracle_price_data, slot, fallback_price) {
        Some(price) => price,
        None => 0,
    }
}

fn to_price(value: i128) -> (price: Option<u64>)
    ensures
        price is Some == (0 <= value <= u64::MAX),
        price matches Some(p) ==> p == value,
{
    if 0 <= value && value <= u64::MAX as i128 {
        Some(value as u64)
    } else {
        None
    }
}

fn has_auction_price(order: &Order, slot: u64) -> (priced: bool)
    ensures
        priced == auction_priced(*order, slot),
{
    !is_auction_complete(order, slot) && (order.auction_start_price != 0 || order.auction_end_price
        != 0)
}

/// Says whether `order` rests on the book in `slot`: a limit order that is
/// post-only or past its auction. A trigger limit order is past its auction and
/// its trigger price does not lie on the wrong side of its limit.
pub fn is_resting_limit_order(order: &Order, slot: u64) -> (rests: bool)
    ensures
        rests == resting(*order, slot),
{
    if !order.is_limit_order() {
        return false;
    }
    if order.order_type == OrderType::TriggerLimit {
        return match order.direction {
            PositionDirection::Long if order.trigger_price < order.price => false,
            PositionDirection::Short if order.trigger_price > order.price => false,
            _ => is_auction_complete(order, slot),
        };
    }
    order.post_only || is_auction_complete(order, slot)
}

/// Says whether the last live time of `order` is a time that can be written down.
pub fn is_expiry_in_range(order: &Order, enforce_buffer: bool) -> (in_range: bool)
    ensures
        in_range == expiry_in_range(*order, enforce_buffer),
{
    order.must_be_triggered() || order.status != OrderStatus::Open || order.max_ts == 0
        || !enforce_buffer || !is_limit_order(order) || order.max_ts <= i64::MAX - EXPIRY_BUFFER
}

/// Says whether `order` is expired at `ts`. An order that waits for a trigger,
/// is not open or has no time limit never is. With `enforce_buffer` a limit
/// order is given some time more.
pub fn is_order_expired(order: &Order, ts: i64, enforce_buffer: bool) -> (is_expired: bool)
    requires
        expiry_in_range(*order, enforce_buffer),
    ensures
        is_expired == expired(*order, ts, enforce_buffer),
{
    if order.must_be_triggered() || order.status != OrderStatus::Open || order.max_ts == 0 {
        return false;
    }
    let mut max_ts: i64 = order.max_ts;
    if is_limit_order(order) && enforce_buffer {
        max_ts += EXPIRY_BUFFER;
    }
    ts > max_ts
}

fn is_limit_order(order: &Order) -> (limit: bool)
    ensures
        limit == order.limit_kind(),
{
    matches!(order.order_type, OrderType::Limit | OrderType::TriggerLimit)
}

} // verus!
