//! The auction that runs for the first slots of an order's life.

use vstd::prelude::*;

use crate::types::{Order, OrderType};

verus! {

/// Whether the auction of `order` is over in `slot`. An order without an
/// auction is always past it.
pub open spec fn auction_complete(order: Order, slot: u64) -> bool {
    order.auction_duration == 0 || order.slot + order.auction_duration < slot
}

/// The quotient of two integers, rounded toward zero. The divisor is positive.
pub open spec fn truncated_quotient(dividend: int, divisor: int) -> int {
    if dividend >= 0 {
        dividend / divisor
    } else {
        -((-dividend) / divisor)
    }
}

/// How many slots of the auction have passed in `slot`, at most all of them.
pub open spec fn auction_elapsed(order: Order, slot: u64) -> int {
    if slot <= order.slot {
        0
    } else if slot - order.slot >= order.auction_duration {
        order.auction_duration as int
    } else {
        slot - order.slot
    }
}

/// The value on the line from the start to the end of the auction.
pub open spec fn auction_value(order: Order, slot: u64) -> int {
    if order.auction_duration == 0 {
        order.auction_end_price as int
    } else {
        order.auction_start_price + truncated_quotient(
            (order.auction_end_price - order.auction_start_price) * auction_elapsed(order, slot),
            order.auction_duration as int,
        )
    }
}

/// The price at which the auction stands. The auction of an oracle order moves
/// between offsets from the oracle price, every other one between prices.
pub open spec fn auction_price(order: Order, slot: u64, oracle_price: i64) -> int {
    if order.order_type == OrderType::Oracle {
        oracle_price + auction_value(order, slot)
    } else {
        auction_value(order, slot)
    }
}

/// Whether liquidity outside the book may fill `order` in `slot`.
pub open spec fn fallback_available(order: Order, min_auction_duration: u8, slot: u64) -> bool {
    min_auction_duration == 0 || order.slot + min_auction_duration < slot
}

/// An auction that is over stays over.
pub proof fn lemma_auction_complete_is_stable(order: Order, slot: u64, later: u64)
    requires
        auction_complete(order, slot),
        slot <= later,
    ensures
        auction_complete(order, later),
{
}

/// Says whether the auction of `order` is over in `slot`.
pub fn is_auction_complete(order: &Order, slot: u64) -> (complete: bool)
    ensures
        complete == auction_complete(*order, slot),
{
    if order.auction_duration == 0 {
        return true;
    }
    slot > order.slot && slot - order.slot > order.auction_duration as u64
}

/// Says whether liquidity outside the book may fill `order`: at once where no
/// minimal auction is asked for, else once that many slots have passed.
pub fn is_fallback_available(order: &Order, min_auction_duration: u8, slot: u64) -> (available: bool)
    ensures
        available == fallback_available(*order, min_auction_duration, slot),
{
    if min_auction_duration == 0 {
        return true;
    }
    slot > order.slot && slot - order.slot > min_auction_duration as u64
}

fn get_auction_value(order: &Order, slot: u64) -> (value: i128)
    ensures
        value == auction_value(*order, slot),
        -0x1_0000_0000_0000_0000_0000 < value < 0x1_0000_0000_0000_0000_0000,
{
    if order.auction_duration == 0 {
        return order.auction_end_price as i128;
    }
    let duration: i128 = order.auction_duration as i128;
    let elapsed: i128 = if slot <= order.slot {
        0
    } else if slot - order.slot >= order.auction_duration as u64 {
        duration
    } else {
        (slot - order.slot) as i128
    };
    let spread: i128 = order.auction_end_price as i128 - order.auction_start_price as i128;
    assert(-0x100_0000_0000_0000_0000 <= spread * elapsed <= 0x100_0000_0000_0000_0000)
        by (nonlinear_arith)
        requires
            -0x1_0000_0000_0000_0000 <= spread <= 0x1_0000_0000_0000_0000,
            0 <= elapsed <= 256,
    ;
    order.auction_start_price as i128 + (spread * elapsed) / duration
}

/// Gives the price at which the auction of `order` stands in `slot`. It may be
/// negative.
pub fn get_auction_price(order: &Order, slot: u64, oracle_price: i64) -> (price: i128)
    ensures
        price == auction_price(*order, slot, oracle_price),
{
    let value: i128 = get_auction_value(order, slot);
    if order.order_type == OrderType::Oracle {
        oracle_price as i128 + value
    } else {
        value
    }
}

} // verus!
