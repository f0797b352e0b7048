//! What holds of auctions, prices, resting and expiry, in terms of the fields of an
//! order.

use vstd::prelude::*;

use crate::math::auction::{
    auction_complete, auction_elapsed, auction_price, auction_value, fallback_available,
    truncated_quotient,
};
use crate::math::order::{expired, expiry_in_range, has_limit_price, limit_price, resting};
use crate::types::{OraclePriceData, Order, OrderStatus, OrderType, PositionDirection};

verus! {

/// An auction is over from the first slot that lies more than its duration behind
/// the slot in which the order was placed, and not before. An order without an
/// auction is past it in every slot.
pub proof fn lemma_auction_ends(order: Order, slot: u64)
    ensures
        order.auction_duration == 0 ==> auction_complete(order, slot),
        order.auction_duration > 0 ==> (auction_complete(order, slot) <==> slot - order.slot
            > order.auction_duration),
{
}

/// Liquidity from outside the book may fill an order once more than the minimal
/// auction has passed since it was placed, at once where no minimal auction is asked
/// for, and at no other time.
pub proof fn lemma_fallback_waits(order: Order, min_auction_duration: u8, slot: u64)
    ensures
        min_auction_duration == 0 ==> fallback_available(order, min_auction_duration, slot),
        min_auction_duration > 0 ==> (fallback_available(order, min_auction_duration, slot)
            <==> slot - order.slot > min_auction_duration),
{
}

proof fn lemma_truncated(dividend: int, divisor: int)
    requires
        divisor > 0,
    ensures
        dividend >= 0 ==> 0 <= truncated_quotient(dividend, divisor) && truncated_quotient(
            dividend,
            divisor,
        ) * divisor <= dividend < (truncated_quotient(dividend, divisor) + 1) * divisor,
        dividend <= 0 ==> 0 <= -truncated_quotient(dividend, divisor) && (-truncated_quotient(
            dividend,
            divisor,
        )) * divisor <= -dividend < (-truncated_quotient(dividend, divisor) + 1) * divisor,
{
    let size = if dividend >= 0 {
        dividend
    } else {
        -dividend
    };
    let quotient = size / divisor;
    assert(0 <= quotient && quotient * divisor <= size && size < (quotient + 1) * divisor)
        by (nonlinear_arith)
        requires
            divisor > 0,
            size >= 0,
            quotient == size / divisor,
    ;
    assert(0int / divisor == 0) by (nonlinear_arith)
        requires
            divisor > 0,
    ;
}

/// The price of an auction runs on the line from its start to its end. Having gone
/// `passed` of its slots it has moved from the start toward the end by that share of
/// the way, rounded down. The auction of an oracle order moves about the oracle
/// price, every other one about zero.
pub proof fn lemma_auction_price_is_on_the_line(order: Order, slot: u64, oracle_price: i64)
    requires
        order.auction_duration > 0,
    ensures
        ({
            let about = if order.order_type == OrderType::Oracle {
                oracle_price as int
            } else {
                0
            };
            let start = order.auction_start_price as int;
            let end = order.auction_end_price as int;
            let duration = order.auction_duration as int;
            let passed = if slot <= order.slot {
                0int
            } else if slot >= order.slot + duration {
                duration
            } else {
                slot - order.slot
            };
            let moved = auction_price(order, slot, oracle_price) - about - start;
            &&& start <= end ==> 0 <= moved && moved * duration <= (end - start) * passed < (moved
                + 1) * duration
            &&& end <= start ==> 0 <= -moved && (-moved) * duration <= (start - end) * passed < (
            -moved + 1) * duration
        }),
{
    let start = order.auction_start_price as int;
    let end = order.auction_end_price as int;
    let duration = order.auction_duration as int;
    let passed = auction_elapsed(order, slot);
    let way = (end - start) * passed;
    lemma_truncated(way, duration);
    assert(start <= end ==> way >= 0) by (nonlinear_arith)
        requires
            way == (end - start) * passed,
            passed >= 0,
    ;
    assert(end <= start ==> way <= 0 && -way == (start - end) * passed) by (nonlinear_arith)
        requires
            way == (end - start) * passed,
            passed >= 0,
    ;
}

/// An auction stands at its start up to the slot in which the order was placed, and at
/// its end once its duration has passed.
pub proof fn lemma_auction_runs_from_start_to_end(order: Order, slot: u64, oracle_price: i64)
    ensures
        ({
            let about = if order.order_type == OrderType::Oracle {
                oracle_price as int
            } else {
                0
            };
            &&& order.auction_duration > 0 && slot <= order.slot ==> auction_price(
                order,
                slot,
                oracle_price,
            ) == about + order.auction_start_price
            &&& slot >= order.slot + order.auction_duration && order.auction_duration > 0
                ==> auction_price(order, slot, oracle_price) == about + order.auction_end_price
            &&& order.auction_duration == 0 ==> auction_price(order, slot, oracle_price) == about
                + order.auction_end_price
        }),
{
    let start = order.auction_start_price as int;
    let end = order.auction_end_price as int;
    let duration = order.auction_duration as int;
    if duration > 0 {
        lemma_auction_price_is_on_the_line(order, slot, oracle_price);
        let moved = auction_value(order, slot) - start;
        if slot <= order.slot {
            assert((end - start) * 0 == 0 && (start - end) * 0 == 0) by (nonlinear_arith);
            assert(moved == 0) by (nonlinear_arith)
                requires
                    duration > 0,
                    start <= end ==> 0 <= moved && moved * duration <= 0,
                    end <= start ==> 0 <= -moved && (-moved) * duration <= 0,
            ;
        } else if slot >= order.slot + duration {
            assert(moved == end - start) by (nonlinear_arith)
                requires
                    duration > 0,
                    start <= end ==> moved * duration <= (end - start) * duration < (moved + 1)
                        * duration,
                    end <= start ==> (-moved) * duration <= (start - end) * duration < (-moved + 1)
                        * duration,
            ;
        }
    }
}

/// The price of an order. While an auction that has a start or an end price runs, it
/// alone counts, whatever the direction, the offset, the limit and the fallback are.
/// Else an offset counts before the limit, and the limit before the fallback.
pub proof fn lemma_price(order: Order, oracle: OraclePriceData, slot: u64, fallback: Option<u64>)
    ensures
        ({
            let runs = order.auction_duration > 0 && slot <= order.slot + order.auction_duration;
            let auctioned = runs && (order.auction_start_price != 0 || order.auction_end_price
                != 0);
            let price = limit_price(order, oracle, slot, fallback);
            &&& auctioned ==> price == Some(auction_price(order, slot, oracle.price))
            &&& !auctioned && order.oracle_price_offset != 0 ==> price == Some(
                oracle.price + order.oracle_price_offset,
            )
            &&& !auctioned && order.oracle_price_offset == 0 && order.price > 0 ==> price == Some(
                order.price as int,
            )
            &&& !auctioned && order.oracle_price_offset == 0 && order.price == 0 ==> (
            fallback matches Some(p) ==> price == Some(p as int))
            &&& !auctioned && order.oracle_price_offset == 0 && order.price == 0 && fallback is None
                ==> price is None
        }),
        has_limit_price(order, oracle, slot, fallback) <==> limit_price(
            order,
            oracle,
            slot,
            fallback,
        ) is Some && 0 <= limit_price(order, oracle, slot, fallback)->0 < 0x1_0000_0000_0000_0000,
{
}

/// The price of an order in a running auction is on the line from the start to the end
/// price, and so lies between the two.
pub proof fn lemma_price_in_an_auction(
    order: Order,
    oracle: OraclePriceData,
    slot: u64,
    fallback: Option<u64>,
)
    requires
        order.auction_duration > 0,
        slot <= order.slot + order.auction_duration,
        order.auction_start_price != 0 || order.auction_end_price != 0,
    ensures
        limit_price(order, oracle, slot, fallback) is Some,
        ({
            let about = if order.order_type == OrderType::Oracle {
                oracle.price as int
            } else {
                0
            };
            let start = order.auction_start_price as int;
            let end = order.auction_end_price as int;
            let duration = order.auction_duration as int;
            let passed = if slot <= order.slot {
                0int
            } else {
                slot - order.slot
            };
            let moved = limit_price(order, oracle, slot, fallback)->0 - about - start;
            &&& start <= end ==> 0 <= moved <= end - start && moved * duration <= (end - start)
                * passed < (moved + 1) * duration
            &&& end <= start ==> 0 <= -moved <= start - end && (-moved) * duration <= (start - end)
                * passed < (-moved + 1) * duration
        }),
{
    let start = order.auction_start_price as int;
    let end = order.auction_end_price as int;
    let duration = order.auction_duration as int;
    let passed = auction_elapsed(order, slot);
    lemma_auction_price_is_on_the_line(order, slot, oracle.price);
    let moved = auction_value(order, slot) - start;
    assert(start <= end ==> moved <= end - start) by (nonlinear_arith)
        requires
            duration > 0,
            0 <= passed <= duration,
            start <= end ==> moved * duration <= (end - start) * passed,
    ;
    assert(end <= start ==> -moved <= start - end) by (nonlinear_arith)
        requires
            duration > 0,
            0 <= passed <= duration,
            end <= start ==> (-moved) * duration <= (start - end) * passed,
    ;
}

/// The price moves one way only while an auction runs.
pub proof fn lemma_auction_moves_one_way(order: Order, slot: u64, later: u64, oracle_price: i64)
    requires
        slot <= later,
    ensures
        order.auction_start_price <= order.auction_end_price ==> auction_price(
            order,
            slot,
            oracle_price,
        ) <= auction_price(order, later, oracle_price),
        order.auction_start_price >= order.auction_end_price ==> auction_price(
            order,
            slot,
            oracle_price,
        ) >= auction_price(order, later, oracle_price),
{
    let start = order.auction_start_price as int;
    let end = order.auction_end_price as int;
    let duration = order.auction_duration as int;
    if duration > 0 {
        lemma_auction_price_is_on_the_line(order, slot, oracle_price);
        lemma_auction_price_is_on_the_line(order, later, oracle_price);
        let a = auction_value(order, slot) - start;
        let b = auction_value(order, later) - start;
        let p = auction_elapsed(order, slot);
        let q = auction_elapsed(order, later);
        assert(start <= end ==> a <= b) by (nonlinear_arith)
            requires
                duration > 0,
                0 <= p <= q,
                start <= end ==> a * duration <= (end - start) * p,
                start <= end ==> (end - start) * q < (b + 1) * duration,
        ;
        assert(end <= start ==> -a <= -b) by (nonlinear_arith)
            requires
                duration > 0,
                0 <= p <= q,
                end <= start ==> (-a) * duration <= (start - end) * p,
                end <= start ==> (start - end) * q < (-b + 1) * duration,
        ;
    }
}

/// Which orders rest: limit orders that are post-only or past their auction, and
/// trigger limit orders past theirs whose limit does not lie beyond their trigger
/// price, above it for a long and below it for a short. No other type ever rests.
pub proof fn lemma_what_rests(order: Order, slot: u64)
    ensures
        ({
            let past = order.auction_duration == 0 || slot > order.slot + order.auction_duration;
            match order.order_type {
                OrderType::Limit => resting(order, slot) <==> order.post_only || past,
                OrderType::TriggerLimit => resting(order, slot) <==> past && match order.direction {
                    PositionDirection::Long => order.price <= order.trigger_price,
                    PositionDirection::Short => order.price >= order.trigger_price,
                },
                OrderType::Market => !resting(order, slot),
                OrderType::TriggerMarket => !resting(order, slot),
                OrderType::Oracle => !resting(order, slot),
            }
        }),
{
}

/// When an order is expired: it is open, of a type that waits for no trigger and has a
/// time limit, and that limit has passed, by more than fifteen seconds where the
/// buffer counts and the order is a limit order.
pub proof fn lemma_what_expires(order: Order, ts: i64, enforce_buffer: bool)
    ensures
        order.max_ts == 0 ==> !expired(order, ts, enforce_buffer),
        order.status != OrderStatus::Open ==> !expired(order, ts, enforce_buffer),
        order.max_ts != 0 && order.status == OrderStatus::Open ==> match order.order_type {
            OrderType::Limit => expired(order, ts, enforce_buffer) <==> ts - order.max_ts
                > if enforce_buffer {
                15int
            } else {
                0
            },
            OrderType::Market => expired(order, ts, enforce_buffer) <==> ts > order.max_ts,
            OrderType::Oracle => expired(order, ts, enforce_buffer) <==> ts > order.max_ts,
            OrderType::TriggerMarket => !expired(order, ts, enforce_buffer),
            OrderType::TriggerLimit => !expired(order, ts, enforce_buffer),
        },
{
}

/// An order that is expired stays expired.
pub proof fn lemma_expiry_is_for_good(order: Order, ts: i64, later: i64, enforce_buffer: bool)
    requires
        expired(order, ts, enforce_buffer),
        ts <= later,
    ensures
        expired(order, later, enforce_buffer),
{
}

/// Whether an order is expired can be told of every order but an open limit order that
/// has less than fifteen seconds left between its time limit and the last time there
/// is.
pub proof fn lemma_expiry_can_be_told(order: Order, enforce_buffer: bool)
    ensures
        !expiry_in_range(order, enforce_buffer) <==> enforce_buffer && order.order_type
            == OrderType::Limit && order.status == OrderStatus::Open && order.max_ts
            > 0x7FFF_FFFF_FFFF_FFFF - 15,
{
}

} // verus!
