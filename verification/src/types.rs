//! The exchange data that the order book reads: orders, oracle prices, the
//! exchange-wide state and the two kinds of market account.

use vstd::prelude::*;

verus! {

/// The two families of markets.
#[derive(Clone, Copy, Debug, PartialEq, Eq, Structural)]
pub enum MarketType {
    Spot,
    Perp,
}

/// Where an order stands in its life.
#[derive(Clone, Copy, Debug, PartialEq, Eq, Structural)]
pub enum OrderStatus {
    /// The slot of the account is unused.
    Init,
    Open,
    Filled,
    Canceled,
}

#[derive(Clone, Copy, Debug, PartialEq, Eq, Structural)]
pub enum OrderType {
    Market,
    Limit,
    TriggerMarket,
    TriggerLimit,
    /// A market order whose auction runs on offsets from the oracle price.
    Oracle,
}

#[derive(Clone, Copy, Debug, PartialEq, Eq, Structural)]
pub enum PositionDirection {
    Long,
    Short,
}

#[derive(Clone, Copy, Debug, PartialEq, Eq, Structural)]
pub enum OrderTriggerCondition {
    Above,
    Below,
    TriggeredAbove,
    TriggeredBelow,
}

/// An order as a user account holds it.
#[derive(Clone, Copy, Debug, PartialEq, Eq, Structural)]
pub struct Order {
    /// The slot in which the order was placed.
    pub slot: u64,
    pub price: u64,
    pub base_asset_amount: u64,
    pub base_asset_amount_filled: u64,
    pub quote_asset_amount_filled: u64,
    pub trigger_price: u64,
    pub auction_start_price: i64,
    pub auction_end_price: i64,
    /// The time after which the order is expired; zero for never.
    pub max_ts: i64,
    pub oracle_price_offset: i32,
    pub order_id: u32,
    pub market_index: u16,
    pub status: OrderStatus,
    pub order_type: OrderType,
    pub market_type: MarketType,
    pub user_order_id: u8,
    pub existing_position_direction: PositionDirection,
    pub direction: PositionDirection,
    pub reduce_only: bool,
    pub post_only: bool,
    pub immediate_or_cancel: bool,
    pub trigger_condition: OrderTriggerCondition,
    /// For how many slots after `slot` the auction of the order runs.
    pub auction_duration: u8,
}

impl Order {
    /// Whether no more than the whole of the order is filled.
    pub open spec fn within_size(self) -> bool {
        self.base_asset_amount_filled <= self.base_asset_amount
    }

    /// What is left to fill.
    pub open spec fn base_remaining(self) -> int {
        self.base_asset_amount - self.base_asset_amount_filled
    }

    /// The order once `base` more of it is filled.
    pub open spec fn with_more_filled(self, base: int) -> Order {
        Order {
            base_asset_amount_filled: (self.base_asset_amount_filled + base) as u64,
            ..self
        }
    }

    /// Whether two orders agree in all but the amount filled.
    pub open spec fn same_terms(self, other: Order) -> bool {
        self == (Order { base_asset_amount_filled: self.base_asset_amount_filled, ..other })
    }

    pub open spec fn limit_kind(self) -> bool {
        self.order_type == OrderType::Limit || self.order_type == OrderType::TriggerLimit
    }

    pub open spec fn trigger_kind(self) -> bool {
        self.order_type == OrderType::TriggerMarket || self.order_type == OrderType::TriggerLimit
    }

    pub open spec fn has_triggered(self) -> bool {
        self.trigger_condition == OrderTriggerCondition::TriggeredAbove
            || self.trigger_condition == OrderTriggerCondition::TriggeredBelow
    }

    /// Whether the order is of one of the two limit types.
    pub fn is_limit_order(&self) -> (limit: bool)
        ensures
            limit == self.limit_kind(),
    {
        matches!(self.order_type, OrderType::Limit | OrderType::TriggerLimit)
    }

    /// Whether the order is of a type that waits for a trigger price.
    pub fn must_be_triggered(&self) -> (trigger: bool)
        ensures
            trigger == self.trigger_kind(),
    {
        matches!(self.order_type, OrderType::TriggerMarket | OrderType::TriggerLimit)
    }

    /// Whether the trigger price of the order has been met.
    pub fn triggered(&self) -> (triggered: bool)
        ensures
            triggered == self.has_triggered(),
    {
        matches!(
            self.trigger_condition,
            OrderTriggerCondition::TriggeredAbove | OrderTriggerCondition::TriggeredBelow
        )
    }
}

/// The order of an unused slot: a long perp limit order in which all else is zero.
pub open spec fn default_order() -> Order {
    Order {
        slot: 0,
        price: 0,
        base_asset_amount: 0,
        base_asset_amount_filled: 0,
        quote_asset_amount_filled: 0,
        trigger_price: 0,
        auction_start_price: 0,
        auction_end_price: 0,
        max_ts: 0,
        oracle_price_offset: 0,
        order_id: 0,
        market_index: 0,
        status: OrderStatus::Init,
        order_type: OrderType::Limit,
        market_type: MarketType::Perp,
        user_order_id: 0,
        existing_position_direction: PositionDirection::Long,
        direction: PositionDirection::Long,
        reduce_only: false,
        post_only: false,
        immediate_or_cancel: false,
        trigger_condition: OrderTriggerCondition::Above,
        auction_duration: 0,
    }
}

impl Default for Order {
    fn default() -> (order: Self)
        ensures
            order == default_order(),
    {
        Order {
            slot: 0,
            price: 0,
            base_asset_amount: 0,
            base_asset_amount_filled: 0,
            quote_asset_amount_filled: 0,
            trigger_price: 0,
            auction_start_price: 0,
            auction_end_price: 0,
            max_ts: 0,
            oracle_price_offset: 0,
            order_id: 0,
            market_index: 0,
            status: OrderStatus::Init,
            order_type: OrderType::Limit,
            market_type: MarketType::Perp,
            user_order_id: 0,
            existing_position_direction: PositionDirection::Long,
            direction: PositionDirection::Long,
            reduce_only: false,
            post_only: false,
            immediate_or_cancel: false,
            trigger_condition: OrderTriggerCondition::Above,
            auction_duration: 0,
        }
    }
}

/// What an oracle last reported of a market.
#[derive(Clone, Copy, Debug, PartialEq, Eq, Structural)]
pub struct OraclePriceData {
    pub price: i64,
    pub confidence: u64,
    pub delay: i64,
    pub has_sufficient_number_of_data_points: bool,
}

/// The part of a fee tier that rewards makers.
#[derive(Clone, Copy, Debug, PartialEq, Eq, Structural)]
pub struct FeeTier {
    pub maker_rebate_numerator: u32,
    pub maker_rebate_denominator: u32,
}

#[derive(Clone, Copy, Debug)]
pub struct FeeStructure {
    pub fee_tiers: [FeeTier; 10],
}

/// The bit of `State::exchange_status` that pauses fills against the AMM.
pub const AMM_PAUSED: u8 = 4;

/// The bit of `State::exchange_status` that pauses all fills.
pub const FILL_PAUSED: u8 = 8;

/// The exchange status in which nothing is paused.
pub const EXCHANGE_ACTIVE: u8 = 0;

/// The exchange-wide settings.
#[derive(Clone, Copy, Debug)]
pub struct State {
    /// A set of pause bits, `EXCHANGE_ACTIVE` when nothing is paused.
    pub exchange_status: u8,
    pub perp_fee_structure: FeeStructure,
    pub spot_fee_structure: FeeStructure,
    pub min_perp_auction_duration: u8,
}

/// What the order book reads of a perp market account.
#[derive(Clone, Copy, Debug, PartialEq, Eq, Structural)]
pub struct PerpMarket {
    pub market_index: u16,
    /// The percentage by which the fees and rebates of the market are moved.
    pub fee_adjustment: i16,
    /// Whether fills against the AMM are paused for this market.
    pub amm_fill_paused: bool,
    /// Whether all fills are paused for this market.
    pub fill_paused: bool,
    /// Whether the AMM of the market has lost too much, or nothing where that
    /// could not be computed.
    pub too_much_drawdown: Option<bool>,
}

/// What the order book reads of a spot market account.
#[derive(Clone, Copy, Debug, PartialEq, Eq, Structural)]
pub struct SpotMarket {
    pub market_index: u16,
    /// Whether all fills are paused for this market.
    pub fill_paused: bool,
}

} // verus!
