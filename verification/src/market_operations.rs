//! What the matching engine asks of a market, whichever its kind.

use vstd::prelude::*;

use crate::math::auction::truncated_quotient;
use crate::types::{MarketType, PerpMarket, SpotMarket, State, AMM_PAUSED, FILL_PAUSED};

verus! {

/// Whether every bit of `flag` is set in `status`.
pub open spec fn flag_set(status: u8, flag: u8) -> bool {
    status & flag == flag
}

/// The unsigned number with the bits of the signed `value`.
pub open spec fn as_unsigned(value: int) -> int {
    if value >= 0 {
        value
    } else {
        value + 0x1_0000_0000_0000_0000
    }
}

/// `amount` moved by `percent` of itself, rounded toward zero.
pub open spec fn adjusted(amount: int, percent: int) -> int {
    amount + truncated_quotient(amount * percent, 100)
}

/// A market as the matching engine sees it.
pub trait MarketOperations {
    /// The kind of the market.
    spec fn kind(&self) -> MarketType;

    /// The index of the market among those of its kind.
    spec fn index(&self) -> u16;

    /// The rebate of a maker as a fraction of the price.
    spec fn maker_rebate(&self, state: State) -> (u64, u64);

    /// Whether the data at hand tells if the AMM is paused.
    spec fn amm_status_known(&self, state: State) -> bool;

    /// Whether orders may not be filled against the AMM.
    spec fn amm_is_paused(&self, state: State) -> bool;

    /// Whether orders may not be filled at all.
    spec fn fill_is_paused(&self, state: State) -> bool;

    /// Gives the kind of the market.
    fn market_type(&self) -> (market_type: MarketType)
        ensures
            market_type == self.kind(),
    ;

    /// Gives the index of the market among those of its kind.
    fn market_index(&self) -> (market_index: u16)
        ensures
            market_index == self.index(),
    ;

    /// Gives the numerator and the denominator of the maker rebate.
    fn calculate_maker_rebate(&self, state: &State) -> (rebate: (u64, u64))
        ensures
            rebate == self.maker_rebate(*state),
    ;

    /// Says whether the data at hand tells if the AMM is paused.
    fn knows_amm_status(&self, state: &State) -> (known: bool)
        ensures
            known == self.amm_status_known(*state),
    ;

    /// Says whether orders may not be filled against the AMM.
    fn is_amm_paused(&self, state: &State) -> (paused: bool)
        requires
            self.amm_status_known(*state),
        ensures
            paused == self.amm_is_paused(*state),
    ;

    /// Says whether orders may not be filled at all.
    fn is_fill_paused(&self, state: &State) -> (paused: bool)
        ensures
            paused == self.fill_is_paused(*state),
    ;
}

impl MarketOperations for PerpMarket {
    open spec fn kind(&self) -> MarketType {
        MarketType::Perp
    }

    open spec fn index(&self) -> u16 {
        self.market_index
    }

    /// The rebate of the first fee tier, moved by the fee adjustment. An
    /// adjustment below minus a hundred percent makes the numerator negative,
    /// and its bits are then read as an unsigned number.
    open spec fn maker_rebate(&self, state: State) -> (u64, u64) {
        let tier = state.perp_fee_structure.fee_tiers[0];
        (
            as_unsigned(
                adjusted(tier.maker_rebate_numerator as int, self.fee_adjustment as int),
            ) as u64,
            tier.maker_rebate_denominator as u64,
        )
    }

    open spec fn amm_status_known(&self, state: State) -> bool {
        flag_set(state.exchange_status, AMM_PAUSED) || self.too_much_drawdown is Some
    }

    open spec fn amm_is_paused(&self, state: State) -> bool {
        flag_set(state.exchange_status, AMM_PAUSED) || self.amm_fill_paused
            || self.too_much_drawdown == Some(true)
    }

    open spec fn fill_is_paused(&self, state: State) -> bool {
        flag_set(state.exchange_status, FILL_PAUSED) || self.fill_paused
    }

    fn market_type(&self) -> (market_type: MarketType) {
        MarketType::Perp
    }

    fn market_index(&self) -> (market_index: u16) {
        self.market_index
    }

    fn calculate_maker_rebate(&self, state: &State) -> (rebate: (u64, u64)) {
        let mut maker_rebate_numerator: i64 =
            state.perp_fee_structure.fee_tiers[0].maker_rebate_numerator as i64;
        let maker_rebate_denominator: u64 =
            state.perp_fee_structure.fee_tiers[0].maker_rebate_denominator as u64;

        let fee_adjustment: i64 = self.fee_adjustment as i64;
        if fee_adjustment != 0 {
            assert(-0x8000_0000_0000 <= maker_rebate_numerator * fee_adjustment <= 0x8000_0000_0000)
                by (nonlinear_arith)
                requires
                    0 <= maker_rebate_numerator <= 0xFFFF_FFFF,
                    -0x8000 <= fee_adjustment <= 0x7FFF,
            ;
            maker_rebate_numerator += (maker_rebate_numerator * fee_adjustment) / 100;
        } else {
            assert(maker_rebate_numerator * fee_adjustment == 0) by (nonlinear_arith)
                requires
                    fee_adjustment == 0,
            ;
        }
        assert((maker_rebate_numerator as u64) == if maker_rebate_numerator >= 0 {
            maker_rebate_numerator as int
        } else {
            maker_rebate_numerator + 0x1_0000_0000_0000_0000
        }) by (bit_vector);

        (maker_rebate_numerator as u64, maker_rebate_denominator)
    }

    fn knows_amm_status(&self, state: &State) -> (known: bool) {
        state.exchange_status & AMM_PAUSED == AMM_PAUSED || self.too_much_drawdown.is_some()
    }

    fn is_amm_paused(&self, state: &State) -> (paused: bool) {
        if state.exchange_status & AMM_PAUSED == AMM_PAUSED {
            return true;
        }
        let is_op_paused = self.amm_fill_paused;
        let is_drawdown_pause = match self.too_much_drawdown {
            Some(drawdown) => drawdown,
            None => false,
        };
        is_op_paused || is_drawdown_pause
    }

    fn is_fill_paused(&self, state: &State) -> (paused: bool) {
        if state.exchange_status & FILL_PAUSED == FILL_PAUSED {
            return true;
        }
        self.fill_paused
    }
}

impl MarketOperations for SpotMarket {
    open spec fn kind(&self) -> MarketType {
        MarketType::Spot
    }

    open spec fn index(&self) -> u16 {
        self.market_index
    }

    /// The rebate of the first fee tier.
    open spec fn maker_rebate(&self, state: State) -> (u64, u64) {
        let tier = state.spot_fee_structure.fee_tiers[0];
        (tier.maker_rebate_numerator as u64, tier.maker_rebate_denominator as u64)
    }

    open spec fn amm_status_known(&self, state: State) -> bool {
        true
    }

    open spec fn amm_is_paused(&self, state: State) -> bool {
        flag_set(state.exchange_status, AMM_PAUSED)
    }

    open spec fn fill_is_paused(&self, state: State) -> bool {
        flag_set(state.exchange_status, FILL_PAUSED) || self.fill_paused
    }

    fn market_type(&self) -> (market_type: MarketType) {
        MarketType::Spot
    }

    fn market_index(&self) -> (market_index: u16) {
        self.market_index
    }

    fn calculate_maker_rebate(&self, state: &State) -> (rebate: (u64, u64)) {
        let maker_rebate_numerator: u32 =
            state.spot_fee_structure.fee_tiers[0].maker_rebate_numerator;
        let maker_rebate_denominator: u32 =
            state.spot_fee_structure.fee_tiers[0].maker_rebate_denominator;
        (maker_rebate_numerator as u64, maker_rebate_denominator as u64)
    }

    fn knows_amm_status(&self, state: &State) -> (known: bool) {
        true
    }

    fn is_amm_paused(&self, state: &State) -> (paused: bool) {
        state.exchange_status & AMM_PAUSED == AMM_PAUSED
    }

    fn is_fill_paused(&self, state: &State) -> (paused: bool) {
        if state.exchange_status & FILL_PAUSED == FILL_PAUSED {
            return true;
        }
        self.fill_paused
    }
}

/// What a perp market says of itself. Fills against its AMM are paused by the third bit
/// of the status of the exchange, by the market itself and by too much drawdown; all
/// fills are paused by the fourth bit and by the market itself.
pub proof fn lemma_perp_market(market: PerpMarket, state: State)
    ensures
        market.kind() == MarketType::Perp,
        market.index() == market.market_index,
        market.amm_is_paused(state) <==> state.exchange_status & 4u8 == 4u8
            || market.amm_fill_paused || market.too_much_drawdown == Some(true),
        market.amm_status_known(state) <==> state.exchange_status & 4u8 == 4u8
            || market.too_much_drawdown is Some,
        market.fill_is_paused(state) <==> state.exchange_status & 8u8 == 8u8 || market.fill_paused,
{
}

/// What a spot market says of itself.
pub proof fn lemma_spot_market(market: SpotMarket, state: State)
    ensures
        market.kind() == MarketType::Spot,
        market.index() == market.market_index,
        market.amm_is_paused(state) <==> state.exchange_status & 4u8 == 4u8,
        market.amm_status_known(state),
        market.fill_is_paused(state) <==> state.exchange_status & 8u8 == 8u8 || market.fill_paused,
        market.maker_rebate(state).0
            == state.spot_fee_structure.fee_tiers[0].maker_rebate_numerator,
        market.maker_rebate(state).1
            == state.spot_fee_structure.fee_tiers[0].maker_rebate_denominator,
{
}

/// The maker rebate of a perp market: that of the first fee tier, its numerator moved
/// by as many percent of itself as the fee adjustment says, rounded toward the tier's
/// own. Where the adjustment takes off more than all of it, the two's complement of
/// what is missing comes out.
pub proof fn lemma_perp_rebate(market: PerpMarket, state: State)
    ensures
        market.maker_rebate(state).1
            == state.perp_fee_structure.fee_tiers[0].maker_rebate_denominator,
        ({
            let tier = state.perp_fee_structure.fee_tiers[0].maker_rebate_numerator as int;
            let percent = market.fee_adjustment as int;
            let rebate = market.maker_rebate(state).0;
            let added = rebate - tier;
            &&& percent == 0 ==> rebate == tier
            &&& percent >= 0 ==> 0 <= added && added * 100 <= tier * percent < (added + 1) * 100
            &&& -100 <= percent <= 0 ==> 0 <= -added <= tier && (-added) * 100 <= tier * -percent
                < (-added + 1) * 100
            &&& percent < -100 ==> {
                ||| 0 <= -added <= tier && (-added) * 100 <= tier * -percent < (-added + 1) * 100
                ||| {
                    let off = 0x1_0000_0000_0000_0000 - added;
                    off > tier && off * 100 <= tier * -percent < (off + 1) * 100
                }
            }
        }),
{
    let tier = state.perp_fee_structure.fee_tiers[0].maker_rebate_numerator as int;
    let percent = market.fee_adjustment as int;
    let product = tier * percent;
    let moved = truncated_quotient(product, 100);
    assert(-0x8000_0000_0000 <= product <= 0x8000_0000_0000) by (nonlinear_arith)
        requires
            product == tier * percent,
            0 <= tier <= 0xFFFF_FFFF,
            -0x8000 <= percent <= 0x7FFF,
    ;
    assert(percent >= 0 ==> product >= 0) by (nonlinear_arith)
        requires
            product == tier * percent,
            tier >= 0,
    ;
    assert(percent <= 0 ==> product <= 0) by (nonlinear_arith)
        requires
            product == tier * percent,
            tier >= 0,
    ;
    assert(percent >= -100 ==> -product <= 100 * tier) by (nonlinear_arith)
        requires
            product == tier * percent,
            tier >= 0,
    ;
    assert(percent == 0 ==> product == 0) by (nonlinear_arith)
        requires
            product == tier * percent,
    ;
    assert(tier * -percent == -product) by (nonlinear_arith)
        requires
            product == tier * percent,
    ;
}

} // verus!
