//! The order lists of one market, and the list in which an order belongs.

use vstd::prelude::*;

use crate::dlob::node::{Node, NodeType, SubType};
use crate::dlob::order_list::{ListView, OrderList};
use crate::dlob::order_queue::holds;
use crate::math::order::{is_resting_limit_order, resting};
use crate::types::{Order, OrderTriggerCondition, OrderType, PositionDirection};

verus! {

/// The side on which an order that waits for no trigger stands.
pub open spec fn direction_side(direction: PositionDirection) -> SubType {
    match direction {
        PositionDirection::Long => SubType::Bid,
        PositionDirection::Short => SubType::Ask,
    }
}

/// Whether an order still waits for its trigger price.
pub open spec fn awaits_trigger(order: Order) -> bool {
    order.trigger_kind() && !order.has_triggered()
}

/// The side on which an order stands.
pub open spec fn order_side(order: Order) -> SubType {
    if awaits_trigger(order) {
        if order.trigger_condition == OrderTriggerCondition::Above {
            SubType::Bid
        } else {
            SubType::Ask
        }
    } else {
        direction_side(order.direction)
    }
}

/// The list in which an order stands in `slot`.
pub open spec fn order_list_type(order: Order, slot: u64) -> NodeType {
    if awaits_trigger(order) {
        NodeType::Trigger
    } else if !order.limit_kind() {
        NodeType::Market
    } else if order.oracle_price_offset != 0 {
        NodeType::FloatingLimit
    } else if resting(order, slot) {
        NodeType::RestingLimit
    } else {
        NodeType::TakingLimit
    }
}

/// Gives the side and the list in which an order stands in `slot`.
pub fn get_node_subtype_and_type(order: &Order, slot: u64) -> (place: (SubType, NodeType))
    ensures
        place.0 == order_side(*order),
        place.1 == order_list_type(*order, slot),
{
    if order.must_be_triggered() && !order.triggered() {
        return match order.trigger_condition {
            OrderTriggerCondition::Above => (SubType::Bid, NodeType::Trigger),
            _ => (SubType::Ask, NodeType::Trigger),
        };
    }
    let sub_type = match order.direction {
        PositionDirection::Long => SubType::Bid,
        PositionDirection::Short => SubType::Ask,
    };
    let node_type = match order.order_type {
        OrderType::Market | OrderType::TriggerMarket | OrderType::Oracle => NodeType::Market,
        _ => if order.oracle_price_offset != 0 {
            NodeType::FloatingLimit
        } else if is_resting_limit_order(order, slot) {
            NodeType::RestingLimit
        } else {
            NodeType::TakingLimit
        },
    };
    (sub_type, node_type)
}

/// The order lists of a market.
#[verifier::ext_equal]
pub struct MarketView {
    pub resting_limit_orders: ListView,
    pub floating_limit_orders: ListView,
    pub taking_limit_orders: ListView,
    pub market_orders: ListView,
    pub trigger_orders: ListView,
}

impl MarketView {
    /// The list of a type.
    pub open spec fn list(self, node_type: NodeType) -> ListView {
        match node_type {
            NodeType::RestingLimit => self.resting_limit_orders,
            NodeType::FloatingLimit => self.floating_limit_orders,
            NodeType::TakingLimit => self.taking_limit_orders,
            NodeType::Market => self.market_orders,
            NodeType::Trigger => self.trigger_orders,
        }
    }

    /// The market with the list of a type set to `list`.
    pub open spec fn with_list(self, node_type: NodeType, list: ListView) -> MarketView {
        match node_type {
            NodeType::RestingLimit => MarketView { resting_limit_orders: list, ..self },
            NodeType::FloatingLimit => MarketView { floating_limit_orders: list, ..self },
            NodeType::TakingLimit => MarketView { taking_limit_orders: list, ..self },
            NodeType::Market => MarketView { market_orders: list, ..self },
            NodeType::Trigger => MarketView { trigger_orders: list, ..self },
        }
    }

    /// The queue of a list and a side.
    pub open spec fn queue(self, node_type: NodeType, sub_type: SubType) -> Seq<Node> {
        self.list(node_type).queue(sub_type)
    }

    /// The market with one queue set to `nodes`.
    pub open spec fn with_queue(
        self,
        node_type: NodeType,
        sub_type: SubType,
        nodes: Seq<Node>,
    ) -> MarketView {
        self.with_list(node_type, self.list(node_type).with_queue(sub_type, nodes))
    }
}

impl MarketView {
    /// Whether a look through the queues finds this order under the signature: a
    /// node with both is in one of the queues, and no queue whose turn comes before
    /// has the signature.
    pub open spec fn finds(self, signature: Seq<char>, order: Order) -> bool {
        exists|node_type: NodeType, sub_type: SubType, node: Node| #[trigger]
            self.queue(node_type, sub_type).contains(node) && node.signature() == signature
                && node.order == order && self.first_with(signature, node_type, sub_type)
    }

    /// Whether no queue whose turn comes before that of this one has the signature.
    pub open spec fn first_with(
        self,
        signature: Seq<char>,
        node_type: NodeType,
        sub_type: SubType,
    ) -> bool {
        forall|earlier: NodeType, side: SubType|
            turn(earlier, side) < turn(node_type, sub_type) ==> !holds(
                #[trigger] self.queue(earlier, side),
                signature,
            )
    }

    /// How many orders the market has, over all lists and both sides.
    pub open spec fn size(self) -> nat {
        self.resting_limit_orders.size() + self.floating_limit_orders.size()
            + self.taking_limit_orders.size() + self.market_orders.size()
            + self.trigger_orders.size()
    }
}

/// When the turn of a queue comes as the queues of a market are looked through:
/// the resting, the floating, the taking, the market and the trigger orders, in
/// each the bids before the asks.
pub open spec fn turn(node_type: NodeType, sub_type: SubType) -> int {
    let list: int = match node_type {
        NodeType::RestingLimit => 0,
        NodeType::FloatingLimit => 1,
        NodeType::TakingLimit => 2,
        NodeType::Market => 3,
        NodeType::Trigger => 4,
    };
    match sub_type {
        SubType::Bid => 2 * list,
        SubType::Ask => 2 * list + 1,
    }
}

/// Gives the sum of two counts, or nothing where one is missing or the sum does not
/// fit.
pub fn checked_sum(a: Option<usize>, b: Option<usize>) -> (sum: Option<usize>)
    ensures
        sum is Some == (a is Some && b is Some && a->0 + b->0 <= usize::MAX),
        sum matches Some(n) ==> n == a->0 + b->0,
{
    match (a, b) {
        (Some(a), Some(b)) => a.checked_add(b),
        _ => None,
    }
}

/// A list without orders.
pub open spec fn empty_list() -> ListView {
    ListView { bids: Seq::empty(), asks: Seq::empty() }
}

/// A market without orders.
pub open spec fn empty_market() -> MarketView {
    MarketView {
        resting_limit_orders: empty_list(),
        floating_limit_orders: empty_list(),
        taking_limit_orders: empty_list(),
        market_orders: empty_list(),
        trigger_orders: empty_list(),
    }
}

/// The orders of a market, by list.
pub struct Market {
    pub resting_limit_orders: OrderList,
    pub floating_limit_orders: OrderList,
    pub taking_limit_orders: OrderList,
    pub market_orders: OrderList,
    pub trigger_orders: OrderList,
}

impl View for Market {
    type V = MarketView;

    open spec fn view(&self) -> MarketView {
        MarketView {
            resting_limit_orders: self.resting_limit_orders@,
            floating_limit_orders: self.floating_limit_orders@,
            taking_limit_orders: self.taking_limit_orders@,
            market_orders: self.market_orders@,
            trigger_orders: self.trigger_orders@,
        }
    }
}

impl Market {
    /// The list of a type.
    pub open spec fn list(&self, node_type: NodeType) -> OrderList {
        match node_type {
            NodeType::RestingLimit => self.resting_limit_orders,
            NodeType::FloatingLimit => self.floating_limit_orders,
            NodeType::TakingLimit => self.taking_limit_orders,
            NodeType::Market => self.market_orders,
            NodeType::Trigger => self.trigger_orders,
        }
    }

    /// The market with the list of a type set to `list`.
    pub open spec fn with_list(&self, node_type: NodeType, list: OrderList) -> Market {
        match node_type {
            NodeType::RestingLimit => Market { resting_limit_orders: list, ..*self },
            NodeType::FloatingLimit => Market { floating_limit_orders: list, ..*self },
            NodeType::TakingLimit => Market { taking_limit_orders: list, ..*self },
            NodeType::Market => Market { market_orders: list, ..*self },
            NodeType::Trigger => Market { trigger_orders: list, ..*self },
        }
    }

    /// Whether every list is a well-formed list of its type.
    pub open spec fn wf(&self) -> bool {
        &&& self.resting_limit_orders.wf(NodeType::RestingLimit)
        &&& self.floating_limit_orders.wf(NodeType::FloatingLimit)
        &&& self.taking_limit_orders.wf(NodeType::TakingLimit)
        &&& self.market_orders.wf(NodeType::Market)
        &&& self.trigger_orders.wf(NodeType::Trigger)
    }

    /// Makes a market without orders.
    pub fn new() -> (market: Market)
        ensures
            market.wf(),
            market@ == empty_market(),
    {
        Market {
            resting_limit_orders: OrderList::new(NodeType::RestingLimit),
            floating_limit_orders: OrderList::new(NodeType::FloatingLimit),
            taking_limit_orders: OrderList::new(NodeType::TakingLimit),
            market_orders: OrderList::new(NodeType::Market),
            trigger_orders: OrderList::new(NodeType::Trigger),
        }
    }

    /// Counts the orders of the market.
    pub fn size(&self) -> (size: usize)
        requires
            self@.size() <= usize::MAX,
        ensures
            size == self@.size(),
    {
        self.resting_limit_orders.size() + self.floating_limit_orders.size()
            + self.taking_limit_orders.size() + self.market_orders.size()
            + self.trigger_orders.size()
    }

    /// Counts the orders of the market, or gives nothing where they are more than can
    /// be counted.
    pub fn checked_size(&self) -> (size: Option<usize>)
        ensures
            size is Some == (self@.size() <= usize::MAX),
            size matches Some(n) ==> n == self@.size(),
    {
        let limits = checked_sum(
            self.resting_limit_orders.checked_size(),
            self.floating_limit_orders.checked_size(),
        );
        let takers = checked_sum(
            self.taking_limit_orders.checked_size(),
            self.market_orders.checked_size(),
        );
        checked_sum(checked_sum(limits, takers), self.trigger_orders.checked_size())
    }

    /// Finds an order by its signature, looking through the queues in turn.
    pub fn get_order(&self, signature: &str) -> (order: Option<Order>)
        requires
            self.wf(),
        ensures
            match order {
                Some(o) => self@.finds(signature@, o),
                None => forall|node_type: NodeType, sub_type: SubType|
                    !holds(#[trigger] self@.queue(node_type, sub_type), signature@),
            },
    {
        let lists: [&OrderList; 5] = [
            &self.resting_limit_orders,
            &self.floating_limit_orders,
            &self.taking_limit_orders,
            &self.market_orders,
            &self.trigger_orders,
        ];
        let ghost types = seq![
            NodeType::RestingLimit,
            NodeType::FloatingLimit,
            NodeType::TakingLimit,
            NodeType::Market,
            NodeType::Trigger,
        ];
        let mut i: usize = 0;
        while i < 5
            invariant
                i <= 5,
                self.wf(),
                types == seq![
                    NodeType::RestingLimit,
                    NodeType::FloatingLimit,
                    NodeType::TakingLimit,
                    NodeType::Market,
                    NodeType::Trigger,
                ],
                forall|k: int|
                    0 <= k < 5 ==> *#[trigger] lists@[k] == self.list(types[k]) && lists@[k].wf(
                        types[k],
                    ),
                forall|k: int, sub_type: SubType|
                    0 <= k < i ==> !holds(
                        #[trigger] self@.queue(types[k], sub_type),
                        signature@,
                    ),
            decreases 5 - i,
        {
            let ghost k = i as int;
            let list = lists[i];
            assert(list@ == self@.list(types[k]));
            if let Some(node) = list.get_node(signature) {
                proof {
                    let side = if holds(list@.bids, signature@) {
                        SubType::Bid
                    } else {
                        SubType::Ask
                    };
                    assert(self@.queue(types[k], side).contains(*node));
                    assert forall|earlier: NodeType, other: SubType|
                        turn(earlier, other) < turn(types[k], side) implies !holds(
                        #[trigger] self@.queue(earlier, other),
                        signature@,
                    ) by {
                        let j = turn(earlier, other) / 2;
                        assert(types[j] == earlier);
                        if j < k {
                            assert(!holds(self@.queue(types[j], other), signature@));
                        } else {
                            assert(j == k && side == SubType::Ask && other == SubType::Bid);
                        }
                    }
                    assert(self@.first_with(signature@, types[k], side));
                }
                return Some(*node.get_order());
            }
            assert forall|sub_type: SubType| !holds(
                #[trigger] self@.queue(types[k], sub_type),
                signature@,
            ) by {
                match sub_type {
                    SubType::Bid => {},
                    SubType::Ask => {},
                }
            }
            i += 1;
        }
        proof {
            assert(types[0] == NodeType::RestingLimit);
            assert(types[1] == NodeType::FloatingLimit);
            assert(types[2] == NodeType::TakingLimit);
            assert(types[3] == NodeType::Market);
            assert(types[4] == NodeType::Trigger);
            assert forall|node_type: NodeType, sub_type: SubType| !holds(
                #[trigger] self@.queue(node_type, sub_type),
                signature@,
            ) by {
                let k: int = match node_type {
                    NodeType::RestingLimit => 0,
                    NodeType::FloatingLimit => 1,
                    NodeType::TakingLimit => 2,
                    NodeType::Market => 3,
                    NodeType::Trigger => 4,
                };
                assert(!holds(self@.queue(types[k], sub_type), signature@));
            }
        }
        None
    }

    /// Gives the list of a type, to read.
    pub fn get_order_list_for_node_type(&self, node_type: NodeType) -> (list: &OrderList)
        ensures
            *list == self.list(node_type),
    {
        match node_type {
            NodeType::RestingLimit => &self.resting_limit_orders,
            NodeType::FloatingLimit => &self.floating_limit_orders,
            NodeType::TakingLimit => &self.taking_limit_orders,
            NodeType::Market => &self.market_orders,
            NodeType::Trigger => &self.trigger_orders,
        }
    }

    /// Gives the list of a type, to change.
    pub fn get_order_list_for_node_insert(&mut self, node_type: NodeType) -> (list: &mut OrderList)
        ensures
            *list == old(self).list(node_type),
            *final(self) == old(self).with_list(node_type, *final(list)),
    {
        match node_type {
            NodeType::RestingLimit => &mut self.resting_limit_orders,
            NodeType::FloatingLimit => &mut self.floating_limit_orders,
            NodeType::TakingLimit => &mut self.taking_limit_orders,
            NodeType::Market => &mut self.market_orders,
            NodeType::Trigger => &mut self.trigger_orders,
        }
    }
}

impl Clone for Market {
    fn clone(&self) -> (copy: Self)
        ensures
            self.wf() ==> copy.wf() && copy@ == self@,
    {
        Market {
            resting_limit_orders: self.resting_limit_orders.clone(),
            floating_limit_orders: self.floating_limit_orders.clone(),
            taking_limit_orders: self.taking_limit_orders.clone(),
            market_orders: self.market_orders.clone(),
            trigger_orders: self.trigger_orders.clone(),
        }
    }
}

} // verus!
