//! A list of orders of one type: a queue of bids and a queue of asks.

use vstd::prelude::*;

use crate::dlob::node::{Node, NodeType, SubType};
use crate::dlob::order_queue::{holds, inserted, replaced, OrderQueue};
use crate::pubkey::{text_spells, Pubkey};
use crate::types::Order;

verus! {

/// The two queues of an order list.
#[verifier::ext_equal]
pub struct ListView {
    pub bids: Seq<Node>,
    pub asks: Seq<Node>,
}

impl ListView {
    /// The queue of a side.
    pub open spec fn queue(self, sub_type: SubType) -> Seq<Node> {
        match sub_type {
            SubType::Bid => self.bids,
            SubType::Ask => self.asks,
        }
    }

    /// How many orders the list has.
    pub open spec fn size(self) -> nat {
        self.bids.len() + self.asks.len()
    }

    /// The list with the queue of a side set to `nodes`.
    pub open spec fn with_queue(self, sub_type: SubType, nodes: Seq<Node>) -> ListView {
        match sub_type {
            SubType::Bid => ListView { bids: nodes, ..self },
            SubType::Ask => ListView { asks: nodes, ..self },
        }
    }
}

/// A list of orders of one type.
pub struct OrderList {
    pub bids: OrderQueue,
    pub asks: OrderQueue,
}

impl View for OrderList {
    type V = ListView;

    open spec fn view(&self) -> ListView {
        ListView { bids: self.bids@, asks: self.asks@ }
    }
}

impl OrderList {
    /// Whether both queues are well-formed queues of a list of this type.
    pub open spec fn wf(&self, node_type: NodeType) -> bool {
        &&& self.bids.wf()
        &&& self.bids.list_type() == node_type
        &&& self.bids.side() == SubType::Bid
        &&& self.asks.wf()
        &&& self.asks.list_type() == node_type
        &&& self.asks.side() == SubType::Ask
    }

    /// Makes an empty list.
    pub fn new(node_type: NodeType) -> (list: OrderList)
        ensures
            list.wf(node_type),
            list@ == (ListView { bids: Seq::<Node>::empty(), asks: Seq::<Node>::empty() }),
    {
        OrderList {
            bids: OrderQueue::new(node_type, SubType::Bid),
            asks: OrderQueue::new(node_type, SubType::Ask),
        }
    }

    /// Puts a node among the bids.
    pub fn insert_bid(&mut self, node: Node)
        requires
            old(self).wf(old(self).bids.list_type()),
        ensures
            final(self).wf(old(self).bids.list_type()),
            final(self)@.asks == old(self)@.asks,
            inserted(
                old(self).bids.list_type(),
                SubType::Bid,
                old(self)@.bids,
                node,
                final(self)@.bids,
            ),
            text_spells(node.user_account),
    {
        self.bids.insert(node);
    }

    /// Puts a node among the asks.
    pub fn insert_ask(&mut self, node: Node)
        requires
            old(self).wf(old(self).bids.list_type()),
        ensures
            final(self).wf(old(self).bids.list_type()),
            final(self)@.bids == old(self)@.bids,
            inserted(
                old(self).bids.list_type(),
                SubType::Ask,
                old(self)@.asks,
                node,
                final(self)@.asks,
            ),
            text_spells(node.user_account),
    {
        self.asks.insert(node);
    }

    /// Writes an order into the node of that side with its signature, if there
    /// is one.
    pub fn update(&mut self, order: &Order, user_account: &Pubkey, sub_type: SubType)
        requires
            old(self).wf(old(self).bids.list_type()),
        ensures
            final(self).wf(old(self).bids.list_type()),
            final(self)@ == old(self)@.with_queue(sub_type, final(self)@.queue(sub_type)),
            replaced(
                old(self).bids.list_type(),
                sub_type,
                old(self)@.queue(sub_type),
                Node { order: *order, user_account: *user_account },
                final(self)@.queue(sub_type),
            ),
            text_spells(*user_account),
    {
        match sub_type {
            SubType::Bid => self.bids.update(order, user_account),
            SubType::Ask => self.asks.update(order, user_account),
        }
    }

    /// Finds the node with a signature, among the bids first.
    pub fn get_node(&self, signature: &str) -> (node: Option<&Node>)
        requires
            self.wf(self.bids.list_type()),
        ensures
            match node {
                Some(n) => {
                    &&& n.signature() == signature@
                    &&& if holds(self@.bids, signature@) {
                        self@.bids.contains(*n)
                    } else {
                        self@.asks.contains(*n)
                    }
                },
                None => !holds(self@.bids, signature@) && !holds(self@.asks, signature@),
            },
    {
        match self.bids.get(signature) {
            Some(node) => {
                proof {
                    let i = choose|i: int| 0 <= i < self@.bids.len() && self@.bids[i] == *node;
                    assert(self@.bids[i].signature() == signature@);
                }
                Some(node)
            },
            None => self.asks.get(signature),
        }
    }

    /// Counts the orders of the list.
    pub fn size(&self) -> (size: usize)
        requires
            self@.size() <= usize::MAX,
        ensures
            size == self@.size(),
    {
        self.bids.len() + self.asks.len()
    }

    /// Counts the orders of both sides, or gives nothing where they are more than can
    /// be counted.
    pub fn checked_size(&self) -> (size: Option<usize>)
        ensures
            size is Some == (self@.size() <= usize::MAX),
            size matches Some(n) ==> n == self@.size(),
    {
        self.bids.len().checked_add(self.asks.len())
    }

    /// Lists the nodes of a side, the best first.
    pub fn best_nodes(&self, sub_type: SubType) -> (nodes: Vec<Node>)
        requires
            self.wf(self.bids.list_type()),
        ensures
            nodes@ == self@.queue(sub_type),
    {
        match sub_type {
            SubType::Bid => self.bids.to_vec(),
            SubType::Ask => self.asks.to_vec(),
        }
    }
}

impl Clone for OrderList {
    fn clone(&self) -> (copy: Self)
        ensures
            self.wf(self.bids.list_type()) ==> copy.wf(self.bids.list_type()) && copy@ == self@,
    {
        OrderList { bids: self.bids.clone(), asks: self.asks.clone() }
    }
}

} // verus!
