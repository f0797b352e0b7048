//! The nodes of the order book and the signatures by which they are found.

use vstd::prelude::*;

use crate::math::order::{get_limit_price, has_limit_price, limit_price};
use crate::pubkey::{lemma_pubkey_text_is_injective, pubkey_text, text_spells, Pubkey};
use crate::types::{OraclePriceData, Order};

verus! {

/// The list of a market in which an order stands.
#[derive(Clone, Copy, Debug, PartialEq, Eq, Structural)]
pub enum NodeType {
    TakingLimit,
    RestingLimit,
    FloatingLimit,
    Market,
    Trigger,
}

/// The side of a list. In the trigger list the bids are the orders that fire
/// above their trigger price, the asks those that fire below it.
#[derive(Clone, Copy, Debug, PartialEq, Eq, Structural)]
pub enum SubType {
    Bid,
    Ask,
}

/// An order on the book together with the account that placed it.
#[derive(Clone, Copy, Debug)]
pub struct Node {
    pub order: Order,
    pub user_account: Pubkey,
}

/// A node that can be filled, with the nodes that would make the fill. Where
/// there are none the liquidity comes from outside the book.
#[derive(Debug)]
pub struct NodeToFill {
    pub node: Node,
    pub maker_nodes: Vec<Node>,
}

/// A node whose trigger price is met.
#[derive(Clone, Copy, Debug)]
pub struct NodeToTrigger {
    pub node: Node,
}

/// What a node to fill says.
#[verifier::ext_equal]
pub struct Fill {
    pub node: Node,
    pub makers: Seq<Node>,
}

impl View for NodeToFill {
    type V = Fill;

    open spec fn view(&self) -> Fill {
        Fill { node: self.node, makers: self.maker_nodes@ }
    }
}

/// What a list of nodes to fill says.
pub open spec fn fills(nodes: Seq<NodeToFill>) -> Seq<Fill> {
    nodes.map_values(|node: NodeToFill| node@)
}

/// The decimal digits of a number.
pub open spec fn decimal(n: nat) -> Seq<char>
    decreases n,
{
    if n < 10 {
        seq![digit(n)]
    } else {
        decimal(n / 10).push(digit(n % 10))
    }
}

/// The character of one decimal digit.
pub open spec fn digit(n: nat) -> char {
    (n + 48) as char
}

/// The text by which an order is found: its number, a dash, and the address of
/// the account.
pub open spec fn order_signature(order_id: u32, user_account: Pubkey) -> Seq<char> {
    decimal(order_id as nat) + seq!['-'] + pubkey_text(user_account.bytes@)
}

impl Node {
    /// The signature of the order of this node.
    pub open spec fn signature(self) -> Seq<char> {
        order_signature(self.order.order_id, self.user_account)
    }

    /// The price of the node.
    pub open spec fn price(self, oracle: OraclePriceData, slot: u64) -> int {
        limit_price(self.order, oracle, slot, None)->0
    }

    /// Whether the node has a price.
    pub open spec fn priced(self, oracle: OraclePriceData, slot: u64) -> bool {
        has_limit_price(self.order, oracle, slot, None)
    }

    /// Gives the order.
    pub fn get_order(&self) -> (order: &Order)
        ensures
            *order == self.order,
    {
        &self.order
    }

    /// Gives the account that placed the order.
    pub fn get_user_account(&self) -> (user_account: Pubkey)
        ensures
            user_account == self.user_account,
    {
        self.user_account
    }

    /// Gives the price of the node, which must have one.
    pub fn get_price(&self, oracle_price_data: OraclePriceData, slot: u64) -> (price: u64)
        requires
            self.priced(oracle_price_data, slot),
        ensures
            price == self.price(oracle_price_data, slot),
    {
        get_limit_price(&self.order, &oracle_price_data, slot, None)
    }
}

/// Makes the node of an order.
pub fn create_node(order: Order, user_account: Pubkey) -> (node: Node)
    ensures
        node == (Node { order, user_account }),
{
    Node { order, user_account }
}

fn digit_text(n: u32) -> (text: &'static str)
    requires
        n < 10,
    ensures
        text@ == seq![digit(n as nat)],
{
    proof {
        reveal_strlit("0");
        reveal_strlit("1");
        reveal_strlit("2");
        reveal_strlit("3");
        reveal_strlit("4");
        reveal_strlit("5");
        reveal_strlit("6");
        reveal_strlit("7");
        reveal_strlit("8");
        reveal_strlit("9");
    }
    let text = match n {
        0 => "0",
        1 => "1",
        2 => "2",
        3 => "3",
        4 => "4",
        5 => "5",
        6 => "6",
        7 => "7",
        8 => "8",
        _ => "9",
    };
    assert(text@ =~= seq![digit(n as nat)]);
    text
}

fn decimal_text(n: u32) -> (text: String)
    ensures
        text@ == decimal(n as nat),
    decreases n,
{
    if n < 10 {
        String::from_str(digit_text(n))
    } else {
        let mut text = decimal_text(n / 10);
        text.append(digit_text(n % 10));
        assert(text@ =~= decimal(n as nat));
        text
    }
}

/// Gives the text by which an order is found.
pub fn get_order_signature(order_id: u32, user_account: Pubkey) -> (signature: String)
    ensures
        signature@ == order_signature(order_id, user_account),
        text_spells(user_account),
{
    let mut signature = decimal_text(order_id);
    proof {
        reveal_strlit("-");
    }
    assert("-"@ =~= seq!['-']);
    signature.append("-");
    signature.append(user_account.to_text().as_str());
    signature
}

proof fn lemma_decimal_digits(n: nat)
    ensures
        decimal(n).len() > 0,
        forall|i: int| 0 <= i < decimal(n).len() ==> 48 <= #[trigger] decimal(n)[i] as int <= 57,
    decreases n,
{
    if n >= 10 {
        lemma_decimal_digits(n / 10);
    }
}

proof fn lemma_decimal_is_injective(a: nat, b: nat)
    requires
        decimal(a) == decimal(b),
    ensures
        a == b,
    decreases a,
{
    lemma_decimal_digits(a / 10);
    lemma_decimal_digits(b / 10);
    assert(decimal(a).last() == digit(a % 10));
    assert(decimal(b).last() == digit(b % 10));
    assert(a % 10 == b % 10);
    if a >= 10 {
        assert(decimal(a).len() > 1);
        assert(decimal(a).drop_last() =~= decimal(a / 10));
        assert(decimal(b).drop_last() =~= decimal(b / 10));
        lemma_decimal_is_injective(a / 10, b / 10);
    } else {
        assert(decimal(a).len() == 1);
    }
}

/// A signature names one order of one account: two orders with one signature
/// have the same number and the same account.
pub proof fn lemma_signature_is_injective(id: u32, user: Pubkey, other_id: u32, other_user: Pubkey)
    requires
        text_spells(user),
        text_spells(other_user),
        order_signature(id, user) == order_signature(other_id, other_user),
    ensures
        id == other_id,
        user == other_user,
{
    let s = order_signature(id, user);
    let a = decimal(id as nat);
    let b = decimal(other_id as nat);
    lemma_decimal_digits(id as nat);
    lemma_decimal_digits(other_id as nat);
    assert(s[a.len() as int] == '-');
    assert(s[b.len() as int] == '-');
    if a.len() < b.len() {
        assert(s[a.len() as int] == b[a.len() as int]);
        assert(false);
    }
    if b.len() < a.len() {
        assert(s[b.len() as int] == a[b.len() as int]);
        assert(false);
    }
    assert(a =~= s.take(a.len() as int));
    assert(b =~= s.take(b.len() as int));
    lemma_decimal_is_injective(id as nat, other_id as nat);
    assert(pubkey_text(user.bytes@) =~= s.skip(a.len() as int + 1));
    assert(pubkey_text(other_user.bytes@) =~= s.skip(b.len() as int + 1));
    lemma_pubkey_text_is_injective(user, other_user);
}

} // verus!
