//! A decentralised limit order book: the orders of the users of an exchange, kept
//! by market, list and side, with the search for orders that can be filled or
//! triggered, and the user accounts that the orders come from.

pub mod dlob;
pub mod index;
pub mod market_operations;
pub mod math;
pub mod order_subscriber;
pub mod pubkey;
pub mod types;
pub mod usermap;
