//! The decentralised limit order book.

pub mod book;
pub mod checked;
pub mod dlob;
pub mod exchange;
pub mod fills;
pub mod heap;
pub mod laws;
pub mod market;
pub mod matching;
pub mod matching_laws;
pub mod node;
pub mod open_orders;
pub mod order_list;
pub mod order_queue;
pub mod quotes;
pub mod readiness;
pub mod resting;
pub mod search;
pub mod search_laws;
pub mod sorting;
pub mod steady;
pub mod storage_laws;
pub mod users;
pub mod utils;
pub mod watermark;
