//! The arithmetic of orders: auctions, limit prices and expiry.

pub mod auction;
pub mod laws;
pub mod order;
