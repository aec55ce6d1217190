//! A limit-order matching core: per-pair order books with price-time priority.

pub mod price;
pub mod order_book;
pub mod laws;
pub mod engine;
