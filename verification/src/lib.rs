//! A central limit order book for binary-outcome markets: price-time priority
//! matching over per-market books, with every rule stated as a contract.
//!
//! Prices and quantities are fixed-point integers, in millionths of a dollar
//! and of a share. The sign of a price carries the side: positive for a bid,
//! negative for an ask.

pub mod clock;
pub mod engine;
pub mod keys;
pub mod laws;
pub mod model;
pub mod orderbook;
pub mod publisher;
pub mod service;
pub mod text;
pub mod types;
pub mod utils;

pub use crate::engine::Engine;
pub use crate::orderbook::OrderBook;
pub use crate::service::OrderBookService;
pub use crate::types::{Order, Price, PriceLevel, Quantity, Trade};
pub use crate::utils::is_valid_poly_id;
