//! A single-instrument limit-order-book matching engine with price-time
//! priority, verified with Verus.
pub mod arena;
pub mod book_side;
pub mod clock;
pub mod engine;
pub mod events;
pub mod id_index;
pub mod logger;
pub mod match_iter;
pub mod order_book;
pub mod orders;
pub mod price_key;
pub mod price_level;
pub mod replay;
pub mod text;
