pub mod benchmark;
pub mod engine;
pub mod laws;
pub mod matching;
pub mod order;
pub mod order_book;
pub mod scenario;
pub mod stats;
pub mod text;
pub mod trade;
pub mod types;

pub use benchmark::benchmark_price;
pub use engine::{MatchingEngine, ModifyOrderResponse, OrderResponse};
pub use order::Order;
pub use order_book::OrderBook;
pub use stats::EngineStats;
pub use trade::Trade;
pub use types::{OrderId, Price, Quantity, Side};
