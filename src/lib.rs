mod book;
mod engine;
mod index;
mod order;

pub use crate::book::BookEntry;
pub use crate::book::Orderbook;
pub use crate::engine::EngineError;
pub use crate::engine::TradingEngine;
pub use crate::engine::TradingEngineResponse;
pub use crate::order::Amount;
pub use crate::order::AskOrder;
pub use crate::order::BidOrder;
pub use crate::order::Exchangeable;
pub use crate::order::LimitPrice;
pub use crate::order::Order;
pub use crate::order::OrderId;
pub use crate::order::OrderKind;
pub use crate::order::OrderSide;
pub use crate::order::OrderStatus;
pub use crate::order::Trade;
