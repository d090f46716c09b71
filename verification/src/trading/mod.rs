pub mod account;
pub mod book_history;
pub mod book_laws;
pub mod cancel_laws;
pub mod engine;
pub mod events;
pub mod ledger;
pub mod market;
pub mod matching;
pub mod order;
pub mod orderbook;
pub mod persister;
pub mod positions;
pub mod prices;
pub mod properties;
pub mod resting_laws;
pub mod strmap;
pub mod sweep_laws;

pub use engine::Engine;
pub use events::{Event, TradeEvent};
pub use market::Market;
pub use order::{AccountId, Order, OrderId, OrderType, Side};
pub use orderbook::{OrderBook, Trade};
pub use persister::Persister;
pub use positions::{Position, PositionsStore};
