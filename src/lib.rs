pub mod db;
pub mod score;
pub mod zset;

pub use db::{Db, KeyValue};
pub use score::Score;
pub use zset::{ScoreValue, StoreError, Zset};
