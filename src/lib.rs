pub mod auth;
pub mod batch;
pub mod fixed_key;
pub mod greeting;
pub mod laws;
pub mod order;
pub mod stable_map;
pub mod store;

pub use fixed_key::StorableStr;
pub use order::{OrderInfo, StoreOrderListResult};
