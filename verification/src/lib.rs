//! A sharded in-memory key-value store with expiry, snapshots and a binary wire protocol.
//!
//! Keys are text, values are arbitrary bytes. [`ShardedKV`] is the store; the contracts of its
//! operations speak of its [`model::StoreView`]. [`protocol`] serves requests on it, [`snapshot`]
//! writes it to bytes and restores it, [`server`] and [`config`] hold what a server around it
//! decides, and [`laws`] states what holds across operations. What each of them does is said once
//! more in plainer terms: of the entries of a store in [`laws_store`], of the bytes on the wire in
//! [`laws_wire`] and [`laws_serve`] and of those in a file in [`laws_snapshot`], and of characters
//! and numbers in [`laws_server`]; and of calls and what they return in [`laws_calls`] and
//! [`laws_exchanges`].
pub mod bytes;
pub mod clock;
pub mod config;
pub mod crc;
pub mod entry;
pub mod fields;
pub mod laws;
pub mod laws_calls;
pub mod laws_exchanges;
pub mod laws_serve;
pub mod laws_server;
pub mod laws_snapshot;
pub mod laws_store;
pub mod laws_wire;
pub mod model;
pub mod protocol;
pub mod request;
pub mod server;
pub mod shard;
pub mod snapshot;
pub mod sort;
pub mod store;
pub mod text;

pub use clock::now_ms;
pub use entry::{Entry, TtlInfo};
pub use store::ShardedKV;
