//! A self-refreshing feed of synthetic "transmission" log entries: a bounded,
//! time-limited list that is regenerated at most once per fixed interval,
//! survives restarts through a JSON-backed store, and is safe to share
//! between concurrent readers and refreshers.

pub mod clock;
pub mod codec;
pub mod manager;
pub mod message;
pub mod site;
pub mod state;
