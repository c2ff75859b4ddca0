//! Verified core of a small replicated chat ledger: messages, the mempool
//! that collects them before a commit, the ordering and merging of committed
//! messages, node configuration and the retry and fail-over policies that the
//! networked node and client follow.

pub mod text;
pub mod message;
pub mod mempool;
pub mod value_id;
pub mod ledger;
pub mod network;
pub mod retry;
pub mod failover;
pub mod sync;
