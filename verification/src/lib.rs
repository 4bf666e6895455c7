//! Verified core of the Aegeri layered-consensus ledger: signed messages and
//! their identities, transaction sets, consensus-stage indexes and proposals, the
//! quorum rules that aggregate them, the sender-accounting subcommittee, blocks
//! and their transitions, and a node's mempool, transaction store, agreement
//! handling, bootstrap gate and inbound and outbound message steps.

pub mod block;
pub mod bootstrap;
pub mod channel;
pub mod clock;
pub mod client;
pub mod cluster;
pub mod crypto;
pub mod executor;
pub mod id;
pub mod index;
pub mod keys;
pub mod mempool;
pub mod message;
pub mod message_in;
pub mod message_out;
pub mod order;
pub mod program;
pub mod proposal;
pub mod quorum;
pub mod store;
pub mod subcommittee;
pub mod tables;
pub mod task;
pub mod transaction_set;
pub mod transition;

