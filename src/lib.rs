//! Core of a tangle node: the transaction store with its solidity,
//! confirmation and tip-selection metadata, the ledger, the white-flag
//! confirmation walk, tip scoring and selection, the solidifiers'
//! decisions, protocol configuration, and the heartbeat and handshake
//! messages.

pub mod b1t6;
pub mod config;
pub mod hash;
pub mod laws;
pub mod ledger;
pub mod logger;
pub mod messages;
pub mod neighbor;
pub mod protocol;
pub mod selection;
pub mod solidifier;
pub mod tangle;
pub mod tsa;
pub mod whiteflag;
