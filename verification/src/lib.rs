//! Backend state engine for a peer-to-peer ride-sharing marketplace with an
//! internal capped-supply token ledger: rides with rider/driver membership,
//! an append-only notification log, and a driver reward engine that credits
//! the ledger from ride-completion counts.

pub mod identity;
pub mod ledger;
pub mod rewards;
pub mod rides;
pub mod text;
