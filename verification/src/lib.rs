//! A small persistent auction ledger: parties list items under numeric keys,
//! other parties place monotonically increasing bids, and a listing owner can
//! close an item, transferring ownership to the highest bidder.

pub mod auction;
pub mod item;
pub mod store;
