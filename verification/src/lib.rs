//! A double-auction (continuous limit order book) matching engine for a pair
//! of fungible assets.
//!
//! The engine keeps two ordered books of resting limit orders (bids and asks),
//! matches incoming orders against the opposite book under price-time
//! priority, settles every fill at the resting (maker) order's price, and
//! supports cancellation of resting orders by an owner-chosen handle.
//!
//! The engine never touches token balances itself: every operation returns the
//! ordered list of [`transfer::Transfer`] commands that the surrounding system
//! must apply to its ledger, atomically with the book update. On any error the
//! engine's state is unchanged and no transfer is commanded.

pub mod book;
pub mod engine;
pub mod index;
pub mod laws;
pub mod order;
pub mod price;
pub mod priority;
pub mod transfer;
